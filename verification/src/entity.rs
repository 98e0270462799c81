//! The records this crate works on: cameras, the surfaces they render to, and
//! the store that holds both.

use crate::geometry::{AspectRatio, Rect};
use vstd::prelude::*;

verus! {

/// What a camera renders to.
#[derive(Clone, Copy, Debug, PartialEq, Eq)]
pub enum RenderTarget {
    /// The primary surface, whichever surface that is when the target is
    /// resolved.
    Primary,
    /// The surface with this id.
    Surface(u64),
    /// A target that is no surface, such as an off-screen image. A camera with
    /// this target is never fitted.
    Offscreen,
}

/// A view of the scene: the ratio it wants, the target it renders to, and
/// the viewport rectangle computed for it.
#[derive(Clone, Copy, Debug, PartialEq, Eq)]
pub struct Camera {
    pub id: u64,
    /// The desired ratio of the viewport, width to height.
    pub aspect_ratio: AspectRatio,
    pub target: RenderTarget,
    /// The rectangle last fitted for this camera, in pixels of its surface;
    /// `None` until the first fit.
    pub viewport: Option<Rect>,
    /// Set when `aspect_ratio` has been written since change detection last
    /// observed this camera.
    pub ratio_changed: bool,
}

/// A window-like record: a size in physical pixels and the primary flag.
#[derive(Clone, Copy, Debug, PartialEq, Eq)]
pub struct Surface {
    pub id: u64,
    pub width: u32,
    pub height: u32,
    pub primary: bool,
}

/// The cameras and surfaces of the host, in the order in which they are
/// scanned.
///
/// Ids are looked up by position: where two records of one kind carry the
/// same id, the earlier one is the record with that id. A host that names
/// each record once has `distinct_camera_ids` and `distinct_surface_ids`.
#[derive(Debug)]
pub struct Scene {
    pub cameras: Vec<Camera>,
    pub surfaces: Vec<Surface>,
}

impl Camera {
    /// A camera that has no viewport yet. It counts as changed, so that the
    /// next change detection reports it and it is fitted for the first time.
    pub fn new(id: u64, aspect_ratio: AspectRatio, target: RenderTarget) -> (v: Camera)
        ensures
            v == (Camera { id, aspect_ratio, target, viewport: None, ratio_changed: true }),
    {
        Camera { id, aspect_ratio, target, viewport: None, ratio_changed: true }
    }

    /// Writes the desired ratio and marks the camera as changed, also where
    /// the new ratio equals the old one.
    pub fn set_aspect_ratio(&mut self, aspect_ratio: AspectRatio)
        ensures
            *final(self) == (Camera { aspect_ratio, ratio_changed: true, ..*old(self) }),
    {
        self.aspect_ratio = aspect_ratio;
        self.ratio_changed = true;
    }
}

impl Surface {
    pub fn new(id: u64, width: u32, height: u32, primary: bool) -> (s: Surface)
        ensures
            s == (Surface { id, width, height, primary }),
    {
        Surface { id, width, height, primary }
    }

    /// Whether the surface has pixels at all. Nothing is fitted in a surface
    /// without.
    pub open spec fn has_area(&self) -> bool {
        self.width > 0 && self.height > 0
    }
}

/// Whether no two cameras share an id, as in a host that names each camera
/// once.
pub open spec fn distinct_camera_ids(cameras: Seq<Camera>) -> bool {
    forall|i: int, j: int|
        0 <= i < j < cameras.len() ==> (#[trigger] cameras[i]).id != (#[trigger] cameras[j]).id
}

/// Whether no two surfaces share an id.
pub open spec fn distinct_surface_ids(surfaces: Seq<Surface>) -> bool {
    forall|i: int, j: int|
        0 <= i < j < surfaces.len() ==> (#[trigger] surfaces[i]).id != (#[trigger] surfaces[j]).id
}

/// Whether `i` is the first position in `cameras` that holds the id `id`.
pub open spec fn is_camera_position(cameras: Seq<Camera>, id: u64, i: int) -> bool {
    &&& 0 <= i < cameras.len()
    &&& cameras[i].id == id
    &&& forall|j: int| 0 <= j < i ==> cameras[j].id != id
}

/// The position of the camera with id `id`: the first that holds it.
pub open spec fn camera_position(cameras: Seq<Camera>, id: u64) -> Option<int> {
    if exists|i: int| is_camera_position(cameras, id, i) {
        Some(choose|i: int| is_camera_position(cameras, id, i))
    } else {
        None
    }
}

/// Whether `i` is the first position in `surfaces` that holds the id `id`.
pub open spec fn is_surface_position(surfaces: Seq<Surface>, id: u64, i: int) -> bool {
    &&& 0 <= i < surfaces.len()
    &&& surfaces[i].id == id
    &&& forall|j: int| 0 <= j < i ==> surfaces[j].id != id
}

/// The position of the surface with id `id`: the first that holds it.
pub open spec fn surface_position(surfaces: Seq<Surface>, id: u64) -> Option<int> {
    if exists|i: int| is_surface_position(surfaces, id, i) {
        Some(choose|i: int| is_surface_position(surfaces, id, i))
    } else {
        None
    }
}

/// A first position is the position, and an id that no camera holds has none.
pub proof fn lemma_camera_position(cameras: Seq<Camera>, id: u64)
    ensures
        forall|i: int| is_camera_position(cameras, id, i) ==> camera_position(cameras, id) == Some(i),
        (forall|j: int| 0 <= j < cameras.len() ==> cameras[j].id != id) ==> camera_position(cameras, id)
            is None,
        camera_position(cameras, id) matches Some(i) ==> is_camera_position(cameras, id, i),
{
    assert forall|i: int| is_camera_position(cameras, id, i) implies camera_position(cameras, id)
        == Some(i) by {
        let c = choose|c: int| is_camera_position(cameras, id, c);
        assert(is_camera_position(cameras, id, c));
        if c < i {
            assert(cameras[c].id != id);
        } else if i < c {
            assert(cameras[i].id != id);
        }
    }
}

/// A first position is the position, and an id that no surface holds has
/// none.
pub proof fn lemma_surface_position(surfaces: Seq<Surface>, id: u64)
    ensures
        forall|i: int|
            is_surface_position(surfaces, id, i) ==> surface_position(surfaces, id) == Some(i),
        (forall|j: int| 0 <= j < surfaces.len() ==> surfaces[j].id != id) ==> surface_position(
            surfaces,
            id,
        ) is None,
        surface_position(surfaces, id) matches Some(i) ==> is_surface_position(surfaces, id, i),
{
    assert forall|i: int| is_surface_position(surfaces, id, i) implies surface_position(
        surfaces,
        id,
    ) == Some(i) by {
        let c = choose|c: int| is_surface_position(surfaces, id, c);
        assert(is_surface_position(surfaces, id, c));
        if c < i {
            assert(surfaces[c].id != id);
        } else if i < c {
            assert(surfaces[i].id != id);
        }
    }
}

impl Scene {
    /// A scene without cameras or surfaces.
    pub fn new() -> (s: Scene)
        ensures
            s.cameras@.len() == 0,
            s.surfaces@.len() == 0,
    {
        Scene { cameras: Vec::new(), surfaces: Vec::new() }
    }

    /// Where the camera with id `id` stands, if there is one.
    pub fn find_camera(&self, id: u64) -> (r: Option<usize>)
        ensures
            match r {
                Some(i) => camera_position(self.cameras@, id) == Some(i as int),
                None => camera_position(self.cameras@, id) is None,
            },
    {
        let mut i: usize = 0;
        while i < self.cameras.len()
            invariant
                i <= self.cameras.len(),
                forall|j: int| 0 <= j < i ==> self.cameras@[j].id != id,
            decreases self.cameras.len() - i,
        {
            if self.cameras[i].id == id {
                proof {
                    assert(is_camera_position(self.cameras@, id, i as int));
                    lemma_camera_position(self.cameras@, id);
                }
                return Some(i);
            }
            i += 1;
        }
        proof {
            lemma_camera_position(self.cameras@, id);
        }
        None
    }

    /// Where the surface with id `id` stands, if there is one.
    pub fn find_surface(&self, id: u64) -> (r: Option<usize>)
        ensures
            match r {
                Some(i) => surface_position(self.surfaces@, id) == Some(i as int),
                None => surface_position(self.surfaces@, id) is None,
            },
    {
        let mut i: usize = 0;
        while i < self.surfaces.len()
            invariant
                i <= self.surfaces.len(),
                forall|j: int| 0 <= j < i ==> self.surfaces@[j].id != id,
            decreases self.surfaces.len() - i,
        {
            if self.surfaces[i].id == id {
                proof {
                    assert(is_surface_position(self.surfaces@, id, i as int));
                    lemma_surface_position(self.surfaces@, id);
                }
                return Some(i);
            }
            i += 1;
        }
        proof {
            lemma_surface_position(self.surfaces@, id);
        }
        None
    }
}

} // verus!
