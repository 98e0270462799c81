//! The resolver: from a signal to the pairs of camera and surface that need
//! a new fit.

use crate::entity::{
    camera_position, is_surface_position, lemma_surface_position, surface_position, Camera,
    RenderTarget, Scene, Surface,
};
use crate::signal::Signal;
use vstd::prelude::*;

verus! {

/// The outcome of looking for the primary surface.
#[derive(Clone, Copy, Debug, PartialEq, Eq)]
pub enum PrimaryLookup {
    /// No surface is flagged primary.
    NotFound,
    /// Exactly one surface is flagged primary: the one at this position.
    Found(usize),
    /// More than one surface is flagged primary.
    Ambiguous,
}

/// A camera and the surface it renders to, each by its position in the
/// scene.
#[derive(Clone, Copy, Debug, PartialEq, Eq)]
pub struct Pair {
    pub camera: usize,
    pub surface: usize,
}

/// Whether the surface at `i` is flagged primary and no other is.
pub open spec fn is_sole_primary(surfaces: Seq<Surface>, i: int) -> bool {
    &&& 0 <= i < surfaces.len()
    &&& surfaces[i].primary
    &&& forall|j: int| 0 <= j < surfaces.len() && surfaces[j].primary ==> j == i
}

/// The position of the primary surface, where exactly one surface is
/// flagged primary.
pub open spec fn sole_primary(surfaces: Seq<Surface>) -> Option<int> {
    if exists|i: int| is_sole_primary(surfaces, i) {
        Some(choose|i: int| is_sole_primary(surfaces, i))
    } else {
        None
    }
}

/// The position of the surface that `target` stands for: the sole primary
/// surface, or the surface with the given id. A primary target stands for
/// nothing while no surface or more than one is flagged primary.
pub open spec fn target_position(surfaces: Seq<Surface>, target: RenderTarget) -> Option<int> {
    match target {
        RenderTarget::Primary => sole_primary(surfaces),
        RenderTarget::Surface(id) => surface_position(surfaces, id),
        RenderTarget::Offscreen => None,
    }
}

/// The pairs for a changed surface among the first `n` cameras: in scan
/// order, each camera whose target stands for the surface at `surface`.
pub open spec fn fan_out(cameras: Seq<Camera>, surfaces: Seq<Surface>, surface: int, n: int) -> Seq<
    (int, int),
>
    decreases n,
{
    if n <= 0 {
        Seq::empty()
    } else {
        let before = fan_out(cameras, surfaces, surface, n - 1);
        if target_position(surfaces, cameras[n - 1].target) == Some(surface) {
            before.push((n - 1, surface))
        } else {
            before
        }
    }
}

/// The pairs, as camera position and surface position, that a signal calls
/// for.
///
/// A changed camera gives the pair of itself and the surface its target
/// stands for. A changed surface gives a pair for every camera whose target
/// stands for it. A signal for an id that nothing holds, or for a camera
/// whose target stands for no surface, gives nothing.
pub open spec fn resolve_spec(cameras: Seq<Camera>, surfaces: Seq<Surface>, signal: Signal) -> Seq<
    (int, int),
> {
    match signal {
        Signal::CameraChanged(id) => match camera_position(cameras, id) {
            Some(c) => match target_position(surfaces, cameras[c].target) {
                Some(s) => seq![(c, s)],
                None => Seq::empty(),
            },
            None => Seq::empty(),
        },
        Signal::SurfaceChanged(id) => match surface_position(surfaces, id) {
            Some(s) => fan_out(cameras, surfaces, s, cameras.len() as int),
            None => Seq::empty(),
        },
    }
}

/// The positions that a sequence of pairs holds.
pub open spec fn pair_positions(pairs: Seq<Pair>) -> Seq<(int, int)> {
    pairs.map_values(|p: Pair| (p.camera as int, p.surface as int))
}

/// Whether a position found at run time is the position `p`.
pub open spec fn is_position(found: Option<usize>, p: Option<int>) -> bool {
    match found {
        Some(i) => p == Some(i as int),
        None => p is None,
    }
}

/// A sole primary surface is the sole primary surface.
pub proof fn lemma_sole_primary(surfaces: Seq<Surface>)
    ensures
        forall|i: int| is_sole_primary(surfaces, i) ==> sole_primary(surfaces) == Some(i),
        sole_primary(surfaces) matches Some(i) ==> is_sole_primary(surfaces, i),
{
    assert forall|i: int| is_sole_primary(surfaces, i) implies sole_primary(surfaces) == Some(
        i,
    ) by {
        let c = choose|c: int| is_sole_primary(surfaces, c);
        assert(is_sole_primary(surfaces, c));
    }
}

impl Scene {
    /// Looks for the primary surface, and stops at the second surface that
    /// is flagged primary.
    pub fn find_primary(&self) -> (r: PrimaryLookup)
        ensures
            match r {
                PrimaryLookup::Found(i) => sole_primary(self.surfaces@) == Some(i as int),
                PrimaryLookup::NotFound => forall|j: int|
                    0 <= j < self.surfaces@.len() ==> !self.surfaces@[j].primary,
                PrimaryLookup::Ambiguous => exists|i: int, j: int|
                    0 <= i < j < self.surfaces@.len() && self.surfaces@[i].primary
                        && self.surfaces@[j].primary,
            },
            r is Found <==> sole_primary(self.surfaces@) is Some,
    {
        let mut found: Option<usize> = None;
        let mut i: usize = 0;
        while i < self.surfaces.len()
            invariant
                i <= self.surfaces.len(),
                match found {
                    Some(k) => k < i && self.surfaces@[k as int].primary && forall|j: int|
                        0 <= j < i && self.surfaces@[j].primary ==> j == k,
                    None => forall|j: int| 0 <= j < i ==> !self.surfaces@[j].primary,
                },
            decreases self.surfaces.len() - i,
        {
            if self.surfaces[i].primary {
                match found {
                    Some(k) => {
                        proof {
                            assert(0 <= k < i < self.surfaces@.len() && self.surfaces@[k as int].primary
                                && self.surfaces@[i as int].primary);
                            assert forall|s: int| !is_sole_primary(self.surfaces@, s) by {
                                if is_sole_primary(self.surfaces@, s) {
                                    assert(k as int == s);
                                    assert(i as int == s);
                                }
                            }
                        }
                        return PrimaryLookup::Ambiguous;
                    },
                    None => {
                        found = Some(i);
                    },
                }
            }
            i += 1;
        }
        match found {
            Some(k) => {
                proof {
                    assert(is_sole_primary(self.surfaces@, k as int));
                    lemma_sole_primary(self.surfaces@);
                }
                PrimaryLookup::Found(k)
            },
            None => PrimaryLookup::NotFound,
        }
    }

    /// The position of the surface that `target` stands for, if it stands
    /// for one.
    pub fn resolve_target(&self, target: RenderTarget) -> (r: Option<usize>)
        ensures
            is_position(r, target_position(self.surfaces@, target)),
    {
        match target {
            RenderTarget::Primary => match self.find_primary() {
                PrimaryLookup::Found(i) => Some(i),
                _ => None,
            },
            RenderTarget::Surface(id) => self.find_surface(id),
            RenderTarget::Offscreen => None,
        }
    }

    /// The pairs that `signal` calls for, in the order in which the cameras
    /// are scanned.
    pub fn resolve(&self, signal: Signal) -> (pairs: Vec<Pair>)
        ensures
            pair_positions(pairs@) == resolve_spec(self.cameras@, self.surfaces@, signal),
    {
        let mut pairs: Vec<Pair> = Vec::new();
        match signal {
            Signal::CameraChanged(id) => {
                if let Some(camera) = self.find_camera(id) {
                    if let Some(surface) = self.resolve_target(self.cameras[camera].target) {
                        pairs.push(Pair { camera, surface });
                    }
                }
            },
            Signal::SurfaceChanged(id) => {
                if let Some(surface) = self.find_surface(id) {
                    let primary = self.find_primary();
                    let mut i: usize = 0;
                    proof {
                        lemma_surface_position(self.surfaces@, id);
                    }
                    while i < self.cameras.len()
                        invariant
                            i <= self.cameras.len(),
                            is_surface_position(self.surfaces@, id, surface as int),
                            primary is Found <==> sole_primary(self.surfaces@) is Some,
                            primary matches PrimaryLookup::Found(p) ==> sole_primary(
                                self.surfaces@,
                            ) == Some(p as int),
                            pair_positions(pairs@) == fan_out(
                                self.cameras@,
                                self.surfaces@,
                                surface as int,
                                i as int,
                            ),
                        decreases self.cameras.len() - i,
                    {
                        let hit = match self.cameras[i].target {
                            RenderTarget::Primary => match primary {
                                PrimaryLookup::Found(p) => p == surface,
                                _ => false,
                            },
                            RenderTarget::Surface(wanted) => wanted == id,
                            RenderTarget::Offscreen => false,
                        };
                        proof {
                            if let RenderTarget::Surface(wanted) = self.cameras@[i as int].target {
                                lemma_surface_position(self.surfaces@, wanted);
                            }
                            assert(hit <==> target_position(
                                self.surfaces@,
                                self.cameras@[i as int].target,
                            ) == Some(surface as int));
                        }
                        if hit {
                            pairs.push(Pair { camera: i, surface });
                        }
                        i += 1;
                    }
                }
            },
        }
        pairs
    }
}

} // verus!
