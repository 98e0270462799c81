//! Change signals and the two detectors that emit them.

use crate::entity::{Camera, Scene};
use vstd::prelude::*;

verus! {

/// Something changed that may call for a new fit. A signal names what
/// changed by id and lives for one synchronization pass.
#[derive(Clone, Copy, Debug, PartialEq, Eq)]
pub enum Signal {
    /// The desired ratio of the camera with this id was written.
    CameraChanged(u64),
    /// The surface with this id was resized or changed its scale factor.
    SurfaceChanged(u64),
}

/// The signals that change detection emits for `cameras`: one for each
/// camera whose ratio was written since the last observation, in scan order.
pub open spec fn camera_signals(cameras: Seq<Camera>) -> Seq<Signal> {
    cameras.filter(|c: Camera| c.ratio_changed).map_values(|c: Camera| Signal::CameraChanged(c.id))
}

/// The signals for the notifications of one tick: one for each resize, then
/// one for each change of scale factor. A surface that was notified twice
/// is signalled twice.
pub open spec fn surface_signals(resized: Seq<u64>, rescaled: Seq<u64>) -> Seq<Signal> {
    resized.map_values(|id: u64| Signal::SurfaceChanged(id)) + rescaled.map_values(
        |id: u64| Signal::SurfaceChanged(id),
    )
}

/// The cameras as change detection leaves them: all observed, nothing else
/// touched.
pub open spec fn observed(cameras: Seq<Camera>) -> Seq<Camera> {
    cameras.map_values(|c: Camera| Camera { ratio_changed: false, ..c })
}

/// Turns the host's notifications into signals.
///
/// `resized` and `rescaled` hold the ids of the surfaces for which the host
/// reported a new size or a new scale factor since the last tick, each in
/// the order of the reports.
pub fn detect_surface_changes(resized: &Vec<u64>, rescaled: &Vec<u64>) -> (signals: Vec<Signal>)
    ensures
        signals@ == surface_signals(resized@, rescaled@),
{
    let mut signals: Vec<Signal> = Vec::new();
    let mut i: usize = 0;
    while i < resized.len()
        invariant
            i <= resized.len(),
            signals@ == resized@.take(i as int).map_values(|id: u64| Signal::SurfaceChanged(id)),
        decreases resized.len() - i,
    {
        signals.push(Signal::SurfaceChanged(resized[i]));
        proof {
            assert(resized@.take(i + 1) == resized@.take(i as int).push(resized@[i as int]));
        }
        i += 1;
    }
    assert(resized@.take(i as int) == resized@);
    let mut k: usize = 0;
    while k < rescaled.len()
        invariant
            k <= rescaled.len(),
            signals@ == resized@.map_values(|id: u64| Signal::SurfaceChanged(id))
                + rescaled@.take(k as int).map_values(|id: u64| Signal::SurfaceChanged(id)),
        decreases rescaled.len() - k,
    {
        signals.push(Signal::SurfaceChanged(rescaled[k]));
        proof {
            assert(rescaled@.take(k + 1) == rescaled@.take(k as int).push(rescaled@[k as int]));
        }
        k += 1;
    }
    assert(rescaled@.take(k as int) == rescaled@);
    signals
}

impl Scene {
    /// Reports the cameras whose ratio was written since they were last
    /// observed. The scene is left as it is: `observe_cameras` ends the
    /// observation.
    pub fn detect_camera_changes(&self) -> (signals: Vec<Signal>)
        ensures
            signals@ == camera_signals(self.cameras@),
    {
        let mut signals: Vec<Signal> = Vec::new();
        let mut i: usize = 0;
        while i < self.cameras.len()
            invariant
                i <= self.cameras.len(),
                signals@ == camera_signals(self.cameras@.take(i as int)),
            decreases self.cameras.len() - i,
        {
            proof {
                let changed = |c: Camera| c.ratio_changed;
                assert(self.cameras@.take(i + 1) == self.cameras@.take(i as int) + seq![
                    self.cameras@[i as int],
                ]);
                Seq::filter_distributes_over_add(
                    self.cameras@.take(i as int),
                    seq![self.cameras@[i as int]],
                    changed,
                );
                reveal_with_fuel(Seq::filter, 2);
                assert(seq![self.cameras@[i as int]].drop_last() == Seq::<Camera>::empty());
            }
            if self.cameras[i].ratio_changed {
                signals.push(Signal::CameraChanged(self.cameras[i].id));
            }
            i += 1;
        }
        assert(self.cameras@.take(i as int) == self.cameras@);
        signals
    }

    /// Marks every camera as observed, so that only ratios written from now
    /// on are reported as changes.
    pub fn observe_cameras(&mut self)
        ensures
            final(self).cameras@ == observed(old(self).cameras@),
            final(self).surfaces@ == old(self).surfaces@,
    {
        let mut i: usize = 0;
        while i < self.cameras.len()
            invariant
                i <= self.cameras.len(),
                self.cameras@.len() == old(self).cameras@.len(),
                self.surfaces@ == old(self).surfaces@,
                forall|j: int|
                    0 <= j < i ==> self.cameras@[j] == (Camera {
                        ratio_changed: false,
                        ..old(self).cameras@[j]
                    }),
                forall|j: int|
                    i <= j < self.cameras@.len() ==> self.cameras@[j] == old(self).cameras@[j],
            decreases self.cameras.len() - i,
        {
            let mut camera: Camera = self.cameras[i];
            camera.ratio_changed = false;
            self.cameras.set(i, camera);
            i += 1;
        }
        assert(self.cameras@ =~= observed(old(self).cameras@));
    }
}

} // verus!
