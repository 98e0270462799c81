//! The applier and the synchronization pass: every pair that a signal calls
//! for gets a new fit, signal by signal.

use crate::entity::{Camera, Scene, Surface};
use crate::geometry::{fit, fit_spec};
use crate::resolve::{pair_positions, resolve_spec, Pair};
use crate::signal::{camera_signals, detect_surface_changes, observed, surface_signals, Signal};
use vstd::prelude::*;

verus! {

/// The camera after a fit in `surface`: its viewport is the rectangle of
/// its ratio fitted in the surface. In a surface without area nothing is
/// fitted and the camera stays as it is.
pub open spec fn refit(camera: Camera, surface: Surface) -> Camera {
    if surface.has_area() {
        Camera {
            viewport: Some(fit_spec(surface.width, surface.height, camera.aspect_ratio)),
            ..camera
        }
    } else {
        camera
    }
}

/// The cameras after the applier has handled one pair of positions. A pair
/// that points outside the scene changes nothing.
pub open spec fn apply_spec(cameras: Seq<Camera>, surfaces: Seq<Surface>, pair: (int, int)) -> Seq<
    Camera,
> {
    if 0 <= pair.0 < cameras.len() && 0 <= pair.1 < surfaces.len() {
        cameras.update(pair.0, refit(cameras[pair.0], surfaces[pair.1]))
    } else {
        cameras
    }
}

/// The cameras after the applier has handled `pairs` from first to last.
pub open spec fn apply_all(cameras: Seq<Camera>, surfaces: Seq<Surface>, pairs: Seq<(int, int)>) -> Seq<
    Camera,
>
    decreases pairs.len(),
{
    if pairs.len() == 0 {
        cameras
    } else {
        apply_spec(apply_all(cameras, surfaces, pairs.drop_last()), surfaces, pairs.last())
    }
}

/// The cameras after one signal: it is resolved against the cameras as they
/// are, and the pairs it calls for are applied.
pub open spec fn step(cameras: Seq<Camera>, surfaces: Seq<Surface>, signal: Signal) -> Seq<Camera> {
    apply_all(cameras, surfaces, resolve_spec(cameras, surfaces, signal))
}

/// The cameras after a synchronization pass over `signals`, taken in the
/// order in which they were emitted.
pub open spec fn sync_spec(cameras: Seq<Camera>, surfaces: Seq<Surface>, signals: Seq<Signal>) -> Seq<
    Camera,
>
    decreases signals.len(),
{
    if signals.len() == 0 {
        cameras
    } else {
        step(sync_spec(cameras, surfaces, signals.drop_last()), surfaces, signals.last())
    }
}

/// The signals of one tick: those of the changed cameras, then those of the
/// host's notifications.
pub open spec fn tick_signals(cameras: Seq<Camera>, resized: Seq<u64>, rescaled: Seq<u64>) -> Seq<
    Signal,
> {
    camera_signals(cameras) + surface_signals(resized, rescaled)
}

/// The cameras after one tick: detection has observed every camera, and the
/// pass has consumed the signals of the tick.
pub open spec fn tick_spec(
    cameras: Seq<Camera>,
    surfaces: Seq<Surface>,
    resized: Seq<u64>,
    rescaled: Seq<u64>,
) -> Seq<Camera> {
    sync_spec(observed(cameras), surfaces, tick_signals(cameras, resized, rescaled))
}

impl Scene {
    /// Fits the camera of `pair` in the surface of `pair` and writes the
    /// rectangle to the camera's viewport. Nothing is written where the
    /// surface has no area or the pair points outside the scene.
    pub fn apply(&mut self, pair: Pair)
        ensures
            final(self).cameras@ == apply_spec(
                old(self).cameras@,
                old(self).surfaces@,
                (pair.camera as int, pair.surface as int),
            ),
            final(self).surfaces@ == old(self).surfaces@,
    {
        if pair.camera < self.cameras.len() && pair.surface < self.surfaces.len() {
            let surface: Surface = self.surfaces[pair.surface];
            if surface.width > 0 && surface.height > 0 {
                let mut camera: Camera = self.cameras[pair.camera];
                camera.viewport = Some(fit(surface.width, surface.height, camera.aspect_ratio));
                self.cameras.set(pair.camera, camera);
            } else {
                assert(self.cameras@ =~= old(self).cameras@.update(
                    pair.camera as int,
                    old(self).cameras@[pair.camera as int],
                ));
            }
        }
    }

    /// Resolves one signal and applies the pairs it calls for.
    pub fn sync_signal(&mut self, signal: Signal)
        ensures
            final(self).cameras@ == step(old(self).cameras@, old(self).surfaces@, signal),
            final(self).surfaces@ == old(self).surfaces@,
    {
        let pairs = self.resolve(signal);
        let mut k: usize = 0;
        while k < pairs.len()
            invariant
                k <= pairs.len(),
                self.surfaces@ == old(self).surfaces@,
                self.cameras@ == apply_all(
                    old(self).cameras@,
                    old(self).surfaces@,
                    pair_positions(pairs@).take(k as int),
                ),
            decreases pairs.len() - k,
        {
            proof {
                let all = pair_positions(pairs@);
                assert(all.take(k + 1).drop_last() == all.take(k as int));
                assert(all.take(k + 1).last() == (
                    pairs@[k as int].camera as int,
                    pairs@[k as int].surface as int,
                ));
            }
            self.apply(pairs[k]);
            k += 1;
        }
        assert(pair_positions(pairs@).take(k as int) == pair_positions(pairs@));
    }

    /// One synchronization pass: consumes `signals` in order, each resolved
    /// against the scene as the signals before it have left it.
    ///
    /// A signal that names nothing in the scene, or a camera whose target
    /// stands for no surface, is passed over; the signals after it are
    /// handled all the same. Only viewports are written.
    pub fn sync(&mut self, signals: &Vec<Signal>)
        ensures
            final(self).cameras@ == sync_spec(old(self).cameras@, old(self).surfaces@, signals@),
            final(self).surfaces@ == old(self).surfaces@,
    {
        let mut k: usize = 0;
        while k < signals.len()
            invariant
                k <= signals.len(),
                self.surfaces@ == old(self).surfaces@,
                self.cameras@ == sync_spec(
                    old(self).cameras@,
                    old(self).surfaces@,
                    signals@.take(k as int),
                ),
            decreases signals.len() - k,
        {
            proof {
                assert(signals@.take(k + 1).drop_last() == signals@.take(k as int));
            }
            self.sync_signal(signals[k]);
            k += 1;
        }
        assert(signals@.take(k as int) == signals@);
    }

    /// One tick: runs both detectors, then the synchronization pass over
    /// what they emitted, and returns the signals that were consumed.
    ///
    /// `resized` and `rescaled` are the host's notifications since the last
    /// tick, as for `detect_surface_changes`. Every camera is observed, so
    /// a tick that follows with no ratio written and no notification emits
    /// nothing and writes nothing.
    pub fn tick(&mut self, resized: &Vec<u64>, rescaled: &Vec<u64>) -> (signals: Vec<Signal>)
        ensures
            signals@ == tick_signals(old(self).cameras@, resized@, rescaled@),
            final(self).cameras@ == tick_spec(
                old(self).cameras@,
                old(self).surfaces@,
                resized@,
                rescaled@,
            ),
            final(self).surfaces@ == old(self).surfaces@,
    {
        let mut signals = self.detect_camera_changes();
        let mut notified = detect_surface_changes(resized, rescaled);
        signals.append(&mut notified);
        self.observe_cameras();
        self.sync(&signals);
        signals
    }
}

} // verus!
