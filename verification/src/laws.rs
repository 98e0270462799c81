//! What holds of a synchronization pass as a whole: which cameras it fits,
//! and that neither the order of the signals nor their repetition matters.

use crate::entity::{
    camera_position, distinct_camera_ids, is_camera_position, lemma_camera_position,
    surface_position, Camera, RenderTarget, Surface,
};
use crate::geometry::fit_spec;
use crate::resolve::{fan_out, lemma_sole_primary, resolve_spec, sole_primary, target_position};
use crate::signal::{camera_signals, observed, surface_signals, Signal};
use crate::sync::{apply_all, apply_spec, refit, step, sync_spec, tick_signals, tick_spec};
use vstd::prelude::*;

verus! {

/// The camera after a fit in the surface its target stands for; the camera
/// as it is where the target stands for none.
pub open spec fn fitted(camera: Camera, surfaces: Seq<Surface>) -> Camera {
    match target_position(surfaces, camera.target) {
        Some(s) => refit(camera, surfaces[s]),
        None => camera,
    }
}

/// Whether `signal` calls for a fit of the camera at `c`: the camera's
/// target stands for a surface, and the signal names the camera or that
/// surface.
pub open spec fn reaches(cameras: Seq<Camera>, surfaces: Seq<Surface>, signal: Signal, c: int) -> bool {
    &&& 0 <= c < cameras.len()
    &&& target_position(surfaces, cameras[c].target) is Some
    &&& match signal {
        Signal::CameraChanged(id) => camera_position(cameras, id) == Some(c),
        Signal::SurfaceChanged(id) => surface_position(surfaces, id) == target_position(
            surfaces,
            cameras[c].target,
        ),
    }
}

/// Whether some signal of `signals` calls for a fit of the camera at `c`.
pub open spec fn touched(
    cameras: Seq<Camera>,
    surfaces: Seq<Surface>,
    signals: Seq<Signal>,
    c: int,
) -> bool {
    exists|k: int| 0 <= k < signals.len() && reaches(cameras, surfaces, #[trigger] signals[k], c)
}

/// Whether two sequences of cameras differ in viewports at most.
pub open spec fn same_but_viewports(a: Seq<Camera>, b: Seq<Camera>) -> bool {
    &&& a.len() == b.len()
    &&& forall|c: int|
        0 <= c < a.len() ==> (#[trigger] a[c]) == (Camera { viewport: a[c].viewport, ..b[c] })
}

proof fn lemma_fan_out_applied(cameras: Seq<Camera>, surfaces: Seq<Surface>, s: int, n: int)
    requires
        0 <= s < surfaces.len(),
        0 <= n <= cameras.len(),
    ensures
        apply_all(cameras, surfaces, fan_out(cameras, surfaces, s, n)).len() == cameras.len(),
        forall|c: int|
            0 <= c < cameras.len() ==> #[trigger] apply_all(
                cameras,
                surfaces,
                fan_out(cameras, surfaces, s, n),
            )[c] == if c < n && target_position(surfaces, cameras[c].target) == Some(s) {
                refit(cameras[c], surfaces[s])
            } else {
                cameras[c]
            },
    decreases n,
{
    if n > 0 {
        lemma_fan_out_applied(cameras, surfaces, s, n - 1);
        let before = fan_out(cameras, surfaces, s, n - 1);
        if target_position(surfaces, cameras[n - 1].target) == Some(s) {
            let all = before.push((n - 1, s));
            assert(all.drop_last() == before);
            assert(all.last() == (n - 1, s));
            assert(apply_all(cameras, surfaces, all) == apply_spec(
                apply_all(cameras, surfaces, before),
                surfaces,
                (n - 1, s),
            ));
        }
    }
}

/// One signal fits exactly the cameras it reaches, each in the surface its
/// target stands for, and leaves every other camera as it was.
pub proof fn step_is_pointwise(cameras: Seq<Camera>, surfaces: Seq<Surface>, signal: Signal)
    ensures
        step(cameras, surfaces, signal).len() == cameras.len(),
        forall|c: int|
            0 <= c < cameras.len() ==> #[trigger] step(cameras, surfaces, signal)[c] == if reaches(
                cameras,
                surfaces,
                signal,
                c,
            ) {
                fitted(cameras[c], surfaces)
            } else {
                cameras[c]
            },
{
    match signal {
        Signal::CameraChanged(id) => {
            lemma_camera_position(cameras, id);
            match camera_position(cameras, id) {
                Some(p) => {
                    lemma_target_in_range(surfaces, cameras[p].target);
                    match target_position(surfaces, cameras[p].target) {
                        Some(s) => {
                            let pairs = seq![(p, s)];
                            assert(pairs.drop_last() == Seq::<(int, int)>::empty());
                            assert(pairs.last() == (p, s));
                            assert(apply_all(cameras, surfaces, pairs.drop_last()) == cameras);
                        },
                        None => {},
                    }
                },
                None => {},
            }
        },
        Signal::SurfaceChanged(id) => {
            crate::entity::lemma_surface_position(surfaces, id);
            match surface_position(surfaces, id) {
                Some(s) => {
                    lemma_fan_out_applied(cameras, surfaces, s, cameras.len() as int);
                },
                None => {},
            }
        },
    }
}

proof fn lemma_target_in_range(surfaces: Seq<Surface>, target: RenderTarget)
    ensures
        target_position(surfaces, target) matches Some(s) ==> 0 <= s < surfaces.len(),
{
    lemma_sole_primary(surfaces);
    if let RenderTarget::Surface(id) = target {
        crate::entity::lemma_surface_position(surfaces, id);
    }
}

/// A pass writes viewports and nothing else.
pub proof fn sync_keeps_all_but_viewports(
    cameras: Seq<Camera>,
    surfaces: Seq<Surface>,
    signals: Seq<Signal>,
)
    ensures
        same_but_viewports(sync_spec(cameras, surfaces, signals), cameras),
    decreases signals.len(),
{
    if signals.len() > 0 {
        let before = sync_spec(cameras, surfaces, signals.drop_last());
        sync_keeps_all_but_viewports(cameras, surfaces, signals.drop_last());
        step_is_pointwise(before, surfaces, signals.last());
        let after = step(before, surfaces, signals.last());
        assert forall|c: int| 0 <= c < after.len() implies (#[trigger] after[c]) == (Camera {
            viewport: after[c].viewport,
            ..cameras[c]
        }) by {
            assert(before[c] == (Camera { viewport: before[c].viewport, ..cameras[c] }));
        }
    }
}

/// What a pass leaves behind, camera by camera: a camera that some signal
/// reaches holds the fit in the surface its target stands for, and every
/// other camera is as it was. How often and in which order the signals
/// came plays no part.
pub proof fn sync_is_pointwise(cameras: Seq<Camera>, surfaces: Seq<Surface>, signals: Seq<Signal>)
    ensures
        sync_spec(cameras, surfaces, signals).len() == cameras.len(),
        forall|c: int|
            0 <= c < cameras.len() ==> #[trigger] sync_spec(cameras, surfaces, signals)[c]
                == if touched(cameras, surfaces, signals, c) {
                fitted(cameras[c], surfaces)
            } else {
                cameras[c]
            },
    decreases signals.len(),
{
    if signals.len() > 0 {
        let earlier = signals.drop_last();
        let last = signals.last();
        let before = sync_spec(cameras, surfaces, earlier);
        sync_is_pointwise(cameras, surfaces, earlier);
        sync_keeps_all_but_viewports(cameras, surfaces, earlier);
        step_is_pointwise(before, surfaces, last);
        if let Signal::CameraChanged(id) = last {
            assert forall|i: int| 0 <= i < before.len() implies (#[trigger] before[i]).id
                == cameras[i].id by {}
            lemma_positions_follow_ids(before, cameras, id);
        }
        let after = step(before, surfaces, last);
        assert forall|c: int| 0 <= c < cameras.len() implies #[trigger] after[c] == if touched(
            cameras,
            surfaces,
            signals,
            c,
        ) {
            fitted(cameras[c], surfaces)
        } else {
            cameras[c]
        } by {
            assert(before[c] == (Camera { viewport: before[c].viewport, ..cameras[c] }));
            assert(reaches(before, surfaces, last, c) == reaches(cameras, surfaces, last, c));
            if touched(cameras, surfaces, earlier, c) {
                let k = choose|k: int|
                    0 <= k < earlier.len() && reaches(cameras, surfaces, #[trigger] earlier[k], c);
                assert(signals[k] == earlier[k]);
            }
            if reaches(cameras, surfaces, last, c) {
                assert(signals[signals.len() - 1] == last);
            }
            if touched(cameras, surfaces, signals, c) {
                let k = choose|k: int|
                    0 <= k < signals.len() && reaches(cameras, surfaces, #[trigger] signals[k], c);
                if k < earlier.len() {
                    assert(earlier[k] == signals[k]);
                }
            }
        }
    } else {
        assert forall|c: int| 0 <= c < cameras.len() implies !touched(
            cameras,
            surfaces,
            signals,
            c,
        ) by {}
    }
}

/// A pass over no signals writes nothing.
pub proof fn sync_of_nothing_is_identity(cameras: Seq<Camera>, surfaces: Seq<Surface>)
    ensures
        sync_spec(cameras, surfaces, Seq::empty()) == cameras,
{
}

/// Two passes over signal sequences that hold the same signals leave the
/// same cameras behind, whatever the order of the signals and however often
/// each one occurs.
pub proof fn sync_depends_on_signal_set(
    cameras: Seq<Camera>,
    surfaces: Seq<Surface>,
    first: Seq<Signal>,
    second: Seq<Signal>,
)
    requires
        forall|signal: Signal| first.contains(signal) <==> second.contains(signal),
    ensures
        sync_spec(cameras, surfaces, first) == sync_spec(cameras, surfaces, second),
{
    sync_is_pointwise(cameras, surfaces, first);
    sync_is_pointwise(cameras, surfaces, second);
    assert forall|c: int| 0 <= c < cameras.len() implies touched(cameras, surfaces, first, c)
        == touched(cameras, surfaces, second, c) by {
        if touched(cameras, surfaces, first, c) {
            let k = choose|k: int|
                0 <= k < first.len() && reaches(cameras, surfaces, #[trigger] first[k], c);
            assert(first.contains(first[k]));
            assert(second.contains(first[k]));
            let m = choose|m: int| 0 <= m < second.len() && second[m] == first[k];
            assert(reaches(cameras, surfaces, second[m], c));
        }
        if touched(cameras, surfaces, second, c) {
            let k = choose|k: int|
                0 <= k < second.len() && reaches(cameras, surfaces, #[trigger] second[k], c);
            assert(second.contains(second[k]));
            assert(first.contains(second[k]));
            let m = choose|m: int| 0 <= m < first.len() && first[m] == second[k];
            assert(reaches(cameras, surfaces, first[m], c));
        }
    }
    assert(sync_spec(cameras, surfaces, first) =~= sync_spec(cameras, surfaces, second));
}

/// A signal that comes a second time in one pass changes nothing: the pass
/// ends as it would have ended without the repetition.
pub proof fn sync_ignores_repeated_signal(
    cameras: Seq<Camera>,
    surfaces: Seq<Surface>,
    signals: Seq<Signal>,
    repeated: Signal,
)
    requires
        signals.contains(repeated),
    ensures
        sync_spec(cameras, surfaces, signals.push(repeated)) == sync_spec(
            cameras,
            surfaces,
            signals,
        ),
{
    let longer = signals.push(repeated);
    assert forall|signal: Signal| longer.contains(signal) <==> signals.contains(signal) by {
        if longer.contains(signal) {
            let k = choose|k: int| 0 <= k < longer.len() && longer[k] == signal;
            if k < signals.len() {
                assert(signals[k] == signal);
            }
        }
        if signals.contains(signal) {
            let k = choose|k: int| 0 <= k < signals.len() && signals[k] == signal;
            assert(longer[k] == signal);
        }
    }
    sync_depends_on_signal_set(cameras, surfaces, longer, signals);
}

/// While no surface or more than one is flagged primary, no pass writes to
/// a camera whose target is the primary surface, whatever the signals.
pub proof fn sync_skips_unresolved_primary(
    cameras: Seq<Camera>,
    surfaces: Seq<Surface>,
    signals: Seq<Signal>,
    c: int,
)
    requires
        0 <= c < cameras.len(),
        cameras[c].target == RenderTarget::Primary,
        sole_primary(surfaces) is None,
    ensures
        sync_spec(cameras, surfaces, signals)[c] == cameras[c],
{
    sync_is_pointwise(cameras, surfaces, signals);
}

/// No pass writes to a camera whose target stands for a surface without
/// area: the viewport never becomes a rectangle fitted in nothing.
pub proof fn sync_skips_empty_surface(
    cameras: Seq<Camera>,
    surfaces: Seq<Surface>,
    signals: Seq<Signal>,
    c: int,
)
    requires
        0 <= c < cameras.len(),
        target_position(surfaces, cameras[c].target) matches Some(s) && !surfaces[s].has_area(),
    ensures
        sync_spec(cameras, surfaces, signals)[c] == cameras[c],
{
    sync_is_pointwise(cameras, surfaces, signals);
}

/// The pairs for a changed surface name exactly the cameras whose target
/// stands for that surface, each once and in scan order, and pair each with
/// that surface.
pub proof fn fan_out_is_exact(cameras: Seq<Camera>, surfaces: Seq<Surface>, s: int, n: int)
    requires
        0 <= n <= cameras.len(),
    ensures
        forall|k: int|
            0 <= k < fan_out(cameras, surfaces, s, n).len() ==> {
                let pair = #[trigger] fan_out(cameras, surfaces, s, n)[k];
                &&& 0 <= pair.0 < n
                &&& pair.1 == s
                &&& target_position(surfaces, cameras[pair.0].target) == Some(s)
            },
        forall|j: int, k: int|
            0 <= j < k < fan_out(cameras, surfaces, s, n).len() ==> (#[trigger] fan_out(
                cameras,
                surfaces,
                s,
                n,
            )[j]).0 < (#[trigger] fan_out(cameras, surfaces, s, n)[k]).0,
        forall|c: int|
            0 <= c < n && target_position(surfaces, #[trigger] cameras[c].target) == Some(s)
                ==> fan_out(cameras, surfaces, s, n).contains((c, s)),
    decreases n,
{
    if n > 0 {
        fan_out_is_exact(cameras, surfaces, s, n - 1);
        let before = fan_out(cameras, surfaces, s, n - 1);
        let all = fan_out(cameras, surfaces, s, n);
        if target_position(surfaces, cameras[n - 1].target) == Some(s) {
            assert(all == before.push((n - 1, s)));
            assert(all[before.len() as int] == (n - 1, s));
            assert forall|c: int|
                0 <= c < n && target_position(surfaces, #[trigger] cameras[c].target) == Some(
                    s,
                ) implies all.contains((c, s)) by {
                if c < n - 1 {
                    let k = choose|k: int| 0 <= k < before.len() && before[k] == (c, s);
                    assert(all[k] == (c, s));
                }
            }
        }
    }
}

/// Among cameras of distinct ids, change detection reports each changed
/// camera once and nothing else: no signal occurs twice, and the signals
/// are exactly those that name a camera whose ratio was written.
pub proof fn changed_cameras_are_reported_once(cameras: Seq<Camera>)
    requires
        distinct_camera_ids(cameras),
    ensures
        camera_signals(cameras).no_duplicates(),
        forall|signal: Signal|
            camera_signals(cameras).contains(signal) <==> exists|c: int|
                0 <= c < cameras.len() && (#[trigger] cameras[c]).ratio_changed && signal
                    == Signal::CameraChanged(cameras[c].id),
    decreases cameras.len(),
{
    reveal(Seq::filter);
    let changed = |c: Camera| c.ratio_changed;
    let signal_of = |c: Camera| Signal::CameraChanged(c.id);
    let all = camera_signals(cameras);
    if cameras.len() == 0 {
        assert(all =~= Seq::<Signal>::empty());
    } else {
        let earlier = cameras.drop_last();
        let last = cameras.last();
        let before = camera_signals(earlier);
        assert(distinct_camera_ids(earlier)) by {
            assert forall|i: int, j: int| 0 <= i < j < earlier.len() implies (
            #[trigger] earlier[i]).id != (#[trigger] earlier[j]).id by {
                assert(cameras[i].id != cameras[j].id);
            }
        }
        changed_cameras_are_reported_once(earlier);
        if last.ratio_changed {
            assert(cameras.filter(changed) == earlier.filter(changed).push(last));
            assert(all =~= before.push(signal_of(last)));
            assert(!before.contains(signal_of(last))) by {
                if before.contains(signal_of(last)) {
                    let c = choose|c: int|
                        0 <= c < earlier.len() && (#[trigger] earlier[c]).ratio_changed
                            && signal_of(last) == Signal::CameraChanged(earlier[c].id);
                    assert(cameras[c].id != cameras[cameras.len() - 1].id);
                }
            }
            assert forall|i: int, j: int| 0 <= i < all.len() && 0 <= j < all.len() && i
                != j implies all[i] != all[j] by {
                if i < before.len() {
                    assert(before[i] == all[i]);
                }
                if j < before.len() {
                    assert(before[j] == all[j]);
                }
            }
        } else {
            assert(cameras.filter(changed) == earlier.filter(changed));
            assert(all =~= before);
        }
        assert forall|signal: Signal| all.contains(signal) <==> exists|c: int|
            0 <= c < cameras.len() && (#[trigger] cameras[c]).ratio_changed && signal
                == Signal::CameraChanged(cameras[c].id) by {
            if all.contains(signal) {
                let k = choose|k: int| 0 <= k < all.len() && all[k] == signal;
                if k < before.len() {
                    assert(before[k] == signal);
                    assert(before.contains(signal));
                    let c = choose|c: int|
                        0 <= c < earlier.len() && (#[trigger] earlier[c]).ratio_changed && signal
                            == Signal::CameraChanged(earlier[c].id);
                    assert(cameras[c] == earlier[c]);
                } else {
                    assert(cameras[cameras.len() - 1] == last);
                }
            }
            if exists|c: int|
                0 <= c < cameras.len() && (#[trigger] cameras[c]).ratio_changed && signal
                    == Signal::CameraChanged(cameras[c].id) {
                let c = choose|c: int|
                    0 <= c < cameras.len() && (#[trigger] cameras[c]).ratio_changed && signal
                        == Signal::CameraChanged(cameras[c].id);
                if c < earlier.len() {
                    assert(earlier[c] == cameras[c]);
                    assert(before.contains(signal));
                    let k = choose|k: int| 0 <= k < before.len() && before[k] == signal;
                    assert(all[k] == signal);
                } else {
                    assert(all[all.len() - 1] == signal);
                }
            }
        }
    }
}

/// Change detection reports nothing for cameras that have all been
/// observed.
pub proof fn observed_cameras_emit_nothing(cameras: Seq<Camera>)
    requires
        forall|c: int| 0 <= c < cameras.len() ==> !(#[trigger] cameras[c]).ratio_changed,
    ensures
        camera_signals(cameras) == Seq::<Signal>::empty(),
{
    let changed = |c: Camera| c.ratio_changed;
    let kept = cameras.filter(changed);
    if kept.len() > 0 {
        cameras.lemma_filter_pred(changed, 0);
        cameras.lemma_filter_contains_rev(changed, kept[0]);
        let k = choose|k: int| 0 <= k < cameras.len() && cameras[k] == kept[0];
        assert(!cameras[k].ratio_changed);
    }
    assert(camera_signals(cameras) =~= Seq::<Signal>::empty());
}

/// A tick that follows another, with no ratio written and no notification
/// in between, emits no signal and leaves every camera as it is.
pub proof fn quiet_tick_changes_nothing(
    cameras: Seq<Camera>,
    surfaces: Seq<Surface>,
    resized: Seq<u64>,
    rescaled: Seq<u64>,
)
    ensures
        tick_signals(
            tick_spec(cameras, surfaces, resized, rescaled),
            Seq::empty(),
            Seq::empty(),
        ) == Seq::<Signal>::empty(),
        tick_spec(
            tick_spec(cameras, surfaces, resized, rescaled),
            surfaces,
            Seq::empty(),
            Seq::empty(),
        ) == tick_spec(cameras, surfaces, resized, rescaled),
{
    let after = tick_spec(cameras, surfaces, resized, rescaled);
    sync_keeps_all_but_viewports(
        observed(cameras),
        surfaces,
        tick_signals(cameras, resized, rescaled),
    );
    assert forall|c: int| 0 <= c < after.len() implies !(#[trigger] after[c]).ratio_changed by {
        assert(after[c] == (Camera { viewport: after[c].viewport, ..observed(cameras)[c] }));
    }
    observed_cameras_emit_nothing(after);
    assert(surface_signals(Seq::empty(), Seq::empty()) =~= Seq::<Signal>::empty());
    assert(tick_signals(after, Seq::empty(), Seq::empty()) =~= Seq::<Signal>::empty());
    assert(observed(after) =~= after);
}

/// A written ratio reaches the viewport with the next tick: a camera that is
/// marked as changed, is the camera of its id, and renders to a surface
/// with area, leaves the tick with the rectangle of its ratio fitted in
/// that surface.
pub proof fn tick_fits_changed_camera(
    cameras: Seq<Camera>,
    surfaces: Seq<Surface>,
    resized: Seq<u64>,
    rescaled: Seq<u64>,
    c: int,
)
    requires
        0 <= c < cameras.len(),
        cameras[c].ratio_changed,
        camera_position(cameras, cameras[c].id) == Some(c),
        target_position(surfaces, cameras[c].target) matches Some(s) && surfaces[s].has_area(),
    ensures
        tick_spec(cameras, surfaces, resized, rescaled)[c].viewport == Some(
            fit_spec(
                surfaces[target_position(surfaces, cameras[c].target).unwrap()].width,
                surfaces[target_position(surfaces, cameras[c].target).unwrap()].height,
                cameras[c].aspect_ratio,
            ),
        ),
{
    let seen = observed(cameras);
    let signals = tick_signals(cameras, resized, rescaled);
    let wanted = Signal::CameraChanged(cameras[c].id);
    let changed = |x: Camera| x.ratio_changed;
    cameras.lemma_filter_contains(changed, c);
    let kept = cameras.filter(changed);
    let k = choose|k: int| 0 <= k < kept.len() && kept[k] == cameras[c];
    assert(camera_signals(cameras)[k] == wanted);
    assert(signals[k] == wanted);
    assert forall|i: int| 0 <= i < seen.len() implies (#[trigger] seen[i]).id
        == cameras[i].id by {}
    lemma_positions_follow_ids(seen, cameras, cameras[c].id);
    assert(reaches(seen, surfaces, signals[k], c));
    sync_is_pointwise(seen, surfaces, signals);
}

proof fn lemma_positions_follow_ids(a: Seq<Camera>, b: Seq<Camera>, id: u64)
    requires
        a.len() == b.len(),
        forall|c: int| 0 <= c < a.len() ==> (#[trigger] a[c]).id == b[c].id,
    ensures
        camera_position(a, id) == camera_position(b, id),
{
    lemma_camera_position(a, id);
    lemma_camera_position(b, id);
    match camera_position(b, id) {
        Some(c) => {
            assert(is_camera_position(b, id, c));
            assert(a[c].id == b[c].id);
            assert forall|j: int| 0 <= j < c implies a[j].id != id by {
                assert(a[j].id == b[j].id);
            }
            assert(is_camera_position(a, id, c));
        },
        None => {
            match camera_position(a, id) {
                Some(c) => {
                    assert(is_camera_position(a, id, c));
                    assert(a[c].id == b[c].id);
                    assert forall|j: int| 0 <= j < c implies b[j].id != id by {
                        assert(a[j].id == b[j].id);
                    }
                    assert(is_camera_position(b, id, c));
                },
                None => {},
            }
        },
    }
}

} // verus!
