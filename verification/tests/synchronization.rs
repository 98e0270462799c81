use fixed_viewport::entity::{Camera, RenderTarget, Scene, Surface};
use fixed_viewport::geometry::{AspectRatio, Rect};
use fixed_viewport::resolve::{Pair, PrimaryLookup};
use fixed_viewport::signal::{detect_surface_changes, Signal};

fn ratio(width: u64, height: u64) -> AspectRatio {
    AspectRatio::new(width, height).unwrap()
}

fn rect(x: u32, y: u32, width: u32, height: u32) -> Rect {
    Rect { x, y, width, height }
}

fn scene(cameras: Vec<Camera>, surfaces: Vec<Surface>) -> Scene {
    Scene { cameras, surfaces }
}

fn viewports(scene: &Scene) -> Vec<Option<Rect>> {
    scene.cameras.iter().map(|c| c.viewport).collect()
}

#[test]
fn new_camera_has_no_viewport_and_counts_as_changed() {
    let c = Camera::new(7, ratio(16, 9), RenderTarget::Primary);
    assert_eq!(c.id, 7);
    assert_eq!(c.aspect_ratio, ratio(16, 9));
    assert_eq!(c.target, RenderTarget::Primary);
    assert_eq!(c.viewport, None);
    assert!(c.ratio_changed);
}

#[test]
fn writing_a_ratio_marks_the_camera() {
    let mut c = Camera::new(7, ratio(16, 9), RenderTarget::Surface(3));
    c.ratio_changed = false;
    c.set_aspect_ratio(ratio(16, 9));
    assert!(c.ratio_changed);
    assert_eq!(c.aspect_ratio, ratio(16, 9));
    c.ratio_changed = false;
    c.set_aspect_ratio(ratio(4, 3));
    assert!(c.ratio_changed);
    assert_eq!(c.aspect_ratio, ratio(4, 3));
    assert_eq!(c.target, RenderTarget::Surface(3));
    assert_eq!(c.id, 7);
}

#[test]
fn lookup_finds_the_first_record_with_the_id() {
    let s = scene(
        vec![
            Camera::new(5, ratio(1, 1), RenderTarget::Primary),
            Camera::new(6, ratio(1, 1), RenderTarget::Primary),
            Camera::new(5, ratio(2, 1), RenderTarget::Primary),
        ],
        vec![Surface::new(9, 1, 1, false), Surface::new(8, 1, 1, false), Surface::new(8, 2, 2, true)],
    );
    assert_eq!(s.find_camera(5), Some(0));
    assert_eq!(s.find_camera(6), Some(1));
    assert_eq!(s.find_camera(7), None);
    assert_eq!(s.find_surface(8), Some(1));
    assert_eq!(s.find_surface(9), Some(0));
    assert_eq!(s.find_surface(5), None);
    assert_eq!(Scene::new().find_camera(0), None);
    assert_eq!(Scene::new().find_surface(0), None);
}

#[test]
fn primary_lookup_tells_none_one_and_many_apart() {
    let none = scene(vec![], vec![Surface::new(1, 10, 10, false), Surface::new(2, 10, 10, false)]);
    assert_eq!(none.find_primary(), PrimaryLookup::NotFound);
    assert_eq!(Scene::new().find_primary(), PrimaryLookup::NotFound);
    let one = scene(vec![], vec![Surface::new(1, 10, 10, false), Surface::new(2, 10, 10, true)]);
    assert_eq!(one.find_primary(), PrimaryLookup::Found(1));
    let many = scene(
        vec![],
        vec![Surface::new(1, 10, 10, true), Surface::new(2, 10, 10, false), Surface::new(3, 10, 10, true)],
    );
    assert_eq!(many.find_primary(), PrimaryLookup::Ambiguous);
}

#[test]
fn targets_resolve_to_surface_positions() {
    let s = scene(vec![], vec![Surface::new(10, 1, 1, false), Surface::new(11, 1, 1, true)]);
    assert_eq!(s.resolve_target(RenderTarget::Primary), Some(1));
    assert_eq!(s.resolve_target(RenderTarget::Surface(10)), Some(0));
    assert_eq!(s.resolve_target(RenderTarget::Surface(11)), Some(1));
    assert_eq!(s.resolve_target(RenderTarget::Surface(12)), None);
    assert_eq!(s.resolve_target(RenderTarget::Offscreen), None);
    let two = scene(vec![], vec![Surface::new(10, 1, 1, true), Surface::new(11, 1, 1, true)]);
    assert_eq!(two.resolve_target(RenderTarget::Primary), None);
    assert_eq!(two.resolve_target(RenderTarget::Surface(11)), Some(1));
}

#[test]
fn changed_camera_resolves_to_one_pair_or_none() {
    let s = scene(
        vec![
            Camera::new(1, ratio(1, 1), RenderTarget::Primary),
            Camera::new(2, ratio(1, 1), RenderTarget::Surface(21)),
            Camera::new(3, ratio(1, 1), RenderTarget::Surface(99)),
            Camera::new(4, ratio(1, 1), RenderTarget::Offscreen),
        ],
        vec![Surface::new(20, 10, 10, true), Surface::new(21, 10, 10, false)],
    );
    assert_eq!(s.resolve(Signal::CameraChanged(1)), vec![Pair { camera: 0, surface: 0 }]);
    assert_eq!(s.resolve(Signal::CameraChanged(2)), vec![Pair { camera: 1, surface: 1 }]);
    assert_eq!(s.resolve(Signal::CameraChanged(3)), vec![]);
    assert_eq!(s.resolve(Signal::CameraChanged(4)), vec![]);
    assert_eq!(s.resolve(Signal::CameraChanged(5)), vec![]);
}

#[test]
fn changed_surface_fans_out_to_three_cameras() {
    let s = scene(
        vec![
            Camera::new(1, ratio(1, 1), RenderTarget::Surface(20)),
            Camera::new(2, ratio(1, 1), RenderTarget::Surface(21)),
            Camera::new(3, ratio(1, 1), RenderTarget::Primary),
            Camera::new(4, ratio(1, 1), RenderTarget::Offscreen),
            Camera::new(5, ratio(1, 1), RenderTarget::Surface(20)),
        ],
        vec![Surface::new(21, 10, 10, false), Surface::new(20, 10, 10, true)],
    );
    let pairs = s.resolve(Signal::SurfaceChanged(20));
    assert_eq!(pairs.len(), 3);
    assert_eq!(
        pairs,
        vec![
            Pair { camera: 0, surface: 1 },
            Pair { camera: 2, surface: 1 },
            Pair { camera: 4, surface: 1 },
        ]
    );
    assert_eq!(s.resolve(Signal::SurfaceChanged(21)), vec![Pair { camera: 1, surface: 0 }]);
    assert_eq!(s.resolve(Signal::SurfaceChanged(22)), vec![]);
}

#[test]
fn changed_surface_does_not_reach_primary_cameras_while_primary_is_ambiguous() {
    let s = scene(
        vec![
            Camera::new(1, ratio(1, 1), RenderTarget::Primary),
            Camera::new(2, ratio(1, 1), RenderTarget::Surface(20)),
        ],
        vec![Surface::new(20, 10, 10, true), Surface::new(21, 10, 10, true)],
    );
    assert_eq!(s.resolve(Signal::SurfaceChanged(20)), vec![Pair { camera: 1, surface: 0 }]);
    assert_eq!(s.resolve(Signal::SurfaceChanged(21)), vec![]);
}

#[test]
fn apply_writes_the_fit_of_the_pair() {
    let mut s = scene(
        vec![
            Camera::new(1, ratio(2, 1), RenderTarget::Primary),
            Camera::new(2, ratio(1, 2), RenderTarget::Primary),
        ],
        vec![Surface::new(20, 1000, 1000, true), Surface::new(21, 0, 500, false)],
    );
    s.apply(Pair { camera: 1, surface: 0 });
    assert_eq!(viewports(&s), vec![None, Some(rect(250, 0, 500, 1000))]);
    s.apply(Pair { camera: 0, surface: 0 });
    assert_eq!(viewports(&s), vec![Some(rect(0, 250, 1000, 500)), Some(rect(250, 0, 500, 1000))]);
    // a surface without area, and pairs that point outside the scene, write nothing
    s.apply(Pair { camera: 0, surface: 1 });
    s.apply(Pair { camera: 2, surface: 0 });
    s.apply(Pair { camera: 0, surface: 2 });
    assert_eq!(viewports(&s), vec![Some(rect(0, 250, 1000, 500)), Some(rect(250, 0, 500, 1000))]);
    assert!(s.cameras[0].ratio_changed && s.cameras[1].ratio_changed);
}

#[test]
fn pass_without_signals_changes_nothing() {
    let mut s = scene(
        vec![Camera::new(1, ratio(2, 1), RenderTarget::Primary)],
        vec![Surface::new(20, 1000, 1000, true)],
    );
    let before = s.cameras.clone();
    s.sync(&vec![]);
    assert_eq!(s.cameras, before);
    s.sync(&vec![Signal::CameraChanged(1)]);
    let fitted = s.cameras.clone();
    assert_eq!(fitted[0].viewport, Some(rect(0, 250, 1000, 500)));
    s.sync(&vec![]);
    assert_eq!(s.cameras, fitted);
}

#[test]
fn repeated_surface_signal_ends_like_a_single_one() {
    let cameras = vec![
        Camera::new(1, ratio(16, 9), RenderTarget::Primary),
        Camera::new(2, ratio(1, 1), RenderTarget::Surface(20)),
        Camera::new(3, ratio(1, 1), RenderTarget::Surface(21)),
    ];
    let surfaces = vec![Surface::new(20, 1000, 1000, true), Surface::new(21, 640, 480, false)];
    let mut once = scene(cameras.clone(), surfaces.clone());
    once.sync(&vec![Signal::SurfaceChanged(20)]);
    let mut twice = scene(cameras, surfaces);
    twice.sync(&vec![Signal::SurfaceChanged(20), Signal::SurfaceChanged(20)]);
    assert_eq!(once.cameras, twice.cameras);
    assert_eq!(
        viewports(&twice),
        vec![Some(rect(0, 218, 1000, 562)), Some(rect(0, 0, 1000, 1000)), None]
    );
}

#[test]
fn order_of_signals_does_not_matter() {
    let cameras = vec![
        Camera::new(1, ratio(16, 9), RenderTarget::Primary),
        Camera::new(2, ratio(1, 1), RenderTarget::Surface(21)),
        Camera::new(3, ratio(4, 3), RenderTarget::Surface(21)),
    ];
    let surfaces = vec![Surface::new(20, 1000, 1000, true), Surface::new(21, 640, 480, false)];
    let forward =
        vec![Signal::CameraChanged(1), Signal::SurfaceChanged(21), Signal::CameraChanged(3)];
    let backward =
        vec![Signal::CameraChanged(3), Signal::SurfaceChanged(21), Signal::CameraChanged(1)];
    let mut a = scene(cameras.clone(), surfaces.clone());
    a.sync(&forward);
    let mut b = scene(cameras, surfaces);
    b.sync(&backward);
    assert_eq!(a.cameras, b.cameras);
    assert_eq!(
        viewports(&a),
        vec![Some(rect(0, 218, 1000, 562)), Some(rect(80, 0, 480, 480)), Some(rect(0, 0, 640, 480))]
    );
}

#[test]
fn ambiguous_primary_leaves_the_viewport_unchanged() {
    let mut camera = Camera::new(1, ratio(16, 9), RenderTarget::Primary);
    camera.viewport = Some(rect(1, 2, 3, 4));
    let mut s = scene(
        vec![camera],
        vec![Surface::new(20, 1000, 1000, true), Surface::new(21, 640, 480, true)],
    );
    let consumed = s.tick(&vec![20, 21], &vec![20]);
    assert_eq!(consumed.len(), 4);
    assert_eq!(s.cameras[0].viewport, Some(rect(1, 2, 3, 4)));
    s.sync(&vec![Signal::CameraChanged(1), Signal::SurfaceChanged(20), Signal::SurfaceChanged(21)]);
    assert_eq!(s.cameras[0].viewport, Some(rect(1, 2, 3, 4)));
}

#[test]
fn missing_primary_leaves_the_viewport_unchanged() {
    let mut s = scene(
        vec![Camera::new(1, ratio(16, 9), RenderTarget::Primary)],
        vec![Surface::new(20, 1000, 1000, false)],
    );
    s.sync(&vec![Signal::CameraChanged(1), Signal::SurfaceChanged(20)]);
    assert_eq!(s.cameras[0].viewport, None);
}

#[test]
fn bad_signal_does_not_block_the_others() {
    let mut s = scene(
        vec![
            Camera::new(1, ratio(1, 1), RenderTarget::Surface(99)),
            Camera::new(2, ratio(1, 1), RenderTarget::Offscreen),
            Camera::new(3, ratio(2, 1), RenderTarget::Surface(20)),
        ],
        vec![Surface::new(20, 800, 800, false)],
    );
    s.sync(&vec![
        Signal::CameraChanged(42),
        Signal::SurfaceChanged(43),
        Signal::CameraChanged(1),
        Signal::CameraChanged(2),
        Signal::CameraChanged(3),
    ]);
    assert_eq!(viewports(&s), vec![None, None, Some(rect(0, 200, 800, 400))]);
}

#[test]
fn surface_without_area_is_skipped() {
    let mut camera = Camera::new(1, ratio(1, 1), RenderTarget::Surface(20));
    camera.viewport = Some(rect(0, 0, 640, 480));
    let mut s = scene(vec![camera], vec![Surface::new(20, 0, 480, false)]);
    s.sync(&vec![Signal::SurfaceChanged(20), Signal::CameraChanged(1)]);
    assert_eq!(s.cameras[0].viewport, Some(rect(0, 0, 640, 480)));
    s.surfaces[0] = Surface::new(20, 640, 0, false);
    s.sync(&vec![Signal::SurfaceChanged(20), Signal::CameraChanged(1)]);
    assert_eq!(s.cameras[0].viewport, Some(rect(0, 0, 640, 480)));
}

#[test]
fn notifications_become_signals_in_order_and_undeduplicated() {
    assert_eq!(
        detect_surface_changes(&vec![3, 4, 3], &vec![4, 5]),
        vec![
            Signal::SurfaceChanged(3),
            Signal::SurfaceChanged(4),
            Signal::SurfaceChanged(3),
            Signal::SurfaceChanged(4),
            Signal::SurfaceChanged(5),
        ]
    );
    assert_eq!(detect_surface_changes(&vec![], &vec![]), vec![]);
}

#[test]
fn changed_cameras_are_reported_once_each_until_observed() {
    let mut s = scene(
        vec![
            Camera::new(1, ratio(1, 1), RenderTarget::Primary),
            Camera::new(2, ratio(1, 1), RenderTarget::Primary),
            Camera::new(3, ratio(1, 1), RenderTarget::Primary),
        ],
        vec![],
    );
    s.cameras[1].ratio_changed = false;
    s.cameras[2].set_aspect_ratio(ratio(2, 1));
    s.cameras[2].set_aspect_ratio(ratio(3, 1));
    let expected = vec![Signal::CameraChanged(1), Signal::CameraChanged(3)];
    assert_eq!(s.detect_camera_changes(), expected);
    assert_eq!(s.detect_camera_changes(), expected);
    s.observe_cameras();
    assert_eq!(s.detect_camera_changes(), vec![]);
    assert_eq!(s.cameras[2].aspect_ratio, ratio(3, 1));
    assert_eq!(s.cameras[0].id, 1);
}

#[test]
fn tick_returns_camera_signals_before_surface_signals() {
    let mut s = scene(
        vec![
            Camera::new(1, ratio(1, 1), RenderTarget::Surface(20)),
            Camera::new(2, ratio(2, 1), RenderTarget::Surface(20)),
        ],
        vec![Surface::new(20, 800, 800, false)],
    );
    s.cameras[0].ratio_changed = false;
    let consumed = s.tick(&vec![20], &vec![21]);
    assert_eq!(
        consumed,
        vec![Signal::CameraChanged(2), Signal::SurfaceChanged(20), Signal::SurfaceChanged(21)]
    );
    assert_eq!(viewports(&s), vec![Some(rect(0, 0, 800, 800)), Some(rect(0, 200, 800, 400))]);
    assert!(!s.cameras[0].ratio_changed && !s.cameras[1].ratio_changed);
}

#[test]
fn second_tick_without_changes_emits_and_writes_nothing() {
    let mut s = scene(
        vec![Camera::new(1, ratio(16, 9), RenderTarget::Primary)],
        vec![Surface::new(20, 1920, 1080, true)],
    );
    assert_eq!(s.tick(&vec![20], &vec![]).len(), 2);
    let after = s.cameras.clone();
    assert_eq!(after[0].viewport, Some(rect(0, 0, 1920, 1080)));
    // a rectangle that only a write could replace
    s.cameras[0].viewport = Some(rect(9, 9, 9, 9));
    assert_eq!(s.tick(&vec![], &vec![]), vec![]);
    assert_eq!(s.cameras[0].viewport, Some(rect(9, 9, 9, 9)));
}

#[test]
fn ratio_edit_reaches_the_viewport_with_the_next_tick() {
    let mut s = scene(
        vec![Camera::new(1, ratio(1, 1), RenderTarget::Primary)],
        vec![Surface::new(20, 800, 800, true)],
    );
    s.tick(&vec![], &vec![]);
    assert_eq!(s.cameras[0].viewport, Some(rect(0, 0, 800, 800)));
    s.cameras[0].set_aspect_ratio(ratio(2, 1));
    assert_eq!(s.cameras[0].viewport, Some(rect(0, 0, 800, 800)));
    assert_eq!(s.tick(&vec![], &vec![]), vec![Signal::CameraChanged(1)]);
    assert_eq!(s.cameras[0].viewport, Some(rect(0, 200, 800, 400)));
}

#[test]
fn resize_reaches_every_camera_of_the_surface() {
    let mut s = scene(
        vec![
            Camera::new(1, ratio(16, 9), RenderTarget::Primary),
            Camera::new(2, ratio(1, 1), RenderTarget::Surface(20)),
            Camera::new(3, ratio(1, 1), RenderTarget::Surface(21)),
        ],
        vec![Surface::new(20, 1920, 1080, true), Surface::new(21, 100, 100, false)],
    );
    s.tick(&vec![], &vec![]);
    assert_eq!(
        viewports(&s),
        vec![Some(rect(0, 0, 1920, 1080)), Some(rect(420, 0, 1080, 1080)), Some(rect(0, 0, 100, 100))]
    );
    s.surfaces[0].width = 1000;
    s.surfaces[0].height = 1000;
    s.surfaces[1].width = 50;
    assert_eq!(s.tick(&vec![20], &vec![]), vec![Signal::SurfaceChanged(20)]);
    // the surface that was not notified keeps its camera's old rectangle
    assert_eq!(
        viewports(&s),
        vec![Some(rect(0, 218, 1000, 562)), Some(rect(0, 0, 1000, 1000)), Some(rect(0, 0, 100, 100))]
    );
}

#[test]
fn cameras_of_distinct_ids_are_reported_once_each() {
    let s = scene(
        vec![
            Camera::new(3, ratio(1, 1), RenderTarget::Primary),
            Camera::new(1, ratio(1, 1), RenderTarget::Primary),
            Camera::new(2, ratio(1, 1), RenderTarget::Primary),
        ],
        vec![],
    );
    let signals = s.detect_camera_changes();
    assert_eq!(
        signals,
        vec![Signal::CameraChanged(3), Signal::CameraChanged(1), Signal::CameraChanged(2)]
    );
    for (i, a) in signals.iter().enumerate() {
        for b in signals.iter().skip(i + 1) {
            assert_ne!(a, b);
        }
    }
    // an id that two cameras share is reported for each of them
    let shared = scene(
        vec![
            Camera::new(1, ratio(1, 1), RenderTarget::Primary),
            Camera::new(1, ratio(2, 1), RenderTarget::Primary),
        ],
        vec![],
    );
    assert_eq!(
        shared.detect_camera_changes(),
        vec![Signal::CameraChanged(1), Signal::CameraChanged(1)]
    );
}
