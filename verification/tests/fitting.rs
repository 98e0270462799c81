use fixed_viewport::geometry::{fit, AspectRatio, Rect};

fn ratio(width: u64, height: u64) -> AspectRatio {
    AspectRatio::new(width, height).unwrap()
}

fn rect(x: u32, y: u32, width: u32, height: u32) -> Rect {
    Rect { x, y, width, height }
}

#[test]
fn ratio_needs_two_positive_parts() {
    assert!(AspectRatio::new(0, 1).is_none());
    assert!(AspectRatio::new(1, 0).is_none());
    assert!(AspectRatio::new(0, 0).is_none());
    let r = AspectRatio::new(16, 9).unwrap();
    assert_eq!(r.width(), 16);
    assert_eq!(r.height(), 9);
}

#[test]
fn equal_ratios_fill_the_surface() {
    assert_eq!(fit(1920, 1080, ratio(16, 9)), rect(0, 0, 1920, 1080));
    assert_eq!(fit(800, 800, ratio(1, 1)), rect(0, 0, 800, 800));
    assert_eq!(fit(1920, 1080, ratio(32, 18)), rect(0, 0, 1920, 1080));
}

#[test]
fn taller_surface_is_letterboxed() {
    assert_eq!(fit(1000, 1000, ratio(2, 1)), rect(0, 250, 1000, 500));
    assert_eq!(fit(800, 800, ratio(2, 1)), rect(0, 200, 800, 400));
    assert_eq!(fit(1080, 1920, ratio(16, 9)), rect(0, 656, 1080, 607));
}

#[test]
fn wider_surface_is_pillarboxed() {
    assert_eq!(fit(1000, 1000, ratio(1, 2)), rect(250, 0, 500, 1000));
    assert_eq!(fit(2560, 1080, ratio(16, 9)), rect(320, 0, 1920, 1080));
    assert_eq!(fit(1920, 1080, ratio(4, 3)), rect(240, 0, 1440, 1080));
}

#[test]
fn sizes_and_offsets_are_cut_not_rounded() {
    // 10 / 3 = 3.33..: height 3, and half of the 3.66.. left over is 1.83..: offset 1.
    assert_eq!(fit(10, 7, ratio(3, 1)), rect(0, 1, 10, 3));
    // 7 * 3 / 2 = 10.5: width 10, and half of the 0.5 left over is 0.25: offset 0.
    assert_eq!(fit(11, 7, ratio(3, 2)), rect(0, 0, 10, 7));
    // 5 * 2 / 3 = 3.33..: width 3, and half of the 5.66.. left over is 2.83..: offset 2.
    assert_eq!(fit(9, 5, ratio(2, 3)), rect(2, 0, 3, 5));
}

#[test]
fn less_than_two_pixels_left_gives_no_offset() {
    assert_eq!(fit(101, 100, ratio(1, 1)), rect(0, 0, 100, 100));
    assert_eq!(fit(100, 101, ratio(1, 1)), rect(0, 0, 100, 100));
    assert_eq!(fit(102, 100, ratio(1, 1)), rect(1, 0, 100, 100));
}

#[test]
fn extreme_ratio_may_cut_a_dimension_to_nothing() {
    assert_eq!(fit(1, 1, ratio(2, 1)), rect(0, 0, 1, 0));
    assert_eq!(fit(1, 1, ratio(1, 2)), rect(0, 0, 0, 1));
}

#[test]
fn largest_inputs_do_not_overflow() {
    let max = u32::MAX;
    assert_eq!(fit(max, max, ratio(u64::MAX, u64::MAX)), rect(0, 0, max, max));
    assert_eq!(fit(max, max, ratio(u64::MAX, 1)), rect(0, 2147483647, max, 0));
    assert_eq!(fit(max, max, ratio(1, u64::MAX)), rect(2147483647, 0, 0, max));
    assert_eq!(fit(max, 1, ratio(1, 1)), rect(2147483647, 0, 1, 1));
}

#[test]
fn surface_without_area_gets_a_rectangle_without_area() {
    assert_eq!(fit(0, 0, ratio(16, 9)), rect(0, 0, 0, 0));
    assert_eq!(fit(100, 0, ratio(16, 9)), rect(50, 0, 0, 0));
    assert_eq!(fit(0, 100, ratio(16, 9)), rect(0, 50, 0, 0));
}

#[test]
fn fitted_rectangle_stays_inside_and_keeps_the_ratio() {
    let sizes: [u32; 7] = [1, 2, 3, 7, 100, 1023, 1920];
    let parts: [u64; 6] = [1, 2, 3, 9, 16, 1000];
    for w in sizes {
        for h in sizes {
            for n in parts {
                for d in parts {
                    let r = fit(w, h, ratio(n, d));
                    assert!(r.x + r.width <= w);
                    assert!(r.y + r.height <= h);
                    assert!(r.x == 0 || r.y == 0);
                    let (rw, rh) = (r.width as u64, r.height as u64);
                    if (w as u64) * d > n * (h as u64) {
                        assert_eq!(r.height, h);
                        assert!(d * rw <= n * rh && n * rh < d * (rw + 1));
                        assert!(2 * r.x <= w - r.width && w - r.width <= 2 * r.x + 2);
                    } else {
                        assert_eq!(r.width, w);
                        assert!(n * rh <= d * rw && d * rw < n * (rh + 1));
                        assert!(2 * r.y <= h - r.height && h - r.height <= 2 * r.y + 2);
                    }
                }
            }
        }
    }
}
