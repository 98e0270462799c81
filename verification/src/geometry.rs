//! Pixel rectangles, aspect ratios, and the fitting function that inscribes a
//! rectangle of a given ratio in a surface.

use vstd::prelude::*;

verus! {

/// An axis-aligned rectangle in physical pixels: an origin and a size.
#[derive(Clone, Copy, Debug, PartialEq, Eq, Structural)]
pub struct Rect {
    pub x: u32,
    pub y: u32,
    pub width: u32,
    pub height: u32,
}

/// A positive aspect ratio, held exactly as `width : height`.
///
/// `16 : 9` and `32 : 18` denote the same ratio and fit identically, but they
/// are different values of this type.
#[derive(Clone, Copy, Debug, PartialEq, Eq)]
pub struct AspectRatio {
    width: u64,
    height: u64,
}

impl AspectRatio {
    pub closed spec fn spec_width(&self) -> u64 {
        self.width
    }

    pub closed spec fn spec_height(&self) -> u64 {
        self.height
    }

    /// Both parts are positive, so the value denotes a positive rational.
    pub open spec fn wf(&self) -> bool {
        self.width() > 0 && self.height() > 0
    }

    #[verifier::type_invariant]
    spec fn inv(&self) -> bool {
        self.wf()
    }

    /// The ratio `width : height`, or `None` when either part is zero.
    pub fn new(width: u64, height: u64) -> (r: Option<AspectRatio>)
        ensures
            r is Some <==> width > 0 && height > 0,
            r matches Some(a) ==> a.width() == width && a.height() == height && a.wf(),
    {
        if width > 0 && height > 0 {
            Some(AspectRatio { width, height })
        } else {
            None
        }
    }

    /// The width part of the ratio.
    #[verifier::when_used_as_spec(spec_width)]
    pub fn width(&self) -> (w: u64)
        ensures
            w == self.width(),
            self.wf(),
    {
        proof {
            use_type_invariant(self);
        }
        self.width
    }

    /// The height part of the ratio.
    #[verifier::when_used_as_spec(spec_height)]
    pub fn height(&self) -> (h: u64)
        ensures
            h == self.height(),
            self.wf(),
    {
        proof {
            use_type_invariant(self);
        }
        self.height
    }
}

/// Whether a `w` by `h` surface is strictly wider than the ratio `n : d`,
/// that is `w / h > n / d`, compared without division.
pub open spec fn is_wider(w: int, h: int, n: int, d: int) -> bool {
    w * d > n * h
}

/// Width of the rectangle of ratio `n : d` fitted in a `w` by `h` surface.
///
/// A wider surface is filled in height and the width `h * n / d` is cut to
/// whole pixels; any other surface is filled in width.
pub open spec fn fit_width(w: int, h: int, n: int, d: int) -> int {
    if is_wider(w, h, n, d) {
        (h * n) / d
    } else {
        w
    }
}

/// Height of the fitted rectangle: `h` in a wider surface, else `w * d / n`
/// cut to whole pixels.
pub open spec fn fit_height(w: int, h: int, n: int, d: int) -> int {
    if is_wider(w, h, n, d) {
        h
    } else {
        (w * d) / n
    }
}

/// Left edge of the fitted rectangle: half of the exact leftover width
/// `w - h * n / d`, cut to whole pixels, in a wider surface; else 0.
pub open spec fn fit_x(w: int, h: int, n: int, d: int) -> int {
    if is_wider(w, h, n, d) {
        (w * d - h * n) / (2 * d)
    } else {
        0
    }
}

/// Top edge of the fitted rectangle: 0 in a wider surface; else half of the
/// exact leftover height `h - w * d / n`, cut to whole pixels.
pub open spec fn fit_y(w: int, h: int, n: int, d: int) -> int {
    if is_wider(w, h, n, d) {
        0
    } else {
        (h * n - w * d) / (2 * n)
    }
}

/// The rectangle that `fit` returns for a surface and a ratio.
pub open spec fn fit_spec(width: u32, height: u32, ratio: AspectRatio) -> Rect {
    let (w, h) = (width as int, height as int);
    let (n, d) = (ratio.width() as int, ratio.height() as int);
    Rect {
        x: fit_x(w, h, n, d) as u32,
        y: fit_y(w, h, n, d) as u32,
        width: fit_width(w, h, n, d) as u32,
        height: fit_height(w, h, n, d) as u32,
    }
}

proof fn lemma_quotient(a: int, b: int) -> (q: int)
    by (nonlinear_arith)
    requires
        0 <= a,
        0 < b,
    ensures
        q == a / b,
        b * q <= a < b * q + b,
        0 <= q,
{
    a / b
}

/// Every fitted rectangle lies inside its surface, whatever the sizes, so
/// its coordinates are pixel coordinates of that surface.
pub proof fn fit_stays_inside(w: int, h: int, n: int, d: int)
    requires
        w >= 0,
        h >= 0,
        n > 0,
        d > 0,
    ensures
        0 <= fit_x(w, h, n, d),
        0 <= fit_y(w, h, n, d),
        0 <= fit_width(w, h, n, d),
        0 <= fit_height(w, h, n, d),
        fit_x(w, h, n, d) + fit_width(w, h, n, d) <= w,
        fit_y(w, h, n, d) + fit_height(w, h, n, d) <= h,
{
    let (wi, hi, ni, di) = (w, h, n, d);
    assert(0 <= wi * di && 0 <= hi * ni) by (nonlinear_arith)
        requires
            0 <= wi,
            0 <= hi,
            0 <= ni,
            0 <= di,
    ;
    assert(ni * hi == hi * ni) by (nonlinear_arith);
    if is_wider(w, h, n, d) {
        let rw = lemma_quotient(hi * ni, di);
        let x = lemma_quotient(wi * di - hi * ni, 2 * di);
        assert(di * (2 * x + 2 * rw) < wi * di * 2) by (nonlinear_arith)
            requires
                (2 * di) * x <= wi * di - hi * ni,
                di * rw <= hi * ni,
                hi * ni < wi * di,
        ;
        assert(2 * x + 2 * rw < 2 * wi) by (nonlinear_arith)
            requires
                0 < di,
                di * (2 * x + 2 * rw) < wi * di * 2,
        ;
    } else {
        let rh = lemma_quotient(wi * di, ni);
        let y = lemma_quotient(hi * ni - wi * di, 2 * ni);
        assert(ni * (2 * y + 2 * rh) <= hi * ni * 2) by (nonlinear_arith)
            requires
                (2 * ni) * y <= hi * ni - wi * di,
                ni * rh <= wi * di,
                wi * di <= hi * ni,
        ;
        assert(2 * y + 2 * rh <= 2 * hi) by (nonlinear_arith)
            requires
                0 < ni,
                ni * (2 * y + 2 * rh) <= hi * ni * 2,
        ;
    }
}

/// The fitted rectangle keeps the ratio `n : d` up to the cut to whole
/// pixels: the dimension that does not fill the surface is the integer part
/// of what the ratio prescribes for the one that does. In a wider surface
/// `width <= height * n / d < width + 1`; in any other
/// `height <= width * d / n < height + 1`.
pub proof fn fit_keeps_ratio(w: int, h: int, n: int, d: int)
    requires
        w >= 0,
        h >= 0,
        n > 0,
        d > 0,
    ensures
        is_wider(w, h, n, d) ==> {
            &&& fit_height(w, h, n, d) == h
            &&& d * fit_width(w, h, n, d) <= n * fit_height(w, h, n, d)
            &&& n * fit_height(w, h, n, d) < d * (fit_width(w, h, n, d) + 1)
        },
        !is_wider(w, h, n, d) ==> {
            &&& fit_width(w, h, n, d) == w
            &&& n * fit_height(w, h, n, d) <= d * fit_width(w, h, n, d)
            &&& d * fit_width(w, h, n, d) < n * (fit_height(w, h, n, d) + 1)
        },
{
    assert(0 <= w * d && 0 <= h * n && n * h == h * n && d * w == w * d) by (nonlinear_arith)
        requires
            0 <= w,
            0 <= h,
            0 <= n,
            0 <= d,
    ;
    if is_wider(w, h, n, d) {
        let rw = lemma_quotient(h * n, d);
        assert(d * (rw + 1) == d * rw + d) by (nonlinear_arith);
    } else {
        let rh = lemma_quotient(w * d, n);
        assert(n * (rh + 1) == n * rh + n) by (nonlinear_arith);
    }
}

/// The fitted rectangle touches two opposite edges of the surface and is
/// centred between the other two: one offset is 0, and the other is half of
/// what the rectangle leaves free, short of it by at most one pixel.
pub proof fn fit_is_centred(w: int, h: int, n: int, d: int)
    requires
        w >= 0,
        h >= 0,
        n > 0,
        d > 0,
    ensures
        fit_x(w, h, n, d) == 0 || fit_y(w, h, n, d) == 0,
        is_wider(w, h, n, d) ==> {
            &&& fit_y(w, h, n, d) == 0
            &&& 2 * fit_x(w, h, n, d) <= w - fit_width(w, h, n, d)
            &&& w - fit_width(w, h, n, d) <= 2 * fit_x(w, h, n, d) + 2
        },
        !is_wider(w, h, n, d) ==> {
            &&& fit_x(w, h, n, d) == 0
            &&& 2 * fit_y(w, h, n, d) <= h - fit_height(w, h, n, d)
            &&& h - fit_height(w, h, n, d) <= 2 * fit_y(w, h, n, d) + 2
        },
{
    assert(0 <= w * d && 0 <= h * n && n * h == h * n) by (nonlinear_arith)
        requires
            0 <= w,
            0 <= h,
            0 <= n,
            0 <= d,
    ;
    if is_wider(w, h, n, d) {
        let rw = lemma_quotient(h * n, d);
        let x = lemma_quotient(w * d - h * n, 2 * d);
        lemma_half_of_rest(w, rw, x, h * n, d);
    } else {
        let rh = lemma_quotient(w * d, n);
        let y = lemma_quotient(h * n - w * d, 2 * n);
        assert(h * n == n * h) by (nonlinear_arith);
        assert(h * n - w * d == n * h - w * d);
        lemma_half_of_rest(h, rh, y, w * d, n);
    }
}

/// Exactly one offset of the fitted rectangle is 0 as soon as the exact
/// leftover, `w - h * n / d` across or `h - w * d / n` down, is at least two
/// pixels. With less than two pixels left over, both offsets are 0.
pub proof fn fit_has_one_zero_offset(w: int, h: int, n: int, d: int)
    requires
        w >= 0,
        h >= 0,
        n > 0,
        d > 0,
        is_wider(w, h, n, d) ==> w * d - h * n >= 2 * d,
        !is_wider(w, h, n, d) ==> h * n - w * d >= 2 * n,
    ensures
        (fit_x(w, h, n, d) == 0) != (fit_y(w, h, n, d) == 0),
{
    assert(0 <= w * d && 0 <= h * n) by (nonlinear_arith)
        requires
            0 <= w,
            0 <= h,
            0 <= n,
            0 <= d,
    ;
    if is_wider(w, h, n, d) {
        let x = lemma_quotient(w * d - h * n, 2 * d);
        assert(x >= 1) by (nonlinear_arith)
            requires
                w * d - h * n < (2 * d) * x + 2 * d,
                w * d - h * n >= 2 * d,
                d > 0,
        ;
    } else {
        let y = lemma_quotient(h * n - w * d, 2 * n);
        assert(y >= 1) by (nonlinear_arith)
            requires
                h * n - w * d < (2 * n) * y + 2 * n,
                h * n - w * d >= 2 * n,
                n > 0,
        ;
    }
}

/// With `part` the integer part of `exact / unit` and `offset` the integer
/// part of half of `full - exact / unit`, the offset is half of
/// `full - part`, short of it by at most one.
proof fn lemma_half_of_rest(full: int, part: int, offset: int, exact: int, unit: int)
    by (nonlinear_arith)
    requires
        unit > 0,
        unit * part <= exact < unit * part + unit,
        (2 * unit) * offset <= full * unit - exact < (2 * unit) * offset + 2 * unit,
    ensures
        2 * offset <= full - part <= 2 * offset + 2,
{
    assert(unit * (2 * offset) <= unit * (full - part));
    assert(unit * (full - part - 1) < unit * (2 * offset + 2));
}

/// A surface that has the ratio `n : d` itself is filled whole: the fitted
/// rectangle is the surface.
pub proof fn fit_fills_surface_of_equal_ratio(w: int, h: int, n: int, d: int)
    requires
        w >= 0,
        h >= 0,
        n > 0,
        d > 0,
        w * d == n * h,
    ensures
        fit_x(w, h, n, d) == 0,
        fit_y(w, h, n, d) == 0,
        fit_width(w, h, n, d) == w,
        fit_height(w, h, n, d) == h,
{
    assert(h * n == n * h) by (nonlinear_arith);
    assert((n * h) / n == h) by (nonlinear_arith)
        requires
            n > 0,
    ;
    assert(0int / (2 * n) == 0) by (nonlinear_arith)
        requires
            n > 0,
    ;
}

proof fn lemma_quotient_is(a: int, b: int, k: int)
    by (nonlinear_arith)
    requires
        0 < b,
        b * k <= a < b * k + b,
    ensures
        a / b == k,
{
}

/// A ratio of more than the surface's width to 1 is wider than any row of
/// pixels: the rectangle keeps the width and has no height left, and how
/// far the ratio is beyond the surface plays no part. So every ratio from
/// `2^32` fits like `u64::MAX : 1` in every surface.
pub proof fn fit_of_ratio_beyond_the_width(w: int, h: int, n: int, d: int)
    requires
        w >= 1,
        h >= 1,
        d > 0,
        n > w * d,
    ensures
        fit_x(w, h, n, d) == 0,
        fit_y(w, h, n, d) == (h - 1) / 2,
        fit_width(w, h, n, d) == w,
        fit_height(w, h, n, d) == 0,
{
    let k = (h - 1) / 2;
    assert(0 < w * d && n <= n * h && h * n == n * h) by (nonlinear_arith)
        requires
            w >= 1,
            h >= 1,
            d > 0,
            n > 0,
    ;
    lemma_quotient_is(w * d, n, 0);
    assert((2 * n) * k <= (h - 1) * n && h * n <= (2 * n) * k + 2 * n && (h - 1) * n == h * n - n)
        by (nonlinear_arith)
        requires
            2 * k <= h - 1 <= 2 * k + 1,
            n > 0,
    ;
    lemma_quotient_is(h * n - w * d, 2 * n, k);
}

/// A ratio of less than 1 to the surface's height is narrower than any
/// column of pixels: the rectangle keeps the height and has no width left.
/// So every ratio up to `2^-32` fits like `1 : u64::MAX` in every surface.
pub proof fn fit_of_ratio_beyond_the_height(w: int, h: int, n: int, d: int)
    requires
        w >= 1,
        h >= 1,
        n > 0,
        d > h * n,
    ensures
        fit_x(w, h, n, d) == (w - 1) / 2,
        fit_y(w, h, n, d) == 0,
        fit_width(w, h, n, d) == 0,
        fit_height(w, h, n, d) == h,
{
    let k = (w - 1) / 2;
    assert(0 < h * n && d <= w * d && n * h == h * n) by (nonlinear_arith)
        requires
            w >= 1,
            h >= 1,
            d > 0,
            n > 0,
    ;
    lemma_quotient_is(h * n, d, 0);
    assert((2 * d) * k <= (w - 1) * d && w * d <= (2 * d) * k + 2 * d && (w - 1) * d == w * d - d)
        by (nonlinear_arith)
        requires
            2 * k <= w - 1 <= 2 * k + 1,
            d > 0,
    ;
    lemma_quotient_is(w * d - h * n, 2 * d, k);
}

/// The cut to whole pixels loses nothing more in the rectangle that `fit`
/// returns: its fields are the four fitted values themselves, and the
/// rectangle lies inside the surface.
pub proof fn fit_spec_is_exact(width: u32, height: u32, ratio: AspectRatio)
    requires
        ratio.wf(),
    ensures
        fit_spec(width, height, ratio).x == fit_x(
            width as int,
            height as int,
            ratio.width() as int,
            ratio.height() as int,
        ),
        fit_spec(width, height, ratio).y == fit_y(
            width as int,
            height as int,
            ratio.width() as int,
            ratio.height() as int,
        ),
        fit_spec(width, height, ratio).width == fit_width(
            width as int,
            height as int,
            ratio.width() as int,
            ratio.height() as int,
        ),
        fit_spec(width, height, ratio).height == fit_height(
            width as int,
            height as int,
            ratio.width() as int,
            ratio.height() as int,
        ),
        fit_spec(width, height, ratio).x + fit_spec(width, height, ratio).width <= width,
        fit_spec(width, height, ratio).y + fit_spec(width, height, ratio).height <= height,
{
    fit_stays_inside(width as int, height as int, ratio.width() as int, ratio.height() as int);
}

/// The rectangle of ratio `ratio` fitted and centred in a surface of the
/// given size.
///
/// The rectangle is as large as the surface allows: it fills the height of a
/// surface that is wider than the ratio and the width of any other. The
/// other dimension and the offset that centres it are computed exactly and
/// then cut to whole pixels.
pub fn fit(surface_width: u32, surface_height: u32, ratio: AspectRatio) -> (r: Rect)
    ensures
        r == fit_spec(surface_width, surface_height, ratio),
        r.x + r.width <= surface_width,
        r.y + r.height <= surface_height,
        r.x == fit_x(
            surface_width as int,
            surface_height as int,
            ratio.width() as int,
            ratio.height() as int,
        ),
        r.y == fit_y(
            surface_width as int,
            surface_height as int,
            ratio.width() as int,
            ratio.height() as int,
        ),
        r.width == fit_width(
            surface_width as int,
            surface_height as int,
            ratio.width() as int,
            ratio.height() as int,
        ),
        r.height == fit_height(
            surface_width as int,
            surface_height as int,
            ratio.width() as int,
            ratio.height() as int,
        ),
{
    let n: u64 = ratio.width();
    let d: u64 = ratio.height();
    proof {
        fit_stays_inside(surface_width as int, surface_height as int, n as int, d as int);
        assert(surface_width as int * d as int <= 0xffff_ffff * 0xffff_ffff_ffff_ffff)
            by (nonlinear_arith)
            requires
                0 <= surface_width <= 0xffff_ffff,
                0 <= d <= 0xffff_ffff_ffff_ffff,
        ;
        assert(surface_height as int * n as int <= 0xffff_ffff * 0xffff_ffff_ffff_ffff)
            by (nonlinear_arith)
            requires
                0 <= surface_height <= 0xffff_ffff,
                0 <= n <= 0xffff_ffff_ffff_ffff,
        ;
        assert(n as int * surface_height as int == surface_height as int * n as int)
            by (nonlinear_arith);
    }
    let across: u128 = surface_width as u128 * d as u128;
    let down: u128 = surface_height as u128 * n as u128;
    if across > down {
        let width: u128 = down / d as u128;
        let x: u128 = (across - down) / (2 * d as u128);
        Rect { x: x as u32, y: 0, width: width as u32, height: surface_height }
    } else {
        let height: u128 = across / n as u128;
        let y: u128 = (down - across) / (2 * n as u128);
        Rect { x: 0, y: y as u32, width: surface_width, height: height as u32 }
    }
}

} // verus!
