//! Aspect ratios given as the bits of an IEEE 754 binary32 number.
//!
//! A binary32 number stands for every real number that rounds to it. The
//! ratio read from one is the simplest fraction among them, which is the
//! fraction that was meant wherever a ratio such as 16 : 9 was written as a
//! floating-point number.

use crate::geometry::{fit_fills_surface_of_equal_ratio, fit_spec, AspectRatio, Rect};
use vstd::arithmetic::power2::{
    lemma2_to64, lemma2_to64_rest, lemma_pow2_adds, lemma_pow2_pos, lemma_pow2_strictly_increases,
    lemma_pow2_unfold, pow2,
};
use vstd::bits::lemma_u64_shl_is_mul;
use vstd::prelude::*;

verus! {

/// No number that `simplest_between` works on exceeds `2^100`.
const LIMIT: u128 = 0x10_0000_0000_0000_0000_0000_0000;

/// The biased exponent of a binary32 number: bits 23 to 30.
pub open spec fn exponent(bits: u32) -> int {
    (bits as int / 0x80_0000) % 0x100
}

/// The fraction field of a binary32 number: bits 0 to 22.
pub open spec fn fraction(bits: u32) -> int {
    bits as int % 0x80_0000
}

/// The significand of a normal binary32 number, with its leading one, as an
/// integer: the number is `significand * 2^(exponent - 150)`.
pub open spec fn significand(bits: u32) -> int {
    0x80_0000 + fraction(bits)
}

/// Whether the bits denote a number above zero and below infinity: the sign
/// is clear, the exponent is not all ones, and the number is not zero.
pub open spec fn is_positive_finite(bits: u32) -> bool {
    0 < bits < 0x7f80_0000
}

/// The unit in which the bounds of a normal number below `2^23` are given:
/// the number is `4 * significand / scale`.
pub open spec fn scale(bits: u32) -> int {
    pow2((152 - exponent(bits)) as nat) as int
}

/// The point halfway to the next number below, in units of `1 / scale`. The
/// next number below a power of two is half as far away as the next above.
pub open spec fn halfway_below(bits: u32) -> int {
    if fraction(bits) == 0 {
        4 * significand(bits) - 1
    } else {
        4 * significand(bits) - 2
    }
}

/// The point halfway to the next number above, in units of `1 / scale`.
pub open spec fn halfway_above(bits: u32) -> int {
    4 * significand(bits) + 2
}

/// Whether the fraction `p / q` of positive integers lies strictly between
/// `a / b` and `c / d`. A `d` of zero stands for no upper bound.
pub open spec fn between(p: int, q: int, a: int, b: int, c: int, d: int) -> bool {
    &&& p > 0
    &&& q > 0
    &&& a * q < p * b
    &&& p * d < c * q
}

/// Whether `p / q` is the simplest fraction strictly between `a / b` and
/// `c / d`: no fraction between them has a smaller denominator, nor a
/// smaller numerator.
pub open spec fn is_simplest(p: int, q: int, a: int, b: int, c: int, d: int) -> bool {
    &&& between(p, q, a, b, c, d)
    &&& forall|p2: int, q2: int| #[trigger] between(p2, q2, a, b, c, d) ==> p <= p2 && q <= q2
}

/// The simplest fraction strictly between `a / b` and `c / d`, as numerator
/// and denominator.
pub open spec fn simplest(a: int, b: int, c: int, d: int) -> (int, int) {
    choose|s: (int, int)| is_simplest(s.0, s.1, a, b, c, d)
}

/// The ratio that `AspectRatio::from_f32_bits` reads from the bits of a
/// positive finite number, as width and height.
///
/// - A number from `2^23` is a whole number and is its own ratio, `u64::MAX`
///   standing for those from `2^64`.
/// - Any other number from `2^-64` gives the simplest fraction that rounds
///   to it: the simplest strictly between the points halfway to its
///   neighbours.
/// - Where that fraction has a denominator beyond `u64::MAX`, and for every
///   number below `2^-64`, the ratio is `1 : u64::MAX`.
///
/// No surface is `2^32` pixels wide or high, so the ratios that stand in for
/// the largest and the smallest numbers fit as those numbers would.
pub open spec fn ratio_of(bits: u32) -> (int, int) {
    let e = exponent(bits);
    if e > 190 {
        (u64::MAX as int, 1)
    } else if e >= 150 {
        (significand(bits) * pow2((e - 150) as nat), 1)
    } else if e < 63 {
        (1, u64::MAX as int)
    } else {
        let s = simplest(halfway_below(bits), scale(bits), halfway_above(bits), scale(bits));
        if s.1 <= u64::MAX {
            s
        } else {
            (1, u64::MAX as int)
        }
    }
}

/// There is one simplest fraction between two bounds at most, so a fraction
/// that is the simplest is the one that `simplest` names.
pub proof fn simplest_is_unique(p: int, q: int, a: int, b: int, c: int, d: int)
    requires
        is_simplest(p, q, a, b, c, d),
    ensures
        simplest(a, b, c, d) == (p, q),
{
    let s = simplest(a, b, c, d);
    assert(is_simplest((p, q).0, (p, q).1, a, b, c, d));
    assert(is_simplest(s.0, s.1, a, b, c, d));
    assert(between(p, q, a, b, c, d));
    assert(between(s.0, s.1, a, b, c, d));
}

proof fn lemma_floor(a: int, b: int) -> (n: int)
    by (nonlinear_arith)
    requires
        0 <= a,
        0 < b,
    ensures
        n == a / b,
        0 <= n,
        n * b <= a < n * b + b,
{
    a / b
}

/// The whole number above `a / b` is the simplest fraction above `a / b`
/// wherever it is below the upper bound.
proof fn lemma_whole_is_simplest(a: int, b: int, c: int, d: int, n: int)
    requires
        0 <= a,
        0 < b,
        0 <= n,
        n * b <= a < n * b + b,
        (n + 1) * d < c,
    ensures
        is_simplest(n + 1, 1, a, b, c, d),
{
    assert((n + 1) * b == n * b + b) by (nonlinear_arith);
    assert forall|p2: int, q2: int| #[trigger] between(p2, q2, a, b, c, d) implies n + 1 <= p2 && 1
        <= q2 by {
        assert(n < p2) by (nonlinear_arith)
            requires
                0 < b,
                0 <= n,
                1 <= q2,
                n * b <= a,
                a * q2 < p2 * b,
        ;
    }
}

/// Whether the whole number `n + 1` is below `c / d`, without the product.
proof fn lemma_below_bound(n: int, c: int, d: int)
    by (nonlinear_arith)
    requires
        0 <= n,
        0 < c,
        0 < d,
    ensures
        (n + 1) * d < c <==> n + 1 <= (c - 1) / d,
{
}

/// A fraction between the bounds, less its whole part `n` and turned upside
/// down, lies between the bounds treated likewise.
proof fn lemma_descend(a: int, b: int, c: int, d: int, n: int, p: int, q: int)
    by (nonlinear_arith)
    requires
        0 < b,
        0 <= n,
        n * b <= a,
        p > 0,
        q > 0,
        a * q < p * b,
        p * d < c * q,
    ensures
        p - n * q > 0,
        d * (p - n * q) < q * (c - n * d),
        q * (a - n * b) < b * (p - n * q),
{
    assert(n * b * q <= a * q);
    assert(n * q * b < p * b);
    assert(d * (p - n * q) == d * p - n * q * d);
    assert(q * (c - n * d) == c * q - n * q * d);
    assert(q * (a - n * b) == a * q - n * q * b);
    assert(b * (p - n * q) == p * b - n * q * b);
}

/// The way back: a fraction between the treated bounds, turned upside down
/// and with the whole part `n` added, lies between the bounds.
proof fn lemma_ascend(a: int, b: int, c: int, d: int, n: int, p: int, q: int)
    by (nonlinear_arith)
    requires
        0 <= n,
        p > 0,
        q > 0,
        d * q < p * (c - n * d),
        p * (a - n * b) < b * q,
    ensures
        n * p + q > 0,
        a * p < (n * p + q) * b,
        (n * p + q) * d < c * p,
{
    assert(p * (c - n * d) == c * p - n * p * d);
    assert(p * (a - n * b) == a * p - n * p * b);
    assert((n * p + q) * b == n * p * b + b * q);
    assert((n * p + q) * d == n * p * d + d * q);
}

/// Where no whole number lies between the bounds, the simplest fraction
/// between them is the whole part `n` and the reciprocal of the simplest
/// fraction between the reciprocals of what the bounds have beyond `n`.
proof fn lemma_step_is_simplest(a: int, b: int, c: int, d: int, n: int, p: int, q: int)
    requires
        0 <= a,
        0 < b,
        0 <= n,
        n * b <= a,
        is_simplest(p, q, d, c - n * d, b, a - n * b),
    ensures
        is_simplest(n * p + q, p, a, b, c, d),
{
    lemma_ascend(a, b, c, d, n, p, q);
    assert forall|p2: int, q2: int| #[trigger] between(p2, q2, a, b, c, d) implies n * p + q
        <= p2 && p <= q2 by {
        lemma_descend(a, b, c, d, n, p2, q2);
        assert(between(q2, p2 - n * q2, d, c - n * d, b, a - n * b));
        assert(n * p <= n * q2) by (nonlinear_arith)
            requires
                0 <= n,
                p <= q2,
        ;
    }
}

/// Wherever a fraction lies between two bounds, one of them is the
/// simplest, so `simplest` names a fraction that is.
pub proof fn simplest_exists(a: int, b: int, c: int, d: int, p: int, q: int)
    requires
        0 <= a,
        0 < b,
        0 <= d,
        between(p, q, a, b, c, d),
    ensures
        is_simplest(simplest(a, b, c, d).0, simplest(a, b, c, d).1, a, b, c, d),
    decreases b + d,
{
    let n = lemma_floor(a, b);
    if (n + 1) * d < c {
        lemma_whole_is_simplest(a, b, c, d, n);
        simplest_is_unique(n + 1, 1, a, b, c, d);
    } else {
        lemma_descend(a, b, c, d, n, p, q);
        assert(c > 0) by (nonlinear_arith)
            requires
                p * d < c * q,
                p > 0,
                q > 0,
                d >= 0,
        ;
        assert(d > 0) by (nonlinear_arith)
            requires
                !((n + 1) * d < c),
                c > 0,
                d >= 0,
        ;
        assert(n * d < c) by (nonlinear_arith)
            requires
                d * (p - n * q) < q * (c - n * d),
                p - n * q > 0,
                q > 0,
                d > 0,
        ;
        assert(c - n * d <= d) by (nonlinear_arith)
            requires
                !((n + 1) * d < c),
        ;
        simplest_exists(d, c - n * d, b, a - n * b, q, p - n * q);
        let s = simplest(d, c - n * d, b, a - n * b);
        lemma_step_is_simplest(a, b, c, d, n, s.0, s.1);
        simplest_is_unique(n * s.0 + s.1, s.0, a, b, c, d);
    }
}

/// A surface whose own ratio rounds to the number is filled whole by the
/// ratio read from the number, as long as the square of its height is at
/// most a quarter of `scale`: then no two fractions of so small a
/// denominator round to the same number, and the ratio read is the ratio of
/// the surface. For a ratio between 1 and 2 that is every surface up to
/// 2896 pixels high.
pub proof fn surface_of_the_number_is_filled(
    bits: u32,
    ratio: AspectRatio,
    width: u32,
    height: u32,
)
    requires
        63 <= exponent(bits) < 150,
        (ratio.width() as int, ratio.height() as int) == ratio_of(bits),
        between(
            width as int,
            height as int,
            halfway_below(bits),
            scale(bits),
            halfway_above(bits),
            scale(bits),
        ),
        4 * height * height <= scale(bits),
    ensures
        fit_spec(width, height, ratio) == (Rect { x: 0, y: 0, width, height }),
{
    let (lo, hi, unit) = (halfway_below(bits), halfway_above(bits), scale(bits));
    let (w, h) = (width as int, height as int);
    lemma_pow2_pos((152 - exponent(bits)) as nat);
    simplest_exists(lo, unit, hi, unit, w, h);
    let s = simplest(lo, unit, hi, unit);
    let (p, q) = (s.0, s.1);
    assert(between(p, q, lo, unit, hi, unit));
    assert(q <= h);
    assert(w * q == p * h) by (nonlinear_arith)
        requires
            0 < q <= h,
            0 < p,
            0 < unit,
            lo * q < p * unit,
            p * unit < hi * q,
            lo * h < w * unit,
            w * unit < hi * h,
            hi - lo <= 4,
            4 * h * h <= unit,
    {
        assert(unit * (w * q) < hi * h * q);
        assert(unit * (p * h) > lo * q * h);
        assert(unit * (w * q - p * h) < (hi - lo) * (h * q));
        assert(unit * (p * h) < hi * q * h);
        assert(unit * (w * q) > lo * h * q);
        assert(unit * (p * h - w * q) < (hi - lo) * (h * q));
        assert((hi - lo) * (h * q) <= 4 * (h * h));
    }
    fit_fills_surface_of_equal_ratio(w, h, p, q);
}

/// The simplest fraction strictly between `a / b` and `c / d`, by the
/// continued fractions of the bounds. `witness` is a fraction between them.
fn simplest_between(a: u128, b: u128, c: u128, d: u128, Ghost(witness): Ghost<(int, int)>) -> (r: (
    u128,
    u128,
))
    requires
        0 < b,
        between(witness.0, witness.1, a as int, b as int, c as int, d as int),
        witness.0 <= LIMIT,
        witness.1 <= LIMIT,
        a <= LIMIT,
        b <= LIMIT,
        c <= LIMIT,
        d <= LIMIT,
    ensures
        is_simplest(r.0 as int, r.1 as int, a as int, b as int, c as int, d as int),
        r.0 <= witness.0,
        r.1 <= witness.1,
    decreases b + d,
{
    let n: u128 = a / b;
    proof {
        lemma_floor(a as int, b as int);
        assert(c > 0) by (nonlinear_arith)
            requires
                witness.0 * d < c * witness.1,
                witness.0 > 0,
                witness.1 > 0,
                d >= 0,
        ;
        if d > 0 {
            lemma_below_bound(n as int, c as int, d as int);
        } else {
            assert((n + 1) * d == 0) by (nonlinear_arith)
                requires
                    d == 0,
            ;
        }
    }
    if d == 0 || n + 1 <= (c - 1) / d {
        proof {
            lemma_whole_is_simplest(a as int, b as int, c as int, d as int, n as int);
        }
        return (n + 1, 1);
    }
    proof {
        lemma_descend(a as int, b as int, c as int, d as int, n as int, witness.0, witness.1);
        assert(n * d < c && n * b <= a) by (nonlinear_arith)
            requires
                d * (witness.0 - n * witness.1) < witness.1 * (c - n * d),
                witness.0 - n * witness.1 > 0,
                witness.1 > 0,
                d > 0,
                n * b <= a,
        ;
        assert(c - n * d <= d) by (nonlinear_arith)
            requires
                !((n + 1) * d < c),
        ;
    }
    let beyond_a: u128 = a - n * b;
    let beyond_c: u128 = c - n * d;
    let ghost below = (witness.1, witness.0 - n * witness.1);
    let (p, q) = simplest_between(d, beyond_c, b, beyond_a, Ghost(below));
    proof {
        lemma_step_is_simplest(a as int, b as int, c as int, d as int, n as int, p as int, q as int);
        assert(n * p + q <= witness.0) by (nonlinear_arith)
            requires
                0 <= n,
                0 <= p <= witness.1,
                q <= witness.0 - n * witness.1,
        ;
        assert(0 <= n * p) by (nonlinear_arith)
            requires
                0 <= n,
                0 <= p,
        ;
    }
    (n * p + q, p)
}

/// `2^exponent`, for an exponent up to 100.
fn power_of_two(exponent: u32) -> (r: u128)
    requires
        exponent <= 100,
    ensures
        r == pow2(exponent as nat),
        r <= LIMIT,
{
    let mut r: u128 = 1;
    let mut i: u32 = 0;
    proof {
        lemma2_to64();
        lemma2_to64_rest();
        lemma_pow2_adds(64, 36);
    }
    while i < exponent
        invariant
            i <= exponent <= 100,
            r == pow2(i as nat),
            pow2(100) == LIMIT,
        decreases exponent - i,
    {
        proof {
            lemma_pow2_unfold((i + 1) as nat);
            if i + 1 < 100 {
                lemma_pow2_strictly_increases((i + 1) as nat, 100);
            }
        }
        r = r * 2;
        i += 1;
    }
    proof {
        if exponent < 100 {
            lemma_pow2_strictly_increases(exponent as nat, 100);
        }
    }
    r
}

impl AspectRatio {
    /// The ratio that the binary32 number with the given bits stands for:
    /// the simplest fraction that rounds to the number, so that the bits of
    /// `16.0 / 9.0` give `16 : 9` and those of `1.5` give `3 : 2`.
    ///
    /// `None` for zero, negative numbers, infinities and NaN. Every other
    /// number has a ratio; see `ratio_of` for the largest and the smallest.
    pub fn from_f32_bits(bits: u32) -> (r: Option<AspectRatio>)
        ensures
            r is Some <==> is_positive_finite(bits),
            r matches Some(a) ==> a.wf() && (a.width() as int, a.height() as int) == ratio_of(bits),
    {
        if bits == 0 || bits >= 0x7f80_0000 {
            return None;
        }
        let e: u32 = bits / 0x80_0000;
        let m: u64 = 0x80_0000 + (bits % 0x80_0000) as u64;
        if e > 190 {
            return AspectRatio::new(u64::MAX, 1);
        }
        if e >= 150 {
            let shift: u64 = (e - 150) as u64;
            proof {
                lemma2_to64_rest();
                lemma_pow2_pos(shift as nat);
                if shift < 40 {
                    lemma_pow2_strictly_increases(shift as nat, 40);
                }
                assert(m * pow2(shift as nat) <= 0xff_ffff * 0x100_0000_0000) by (nonlinear_arith)
                    requires
                        0 <= m <= 0xff_ffff,
                        0 <= pow2(shift as nat) <= 0x100_0000_0000,
                ;
                assert(m * pow2(shift as nat) >= 1) by (nonlinear_arith)
                    requires
                        m >= 1,
                        pow2(shift as nat) >= 1,
                ;
                lemma_u64_shl_is_mul(m, shift);
            }
            return AspectRatio::new(m << shift, 1);
        }
        if e < 63 {
            return AspectRatio::new(1, u64::MAX);
        }
        let unit: u128 = power_of_two(152 - e);
        let below: u128 = if bits % 0x80_0000 == 0 {
            4 * m as u128 - 1
        } else {
            4 * m as u128 - 2
        };
        let above: u128 = 4 * m as u128 + 2;
        let ghost number = (4 * m as int, unit as int);
        proof {
            lemma_pow2_pos((152 - e) as nat);
            assert(between(number.0, number.1, below as int, unit as int, above as int, unit as int))
                by (nonlinear_arith)
                requires
                    number.0 == 4 * m,
                    number.1 == unit,
                    unit > 0,
                    m > 0,
                    below < 4 * m,
                    above > 4 * m,
            ;
        }
        let (p, q) = simplest_between(below, unit, above, unit, Ghost(number));
        proof {
            simplest_is_unique(p as int, q as int, below as int, unit as int, above as int, unit as int);
        }
        if q <= u64::MAX as u128 {
            AspectRatio::new(p as u64, q as u64)
        } else {
            AspectRatio::new(1, u64::MAX)
        }
    }
}

} // verus!
