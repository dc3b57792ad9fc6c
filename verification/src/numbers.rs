//! What the numbers are by their bits, what each operation on them gives, and the colors
//! that follow.
use vstd::prelude::*;
use vstd::arithmetic::power2::{lemma2_to64, lemma2_to64_rest, lemma_pow2_adds, lemma_pow2_strictly_increases, pow2};

use crate::arithmetic::{abs, minus, opposite, over, plus, signed, times, whole_byte};
use crate::color::{fraction, shade, RGB8, FULL_SCALE, SEVENTY_FIVE};
use crate::double::{at_most, lemma_magnitude_ordered, magnitude, Double, BINADE, INFINITY};
use crate::laws::{
    lemma_constants, lemma_doubled, lemma_in_range, lemma_infinities, lemma_magnitude_not_less, lemma_plus_value,
    lemma_ratio, lemma_scaled, lemma_signed_nearest, one, rounded,
};
use crate::rounding::{
    distance, lemma_nearest_exact, lemma_nearest_exists, lemma_nearest_is, lemma_nearest_monotone, lemma_nearest_scaled,
    nearest,
};
use crate::stats::{blend, in_range, LedStat, SCALE_HIGH, SCALE_LOW, TWO};

verus! {

/// What a bit pattern stands for: a sign bit, eleven bits of exponent and 52 bits of
/// fraction. Values count in units of 2<sup>-1074</sup>.
pub proof fn lemma_pattern(x: Double)
    ensures
        ({
            let exponent = x.bits as int / 0x10_0000_0000_0000 % 2048;
            let frac = x.bits as int % 0x10_0000_0000_0000;
            let size = if x.value() < 0 { -x.value() } else { x.value() };
            &&& x.negative() <==> x.bits >= 0x8000_0000_0000_0000
            &&& x.finite() <==> exponent < 2047
            &&& x.nan() <==> exponent == 2047 && frac > 0
            &&& x.negative() ==> x.value() <= 0
            &&& !x.negative() ==> x.value() >= 0
            &&& exponent == 0 ==> size == frac
            &&& 0 < exponent && !x.nan() ==> size == (0x10_0000_0000_0000 + frac) * pow2((exponent - 1) as nat)
        }),
{
    let k: int = x.unsigned();
    lemma_magnitude_not_less(0, k);
    assert(x.bits as int / 0x10_0000_0000_0000 % 2048 == k / 0x10_0000_0000_0000);
    assert(x.bits as int % 0x10_0000_0000_0000 == k % 0x10_0000_0000_0000);
}

/// How the patterns are ordered: the positive ones as they are, the negative ones the other
/// way round and below the positive ones. The two zeros are equal, and what is no number is
/// not ordered at all.
pub proof fn lemma_pattern_order(x: Double, y: Double)
    ensures
        x.nan() || y.nan() ==> !at_most(x, y),
        !x.nan() && !y.nan() ==> {
            let sign = 0x8000_0000_0000_0000u64;
            &&& x.bits < sign && y.bits < sign ==> (at_most(x, y) <==> x.bits <= y.bits)
            &&& x.bits >= sign && y.bits >= sign ==> (at_most(x, y) <==> x.bits >= y.bits)
            &&& x.bits >= sign && y.bits < sign ==> at_most(x, y)
            &&& x.bits < sign && y.bits >= sign ==> (at_most(x, y) <==> x.bits == 0 && y.bits == sign)
        },
{
    let j: int = x.unsigned();
    let k: int = y.unsigned();
    lemma_magnitude_not_less(0, j);
    lemma_magnitude_not_less(0, k);
    if j > 0 {
        lemma_magnitude_ordered(0, j);
    }
    if k > 0 {
        lemma_magnitude_ordered(0, k);
    }
    if j < k {
        lemma_magnitude_ordered(j, k);
    }
    if k < j {
        lemma_magnitude_ordered(k, j);
    }
}

/// No other pattern is nearer to a quotient than the one that it is rounded to; if another
/// is as near, the one chosen is even.
pub proof fn lemma_nothing_nearer(num: int, den: int, j: int)
    requires
        num >= 0,
        den > 0,
        0 <= j <= 0x7ff0_0000_0000_0000,
    ensures
        ({
            let k = nearest(num, den);
            let near = magnitude(k) * den - num;
            let far = magnitude(j) * den - num;
            &&& 0 <= k <= 0x7ff0_0000_0000_0000
            &&& (if near < 0 { -near } else { near }) <= (if far < 0 { -far } else { far })
            &&& (near == far || near == -far) && j != k ==> k % 2 == 0
        }),
{
    lemma_nearest_exists(num, den);
    let k: int = nearest(num, den);
    assert(distance(j, num, den) >= 0);
    if j != k {
        assert(distance(k, num, den) < distance(j, num, den) || (distance(k, num, den) == distance(j, num, den) && k
            % 2 == 0));
    }
}

/// The rounded value is as near to a quotient as any number is.
pub proof fn lemma_rounded_near(num: int, den: int, z: Double)
    requires
        den > 0,
        !z.nan(),
    ensures
        ({
            let near = rounded(num, den) * den - num;
            let far = z.value() * den - num;
            (if near < 0 { -near } else { near }) <= (if far < 0 { -far } else { far })
        }),
{
    let a: int = abs(num);
    let k: int = nearest(a, den);
    let m: int = magnitude(k);
    let n: int = magnitude(z.unsigned());
    lemma_nothing_nearer(a, den, z.unsigned());
    lemma_nothing_nearer(a, den, 0);
    lemma_magnitude_not_less(0, z.unsigned());
    assert(0 * den == 0 && magnitude(0) == 0);
    assert((-m) * den == -(m * den) && (-n) * den == -(n * den) && n * den >= 0) by (nonlinear_arith)
        requires
            n >= 0,
            den > 0,
    ;
}

/// Scaling a quotient does not change its rounded value.
proof fn lemma_rounded_scaled(num: int, den: int, c: int)
    requires
        den > 0,
        c > 0,
    ensures
        rounded(num * c, den * c) == rounded(num, den),
{
    let a: int = abs(num);
    assert(a * c >= 0 && den * c > 0 && (num < 0 <==> num * c < 0)) by (nonlinear_arith)
        requires
            a >= 0,
            den > 0,
            c > 0,
    ;
    assert(-(num * c) == (-num) * c) by (nonlinear_arith);
    lemma_nearest_exists(a * c, den * c);
    lemma_nearest_scaled(nearest(a * c, den * c), a, den, c);
    lemma_nearest_is(nearest(a * c, den * c), a, den);
}

/// The sum and the difference of finite numbers are the exact ones, rounded. A sum of zero
/// is negative only if both numbers are.
pub proof fn lemma_sum(x: Double, y: Double)
    requires
        x.finite(),
        y.finite(),
    ensures
        !plus(x, y).nan(),
        plus(x, y).value() == rounded(x.value() + y.value(), 1),
        x.value() + y.value() != 0 ==> (plus(x, y).negative() <==> x.value() + y.value() < 0),
        x.value() + y.value() == 0 ==> (plus(x, y).negative() <==> x.negative() && y.negative()),
        !minus(x, y).nan(),
        minus(x, y).value() == rounded(x.value() - y.value(), 1),
{
    lemma_plus_value(x, y);
    lemma_plus_value(x, opposite(y));
    lemma_nearest_exists(abs(x.value() + y.value()), 1);
}

/// The product of finite numbers is the exact one, rounded, and negative if exactly one of
/// them is.
pub proof fn lemma_product_rounded(x: Double, y: Double)
    requires
        x.finite(),
        y.finite(),
    ensures
        !times(x, y).nan(),
        times(x, y).value() == rounded(x.value() * y.value(), pow2(1074) as int),
        times(x, y).negative() <==> x.negative() != y.negative(),
{
    lemma_constants();
    let m: int = magnitude(x.unsigned());
    let n: int = magnitude(y.unsigned());
    lemma_magnitude_not_less(0, x.unsigned());
    lemma_magnitude_not_less(0, y.unsigned());
    assert((-m) * n == -(m * n) && m * (-n) == -(m * n) && (-m) * (-n) == m * n && m * n >= 0) by (nonlinear_arith)
        requires
            m >= 0,
            n >= 0,
    ;
    lemma_signed_nearest(x.negative() != y.negative(), m * n, one());
    lemma_nearest_exists(m * n, one());
}

/// The quotient of finite numbers, the second not zero, is the exact one, rounded, and
/// negative if exactly one of them is.
pub proof fn lemma_quotient_rounded(x: Double, y: Double)
    requires
        x.finite(),
        y.finite(),
        y.value() != 0,
    ensures
        !over(x, y).nan(),
        y.value() > 0 ==> over(x, y).value() == rounded(x.value() * pow2(1074), y.value()),
        y.value() < 0 ==> over(x, y).value() == rounded(-x.value() * pow2(1074), -y.value()),
        over(x, y).negative() <==> x.negative() != y.negative(),
{
    lemma_constants();
    let m: int = magnitude(x.unsigned());
    let n: int = magnitude(y.unsigned());
    lemma_magnitude_not_less(0, x.unsigned());
    lemma_magnitude_not_less(0, y.unsigned());
    let u: int = one();
    assert((-m) * u == -(m * u) && m * u >= 0) by (nonlinear_arith)
        requires
            m >= 0,
            u > 0,
    ;
    lemma_signed_nearest(x.negative() != y.negative(), m * u, n);
    lemma_nearest_exists(m * u, n);
}

/// What is no number makes every result no number.
pub proof fn lemma_no_number(x: Double, y: Double)
    requires
        x.nan() || y.nan(),
    ensures
        plus(x, y).nan(),
        minus(x, y).nan(),
        times(x, y).nan(),
        over(x, y).nan(),
{
}

/// The results that involve an infinity or a division by zero.
pub proof fn lemma_limits(x: Double, y: Double)
    requires
        !x.nan(),
        !y.nan(),
    ensures
        ({
            let sign = x.negative() != y.negative();
            &&& !x.finite() && y.finite() ==> plus(x, y) == x && minus(x, y) == x
            &&& x.finite() && !y.finite() ==> plus(x, y) == y && minus(x, y) == opposite(y)
            &&& !x.finite() && !y.finite() && !sign ==> plus(x, y) == x && minus(x, y).nan()
            &&& !x.finite() && !y.finite() && sign ==> plus(x, y).nan() && minus(x, y) == x
            &&& !x.finite() || !y.finite() ==> if x.value() == 0 || y.value() == 0 {
                times(x, y).nan()
            } else {
                times(x, y).bits == if sign { 0xfff0_0000_0000_0000u64 } else { 0x7ff0_0000_0000_0000u64 }
            }
            &&& !x.finite() && !y.finite() ==> over(x, y).nan()
            &&& !x.finite() && y.finite() ==> over(x, y).bits == if sign {
                0xfff0_0000_0000_0000u64
            } else {
                0x7ff0_0000_0000_0000u64
            }
            &&& x.finite() && !y.finite() ==> over(x, y).bits == if sign { 0x8000_0000_0000_0000u64 } else { 0u64 }
            &&& x.finite() && y.value() == 0 ==> if x.value() == 0 {
                over(x, y).nan()
            } else {
                over(x, y).bits == if sign { 0xfff0_0000_0000_0000u64 } else { 0x7ff0_0000_0000_0000u64 }
            }
        }),
{
    if x.unsigned() > 0 {
        lemma_magnitude_ordered(0, x.unsigned());
    }
    if y.unsigned() > 0 {
        lemma_magnitude_ordered(0, y.unsigned());
    }
}

/// Changing the sign changes the sign bit alone, and twice is not at all.
pub proof fn lemma_sign_changed(x: Double)
    ensures
        x.bits < 0x8000_0000_0000_0000 ==> opposite(x).bits == x.bits + 0x8000_0000_0000_0000,
        x.bits >= 0x8000_0000_0000_0000 ==> opposite(x).bits == x.bits - 0x8000_0000_0000_0000,
        opposite(x).value() == -x.value(),
        opposite(opposite(x)) == x,
{
}

/// Sums and products do not depend on the order.
pub proof fn lemma_order_free(x: Double, y: Double)
    ensures
        x.finite() && y.finite() ==> plus(x, y) == plus(y, x),
        times(x, y) == times(y, x),
{
    assert(abs(x.value()) * abs(y.value()) == abs(y.value()) * abs(x.value())) by (nonlinear_arith);
}

/// A byte is the whole part of a number, held between 0 and 255.
pub proof fn lemma_byte_of(x: Double)
    ensures
        x.nan() ==> whole_byte(x) == 0,
        !x.nan() && x.value() <= 0 ==> whole_byte(x) == 0,
        !x.nan() && x.value() >= 255 * pow2(1074) ==> whole_byte(x) == 255,
        !x.nan() && 0 <= x.value() < 256 * pow2(1074) ==> whole_byte(x) * pow2(1074) <= x.value() < (whole_byte(x) + 1)
            * pow2(1074),
{
    lemma_constants();
    let u: int = one();
    let v: int = magnitude(x.unsigned());
    let q: int = v / u;
    lemma_magnitude_not_less(0, x.unsigned());
    if x.unsigned() > 0 {
        lemma_magnitude_ordered(0, x.unsigned());
    }
    assert(q * u <= v < (q + 1) * u && q >= 0) by (nonlinear_arith)
        requires
            q == v / u,
            v >= 0,
            u > 0,
    ;
    assert(v >= 255 * u ==> q >= 255) by (nonlinear_arith)
        requires
            v < (q + 1) * u,
            u > 0,
    ;
    assert(v < 256 * u ==> q <= 255) by (nonlinear_arith)
        requires
            v >= q * u,
            u > 0,
    ;
    assert(0 * u == 0);
}

/// The byte that a value gives: its whole part, held between 0 and 255.
pub open spec fn byte_of(v: int) -> int {
    if v <= 0 {
        0
    } else if v >= 255 * pow2(1074) {
        255
    } else {
        v / (pow2(1074) as int)
    }
}

/// The byte of a number is that of its value.
proof fn lemma_byte_value(x: Double)
    requires
        !x.nan(),
    ensures
        whole_byte(x) == byte_of(x.value()),
{
    lemma_constants();
    lemma_byte_of(x);
    let u: int = one();
    let v: int = x.value();
    if 0 < v < 255 * u {
        let q: int = whole_byte(x) as int;
        assert(v / u == q) by (nonlinear_arith)
            requires
                q * u <= v < (q + 1) * u,
                u > 0,
        ;
    }
}

/// The color at a fraction of the scale: 255 times the fraction of red, all of green, and
/// 75 times what is missing to one of blue, every step rounded.
pub proof fn lemma_shade(x: Double)
    requires
        x.finite(),
    ensures
        ({
            let color = shade(x);
            let fade = rounded(75 * x.value(), 1);
            &&& color.r == byte_of(rounded(255 * x.value(), 1))
            &&& color.g == 255
            &&& color.b == byte_of(rounded(75 * pow2(1074) - fade, 1))
        }),
{
    lemma_constants();
    let u: int = one();
    let full: Double = Double { bits: FULL_SCALE };
    let top: Double = Double { bits: SEVENTY_FIVE };
    lemma_product_rounded(x, full);
    lemma_product_rounded(x, top);
    assert(x.value() * (255 * u) == (255 * x.value()) * u && x.value() * (75 * u) == (75 * x.value()) * u)
        by (nonlinear_arith);
    lemma_rounded_scaled(255 * x.value(), 1, u);
    lemma_rounded_scaled(75 * x.value(), 1, u);
    lemma_byte_value(times(x, full));
    let taken: Double = times(x, top);
    let left: Double = minus(top, taken);
    lemma_infinities(taken);
    if taken.finite() {
        lemma_sum(top, taken);
        lemma_byte_value(left);
    } else {
        lemma_limits(top, taken);
        lemma_byte_value(left);
        lemma_top();
        let v: int = 75 * u - taken.value();
        let k: int = nearest(abs(v), 1);
        lemma_nearest_exists(abs(v), 1);
        lemma_nearest_exact(FULL_SCALE as int, 1);
        assert(magnitude(FULL_SCALE as int) * 1 == 255 * u);
        lemma_nearest_monotone(255 * u, abs(v), 1);
        lemma_magnitude_not_less(FULL_SCALE as int, k);
        lemma_infinities(left);
        assert(left.value() == -taken.value());
    }
}

/// The magnitude beyond every finite number.
proof fn lemma_top()
    ensures
        magnitude(INFINITY as int) == pow2(2098),
        magnitude(INFINITY as int) > 1024 * one(),
{
    lemma_constants();
    lemma2_to64();
    lemma2_to64_rest();
    lemma_pow2_adds(52, 2046);
    lemma_pow2_adds(10, 1074);
    assert(INFINITY as int / BINADE as int == 2047 && INFINITY as int % BINADE as int == 0);
    lemma_pow2_strictly_increases(1084, 2098);
}

/// Where a magnitude lies on a scale: the distance from its start divided by its width, both
/// rounded and the quotient rounded again; the middle, one half, if that is no finite number.
pub proof fn lemma_fraction(mag: Double, cmin: Double, cmax: Double)
    ensures
        ({
            let x = fraction(mag, cmin, cmax);
            let half = Double { bits: 0x3fe0_0000_0000_0000 };
            let beyond = pow2(2098) as int;
            let shift = rounded(mag.value() - cmin.value(), 1);
            let width = rounded(cmax.value() - cmin.value(), 1);
            let exact = if width > 0 {
                rounded(shift * pow2(1074), width)
            } else {
                rounded(-shift * pow2(1074), -width)
            };
            &&& x.finite()
            &&& !mag.finite() || !cmin.finite() || cmax.nan() ==> x == half
            &&& mag.finite() && cmin.finite() && !cmax.nan() ==> if shift == beyond || shift == -beyond {
                x == half
            } else if !cmax.finite() || width == beyond || width == -beyond {
                x.value() == 0
            } else if width == 0 || exact == beyond || exact == -beyond {
                x == half
            } else {
                x.value() == exact
            }
        }),
{
    lemma_constants();
    lemma_top();
    let a: Double = minus(mag, cmin);
    let w: Double = minus(cmax, cmin);
    if mag.nan() || cmin.nan() || cmax.nan() {
        if mag.nan() || cmin.nan() {
            lemma_no_number(mag, cmin);
        } else {
            lemma_no_number(cmax, cmin);
        }
        lemma_no_number(a, w);
    } else if !mag.finite() || !cmin.finite() {
        lemma_limits(mag, cmin);
        lemma_limits(cmax, cmin);
        assert(a.nan() || !a.finite());
        assert(!over(a, w).finite());
    } else {
        lemma_sum(mag, cmin);
        lemma_infinities(a);
        if cmax.finite() {
            lemma_sum(cmax, cmin);
            lemma_infinities(w);
            lemma_limits(a, w);
            if a.finite() && w.finite() && w.value() != 0 {
                lemma_quotient_rounded(a, w);
                lemma_infinities(over(a, w));
            }
        } else {
            lemma_limits(cmax, cmin);
            lemma_limits(a, w);
        }
    }
}

/// The color of every antenna. One that is not constructed is off, one without a spectrum is
/// blue, and one whose spectrum is below -45, above -20 or no number is red. The others are
/// on a scale from -100 to -10.
pub proof fn lemma_color_of(stat: LedStat)
    ensures
        !stat.constructed ==> stat.color() == (RGB8 { r: 0, g: 0, b: 0 }),
        stat.constructed && stat.spectra is None ==> stat.color() == (RGB8 { r: 0, g: 127, b: 255 }),
        stat.constructed && stat.spectra is Some ==> ({
            let x = stat.spectra->0;
            let u = pow2(1074) as int;
            let part = rounded(rounded(x.value() + 100 * u, 1), 90);
            let fade = rounded(75 * part, 1);
            if x.nan() || x.value() < -45 * u || x.value() > -20 * u {
                stat.color() == (RGB8 { r: 255, g: 50, b: 0 })
            } else {
                &&& stat.color().r == byte_of(rounded(255 * part, 1))
                &&& stat.color().g == 255
                &&& stat.color().b == byte_of(rounded(75 * u - fade, 1))
            }
        }),
{
    lemma_constants();
    if stat.constructed && stat.spectra is Some {
        let x: Double = stat.spectra->0;
        let u: int = one();
        let low: Double = Double { bits: SCALE_LOW };
        let high: Double = Double { bits: SCALE_HIGH };
        lemma_in_range(x);
        if in_range(x) {
            lemma2_to64();
            lemma2_to64_rest();
            lemma_scaled(x);
            lemma_fraction(x, low, high);
            lemma_top();
            lemma_ratio(0x4056_8000_0000_0000, 0x16_8000_0000_0000, 1028, 90, 1);
            lemma_nearest_exact(0x4056_8000_0000_0000, 1);
            let shift: int = rounded(x.value() + 100 * u, 1);
            assert(rounded(90 * u, 1) == 90 * u);
            lemma_rounded_scaled(shift, 90, u);
            lemma_sum(x, low);
            let a: Double = minus(x, low);
            let w: Double = minus(high, low);
            lemma_sum(high, low);
            lemma_infinities(a);
            lemma_infinities(w);
            lemma_quotient_rounded(a, w);
            lemma_infinities(over(a, w));
            lemma_shade(fraction(x, low, high));
        }
    }
}

/// The spectrum that stands for two measurements. A missing one makes it missing; one that
/// is not finite is passed over for the other; of two finite ones the first that is below -45
/// or above -20 counts, and if there is none, their average.
pub proof fn lemma_blend_of(x: Option<Double>, y: Option<Double>)
    ensures
        x is None || y is None ==> blend(x, y) is None,
        x is Some && y is Some ==> ({
            let u = pow2(1074) as int;
            let (a, b) = (x->0, y->0);
            let a_out = a.value() < -45 * u || a.value() > -20 * u;
            let b_out = b.value() < -45 * u || b.value() > -20 * u;
            &&& !a.finite() ==> blend(x, y) == y
            &&& a.finite() && !b.finite() ==> blend(x, y) == x
            &&& a.finite() && b.finite() && a_out ==> blend(x, y) == x
            &&& a.finite() && b.finite() && !a_out && b_out ==> blend(x, y) == y
            &&& a.finite() && b.finite() && !a_out && !b_out ==> {
                &&& blend(x, y) is Some
                &&& blend(x, y)->0.finite()
                &&& blend(x, y)->0.negative()
                &&& 2 * blend(x, y)->0.value() == rounded(a.value() + b.value(), 1)
            }
        }),
{
    lemma_constants();
    if x is Some && y is Some {
        lemma_in_range(x->0);
        lemma_in_range(y->0);
        if in_range(x->0) && in_range(y->0) {
            lemma_half_sum(x->0, y->0);
        }
    }
}

/// Half of the sum of two spectra in range is exact.
proof fn lemma_half_sum(x: Double, y: Double)
    requires
        in_range(x),
        in_range(y),
    ensures
        ({
            let z = over(plus(x, y), Double { bits: TWO });
            &&& z.finite()
            &&& z.negative()
            &&& 2 * z.value() == rounded(x.value() + y.value(), 1)
        }),
{
    lemma_constants();
    lemma_in_range(x);
    lemma_in_range(y);
    lemma_sum(x, y);
    let u: int = one();
    let b: int = BINADE as int;
    let s: Double = plus(x, y);
    let v: int = -(x.value() + y.value());
    let k: int = nearest(v, 1);
    // the sum lies between 2 and 256
    let low: int = TWO as int;
    let high: int = 0x4070_0000_0000_0000;
    lemma2_to64();
    lemma2_to64_rest();
    lemma_ratio(high, BINADE as int, 1030, 256, 1);
    lemma_nearest_exact(low, 1);
    lemma_nearest_exact(high, 1);
    assert(magnitude(low) * 1 == 2 * u && magnitude(high) * 1 == 256 * u);
    lemma_nearest_monotone(2 * u, v, 1);
    lemma_nearest_monotone(v, 256 * u, 1);
    assert(s == signed(true, k));
    let h: int = k - b;
    lemma_doubled(h);
    lemma_magnitude_not_less(0, k);
    // so its half has the next lower exponent
    lemma_nearest_exact(h, 2 * u);
    assert(magnitude(k) * u == magnitude(h) * (2 * u)) by (nonlinear_arith)
        requires
            magnitude(k) == 2 * magnitude(h),
    ;
    assert(abs(s.value()) == magnitude(k));
    assert(over(s, Double { bits: TWO }) == signed(true, h));
}

} // verus!
