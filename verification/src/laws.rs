//! What holds of the map as a whole: of the colors, the merged statistics, and the
//! pictures.
use vstd::prelude::*;
use vstd::multiset::Multiset;
use vstd::arithmetic::power2::{lemma2_to64, lemma2_to64_rest, lemma_pow2_adds, lemma_pow2_pos, pow2};

use crate::arithmetic::{abs, minus, opposite, over, plus, signed, times, whole_byte};
use crate::clock::{face, held, hms, hour_color, minute_color, second_color, since_midnight, with_second, DAY, REACH, SECOND};
use crate::color::{fraction, shade, FULL_SCALE, ONE_HALF, RGB8, SEVENTY_FIVE};
use crate::double::{lemma_magnitude_of_parts, lemma_magnitude_ordered, magnitude, Double, BINADE, INFINITY, SIGN};
use crate::layout::{antenna_led, hour_hand, led_antenna, lemma_antennas_permute, lemma_hand_tips, lemma_hands_inside_ring, lemma_second_on_string, second_led, NUM_LEDS};
use crate::rounding::{lemma_nearest_exact, lemma_nearest_exists, lemma_nearest_monotone, nearest};
use crate::stats::{blank, blend, in_range, merged, out_of_bounds, updated, HeraAuto, LedStat, RANGE_HIGH, RANGE_LOW, SCALE_HIGH, SCALE_LOW, TWO, UNMEASURED};
use crate::tasks::{last_entry, painted};

verus! {

/// The number one, in units of 2<sup>-1074</sup>.
pub open spec fn one() -> int {
    pow2(1074) as int
}

/// The pattern of a whole number `n` at the exponent `t`.
proof fn lemma_whole(k: int, n: int, t: nat, c: int)
    requires
        t <= 1074,
        c == pow2((1074 - t) as nat),
        k == t * BINADE + n * c,
        BINADE <= n * c < 2 * BINADE,
    ensures
        magnitude(k) == n * one(),
{
    lemma_magnitude_of_parts(n * c, t);
    lemma_pow2_adds((1074 - t) as nat, t);
    assert((n * c) * pow2(t) == n * one()) by (nonlinear_arith)
        requires
            one() == c * pow2(t),
    ;
}

/// The named patterns stand for the numbers that they are said to stand for.
pub proof fn lemma_constants()
    ensures
        one() > 0,
        2 * magnitude(ONE_HALF as int) == one(),
        magnitude(SEVENTY_FIVE as int) == 75 * one(),
        magnitude(FULL_SCALE as int) == 255 * one(),
        magnitude(TWO as int) == 2 * one(),
        (Double { bits: RANGE_LOW }).value() == -45 * one(),
        (Double { bits: RANGE_HIGH }).value() == -20 * one(),
        (Double { bits: SCALE_LOW }).value() == -100 * one(),
        (Double { bits: SCALE_HIGH }).value() == -10 * one(),
        (Double { bits: UNMEASURED }).unsigned() == INFINITY,
        (Double { bits: UNMEASURED }).negative(),
{
    lemma2_to64();
    lemma2_to64_rest();
    lemma_pow2_pos(1074);
    lemma_pow2_adds(1, 1073);
    lemma_magnitude_of_parts(BINADE as int, 1021);
    lemma_pow2_adds(52, 1021);
    lemma_whole(SEVENTY_FIVE as int, 75, 1028, 0x4000_0000_0000);
    lemma_whole(FULL_SCALE as int, 255, 1029, 0x2000_0000_0000);
    lemma_whole(TWO as int, 2, 1023, 0x8_0000_0000_0000);
    lemma_whole(RANGE_LOW - SIGN, 45, 1027, 0x8000_0000_0000);
    lemma_whole(RANGE_HIGH - SIGN, 20, 1026, 0x1_0000_0000_0000);
    lemma_whole(SCALE_LOW - SIGN, 100, 1028, 0x4000_0000_0000);
    lemma_whole(SCALE_HIGH - SIGN, 10, 1025, 0x2_0000_0000_0000);
}

/// A spectrum is in range exactly if it is negative and its pattern lies between those
/// of 20 and 45; so it is finite.
pub proof fn lemma_in_range(x: Double)
    ensures
        in_range(x) <==> x.negative() && RANGE_HIGH - SIGN <= x.unsigned() <= RANGE_LOW - SIGN,
        in_range(x) ==> x.finite(),
        in_range(x) <==> !x.nan() && -45 * one() <= x.value() <= -20 * one(),
{
    lemma_constants();
    let k: int = x.unsigned();
    let low: int = RANGE_HIGH - SIGN;
    let high: int = RANGE_LOW - SIGN;
    if k > 0 {
        lemma_magnitude_ordered(0, k);
    }
    if k < low {
        lemma_magnitude_ordered(k, low);
    }
    if k > low {
        lemma_magnitude_ordered(low, k);
    }
    if k < high {
        lemma_magnitude_ordered(k, high);
    }
    if k > high {
        lemma_magnitude_ordered(high, k);
    }
}

/// The next exponent doubles a magnitude.
pub(crate) proof fn lemma_doubled(k: int)
    requires
        k >= BINADE,
    ensures
        magnitude(k + BINADE) == 2 * magnitude(k),
{
    let b: int = BINADE as int;
    let e: int = k / b;
    assert((k + b) / b == e + 1 && (k + b) % b == k % b);
    vstd::arithmetic::power2::lemma_pow2_unfold(e as nat);
    assert((b + k % b) * (2 * pow2((e - 1) as nat)) == 2 * ((b + k % b) * pow2((e - 1) as nat)))
        by (nonlinear_arith);
}

/// The average of two spectra in range.
pub open spec fn average(x: Double, y: Double) -> Double {
    over(plus(x, y), Double { bits: TWO })
}

/// The average of two spectra in range lies between them, so it is in range itself; and
/// it does not matter which comes first.
pub proof fn lemma_average(x: Double, y: Double)
    requires
        in_range(x),
        in_range(y),
        x.value() <= y.value(),
    ensures
        x.value() <= average(x, y).value() <= y.value(),
        in_range(average(x, y)),
        average(x, y) == average(y, x),
{
    lemma_constants();
    lemma_in_range(x);
    lemma_in_range(y);
    let i: int = x.unsigned();
    let j: int = y.unsigned();
    if i < j {
        lemma_magnitude_ordered(i, j);
    }
    assert(j <= i);
    let b: int = BINADE as int;
    let v: int = magnitude(i) + magnitude(j);
    if j < i {
        lemma_magnitude_ordered(j, i);
    }
    lemma_magnitude_ordered(0, j);
    lemma_doubled(i);
    lemma_doubled(j);
    lemma_nearest_exact(i + b, 1);
    lemma_nearest_exact(j + b, 1);
    assert(magnitude(i + b) * 1 == 2 * magnitude(i) && magnitude(j + b) * 1 == 2 * magnitude(j));
    lemma_nearest_monotone(2 * magnitude(j), v, 1);
    lemma_nearest_monotone(v, 2 * magnitude(i), 1);
    let k: int = nearest(v, 1);
    assert(j + b <= k <= i + b);
    let s: Double = plus(x, y);
    assert(s == signed(true, k));
    assert(s.unsigned() == k && s.negative());
    // halving
    if j + b < k {
        lemma_magnitude_ordered(j + b, k);
    }
    if k < i + b {
        lemma_magnitude_ordered(k, i + b);
    }
    let den: int = 2 * one();
    let num: int = magnitude(k) * one();
    let lo: int = magnitude(j) * den;
    let hi: int = magnitude(i) * den;
    assert(0 <= lo <= num <= hi) by (nonlinear_arith)
        requires
            lo == magnitude(j) * (2 * one()),
            hi == magnitude(i) * (2 * one()),
            num == magnitude(k) * one(),
            0 <= magnitude(j),
            2 * magnitude(j) <= magnitude(k) <= 2 * magnitude(i),
            one() > 0,
    ;
    lemma_nearest_exact(i, den);
    lemma_nearest_exact(j, den);
    lemma_nearest_monotone(lo, num, den);
    lemma_nearest_monotone(num, hi, den);
    let r: int = nearest(num, den);
    lemma_magnitude_ordered(0, k);
    assert(abs(s.value()) == magnitude(k));
    assert(abs((Double { bits: TWO }).value()) == den);
    let z: Double = average(x, y);
    assert(z == signed(true, r));
    lemma_in_range(z);
    if j < r {
        lemma_magnitude_ordered(j, r);
    }
    if r < i {
        lemma_magnitude_ordered(r, i);
    }
    assert(x.value() + y.value() == y.value() + x.value());
}

/// The color that two measurements of an antenna give does not depend on their order.
pub proof fn lemma_blend_order(ant: u16, constructed: bool, x: Option<Double>, y: Option<Double>)
    ensures
        (LedStat { ant, constructed, spectra: blend(x, y) }).color() == (LedStat {
            ant,
            constructed,
            spectra: blend(y, x),
        }).color(),
{
    if let (Some(a), Some(b)) = (x, y) {
        lemma_in_range(a);
        lemma_in_range(b);
        if in_range(a) && in_range(b) {
            if a.value() <= b.value() {
                lemma_average(a, b);
            } else {
                lemma_average(b, a);
            }
        }
    }
}

/// Of two finite measurements of a constructed antenna, one out of range makes it red;
/// if both are in range, it shows a color of the scale.
pub proof fn lemma_blend_red(ant: u16, x: Double, y: Double)
    requires
        x.finite(),
        y.finite(),
    ensures
        ({
            let stat = LedStat { ant, constructed: true, spectra: blend(Some(x), Some(y)) };
            if in_range(x) && in_range(y) {
                stat.color() == shade(
                    fraction(average(x, y), Double { bits: SCALE_LOW }, Double { bits: SCALE_HIGH }),
                )
            } else {
                stat.color() == out_of_bounds()
            }
        }),
{
    if in_range(x) && in_range(y) {
        if x.value() <= y.value() {
            lemma_average(x, y);
        } else {
            lemma_average(y, x);
        }
    }
}

/// The green part tells the four states of an antenna apart.
pub proof fn lemma_states_differ(stat: LedStat)
    ensures
        stat.color().g == 0 <==> !stat.constructed,
        stat.color().g == 127 <==> stat.constructed && stat.spectra is None,
        stat.color().g == 50 <==> stat.constructed && stat.spectra is Some && !in_range(stat.spectra->0),
        stat.color().g == 255 <==> stat.constructed && stat.spectra is Some && in_range(stat.spectra->0),
{
}

/// A row that tells of an antenna.
pub open spec fn tells_of(row: Option<HeraAuto>, ant: u16) -> bool {
    row is Some && row->0.ant == ant
}

/// The entry of an antenna bears its number; it counts as constructed exactly if some
/// row says so, and its spectrum is missing exactly if some row of it lacks one.
pub proof fn lemma_merged(rows: Seq<Option<HeraAuto>>, ant: u16)
    ensures
        merged(rows, ant).ant == ant,
        merged(rows, ant).constructed <==> exists|i: int|
            0 <= i < rows.len() && #[trigger] tells_of(rows[i], ant) && rows[i]->0.constructed,
        merged(rows, ant).spectra is None <==> exists|i: int|
            0 <= i < rows.len() && #[trigger] tells_of(rows[i], ant) && rows[i]->0.spectra is None,
    decreases rows.len(),
{
    if rows.len() > 0 {
        let before: Seq<Option<HeraAuto>> = rows.drop_last();
        let n: int = rows.len() - 1;
        lemma_merged(before, ant);
        assert forall|i: int| 0 <= i < n implies #[trigger] rows[i] == before[i] by {}
        if merged(before, ant).constructed {
            let i: int = choose|i: int|
                0 <= i < before.len() && #[trigger] tells_of(before[i], ant) && before[i]->0.constructed;
            assert(tells_of(rows[i], ant) && rows[i]->0.constructed);
        }
        if merged(before, ant).spectra is None {
            let i: int = choose|i: int|
                0 <= i < before.len() && #[trigger] tells_of(before[i], ant) && before[i]->0.spectra is None;
            assert(tells_of(rows[i], ant) && rows[i]->0.spectra is None);
        }
        if tells_of(rows[n], ant) {
            assert(rows.last() == rows[n]);
        }
        if exists|i: int| 0 <= i < rows.len() && #[trigger] tells_of(rows[i], ant) && rows[i]->0.constructed {
            let i: int = choose|i: int|
                0 <= i < rows.len() && #[trigger] tells_of(rows[i], ant) && rows[i]->0.constructed;
            if i < n {
                assert(tells_of(before[i], ant) && before[i]->0.constructed);
            }
        }
        if exists|i: int| 0 <= i < rows.len() && #[trigger] tells_of(rows[i], ant) && rows[i]->0.spectra is None {
            let i: int = choose|i: int|
                0 <= i < rows.len() && #[trigger] tells_of(rows[i], ant) && rows[i]->0.spectra is None;
            if i < n {
                assert(tells_of(before[i], ant) && before[i]->0.spectra is None);
            }
        }
    }
}

/// Rows that could not be read and rows of other antennas may be left out.
pub proof fn lemma_other_rows(rows: Seq<Option<HeraAuto>>, ant: u16)
    ensures
        merged(rows, ant) == merged(rows.filter(|row: Option<HeraAuto>| tells_of(row, ant)), ant),
    decreases rows.len(),
{
    reveal(Seq::filter);
    if rows.len() > 0 {
        let own = |row: Option<HeraAuto>| tells_of(row, ant);
        let before: Seq<Option<HeraAuto>> = rows.drop_last();
        lemma_other_rows(before, ant);
        let kept: Seq<Option<HeraAuto>> = before.filter(own);
        if tells_of(rows.last(), ant) {
            assert(rows.filter(own) =~= kept.push(rows.last()));
            assert(kept.push(rows.last()).drop_last() =~= kept);
        } else {
            assert(rows.filter(own) =~= kept);
        }
    } else {
        assert(rows.filter(|row: Option<HeraAuto>| tells_of(row, ant)) =~= rows);
    }
}

/// Leaving out rows commutes with forgetting their order.
proof fn lemma_filter_multiset(rows: Seq<Option<HeraAuto>>, own: spec_fn(Option<HeraAuto>) -> bool)
    ensures
        rows.filter(own).to_multiset() =~= rows.to_multiset().filter(own),
    decreases rows.len(),
{
    broadcast use vstd::multiset::group_multiset_axioms;

    reveal(Seq::filter);
    if rows.len() == 0 {
        assert(rows.filter(own) =~= rows);
        vstd::seq_lib::to_multiset_len(rows);
        assert(rows.to_multiset() =~= Multiset::empty());
    } else {
        let before: Seq<Option<HeraAuto>> = rows.drop_last();
        lemma_filter_multiset(before, own);
        assert(rows =~= before.push(rows.last()));
        vstd::seq_lib::to_multiset_build(before, rows.last());
        if own(rows.last()) {
            assert(rows.filter(own) =~= before.filter(own).push(rows.last()));
            vstd::seq_lib::to_multiset_build(before.filter(own), rows.last());
        } else {
            assert(rows.filter(own) =~= before.filter(own));
        }
    }
}

/// At most two rows can only be exchanged.
proof fn lemma_two_rows(a: Seq<Option<HeraAuto>>, b: Seq<Option<HeraAuto>>)
    requires
        a.to_multiset() == b.to_multiset(),
        a.len() <= 2,
    ensures
        a == b || (a.len() == 2 && b == seq![a[1], a[0]]),
{
    vstd::seq_lib::to_multiset_len(a);
    vstd::seq_lib::to_multiset_len(b);
    if a.len() == 0 {
        assert(a =~= b);
    } else {
        vstd::seq_lib::to_multiset_contains(a, a[0]);
        vstd::seq_lib::to_multiset_contains(b, a[0]);
        assert(a.contains(a[0]));
        let i: int = choose|i: int| 0 <= i < b.len() && b[i] == a[0];
        if a.len() == 1 {
            assert(a =~= b);
        } else {
            vstd::seq_lib::to_multiset_remove(a, 0);
            vstd::seq_lib::to_multiset_remove(b, i);
            let rest: Seq<Option<HeraAuto>> = b.remove(i);
            vstd::seq_lib::to_multiset_contains(a.remove(0), a[1]);
            vstd::seq_lib::to_multiset_contains(rest, a[1]);
            assert(a.remove(0)[0] == a[1]);
            assert(a.remove(0).contains(a[1]));
            let j: int = choose|j: int| 0 <= j < rest.len() && rest[j] == a[1];
            if i == 0 {
                assert(a =~= b);
            } else {
                assert(b =~= seq![a[1], a[0]]);
            }
        }
    }
}

/// An antenna with at most two rows, one for each dipole, shows the same color in
/// whatever order the rows of the table come.
pub proof fn lemma_dipole_order(rows: Seq<Option<HeraAuto>>, other: Seq<Option<HeraAuto>>, ant: u16)
    requires
        rows.to_multiset() == other.to_multiset(),
        rows.filter(|row: Option<HeraAuto>| tells_of(row, ant)).len() <= 2,
    ensures
        merged(rows, ant).color() == merged(other, ant).color(),
{
    let own = |row: Option<HeraAuto>| tells_of(row, ant);
    let a: Seq<Option<HeraAuto>> = rows.filter(own);
    let b: Seq<Option<HeraAuto>> = other.filter(own);
    lemma_other_rows(rows, ant);
    lemma_other_rows(other, ant);
    lemma_filter_multiset(rows, own);
    lemma_filter_multiset(other, own);
    lemma_two_rows(a, b);
    if a != b {
        rows.lemma_filter_pred(own, 0);
        rows.lemma_filter_pred(own, 1);
        let first: HeraAuto = a[0]->0;
        let second: HeraAuto = a[1]->0;
        assert(a =~= seq![Some(first), Some(second)]);
        assert(b =~= seq![Some(second), Some(first)]);
        lemma_pair(first, second);
        lemma_pair(second, first);
        lemma_blend_order(ant, first.constructed || second.constructed, first.spectra, second.spectra);
    }
}

/// Two rows of one antenna: the spectrum is the blend of the two.
pub proof fn lemma_pair(first: HeraAuto, second: HeraAuto)
    requires
        first.ant == second.ant,
    ensures
        merged(seq![Some(first), Some(second)], first.ant) == (LedStat {
            ant: first.ant,
            constructed: first.constructed || second.constructed,
            spectra: blend(first.spectra, second.spectra),
        }),
{
    let rows: Seq<Option<HeraAuto>> = seq![Some(first), Some(second)];
    let ant: u16 = first.ant;
    lemma_constants();
    assert(rows.drop_last() =~= seq![Some(first)]);
    assert(rows.drop_last().drop_last() =~= Seq::empty());
    assert(merged(rows.drop_last().drop_last(), ant) == blank(ant));
    assert(merged(rows.drop_last(), ant) == updated(blank(ant), first));
    assert(blend(blank(ant).spectra, first.spectra) == first.spectra);
}

/// A quotient between two doubles rounds to one between them.
proof fn lemma_round_between(low: int, num: int, high: int, den: int)
    requires
        0 <= low <= high <= INFINITY,
        den > 0,
        magnitude(low) * den <= num <= magnitude(high) * den,
    ensures
        low <= nearest(num, den) <= high,
{
    if low > 0 {
        lemma_magnitude_ordered(0, low);
    }
    assert(magnitude(low) * den >= 0) by (nonlinear_arith)
        requires
            magnitude(low) >= 0,
            den > 0,
    ;
    lemma_nearest_exact(low, den);
    lemma_nearest_exact(high, den);
    lemma_nearest_monotone(magnitude(low) * den, num, den);
    lemma_nearest_monotone(num, magnitude(high) * den, den);
}

/// Magnitudes do not decrease with the pattern.
pub(crate) proof fn lemma_magnitude_not_less(j: int, k: int)
    requires
        0 <= j <= k,
    ensures
        0 <= magnitude(j) <= magnitude(k),
{
    if j > 0 {
        lemma_magnitude_ordered(0, j);
    }
    if j < k {
        lemma_magnitude_ordered(j, k);
    }
}

/// The byte that a nonnegative double gives.
proof fn lemma_byte(k: int, low: int, high: int)
    requires
        0 <= k < INFINITY,
        0 <= low,
        high < 256,
        low * one() <= magnitude(k) < (high + 1) * one(),
    ensures
        low <= whole_byte(signed(false, k)) <= high,
        whole_byte(signed(false, k)) == magnitude(k) / one(),
{
    lemma_constants();
    let v: int = magnitude(k);
    let q: int = v / one();
    assert(low <= q <= high) by (nonlinear_arith)
        requires
            q == v / one(),
            one() > 0,
            low * one() <= v < (high + 1) * one(),
    ;
}

/// The pattern with the significand `m` at the exponent `t` is that of `n / f`.
pub(crate) proof fn lemma_ratio(k: int, m: int, t: nat, n: int, f: int)
    requires
        t <= 1074,
        k == t * BINADE + m,
        BINADE <= m < 2 * BINADE,
        f * m == n * pow2((1074 - t) as nat),
    ensures
        f * magnitude(k) == n * one(),
{
    lemma_magnitude_of_parts(m, t);
    lemma_pow2_adds((1074 - t) as nat, t);
    let c: int = pow2((1074 - t) as nat) as int;
    assert(f * (m * pow2(t)) == n * one()) by (nonlinear_arith)
        requires
            f * m == n * c,
            one() == c * pow2(t),
    ;
}

/// The color of a spectrum in range, step by step: its distance from the start of the
/// scale, the fraction, the red part, what is taken from 75, and the blue part.
pub(crate) proof fn lemma_scaled(x: Double)
    requires
        in_range(x),
    ensures
        ({
            let low = Double { bits: SCALE_LOW };
            let high = Double { bits: SCALE_HIGH };
            let color = shade(fraction(x, low, high));
            &&& over(minus(x, low), minus(high, low)).finite()
            &&& 155 <= color.r <= 226
            &&& 8 <= color.b <= 29
        }),
{
    lemma_constants();
    lemma_in_range(x);
    lemma2_to64();
    lemma2_to64_rest();
    let u: int = one();
    // the shift lies between 55 and 80
    let low: Double = Double { bits: SCALE_LOW };
    let high: Double = Double { bits: SCALE_HIGH };
    assert(opposite(low).value() == 100 * u);
    let v: int = x.value() + 100 * u;
    let shift: int = nearest(v, 1);
    lemma_ratio(0x404b_8000_0000_0000, 0x1b_8000_0000_0000, 1027, 55, 1);
    lemma_ratio(0x4054_0000_0000_0000, 0x14_0000_0000_0000, 1028, 80, 1);
    lemma_round_between(0x404b_8000_0000_0000, v, 0x4054_0000_0000_0000, 1);
    let d: Double = minus(x, low);
    assert(d == signed(false, shift));
    lemma_magnitude_not_less(0x404b_8000_0000_0000, shift);
    lemma_magnitude_not_less(shift, 0x4054_0000_0000_0000);
    // the width of the scale is 90
    lemma_ratio(0x4056_8000_0000_0000, 0x16_8000_0000_0000, 1028, 90, 1);
    lemma_nearest_exact(0x4056_8000_0000_0000, 1);
    let w: Double = minus(high, low);
    assert(w == signed(false, 0x4056_8000_0000_0000));
    assert(w.value() == 90 * u);
    // the fraction lies between 39/64 and 911/1024
    let num: int = magnitude(shift) * u;
    let part: int = nearest(num, 90 * u);
    lemma_ratio(0x3fe3_8000_0000_0000, 0x13_8000_0000_0000, 1021, 39, 64);
    lemma_ratio(0x3fec_7800_0000_0000, 0x1c_7800_0000_0000, 1021, 911, 1024);
    let f0: int = magnitude(0x3fe3_8000_0000_0000);
    let f1: int = magnitude(0x3fec_7800_0000_0000);
    assert(f0 * (90 * u) <= num <= f1 * (90 * u)) by (nonlinear_arith)
        requires
            num == magnitude(shift) * u,
            64 * f0 == 39 * u,
            1024 * f1 == 911 * u,
            55 * u <= magnitude(shift) <= 80 * u,
            u > 0,
    {
        assert(90 * f0 <= magnitude(shift));
        assert(magnitude(shift) <= 90 * f1);
        assert(f0 * (90 * u) == (90 * f0) * u);
        assert(f1 * (90 * u) == (90 * f1) * u);
    }
    lemma_round_between(0x3fe3_8000_0000_0000, num, 0x3fec_7800_0000_0000, 90 * u);
    let q: Double = over(d, w);
    assert(q == signed(false, part));
    assert(fraction(x, low, high) == q);
    lemma_magnitude_not_less(0x3fe3_8000_0000_0000, part);
    lemma_magnitude_not_less(part, 0x3fec_7800_0000_0000);
    let p: int = magnitude(part);
    // the red part lies between 155 and 226.875
    let rnum: int = p * (255 * u);
    let red: int = nearest(rnum, u);
    lemma_ratio(0x4063_6000_0000_0000, 0x13_6000_0000_0000, 1029, 155, 1);
    lemma_ratio(0x406c_5c00_0000_0000, 0x1c_5c00_0000_0000, 1029, 1815, 8);
    let r0: int = magnitude(0x4063_6000_0000_0000);
    let r1: int = magnitude(0x406c_5c00_0000_0000);
    assert(r0 * u <= rnum <= r1 * u) by (nonlinear_arith)
        requires
            rnum == p * (255 * u),
            r0 == 155 * u,
            8 * r1 == 1815 * u,
            39 * u <= 64 * p,
            1024 * p <= 911 * u,
            u > 0,
    {
        assert(r0 <= 255 * p);
        assert(255 * p <= r1);
        assert(rnum == (255 * p) * u);
    }
    lemma_round_between(0x4063_6000_0000_0000, rnum, 0x406c_5c00_0000_0000, u);
    assert(times(q, Double { bits: FULL_SCALE }) == signed(false, red));
    lemma_magnitude_not_less(0x4063_6000_0000_0000, red);
    lemma_magnitude_not_less(red, 0x406c_5c00_0000_0000);
    lemma_byte(red, 155, 226);
    // what is taken from 75 lies between 45.5 and 66.75
    let fnum: int = p * (75 * u);
    let fade: int = nearest(fnum, u);
    lemma_ratio(0x4046_c000_0000_0000, 0x16_c000_0000_0000, 1027, 91, 2);
    lemma_ratio(0x4050_b000_0000_0000, 0x10_b000_0000_0000, 1028, 267, 4);
    let t0: int = magnitude(0x4046_c000_0000_0000);
    let t1: int = magnitude(0x4050_b000_0000_0000);
    assert(t0 * u <= fnum <= t1 * u) by (nonlinear_arith)
        requires
            fnum == p * (75 * u),
            2 * t0 == 91 * u,
            4 * t1 == 267 * u,
            39 * u <= 64 * p,
            1024 * p <= 911 * u,
            u > 0,
    {
        assert(t0 <= 75 * p);
        assert(75 * p <= t1);
        assert(fnum == (75 * p) * u);
    }
    lemma_round_between(0x4046_c000_0000_0000, fnum, 0x4050_b000_0000_0000, u);
    let top: Double = Double { bits: SEVENTY_FIVE };
    assert(times(q, top) == signed(false, fade));
    lemma_magnitude_not_less(0x4046_c000_0000_0000, fade);
    lemma_magnitude_not_less(fade, 0x4050_b000_0000_0000);
    // the blue part lies between 8.25 and 29.5
    let bnum: int = 75 * u - magnitude(fade);
    let blue: int = nearest(bnum, 1);
    lemma_ratio(0x4020_8000_0000_0000, 0x10_8000_0000_0000, 1025, 33, 4);
    lemma_ratio(0x403d_8000_0000_0000, 0x1d_8000_0000_0000, 1026, 59, 2);
    lemma_round_between(0x4020_8000_0000_0000, bnum, 0x403d_8000_0000_0000, 1);
    assert(minus(top, times(q, top)) == signed(false, blue));
    lemma_magnitude_not_less(0x4020_8000_0000_0000, blue);
    lemma_magnitude_not_less(blue, 0x403d_8000_0000_0000);
    lemma_byte(blue, 8, 29);
}

/// The colors of the spectra in range.
pub proof fn lemma_scale_bounds(stat: LedStat)
    requires
        stat.constructed,
        stat.spectra is Some,
        in_range(stat.spectra->0),
    ensures
        155 <= stat.color().r <= 226,
        stat.color().g == 255,
        8 <= stat.color().b <= 29,
{
    lemma_scaled(stat.spectra->0);
}

/// The value of the double nearest to a quotient of either sign.
pub open spec fn rounded(num: int, den: int) -> int {
    if num < 0 {
        -magnitude(nearest(-num, den))
    } else {
        magnitude(nearest(num, den))
    }
}

/// Rounding keeps the order, whatever the signs.
proof fn lemma_rounded_monotone(a: int, b: int, den: int)
    requires
        a <= b,
        den > 0,
    ensures
        rounded(a, den) <= rounded(b, den),
{
    lemma_nearest_exists(abs(a), den);
    lemma_nearest_exists(abs(b), den);
    lemma_magnitude_not_less(0, nearest(abs(a), den));
    lemma_magnitude_not_less(0, nearest(abs(b), den));
    if a >= 0 {
        lemma_nearest_monotone(a, b, den);
        lemma_magnitude_not_less(nearest(a, den), nearest(b, den));
    } else if b < 0 {
        lemma_nearest_monotone(-b, -a, den);
        lemma_magnitude_not_less(nearest(-b, den), nearest(-a, den));
    }
}

/// The value of a double that was put together from a sign and a nearest pattern.
pub(crate) proof fn lemma_signed_nearest(negative: bool, num: int, den: int)
    requires
        num >= 0,
        den > 0,
    ensures
        !signed(negative, nearest(num, den)).nan(),
        signed(negative, nearest(num, den)).value() == (if negative {
            -magnitude(nearest(num, den))
        } else {
            magnitude(nearest(num, den))
        }),
        num == 0 ==> nearest(num, den) == 0,
{
    lemma_nearest_exists(num, den);
    if num == 0 {
        assert(magnitude(0) * den == 0) by (nonlinear_arith)
            requires
                magnitude(0) == 0,
        ;
        lemma_nearest_exact(0, den);
    }
}

/// The value of a sum of finite doubles.
pub(crate) proof fn lemma_plus_value(x: Double, y: Double)
    requires
        x.finite(),
        y.finite(),
    ensures
        !plus(x, y).nan(),
        plus(x, y).value() == rounded(x.value() + y.value(), 1),
{
    let v: int = x.value() + y.value();
    lemma_signed_nearest(v < 0, abs(v), 1);
}

/// The value of a product with a positive factor.
proof fn lemma_times_value(x: Double, c: Double)
    requires
        x.finite(),
        c.finite(),
        !c.negative(),
    ensures
        !times(x, c).nan(),
        times(x, c).value() == rounded(x.value() * c.value(), one()),
{
    lemma_constants();
    lemma_magnitude_not_less(0, x.unsigned());
    lemma_magnitude_not_less(0, c.unsigned());
    let m: int = magnitude(x.unsigned());
    let n: int = magnitude(c.unsigned());
    lemma_products_ordered(0, m, n);
    assert((-m) * n == -(m * n)) by (nonlinear_arith);
    lemma_signed_nearest(x.negative(), m * n, one());
}

/// The value of a quotient by a positive divisor.
proof fn lemma_over_value(x: Double, y: Double)
    requires
        x.finite(),
        y.finite(),
        !y.negative(),
        y.unsigned() > 0,
    ensures
        !over(x, y).nan(),
        y.value() > 0,
        over(x, y).value() == rounded(x.value() * one(), y.value()),
{
    lemma_constants();
    lemma_magnitude_not_less(0, x.unsigned());
    lemma_magnitude_ordered(0, y.unsigned());
    let m: int = magnitude(x.unsigned());
    lemma_products_ordered(0, m, one());
    assert((-m) * one() == -(m * one())) by (nonlinear_arith);
    lemma_signed_nearest(x.negative(), m * one(), magnitude(y.unsigned()));
}

/// Infinities are the outermost values.
pub(crate) proof fn lemma_infinities(x: Double)
    requires
        !x.nan(),
    ensures
        -magnitude(INFINITY as int) <= x.value() <= magnitude(INFINITY as int),
        x.value() == magnitude(INFINITY as int) <==> !x.finite() && !x.negative(),
        x.value() == -magnitude(INFINITY as int) <==> !x.finite() && x.negative(),
{
    lemma_magnitude_ordered(0, INFINITY as int);
    lemma_magnitude_not_less(0, x.unsigned());
    if x.finite() {
        lemma_magnitude_ordered(x.unsigned(), INFINITY as int);
    }
}

/// The more is taken from a finite number, the less remains.
proof fn lemma_minus_antitone(top: Double, less: Double, more: Double)
    requires
        top.finite(),
        !less.nan(),
        !more.nan(),
        less.value() <= more.value(),
    ensures
        !minus(top, less).nan(),
        !minus(top, more).nan(),
        minus(top, more).value() <= minus(top, less).value(),
{
    lemma_infinities(less);
    lemma_infinities(more);
    if less.finite() {
        lemma_plus_value(top, opposite(less));
    }
    if more.finite() {
        lemma_plus_value(top, opposite(more));
    }
    lemma_infinities(minus(top, less));
    lemma_infinities(minus(top, more));
    assert(opposite(less).value() == -less.value() && opposite(more).value() == -more.value());
    if less.finite() && more.finite() {
        lemma_rounded_monotone(top.value() - more.value(), top.value() - less.value(), 1);
    }
}

/// Larger numbers give larger bytes.
proof fn lemma_byte_monotone(x: Double, y: Double)
    requires
        !x.nan(),
        !y.nan(),
        x.value() <= y.value(),
    ensures
        whole_byte(x) <= whole_byte(y),
{
    lemma_constants();
    lemma_magnitude_not_less(0, x.unsigned());
    lemma_magnitude_not_less(0, y.unsigned());
    if !x.negative() {
        vstd::arithmetic::div_mod::lemma_div_is_ordered(
            magnitude(x.unsigned()),
            magnitude(y.unsigned()),
            one(),
        );
        vstd::arithmetic::div_mod::lemma_div_is_ordered(0, magnitude(x.unsigned()), one());
    }
}

/// The scale is monotone: from a lower to a higher magnitude red does not decrease and
/// blue does not increase, as far as the fractions of the scale are finite numbers.
pub proof fn lemma_scale_monotone(lower: Double, higher: Double, cmin: Double, cmax: Double)
    requires
        cmin.value() < cmax.value(),
        lower.value() <= higher.value(),
        over(minus(lower, cmin), minus(cmax, cmin)).finite(),
        over(minus(higher, cmin), minus(cmax, cmin)).finite(),
    ensures
        shade(fraction(lower, cmin, cmax)).r <= shade(fraction(higher, cmin, cmax)).r,
        shade(fraction(lower, cmin, cmax)).b >= shade(fraction(higher, cmin, cmax)).b,
{
    lemma_constants();
    let u: int = one();
    let w: Double = minus(cmax, cmin);
    // what is infinite or no number has no finite fraction
    assert(!cmin.nan() && !cmax.nan() && !lower.nan() && !higher.nan());
    lemma_infinities(cmin);
    lemma_infinities(cmax);
    assert(cmin.finite());
    assert(lower.finite() && higher.finite());
    let z: Double = opposite(cmin);
    assert(z.finite() && z.value() == -cmin.value());
    lemma_plus_value(lower, z);
    lemma_plus_value(higher, z);
    let a: Double = minus(lower, cmin);
    let b: Double = minus(higher, cmin);
    lemma_rounded_monotone(lower.value() - cmin.value(), higher.value() - cmin.value(), 1);
    assert(a.finite() && b.finite());
    let p: Double = over(a, w);
    let q: Double = over(b, w);
    if cmax.finite() {
        let v: int = cmax.value() - cmin.value();
        lemma_nearest_exact(1, 1);
        lemma_nearest_monotone(1, v, 1);
        lemma_nearest_exists(v, 1);
        assert(!w.negative() && w.unsigned() > 0);
    }
    assert(!w.negative());
    if w.finite() {
        lemma_over_value(a, w);
        lemma_over_value(b, w);
        assert(a.value() * u <= b.value() * u) by (nonlinear_arith)
            requires
                a.value() <= b.value(),
                u > 0,
        ;
        lemma_rounded_monotone(a.value() * u, b.value() * u, w.value());
    }
    assert(p.value() <= q.value());
    let full: Double = Double { bits: FULL_SCALE };
    let top: Double = Double { bits: SEVENTY_FIVE };
    lemma_times_value(p, full);
    lemma_times_value(q, full);
    lemma_times_value(p, top);
    lemma_times_value(q, top);
    assert(p.value() * (255 * u) <= q.value() * (255 * u) && p.value() * (75 * u) <= q.value() * (75 * u))
        by (nonlinear_arith)
        requires
            p.value() <= q.value(),
            u > 0,
    ;
    lemma_rounded_monotone(p.value() * (255 * u), q.value() * (255 * u), u);
    lemma_byte_monotone(times(p, full), times(q, full));
    lemma_rounded_monotone(p.value() * (75 * u), q.value() * (75 * u), u);
    lemma_minus_antitone(top, times(p, top), times(q, top));
    lemma_byte_monotone(minus(top, times(q, top)), minus(top, times(p, top)));
}

/// The higher a spectrum in range, the more red and the less blue.
pub proof fn lemma_color_follows_spectrum(lower: LedStat, higher: LedStat)
    requires
        lower.constructed,
        higher.constructed,
        lower.spectra is Some,
        higher.spectra is Some,
        in_range(lower.spectra->0),
        in_range(higher.spectra->0),
        lower.spectra->0.value() <= higher.spectra->0.value(),
    ensures
        lower.color().r <= higher.color().r,
        lower.color().b >= higher.color().b,
{
    let low: Double = Double { bits: SCALE_LOW };
    let high: Double = Double { bits: SCALE_HIGH };
    lemma_constants();
    lemma_scaled(lower.spectra->0);
    lemma_scaled(higher.spectra->0);
    lemma_scale_monotone(lower.spectra->0, higher.spectra->0, low, high);
}

/// Multiplying by a factor that is not negative keeps the order.
proof fn lemma_products_ordered(a: int, b: int, c: int)
    requires
        0 <= a <= b,
        c >= 0,
    ensures
        0 <= a * c <= b * c,
{
    assert(0 <= a * c <= b * c) by (nonlinear_arith)
        requires
            0 <= a <= b,
            c >= 0,
    ;
}

/// At its two ends the scale gives no red and full blue, and full red and no blue.
pub proof fn lemma_scale_ends(cmin: Double, cmax: Double)
    requires
        cmin.finite(),
        cmax.finite(),
        minus(cmax, cmin).finite(),
        cmin.value() != cmax.value(),
    ensures
        shade(fraction(cmin, cmin, cmax)) == (RGB8 { r: 0, g: 255, b: 75 }),
        shade(fraction(cmax, cmin, cmax)) == (RGB8 { r: 255, g: 255, b: 0 }),
{
    lemma_constants();
    lemma2_to64();
    lemma2_to64_rest();
    let u: int = one();
    let w: Double = minus(cmax, cmin);
    let top: Double = Double { bits: SEVENTY_FIVE };
    let full: Double = Double { bits: FULL_SCALE };
    let v: int = cmax.value() - cmin.value();
    assert(opposite(cmin).value() == -cmin.value());
    assert(abs(v) >= 1);
    // a difference of doubles is at least the unit, so it does not round to zero
    lemma_nearest_exact(1, 1);
    lemma_nearest_monotone(1, abs(v), 1);
    let k: int = nearest(abs(v), 1);
    lemma_nearest_exists(abs(v), 1);
    assert(w == signed(v < 0, k) && w.unsigned() == k && k > 0);
    lemma_magnitude_ordered(0, k);
    let m: int = magnitude(k);
    // at the lower end the fraction is a zero
    let z: Double = minus(cmin, cmin);
    assert(z == signed(false, 0));
    assert(magnitude(0) * m == 0 && 0 * pow2(1074) == 0);
    lemma_nearest_exact(0, m);
    let q0: Double = over(z, w);
    assert(q0 == signed(w.negative(), 0));
    assert(magnitude(0) * u == 0 && 0 * (255 * u) == 0 && 0 * (75 * u) == 0);
    lemma_nearest_exact(0, u);
    assert(times(q0, full) == signed(w.negative(), 0));
    assert(times(q0, top) == signed(w.negative(), 0));
    if !w.negative() {
        lemma_byte(0, 0, 0);
    }
    lemma_nearest_exact(SEVENTY_FIVE as int, 1);
    assert(minus(top, times(q0, top)) == signed(false, SEVENTY_FIVE as int));
    lemma_byte(SEVENTY_FIVE as int, 75, 75);
    // at the upper end it is one
    let unit: int = 0x3ff0_0000_0000_0000;
    lemma_ratio(unit, BINADE as int, 1022, 1, 1);
    lemma_nearest_exact(unit, m);
    assert(magnitude(unit) * m == m * u) by (nonlinear_arith)
        requires
            magnitude(unit) == u,
    ;
    let q1: Double = over(w, w);
    assert(q1 == signed(false, unit));
    lemma_nearest_exact(FULL_SCALE as int, u);
    lemma_nearest_exact(SEVENTY_FIVE as int, u);
    assert(u * (255 * u) == (255 * u) * u && u * (75 * u) == (75 * u) * u) by (nonlinear_arith);
    assert(times(q1, full) == signed(false, FULL_SCALE as int));
    assert(times(q1, top) == signed(false, SEVENTY_FIVE as int));
    lemma_byte(FULL_SCALE as int, 255, 255);
    assert(minus(top, top) == signed(false, 0));
    lemma_byte(0, 0, 0);
}

/// If the entries are numbered by their places, each is the last for its antenna.
proof fn lemma_last_entry(stats: Seq<LedStat>, ant: int)
    requires
        0 <= ant < stats.len(),
        forall|i: int| 0 <= i < stats.len() ==> (#[trigger] stats[i]).ant == i,
    ensures
        last_entry(stats, ant) == Some(stats[ant]),
    decreases stats.len(),
{
    if ant < stats.len() - 1 {
        lemma_last_entry(stats.drop_last(), ant);
    }
}

/// After statistics have arrived every LED shows what the rows say of its antenna,
/// whatever it showed before.
pub proof fn lemma_every_antenna_shown(
    rows: Seq<Option<HeraAuto>>,
    stats: Seq<LedStat>,
    data: Seq<RGB8>,
    ant: u16,
)
    requires
        data.len() == NUM_LEDS,
        stats.len() == NUM_LEDS,
        forall|a: u16| a < NUM_LEDS ==> #[trigger] stats[a as int] == merged(rows, a),
        ant < NUM_LEDS,
    ensures
        painted(data, stats)[antenna_led(ant as int)] == merged(rows, ant).color(),
        forall|led: int|
            0 <= led < NUM_LEDS ==> #[trigger] painted(data, stats)[led] == merged(
                rows,
                led_antenna(led) as u16,
            ).color(),
{
    assert forall|i: int| 0 <= i < stats.len() implies (#[trigger] stats[i]).ant == i by {
        lemma_merged(rows, i as u16);
        assert(stats[(i as u16) as int] == merged(rows, i as u16));
    }
    assert forall|led: int| 0 <= led < NUM_LEDS implies #[trigger] painted(data, stats)[led] == merged(
        rows,
        led_antenna(led) as u16,
    ).color() by {
        lemma_antennas_permute(led);
        lemma_last_entry(stats, led_antenna(led));
        assert(stats[(led_antenna(led) as u16) as int] == merged(rows, led_antenna(led) as u16));
    }
    lemma_antennas_permute(ant as int);
}

/// The statistics of a table can always be shown: every entry bears the number of an
/// antenna that has an LED.
pub proof fn lemma_statistics_shown(rows: Seq<Option<HeraAuto>>, stats: Seq<LedStat>, i: int)
    requires
        stats.len() == NUM_LEDS,
        forall|a: u16| a < NUM_LEDS ==> #[trigger] stats[a as int] == merged(rows, a),
        0 <= i < NUM_LEDS,
    ensures
        stats[i].ant == i,
{
    lemma_merged(rows, i as u16);
    assert(stats[(i as u16) as int] == merged(rows, i as u16));
}

/// The second covers one LED of the picture and leaves no trace when it moves on.
pub proof fn lemma_second_moves_on(data: Seq<RGB8>, earlier: int, later: int)
    requires
        data.len() == NUM_LEDS,
        0 <= earlier < 60,
        0 <= later < 60,
    ensures
        with_second(data, later)[second_led(later)] == second_color(),
        second_led(earlier) != second_led(later) ==> with_second(data, later)[second_led(earlier)]
            == data[second_led(earlier)],
{
    lemma_second_on_string(earlier);
    lemma_second_on_string(later);
}

/// No hand covers the light of a second.
proof fn lemma_hand_off_ring(index: int, s: int)
    requires
        0 <= index < 12,
        0 <= s < 60,
    ensures
        0 <= second_led(s) < NUM_LEDS,
        !hour_hand(index).contains(second_led(s) as usize),
{
    let hand: Seq<usize> = hour_hand(index);
    lemma_second_on_string(s);
    if hand.contains(second_led(s) as usize) {
        let j: int = choose|j: int| 0 <= j < hand.len() && hand[j] == second_led(s) as usize;
        lemma_hands_inside_ring(index, j, s);
    }
}

/// The clock face always shows the hand of its hour, its minute and its second; where
/// minute and second share a light, it shows the minute.
pub proof fn lemma_face_shows(hour: int, min: int, sec: int, i: int)
    requires
        0 <= min < 60,
        0 <= sec < 60,
        0 <= i < hour_hand((hour + 11) % 12).len(),
    ensures
        face(hour, min, sec)[hour_hand((hour + 11) % 12)[i] as int] == hour_color(),
        face(hour, min, sec)[second_led(min)] == minute_color(),
        face(hour, min, sec)[second_led(sec)] == (if second_led(sec) == second_led(min) {
            minute_color()
        } else {
            second_color()
        }),
{
    let hand: Seq<usize> = hour_hand((hour + 11) % 12);
    lemma_hands_inside_ring((hour + 11) % 12, i, 0);
    assert(hand.contains(hand[i]));
    lemma_hand_off_ring((hour + 11) % 12, min);
    lemma_hand_off_ring((hour + 11) % 12, sec);
}

/// The face tells the twelve hours apart, and not morning from afternoon.
pub proof fn lemma_face_twelve_hours(h1: int, h2: int, min: int, sec: int)
    ensures
        face(h1, min, sec) == face(h2, min, sec) <==> h1 % 12 == h2 % 12,
{
    let a: int = (h1 + 11) % 12;
    let b: int = (h2 + 11) % 12;
    assert(a == b <==> h1 % 12 == h2 % 12);
    if a != b {
        reveal(hour_hand);
        assert(hour_hand(b).len() > 0);
        lemma_hand_tips(a, b, 0);
        let hand: Seq<usize> = hour_hand(a);
        let tip: usize = hand.last();
        lemma_hands_inside_ring(a, hand.len() - 1, 0);
        assert(hand.contains(tip));
        if hour_hand(b).contains(tip) {
            let j: int = choose|j: int| 0 <= j < hour_hand(b).len() && hour_hand(b)[j] == tip;
            lemma_hand_tips(a, b, j);
        }
        assert(face(h1, min, sec)[tip as int] == hour_color());
        assert(face(h2, min, sec)[tip as int] != hour_color());
    }
}

/// Hour, minute and second are those of a day, and together they give the time since
/// midnight to the second.
pub proof fn lemma_time_of_day(ns: int)
    ensures
        ({
            let (hour, min, sec) = hms(ns);
            &&& 0 <= hour < 24
            &&& 0 <= min < 60
            &&& 0 <= sec < 60
            &&& (hour * 3600 + min * 60 + sec) * SECOND <= since_midnight(ns) < (hour * 3600 + min * 60 + sec + 1)
                * SECOND
        }),
{
}

/// The same time comes again a day later.
pub proof fn lemma_next_day(ns: int)
    requires
        -(REACH * DAY) <= ns,
        ns + DAY <= REACH * DAY,
    ensures
        hms(ns + DAY) == hms(ns),
{
    assert((ns + DAY) % (DAY as int) == ns % (DAY as int));
    assert(held(ns) == ns && held(ns + DAY) == ns + DAY);
}

} // verus!
