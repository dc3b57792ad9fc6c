//! Rounding an exact quotient to the nearest double.
use vstd::prelude::*;
use vstd::arithmetic::power2::{lemma_pow2_adds, lemma_pow2_pos, lemma_pow2_strictly_increases, lemma_pow2_unfold, pow2};

use crate::double::{lemma_magnitude_of_parts, lemma_magnitude_ordered, magnitude, BINADE, INFINITY};

verus! {

/// Distance between `num / den` and the magnitude of the pattern `k`, times `den`.
pub open spec fn distance(k: int, num: int, den: int) -> int {
    if magnitude(k) * den <= num {
        num - magnitude(k) * den
    } else {
        magnitude(k) * den - num
    }
}

/// `k` is the pattern, at most that of infinity, whose magnitude is nearest to
/// `num / den`; of two equally near ones it is the even one.
pub open spec fn is_nearest(k: int, num: int, den: int) -> bool {
    &&& 0 <= k <= INFINITY
    &&& forall|j: int|
        0 <= j <= INFINITY && j != k ==> {
            ||| distance(k, num, den) < #[trigger] distance(j, num, den)
            ||| distance(k, num, den) == distance(j, num, den) && k % 2 == 0
        }
}

/// The pattern of `num / den` rounded to the nearest double, ties to even.
pub open spec fn nearest(num: int, den: int) -> int {
    choose|k: int| is_nearest(k, num, den)
}

/// No two patterns are both nearest.
pub proof fn lemma_nearest_unique(j: int, k: int, num: int, den: int)
    requires
        den > 0,
        is_nearest(j, num, den),
        is_nearest(k, num, den),
    ensures
        j == k,
{
    if j != k {
        let lo: int = if j < k { j } else { k };
        let hi: int = if j < k { k } else { j };
        assert(distance(j, num, den) == distance(k, num, den));
        let mid: int = lo + 1;
        assert(lo % 2 == 0 && hi % 2 == 0);
        lemma_magnitude_ordered(lo, mid);
        lemma_magnitude_ordered(mid, hi);
        let a: int = magnitude(lo);
        let b: int = magnitude(mid);
        let c: int = magnitude(hi);
        assert(a * den < b * den && b * den < c * den) by (nonlinear_arith)
            requires
                a < b < c,
                den > 0,
        ;
        assert(distance(mid, num, den) < distance(lo, num, den));
    }
}

/// A pattern that is nearest is the one that `nearest` names.
pub proof fn lemma_nearest_is(k: int, num: int, den: int)
    requires
        den > 0,
        is_nearest(k, num, den),
    ensures
        nearest(num, den) == k,
{
    lemma_nearest_unique(nearest(num, den), k, num, den);
}

/// Every quotient has a nearest double, and `nearest` names it.
pub proof fn lemma_nearest_exists(num: int, den: int)
    requires
        num >= 0,
        den > 0,
    ensures
        is_nearest(nearest(num, den), num, den),
{
    let top: int = INFINITY as int;
    if magnitude(top) * den <= num {
        lemma_nearest_beyond(num, den);
        lemma_nearest_is(top, num, den);
    } else {
        let low: int = lemma_floor(num, den, top);
        let k: int = if distance(low, num, den) < distance(low + 1, num, den) {
            low
        } else if distance(low + 1, num, den) < distance(low, num, den) {
            low + 1
        } else if low % 2 == 0 {
            low
        } else {
            low + 1
        };
        lemma_nearest_between(k, low, num, den);
        lemma_nearest_is(k, num, den);
    }
}

/// The last pattern below `top` that does not exceed a quotient.
proof fn lemma_floor(num: int, den: int, top: int) -> (low: int)
    requires
        num >= 0,
        den > 0,
        0 <= top,
        num < magnitude(top) * den,
    ensures
        0 <= low < top,
        magnitude(low) * den <= num < magnitude(low + 1) * den,
    decreases top,
{
    if top == 0 {
        assert(magnitude(0) * den == 0) by (nonlinear_arith)
            requires
                magnitude(0) == 0,
        ;
        0
    } else if magnitude(top - 1) * den <= num {
        top - 1
    } else {
        lemma_floor(num, den, top - 1)
    }
}

/// Rounding keeps the order.
pub proof fn lemma_nearest_monotone(a: int, b: int, den: int)
    requires
        0 <= a <= b,
        den > 0,
    ensures
        nearest(a, den) <= nearest(b, den),
{
    let j: int = nearest(a, den);
    let k: int = nearest(b, den);
    lemma_nearest_exists(a, den);
    lemma_nearest_exists(b, den);
    if j > k {
        lemma_magnitude_ordered(k, j);
        let x: int = magnitude(k);
        let y: int = magnitude(j);
        assert(x * den < y * den) by (nonlinear_arith)
            requires
                x < y,
                den > 0,
        ;
        assert(distance(j, a, den) <= distance(k, a, den));
        assert(distance(k, b, den) <= distance(j, b, den));
        lemma_nearest_unique(j, k, a, den);
    }
}

/// A double rounds to itself.
pub proof fn lemma_nearest_exact(k: int, den: int)
    requires
        0 <= k <= INFINITY,
        den > 0,
    ensures
        nearest(magnitude(k) * den, den) == k,
{
    let num: int = magnitude(k) * den;
    assert forall|j: int| 0 <= j <= INFINITY && j != k implies distance(k, num, den)
        < #[trigger] distance(j, num, den) by {
        let x: int = magnitude(j);
        let y: int = magnitude(k);
        if j < k {
            lemma_magnitude_ordered(j, k);
            assert(x * den < y * den) by (nonlinear_arith)
                requires
                    x < y,
                    den > 0,
            ;
        } else {
            lemma_magnitude_ordered(k, j);
            assert(y * den < x * den) by (nonlinear_arith)
                requires
                    y < x,
                    den > 0,
            ;
        }
    }
    lemma_nearest_is(k, num, den);
}

/// Scaling a quotient does not change what it rounds to.
pub proof fn lemma_nearest_scaled(k: int, num: int, den: int, c: int)
    requires
        c > 0,
        is_nearest(k, num * c, den * c),
    ensures
        is_nearest(k, num, den),
{
    assert forall|j: int| #[trigger] distance(j, num * c, den * c) == distance(j, num, den) * c by {
        let a: int = magnitude(j);
        assert(a * (den * c) == (a * den) * c) by (nonlinear_arith);
        let d: int = a * den;
        if d <= num {
            assert(d * c <= num * c && num * c - d * c == (num - d) * c) by (nonlinear_arith)
                requires
                    d <= num,
                    c > 0,
            ;
        } else {
            assert(d * c > num * c && d * c - num * c == (d - num) * c) by (nonlinear_arith)
                requires
                    d > num,
                    c > 0,
            ;
        }
    }
    assert forall|j: int| 0 <= j <= INFINITY && j != k implies {
        ||| distance(k, num, den) < #[trigger] distance(j, num, den)
        ||| distance(k, num, den) == distance(j, num, den) && k % 2 == 0
    } by {
        let x: int = distance(k, num, den);
        let y: int = distance(j, num, den);
        assert(distance(k, num * c, den * c) == x * c);
        assert(distance(j, num * c, den * c) == y * c);
        if x > y {
            assert(x * c > y * c) by (nonlinear_arith)
                requires
                    x > y,
                    c > 0,
            ;
        }
        if x == y {
            assert(x * c == y * c);
        }
    }
}

/// Between two neighbours the nearer one is nearest of all.
proof fn lemma_nearest_between(k: int, low: int, num: int, den: int)
    requires
        den > 0,
        0 <= low < INFINITY,
        magnitude(low) * den <= num < magnitude(low + 1) * den,
        k == low || k == low + 1,
        k == low ==> distance(low, num, den) <= distance(low + 1, num, den),
        k == low + 1 ==> distance(low + 1, num, den) <= distance(low, num, den),
        distance(low, num, den) == distance(low + 1, num, den) ==> k % 2 == 0,
    ensures
        is_nearest(k, num, den),
{
    assert forall|j: int| 0 <= j <= INFINITY && j != k implies {
        ||| distance(k, num, den) < #[trigger] distance(j, num, den)
        ||| distance(k, num, den) == distance(j, num, den) && k % 2 == 0
    } by {
        let a: int = magnitude(low);
        let b: int = magnitude(low + 1);
        let m: int = magnitude(j);
        if j < low {
            lemma_magnitude_ordered(j, low);
            assert(m * den < a * den) by (nonlinear_arith)
                requires
                    m < a,
                    den > 0,
            ;
        } else if j > low + 1 {
            lemma_magnitude_ordered(low + 1, j);
            assert(b * den < m * den) by (nonlinear_arith)
                requires
                    b < m,
                    den > 0,
            ;
        }
    }
}

/// From the magnitude of infinity on, infinity is nearest.
proof fn lemma_nearest_beyond(num: int, den: int)
    requires
        den > 0,
        magnitude(INFINITY as int) * den <= num,
    ensures
        is_nearest(INFINITY as int, num, den),
{
    assert forall|j: int| 0 <= j < INFINITY implies distance(INFINITY as int, num, den)
        < #[trigger] distance(j, num, den) by {
        lemma_magnitude_ordered(j, INFINITY as int);
        let a: int = magnitude(j);
        let b: int = magnitude(INFINITY as int);
        assert(a * den < b * den) by (nonlinear_arith)
            requires
                a < b,
                den > 0,
        ;
    }
}

/// The exponent at which a significand counts halves of the unit.
pub const HALVES: u32 = 1099;

/// `num / den`, counted in steps of 2<sup>`e`</sup>, lies between `w` and `w + 1`,
/// and is `w` itself unless `sticky`.
pub open spec fn brackets(w: int, e: nat, sticky: bool, num: int, den: int) -> bool {
    &&& w * (pow2(e) * den) <= num < (w + 1) * (pow2(e) * den)
    &&& sticky == (num != w * (pow2(e) * den))
}

/// Dropping the last bit of a significand.
proof fn lemma_halve(w: int, e: nat, sticky: bool, num: int, den: int)
    requires
        den > 0,
        w >= 0,
        brackets(w, e, sticky, num, den),
    ensures
        brackets(w / 2, e + 1, sticky || w % 2 == 1, num, den),
{
    let p: int = pow2(e) * den;
    lemma_pow2_unfold((e + 1) as nat);
    lemma_pow2_pos(e);
    assert(p > 0) by (nonlinear_arith)
        requires
            p == pow2(e) * den,
            pow2(e) > 0,
            den > 0,
    ;
    assert(pow2((e + 1) as nat) * den == 2 * p) by (nonlinear_arith)
        requires
            pow2((e + 1) as nat) == 2 * pow2(e),
            p == pow2(e) * den,
    ;
    let q: int = w / 2;
    let r: int = w % 2;
    assert(w * p == q * (2 * p) + r * p) by (nonlinear_arith)
        requires
            w == 2 * q + r,
    ;
    assert((w + 1) * p <= (q + 1) * (2 * p)) by (nonlinear_arith)
        requires
            w + 1 <= 2 * (q + 1),
            p > 0,
    ;
    if r == 1 {
        assert(r * p == p);
    } else {
        assert(r * p == 0) by (nonlinear_arith)
            requires
                r == 0,
        ;
    }
}

/// Writing an exact significand at the next lower exponent.
proof fn lemma_double(w: int, e: nat, num: int, den: int)
    requires
        e > 0,
        den > 0,
        w >= 0,
        brackets(w, e, false, num, den),
    ensures
        brackets(2 * w, (e - 1) as nat, false, num, den),
{
    let f: nat = (e - 1) as nat;
    let p: int = pow2(f) * den;
    lemma_pow2_unfold(e);
    lemma_pow2_pos(f);
    assert(p > 0) by (nonlinear_arith)
        requires
            p == pow2(f) * den,
            pow2(f) > 0,
            den > 0,
    ;
    assert(pow2(e) * den == 2 * p) by (nonlinear_arith)
        requires
            pow2(e) == 2 * pow2(f),
            p == pow2(f) * den,
    ;
    assert(w * (2 * p) == (2 * w) * p) by (nonlinear_arith);
    assert((2 * w + 1) * p == (2 * w) * p + p) by (nonlinear_arith);
}

/// Choosing between the two neighbours of a 54 bit significand, whose last bit counts
/// halves.
proof fn lemma_choose(w: int, t: nat, sticky: bool, num: int, den: int, up: bool)
    requires
        den > 0,
        0 <= w < 4 * BINADE,
        w >= 2 * BINADE || t == 0,
        t <= 2045,
        brackets(w, (t + HALVES) as nat, sticky, num, den),
        up == (w % 2 == 1 && (sticky || (w / 2) % 2 == 1)),
    ensures
        is_nearest(t * BINADE + w / 2 + if up { 1int } else { 0int }, num, den * pow2(1100)),
{
    let m: int = w / 2;
    let g: int = w % 2;
    let low: int = t * BINADE + m;
    lemma_magnitude_of_parts(m, t);
    let c: int = pow2(1099) * den;
    let full: int = den * pow2(1100);
    lemma_pow2_unfold(1100);
    lemma_pow2_pos(1099);
    lemma_pow2_pos(t);
    assert(full == 2 * c && c > 0) by (nonlinear_arith)
        requires
            pow2(1100) == 2 * pow2(1099),
            pow2(1099) > 0,
            den > 0,
            c == pow2(1099) * den,
            full == den * pow2(1100),
    ;
    let p: int = pow2(t) as int;
    let pc: int = p * c;
    lemma_pow2_adds(t, 1099);
    assert(pow2((t + HALVES) as nat) * den == pc) by (nonlinear_arith)
        requires
            pow2((t + HALVES) as nat) == p * pow2(1099),
            c == pow2(1099) * den,
            pc == p * c,
    ;
    assert(pc > 0) by (nonlinear_arith)
        requires
            pc == p * c,
            p > 0,
            c > 0,
    ;
    assert(magnitude(low) * full == (2 * m) * pc) by (nonlinear_arith)
        requires
            magnitude(low) == m * p,
            full == 2 * c,
            pc == p * c,
    ;
    assert(magnitude(low + 1) * full == (2 * m) * pc + 2 * pc) by (nonlinear_arith)
        requires
            magnitude(low + 1) == (m + 1) * p,
            full == 2 * c,
            pc == p * c,
    ;
    assert(w * pc == (2 * m) * pc + g * pc) by (nonlinear_arith)
        requires
            w == 2 * m + g,
    ;
    assert((w + 1) * pc == w * pc + pc) by (nonlinear_arith);
    if g == 0 {
        assert(g * pc == 0) by (nonlinear_arith)
            requires
                g == 0,
        ;
    } else {
        assert(g * pc == pc);
    }
    let k: int = if up { low + 1 } else { low };
    assert(low % 2 == m % 2) by {
        assert(low == 2 * (t * (BINADE / 2)) + m) by (nonlinear_arith)
            requires
                low == t * BINADE + m,
        ;
    }
    assert(t * BINADE <= 2045 * BINADE) by (nonlinear_arith)
        requires
            t <= 2045,
    ;
    lemma_nearest_between(k, low, num, full);
}

/// Past the largest exponent everything rounds to infinity.
proof fn lemma_overflow(w: int, t: nat, sticky: bool, num: int, den: int)
    requires
        den > 0,
        w >= 2 * BINADE,
        t > 2045,
        brackets(w, (t + HALVES) as nat, sticky, num, den),
    ensures
        is_nearest(INFINITY as int, num, den * pow2(1100)),
{
    let full: int = den * pow2(1100);
    lemma_pow2_pos(1100);
    assert(full > 0) by (nonlinear_arith)
        requires
            full == den * pow2(1100),
            den > 0,
            pow2(1100) > 0,
    ;
    assert(INFINITY as int == 2045 * (BINADE as int) + 2 * BINADE);
    lemma_magnitude_of_parts(2 * BINADE - 1, 2045);
    assert(magnitude(INFINITY as int) == (2 * BINADE) * pow2(2045));
    lemma_pow2_adds(2045, 1100);
    assert(magnitude(INFINITY as int) * full == (2 * BINADE) * (pow2(3145) * den)) by (nonlinear_arith)
        requires
            magnitude(INFINITY as int) == (2 * BINADE) * pow2(2045),
            full == den * pow2(1100),
            pow2(3145) == pow2(2045) * pow2(1100),
    ;
    let e: nat = (t + HALVES) as nat;
    if e > 3145 {
        lemma_pow2_strictly_increases(3145, e);
    }
    assert((2 * BINADE) * (pow2(3145) * den) <= w * (pow2(e) * den)) by (nonlinear_arith)
        requires
            w >= 2 * BINADE,
            pow2(3145) <= pow2(e),
            den > 0,
    ;
    lemma_nearest_beyond(num, full);
}

/// Zero rounds to zero.
proof fn lemma_zero(den: int)
    requires
        den > 0,
    ensures
        is_nearest(0, 0, den),
{
    lemma_magnitude_ordered(0, 1);
    assert(magnitude(0) * den == 0 && magnitude(1) * den == den) by (nonlinear_arith)
        requires
            magnitude(0) == 0,
            magnitude(1) == 1,
    ;
    lemma_nearest_between(0, 0, 0, den);
}

/// A power of two that fits in 128 bits has a small exponent.
proof fn lemma_small_exponent(n: nat)
    requires
        pow2(n) < 0x1_0000_0000_0000_0000_0000_0000_0000_0000,
    ensures
        n < 128,
{
    vstd::arithmetic::power2::lemma2_to64();
    lemma_pow2_adds(64, 64);
    assert(pow2(128) == 0x1_0000_0000_0000_0000 * 0x1_0000_0000_0000_0000);
    if n > 128 {
        lemma_pow2_strictly_increases(128, n);
    }
}

/// Rounds the quotient that the significand `w` brackets at the exponent `e`.
pub(crate) fn round(w: u128, e: u32, sticky: bool, Ghost(num): Ghost<int>, Ghost(den): Ghost<int>) -> (k: u64)
    requires
        den > 0,
        e <= 8000,
        brackets(w as int, e as nat, sticky, num, den),
        sticky ==> w >= 2 * BINADE,
    ensures
        is_nearest(k as int, num, den * pow2(1100)),
{
    let mut w: u128 = w;
    let mut e: u32 = e;
    let mut sticky: bool = sticky;
    if w == 0 {
        proof {
            lemma_pow2_pos(1100);
            assert(den * pow2(1100) > 0) by (nonlinear_arith)
                requires
                    den > 0,
                    pow2(1100) > 0,
            ;
            assert(0 * (pow2(e as nat) * den) == 0) by (nonlinear_arith);
            lemma_zero(den * pow2(1100));
        }
        return 0;
    }
    while w < 0x20_0000_0000_0000 && e > HALVES
        invariant
            den > 0,
            e <= 8000,
            brackets(w as int, e as nat, sticky, num, den),
            sticky ==> w >= 2 * BINADE,
        decreases e,
    {
        proof {
            lemma_double(w as int, e as nat, num, den);
        }
        w = w * 2;
        e = e - 1;
    }
    let ghost w0: int = w as int;
    let ghost e0: int = e as int;
    proof {
        vstd::arithmetic::power2::lemma2_to64();
        assert((e - e0) as nat == 0nat);
        assert(w * pow2(0) == w);
    }
    while w >= 0x40_0000_0000_0000 || e < HALVES
        invariant
            den > 0,
            e0 <= e,
            e0 <= 8000,
            e <= HALVES || e <= e0 + 128,
            w0 < 0x1_0000_0000_0000_0000_0000_0000_0000_0000,
            w * pow2((e - e0) as nat) <= w0,
            brackets(w as int, e as nat, sticky, num, den),
            w >= 2 * BINADE || e <= HALVES,
        decreases w + (if e < HALVES { HALVES - e } else { 0 }),
    {
        proof {
            lemma_halve(w as int, e as nat, sticky, num, den);
            let n: nat = (e - e0) as nat;
            lemma_pow2_unfold(n + 1);
            assert((w / 2) * (2 * pow2(n)) <= w * pow2(n)) by (nonlinear_arith)
                requires
                    2 * (w / 2) <= w,
            ;
            if e >= HALVES {
                assert(pow2(n) <= w * pow2(n)) by (nonlinear_arith)
                    requires
                        w >= 1,
                ;
                lemma_small_exponent(n);
            }
        }
        sticky = sticky || w % 2 == 1;
        w = w / 2;
        e = e + 1;
    }
    let t: u32 = e - HALVES;
    if t > 2045 {
        proof {
            lemma_overflow(w as int, t as nat, sticky, num, den);
        }
        return INFINITY;
    }
    let up: bool = w % 2 == 1 && (sticky || (w / 2) % 2 == 1);
    proof {
        lemma_choose(w as int, t as nat, sticky, num, den, up);
        assert(t * BINADE <= 2045 * BINADE) by (nonlinear_arith)
            requires
                t <= 2045,
        ;
    }
    let low: u64 = (t as u64) * BINADE + ((w / 2) as u64);
    if up {
        low + 1
    } else {
        low
    }
}

} // verus!
