//! Arithmetic on doubles: every operation gives the double nearest to the exact
//! result, ties to even.
use vstd::prelude::*;
use vstd::arithmetic::div_mod::{lemma_div_is_ordered, lemma_div_multiples_vanish, lemma_fundamental_div_mod_converse};
use vstd::arithmetic::power2::{lemma_pow2_adds, lemma_pow2_pos, lemma_pow2_strictly_increases, lemma_pow2_unfold, pow2};

use crate::double::{lemma_magnitude_of_parts, lemma_magnitude_ordered, magnitude, Double, BINADE, INFINITY, SIGN};
use crate::rounding::{brackets, lemma_nearest_is, lemma_nearest_scaled, nearest, round};

verus! {

/// The pattern that stands for every result that is not a number.
pub const NAN: u64 = 0x7ff8_0000_0000_0000;

/// An integer without its sign.
pub open spec fn abs(v: int) -> int {
    if v < 0 {
        -v
    } else {
        v
    }
}

/// The double with the given sign and unsigned pattern.
pub open spec fn signed(negative: bool, k: int) -> Double {
    Double { bits: (if negative { k + SIGN } else { k }) as u64 }
}

/// The other sign, the same magnitude.
pub open spec fn opposite(x: Double) -> Double {
    signed(!x.negative(), x.unsigned())
}

/// The sum `x + y`.
pub open spec fn plus(x: Double, y: Double) -> Double {
    if x.nan() || y.nan() {
        Double { bits: NAN }
    } else if !x.finite() {
        if !y.finite() && x.negative() != y.negative() {
            Double { bits: NAN }
        } else {
            x
        }
    } else if !y.finite() {
        y
    } else {
        let v = x.value() + y.value();
        if v == 0 {
            signed(x.negative() && y.negative(), 0)
        } else {
            signed(v < 0, nearest(abs(v), 1))
        }
    }
}

/// The difference `x - y`.
pub open spec fn minus(x: Double, y: Double) -> Double {
    plus(x, opposite(y))
}

/// The product `x * y`.
pub open spec fn times(x: Double, y: Double) -> Double {
    let negative = x.negative() != y.negative();
    if x.nan() || y.nan() {
        Double { bits: NAN }
    } else if !x.finite() || !y.finite() {
        if x.unsigned() == 0 || y.unsigned() == 0 {
            Double { bits: NAN }
        } else {
            signed(negative, INFINITY as int)
        }
    } else {
        signed(negative, nearest(abs(x.value()) * abs(y.value()), pow2(1074) as int))
    }
}

/// The quotient `x / y`.
pub open spec fn over(x: Double, y: Double) -> Double {
    let negative = x.negative() != y.negative();
    if x.nan() || y.nan() {
        Double { bits: NAN }
    } else if !x.finite() {
        if !y.finite() {
            Double { bits: NAN }
        } else {
            signed(negative, INFINITY as int)
        }
    } else if !y.finite() {
        signed(negative, 0)
    } else if y.unsigned() == 0 {
        if x.unsigned() == 0 {
            Double { bits: NAN }
        } else {
            signed(negative, INFINITY as int)
        }
    } else {
        signed(negative, nearest(abs(x.value()) * pow2(1074), abs(y.value())))
    }
}

/// The whole part of `x` as a byte: what is below zero or no number gives 0, what is
/// too large 255.
pub open spec fn whole_byte(x: Double) -> u8 {
    if x.nan() || x.negative() {
        0
    } else if magnitude(x.unsigned()) / (pow2(1074) as int) > 255 {
        255
    } else {
        (magnitude(x.unsigned()) / (pow2(1074) as int)) as u8
    }
}

/// The significand and the exponent of a finite pattern.
fn parts(k: u64) -> (r: (u64, u32))
    requires
        k < INFINITY,
    ensures
        magnitude(k as int) == r.0 * pow2(r.1 as nat),
        r.0 < 2 * BINADE,
        r.1 <= 2045,
        r.0 >= BINADE || r.1 == 0,
        r.0 == 0 <==> k == 0,
        r.1 == if k < BINADE { 0 } else { k / BINADE - 1 },
{
    let e: u64 = k / BINADE;
    proof {
        vstd::arithmetic::power2::lemma2_to64();
        assert(e as int == k as int / BINADE as int);
        assert((k % BINADE) as int == k as int % BINADE as int);
        assert(k * pow2(0) == k);
    }
    if e == 0 {
        (k, 0)
    } else {
        (BINADE + k % BINADE, (e - 1) as u32)
    }
}

impl Double {
    /// Puts a sign on an unsigned pattern.
    fn with_sign(negative: bool, k: u64) -> (r: Double)
        requires
            k < SIGN,
        ensures
            r == signed(negative, k as int),
    {
        if negative {
            Double { bits: k + SIGN }
        } else {
            Double { bits: k }
        }
    }

    /// The same number with the other sign.
    pub fn negate(self) -> (r: Double)
        ensures
            r == opposite(self),
    {
        let k: u64 = self.strip();
        Double::with_sign(self.bits < SIGN, k)
    }

    /// The product of two doubles.
    pub fn multiply(self, y: Double) -> (r: Double)
        ensures
            r == times(self, y),
    {
        let x: Double = self;
        let negative: bool = (x.bits >= SIGN) != (y.bits >= SIGN);
        let j: u64 = x.strip();
        let k: u64 = y.strip();
        if j > INFINITY || k > INFINITY {
            return Double { bits: NAN };
        }
        if j == INFINITY || k == INFINITY {
            if j == 0 || k == 0 {
                return Double { bits: NAN };
            }
            return Double::with_sign(negative, INFINITY);
        }
        let (mx, tx): (u64, u32) = parts(j);
        let (my, ty): (u64, u32) = parts(k);
        let ghost num: int = magnitude(j as int) * magnitude(k as int);
        let ghost scaled: int = num * pow2(26);
        proof {
            lemma_product(mx as int, tx as nat, my as int, ty as nat);
        }
        let w: u128 = (mx as u128) * (my as u128);
        let e: u32 = tx + ty + 26;
        let r: u64 = round(w, e, false, Ghost(scaled), Ghost(1int));
        proof {
            lemma_pow2_adds(1074, 26);
            lemma_pow2_pos(26);
            lemma_pow2_pos(1074);
            lemma_nearest_scaled(r as int, num, pow2(1074) as int, pow2(26) as int);
            lemma_nearest_is(r as int, num, pow2(1074) as int);
            lemma_sign_free(x);
            lemma_sign_free(y);
        }
        Double::with_sign(negative, r)
    }

    /// The quotient of two doubles.
    pub fn divide(self, y: Double) -> (r: Double)
        ensures
            r == over(self, y),
    {
        let x: Double = self;
        let negative: bool = (x.bits >= SIGN) != (y.bits >= SIGN);
        let j: u64 = x.strip();
        let k: u64 = y.strip();
        if j > INFINITY || k > INFINITY {
            return Double { bits: NAN };
        }
        if j == INFINITY {
            if k == INFINITY {
                return Double { bits: NAN };
            }
            return Double::with_sign(negative, INFINITY);
        }
        if k == INFINITY {
            return Double::with_sign(negative, 0);
        }
        if k == 0 {
            if j == 0 {
                return Double { bits: NAN };
            }
            return Double::with_sign(negative, INFINITY);
        }
        let (my, ty): (u64, u32) = parts(k);
        let ghost num: int = magnitude(j as int) * pow2(1074);
        let ghost den: int = magnitude(k as int);
        let ghost scaled: int = num * pow2(1100);
        proof {
            lemma_sign_free(x);
            lemma_sign_free(y);
            lemma_pow2_pos(1100);
        }
        let r: u64 = if j == 0 {
            proof {
                assert(scaled == 0) by (nonlinear_arith)
                    requires
                        scaled == num * pow2(1100),
                        num == 0 * pow2(1074),
                ;
                vstd::arithmetic::power2::lemma2_to64();
                assert(0 * (pow2(0) * den) == 0) by (nonlinear_arith);
                assert(1 * (pow2(0) * den) == den) by (nonlinear_arith)
                    requires
                        pow2(0) == 1,
                ;
            }
            round(0, 0, false, Ghost(scaled), Ghost(den))
        } else {
            let (mx, ux): (u64, u32) = normalized(j);
            let wide: u128 = (mx as u128) * 0x1_0000_0000_0000_0000;
            let w: u128 = wide / (my as u128);
            let rest: u128 = wide % (my as u128);
            proof {
                lemma_quotient(
                    magnitude(j as int),
                    mx as int,
                    ux as nat,
                    my as int,
                    ty as nat,
                    w as int,
                    rest as int,
                );
            }
            round(w, ux + 2058 - ty, rest != 0, Ghost(scaled), Ghost(den))
        };
        proof {
            lemma_nearest_scaled(r as int, num, den, pow2(1100) as int);
            lemma_nearest_is(r as int, num, den);
        }
        Double::with_sign(negative, r)
    }

    /// The sum of two doubles.
    pub fn add_to(self, y: Double) -> (r: Double)
        ensures
            r == plus(self, y),
    {
        let x: Double = self;
        let j: u64 = x.strip();
        let k: u64 = y.strip();
        if j > INFINITY || k > INFINITY {
            return Double { bits: NAN };
        }
        if j == INFINITY {
            if k == INFINITY && (x.bits >= SIGN) != (y.bits >= SIGN) {
                return Double { bits: NAN };
            }
            return x;
        }
        if k == INFINITY {
            return y;
        }
        if j < k {
            sum(y, x)
        } else {
            sum(x, y)
        }
    }

    /// The number as a byte, its fraction dropped, held between 0 and 255.
    pub fn to_byte(self) -> (r: u8)
        ensures
            r == whole_byte(self),
    {
        let k: u64 = self.strip();
        if k > INFINITY || self.bits >= SIGN {
            return 0;
        }
        proof {
            lemma_pow2_pos(1074);
        }
        if k >= 0x4070_0000_0000_0000 {
            proof {
                lemma_at_least_256(k as int);
            }
            return 255;
        }
        let (m, t): (u64, u32) = parts(k);
        proof {
            assert(t <= 1029);
        }
        let (q, _lost): (u64, bool) = split(m, 1074 - t);
        proof {
            lemma_whole_part(k as int, m as int, t as nat, q as int);
        }
        q as u8
    }

    /// The difference of two doubles.
    pub fn subtract(self, y: Double) -> (r: Double)
        ensures
            r == minus(self, y),
    {
        self.add_to(y.negate())
    }
}

/// The significand of a nonzero finite pattern with its leading bit in place, and the
/// exponent raised by 52.
fn normalized(k: u64) -> (r: (u64, u32))
    requires
        0 < k < INFINITY,
    ensures
        magnitude(k as int) * BINADE == r.0 * pow2(r.1 as nat),
        BINADE <= r.0 < 2 * BINADE,
        r.1 <= 2097,
{
    let (m0, t): (u64, u32) = parts(k);
    let mut m: u64 = m0;
    let mut u: u32 = t + 52;
    let ghost whole: int = magnitude(k as int) * BINADE;
    proof {
        vstd::arithmetic::power2::lemma2_to64_rest();
        lemma_pow2_adds(t as nat, 52);
        assert(whole == m * pow2(u as nat)) by (nonlinear_arith)
            requires
                whole == (m * pow2(t as nat)) * pow2(52),
                pow2(u as nat) == pow2(t as nat) * pow2(52),
        ;
        lemma_magnitude_ordered(0, k as int);
    }
    while m < BINADE
        invariant
            m < 2 * BINADE,
            u <= 2097,
            whole == m * pow2(u as nat),
            whole >= BINADE,
        decreases u,
    {
        proof {
            vstd::arithmetic::power2::lemma2_to64();
            assert(m * pow2(0) == m);
            assert(u != 0);
            lemma_pow2_unfold(u as nat);
            assert(m * (2 * pow2((u - 1) as nat)) == (2 * m) * pow2((u - 1) as nat)) by (nonlinear_arith);
        }
        m = m * 2;
        u = u - 1;
    }
    (m, u)
}

/// The quotient of two significands brackets the quotient of the numbers.
proof fn lemma_quotient(a: int, mx: int, ux: nat, my: int, ty: nat, w: int, rest: int)
    requires
        a * BINADE == mx * pow2(ux),
        BINADE <= mx < 2 * BINADE,
        0 < my < 2 * BINADE,
        ty <= 2045,
        w == (mx * 0x1_0000_0000_0000_0000) / my,
        rest == (mx * 0x1_0000_0000_0000_0000) % my,
    ensures
        brackets(w, (ux + 2058 - ty) as nat, rest != 0, (a * pow2(1074)) * pow2(1100), my * pow2(ty)),
        w >= 2 * BINADE,
{
    let wide: int = mx * 0x1_0000_0000_0000_0000;
    assert(wide == my * w + rest && 0 <= rest < my) by (nonlinear_arith)
        requires
            my > 0,
            w == wide / my,
            rest == wide % my,
    ;
    assert(w >= 2 * BINADE) by (nonlinear_arith)
        requires
            wide == my * w + rest,
            rest < my,
            0 < my < 0x20_0000_0000_0000,
            wide >= 0x10_0000_0000_0000 * 0x1_0000_0000_0000_0000,
    ;
    let e: nat = (ux + 2058 - ty) as nat;
    let b: int = pow2(ux + 2058) as int;
    let q: int = pow2(ty) as int;
    let step: int = pow2(e) * (my * q);
    lemma_pow2_adds(e, ty);
    lemma_pow2_pos(ux + 2058);
    assert(step == my * b) by (nonlinear_arith)
        requires
            step == pow2(e) * (my * q),
            b == pow2(e) * q,
    ;
    // the dividend, in the same steps
    let num: int = (a * pow2(1074)) * pow2(1100);
    vstd::arithmetic::power2::lemma2_to64();
    vstd::arithmetic::power2::lemma2_to64_rest();
    lemma_pow2_adds(1074, 1100);
    lemma_pow2_adds(52, 2122);
    lemma_pow2_adds(64, 2058);
    lemma_pow2_adds(ux, 2058);
    let c: int = pow2(2058) as int;
    assert(num == wide * b) by (nonlinear_arith)
        requires
            num == (a * pow2(1074)) * pow2(1100),
            pow2(2174) == pow2(1074) * pow2(1100),
            pow2(2174) == BINADE * pow2(2122),
            pow2(2122) == 0x1_0000_0000_0000_0000 * c,
            a * BINADE == mx * pow2(ux),
            b == pow2(ux) * c,
            wide == mx * 0x1_0000_0000_0000_0000,
    {
        assert(num == a * (pow2(1074) * pow2(1100)));
        assert(num == (a * BINADE) * pow2(2122));
        assert(num == (mx * pow2(ux)) * (0x1_0000_0000_0000_0000 * c));
    }
    assert(num == w * step + rest * b) by (nonlinear_arith)
        requires
            num == wide * b,
            wide == my * w + rest,
            step == my * b,
    ;
    assert((w + 1) * step == w * step + my * b) by (nonlinear_arith)
        requires
            step == my * b,
    ;
    assert(0 <= rest * b < my * b && (rest == 0 <==> rest * b == 0)) by (nonlinear_arith)
        requires
            0 <= rest < my,
            b > 0,
    ;
}

/// A significand moved up by `d` bits.
fn aligned(m: u64, d: u32) -> (r: u128)
    requires
        m < 2 * BINADE,
        d <= 74,
    ensures
        r == m * pow2(d as nat),
        r < 0x8000_0000_0000_0000_0000_0000_0000_0000,
{
    let p: u128 = two_to(d);
    proof {
        vstd::arithmetic::power2::lemma2_to64();
        lemma_pow2_adds(64, 10);
        if d < 74 {
            lemma_pow2_strictly_increases(d as nat, 74);
        }
        assert(m * p < 0x8000_0000_0000_0000_0000_0000_0000_0000) by (nonlinear_arith)
            requires
                m < 0x20_0000_0000_0000,
                0 <= p <= 0x1_0000_0000_0000_0000 * 1024,
        ;
    }
    (m as u128) * p
}

/// A significand moved down by `h` bits, and whether a bit was lost.
fn split(m: u64, h: u32) -> (r: (u64, bool))
    requires
        m < 2 * BINADE,
    ensures
        r.0 < 2 * BINADE,
        r.0 * pow2(h as nat) <= m < (r.0 + 1) * pow2(h as nat),
        r.1 == (m != r.0 * pow2(h as nat)),
{
    if h >= 64 {
        proof {
            vstd::arithmetic::power2::lemma2_to64();
            if h > 64 {
                lemma_pow2_strictly_increases(64, h as nat);
            }
            assert(0 * pow2(h as nat) == 0);
        }
        (0, m != 0)
    } else {
        let p: u128 = two_to(h);
        let wide: u128 = m as u128;
        proof {
            lemma_pow2_pos(h as nat);
        }
        let q: u128 = wide / p;
        let rest: u128 = wide % p;
        proof {
            assert(wide == q * p + rest && rest < p && q <= wide) by (nonlinear_arith)
                requires
                    p > 0,
                    q == wide / p,
                    rest == wide % p,
            ;
            assert((q + 1) * p == q * p + p) by (nonlinear_arith);
        }
        (q as u64, rest != 0)
    }
}

/// Adding or subtracting aligned significands.
proof fn lemma_near(a: int, b: int, m1: int, t1: nat, m2: int, t2: nat, wide: int, same: bool)
    requires
        t2 <= t1,
        a == m1 * pow2(t1),
        b == m2 * pow2(t2),
        wide == m1 * pow2((t1 - t2) as nat),
        0 <= b <= a,
    ensures
        wide >= m2,
        brackets(
            if same { wide + m2 } else { wide - m2 },
            t2 + 1100,
            false,
            (if same { a + b } else { a - b }) * pow2(1100),
            1,
        ),
{
    let p: int = pow2(t2) as int;
    let c: int = pow2(1100) as int;
    lemma_pow2_pos(t2);
    lemma_pow2_pos(t2 + 1100);
    lemma_pow2_adds((t1 - t2) as nat, t2);
    lemma_pow2_adds(t2, 1100);
    assert(a == wide * p) by (nonlinear_arith)
        requires
            a == m1 * (pow2((t1 - t2) as nat) * p),
            wide == m1 * pow2((t1 - t2) as nat),
    ;
    if wide < m2 {
        assert(wide * p < m2 * p) by (nonlinear_arith)
            requires
                wide < m2,
                p > 0,
        ;
    }
    let w: int = if same { wide + m2 } else { wide - m2 };
    let num: int = if same { a + b } else { a - b };
    assert(num == w * p) by (nonlinear_arith)
        requires
            a == wide * p,
            b == m2 * p,
            same ==> w == wide + m2 && num == a + b,
            !same ==> w == wide - m2 && num == a - b,
    ;
    let step: int = pow2(t2 + 1100) * 1int;
    assert(num * c == w * step) by (nonlinear_arith)
        requires
            num == w * p,
            step == p * c,
    ;
    assert((w + 1) * step == w * step + step) by (nonlinear_arith);
}

/// Adding or subtracting a much smaller number.
proof fn lemma_far(
    a: int,
    b: int,
    m1: int,
    t1: nat,
    m2: int,
    t2: nat,
    wide: int,
    q: int,
    lost: bool,
    same: bool,
)
    requires
        t2 + 74 < t1,
        a == m1 * pow2(t1),
        b == m2 * pow2(t2),
        BINADE <= m1,
        wide == m1 * pow2(74),
        0 <= q < 2 * BINADE,
        q * pow2((t1 - 74 - t2) as nat) <= m2 < (q + 1) * pow2((t1 - 74 - t2) as nat),
        lost == (m2 != q * pow2((t1 - 74 - t2) as nat)),
    ensures
        wide >= 0x4000_0000_0000_0000_0000_0000_0000_0000,
        brackets(
            if same { wide + q } else if lost { wide - q - 1 } else { wide - q },
            (t1 - 74 + 1100) as nat,
            lost,
            (if same { a + b } else { a - b }) * pow2(1100),
            1,
        ),
{
    let h: nat = (t1 - 74 - t2) as nat;
    let u: nat = (t1 - 74) as nat;
    let p: int = pow2(u) as int;
    let c: int = pow2(1100) as int;
    let s: int = pow2(t2) as int;
    let ph: int = pow2(h) as int;
    vstd::arithmetic::power2::lemma2_to64();
    lemma_pow2_adds(64, 10);
    lemma_pow2_pos(u);
    lemma_pow2_pos(t2);
    lemma_pow2_pos(1100);
    lemma_pow2_adds(h, t2);
    lemma_pow2_adds(74, u);
    lemma_pow2_adds(u, 1100);
    assert(a == wide * p) by (nonlinear_arith)
        requires
            a == m1 * (pow2(74) * p),
            wide == m1 * pow2(74),
    ;
    assert(pow2(74) == 0x400_0000_0000_0000_0000);
    assert(wide >= 0x4000_0000_0000_0000_0000_0000_0000_0000) by (nonlinear_arith)
        requires
            wide == m1 * 0x400_0000_0000_0000_0000,
            m1 >= 0x10_0000_0000_0000,
    ;
    // b lies between q and q + 1 steps
    assert(q * p <= b < (q + 1) * p && lost == (b != q * p)) by (nonlinear_arith)
        requires
            b == m2 * s,
            p == ph * s,
            s > 0,
            q * ph <= m2 < (q + 1) * ph,
            lost == (m2 != q * ph),
    {
        assert(q * p == (q * ph) * s);
        assert((q + 1) * p == ((q + 1) * ph) * s);
        assert((q * ph) * s <= m2 * s);
        assert(m2 * s < ((q + 1) * ph) * s);
        if m2 != q * ph {
            assert((q * ph) * s < m2 * s);
        }
    }
    let w: int = if same { wide + q } else if lost { wide - q - 1 } else { wide - q };
    let num: int = if same { a + b } else { a - b };
    assert((q + 1) * p == q * p + p) by (nonlinear_arith);
    assert((w + 1) * p == w * p + p) by (nonlinear_arith);
    if same {
        assert(w * p == wide * p + q * p) by (nonlinear_arith)
            requires
                w == wide + q,
        ;
    } else if lost {
        assert(w * p == wide * p - q * p - p) by (nonlinear_arith)
            requires
                w == wide - q - 1,
        ;
    } else {
        assert(w * p == wide * p - q * p) by (nonlinear_arith)
            requires
                w == wide - q,
        ;
    }
    assert(w * p <= num < (w + 1) * p && lost == (num != w * p));
    let step: int = pow2((t1 - 74 + 1100) as nat) * 1int;
    assert(w * step == (w * p) * c && (w + 1) * step == ((w + 1) * p) * c) by (nonlinear_arith)
        requires
            step == p * c,
    ;
    assert((w * p) * c <= num * c && num * c < ((w + 1) * p) * c && (num != w * p ==> (w * p) * c < num * c))
        by (nonlinear_arith)
        requires
            w * p <= num < (w + 1) * p,
            c > 0,
    ;
}

/// The sum of two finite doubles, the larger magnitude first.
fn sum(x: Double, y: Double) -> (r: Double)
    requires
        y.unsigned() <= x.unsigned() < INFINITY,
    ensures
        r == plus(x, y),
        r == plus(y, x),
{
    let j: u64 = x.strip();
    let k: u64 = y.strip();
    let (m1, t1): (u64, u32) = parts(j);
    let (m2, t2): (u64, u32) = parts(k);
    let same: bool = (x.bits >= SIGN) == (y.bits >= SIGN);
    let ghost a: int = magnitude(j as int);
    let ghost b: int = magnitude(k as int);
    let ghost num: int = if same { a + b } else { a - b };
    let ghost scaled: int = num * pow2(1100);
    proof {
        lemma_sign_free(x);
        lemma_sign_free(y);
        if k < j {
            lemma_magnitude_ordered(k as int, j as int);
        }
        lemma_pow2_pos(1100);
    }
    if j == k && !same {
        return Double { bits: 0 };
    }
    if j == 0 {
        // both are zeros of the same sign
        return x;
    }
    let d: u32 = t1 - t2;
    let r: u64 = if d <= 74 {
        let wide: u128 = aligned(m1, d);
        proof {
            lemma_near(a, b, m1 as int, t1 as nat, m2 as int, t2 as nat, wide as int, same);
        }
        let w: u128 = if same {
            wide + (m2 as u128)
        } else {
            wide - (m2 as u128)
        };
        round(w, t2 + 1100, false, Ghost(scaled), Ghost(1int))
    } else {
        let wide: u128 = aligned(m1, 74);
        let h: u32 = d - 74;
        let (q, lost): (u64, bool) = split(m2, h);
        proof {
            lemma_far(a, b, m1 as int, t1 as nat, m2 as int, t2 as nat, wide as int, q as int, lost, same);
        }
        let w: u128 = if same {
            wide + (q as u128)
        } else if lost {
            wide - (q as u128) - 1
        } else {
            wide - (q as u128)
        };
        round(w, t1 - 74 + 1100, lost, Ghost(scaled), Ghost(1int))
    };
    proof {
        lemma_nearest_scaled(r as int, num, 1, pow2(1100) as int);
        lemma_nearest_is(r as int, num, 1);
    }
    Double::with_sign(x.bits >= SIGN, r)
}

/// A power of two.
fn two_to(n: u32) -> (r: u128)
    requires
        n < 128,
    ensures
        r == pow2(n as nat),
{
    let mut r: u128 = 1;
    let mut i: u32 = 0;
    proof {
        vstd::arithmetic::power2::lemma2_to64();
    }
    while i < n
        invariant
            i <= n < 128,
            r == pow2(i as nat),
        decreases n - i,
    {
        proof {
            lemma_pow2_unfold((i + 1) as nat);
            lemma_pow2_below_128((i + 1) as nat);
        }
        r = r * 2;
        i = i + 1;
    }
    r
}

/// Powers of two with an exponent below 128 fit in 128 bits.
proof fn lemma_pow2_below_128(n: nat)
    requires
        n < 128,
    ensures
        pow2(n) <= 0x8000_0000_0000_0000_0000_0000_0000_0000,
{
    vstd::arithmetic::power2::lemma2_to64();
    vstd::arithmetic::power2::lemma2_to64_rest();
    lemma_pow2_adds(64, 63);
    if n < 127 {
        lemma_pow2_strictly_increases(n, 127);
    }
}

/// From 256 on the whole part does not fit in a byte.
proof fn lemma_at_least_256(k: int)
    requires
        k >= 0x4070_0000_0000_0000,
    ensures
        magnitude(k) / (pow2(1074) as int) >= 256,
{
    let one: int = pow2(1074) as int;
    let k0: int = 0x4070_0000_0000_0000;
    vstd::arithmetic::power2::lemma2_to64();
    vstd::arithmetic::power2::lemma2_to64_rest();
    lemma_pow2_pos(1074);
    lemma_magnitude_of_parts(BINADE as int, 1030);
    lemma_pow2_adds(44, 1030);
    assert(magnitude(k0) == 256 * one) by (nonlinear_arith)
        requires
            magnitude(k0) == BINADE * pow2(1030),
            one == 0x1000_0000_0000 * pow2(1030),
    ;
    if k > k0 {
        lemma_magnitude_ordered(k0, k);
    }
    lemma_div_is_ordered(256 * one, magnitude(k), one);
    lemma_div_multiples_vanish(256, one);
}

/// Below 256, shifting the significand down leaves the whole part.
proof fn lemma_whole_part(k: int, m: int, t: nat, q: int)
    requires
        k < 0x4070_0000_0000_0000,
        magnitude(k) == m * pow2(t),
        0 <= k,
        t <= 1029,
        q * pow2((1074 - t) as nat) <= m < (q + 1) * pow2((1074 - t) as nat),
    ensures
        magnitude(k) / (pow2(1074) as int) == q,
        q <= 255,
{
    let one: int = pow2(1074) as int;
    let p: int = pow2(t) as int;
    let d: int = pow2((1074 - t) as nat) as int;
    let k0: int = 0x4070_0000_0000_0000;
    vstd::arithmetic::power2::lemma2_to64();
    vstd::arithmetic::power2::lemma2_to64_rest();
    lemma_pow2_pos(t);
    lemma_pow2_pos(1074);
    lemma_pow2_adds((1074 - t) as nat, t);
    let v: int = magnitude(k);
    assert(q * one <= v < (q + 1) * one) by (nonlinear_arith)
        requires
            v == m * p,
            one == d * p,
            q * d <= m < (q + 1) * d,
            p > 0,
    {
        assert(q * one == (q * d) * p);
        assert((q + 1) * one == ((q + 1) * d) * p);
    }
    let r: int = v - q * one;
    assert((q + 1) * one == q * one + one) by (nonlinear_arith);
    lemma_fundamental_div_mod_converse(v, one, q, r);
    lemma_magnitude_of_parts(BINADE as int, 1030);
    lemma_pow2_adds(44, 1030);
    assert(magnitude(k0) == 256 * one) by (nonlinear_arith)
        requires
            magnitude(k0) == BINADE * pow2(1030),
            one == 0x1000_0000_0000 * pow2(1030),
    ;
    lemma_magnitude_ordered(k, k0);
    if q >= 256 {
        assert(256 * one <= q * one) by (nonlinear_arith)
            requires
                q >= 256,
                one > 0,
        ;
    }
}

/// A magnitude is not negative.
proof fn lemma_sign_free(x: Double)
    ensures
        abs(x.value()) == magnitude(x.unsigned()),
        magnitude(x.unsigned()) >= 0,
        magnitude(x.unsigned()) == 0 <==> x.unsigned() == 0,
{
    if x.unsigned() > 0 {
        lemma_magnitude_ordered(0, x.unsigned());
    }
}

/// The product of two significands brackets the product of the numbers.
proof fn lemma_product(mx: int, tx: nat, my: int, ty: nat)
    requires
        0 <= mx < 2 * BINADE,
        0 <= my < 2 * BINADE,
    ensures
        brackets(mx * my, tx + ty + 26, false, (mx * pow2(tx)) * (my * pow2(ty)) * pow2(26), 1),
        0 <= mx * my < 0x1000_0000_0000_0000_0000_0000_0000,
{
    let p: int = pow2(tx) as int;
    let q: int = pow2(ty) as int;
    let s: int = pow2(26) as int;
    let whole: int = pow2(tx + ty + 26) as int;
    lemma_pow2_adds(tx, ty);
    lemma_pow2_adds(tx + ty, 26);
    lemma_pow2_pos(tx + ty + 26);
    let w: int = mx * my;
    assert((mx * p) * (my * q) * s == w * (whole * 1)) by (nonlinear_arith)
        requires
            whole == p * q * s,
            w == mx * my,
    ;
    assert((w + 1) * (whole * 1) == w * (whole * 1) + whole) by (nonlinear_arith);
    assert(0 <= w < 0x1000_0000_0000_0000_0000_0000_0000) by (nonlinear_arith)
        requires
            w == mx * my,
            0 <= mx < 0x20_0000_0000_0000,
            0 <= my < 0x20_0000_0000_0000,
    ;
}

} // verus!
