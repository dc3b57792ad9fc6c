//! IEEE 754 double precision numbers, held as their bit patterns.
//!
//! A finite double is a whole multiple of the smallest positive one,
//! 2<sup>-1074</sup>. Everything below counts in that unit, so that the value of a
//! double is an `int` and no fraction appears.
use vstd::prelude::*;
use vstd::arithmetic::power2::{lemma_pow2_pos, lemma_pow2_unfold, pow2};

verus! {

/// Number of patterns that share one exponent: 2<sup>52</sup>.
pub const BINADE: u64 = 0x10_0000_0000_0000;

/// The sign bit: 2<sup>63</sup>.
pub const SIGN: u64 = 0x8000_0000_0000_0000;

/// The pattern of positive infinity. Smaller patterns are the finite doubles from
/// zero up, larger ones below the sign bit are not numbers.
pub const INFINITY: u64 = 0x7ff0_0000_0000_0000;

/// A double, by its bit pattern.
#[derive(Debug, Clone, Copy, PartialEq, Eq, Structural)]
pub struct Double {
    pub bits: u64,
}

/// The magnitude, in units of 2<sup>-1074</sup>, of the double with the bit pattern
/// `k` and the sign bit clear.
///
/// The pattern of infinity gets the magnitude that the next double would have,
/// 2<sup>1024</sup>, which is what rounding compares against at the top of the range.
pub open spec fn magnitude(k: int) -> int {
    if k < BINADE {
        k
    } else {
        (BINADE + k % (BINADE as int)) * pow2((k / (BINADE as int) - 1) as nat)
    }
}

impl Double {
    /// The pattern without the sign bit.
    pub open spec fn unsigned(self) -> int {
        if self.bits >= SIGN {
            self.bits - SIGN
        } else {
            self.bits as int
        }
    }

    /// The sign bit is set.
    pub open spec fn negative(self) -> bool {
        self.bits >= SIGN
    }

    /// Neither infinite nor a NaN.
    pub open spec fn finite(self) -> bool {
        self.unsigned() < INFINITY
    }

    /// Not a number.
    pub open spec fn nan(self) -> bool {
        self.unsigned() > INFINITY
    }

    /// The value in units of 2<sup>-1074</sup>; an infinity counts as
    /// 2<sup>1024</sup> with its sign, beyond every finite double.
    pub open spec fn value(self) -> int {
        if self.negative() {
            -magnitude(self.unsigned())
        } else {
            magnitude(self.unsigned())
        }
    }
}

/// `x <= y`, which a NaN on either side makes false.
pub open spec fn at_most(x: Double, y: Double) -> bool {
    !x.nan() && !y.nan() && x.value() <= y.value()
}

impl Double {
    /// The pattern without the sign bit.
    pub(crate) fn strip(self) -> (k: u64)
        ensures
            k == self.unsigned(),
    {
        if self.bits >= SIGN {
            self.bits - SIGN
        } else {
            self.bits
        }
    }

    /// True if the number is neither infinite nor NaN.
    pub fn is_finite(self) -> (r: bool)
        ensures
            r == self.finite(),
    {
        self.strip() < INFINITY
    }

    /// Compares two doubles with `<=`.
    pub fn le(self, y: Double) -> (r: bool)
        ensures
            r == at_most(self, y),
    {
        let j: u64 = self.strip();
        let k: u64 = y.strip();
        if j > INFINITY || k > INFINITY {
            return false;
        }
        proof {
            if j > 0 {
                lemma_magnitude_ordered(0, j as int);
            }
            if k > 0 {
                lemma_magnitude_ordered(0, k as int);
            }
            if j < k {
                lemma_magnitude_ordered(j as int, k as int);
            }
            if k < j {
                lemma_magnitude_ordered(k as int, j as int);
            }
        }
        if self.bits >= SIGN {
            if y.bits >= SIGN {
                k <= j
            } else {
                true
            }
        } else if y.bits >= SIGN {
            j == 0 && k == 0
        } else {
            j <= k
        }
    }
}

/// Consecutive patterns have increasing magnitudes.
proof fn lemma_magnitude_step(k: int)
    requires
        0 <= k,
    ensures
        magnitude(k) < magnitude(k + 1),
{
    let b: int = BINADE as int;
    let e: int = k / b;
    let f: int = k % b;
    assert(k == b * e + f);
    if k >= b {
        let p: int = pow2((e - 1) as nat) as int;
        lemma_pow2_pos((e - 1) as nat);
        if f + 1 < b {
            assert((k + 1) / b == e && (k + 1) % b == f + 1);
            assert((b + f) * p < (b + f + 1) * p) by (nonlinear_arith)
                requires
                    p > 0,
            ;
        } else {
            assert((k + 1) / b == e + 1 && (k + 1) % b == 0);
            lemma_pow2_unfold(e as nat);
            assert(pow2(e as nat) == 2 * p);
            assert((b + f) * p < b * (2 * p)) by (nonlinear_arith)
                requires
                    p > 0,
                    f < b,
            ;
        }
    } else if k + 1 == b {
        lemma_pow2_pos(0);
        vstd::arithmetic::power2::lemma2_to64();
        assert((k + 1) / b == 1 && (k + 1) % b == 0);
    }
}

/// Magnitudes are ordered as the patterns are.
pub proof fn lemma_magnitude_ordered(j: int, k: int)
    requires
        0 <= j < k,
    ensures
        magnitude(j) < magnitude(k),
    decreases k - j,
{
    lemma_magnitude_step(k - 1);
    if j + 1 < k {
        lemma_magnitude_ordered(j, k - 1);
    }
}

/// The magnitude of the pattern that holds the significand `m` at the exponent `t`.
pub proof fn lemma_magnitude_of_parts(m: int, t: nat)
    requires
        0 <= m < 2 * BINADE,
        m >= BINADE || t == 0,
    ensures
        magnitude(t * BINADE + m) == m * pow2(t),
        magnitude(t * BINADE + m + 1) == (m + 1) * pow2(t),
{
    let b: int = BINADE as int;
    let k: int = t * b + m;
    vstd::arithmetic::power2::lemma2_to64();
    if m < b {
        if m + 1 == b {
            assert((k + 1) / b == 1 && (k + 1) % b == 0);
        }
    } else {
        let f: int = m - b;
        assert(k == b * (t + 1) + f);
        assert(k / b == t + 1 && k % b == f);
        if f + 1 < b {
            assert((k + 1) / b == t + 1 && (k + 1) % b == f + 1);
        } else {
            assert((k + 1) / b == t + 2 && (k + 1) % b == 0);
            lemma_pow2_unfold((t + 1) as nat);
            assert(b * (2 * pow2(t)) == (m + 1) * pow2(t)) by (nonlinear_arith)
                requires
                    m + 1 == 2 * b,
            ;
        }
    }
}

} // verus!
