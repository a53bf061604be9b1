use vstd::prelude::*;
use vstd::arithmetic::div_mod::lemma_basic_div;
use vstd::arithmetic::power2::{
    lemma2_to64, lemma2_to64_rest, lemma_pow2_adds, lemma_pow2_pos,
    lemma_pow2_strictly_increases, lemma_pow2_unfold, pow2,
};
use crate::point::{Point, NDC, UNIT};

verus! {

/// Whether the sign bit of a single-precision float is set.
pub open spec fn f32_negative(bits: u32) -> bool {
    bits >= 0x8000_0000
}

/// The eight exponent bits of a single-precision float.
pub open spec fn f32_exponent(bits: u32) -> nat {
    ((bits / 0x80_0000) % 256) as nat
}

/// The 23 fraction bits of a single-precision float.
pub open spec fn f32_fraction(bits: u32) -> nat {
    (bits % 0x80_0000) as nat
}

/// Whether the float is a number: neither an infinity nor a NaN.
pub open spec fn f32_finite(bits: u32) -> bool {
    f32_exponent(bits) != 255
}

/// The significand `m` of a finite float, whose magnitude is
/// `m * 2^(p - 150)` with `p` its power: the fraction, with the implicit
/// leading bit unless the float is subnormal.
pub open spec fn f32_significand(bits: u32) -> nat {
    if f32_exponent(bits) == 0 {
        f32_fraction(bits)
    } else {
        f32_fraction(bits) + 0x80_0000
    }
}

/// The power `p` of a finite float, whose magnitude is `m * 2^(p - 150)` with
/// `m` its significand: the exponent bits, or one for a subnormal float.
pub open spec fn f32_power(bits: u32) -> nat {
    if f32_exponent(bits) == 0 {
        1
    } else {
        f32_exponent(bits)
    }
}

/// The finite float times `UNIT`, rounded down. `UNIT` is two to the power
/// 24, so the product has the magnitude `m * 2^(p - 126)`.
pub open spec fn f32_fixed(bits: u32) -> int {
    let m = f32_significand(bits) as int;
    let p = f32_power(bits);
    if p >= 126 {
        let v = m * pow2((p - 126) as nat);
        if f32_negative(bits) {
            -v
        } else {
            v
        }
    } else {
        let d = pow2((126 - p) as nat) as int;
        if f32_negative(bits) {
            -((m + d - 1) / d)
        } else {
            m / d
        }
    }
}

/// Whether the float is a number between zero and one, both included:
/// it is finite, it is not below zero, and `m * 2^(p - 150)` is at most one.
pub open spec fn f32_in_unit_interval(bits: u32) -> bool {
    &&& f32_finite(bits)
    &&& (!f32_negative(bits) || f32_significand(bits) == 0)
    &&& f32_significand(bits) * pow2(f32_power(bits)) <= pow2(150)
}

/// Two to the power `k`.
fn power_of_two(k: u32) -> (p: u64)
    requires
        k <= 39,
    ensures
        p == pow2(k as nat),
        1 <= p <= 0x80_0000_0000,
{
    let mut p: u64 = 1;
    let mut i: u32 = 0;
    proof {
        lemma2_to64();
        lemma2_to64_rest();
    }
    while i < k
        invariant
            i <= k <= 39,
            p == pow2(i as nat),
            pow2(39) == 0x80_0000_0000,
            1 <= p <= 0x80_0000_0000,
        decreases k - i,
    {
        proof {
            lemma_pow2_unfold((i + 1) as nat);
            if i + 1 < 39 {
                lemma_pow2_strictly_increases((i + 1) as nat, 39);
            }
        }
        p = p * 2;
        i += 1;
    }
    p
}

/// The float with the given bits, times `UNIT` and rounded down, where the
/// float is a number of magnitude below two to the power 39.
pub fn fixed_from_f32_bits(bits: u32) -> (r: Option<i64>)
    ensures
        r is Some <==> f32_finite(bits) && f32_power(bits) <= 165,
        r matches Some(v) ==> v == f32_fixed(bits),
{
    let exponent: u32 = (bits / 0x80_0000) % 256;
    let fraction: u32 = bits % 0x80_0000;
    let negative: bool = bits >= 0x8000_0000;
    if exponent == 255 {
        return None;
    }
    let m: u64 = if exponent == 0 {
        fraction as u64
    } else {
        fraction as u64 + 0x80_0000
    };
    let p: u32 = if exponent == 0 {
        1
    } else {
        exponent
    };
    if p > 165 {
        return None;
    }
    let magnitude: u64 = if p >= 126 {
        let scale: u64 = power_of_two(p - 126);
        assert(m * scale < 0x8000_0000_0000_0000) by (nonlinear_arith)
            requires
                0 <= m < 0x100_0000,
                0 <= scale <= 0x80_0000_0000,
        ;
        m * scale
    } else if 126 - p >= 24 {
        proof {
            lemma_small_quotients(m as int, (126 - p) as nat);
        }
        if negative && m > 0 {
            1
        } else {
            0
        }
    } else {
        let d: u64 = power_of_two(126 - p);
        if negative {
            (m + d - 1) / d
        } else {
            m / d
        }
    };
    if negative {
        Some(-(magnitude as i64))
    } else {
        Some(magnitude as i64)
    }
}

/// A significand divided by a power of two that exceeds it is zero when
/// rounded down, and one when rounded up unless it is zero itself.
proof fn lemma_small_quotients(m: int, s: nat)
    requires
        0 <= m < 0x100_0000,
        s >= 24,
    ensures
        m / (pow2(s) as int) == 0,
        (m + pow2(s) - 1) / (pow2(s) as int) == if m > 0 { 1int } else { 0int },
{
    lemma2_to64();
    if s > 24 {
        lemma_pow2_strictly_increases(24, s);
    }
    let d = pow2(s) as int;
    lemma_basic_div(m, d);
    if m > 0 {
        assert((m + d - 1) / d == 1) by (nonlinear_arith)
            requires
                0 < m < d,
        ;
    } else {
        lemma_basic_div(d - 1, d);
    }
}

/// A finite float lies between zero and one exactly when its product with
/// `UNIT`, rounded down, lies between zero and `UNIT`; and then its power is
/// at most 127.
pub proof fn lemma_f32_unit_interval(bits: u32)
    requires
        f32_finite(bits),
    ensures
        f32_in_unit_interval(bits) <==> 0 <= f32_fixed(bits) <= UNIT,
        f32_in_unit_interval(bits) ==> f32_power(bits) <= 127,
{
    let m = f32_significand(bits) as int;
    let p = f32_power(bits);
    lemma2_to64();
    assert(0 <= m < 0x100_0000);
    assert(p > 1 ==> m >= 0x80_0000);
    if p >= 126 {
        let k = (p - 126) as nat;
        lemma_pow2_adds(k, 126);
        lemma_pow2_adds(24, 126);
        lemma_pow2_pos(126);
        lemma_pow2_pos(k);
        let q = pow2(126) as int;
        let s = pow2(k) as int;
        assert(pow2(p) == s * q);
        assert(pow2(150) == 0x100_0000 * q);
        assert(m * (s * q) == (m * s) * q) by (nonlinear_arith);
        assert((m * s <= 0x100_0000) <==> ((m * s) * q <= 0x100_0000 * q)) by (nonlinear_arith)
            requires
                q > 0,
        ;
        assert(m * s >= 0) by (nonlinear_arith)
            requires
                m >= 0,
                s >= 0,
        ;
        assert(m * s >= m) by (nonlinear_arith)
            requires
                m >= 0,
                s >= 1,
        ;
        if k >= 2 {
            if k > 2 {
                lemma_pow2_strictly_increases(2, k);
            }
            assert(m * s > 0x100_0000) by (nonlinear_arith)
                requires
                    m >= 0x80_0000,
                    s >= 4,
            ;
        }
    } else {
        let s = (126 - p) as nat;
        let d = pow2(s) as int;
        lemma_pow2_pos(s);
        lemma_pow2_strictly_increases(p, 126);
        lemma_pow2_adds(24, 126);
        lemma_pow2_pos(p);
        assert(m * pow2(p) <= 0x100_0000 * pow2(126)) by (nonlinear_arith)
            requires
                0 <= m < 0x100_0000,
                0 < pow2(p) < pow2(126),
        ;
        assert(0 <= m / d <= m) by (nonlinear_arith)
            requires
                0 <= m,
                d >= 1,
        ;
        if m > 0 {
            assert((m + d - 1) / d >= 1) by (nonlinear_arith)
                requires
                    m >= 1,
                    d >= 1,
            ;
        } else {
            lemma_basic_div(d - 1, d);
        }
    }
}

impl NDC {
    /// The point whose coordinates are the two floats with the given bits,
    /// each times `UNIT` and rounded down, provided that both floats are
    /// numbers between zero and one, both included.
    pub fn from_f32_bits(x_bits: u32, y_bits: u32) -> (r: Option<NDC>)
        ensures
            r is Some <==> f32_in_unit_interval(x_bits) && f32_in_unit_interval(y_bits),
            r matches Some(p) ==> p@ == (Point { x: f32_fixed(x_bits), y: f32_fixed(y_bits) }),
    {
        proof {
            if f32_finite(x_bits) {
                lemma_f32_unit_interval(x_bits);
            }
            if f32_finite(y_bits) {
                lemma_f32_unit_interval(y_bits);
            }
        }
        match (fixed_from_f32_bits(x_bits), fixed_from_f32_bits(y_bits)) {
            (Some(x), Some(y)) => NDC::new(x, y),
            _ => None,
        }
    }
}

} // verus!
