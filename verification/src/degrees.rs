//! Degrees as the bit patterns of single-precision values: the whole degree
//! below a value, and whether a value lies within a bound.
//!
//! A pattern holds a sign in its highest bit, an exponent in the next eight
//! and a fraction in the lowest 23. With the exponent field 0 the magnitude
//! is `fraction * 2^-149`; with a field `e` from 1 to 254 it is
//! `(2^23 + fraction) * 2^(e - 150)`. The field 255 stands for a value that
//! is no number where the fraction is not 0, and else for an infinite value,
//! which is here a magnitude beyond every bound.

use vstd::arithmetic::power2::*;
use vstd::prelude::*;

verus! {

/// Whether the sign bit is set.
pub open spec fn sign_bit(bits: u32) -> bool {
    bits >= 0x8000_0000
}

/// The exponent field.
pub open spec fn exponent_field(bits: u32) -> nat {
    ((bits / 0x80_0000) % 256) as nat
}

/// The fraction field.
pub open spec fn fraction_field(bits: u32) -> nat {
    (bits % 0x80_0000) as nat
}

/// Whether the pattern stands for no number.
pub open spec fn is_nan(bits: u32) -> bool {
    exponent_field(bits) == 255 && fraction_field(bits) != 0
}

/// The whole number `m` of the magnitude `m * 2^k`.
pub open spec fn significand(bits: u32) -> nat {
    if exponent_field(bits) == 0 {
        fraction_field(bits)
    } else {
        fraction_field(bits) + 0x80_0000
    }
}

/// The power `k` of the magnitude `m * 2^k`.
pub open spec fn power(bits: u32) -> int {
    if exponent_field(bits) == 0 {
        -149
    } else {
        exponent_field(bits) - 150
    }
}

/// The greatest whole number that is not above the value.
pub open spec fn whole_part(bits: u32) -> int {
    let m = significand(bits) as int;
    let k = power(bits);
    if k >= 0 {
        let v = m * pow2(k as nat);
        if sign_bit(bits) {
            -v
        } else {
            v
        }
    } else {
        let d = pow2((-k) as nat) as int;
        if sign_bit(bits) {
            -(m / d) - (if m % d == 0 {
                0int
            } else {
                1int
            })
        } else {
            m / d
        }
    }
}

/// The nearest value of a signed 16-bit number.
pub open spec fn clamp_i16(v: int) -> i16 {
    if v < i16::MIN {
        i16::MIN
    } else if v > i16::MAX {
        i16::MAX
    } else {
        v as i16
    }
}

/// The whole degree of a cell index: the greatest whole number not above the
/// value, held to the range of a signed 16-bit number, and 0 for a pattern
/// that stands for no number.
pub open spec fn degree_floor(bits: u32) -> i16 {
    if is_nan(bits) {
        0
    } else {
        clamp_i16(whole_part(bits))
    }
}

/// Whether the magnitude of the value is below `limit`. It is not where the
/// pattern stands for no number.
pub open spec fn magnitude_below(bits: u32, limit: nat) -> bool {
    let m = significand(bits);
    let k = power(bits);
    !is_nan(bits) && if k >= 0 {
        m * pow2(k as nat) < limit
    } else {
        m < limit * pow2((-k) as nat)
    }
}

/// Two to the power `e`, for an `e` up to 23.
fn small_pow2(e: u32) -> (d: u32)
    requires
        e <= 23,
    ensures
        d == pow2(e as nat),
        1 <= d <= 0x80_0000,
{
    let mut d: u32 = 1;
    let mut i: u32 = 0;
    proof {
        lemma2_to64();
    }
    while i < e
        invariant
            i <= e <= 23,
            d == pow2(i as nat),
            1 <= d,
            d <= pow2(23),
            pow2(23) == 0x80_0000,
        decreases e - i,
    {
        proof {
            lemma_pow2_unfold((i + 1) as nat);
            if i + 1 < 23 {
                lemma_pow2_strictly_increases((i + 1) as nat, 23);
            }
        }
        d = d * 2;
        i = i + 1;
    }
    d
}

/// The three fields of a pattern: the exponent and the fraction; the sign is
/// read from the pattern itself.
fn fields(bits: u32) -> (r: (u32, u32))
    ensures
        r.0 == exponent_field(bits),
        r.1 == fraction_field(bits),
        r.0 <= 255,
        r.1 < 0x80_0000,
{
    ((bits / 0x80_0000) % 256, bits % 0x80_0000)
}

/// The whole degree below a value: the index of the cell that the value
/// falls into.
pub fn floor_degree(bits: u32) -> (r: i16)
    ensures
        r == degree_floor(bits),
{
    let negative = bits >= 0x8000_0000;
    let (exponent, fraction) = fields(bits);
    if exponent == 255 && fraction != 0 {
        return 0;
    }
    let m: u32 = if exponent == 0 {
        fraction
    } else {
        fraction + 0x80_0000
    };
    let field: u32 = if exponent == 0 {
        1
    } else {
        exponent
    };
    if field >= 150 {
        proof {
            let k = (field - 150) as nat;
            lemma_pow2_pos(k);
            let p = pow2(k) as int;
            assert(m * p >= 0x80_0000) by (nonlinear_arith)
                requires
                    m >= 0x80_0000,
                    p >= 1,
            ;
        }
        return if negative {
            i16::MIN
        } else {
            i16::MAX
        };
    }
    let shift: u32 = 150 - field;
    if shift >= 24 {
        proof {
            lemma2_to64();
            if shift > 24 {
                lemma_pow2_strictly_increases(24, shift as nat);
            }
            let d = pow2(shift as nat) as int;
            let mi = m as int;
            assert(mi / d == 0 && mi % d == mi) by (nonlinear_arith)
                requires
                    0 <= mi < d,
            ;
        }
        return if negative && m != 0 {
            -1
        } else {
            0
        };
    }
    let d = small_pow2(shift);
    let q: u32 = m / d;
    let r: u32 = m % d;
    assert(q <= m) by (nonlinear_arith)
        requires
            q == m / d,
            d >= 1,
            m >= 0,
    ;
    if negative {
        let below: u32 = if r == 0 {
            q
        } else {
            q + 1
        };
        if below > 32768 {
            i16::MIN
        } else {
            (-(below as i32)) as i16
        }
    } else {
        if q > 32767 {
            i16::MAX
        } else {
            q as i16
        }
    }
}

/// Whether the magnitude of a value is below `limit` whole degrees.
pub fn below_degrees(bits: u32, limit: u32) -> (r: bool)
    requires
        1 <= limit <= 255,
    ensures
        r == magnitude_below(bits, limit as nat),
{
    let (exponent, fraction) = fields(bits);
    if exponent == 255 && fraction != 0 {
        return false;
    }
    let m: u32 = if exponent == 0 {
        fraction
    } else {
        fraction + 0x80_0000
    };
    let field: u32 = if exponent == 0 {
        1
    } else {
        exponent
    };
    if field >= 150 {
        proof {
            let k = (field - 150) as nat;
            lemma_pow2_pos(k);
            let p = pow2(k) as int;
            assert(m * p >= 0x80_0000) by (nonlinear_arith)
                requires
                    m >= 0x80_0000,
                    p >= 1,
            ;
        }
        return false;
    }
    let shift: u32 = 150 - field;
    if shift >= 24 {
        proof {
            lemma2_to64();
            if shift > 24 {
                lemma_pow2_strictly_increases(24, shift as nat);
            }
            let d = pow2(shift as nat) as int;
            assert(m < limit * d) by (nonlinear_arith)
                requires
                    0 <= m < d,
                    limit >= 1,
            ;
        }
        return true;
    }
    let d = small_pow2(shift);
    assert(limit * d <= 255 * 0x80_0000) by (nonlinear_arith)
        requires
            1 <= limit <= 255,
            1 <= d <= 0x80_0000,
    ;
    m < limit * d
}

/// The bound on the magnitude of a longitude inside which the only
/// candidate of a cell is taken without the exact test.
pub const INTERIOR_LNG: u32 = 179;

/// The bound on the magnitude of a latitude inside which the only candidate
/// of a cell is taken without the exact test.
pub const INTERIOR_LAT: u32 = 89;

/// Whether a point lies strictly inside the interior of the domain: its
/// longitude within 179 degrees of the prime meridian and its latitude within
/// 89 degrees of the equator.
pub open spec fn interior(lng_bits: u32, lat_bits: u32) -> bool {
    magnitude_below(lng_bits, INTERIOR_LNG as nat) && magnitude_below(
        lat_bits,
        INTERIOR_LAT as nat,
    )
}

/// Whether a point lies strictly inside the interior of the domain.
pub fn is_interior(lng_bits: u32, lat_bits: u32) -> (r: bool)
    ensures
        r == interior(lng_bits, lat_bits),
{
    below_degrees(lng_bits, INTERIOR_LNG) && below_degrees(lat_bits, INTERIOR_LAT)
}

} // verus!
