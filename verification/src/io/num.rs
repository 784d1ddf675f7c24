//! Little-endian numbers of binary files, and the integer that Rust's `as`
//! cast gives for the IEEE 754 floats among them.
use vstd::prelude::*;
use vstd::arithmetic::power2::{pow2, lemma_pow2_pos, lemma_pow2_adds, lemma2_to64, lemma2_to64_rest, lemma_pow2_strictly_increases};
use vstd::bits::{lemma_u64_shl_is_mul, lemma_u64_shr_is_div};

verus! {

/// The unsigned value of little-endian bytes.
pub open spec fn le_value(b: Seq<u8>) -> nat
    decreases b.len(),
{
    if b.len() == 0 {
        0
    } else {
        b[0] as nat + 256 * le_value(b.drop_first())
    }
}

/// `v` as a signed integer of `bits` bits (two's complement).
pub open spec fn signed(v: nat, bits: nat) -> int {
    if v >= pow2((bits - 1) as nat) {
        v - pow2(bits)
    } else {
        v as int
    }
}

pub open spec fn saturate_i64(v: int) -> i64 {
    if v > i64::MAX {
        i64::MAX
    } else if v < i64::MIN {
        i64::MIN
    } else {
        v as i64
    }
}

/// `m * 2^e` rounded toward zero.
pub open spec fn scaled(m: nat, e: int) -> nat {
    if e >= 0 {
        m * pow2(e as nat)
    } else {
        m / pow2((-e) as nat)
    }
}

/// `x as i64` for the IEEE 754 binary float with `frac_bits` fraction bits
/// and `exp_bits` exponent bits whose bit pattern is `bits`: the value
/// rounded toward zero and saturated, NaN giving 0.
pub open spec fn float_bits_as_i64(bits: nat, frac_bits: nat, exp_bits: nat) -> i64 {
    let frac = bits % pow2(frac_bits);
    let exp = (bits / pow2(frac_bits)) % pow2(exp_bits);
    let neg = bits / pow2(frac_bits + exp_bits) == 1;
    let bias = pow2((exp_bits - 1) as nat) - 1;
    if exp == pow2(exp_bits) - 1 {
        if frac != 0 {
            0
        } else if neg {
            i64::MIN
        } else {
            i64::MAX
        }
    } else {
        let m = if exp == 0 {
            frac
        } else {
            frac + pow2(frac_bits)
        };
        let e = if exp == 0 {
            1 - bias - frac_bits
        } else {
            exp - bias - frac_bits
        };
        let mag = scaled(m, e);
        saturate_i64(
            if neg {
                -mag
            } else {
                mag as int
            },
        )
    }
}

/// `f32::from_bits(bits) as i64`.
pub open spec fn f32_bits_as_i64(bits: u32) -> i64 {
    float_bits_as_i64(bits as nat, 23, 8)
}

/// `f64::from_bits(bits) as i64`.
pub open spec fn f64_bits_as_i64(bits: u64) -> i64 {
    float_bits_as_i64(bits as nat, 52, 11)
}

proof fn lemma_pow2_values()
    ensures
        pow2(7) == 128,
        pow2(8) == 256,
        pow2(10) == 1024,
        pow2(11) == 2048,
        pow2(15) == 32768,
        pow2(16) == 65536,
        pow2(23) == 0x80_0000,
        pow2(31) == 0x8000_0000,
        pow2(32) == 0x1_0000_0000,
        pow2(52) == 0x10_0000_0000_0000,
        pow2(63) == 0x8000_0000_0000_0000,
        pow2(64) == 0x1_0000_0000_0000_0000,
{
    lemma2_to64();
    lemma2_to64_rest();
}

/// The integer of a float's fields: `m * 2^e` toward zero, negated when
/// `neg`, saturated; `m < 2^(p+1)`, and `2^p <= m` when `e >= 0`.
fn scaled_to_i64(neg: bool, m: u64, e: i64, p: u64) -> (r: i64)
    requires
        p == 23 || p == 52,
        m < pow2(p as nat + 1),
        e >= 0 ==> pow2(p as nat) <= m,
        -1100 <= e <= 1100,
    ensures
        r == saturate_i64(
            if neg {
                -scaled(m as nat, e as int)
            } else {
                scaled(m as nat, e as int) as int
            },
        ),
{
    proof {
        lemma_pow2_values();
    }
    if e >= 0 {
        let sh = e as u64;
        if sh + p >= 63 {
            // The value has at least 64 bits: at least 2^63.
            proof {
                lemma_pow2_adds(p as nat, sh as nat);
                assert(pow2(p as nat) * pow2(sh as nat) <= m * pow2(sh as nat)) by (nonlinear_arith)
                    requires
                        pow2(p as nat) <= m,
                ;
                lemma_pow2_mono(63, p as nat + sh as nat);
            }
            if neg {
                i64::MIN
            } else {
                i64::MAX
            }
        } else {
            proof {
                lemma_pow2_pos(sh as nat);
                lemma_pow2_adds(p as nat + 1, sh as nat);
                lemma_pow2_mono(p as nat + 1 + sh as nat, 63);
                assert(m * pow2(sh as nat) < pow2(p as nat + 1) * pow2(sh as nat)) by (nonlinear_arith)
                    requires
                        m < pow2(p as nat + 1),
                        pow2(sh as nat) > 0,
                ;
                lemma_u64_shl_is_mul(m, sh);
            }
            let v = m << sh;
            if neg {
                -(v as i64)
            } else {
                v as i64
            }
        }
    } else {
        let sh = (-e) as u64;
        proof {
            lemma_pow2_pos(sh as nat);
        }
        if sh >= 64 {
            proof {
                lemma_pow2_mono(p as nat + 1, 64);
                lemma_pow2_mono(64, sh as nat);
                assert(m as nat / pow2(sh as nat) == 0) by (nonlinear_arith)
                    requires
                        m < pow2(sh as nat),
                ;
            }
            0
        } else {
            proof {
                lemma_u64_shr_is_div(m, sh);
                assert(m as nat / pow2(sh as nat) <= m) by (nonlinear_arith)
                    requires
                        pow2(sh as nat) >= 1,
                ;
                lemma_pow2_mono(p as nat + 1, 63);
            }
            let v = m >> sh;
            if neg {
                -(v as i64)
            } else {
                v as i64
            }
        }
    }
}

/// `f32::from_bits(bits) as i64`, computed on the bits.
pub fn f32_bits_to_i64(bits: u32) -> (r: i64)
    ensures
        r == f32_bits_as_i64(bits),
{
    proof {
        lemma_pow2_values();
    }
    let frac = bits & 0x7F_FFFF;
    let exp = (bits >> 23) & 0xFF;
    let neg = (bits >> 31) == 1;
    assert(bits & 0x7F_FFFF == bits % 0x80_0000) by (bit_vector);
    assert((bits >> 23) & 0xFF == (bits / 0x80_0000) % 256) by (bit_vector);
    assert((bits >> 31) == bits / 0x8000_0000) by (bit_vector);
    assert(pow2(23 + 8) == 0x8000_0000);
    assert(pow2((8 - 1) as nat) == 128);
    if exp == 0xFF {
        if frac != 0 {
            0
        } else if neg {
            i64::MIN
        } else {
            i64::MAX
        }
    } else {
        let m: u64 = if exp == 0 {
            frac as u64
        } else {
            frac as u64 + 0x80_0000
        };
        let e: i64 = if exp == 0 {
            1 - 127 - 23
        } else {
            exp as i64 - 127 - 23
        };
        assert(pow2(24) == 0x100_0000) by {
            lemma2_to64();
        }
        scaled_to_i64(neg, m, e, 23)
    }
}

/// `f64::from_bits(bits) as i64`, computed on the bits.
pub fn f64_bits_to_i64(bits: u64) -> (r: i64)
    ensures
        r == f64_bits_as_i64(bits),
{
    proof {
        lemma_pow2_values();
    }
    let frac = bits & 0xF_FFFF_FFFF_FFFF;
    let exp = (bits >> 52) & 0x7FF;
    let neg = (bits >> 63) == 1;
    assert(bits & 0xF_FFFF_FFFF_FFFF == bits % 0x10_0000_0000_0000) by (bit_vector);
    assert((bits >> 52) & 0x7FF == (bits / 0x10_0000_0000_0000) % 2048) by (bit_vector);
    assert((bits >> 63) == bits / 0x8000_0000_0000_0000) by (bit_vector);
    assert(pow2(52 + 11) == 0x8000_0000_0000_0000);
    assert(pow2((11 - 1) as nat) == 1024);
    if exp == 0x7FF {
        if frac != 0 {
            0
        } else if neg {
            i64::MIN
        } else {
            i64::MAX
        }
    } else {
        let m: u64 = if exp == 0 {
            frac
        } else {
            frac + 0x10_0000_0000_0000
        };
        let e: i64 = if exp == 0 {
            1 - 1023 - 52
        } else {
            exp as i64 - 1023 - 52
        };
        assert(pow2(53) == 0x20_0000_0000_0000) by {
            lemma2_to64();
            lemma2_to64_rest();
        }
        scaled_to_i64(neg, m, e, 52)
    }
}

proof fn lemma_pow2_mono(a: nat, b: nat)
    requires
        a <= b,
    ensures
        pow2(a) <= pow2(b),
{
    if a < b {
        lemma_pow2_strictly_increases(a, b);
    }
}

} // verus!
