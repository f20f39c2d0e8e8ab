//! Exactness-checked numeric conversions and the timestamp adapters:
//! unsigned integers move across the format's representable numeric types
//! only when the move is exact, and fail otherwise. A 64-bit double is
//! handled as its IEEE-754 bit pattern, so the exactness test is pure
//! integer arithmetic.

use vstd::arithmetic::div_mod::{lemma_fundamental_div_mod, lemma_fundamental_div_mod_converse};
use vstd::arithmetic::power2::{
    lemma2_to64,
    lemma_pow2_adds,
    lemma_pow2_pos,
    lemma_pow2_strictly_increases,
    pow2,
};
use vstd::prelude::*;
use crate::value::Timestamp;

verus! {

/// The number of binary digits of a natural number.
pub open spec fn bit_len(n: nat) -> nat
    decreases n,
{
    if n == 0 {
        0
    } else {
        1 + bit_len(n / 2)
    }
}

/// The defining bounds of the bit length: a number lies under two to its
/// bit length, and at or above two to one less.
pub proof fn lemma_bit_len(n: nat)
    ensures
        n < pow2(bit_len(n)),
        n > 0 ==> pow2((bit_len(n) - 1) as nat) <= n,
    decreases n,
{
    broadcast use lemma_pow2_pos;

    if n > 0 {
        lemma_bit_len(n / 2);
        let l = bit_len(n / 2);
        assert(pow2(l + 1) == 2 * pow2(l)) by {
            lemma_pow2_adds(l, 1);
            lemma2_to64();
        }
        lemma_fundamental_div_mod(n as int, 2);
        if n / 2 > 0 {
            assert(pow2((l - 1) as nat) * 2 == pow2(l)) by {
                lemma_pow2_adds((l - 1) as nat, 1);
                lemma2_to64();
            }
        } else {
            lemma2_to64();
        }
    }
}

/// A bound on the number bounds the bit length.
pub proof fn lemma_bit_len_le(n: nat, k: nat)
    requires
        n < pow2(k),
    ensures
        bit_len(n) <= k,
{
    lemma_bit_len(n);
    if bit_len(n) > k {
        lemma_pow2_strictly_increases(k, (bit_len(n) - 1) as nat);
        if bit_len(n) - 1 > k {
            assert(pow2(k) < pow2((bit_len(n) - 1) as nat) <= n);
        } else {
            assert(pow2((bit_len(n) - 1) as nat) == pow2(k));
        }
        assert(false);
    }
}

/// Whether a 64-bit unsigned integer is exactly representable as a 64-bit
/// double: it has at most 53 significant binary digits.
pub open spec fn f64_exact_u64(v: u64) -> bool {
    bit_len(v as nat) <= 53 || (v as nat) % pow2((bit_len(v as nat) - 53) as nat) == 0
}

/// The IEEE-754 bit pattern of the double equal to `v`, meaningful when
/// the conversion is exact: a zero sign bit, a biased exponent, and the
/// 52 fraction bits below the hidden leading one.
pub open spec fn f64_bits_of_u64(v: u64) -> u64 {
    if v == 0 {
        0
    } else {
        let len = bit_len(v as nat);
        let frac = if len <= 53 {
            (v as nat) * pow2((53 - len) as nat)
        } else {
            (v as nat) / pow2((len - 53) as nat)
        };
        (((1022 + len) * pow2(52) + (frac - pow2(52))) as int) as u64
    }
}

/// The natural number a double's bit pattern stands for exactly, if any:
/// the value must be finite, non-negative, integral, and under two to the
/// sixty-fourth. A negative zero stands for zero.
pub open spec fn f64_bits_to_nat(bits: u64) -> Option<nat> {
    let sign = (bits as nat) / pow2(63);
    let e = ((bits as nat) / pow2(52)) % pow2(11);
    let m = (bits as nat) % pow2(52);
    if e == 0 && m == 0 {
        Some(0)
    } else if sign == 1 {
        None
    } else if e == 0x7ff || e == 0 {
        None
    } else {
        let frac = pow2(52) + m;
        if e >= 1075 {
            if e - 1075 <= 11 {
                Some(frac * pow2((e - 1075) as nat))
            } else {
                None
            }
        } else {
            let j = (1075 - e) as nat;
            if frac % pow2(j) == 0 && j <= 52 {
                Some(frac / pow2(j))
            } else {
                None
            }
        }
    }
}

/// Two to the `k`, as a machine word.
pub fn pow2_u64(k: u32) -> (r: u64)
    requires
        k <= 63,
    ensures
        r == pow2(k as nat),
{
    proof {
        lemma2_to64();
    }
    let mut i: u32 = 0;
    let mut r: u64 = 1;
    while i < k
        invariant
            0 <= i <= k <= 63,
            r == pow2(i as nat),
        decreases k - i,
    {
        proof {
            lemma_pow2_adds(i as nat, 1);
            lemma2_to64();
            if (i as nat) + 1 < 64 {
                lemma_pow2_strictly_increases(i as nat + 1, 64);
            }
            lemma_pow2_consts();
        }
        r = r * 2;
        i = i + 1;
    }
    r
}

/// The powers of two that frame a double's fields, as constants.
proof fn lemma_pow2_consts()
    ensures
        pow2(11) == 0x800,
        pow2(32) == 0x1_0000_0000,
        pow2(52) == 0x10_0000_0000_0000,
        pow2(53) == 0x20_0000_0000_0000,
        pow2(63) == 0x8000_0000_0000_0000,
        pow2(64) == 0x1_0000_0000_0000_0000,
{
    lemma2_to64();
    vstd::arithmetic::power2::lemma2_to64_rest();
}

/// The number of binary digits of a machine word.
pub fn u64_bit_len(v: u64) -> (r: u32)
    ensures
        r == bit_len(v as nat),
        r <= 64,
{
    proof {
        lemma_pow2_consts();
        lemma_bit_len_le(v as nat, 64);
    }
    let mut x = v;
    let mut c: u32 = 0;
    while x > 0
        invariant
            c + bit_len(x as nat) == bit_len(v as nat),
            bit_len(v as nat) <= 64,
        decreases x,
    {
        x = x / 2;
        c = c + 1;
    }
    c
}


/// Extracting the sign, exponent and fraction fields back out of an
/// assembled bit pattern whose sign bit is zero.
proof fn lemma_roundtrip_frame(e: nat, m: nat)
    requires
        1023 <= e <= 1086,
        m < pow2(52),
    ensures
        e * pow2(52) + m < pow2(63),
        ((e * pow2(52) + m) as nat) / pow2(63) == 0,
        (((e * pow2(52) + m) as nat) / pow2(52)) % pow2(11) == e,
        ((e * pow2(52) + m) as nat) % pow2(52) == m,
{
    broadcast use lemma_pow2_pos;

    lemma2_to64();
    lemma_pow2_consts();
    let bits = e * pow2(52) + m;
    assert(pow2(63) == pow2(11) * pow2(52)) by {
        lemma_pow2_adds(11, 52);
    }
    assert(bits < pow2(63)) by (nonlinear_arith)
        requires
            e <= 1086,
            m < pow2(52),
            bits == e * pow2(52) + m,
            pow2(63) == pow2(11) * pow2(52),
            pow2(11) == 2048,
    ;
    vstd::arithmetic::div_mod::lemma_basic_div(bits as int, pow2(63) as int);
    lemma_fundamental_div_mod_converse(bits as int, pow2(52) as int, e as int, m as int);
    vstd::arithmetic::div_mod::lemma_small_mod(e, pow2(11));
}

/// Converts an unsigned 64-bit integer to the bit pattern of the equal
/// double. Succeeds exactly when the conversion is exact, and the pattern
/// then converts back to the same integer.
pub fn u64_to_f64_bits(v: u64) -> (r: Option<u64>)
    ensures
        match r {
            Some(b) => f64_exact_u64(v) && b == f64_bits_of_u64(v) && f64_bits_to_nat(b) == Some(
                v as nat,
            ),
            None => !f64_exact_u64(v),
        },
{
    proof {
        broadcast use lemma_pow2_pos;

        lemma2_to64();
        lemma_pow2_consts();
    }
    if v == 0 {
        proof {
            vstd::arithmetic::div_mod::lemma_small_mod(0, pow2(52));
            vstd::arithmetic::div_mod::lemma_basic_div(0, pow2(63) as int);
            vstd::arithmetic::div_mod::lemma_basic_div(0, pow2(52) as int);
            vstd::arithmetic::div_mod::lemma_small_mod(0, pow2(11));
            assert(f64_bits_to_nat(0) == Some(0nat));
        }
        return Some(0);
    }
    let len = u64_bit_len(v);
    proof {
        lemma_bit_len(v as nat);
        assert(bit_len(v as nat) >= 1);
    }
    if len <= 53 {
        let p = pow2_u64(53 - len);
        proof {
            lemma_pow2_pos((53 - len) as nat);
            lemma_pow2_adds((len - 1) as nat, (53 - len) as nat);
            lemma_pow2_adds(len as nat, (53 - len) as nat);
            assert((v as nat) * (p as nat) < pow2(53)) by (nonlinear_arith)
                requires
                    (v as nat) < pow2(len as nat),
                    p == pow2((53 - len) as nat),
                    (p as nat) > 0,
                    pow2(len as nat) * pow2((53 - len) as nat) == pow2(53),
            ;
            assert(pow2(52) <= (v as nat) * (p as nat)) by (nonlinear_arith)
                requires
                    pow2((len - 1) as nat) <= (v as nat),
                    p == pow2((53 - len) as nat),
                    (p as nat) > 0,
                    pow2((len - 1) as nat) * pow2((53 - len) as nat) == pow2(52),
            ;
        }
        let frac = v * p;
        let bits = (1022 + len as u64) * 0x10_0000_0000_0000 + (frac - 0x10_0000_0000_0000);
        proof {
            lemma_roundtrip_frame(1022 + len as nat, (frac - pow2(52)) as nat);
            lemma_fundamental_div_mod_converse(
                frac as int,
                pow2((53 - len) as nat) as int,
                v as int,
                0,
            );
            assert(bits == (1022 + len as nat) * pow2(52) + (frac - pow2(52)));
            if len == 53 {
                assert(p == 1);
                assert(frac == v * 1int) by (nonlinear_arith)
                    requires
                        frac == (v as nat) * (p as nat),
                        p == 1,
                ;
                assert((frac as nat) * pow2(0) == v as nat);
            }
            assert(f64_bits_to_nat(bits) == Some(v as nat));
        }
        Some(bits)
    } else {
        let sh = len - 53;
        let p = pow2_u64(sh);
        proof {
            lemma_pow2_pos(sh as nat);
        }
        if v % p != 0 {
            return None;
        }
        let frac = v / p;
        proof {
            lemma_fundamental_div_mod(v as int, p as int);
            lemma_pow2_adds(52, sh as nat);
            lemma_pow2_adds(53, sh as nat);
            lemma_pow2_adds((len - 54) as nat, 1);
            assert(v == (p as int) * (frac as int));
            assert(pow2(52) * (p as nat) == pow2((len - 1) as nat)) by {
                lemma_pow2_adds(52, sh as nat);
            }
            assert(pow2(53) * (p as nat) == pow2(len as nat)) by {
                lemma_pow2_adds(53, sh as nat);
            }
            assert(frac >= 0x10_0000_0000_0000 && frac < 0x20_0000_0000_0000) by (nonlinear_arith)
                requires
                    (v as int) == (p as int) * (frac as int),
                    pow2(52) * (p as nat) <= (v as nat),
                    (v as nat) < pow2(53) * (p as nat),
                    (p as nat) > 0,
                    frac >= 0,
                    pow2(52) * (p as nat) == pow2((len - 1) as nat),
                    pow2((len - 1) as nat) <= (v as nat),
                    (v as nat) < pow2(len as nat),
                    pow2(53) * (p as nat) == pow2(len as nat),
                    pow2(52) == 0x10_0000_0000_0000,
                    pow2(53) == 0x20_0000_0000_0000,
            ;
        }
        let bits = (1022 + len as u64) * 0x10_0000_0000_0000 + (frac - 0x10_0000_0000_0000);
        proof {
            lemma_roundtrip_frame(1022 + len as nat, (frac - pow2(52)) as nat);
            assert((frac as nat) * pow2(sh as nat) == v as nat) by (nonlinear_arith)
                requires
                    (v as int) == (p as int) * (frac as int),
                    p == pow2(sh as nat),
            ;
            assert(bits == (1022 + len as nat) * pow2(52) + (frac - pow2(52)));
            assert(f64_bits_to_nat(bits) == Some(v as nat));
        }
        Some(bits)
    }
}

/// Converts a double's bit pattern to the unsigned 64-bit integer it
/// stands for exactly, if there is one.
pub fn f64_bits_to_u64_exact(bits: u64) -> (r: Option<u64>)
    ensures
        match r {
            Some(v) => f64_bits_to_nat(bits) == Some(v as nat),
            None => f64_bits_to_nat(bits) is None,
        },
{
    proof {
        lemma2_to64();
        lemma_pow2_consts();
    }
    let sign = bits / 0x8000_0000_0000_0000;
    let e = (bits / 0x10_0000_0000_0000) % 0x800;
    let m = bits % 0x10_0000_0000_0000;
    if e == 0 && m == 0 {
        return Some(0);
    }
    if sign == 1 || e == 0x7ff || e == 0 {
        return None;
    }
    let frac = 0x10_0000_0000_0000 + m;
    if e >= 1075 {
        let k = e - 1075;
        if k > 11 {
            return None;
        }
        let p = pow2_u64(k as u32);
        proof {
            lemma_pow2_pos(k as nat);
            lemma_pow2_adds(53, k as nat);
            assert(pow2(53 + k as nat) <= pow2(64)) by {
                if 53 + (k as nat) < 64 {
                    lemma_pow2_strictly_increases(53 + k as nat, 64);
                }
            }
            assert((frac as nat) * (p as nat) < pow2(64)) by (nonlinear_arith)
                requires
                    (frac as nat) < pow2(53),
                    (p as nat) > 0,
                    p == pow2(k as nat),
                    pow2(53) * pow2(k as nat) == pow2(53 + k as nat),
                    pow2(53 + k as nat) <= pow2(64),
            ;
        }
        Some(frac * p)
    } else {
        let j = 1075 - e;
        if j > 52 {
            proof {
                lemma_pow2_pos(j as nat);
                if j > 53 {
                    lemma_pow2_strictly_increases(53, j as nat);
                }
                vstd::arithmetic::div_mod::lemma_small_mod(frac as nat, pow2(j as nat));
            }
            return None;
        }
        let p = pow2_u64(j as u32);
        proof {
            lemma_pow2_pos(j as nat);
        }
        if frac % p == 0 {
            Some(frac / p)
        } else {
            None
        }
    }
}

/// Converts an unsigned 32-bit integer to the bit pattern of the equal
/// double: every 32-bit integer converts exactly.
pub fn u32_to_f64_bits(v: u32) -> (r: u64)
    ensures
        r == f64_bits_of_u64(v as u64),
        f64_bits_to_nat(r) == Some(v as nat),
        f64_bits_to_u32_eps(r) == Some(v),
{
    proof {
        lemma2_to64();
        lemma_bit_len_le(v as nat, 32);
    }
    let r = match u64_to_f64_bits(v as u64) {
        Some(b) => b,
        None => {
            proof {
                assert(false);
            }
            0
        },
    };
    proof {
        lemma_u32_eps_extends_exact(r);
    }
    r
}

/// The epsilon-bounded decode of a double's bit pattern as an unsigned
/// 32-bit integer: the double must lie within one unit of the 64-bit
/// epsilon (two to the minus fifty-second) of its truncation clamped to
/// the 32-bit range, which is then the result. Beyond every exact integer
/// under two to the thirty-second, this accepts the doubles whose
/// magnitude is at most the epsilon (as zero) and the one double that far
/// above one (as one); everything else, including every infinite or
/// not-a-number pattern, is refused.
pub open spec fn f64_bits_to_u32_eps(bits: u64) -> Option<u32> {
    let sign = (bits as nat) / pow2(63);
    let e = ((bits as nat) / pow2(52)) % pow2(11);
    let m = (bits as nat) % pow2(52);
    if e == 0x7ff {
        None
    } else if e == 0 && m == 0 {
        Some(0)
    } else if e < 971 || (e == 971 && m == 0) {
        Some(0)
    } else if sign == 1 {
        None
    } else if e < 1023 {
        None
    } else if e == 1023 {
        if m <= 1 {
            Some(1)
        } else {
            None
        }
    } else if e <= 1054 {
        let frac = pow2(52) + m;
        let j = (1075 - e) as nat;
        if frac % pow2(j) == 0 {
            Some((frac / pow2(j)) as u32)
        } else {
            None
        }
    } else {
        None
    }
}

/// Converts a double's bit pattern to an unsigned 32-bit integer under
/// the format's 32-bit decode rule: exactness bounded by the 64-bit
/// epsilon, as [`f64_bits_to_u32_eps`] defines it.
pub fn f64_bits_to_u32(bits: u64) -> (r: Option<u32>)
    ensures
        r == f64_bits_to_u32_eps(bits),
{
    proof {
        broadcast use lemma_pow2_pos;

        lemma2_to64();
        lemma_pow2_consts();
    }
    let sign = bits / 0x8000_0000_0000_0000;
    let e = (bits / 0x10_0000_0000_0000) % 0x800;
    let m = bits % 0x10_0000_0000_0000;
    if e == 0x7ff {
        None
    } else if e == 0 && m == 0 {
        Some(0)
    } else if e < 971 || (e == 971 && m == 0) {
        Some(0)
    } else if sign == 1 {
        None
    } else if e < 1023 {
        None
    } else if e == 1023 {
        if m <= 1 {
            Some(1)
        } else {
            None
        }
    } else if e <= 1054 {
        let j = (1075 - e) as u32;
        let p = pow2_u64(j);
        proof {
            lemma_pow2_pos(j as nat);
        }
        let frac = 0x10_0000_0000_0000 + m;
        if frac % p == 0 {
            let q = frac / p;
            proof {
                lemma_fundamental_div_mod(frac as int, p as int);
                lemma_pow2_adds(32, j as nat);
                assert(pow2(53) <= pow2(32 + j as nat)) by {
                    if 53 < 32 + j as nat {
                        lemma_pow2_strictly_increases(53, 32 + j as nat);
                    }
                }
                assert((q as nat) < pow2(32)) by (nonlinear_arith)
                    requires
                        (frac as int) == (p as int) * (q as int),
                        (frac as nat) < pow2(53),
                        pow2(53) <= pow2(32) * (p as nat),
                        (p as nat) > 0,
                        q >= 0,
                ;
            }
            Some(q as u32)
        } else {
            None
        }
    } else {
        None
    }
}

/// The epsilon-bounded 32-bit decode extends the bit-exact one: a pattern
/// that stands exactly for an integer in the 32-bit range decodes to that
/// integer under the epsilon rule too.
pub proof fn lemma_u32_eps_extends_exact(bits: u64)
    requires
        f64_bits_to_nat(bits) matches Some(n) && n <= u32::MAX,
    ensures
        f64_bits_to_u32_eps(bits) == Some((f64_bits_to_nat(bits)->Some_0) as u32),
{
    broadcast use lemma_pow2_pos;

    lemma2_to64();
    lemma_pow2_consts();
    let sign = (bits as nat) / pow2(63);
    let e = ((bits as nat) / pow2(52)) % pow2(11);
    let m = (bits as nat) % pow2(52);
    let n = f64_bits_to_nat(bits)->Some_0;
    if e == 0 && m == 0 {
    } else {
        let frac = pow2(52) + m;
        if e >= 1075 {
            // The value carries at least 52 binary digits: too large.
            assert(frac * pow2((e - 1075) as nat) >= pow2(52) * 1) by (nonlinear_arith)
                requires
                    frac >= pow2(52),
                    pow2((e - 1075) as nat) >= 1,
            ;
            assert(false);
        } else {
            let j = (1075 - e) as nat;
            assert(frac % pow2(j) == 0 && j <= 52 && n == frac / pow2(j));
            lemma_fundamental_div_mod(frac as int, pow2(j) as int);
            assert(frac == pow2(j) * n) by (nonlinear_arith)
                requires
                    (frac as int) == pow2(j) * (frac as int / pow2(j) as int) + (frac as int
                        % pow2(j) as int),
                    frac % pow2(j) == 0,
                    n == frac / pow2(j),
                    pow2(j) > 0,
            ;
            lemma_pow2_adds((52 - j) as nat, j);
            assert(n >= pow2((52 - j) as nat)) by (nonlinear_arith)
                requires
                    frac == pow2(j) * n,
                    frac >= pow2(52),
                    pow2(52) == pow2((52 - j) as nat) * pow2(j),
                    pow2(j) > 0,
            ;
            if 52 - j >= 32 {
                if 52 - j > 32 {
                    lemma_pow2_strictly_increases(32, (52 - j) as nat);
                }
                assert(n >= pow2(32));
                assert(false);
            }
            assert(j >= 21);
            assert(e >= 1023 && e <= 1054);
            if e == 1023 {
                lemma_fundamental_div_mod_converse(frac as int, pow2(52) as int, 1, m as int);
                assert(m == 0);
                assert(n == 1);
            }
        }
    }
}

/// Converts an unsigned 32-bit integer to the equal signed 32-bit
/// integer. Succeeds exactly when the value fits.
pub fn u32_to_i32_exact(v: u32) -> (r: Option<i32>)
    ensures
        r is Some <==> v <= i32::MAX,
        r matches Some(x) ==> x == v,
{
    if v <= 0x7fff_ffff {
        Some(v as i32)
    } else {
        None
    }
}

/// Converts an unsigned 32-bit integer to the equal signed 64-bit
/// integer: always exact.
pub fn u32_to_i64(v: u32) -> (r: i64)
    ensures
        r == v,
{
    v as i64
}

/// Converts an unsigned 64-bit integer to the equal signed 32-bit
/// integer. Succeeds exactly when the value fits.
pub fn u64_to_i32_exact(v: u64) -> (r: Option<i32>)
    ensures
        r is Some <==> v <= i32::MAX,
        r matches Some(x) ==> x == v,
{
    if v <= 0x7fff_ffff {
        Some(v as i32)
    } else {
        None
    }
}

/// Converts an unsigned 64-bit integer to the equal signed 64-bit
/// integer. Succeeds exactly when the value fits.
pub fn u64_to_i64_exact(v: u64) -> (r: Option<i64>)
    ensures
        r is Some <==> v <= i64::MAX,
        r matches Some(x) ==> x == v,
{
    if v <= 0x7fff_ffff_ffff_ffff {
        Some(v as i64)
    } else {
        None
    }
}

/// What converting a timestamp to bare seconds yields: the conversion
/// drops the increment, so it refuses any timestamp whose increment is
/// not zero rather than lose it.
pub open spec fn spec_timestamp_as_u32(t: Timestamp) -> Option<u32> {
    if t.increment == 0 {
        Some(t.time)
    } else {
        None
    }
}

/// What bare seconds stand for as a timestamp: a zero increment.
pub open spec fn spec_u32_as_timestamp(time: u32) -> Timestamp {
    Timestamp { time, increment: 0 }
}

/// Converts a timestamp to bare seconds. Succeeds exactly when the
/// increment is zero, since the increment would otherwise be lost.
pub fn timestamp_as_u32(t: &Timestamp) -> (r: Option<u32>)
    ensures
        r == spec_timestamp_as_u32(*t),
{
    if t.increment == 0 {
        Some(t.time)
    } else {
        None
    }
}

/// Converts bare seconds to a timestamp with a zero increment.
pub fn u32_as_timestamp(time: u32) -> (r: Timestamp)
    ensures
        r == spec_u32_as_timestamp(time),
{
    Timestamp { time, increment: 0 }
}

/// The timestamp guard is lossless where it is defined: seconds convert
/// to a timestamp and back unchanged, and a zero-increment timestamp
/// converts to seconds and back unchanged.
pub proof fn lemma_timestamp_u32_roundtrip(time: u32, t: Timestamp)
    ensures
        spec_timestamp_as_u32(spec_u32_as_timestamp(time)) == Some(time),
        t.increment == 0 ==> spec_u32_as_timestamp(spec_timestamp_as_u32(t)->Some_0) == t,
{
}

} // verus!
