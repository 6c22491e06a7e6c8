//! Floating point numbers, by their bits.
//!
//! A number of double precision has a sign, an exponent of eleven bits and a fraction
//! of fifty-two bits. It is told from its bits alone whether it is an integer, and which.
use vstd::arithmetic::power2::{
    lemma2_to64, lemma_pow2_adds, lemma_pow2_pos, lemma_pow2_unfold, pow2,
};
use vstd::prelude::*;

verus! {

/// One more than the largest fraction.
pub const FRACTION: u64 = 0x0010_0000_0000_0000;

/// The magnitude of the smallest 64-bit integer.
pub const EDGE: u64 = 0x8000_0000_0000_0000;

/// The exponent field.
pub open spec fn exponent(bits: u64) -> nat {
    ((bits / 0x0010_0000_0000_0000) % 2048) as nat
}

/// The bits are those of a number, not of an infinity or of no number.
pub open spec fn finite(bits: u64) -> bool {
    exponent(bits) != 2047
}

pub open spec fn negative(bits: u64) -> bool {
    bits >= 0x8000_0000_0000_0000
}

/// The digits of the number.
pub open spec fn mantissa(bits: u64) -> nat {
    let fraction = (bits % 0x0010_0000_0000_0000) as nat;
    if exponent(bits) == 0 {
        fraction
    } else {
        fraction + 0x0010_0000_0000_0000
    }
}

/// The power of two that scales the digits, plus 1075.
pub open spec fn scale(bits: u64) -> nat {
    if exponent(bits) == 0 {
        1
    } else {
        exponent(bits)
    }
}

/// The magnitude of the number is the integer `k`: the digits, scaled, are `k`.
pub open spec fn has_magnitude(bits: u64, k: nat) -> bool {
    k * pow2(1075) == mantissa(bits) * pow2(scale(bits))
}

/// The integer of magnitude `k` with the sign of the number; the one that is just too
/// large is taken for the largest.
pub open spec fn signed(bits: u64, k: nat) -> int {
    if negative(bits) {
        -k
    } else if k == EDGE {
        i64::MAX as int
    } else {
        k as int
    }
}

/// The number is an integer between the bounds of 64-bit integers, namely `v`.
pub open spec fn whole(bits: u64, v: i64) -> bool {
    finite(bits) && exists|k: nat| #[trigger]
        has_magnitude(bits, k) && k <= EDGE && v == signed(bits, k)
}

/// If one power of two more than the other scales the digits, the magnitude is the digits
/// times the difference.
proof fn lemma_large(bits: u64, shift: nat, k: nat)
    requires
        scale(bits) == 1075 + shift,
    ensures
        has_magnitude(bits, k) <==> k == mantissa(bits) * pow2(shift),
{
    let m = mantissa(bits);
    let p = pow2(1075);
    let q = pow2(shift);
    lemma_pow2_adds(1075, shift);
    lemma_pow2_pos(1075);
    assert(m * (p * q) == (m * q) * p) by (nonlinear_arith);
    if has_magnitude(bits, k) {
        assert(k == m * q) by (nonlinear_arith)
            requires
                k * p == (m * q) * p,
                p > 0,
        ;
    }
}

/// If the digits are scaled down, the magnitude scaled up gives the digits.
proof fn lemma_small(bits: u64, shift: nat, k: nat)
    requires
        scale(bits) + shift == 1075,
    ensures
        has_magnitude(bits, k) <==> k * pow2(shift) == mantissa(bits),
{
    let m = mantissa(bits);
    let p = pow2(scale(bits));
    let q = pow2(shift);
    lemma_pow2_adds(scale(bits), shift);
    lemma_pow2_pos(scale(bits));
    assert(k * (p * q) == (k * q) * p) by (nonlinear_arith);
    if has_magnitude(bits, k) {
        assert(k * q == m) by (nonlinear_arith)
            requires
                (k * q) * p == m * p,
                p > 0,
        ;
    }
}

/// An odd number is no multiple of a power of two.
proof fn lemma_odd(j: nat, s: nat, k: nat)
    requires
        s > 0,
        k % 2 == 1,
    ensures
        j * pow2(s) != k,
{
    let q = pow2((s - 1) as nat);
    lemma_pow2_unfold(s);
    assert(j * (2 * q) == 2 * (j * q)) by (nonlinear_arith);
}

/// Multiplies `m` by two, `shift` times.
fn doubled(m: u64, shift: u64) -> (k: u64)
    requires
        m < 0x0020_0000_0000_0000,
        shift <= 10,
    ensures
        k == m * pow2(shift as nat),
        k < EDGE,
{
    let mut k: u64 = m;
    let mut s: u64 = 0;
    proof {
        lemma2_to64();
        assert(m * pow2(0) == m);
    }
    while s < shift
        invariant
            m < 0x0020_0000_0000_0000,
            s <= shift <= 10,
            k == m * pow2(s as nat),
            pow2(s as nat) <= 1024,
            s < shift ==> pow2(s as nat) <= 512,
        decreases shift - s,
    {
        proof {
            lemma2_to64();
            let p = pow2(s as nat);
            lemma_pow2_unfold((s + 1) as nat);
            assert(m * (2 * p) == 2 * (m * p)) by (nonlinear_arith);
            assert(m * p <= 0x0020_0000_0000_0000 * 512) by (nonlinear_arith)
                requires
                    m < 0x0020_0000_0000_0000,
                    p <= 512,
            ;
        }
        k = k * 2;
        s = s + 1;
        proof {
            lemma2_to64();
            assert(s == 1 || s == 2 || s == 3 || s == 4 || s == 5 || s == 6 || s == 7 || s == 8 || s
                == 9 || s == 10);
        }
    }
    proof {
        let p = pow2(shift as nat);
        assert(m * p < 0x0020_0000_0000_0000 * 1024) by (nonlinear_arith)
            requires
                m < 0x0020_0000_0000_0000,
                0 < p <= 1024,
        ;
    }
    k
}

/// `j`, scaled by a power of two.
pub open spec fn scaled(j: nat, shift: nat) -> nat {
    j * pow2(shift)
}

/// Divides `m` by two, `shift` times, if that leaves no rest.
fn halved(m: u64, shift: u64) -> (k: Option<u64>)
    requires
        m > 0,
    ensures
        k matches Some(q) ==> q * pow2(shift as nat) == m && q <= m,
        k is None ==> forall|j: nat| #[trigger] scaled(j, shift as nat) != m,
{
    let mut k: u64 = m;
    let mut s: u64 = shift;
    proof {
        lemma2_to64();
        assert(k * pow2(0) == k);
    }
    while s > 0
        invariant
            s <= shift,
            0 < k <= m,
            k * pow2((shift - s) as nat) == m,
        decreases s,
    {
        let ghost done = (shift - s) as nat;
        let ghost p = pow2(done);
        if k % 2 != 0 {
            proof {
                assert forall|j: nat| #[trigger] scaled(j, shift as nat) != m by {
                    if scaled(j, shift as nat) == m {
                        let q = pow2(s as nat);
                        lemma_pow2_adds(done, s as nat);
                        lemma_pow2_pos(done);
                        assert(j * q == k) by (nonlinear_arith)
                            requires
                                j * (p * q) == k * p,
                                p > 0,
                        ;
                        lemma_odd(j, s as nat, k as nat);
                    }
                }
            }
            return None;
        }
        let ghost half = k / 2;
        proof {
            lemma_pow2_unfold((done + 1) as nat);
            assert(half * (2 * p) == (2 * half) * p) by (nonlinear_arith);
        }
        k = k / 2;
        s = s - 1;
    }
    Some(k)
}

/// The integer that the number is, if it is one between the bounds of 64-bit integers.
/// The smallest number above them is taken for the largest integer.
pub fn whole_number(bits: u64) -> (v: Option<i64>)
    ensures
        v matches Some(n) ==> whole(bits, n),
        v is None ==> !finite(bits) || forall|k: nat| #[trigger]
            has_magnitude(bits, k) ==> k > EDGE,
{
    let exp: u64 = (bits / FRACTION) % 2048;
    let fraction: u64 = bits % FRACTION;
    let neg: bool = bits >= EDGE;
    if exp == 2047 {
        return None;
    }
    let m: u64 = if exp == 0 {
        fraction
    } else {
        fraction + FRACTION
    };
    let e: u64 = if exp == 0 {
        1
    } else {
        exp
    };
    assert(m == mantissa(bits) && e == scale(bits));
    if m == 0 {
        assert(has_magnitude(bits, 0));
        return Some(0);
    }
    let k: u64 = if e >= 1075 {
        let shift: u64 = e - 1075;
        if shift > 11 || shift == 11 && m > FRACTION {
            proof {
                lemma_too_large(bits, shift as nat);
            }
            return None;
        }
        if shift == 11 {
            proof {
                lemma2_to64();
                lemma_large(bits, 11, EDGE as nat);
            }
            EDGE
        } else {
            proof {
                lemma_large(bits, shift as nat, (m * pow2(shift as nat)) as nat);
            }
            doubled(m, shift)
        }
    } else {
        let shift: u64 = 1075 - e;
        match halved(m, shift) {
            Some(k) => {
                proof {
                    lemma_small(bits, shift as nat, k as nat);
                }
                k
            },
            None => {
                proof {
                    assert forall|k: nat| #[trigger] has_magnitude(bits, k) implies k > EDGE by {
                        lemma_small(bits, shift as nat, k);
                        assert(scaled(k, shift as nat) != m);
                    }
                }
                return None;
            },
        }
    };
    assert(has_magnitude(bits, k as nat));
    if neg {
        if k == EDGE {
            Some(i64::MIN)
        } else {
            Some(-(k as i64))
        }
    } else if k == EDGE {
        Some(i64::MAX)
    } else {
        Some(k as i64)
    }
}

/// A number that is too large for an integer.
proof fn lemma_too_large(bits: u64, shift: nat)
    requires
        scale(bits) == 1075 + shift,
        shift > 11 || shift == 11 && mantissa(bits) > FRACTION,
    ensures
        forall|k: nat| #[trigger] has_magnitude(bits, k) ==> k > EDGE,
{
    let m = mantissa(bits);
    assert(m >= FRACTION);
    lemma2_to64();
    assert forall|k: nat| #[trigger] has_magnitude(bits, k) implies k > EDGE by {
        lemma_large(bits, shift, k);
        let rest = (shift - 11) as nat;
        let q = pow2(rest);
        lemma_pow2_adds(11, rest);
        lemma_pow2_pos(rest);
        if rest > 0 {
            lemma_pow2_unfold(rest);
            lemma_pow2_pos((rest - 1) as nat);
        }
        assert(q >= 1 && (rest > 0 ==> q >= 2));
        assert(m * (2048 * q) > 0x8000_0000_0000_0000) by (nonlinear_arith)
            requires
                m >= 0x0010_0000_0000_0000,
                q >= 1,
                q >= 2 || m > 0x0010_0000_0000_0000,
        ;
    }
}

/// A number is at most one integer.
pub proof fn law_one_integer(bits: u64, a: i64, b: i64)
    requires
        whole(bits, a),
        whole(bits, b),
    ensures
        a == b,
{
    let j = choose|k: nat| #[trigger] has_magnitude(bits, k) && k <= EDGE && a == signed(bits, k);
    let k = choose|k: nat| #[trigger] has_magnitude(bits, k) && k <= EDGE && b == signed(bits, k);
    let p = pow2(1075);
    lemma_pow2_pos(1075);
    assert(j == k) by (nonlinear_arith)
        requires
            j * p == k * p,
            p > 0,
    ;
}

} // verus!
