//! Arbitrary-precision integers, carried as two's-complement little-endian
//! bytes, and the arithmetic on them that `num_bigint` and `factorial` perform.

use num_bigint::{BigInt, BigUint};
use vstd::arithmetic::power::pow;
use vstd::prelude::*;

verus! {

/// The value of little-endian base-256 digits, read as an unsigned number.
pub open spec fn unsigned_le(b: Seq<u8>) -> nat
    decreases b.len(),
{
    if b.len() == 0 {
        0
    } else {
        b[0] as nat + 256 * unsigned_le(b.subrange(1, b.len() as int))
    }
}

/// The value of little-endian two's-complement bytes; the empty sequence is zero.
pub open spec fn int_value(b: Seq<u8>) -> int {
    if b.len() > 0 && b[b.len() - 1] >= 128 {
        unsigned_le(b) - pow(256, b.len())
    } else {
        unsigned_le(b) as int
    }
}

/// n! over the naturals.
pub open spec fn factorial(n: nat) -> nat
    decreases n,
{
    if n == 0 {
        1
    } else {
        n * factorial((n - 1) as nat)
    }
}

/// `BigInt::from(a) * BigInt::from(b)`, on two's-complement bytes: the bytes
/// that come back hold the product of the two values.
#[verifier::external_body]
pub(crate) fn int_mul(a: &[u8], b: &[u8]) -> (r: Vec<u8>)
    ensures
        int_value(r@) == int_value(a@) * int_value(b@),
{
    (BigInt::from_signed_bytes_le(a) * BigInt::from_signed_bytes_le(b)).to_signed_bytes_le()
}

/// `BigInt::pow`: the bytes that come back hold `base` raised to `exp`.
#[verifier::external_body]
pub(crate) fn int_pow(base: i64, exp: u32) -> (r: Vec<u8>)
    ensures
        int_value(r@) == pow(base as int, exp as nat),
{
    BigInt::from(base).pow(exp).to_signed_bytes_le()
}

/// `Factorial::factorial` of the `factorial` crate on a `BigUint`: the bytes
/// that come back hold `n!`.
#[verifier::external_body]
pub(crate) fn int_factorial(n: u32) -> (r: Vec<u8>)
    ensures
        int_value(r@) == factorial(n as nat),
{
    BigInt::from(factorial::Factorial::factorial(&BigUint::from(n))).to_signed_bytes_le()
}

/// The single byte 1 stands for the integer one.
pub proof fn lemma_int_value_one()
    ensures
        int_value(seq![1u8]) == 1,
{
    reveal_with_fuel(unsigned_le, 2);
    assert(seq![1u8].subrange(1, 1) =~= Seq::<u8>::empty());
}

/// Digits below 256 read little-endian stay below `256^len`.
pub proof fn lemma_unsigned_le_bound(b: Seq<u8>)
    ensures
        unsigned_le(b) < pow(256, b.len()),
    decreases b.len(),
{
    reveal(pow);
    if b.len() > 0 {
        let t = b.subrange(1, b.len() as int);
        lemma_unsigned_le_bound(t);
        assert(pow(256, b.len()) == 256 * pow(256, t.len()));
    }
}

/// The unsigned reading is zero exactly when every digit is zero.
pub proof fn lemma_unsigned_le_zero(b: Seq<u8>)
    ensures
        unsigned_le(b) == 0 <==> (forall|i: int| 0 <= i < b.len() ==> b[i] == 0),
    decreases b.len(),
{
    if b.len() > 0 {
        let t = b.subrange(1, b.len() as int);
        lemma_unsigned_le_zero(t);
        if unsigned_le(b) == 0 {
            assert forall|i: int| 0 <= i < b.len() implies b[i] == 0 by {
                if i > 0 {
                    assert(t[i - 1] == b[i]);
                }
            }
        }
        if forall|i: int| 0 <= i < b.len() ==> b[i] == 0 {
            assert forall|i: int| 0 <= i < t.len() implies t[i] == 0 by {
                assert(t[i] == b[i + 1]);
            }
        }
    }
}

/// Whether two's-complement little-endian bytes hold a positive integer.
pub fn is_positive_bytes(b: &[u8]) -> (r: bool)
    ensures
        r == (int_value(b@) > 0),
{
    let n = b.len();
    if n == 0 {
        return false;
    }
    if b[n - 1] >= 128 {
        proof {
            lemma_unsigned_le_bound(b@);
        }
        return false;
    }
    let mut i: usize = 0;
    while i < n
        invariant
            n == b@.len(),
            n > 0,
            b@[n - 1] < 128,
            i <= n,
            forall|j: int| 0 <= j < i ==> b@[j] == 0,
        decreases n - i,
    {
        if b[i] != 0 {
            proof {
                lemma_unsigned_le_zero(b@);
                assert(b@[i as int] != 0);
            }
            return true;
        }
        i = i + 1;
    }
    proof {
        lemma_unsigned_le_zero(b@);
    }
    false
}

} // verus!
