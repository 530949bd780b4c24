//! Unsigned numbers held as little-endian byte strings, and the big-number
//! operations the name accumulator needs.

use vstd::prelude::*;
use vstd::arithmetic::power::{pow, lemma_pow_increases};
use vstd::arithmetic::mul::lemma_mul_inequality;

use num_bigint_dig::BigUint;

verus! {

/// The number that a little-endian byte string denotes.
pub open spec fn le_value(b: Seq<u8>) -> nat
    decreases b.len(),
{
    if b.len() == 0 {
        0
    } else {
        b[0] as nat + 256 * le_value(b.drop_first())
    }
}

/// A byte string with no trailing zero byte, or the single byte 0.
pub open spec fn is_minimal_le(b: Seq<u8>) -> bool {
    b.len() >= 1 && (b.len() == 1 || b.last() != 0)
}

/// Whether a number passes the probabilistic primality test with 20 rounds.
pub uninterp spec fn probably_prime_of(b: Seq<u8>) -> bool;

/// Relies on `BigUint::modpow` (with `BigUint::from_bytes_le` and
/// `BigUint::to_bytes_le`): `base` to the power `exponent`, modulo `modulus`,
/// in the minimal little-endian form. `modpow` panics on a zero modulus.
#[verifier::external_body]
pub(crate) fn modpow_le(base: &[u8], exponent: &[u8], modulus: &[u8]) -> (r: Vec<u8>)
    requires
        le_value(modulus@) > 0,
    ensures
        le_value(r@) == pow(le_value(base@) as int, le_value(exponent@)) % (le_value(modulus@) as int),
        is_minimal_le(r@),
{
    let b = BigUint::from_bytes_le(base);
    let e = BigUint::from_bytes_le(exponent);
    let m = BigUint::from_bytes_le(modulus);
    b.modpow(&e, &m).to_bytes_le()
}

/// Relies on `num_bigint_dig::prime::probably_prime` with 20 rounds, on the
/// number read by `BigUint::from_bytes_le`.
#[verifier::external_body]
pub(crate) fn probably_prime_le(b: &[u8]) -> (r: bool)
    ensures
        r == probably_prime_of(b@),
{
    num_bigint_dig::prime::probably_prime(&BigUint::from_bytes_le(b), 20)
}

pub proof fn lemma_le_bound(b: Seq<u8>)
    ensures
        le_value(b) < pow(256, b.len()),
    decreases b.len(),
{
    if b.len() == 0 {
        reveal(pow);
    } else {
        lemma_le_bound(b.drop_first());
        reveal(pow);
        assert(pow(256, b.len()) == 256 * pow(256, (b.len() - 1) as nat));
        assert(le_value(b.drop_first()) + 1 <= pow(256, (b.len() - 1) as nat));
        lemma_mul_inequality((le_value(b.drop_first()) + 1) as int, pow(256, (b.len() - 1) as nat), 256);
    }
}

pub proof fn lemma_le_minimal_lower(b: Seq<u8>)
    requires
        b.len() >= 1,
        b.last() != 0,
    ensures
        le_value(b) >= pow(256, (b.len() - 1) as nat),
    decreases b.len(),
{
    reveal(pow);
    if b.len() == 1 {
        assert(b.drop_first().len() == 0);
        assert(b[0] == b.last());
    } else {
        let rest = b.drop_first();
        assert(rest.last() == b.last());
        lemma_le_minimal_lower(rest);
        assert(pow(256, (b.len() - 1) as nat) == 256 * pow(256, (b.len() - 2) as nat));
        lemma_mul_inequality(pow(256, (b.len() - 2) as nat), le_value(rest) as int, 256);
    }
}

/// A minimal form of a number below `256^n` has at most `n` bytes.
pub proof fn lemma_minimal_len(b: Seq<u8>, n: nat)
    requires
        is_minimal_le(b),
        n >= 1,
        le_value(b) < pow(256, n),
    ensures
        b.len() <= n,
{
    if b.len() > n {
        lemma_le_minimal_lower(b);
        lemma_pow_increases(256, n, (b.len() - 1) as nat);
    }
}

pub proof fn lemma_le_zeros(n: nat)
    ensures
        le_value(Seq::new(n, |i: int| 0u8)) == 0,
    decreases n,
{
    if n > 0 {
        assert(Seq::new(n, |i: int| 0u8).drop_first() =~= Seq::new((n - 1) as nat, |i: int| 0u8));
        lemma_le_zeros((n - 1) as nat);
    }
}

/// Zero bytes at the end do not change the number.
pub proof fn lemma_le_pad(b: Seq<u8>, n: nat)
    ensures
        le_value(b + Seq::new(n, |i: int| 0u8)) == le_value(b),
    decreases b.len(),
{
    let z = Seq::new(n, |i: int| 0u8);
    if b.len() == 0 {
        assert(b + z =~= z);
        lemma_le_zeros(n);
    } else {
        assert((b + z).drop_first() =~= b.drop_first() + z);
        lemma_le_pad(b.drop_first(), n);
    }
}

/// Two byte strings of one length that denote the same number are equal.
pub proof fn lemma_le_injective(a: Seq<u8>, b: Seq<u8>)
    requires
        a.len() == b.len(),
        le_value(a) == le_value(b),
    ensures
        a == b,
    decreases a.len(),
{
    if a.len() > 0 {
        let x = le_value(a.drop_first()) as int;
        let y = le_value(b.drop_first()) as int;
        let a0 = a[0] as int;
        let b0 = b[0] as int;
        assert(a0 == b0 && x == y) by (nonlinear_arith)
            requires a0 + 256 * x == b0 + 256 * y, 0 <= a0 < 256, 0 <= b0 < 256, x >= 0, y >= 0;
        lemma_le_injective(a.drop_first(), b.drop_first());
        assert(a =~= b) by {
            assert forall|i: int| 0 <= i < a.len() implies a[i] == b[i] by {
                if i > 0 {
                    assert(a[i] == a.drop_first()[i - 1]);
                    assert(b[i] == b.drop_first()[i - 1]);
                }
            }
        }
    } else {
        assert(a =~= b);
    }
}

/// The number is positive when its lowest byte is.
pub proof fn lemma_le_low_byte(b: Seq<u8>)
    requires
        b.len() >= 1,
    ensures
        le_value(b) >= b[0] as nat,
{
}

/// Extends a little-endian number with zero bytes up to `n` bytes.
pub fn pad_le(v: &mut Vec<u8>, n: usize)
    requires
        old(v)@.len() <= n,
    ensures
        final(v)@.len() == n,
        le_value(final(v)@) == le_value(old(v)@),
        final(v)@ == old(v)@ + Seq::new((n - old(v)@.len()) as nat, |i: int| 0u8),
{
    let ghost start = v@;
    while v.len() < n
        invariant
            start.len() <= v@.len() <= n,
            v@ == start + Seq::new((v@.len() - start.len()) as nat, |i: int| 0u8),
        decreases n - v@.len(),
    {
        v.push(0u8);
        assert(v@ =~= start + Seq::new((v@.len() - start.len()) as nat, |i: int| 0u8));
    }
    proof { lemma_le_pad(start, (n - start.len()) as nat); }
}

} // verus!
