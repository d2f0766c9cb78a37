//! Trusted view of the arbitrary-precision unsigned integers of crypto-bigint.
//!
//! A `BoxedUint` is opaque to the verifier; `uval` names the numeric value it
//! holds, independent of its representation width, and each wrapper below
//! states over `uval` what the called crypto-bigint operation computes.
use vstd::prelude::*;

use crypto_bigint::BoxedUint;
use crypto_bigint::{ConcatenatingMul, Gcd, Integer, NonZero, Odd, RandomMod, Resize};

verus! {

#[verifier::external_type_specification]
#[verifier::external_body]
pub struct ExBoxedUint(BoxedUint);

/// The numeric value an arbitrary-precision integer holds.
pub uninterp spec fn uval(x: BoxedUint) -> nat;

/// The numeric values a sequence of arbitrary-precision integers holds.
pub open spec fn uvals(s: Seq<BoxedUint>) -> Seq<nat> {
    s.map_values(|x: BoxedUint| uval(x))
}

/// The greatest common divisor, by Euclid's recursion.
pub open spec fn spec_gcd(a: nat, b: nat) -> nat
    decreases b,
{
    if b == 0 {
        a
    } else {
        spec_gcd(b, a % b)
    }
}

/// `x ^ e mod n`, the one-layer cipher transformation.
pub open spec fn pow_mod_spec(x: nat, e: nat, n: nat) -> nat
    recommends
        n > 0,
{
    (vstd::arithmetic::power::pow(x as int, e) % (n as int)) as nat
}

/// Relies on `BoxedUint::from(u64)`: builds the integer with that value.
#[verifier::external_body]
pub(crate) fn uint_from_u64(v: u64) -> (r: BoxedUint)
    ensures
        uval(r) == v as nat,
{
    BoxedUint::from(v)
}

/// Relies on `BoxedUint::clone`: the copy holds the same value.
pub assume_specification [<BoxedUint as Clone>::clone](x: &BoxedUint) -> (r: BoxedUint)
    ensures
        uval(r) == uval(*x),
;

/// Relies on `crypto_bigint::Integer::is_odd`.
#[verifier::external_body]
pub(crate) fn uint_is_odd(x: &BoxedUint) -> (r: bool)
    ensures
        r == (uval(*x) % 2 == 1),
{
    x.is_odd().to_bool()
}

/// Relies on `BoxedUint::is_one`.
#[verifier::external_body]
pub(crate) fn uint_is_one(x: &BoxedUint) -> (r: bool)
    ensures
        r == (uval(*x) == 1),
{
    x.is_one().to_bool()
}

/// Relies on the value comparison of `BoxedUint` (`Ord`), which compares
/// numeric values even across representation widths.
#[verifier::external_body]
pub(crate) fn uint_lt(a: &BoxedUint, b: &BoxedUint) -> (r: bool)
    ensures
        r == (uval(*a) < uval(*b)),
{
    a < b
}

/// Relies on `BoxedUint::concatenating_mul`: the full product, widened so it
/// cannot wrap.
#[verifier::external_body]
pub(crate) fn uint_mul(a: &BoxedUint, b: &BoxedUint) -> (r: BoxedUint)
    ensures
        uval(r) == uval(*a) * uval(*b),
{
    a.concatenating_mul(b)
}

/// Relies on `BoxedUint::wrapping_sub`, which is exact when no borrow occurs;
/// the precondition rules a borrow out.
#[verifier::external_body]
pub(crate) fn uint_sub(a: &BoxedUint, b: &BoxedUint) -> (r: BoxedUint)
    requires
        uval(*b) <= uval(*a),
    ensures
        uval(r) == uval(*a) - uval(*b),
{
    let w = a.bits_precision().max(b.bits_precision());
    let aw = a.resize(w);
    let bw = b.resize(w);
    aw.wrapping_sub(&bw)
}

/// Relies on `BoxedUint::rem` and `BoxedUint::pow_mod`: reduces the operand
/// into `[0, n)` at the modulus precision, then raises it to the exponent in
/// Montgomery form. This is modular exponentiation for an odd modulus.
#[verifier::external_body]
pub(crate) fn uint_pow_mod(base: &BoxedUint, exp: &BoxedUint, n: &BoxedUint) -> (r: BoxedUint)
    requires
        uval(*n) % 2 == 1,
        uval(*n) > 1,
    ensures
        uval(r) == pow_mod_spec(uval(*base), uval(*exp), uval(*n)),
        uval(r) < uval(*n),
{
    let n_odd = Odd::new(n.clone()).expect("modulus is odd");
    let w = base.bits_precision().max(n.bits_precision());
    let wide = base.resize(w);
    let reduced = wide.rem(n_odd.as_nz_ref()).resize(n.bits_precision());
    reduced.pow_mod(exp, &n_odd)
}

/// Relies on `BoxedUint::invert_mod`: the multiplicative inverse modulo `m`
/// when one exists — that is, exactly when the operand is coprime with `m` —
/// and `None` when it does not.
#[verifier::external_body]
pub(crate) fn uint_inv_mod(x: &BoxedUint, m: &BoxedUint) -> (r: Option<BoxedUint>)
    requires
        uval(*m) > 1,
    ensures
        match r {
            Some(d) => uval(d) < uval(*m) && (uval(*x) * uval(d)) % uval(*m) == 1,
            None => spec_gcd(uval(*x), uval(*m)) != 1,
        },
{
    let w = x.bits_precision().max(m.bits_precision());
    let xw = x.resize(w);
    let mw = m.resize(w);
    let m_nz = NonZero::new(mw).expect("modulus is nonzero");
    xw.invert_mod(&m_nz).into_option()
}

/// Relies on `crypto_bigint::Gcd::gcd_vartime` for `BoxedUint`: the greatest
/// common divisor of the two values.
#[verifier::external_body]
pub(crate) fn uint_gcd(a: &BoxedUint, b: &BoxedUint) -> (r: BoxedUint)
    ensures
        uval(r) == spec_gcd(uval(*a), uval(*b)),
{
    let w = a.bits_precision().max(b.bits_precision());
    let aw = a.resize(w);
    let bw = b.resize(w);
    aw.gcd_vartime(&bw)
}

/// Relies on `crypto_bigint::RandomMod::random_mod_vartime` with the system's
/// secure random source: a value below the modulus. Nothing more can be
/// promised of a random draw.
#[verifier::external_body]
pub(crate) fn uint_random_below(m: &BoxedUint) -> (r: BoxedUint)
    requires
        uval(*m) > 0,
    ensures
        uval(r) < uval(*m),
{
    let m_nz = NonZero::new(m.clone()).expect("modulus is nonzero");
    let mut rng = getrandom::rand_core::UnwrapErr(getrandom::SysRng);
    BoxedUint::random_mod_vartime(&mut rng, &m_nz)
}

/// Relies on `BoxedUint::as_words`: the little-endian word array of the value,
/// whose first word is the whole value when it fits in one word.
#[verifier::external_body]
pub(crate) fn uint_low_u64(x: &BoxedUint) -> (r: u64)
    requires
        uval(*x) < 0x1_0000_0000_0000_0000,
    ensures
        r as nat == uval(*x),
{
    x.as_words().first().copied().unwrap_or(0)
}

/// Relies on `slice::sort_unstable` with the value ordering of `BoxedUint`:
/// the result is a permutation of the input.
#[verifier::external_body]
pub(crate) fn sort_uints(v: &mut Vec<BoxedUint>)
    ensures
        final(v)@.len() == old(v)@.len(),
        uvals(final(v)@).to_multiset() == uvals(old(v)@).to_multiset(),
{
    v.sort_unstable();
}

/// A prime: at least 2, with no divisor strictly between 1 and itself.
pub open spec fn is_prime_nat(p: nat) -> bool {
    p >= 2 && forall|d: nat| 1 < d < p ==> #[trigger] (p % d) != 0
}

/// Relies on `crypto_primes::random_prime` with `Flavor::Safe` and the
/// system's secure random source: a safe prime with exactly `bits` bits, its
/// top bit set. Every prime of three or more bits is odd and at least 5.
#[verifier::external_body]
pub(crate) fn uint_random_safe_prime(bits: u32) -> (r: BoxedUint)
    requires
        bits >= 3,
    ensures
        is_prime_nat(uval(r)),
        vstd::arithmetic::power2::pow2((bits - 1) as nat) <= uval(r) < vstd::arithmetic::power2::pow2(bits as nat),
        uval(r) % 2 == 1,
        uval(r) >= 5,
{
    let mut rng = getrandom::rand_core::UnwrapErr(getrandom::SysRng);
    crypto_primes::random_prime(&mut rng, crypto_primes::Flavor::Safe, bits)
}

} // verus!
