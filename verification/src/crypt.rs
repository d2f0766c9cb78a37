//! Commutative encryption: per-player keypairs over a shared modulus, and the
//! cipher `x ^ e mod n` whose layers from different keys commute.
use vstd::prelude::*;

use crate::Error;
use crate::bignum::{
    is_prime_nat, pow_mod_spec, uint_gcd, uint_inv_mod, uint_is_odd, uint_is_one, uint_lt,
    uint_mul, uint_pow_mod, uint_random_below, uint_random_safe_prime, uint_sub, uint_from_u64,
    uval,
};
use crypto_bigint::BoxedUint;

verus! {

/// Euler's totient of `n = p * q` for primes `p`, `q`.
pub open spec fn phi_of(p: nat, q: nat) -> nat
    recommends
        p >= 1,
        q >= 1,
{
    (p - 1) as nat * (q - 1) as nat
}

/// A player's keypair for one round: encryption exponent `e`, decryption
/// exponent `d`, and the round's shared modulus `n`. The exponents are private
/// to the player and never appear on the wire.
#[derive(Debug)]
pub struct Key {
    e: BoxedUint,
    d: BoxedUint,
    n: BoxedUint,
}

impl Key {
    /// The value of the encryption exponent.
    pub closed spec fn e_val(&self) -> nat {
        uval(self.e)
    }

    /// The value of the decryption exponent.
    pub closed spec fn d_val(&self) -> nat {
        uval(self.d)
    }

    /// The value of the shared modulus.
    pub closed spec fn n_val(&self) -> nat {
        uval(self.n)
    }

    /// A usable key carries an odd modulus greater than 1.
    pub open spec fn wf(&self) -> bool {
        self.n_val() % 2 == 1 && self.n_val() > 1
    }

    /// The shared modulus, as every cipher call needs it.
    pub fn modulus(&self) -> (r: &BoxedUint)
        ensures
            uval(*r) == self.n_val(),
    {
        &self.n
    }

    /// Disclose the decryption exponent, as the reveal sub-protocol does once
    /// a key request has passed the ownership check.
    pub fn reveal_exponent(&self) -> (r: BoxedUint)
        ensures
            uval(r) == self.d_val(),
    {
        self.d.clone()
    }

    /// Assemble a keypair from a modulus and a pair of exponents; an even or
    /// trivial modulus is rejected with `InvalidModulus`.
    pub fn new(n: BoxedUint, e: BoxedUint, d: BoxedUint) -> (r: Result<Key, Error>)
        ensures
            match r {
                Ok(k) => k.wf() && k.n_val() == uval(n) && k.e_val() == uval(e) && k.d_val()
                    == uval(d),
                Err(er) => er == Error::InvalidModulus && (uval(n) % 2 == 0 || uval(n) <= 1),
            },
    {
        if !uint_is_odd(&n) || uint_is_one(&n) {
            return Err(Error::InvalidModulus);
        }
        Ok(Key { e, d, n })
    }
}

/// Derive a fresh keypair over the shared modulus `n = p * q`: draw `e` at
/// random below `phi = (p - 1) * (q - 1)` until it is coprime with `phi`
/// (retrying is normal, not an error), then set `d` to the inverse of `e`
/// modulo `phi`. Only a non-invertible draw — which valid prime inputs never
/// produce — is reported as `InvalidModulus`.
pub fn gen_sra_key(p: &BoxedUint, q: &BoxedUint) -> (r: Result<Key, Error>)
    requires
        uval(*p) % 2 == 1,
        uval(*q) % 2 == 1,
        uval(*p) >= 3,
        uval(*q) >= 3,
    ensures
        match r {
            Ok(k) => {
                let phi = phi_of(uval(*p), uval(*q));
                &&& k.wf()
                &&& k.n_val() == uval(*p) * uval(*q)
                &&& k.e_val() < phi
                &&& k.d_val() < phi
                &&& (k.e_val() * k.d_val()) % phi == 1
            },
            Err(er) => er == Error::InvalidModulus,
        },
{
    let n = uint_mul(p, q);
    proof {
        lemma_odd_product(uval(*p), uval(*q));
    }
    let one = uint_from_u64(1);
    let p1 = uint_sub(p, &one);
    let q1 = uint_sub(q, &one);
    let phi = uint_mul(&p1, &q1);
    proof {
        vstd::arithmetic::mul::lemma_mul_inequality(
            2,
            (uval(*p) - 1) as int,
            (uval(*q) - 1) as int,
        );
    }
    let mut e = uint_random_below(&phi);
    let mut g = uint_gcd(&e, &phi);
    let mut budget: u64 = 1_000_000_000;
    while !uint_is_one(&g) && budget > 0
        invariant
            uval(phi) == phi_of(uval(*p), uval(*q)),
            uval(phi) > 1,
            uval(e) < uval(phi),
            uval(g) == crate::bignum::spec_gcd(uval(e), uval(phi)),
        decreases budget,
    {
        e = uint_random_below(&phi);
        g = uint_gcd(&e, &phi);
        budget = budget - 1;
    }
    if !uint_is_one(&g) {
        return Err(Error::InvalidModulus);
    }
    match uint_inv_mod(&e, &phi) {
        None => {
            proof {
                assert(false);
            }
            Err(Error::InvalidModulus)
        },
        Some(d) => {
            proof {
                vstd::arithmetic::div_mod::lemma_mul_mod_noop_general(
                    uval(e) as int,
                    uval(d) as int,
                    uval(phi) as int,
                );
            }
            Key::new(n, e, d)
        },
    }
}

/// The product of two odd numbers at least 3 is odd and greater than 1.
proof fn lemma_odd_product(p: nat, q: nat)
    requires
        p % 2 == 1,
        q % 2 == 1,
        p >= 3,
        q >= 3,
    ensures
        (p * q) % 2 == 1,
        p * q > 1,
{
    vstd::arithmetic::div_mod::lemma_mul_mod_noop_general(p as int, q as int, 2);
    vstd::arithmetic::mul::lemma_mul_inequality(3, p as int, q as int);
}

/// Encrypt one value under a key: `msg ^ e mod n`. An operand at or above the
/// modulus violates the encoding invariant and is rejected with
/// `EncodingOutOfRange`.
pub fn encrypt(msg: &BoxedUint, key: &Key) -> (r: Result<BoxedUint, Error>)
    requires
        key.wf(),
    ensures
        match r {
            Ok(c) => uval(*msg) < key.n_val() && uval(c) == pow_mod_spec(
                uval(*msg),
                key.e_val(),
                key.n_val(),
            ) && uval(c) < key.n_val(),
            Err(er) => er == Error::EncodingOutOfRange && uval(*msg) >= key.n_val(),
        },
{
    if !uint_lt(msg, &key.n) {
        return Err(Error::EncodingOutOfRange);
    }
    Ok(uint_pow_mod(msg, &key.e, &key.n))
}

/// Decrypt one value under a key: `msg ^ d mod n`, removing exactly that
/// key's layer whatever other layers are present.
pub fn decrypt(msg: &BoxedUint, key: &Key) -> (r: Result<BoxedUint, Error>)
    requires
        key.wf(),
    ensures
        match r {
            Ok(c) => uval(*msg) < key.n_val() && uval(c) == pow_mod_spec(
                uval(*msg),
                key.d_val(),
                key.n_val(),
            ) && uval(c) < key.n_val(),
            Err(er) => er == Error::EncodingOutOfRange && uval(*msg) >= key.n_val(),
        },
{
    if !uint_lt(msg, &key.n) {
        return Err(Error::EncodingOutOfRange);
    }
    Ok(uint_pow_mod(msg, &key.d, &key.n))
}

/// Remove one layer with a bare decryption exponent, as the reveal phase does
/// with the exponents other players disclosed.
pub fn strip_layer(msg: &BoxedUint, d: &BoxedUint, n: &BoxedUint) -> (r: Result<BoxedUint, Error>)
    requires
        uval(*n) % 2 == 1,
        uval(*n) > 1,
    ensures
        match r {
            Ok(c) => uval(*msg) < uval(*n) && uval(c) == pow_mod_spec(
                uval(*msg),
                uval(*d),
                uval(*n),
            ) && uval(c) < uval(*n),
            Err(er) => er == Error::EncodingOutOfRange && uval(*msg) >= uval(*n),
        },
{
    if !uint_lt(msg, n) {
        return Err(Error::EncodingOutOfRange);
    }
    Ok(uint_pow_mod(msg, d, n))
}

/// Generate the two secret safe primes of one round, of `bits` bits each:
/// both prime, odd, and with the top bit of their `bits`-bit range set.
pub fn generate_round_primes(bits: u32) -> (r: (BoxedUint, BoxedUint))
    requires
        bits >= 3,
    ensures
        is_prime_nat(uval(r.0)),
        is_prime_nat(uval(r.1)),
        vstd::arithmetic::power2::pow2((bits - 1) as nat) <= uval(r.0) < vstd::arithmetic::power2::pow2(bits as nat),
        vstd::arithmetic::power2::pow2((bits - 1) as nat) <= uval(r.1) < vstd::arithmetic::power2::pow2(bits as nat),
        uval(r.0) % 2 == 1,
        uval(r.0) >= 3,
        uval(r.1) % 2 == 1,
        uval(r.1) >= 3,
{
    let p = uint_random_safe_prime(bits);
    let q = uint_random_safe_prime(bits);
    (p, q)
}

/// Applying the layer `e1` and then the layer `e2` is the same as applying
/// the single layer `e1 * e2`.
pub proof fn lemma_layer_merge(x: nat, e1: nat, e2: nat, n: nat)
    requires
        n > 0,
    ensures
        pow_mod_spec(pow_mod_spec(x, e1, n), e2, n) == pow_mod_spec(x, e1 * e2, n),
{
    let p1 = vstd::arithmetic::power::pow(x as int, e1);
    vstd::arithmetic::power::lemma_pow_mod_noop(p1, e2, n as int);
    vstd::arithmetic::power::lemma_pow_multiplies(x as int, e1, e2);
}

/// Cipher layers over a shared modulus commute: whichever of the two
/// exponents is applied first, the result is the same. Encryption and
/// decryption are both such layers, so encryption layers of different keys
/// can be applied in any order, and a decryption can be interleaved with them
/// in any order as well.
pub proof fn lemma_layers_commute(x: nat, e1: nat, e2: nat, n: nat)
    requires
        n > 0,
    ensures
        pow_mod_spec(pow_mod_spec(x, e1, n), e2, n) == pow_mod_spec(pow_mod_spec(x, e2, n), e1, n),
{
    lemma_layer_merge(x, e1, e2, n);
    lemma_layer_merge(x, e2, e1, n);
    vstd::arithmetic::mul::lemma_mul_is_commutative(e1 as int, e2 as int);
}

/// The exponents `e` and `d` of one key undo one another on every value below
/// the modulus. This is what the key construction `d = e^{-1} mod phi(n)`
/// gives by Euler's theorem for `n = p * q`; the number theory behind it is
/// not reproved here, so the laws below carry it as an explicit hypothesis.
pub open spec fn inverts(e: nat, d: nat, n: nat) -> bool {
    forall|y: nat|
        y < n ==> #[trigger] pow_mod_spec(pow_mod_spec(y, e, n), d, n) == y
}

/// A cipher layer is injective: under an invertible key, equal ciphertexts
/// come only from equal plaintexts.
pub proof fn lemma_layer_injective(y1: nat, y2: nat, e: nat, d: nat, n: nat)
    requires
        n > 0,
        y1 < n,
        y2 < n,
        inverts(e, d, n),
        pow_mod_spec(y1, e, n) == pow_mod_spec(y2, e, n),
    ensures
        y1 == y2,
{
    assert(pow_mod_spec(pow_mod_spec(y1, e, n), d, n) == y1);
    assert(pow_mod_spec(pow_mod_spec(y2, e, n), d, n) == y2);
}

/// Decrypting with one key removes exactly that key's layer, whatever other
/// layer is also present: stripping `d1` from a value carrying the layers
/// `e1` and `e2` leaves exactly the layer `e2`.
pub proof fn lemma_decrypt_removes_layer(x: nat, e1: nat, d1: nat, e2: nat, n: nat)
    requires
        n > 0,
        x < n,
        inverts(e1, d1, n),
    ensures
        pow_mod_spec(pow_mod_spec(pow_mod_spec(x, e1, n), e2, n), d1, n) == pow_mod_spec(
            x,
            e2,
            n,
        ),
{
    lemma_layers_commute(x, e1, e2, n);
    let z = pow_mod_spec(x, e2, n);
    assert(z < n) by {
        vstd::arithmetic::div_mod::lemma_mod_bound(
            vstd::arithmetic::power::pow(x as int, e2),
            n as int,
        );
    }
    assert(pow_mod_spec(pow_mod_spec(z, e1, n), d1, n) == z);
}

/// The round trip of two keys over a shared modulus: encrypting with both
/// keys in either order and then decrypting with both keys in either order
/// recovers the plaintext, provided each key's exponents undo one another.
pub proof fn lemma_two_key_round_trip(x: nat, e1: nat, d1: nat, e2: nat, d2: nat, n: nat)
    requires
        n > 0,
        x < n,
        inverts(e1, d1, n),
        inverts(e2, d2, n),
    ensures
        pow_mod_spec(pow_mod_spec(x, e1, n), e2, n) == pow_mod_spec(pow_mod_spec(x, e2, n), e1, n),
        pow_mod_spec(
            pow_mod_spec(pow_mod_spec(pow_mod_spec(x, e1, n), e2, n), d1, n),
            d2,
            n,
        ) == x,
        pow_mod_spec(
            pow_mod_spec(pow_mod_spec(pow_mod_spec(x, e1, n), e2, n), d2, n),
            d1,
            n,
        ) == x,
{
    lemma_layers_commute(x, e1, e2, n);
    lemma_decrypt_removes_layer(x, e1, d1, e2, n);
    lemma_decrypt_removes_layer(x, e2, d2, e1, n);
    let y1 = pow_mod_spec(x, e1, n);
    let y2 = pow_mod_spec(x, e2, n);
    assert(y1 < n && y2 < n) by {
        vstd::arithmetic::div_mod::lemma_mod_bound(
            vstd::arithmetic::power::pow(x as int, e1),
            n as int,
        );
        vstd::arithmetic::div_mod::lemma_mod_bound(
            vstd::arithmetic::power::pow(x as int, e2),
            n as int,
        );
    }
    assert(pow_mod_spec(pow_mod_spec(y2, e1, n), d1, n) == y2);
    assert(pow_mod_spec(y2, d2, n) == x) by {
        assert(pow_mod_spec(pow_mod_spec(x, e2, n), d2, n) == x);
    }
    assert(pow_mod_spec(pow_mod_spec(y1, e2, n), d2, n) == y1);
    assert(pow_mod_spec(y1, d1, n) == x);
}

} // verus!
