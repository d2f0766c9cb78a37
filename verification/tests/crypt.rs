//! Keys and the commutative cipher.
use crypto_bigint::BoxedUint;
use crypto_primes::Flavor;
use mental_poker::Error;
use mental_poker::crypt::{Key, decrypt, encrypt, gen_sra_key, generate_round_primes, strip_layer};

fn uint(v: u64) -> BoxedUint {
    BoxedUint::from(v)
}

#[test]
fn key_new_rejects_even_or_trivial_modulus() {
    assert!(matches!(
        Key::new(uint(16), uint(3), uint(3)),
        Err(Error::InvalidModulus)
    ));
    assert!(matches!(
        Key::new(uint(1), uint(3), uint(3)),
        Err(Error::InvalidModulus)
    ));
    assert!(Key::new(uint(15), uint(3), uint(3)).is_ok());
}

#[test]
fn small_key_encrypts_and_decrypts_known_values() {
    // n = 3 * 5, phi = 8, e = d = 3 since 3 * 3 = 9 = 1 mod 8.
    let key = Key::new(uint(15), uint(3), uint(3)).unwrap();
    let c = encrypt(&uint(2), &key).unwrap();
    assert_eq!(c, uint(8)); // 2^3 = 8 mod 15
    let p = decrypt(&uint(8), &key).unwrap();
    assert_eq!(p, uint(2)); // 8^3 = 512 = 2 mod 15
    let s = strip_layer(&uint(8), &uint(3), &uint(15)).unwrap();
    assert_eq!(s, uint(2));
}

#[test]
fn operands_at_or_above_the_modulus_are_rejected() {
    let key = Key::new(uint(15), uint(3), uint(3)).unwrap();
    assert!(matches!(
        encrypt(&uint(15), &key),
        Err(Error::EncodingOutOfRange)
    ));
    assert!(matches!(
        decrypt(&uint(99), &key),
        Err(Error::EncodingOutOfRange)
    ));
    assert!(matches!(
        strip_layer(&uint(20), &uint(3), &uint(15)),
        Err(Error::EncodingOutOfRange)
    ));
}

#[test]
fn generated_round_primes_are_odd() {
    let (p, q) = generate_round_primes(64);
    assert!(bool::from(crypto_bigint::Integer::is_odd(&p)));
    assert!(bool::from(crypto_bigint::Integer::is_odd(&q)));
    assert!(crypto_primes::is_prime(Flavor::Safe, &p));
    assert!(crypto_primes::is_prime(Flavor::Safe, &q));
}

#[test]
fn two_keys_over_a_shared_modulus_commute() {
    let mut rng = getrandom::rand_core::UnwrapErr(getrandom::SysRng);
    let p: BoxedUint = crypto_primes::random_prime(&mut rng, Flavor::Any, 128);
    let q: BoxedUint = crypto_primes::random_prime(&mut rng, Flavor::Any, 128);
    let k1 = gen_sra_key(&p, &q).unwrap();
    let k2 = gen_sra_key(&p, &q).unwrap();

    for x in [2u64, 3, 53, 1_000_003] {
        let x = uint(x);
        // Encryption layers commute.
        let c12 = encrypt(&encrypt(&x, &k1).unwrap(), &k2).unwrap();
        let c21 = encrypt(&encrypt(&x, &k2).unwrap(), &k1).unwrap();
        assert_eq!(c12, c21);
        // Both removal orders recover the plaintext.
        let via_12 = decrypt(&decrypt(&c12, &k1).unwrap(), &k2).unwrap();
        let via_21 = decrypt(&decrypt(&c12, &k2).unwrap(), &k1).unwrap();
        assert_eq!(via_12, x);
        assert_eq!(via_21, x);
        // Decrypting with one key removes exactly that key's layer, whatever
        // other layers are present.
        let only_k2 = decrypt(&c12, &k1).unwrap();
        assert_eq!(only_k2, encrypt(&x, &k2).unwrap());
    }
}

#[test]
fn a_sequence_of_layers_collapses_to_one_exponent() {
    // Stripping with 3 and then 5 equals one layer with exponent 15:
    // 2^15 = 32768 = 8 mod 15 ... modulus 17 here to keep layers distinct.
    let n = uint(17);
    let x = uint(2);
    let first = strip_layer(&x, &uint(3), &n).unwrap(); // 2^3 = 8
    let second = strip_layer(&first, &uint(5), &n).unwrap(); // 8^5 mod 17
    let direct = strip_layer(&x, &uint(15), &n).unwrap(); // 2^15 mod 17
    assert_eq!(second, direct);
    // And in the other order.
    let first = strip_layer(&x, &uint(5), &n).unwrap();
    let other = strip_layer(&first, &uint(3), &n).unwrap();
    assert_eq!(other, direct);
}
