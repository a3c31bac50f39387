use crypto_primitives::rsa::{modpow, search_d, search_e, Key, PublicKey, MAX_PRIME};

fn gcd(a: u64, b: u64) -> u64 {
    if b == 0 {
        a
    } else {
        gcd(b, a % b)
    }
}

fn smallest_factor(n: u64) -> u64 {
    let mut d = 2;
    while d * d <= n {
        if n % d == 0 {
            return d;
        }
        d += 1;
    }
    n
}

#[test]
fn modpow_matches_known_values() {
    assert_eq!(modpow(4, 13, 497), 445);
    assert_eq!(modpow(2, 10, 1000), 24);
    assert_eq!(modpow(65, 17, 3233), 2790);
    assert_eq!(modpow(2790, 2753, 3233), 65);
}

#[test]
fn modpow_reduces_the_base_first() {
    assert_eq!(modpow(497 * 3 + 4, 13, 497), 445);
    assert_eq!(modpow(u64::MAX, 1, 10), 5);
}

#[test]
fn modpow_with_exponent_zero_is_one_reduced() {
    assert_eq!(modpow(0, 0, 5), 1);
    assert_eq!(modpow(7, 0, 13), 1);
    assert_eq!(modpow(7, 0, 2), 1);
    assert_eq!(modpow(u64::MAX, 0, u64::MAX), 1);
}

#[test]
fn modpow_with_modulus_one_is_zero() {
    assert_eq!(modpow(7, 0, 1), 0);
    assert_eq!(modpow(5, 0, 1), 0);
    assert_eq!(modpow(0, 0, 1), 0);
    assert_eq!(modpow(7, 1, 1), 0);
    assert_eq!(modpow(7, 2, 1), 0);
    assert_eq!(modpow(0, 5, 1), 0);
}

#[test]
fn modpow_of_zero_and_one() {
    assert_eq!(modpow(0, 3, 7), 0);
    assert_eq!(modpow(1, u64::MAX, 7), 1);
}

#[test]
fn modpow_handles_moduli_beyond_32_bits() {
    assert_eq!(modpow((1 << 63) + 5, 3, u64::MAX - 58), 16140901064495898676);
    assert_eq!(
        modpow(12345678901234567890, 18446744073709551557, u64::MAX),
        1706683771030184040
    );
}

#[test]
fn search_d_finds_the_least_inverse() {
    assert_eq!(search_d(17, 3120), 2753);
    assert_eq!(search_d(3, 4), 3);
    assert_eq!(search_d(7, 40), 23);
    assert_eq!(search_d(1, 2), 1);
}

#[test]
fn search_d_result_is_an_inverse() {
    let d = search_d(5, 7926 * 7932);
    assert_eq!(d, 25147613);
    assert_eq!((5 * d) % (7926 * 7932), 1);
}

#[test]
fn search_e_returns_a_coprime_number_in_range() {
    for z in [3u64, 4, 5, 12, 3120, 7926 * 7932, 2 * 3 * 5 * 7 * 11 * 13] {
        for _ in 0..50 {
            let e = search_e(z);
            assert!(1 < e && e < z);
            assert_eq!(gcd(e, z), 1);
        }
    }
}

#[test]
fn search_e_with_a_single_candidate() {
    assert_eq!(search_e(3), 2);
    assert_eq!(search_e(4), 3);
    assert_eq!(search_e(6), 5);
}

#[test]
fn search_e_draws_different_exponents() {
    let first = search_e(3120);
    let mut differs = false;
    for _ in 0..200 {
        if search_e(3120) != first {
            differs = true;
        }
    }
    assert!(differs);
}

#[test]
fn key_for_the_textbook_primes() {
    let key = Key::from_primes_and_exponent(61, 53, 17);
    assert_eq!(key.private_key(), (3233, 2753));
    let public_key = key.public_key();
    assert_eq!(public_key.encrypt(65), 2790);
    assert_eq!(key.decrypt(2790), 65);
}

#[test]
fn key_for_the_smallest_primes() {
    let key = Key::from_primes_and_exponent(2, 5, 3);
    assert_eq!(key.private_key(), (10, 3));
    let key = Key::from_primes_and_exponent(3, 5, 3);
    assert_eq!(key.private_key(), (15, 3));
    let key = Key::from_primes_and_exponent(5, 3, 7);
    assert_eq!(key.private_key(), (15, 7));
}

#[test]
fn encrypt_inverts_decrypt_for_every_ciphertext() {
    let key = Key::from_primes_and_exponent(61, 53, 17);
    let public_key = key.public_key();
    for c in 0..3233 {
        assert_eq!(public_key.encrypt(key.decrypt(c)), c);
    }
}

#[test]
fn round_trip_of_multiples_of_a_prime() {
    let key = Key::from_primes_and_exponent(61, 53, 17);
    let public_key = key.public_key();
    for m in [0u64, 53, 61, 2 * 53, 3 * 61, 52 * 61, 60 * 53] {
        assert_eq!(key.decrypt(public_key.encrypt(m)), m);
    }
}

#[test]
fn decrypt_inverts_encrypt_for_every_message() {
    let key = Key::from_primes_and_exponent(61, 53, 17);
    let public_key = key.public_key();
    for m in 0..3233 {
        assert_eq!(key.decrypt(public_key.encrypt(m)), m);
    }
}

#[test]
fn decrypt_inverts_encrypt_with_a_searched_exponent() {
    let key = Key::from_primes(7927, 8831);
    let (n, d) = key.private_key();
    assert_eq!(n, 7927 * 8831);
    assert!(d >= 1 && d < 7926 * 8830);
    let public_key = key.public_key();
    for m in [0u64, 1, 2, 7927, 8831, 10000, n - 1] {
        assert_eq!(key.decrypt(public_key.encrypt(m)), m);
    }
}

#[test]
fn public_key_with_modulus_one_encrypts_to_zero() {
    assert_eq!(PublicKey::new(1, 0).encrypt(5), 0);
    assert_eq!(PublicKey::new(1, 3).encrypt(5), 0);
}

#[test]
fn public_key_encrypts_with_its_own_parts() {
    let public_key = PublicKey::new(3233, 17);
    assert_eq!(public_key.encrypt(65), 2790);
    assert_eq!(public_key.encrypt(10000), 1053);
    assert_eq!(public_key.encrypt(10000), modpow(10000, 17, 3233));
}

#[test]
fn public_key_of_a_key_shares_modulus_and_exponent() {
    let key = Key::from_primes_and_exponent(61, 53, 7);
    let (n, d) = key.private_key();
    assert_eq!(n, 3233);
    assert_eq!((7 * d) % 3120, 1);
    assert_eq!(key.public_key().encrypt(2), modpow(2, 7, 3233));
}

#[test]
fn generated_key_is_built_from_two_primes_of_the_range() {
    for _ in 0..3 {
        let key = Key::generate().expect("the primes of the range are small");
        let (n, d) = key.private_key();
        let p = smallest_factor(n);
        let q = n / p;
        assert_eq!(p * q, n);
        assert_eq!(smallest_factor(q), q);
        assert!(7927 <= p && p < q && q <= 8831);
        assert!(q <= MAX_PRIME);
        assert!(d >= 1 && d < (p - 1) * (q - 1));
    }
}

#[test]
fn generated_key_round_trips() {
    for _ in 0..3 {
        let key = Key::generate().expect("the primes of the range are small");
        let (n, _) = key.private_key();
        let p = smallest_factor(n);
        let public_key = key.public_key();
        for message in [10000u64, 0, 1, p, n / p, 3 * p, n - 1] {
            let c = public_key.encrypt(message);
            assert_eq!(key.decrypt(c), message);
            assert_eq!(public_key.encrypt(key.decrypt(message)), message);
        }
    }
}

#[test]
fn generated_modulus_is_no_square() {
    for _ in 0..10 {
        let (n, _) = Key::generate().expect("the primes of the range are small").private_key();
        let p = smallest_factor(n);
        assert_ne!(p * p, n);
    }
}

#[test]
fn generated_keys_differ() {
    let first = Key::generate().expect("the primes of the range are small").private_key();
    let mut differs = false;
    for _ in 0..5 {
        if Key::generate().expect("the primes of the range are small").private_key() != first {
            differs = true;
        }
    }
    assert!(differs);
}
