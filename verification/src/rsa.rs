//! Textbook RSA: key generation from two small primes, encryption and
//! decryption by modular exponentiation.

use crate::divisibility::{
    coprime, divides, lemma_divides_combination, lemma_divides_multiple, lemma_divisor_bound,
    lemma_inverse_exists,
};
use crate::factorization::{
    lemma_coprime_by_factors, lists_prime_factors, prime_factors, share_no_entry,
};
use crate::fermat::lemma_fermat_little;
use crate::goldilocks::{
    field_from_u64, field_mul, field_one, field_sub, lemma_residue_small, GOLDILOCKS_ORDER,
};
use crate::primes::{
    is_nth_prime, is_prime, lemma_distinct_primes_divide, lemma_nth_prime_lower_bound, nth_prime,
};
use crate::random::random_in_range;
use vstd::arithmetic::div_mod::*;
use vstd::arithmetic::mul::*;
use vstd::arithmetic::power::*;
use vstd::prelude::*;

verus! {

/// The first index of the range that key generation draws its primes from.
pub const PRIME_INDEX_START: u64 = 1000;

/// The end of that range; the index itself is not drawn.
pub const PRIME_INDEX_END: u64 = 1100;

/// The largest prime that key generation works with: with both primes up to
/// here, every product in the key's arithmetic stays below the order of the
/// field it is computed in.
pub const MAX_PRIME: u64 = 0xFFFF;

/// How many random candidates `search_e` tries before it settles for the
/// largest exponent, `z - 1`.
pub const EXPONENT_TRIALS: u64 = 0x1_0000_0000;

/// A key pair: the modulus with the public and the private exponent.
pub struct Key {
    n: u64,
    e: u64,
    d: u64,
}

/// The public half of a key pair.
pub struct PublicKey {
    n: u64,
    e: u64,
}

/// What a `Key` stands for.
pub ghost struct KeyModel {
    pub n: nat,
    pub e: nat,
    pub d: nat,
}

/// What a `PublicKey` stands for.
pub ghost struct PublicKeyModel {
    pub n: nat,
    pub e: nat,
}

impl View for Key {
    type V = KeyModel;

    closed spec fn view(&self) -> KeyModel {
        KeyModel { n: self.n as nat, e: self.e as nat, d: self.d as nat }
    }
}

impl View for PublicKey {
    type V = PublicKeyModel;

    closed spec fn view(&self) -> PublicKeyModel {
        PublicKeyModel { n: self.n as nat, e: self.e as nat }
    }
}

/// Euler's totient of the product of two different primes `p` and `q`:
/// `(p - 1) * (q - 1)`.
pub open spec fn totient(p: int, q: int) -> int {
    (p - 1) * (q - 1)
}

/// `e * d` is congruent to 1 modulo `z`.
pub open spec fn is_inverse(d: int, e: int, z: int) -> bool {
    (e * d) % z == 1
}

/// `d` is the least positive number with `e * d` congruent to 1 modulo `z`.
pub open spec fn is_least_inverse(d: int, e: int, z: int) -> bool {
    &&& d >= 1
    &&& is_inverse(d, e, z)
    &&& forall|k: int| 1 <= k < d ==> !#[trigger] is_inverse(k, e, z)
}

impl KeyModel {
    /// The key is one for the two different primes `p` and `q`: its modulus
    /// is their product, its public exponent lies strictly between 1 and the
    /// totient and is coprime to it, and its private exponent is the least
    /// inverse of the public one modulo the totient.
    pub open spec fn built_from(self, p: int, q: int) -> bool {
        &&& is_prime(p)
        &&& is_prime(q)
        &&& p != q
        &&& self.n == p * q
        &&& 1 < self.e < totient(p, q)
        &&& coprime(self.e as int, totient(p, q))
        &&& is_least_inverse(self.d as int, self.e as int, totient(p, q))
    }

    /// The key is one for some pair of different primes. Every `Key` is.
    pub open spec fn well_formed(self) -> bool {
        exists|p: int, q: int| #[trigger] self.built_from(p, q)
    }

    /// The public half.
    pub open spec fn public(self) -> PublicKeyModel {
        PublicKeyModel { n: self.n, e: self.e }
    }
}

/// `base` to the power `exp`, reduced modulo `modulus`.
pub open spec fn mod_exp(base: nat, exp: nat, modulus: nat) -> nat {
    (pow(base as int, exp) % (modulus as int)) as nat
}

/// The residue that a square-and-multiply run stands for: the accumulated
/// `result` times the power of `base` still to be applied.
spec fn pending(result: int, base: int, exp: nat, modulus: int) -> int {
    (result * pow(base, exp)) % modulus
}

/// Moving one low bit of the exponent into the accumulator, then squaring the
/// base and halving the exponent, leaves the pending residue unchanged.
proof fn lemma_square_and_multiply_step(result: int, base: int, exp: nat, modulus: int)
    requires
        modulus > 0,
        exp > 0,
    ensures
        exp % 2 == 1 ==> pending((result * base) % modulus, (base * base) % modulus, exp / 2, modulus)
            == pending(result, base, exp, modulus),
        exp % 2 == 0 ==> pending(result, (base * base) % modulus, exp / 2, modulus) == pending(
            result,
            base,
            exp,
            modulus,
        ),
{
    let half = exp / 2;
    let sq = base * base;
    // squaring the base and halving the exponent keeps the power
    lemma_pow_mod_noop(sq, half, modulus);
    lemma_square_is_pow2(base);
    lemma_pow_multiplies(base, 2, half);
    assert(pow(sq, half) == pow(base, 2 * half));
    let tail = pow(base, 2 * half);
    if exp % 2 == 0 {
        assert(2 * half == exp);
        lemma_mul_mod_noop_right(result, pow(sq % modulus, half), modulus);
        lemma_mul_mod_noop_right(result, tail, modulus);
    } else {
        assert(2 * half + 1 == exp);
        lemma_pow_adds(base, 1, 2 * half);
        lemma_pow1(base);
        assert(pow(base, exp) == base * tail);
        let acc = (result * base) % modulus;
        lemma_mul_mod_noop_right(acc, pow(sq % modulus, half), modulus);
        lemma_mul_mod_noop_right(acc, tail, modulus);
        lemma_mul_mod_noop_left(result * base, tail, modulus);
        lemma_mul_is_associative(result, base, tail);
    }
}

/// Modular exponentiation by repeated squaring.
pub fn modpow(base: u64, exp: u64, modulus: u64) -> (r: u64)
    requires
        modulus > 0,
    ensures
        r == mod_exp(base as nat, exp as nat, modulus as nat),
{
    let m: u128 = modulus as u128;
    let mut result: u128 = 1 % m;
    let mut b: u128 = (base % modulus) as u128;
    let mut e: u64 = exp;
    proof {
        lemma_pow_mod_noop(base as int, exp as nat, modulus as int);
        lemma_mul_mod_noop_left(1, pow(b as int, e as nat), m as int);
        lemma_mul_basics(pow(b as int, e as nat));
    }
    while e > 0
        invariant
            m == modulus,
            modulus > 0,
            b < m,
            result < m,
            pending(result as int, b as int, e as nat, m as int) == pow(base as int, exp as nat) % (
            m as int),
        decreases e,
    {
        proof {
            lemma_square_and_multiply_step(result as int, b as int, e as nat, m as int);
            lemma_mul_upper_bound(result as int, m as int, b as int, m as int);
            lemma_mul_upper_bound(b as int, m as int, b as int, m as int);
            lemma_mul_upper_bound(m as int, u64::MAX as int, m as int, u64::MAX as int);
        }
        if e % 2 == 1 {
            result = (result * b) % m;
        }
        b = (b * b) % m;
        e = e / 2;
    }
    proof {
        lemma_pow0(b as int);
        lemma_mul_basics(result as int);
        lemma_small_mod(result as nat, m as nat);
    }
    result as u64
}

impl PublicKey {
    /// The public key with modulus `n` and exponent `e`.
    pub fn new(n: u64, e: u64) -> (r: Self)
        ensures
            r@ == (PublicKeyModel { n: n as nat, e: e as nat }),
    {
        Self { n, e }
    }

    /// Encrypts the message `m`: raises it to the public exponent modulo the
    /// modulus of the key.
    pub fn encrypt(&self, m: u64) -> (c: u64)
        requires
            self@.n > 0,
        ensures
            c == mod_exp(m as nat, self@.e, self@.n),
    {
        modpow(m, self.e, self.n)
    }
}

impl Key {
    #[verifier::type_invariant]
    spec fn holds_primes(self) -> bool {
        self@.well_formed()
    }

    /// Generates a key pair from two different primes drawn at random, each
    /// the prime at an index from `PRIME_INDEX_START` up to, not including,
    /// `PRIME_INDEX_END`. The first index is drawn from the whole range, the
    /// second from the indices that are left.
    ///
    /// The result is `None` only if a prime at one of those indices is
    /// larger than `MAX_PRIME`.
    pub fn generate() -> (r: Option<Self>)
        ensures
            r matches Some(key) ==> exists|p: int, i: nat, q: int, j: nat|
                {
                    &&& PRIME_INDEX_START <= i < PRIME_INDEX_END
                    &&& PRIME_INDEX_START <= j < PRIME_INDEX_END
                    &&& i != j
                    &&& #[trigger] is_nth_prime(p, i)
                    &&& #[trigger] is_nth_prime(q, j)
                    &&& key@.built_from(p, q)
                },
            r is None ==> exists|p: int, i: nat|
                {
                    &&& PRIME_INDEX_START <= i < PRIME_INDEX_END
                    &&& #[trigger] is_nth_prime(p, i)
                    &&& p > MAX_PRIME
                },
    {
        let first = random_in_range(PRIME_INDEX_START, PRIME_INDEX_END);
        let among_the_rest = random_in_range(PRIME_INDEX_START, PRIME_INDEX_END - 1);
        let second = if among_the_rest >= first {
            among_the_rest + 1
        } else {
            among_the_rest
        };
        let prime_index_1 = first as usize;
        let prime_index_2 = second as usize;
        let prime_1 = nth_prime(prime_index_1);
        let prime_2 = nth_prime(prime_index_2);
        if prime_1 > MAX_PRIME || prime_2 > MAX_PRIME {
            proof {
                assert(is_nth_prime(prime_1 as int, prime_index_1 as nat));
                assert(is_nth_prime(prime_2 as int, prime_index_2 as nat));
            }
            return None;
        }
        proof {
            lemma_nth_prime_lower_bound(prime_1 as int, prime_index_1 as nat);
            lemma_nth_prime_lower_bound(prime_2 as int, prime_index_2 as nat);
            lemma_totient_bounds(prime_1 as int, prime_2 as int);
        }
        let key = Key::from_primes(prime_1, prime_2);
        proof {
            assert(is_nth_prime(prime_1 as int, prime_index_1 as nat));
            assert(is_nth_prime(prime_2 as int, prime_index_2 as nat));
        }
        Some(key)
    }

    /// A key pair for the two different primes `p` and `q`, with a public
    /// exponent found by `search_e`.
    pub fn from_primes(p: u64, q: u64) -> (key: Self)
        requires
            is_prime(p as int),
            is_prime(q as int),
            p != q,
            2 < totient(p as int, q as int) <= u32::MAX,
        ensures
            key@.built_from(p as int, q as int),
    {
        let (n, z) = modulus_and_totient(p, q);
        let e = search_e(z);
        proof {
            lemma_below_field_order(e as int, z as int);
        }
        let d = search_d(e, z);
        proof {
            let model = KeyModel { n: n as nat, e: e as nat, d: d as nat };
            assert(model.built_from(p as int, q as int));
        }
        Self { n, e, d }
    }

    /// The key pair for the two different primes `p` and `q` with the public
    /// exponent `e`.
    pub fn from_primes_and_exponent(p: u64, q: u64, e: u64) -> (key: Self)
        requires
            is_prime(p as int),
            is_prime(q as int),
            p != q,
            2 < totient(p as int, q as int) <= u32::MAX,
            1 < e < totient(p as int, q as int),
            coprime(e as int, totient(p as int, q as int)),
        ensures
            key@.built_from(p as int, q as int),
            key@.e == e,
    {
        let (n, z) = modulus_and_totient(p, q);
        proof {
            lemma_below_field_order(e as int, z as int);
        }
        let d = search_d(e, z);
        proof {
            let model = KeyModel { n: n as nat, e: e as nat, d: d as nat };
            assert(model.built_from(p as int, q as int));
        }
        Self { n, e, d }
    }

    /// The public half of the pair.
    pub fn public_key(&self) -> (r: PublicKey)
        ensures
            r@ == self@.public(),
            self@.well_formed(),
    {
        proof {
            use_type_invariant(self);
        }
        PublicKey::new(self.n, self.e)
    }

    /// The private half of the pair: the modulus and the private exponent.
    pub fn private_key(&self) -> (r: (u64, u64))
        ensures
            r.0 == self@.n,
            r.1 == self@.d,
            self@.well_formed(),
    {
        proof {
            use_type_invariant(self);
        }
        (self.n, self.d)
    }

    /// Decrypts the ciphertext `c`: raises it to the private exponent modulo
    /// the modulus of the key.
    pub fn decrypt(&self, c: u64) -> (m: u64)
        ensures
            m == mod_exp(c as nat, self@.d, self@.n),
    {
        proof {
            use_type_invariant(self);
            lemma_well_formed_bounds(self@);
        }
        modpow(c, self.d, self.n)
    }
}

/// The modulus `p * q` and the totient `(p - 1) * (q - 1)`, computed in the
/// Goldilocks field.
fn modulus_and_totient(p: u64, q: u64) -> (r: (u64, u64))
    requires
        p >= 2,
        q >= 2,
        totient(p as int, q as int) <= u32::MAX,
    ensures
        r.0 == p * q,
        r.1 == totient(p as int, q as int),
{
    proof {
        lemma_totient_bounds(p as int, q as int);
        lemma_residue_small(p as int);
        lemma_residue_small(q as int);
        lemma_residue_small(p - 1);
        lemma_residue_small(q - 1);
        lemma_residue_small(p * q);
        lemma_residue_small(totient(p as int, q as int));
    }
    let one = field_one();
    let p = field_from_u64(p);
    let q = field_from_u64(q);
    let n = field_mul(p, q);
    let z = field_mul(field_sub(p, one), field_sub(q, one));
    (n, z)
}

/// In a key for some pair of different primes the modulus is at least 6,
/// and the exponents are at least 1 and below the modulus.
pub proof fn lemma_well_formed_bounds(key: KeyModel)
    requires
        key.well_formed(),
    ensures
        key.n >= 6,
        1 < key.e < key.n,
        1 <= key.d < key.n,
{
    let (p, q) = choose|p: int, q: int| #[trigger] key.built_from(p, q);
    let z = totient(p, q);
    lemma_totient_bounds(p, q);
    assert(p * q >= 6) by (nonlinear_arith)
        requires
            p >= 2,
            q >= 2,
            p != q,
    ;
    lemma_exponent_below_totient(key, p, q);
}

/// The private exponent of a key lies below the totient of its primes.
pub proof fn lemma_exponent_below_totient(key: KeyModel, p: int, q: int)
    requires
        key.built_from(p, q),
    ensures
        1 <= key.d < totient(p, q),
        is_inverse(key.d as int, key.e as int, totient(p, q)),
{
    // the least inverse lies below the totient, where some inverse lies
    let w = lemma_inverse_exists(key.e as int, totient(p, q));
    if key.d > w {
        assert(!is_inverse(w, key.e as int, totient(p, q)));
    }
}

/// With both factors of the totient at least 1, each prime is at most the
/// totient plus 1, and the product of the primes at most three times that.
proof fn lemma_totient_bounds(p: int, q: int)
    requires
        p >= 2,
        q >= 2,
    ensures
        p - 1 <= totient(p, q),
        q - 1 <= totient(p, q),
        p * q == totient(p, q) + p + q - 1,
        p <= MAX_PRIME && q <= MAX_PRIME ==> totient(p, q) <= u32::MAX,
        p >= 3 && q >= 3 ==> totient(p, q) > 2,
{
    assert(p - 1 <= (p - 1) * (q - 1) && q - 1 <= (p - 1) * (q - 1)) by (nonlinear_arith)
        requires
            p >= 2,
            q >= 2,
    ;
    assert(p * q == (p - 1) * (q - 1) + p + q - 1) by (nonlinear_arith);
    if p <= MAX_PRIME && q <= MAX_PRIME {
        assert((p - 1) * (q - 1) <= 0xFFFE * 0xFFFE) by (nonlinear_arith)
            requires
                2 <= p <= 0xFFFF,
                2 <= q <= 0xFFFF,
        ;
    }
    if p >= 3 && q >= 3 {
        assert((p - 1) * (q - 1) >= 4) by (nonlinear_arith)
            requires
                p >= 3,
                q >= 3,
        ;
    }
}

/// A product of two numbers below `2^32` is below the order of the
/// Goldilocks field.
proof fn lemma_below_field_order(e: int, z: int)
    requires
        0 <= e < z <= u32::MAX,
    ensures
        e * z < GOLDILOCKS_ORDER,
{
    assert(e * z <= 0xFFFF_FFFE * 0xFFFF_FFFF) by (nonlinear_arith)
        requires
            0 <= e <= 0xFFFF_FFFE,
            0 <= z <= 0xFFFF_FFFF,
    ;
}

/// Searches for a public exponent by random trial: a number strictly
/// between 1 and `z` that is coprime to `z`.
///
/// Candidates are drawn uniformly from `2..z` and tested by comparing their
/// prime factors with those of `z`. Which of the coprime numbers comes back
/// is up to the random source. A run of `EXPONENT_TRIALS` rejected candidates
/// ends the search with `z - 1`, which is coprime to `z` for every `z`.
pub fn search_e(z: u64) -> (e: u64)
    requires
        z > 2,
    ensures
        1 < e < z,
        coprime(e as int, z as int),
{
    let z_factors = prime_factors(z);
    let mut trials: u64 = 0;
    while trials < EXPONENT_TRIALS
        invariant
            z > 2,
            lists_prime_factors(z_factors@, z as int),
        decreases EXPONENT_TRIALS - trials,
    {
        let e = random_in_range(2, z);
        let e_factors = prime_factors(e);
        if share_no_entry(&z_factors, &e_factors) {
            proof {
                lemma_coprime_by_factors(z as int, z_factors@, e as int, e_factors@);
                lemma_coprime_symmetric(z as int, e as int);
            }
            return e;
        }
        trials += 1;
    }
    proof {
        lemma_predecessor_coprime(z as int);
    }
    z - 1
}

/// Searches upwards from 1 for the private exponent: the least positive
/// `d` with `e * d` congruent to 1 modulo `z`.
///
/// Such a `d` exists exactly when `e` and `z` are coprime and `z` is more
/// than 1. The products are taken in the Goldilocks field, so `e * z` has to
/// stay below its order: then every product that the search takes is the
/// product of the integers.
pub fn search_d(e: u64, z: u64) -> (d: u64)
    requires
        z > 1,
        coprime(e as int, z as int),
        e * z < GOLDILOCKS_ORDER,
    ensures
        d < z,
        is_least_inverse(d as int, e as int, z as int),
{
    let ghost w = lemma_inverse_exists(e as int, z as int);
    let mut d: u64 = 1;
    loop
        invariant
            z > 1,
            e * z < GOLDILOCKS_ORDER,
            1 <= d <= w < z,
            is_inverse(w, e as int, z as int),
            forall|k: int| 1 <= k < d ==> !#[trigger] is_inverse(k, e as int, z as int),
        decreases w - d,
    {
        proof {
            lemma_mul_inequality(d as int, z as int, e as int);
            lemma_mul_is_commutative(d as int, e as int);
            lemma_mul_is_commutative(z as int, e as int);
            lemma_mul_nonnegative(e as int, d as int);
            lemma_residue_small(e * d);
        }
        if field_mul(e, d) % z == 1 {
            return d;
        }
        d += 1;
    }
}

/// Coprimality does not depend on the order of the two numbers.
pub proof fn lemma_coprime_symmetric(a: int, b: int)
    requires
        coprime(a, b),
    ensures
        coprime(b, a),
{
    assert forall|d: int| d > 1 implies !(#[trigger] divides(d, b) && divides(d, a)) by {
        if divides(d, b) && divides(d, a) {
            assert(divides(d, a) && divides(d, b));
        }
    }
}

/// A number and its predecessor are coprime.
pub proof fn lemma_predecessor_coprime(z: int)
    ensures
        coprime(z - 1, z),
{
    assert forall|d: int| d > 1 implies !(#[trigger] divides(d, z - 1) && divides(d, z)) by {
        if divides(d, z - 1) && divides(d, z) {
            lemma_divides_combination(d, z, z - 1, 1, -1);
            lemma_divisor_bound(d, 1);
        }
    }
}

/// Raising to a power that is 1 more than a multiple of `p - 1` changes no
/// residue modulo the prime `p`.
pub proof fn lemma_power_cycle(m: int, p: int, j: nat)
    requires
        is_prime(p),
        m >= 0,
    ensures
        pow(m, (j * (p - 1) + 1) as nat) % p == m % p,
{
    let cycle = (p - 1) as nat;
    lemma_mul_nonnegative(j as int, p - 1);
    let turns = (j * (p - 1)) as nat;
    lemma_pow_adds(m, turns, 1);
    lemma_pow1(m);
    let x = pow(m, turns);
    assert(pow(m, turns + 1) == x * m);
    if divides(p, m) {
        lemma_divides_multiple(p, 0);
        lemma_divides_combination(p, m, 0, x, 0);
        assert(m * x + 0 * 0 == x * m) by (nonlinear_arith);
    } else {
        lemma_fermat_little(m, p);
        lemma_pow_multiplies(m, cycle, j);
        lemma_mul_is_commutative(cycle as int, j as int);
        assert(x == pow(pow(m, cycle), j));
        lemma_pow_mod_noop(pow(m, cycle), j, p);
        lemma1_pow(j);
        lemma_small_mod(1, p as nat);
        assert(x % p == 1);
        lemma_mul_mod_noop_left(x, m, p);
        lemma_mul_basics(m);
    }
}

/// Raising a residue below the modulus of a key to the product of the two
/// exponents gives the residue back.
pub proof fn lemma_exponents_cancel(key: KeyModel, m: nat)
    requires
        key.well_formed(),
        m < key.n,
    ensures
        pow(m as int, key.e * key.d) % (key.n as int) == m,
{
    let (p, q) = choose|p: int, q: int| #[trigger] key.built_from(p, q);
    let n = key.n as int;
    let z = totient(p, q);
    let msg = m as int;
    lemma_mul_nonnegative(key.e as int, key.d as int);
    let t = (key.e * key.d) as nat;
    // e * d is 1 more than a multiple of the totient
    lemma_fundamental_div_mod(t as int, z);
    let k = (t as int) / z;
    lemma_div_pos_is_pos(t as int, z);
    lemma_mul_nonnegative(k, q - 1);
    lemma_mul_nonnegative(k, p - 1);
    let jp = (k * (q - 1)) as nat;
    let jq = (k * (p - 1)) as nat;
    assert(t == jp * (p - 1) + 1 && t == jq * (q - 1) + 1) by (nonlinear_arith)
        requires
            t == z * k + 1,
            z == (p - 1) * (q - 1),
            jp == k * (q - 1),
            jq == k * (p - 1),
    ;
    lemma_power_cycle(msg, p, jp);
    lemma_power_cycle(msg, q, jq);
    let x = pow(msg, t);
    lemma_mod_equivalence(x, msg, p);
    lemma_mod_equivalence(x, msg, q);
    lemma_distinct_primes_divide(p, q, x - msg);
    lemma_mod_equivalence(x, msg, n);
    lemma_small_mod(m, key.n);
}

/// Decryption undoes encryption: under every key, a message below the
/// modulus that is encrypted and then decrypted comes back unchanged.
pub proof fn lemma_decrypt_inverts_encrypt(key: KeyModel, m: nat)
    requires
        key.well_formed(),
        m < key.n,
    ensures
        mod_exp(mod_exp(m, key.e, key.n), key.d, key.n) == m,
{
    let n = key.n as int;
    lemma_well_formed_bounds(key);
    lemma_mod_bound(pow(m as int, key.e), n);
    lemma_pow_mod_noop(pow(m as int, key.e), key.d, n);
    lemma_pow_multiplies(m as int, key.e, key.d);
    lemma_exponents_cancel(key, m);
}

/// Encryption undoes decryption: under every key, a ciphertext below the
/// modulus that is decrypted and then encrypted comes back unchanged. So the
/// two are inverse bijections of the residues.
pub proof fn lemma_encrypt_inverts_decrypt(key: KeyModel, c: nat)
    requires
        key.well_formed(),
        c < key.n,
    ensures
        mod_exp(mod_exp(c, key.d, key.n), key.e, key.n) == c,
{
    let n = key.n as int;
    lemma_well_formed_bounds(key);
    lemma_mod_bound(pow(c as int, key.d), n);
    lemma_pow_mod_noop(pow(c as int, key.d), key.e, n);
    lemma_pow_multiplies(c as int, key.d, key.e);
    lemma_mul_is_commutative(key.d as int, key.e as int);
    lemma_exponents_cancel(key, c);
}

} // verus!
