//! Prime numbers: the definition, how primes sit in the order of the
//! integers, and how they divide products.

use crate::divisibility::{
    coprime, divides, lemma_coprime_cancels, lemma_divides_multiple, lemma_divides_quotient,
    lemma_divides_transitive, lemma_divisor_bound,
};
use vstd::arithmetic::div_mod::*;
use vstd::arithmetic::mul::*;
use vstd::prelude::*;

verus! {

/// `p` is at least 2 and has no divisor strictly between 1 and itself.
pub open spec fn is_prime(p: int) -> bool {
    p >= 2 && forall|d: int| 1 < d < p ==> !#[trigger] divides(d, p)
}

/// How many primes are smaller than `n`.
pub open spec fn primes_below(n: nat) -> nat
    decreases n,
{
    if n == 0 {
        0
    } else if is_prime(n - 1) {
        primes_below((n - 1) as nat) + 1
    } else {
        primes_below((n - 1) as nat)
    }
}

/// `p` is the prime that has exactly `index` primes below it, so index 0
/// stands for 2, index 1 for 3, and so on.
pub open spec fn is_nth_prime(p: int, index: nat) -> bool {
    is_prime(p) && primes_below(p as nat) == index
}

/// The largest index that `nth_prime` may be asked for: small enough for the
/// sieve behind it to answer at once.
pub const MAX_PRIME_INDEX: usize = 0xFFFF;

/// Trusted: the iterator `primal::Primes::all()` yields the primes in
/// increasing order from 2 on, so its item at position `index` is the prime
/// with exactly `index` primes below it.
#[verifier::external_body]
pub(crate) fn nth_prime(index: usize) -> (p: u64)
    requires
        index <= MAX_PRIME_INDEX,
    ensures
        is_nth_prime(p as int, index as nat),
{
    primal::Primes::all().nth(index).unwrap() as u64
}

/// Neither 0 nor 1 is prime, so fewer than `n - 1` primes lie below `n`.
pub proof fn lemma_primes_below_bound(n: nat)
    ensures
        n >= 2 ==> primes_below(n) + 2 <= n,
        n < 2 ==> primes_below(n) == 0,
    decreases n,
{
    if n > 0 {
        lemma_primes_below_bound((n - 1) as nat);
    }
    if n == 2 {
        assert(primes_below(1) == 0);
        assert(primes_below(2) == 0);
    }
}

/// The prime with `index` primes below it is larger than `index + 1`.
pub proof fn lemma_nth_prime_lower_bound(p: int, index: nat)
    requires
        is_nth_prime(p, index),
    ensures
        p >= index + 2,
{
    lemma_primes_below_bound(p as nat);
}

/// The only divisors of a prime are 1 and the prime itself.
pub proof fn lemma_prime_divisors(p: int, d: int)
    requires
        is_prime(p),
        divides(d, p),
    ensures
        d == 1 || d == p,
{
    lemma_divisor_bound(d, p);
}

/// A prime is coprime to every number it does not divide.
pub proof fn lemma_prime_coprime(p: int, a: int)
    requires
        is_prime(p),
        !divides(p, a),
    ensures
        coprime(p, a),
{
    assert forall|d: int| d > 1 implies !(#[trigger] divides(d, p) && divides(d, a)) by {
        if divides(d, p) {
            lemma_prime_divisors(p, d);
        }
    }
}

/// A prime that divides a product divides one of its factors.
pub proof fn lemma_prime_divides_product(p: int, a: int, b: int)
    requires
        is_prime(p),
        a >= 0,
        divides(p, a * b),
    ensures
        divides(p, a) || divides(p, b),
{
    if !divides(p, a) {
        lemma_prime_coprime(p, a);
        lemma_coprime_cancels(p, a, b);
    }
}

/// What two distinct primes both divide, their product divides.
pub proof fn lemma_distinct_primes_divide(p: int, q: int, x: int)
    requires
        is_prime(p),
        is_prime(q),
        p != q,
        divides(p, x),
        divides(q, x),
    ensures
        divides(p * q, x),
{
    lemma_divides_quotient(p, x);
    let y = x / p;
    assert(!divides(q, p)) by {
        if divides(q, p) {
            lemma_prime_divisors(p, q);
        }
    }
    lemma_prime_coprime(q, p);
    lemma_coprime_cancels(q, p, y);
    lemma_divides_quotient(q, y);
    let w = y / q;
    assert(x == w * (p * q)) by (nonlinear_arith)
        requires
            x == p * y,
            y == q * w,
    ;
    lemma_mul_strictly_positive(p, q);
    lemma_divides_multiple(p * q, w);
}

/// Every integer from 2 on has a prime divisor; the lemma returns one.
pub proof fn lemma_prime_divisor(n: int) -> (p: int)
    requires
        n >= 2,
    ensures
        is_prime(p),
        divides(p, n),
    decreases n,
{
    if is_prime(n) {
        lemma_mod_self_0(n);
        n
    } else {
        let d = choose|d: int| 1 < d < n && divides(d, n);
        let p = lemma_prime_divisor(d);
        lemma_divides_transitive(p, d, n);
        p
    }
}

/// Two numbers of which one is at least 2 are coprime exactly when no prime
/// divides both.
pub proof fn lemma_coprime_by_primes(a: int, b: int)
    ensures
        coprime(a, b) <==> forall|p: int| is_prime(p) ==> !(#[trigger] divides(p, a) && divides(p, b)),
{
    if !coprime(a, b) {
        let d = choose|d: int| d > 1 && #[trigger] divides(d, a) && divides(d, b);
        let p = lemma_prime_divisor(d);
        lemma_divides_transitive(p, d, a);
        lemma_divides_transitive(p, d, b);
    }
    if coprime(a, b) {
        assert forall|p: int| is_prime(p) implies !(#[trigger] divides(p, a) && divides(p, b)) by {
            if divides(p, a) && divides(p, b) {
                assert(p > 1);
            }
        }
    }
}

} // verus!
