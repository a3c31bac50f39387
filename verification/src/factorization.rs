//! Lists of the prime factors of a number, and what two such lists say about
//! the common divisors of the numbers they belong to.

use crate::divisibility::{coprime, divides};
use crate::primes::{is_prime, lemma_coprime_by_primes};
use prime_factorization::Factorization;
use vstd::prelude::*;

verus! {

/// `factors` lists the prime factors of `n` in ascending order: every entry
/// is a prime that divides `n`, and every prime that divides `n` is an
/// entry. How often an entry stands in the list is left open. Numbers below
/// 2 have the empty list.
pub open spec fn lists_prime_factors(factors: Seq<u64>, n: int) -> bool {
    if n < 2 {
        factors.len() == 0
    } else {
        &&& forall|i: int|
            0 <= i < factors.len() ==> is_prime(#[trigger] factors[i] as int) && divides(
                factors[i] as int,
                n,
            )
        &&& forall|p: int|
            is_prime(p) && #[trigger] divides(p, n) ==> exists|i: int|
                0 <= i < factors.len() && #[trigger] factors[i] == p
        &&& forall|i: int, j: int| 0 <= i <= j < factors.len() ==> factors[i] <= factors[j]
    }
}

/// No entry of `left` is an entry of `right`.
pub open spec fn disjoint(left: Seq<u64>, right: Seq<u64>) -> bool {
    forall|i: int, j: int| 0 <= i < left.len() && 0 <= j < right.len() ==> left[i] != right[j]
}

/// Trusted: `Factorization::run` of `prime_factorization` leaves in `factors`
/// the prime factors of its argument, smallest first: only primes that
/// divide the argument, and each of them at least once. For 0 and 1 it
/// leaves the list empty.
///
/// That the entries multiply back to the argument is not claimed: on the
/// square of a product of two large primes the routine can list each prime
/// once.
#[verifier::external_body]
pub(crate) fn prime_factors(n: u64) -> (factors: Vec<u64>)
    ensures
        lists_prime_factors(factors@, n as int),
{
    Factorization::run(n).factors
}

/// Two numbers from 2 on are coprime exactly when their lists of prime
/// factors have no entry in common.
pub proof fn lemma_coprime_by_factors(a: int, a_factors: Seq<u64>, b: int, b_factors: Seq<u64>)
    requires
        a >= 2,
        b >= 2,
        lists_prime_factors(a_factors, a),
        lists_prime_factors(b_factors, b),
    ensures
        coprime(a, b) <==> disjoint(a_factors, b_factors),
{
    lemma_coprime_by_primes(a, b);
    if !coprime(a, b) {
        let p = choose|p: int| is_prime(p) && #[trigger] divides(p, a) && divides(p, b);
        let i = choose|i: int| 0 <= i < a_factors.len() && #[trigger] a_factors[i] == p;
        let j = choose|j: int| 0 <= j < b_factors.len() && #[trigger] b_factors[j] == p;
        assert(a_factors[i] == b_factors[j]);
    }
    if !disjoint(a_factors, b_factors) {
        let (i, j) = choose|i: int, j: int|
            0 <= i < a_factors.len() && 0 <= j < b_factors.len() && a_factors[i] == b_factors[j];
        let p = a_factors[i] as int;
        assert(is_prime(p) && divides(p, a));
        assert(is_prime(b_factors[j] as int) && divides(b_factors[j] as int, b));
    }
}

/// Whether no entry of `left` occurs in `right`.
pub fn share_no_entry(left: &Vec<u64>, right: &Vec<u64>) -> (r: bool)
    ensures
        r == disjoint(left@, right@),
{
    let mut i: usize = 0;
    while i < left.len()
        invariant
            i <= left.len(),
            forall|a: int, b: int| 0 <= a < i && 0 <= b < right.len() ==> left[a] != right[b],
        decreases left.len() - i,
    {
        let mut j: usize = 0;
        while j < right.len()
            invariant
                i < left.len(),
                j <= right.len(),
                forall|b: int| 0 <= b < j ==> left[i as int] != right[b],
            decreases right.len() - j,
        {
            if left[i] == right[j] {
                return false;
            }
            j += 1;
        }
        i += 1;
    }
    true
}

} // verus!
