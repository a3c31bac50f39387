//! Fermat's little theorem, proved by comparing the product of the nonzero
//! residues of a prime with the product of their multiples.

use crate::divisibility::divides;
use crate::primes::{is_prime, lemma_prime_divides_product};
use vstd::arithmetic::div_mod::*;
use vstd::arithmetic::mul::*;
use vstd::arithmetic::power::*;
use vstd::prelude::*;

verus! {

/// The product of the entries of `s`; 1 for the empty sequence.
pub open spec fn seq_product(s: Seq<int>) -> int
    decreases s.len(),
{
    if s.len() == 0 {
        1
    } else {
        seq_product(s.drop_last()) * s.last()
    }
}

/// `n!`
pub open spec fn factorial(n: nat) -> int
    decreases n,
{
    if n == 0 {
        1
    } else {
        factorial((n - 1) as nat) * n
    }
}

/// Every entry of `s` lies in `1..=m`.
pub open spec fn within(s: Seq<int>, m: int) -> bool {
    forall|i: int| 0 <= i < s.len() ==> 1 <= #[trigger] s[i] <= m
}

/// The multiples `a * 1, a * 2, .., a * k`, each reduced modulo `p`.
pub open spec fn multiples(a: int, p: int, k: nat) -> Seq<int> {
    Seq::new(k, |i: int| (a * (i + 1)) % p)
}

/// Any entry can be taken out of a product as a factor.
pub proof fn lemma_product_remove(s: Seq<int>, i: int)
    requires
        0 <= i < s.len(),
    ensures
        seq_product(s) == s[i] * seq_product(s.remove(i)),
    decreases s.len(),
{
    let rest = s.remove(i);
    if i == s.len() - 1 {
        assert(rest =~= s.drop_last());
        lemma_mul_is_commutative(s[i], seq_product(rest));
    } else {
        lemma_product_remove(s.drop_last(), i);
        assert(s.drop_last().remove(i) =~= rest.drop_last());
        assert(rest.last() == s.last());
        lemma_mul_is_associative(s[i], seq_product(rest.drop_last()), s.last());
    }
}

/// Pigeonhole, with the product: distinct numbers from `1..=m` are at most
/// `m` many, and if there are `m` of them their product is `m!`.
pub proof fn lemma_distinct_within(s: Seq<int>, m: nat)
    requires
        s.no_duplicates(),
        within(s, m as int),
    ensures
        s.len() <= m,
        s.len() == m ==> seq_product(s) == factorial(m),
    decreases m,
{
    if m == 0 {
        if s.len() > 0 {
            assert(1 <= s[0] <= 0);
        }
    } else if exists|i: int| 0 <= i < s.len() && s[i] == m {
        let i = choose|i: int| 0 <= i < s.len() && s[i] == m;
        let rest = s.remove(i);
        assert forall|j: int| 0 <= j < rest.len() implies 1 <= #[trigger] rest[j] <= m - 1 by {
            let k = if j < i {
                j
            } else {
                j + 1
            };
            assert(rest[j] == s[k]);
            assert(1 <= s[k] <= m);
        }
        assert(rest.no_duplicates()) by {
            assert forall|j: int, k: int| 0 <= j < rest.len() && 0 <= k < rest.len() && j != k implies rest[j]
                != rest[k] by {
                let j0 = if j < i {
                    j
                } else {
                    j + 1
                };
                let k0 = if k < i {
                    k
                } else {
                    k + 1
                };
                assert(rest[j] == s[j0] && rest[k] == s[k0]);
            }
        }
        lemma_distinct_within(rest, (m - 1) as nat);
        lemma_product_remove(s, i);
        lemma_mul_is_commutative(s[i], seq_product(rest));
    } else {
        assert forall|j: int| 0 <= j < s.len() implies 1 <= #[trigger] s[j] <= m - 1 by {
            assert(1 <= s[j] <= m);
        }
        lemma_distinct_within(s, (m - 1) as nat);
    }
}

/// Factorials are positive.
pub proof fn lemma_factorial_positive(n: nat)
    ensures
        factorial(n) > 0,
    decreases n,
{
    if n > 0 {
        lemma_factorial_positive((n - 1) as nat);
        lemma_mul_strictly_positive(factorial((n - 1) as nat), n as int);
    }
}

/// A prime divides no factorial of a smaller number.
pub proof fn lemma_prime_misses_factorial(p: int, n: nat)
    requires
        is_prime(p),
        n < p,
    ensures
        !divides(p, factorial(n)),
    decreases n,
{
    if n == 0 {
        lemma_small_mod(1, p as nat);
    } else {
        lemma_prime_misses_factorial(p, (n - 1) as nat);
        lemma_factorial_positive((n - 1) as nat);
        lemma_small_mod(n, p as nat);
        if divides(p, factorial(n)) {
            lemma_prime_divides_product(p, factorial((n - 1) as nat), n as int);
        }
    }
}

/// A multiple of a number that the prime `p` does not divide, by a factor
/// from `1..p`, is not divisible by `p` either.
pub proof fn lemma_multiple_nonzero(a: int, p: int, k: int)
    requires
        is_prime(p),
        a >= 0,
        !divides(p, a),
        0 < k < p,
    ensures
        0 < (a * k) % p < p,
{
    lemma_mod_bound(a * k, p);
    if (a * k) % p == 0 {
        lemma_prime_divides_product(p, a, k);
        lemma_small_mod(k as nat, p as nat);
    }
}

/// The reduced multiples of `a` by `1..p` are pairwise distinct and nonzero.
pub proof fn lemma_multiples_distinct(a: int, p: int)
    requires
        is_prime(p),
        a >= 0,
        !divides(p, a),
    ensures
        multiples(a, p, (p - 1) as nat).no_duplicates(),
        within(multiples(a, p, (p - 1) as nat), p - 1),
{
    let s = multiples(a, p, (p - 1) as nat);
    assert forall|i: int| 0 <= i < s.len() implies 1 <= #[trigger] s[i] <= p - 1 by {
        lemma_multiple_nonzero(a, p, i + 1);
    }
    assert forall|i: int, j: int| 0 <= i < s.len() && 0 <= j < s.len() && i != j implies s[i]
        != s[j] by {
        if s[i] == s[j] {
            let (lo, hi) = if i < j {
                (i, j)
            } else {
                (j, i)
            };
            lemma_mod_equivalence(a * (hi + 1), a * (lo + 1), p);
            assert(a * (hi + 1) - a * (lo + 1) == a * (hi - lo)) by (nonlinear_arith);
            lemma_multiple_nonzero(a, p, hi - lo);
        }
    }
}

/// The product of the first `k` reduced multiples of `a` is congruent to
/// `a^k * k!`.
pub proof fn lemma_multiples_product(a: int, p: int, k: nat)
    requires
        p > 0,
    ensures
        seq_product(multiples(a, p, k)) % p == (pow(a, k) * factorial(k)) % p,
    decreases k,
{
    reveal(pow);
    if k > 0 {
        let s = multiples(a, p, k);
        let j = (k - 1) as nat;
        assert(s.drop_last() =~= multiples(a, p, j));
        lemma_multiples_product(a, p, j);
        let head = seq_product(multiples(a, p, j));
        let closed = pow(a, j) * factorial(j);
        // head * ((a * k) % p) is congruent to closed * (a * k)
        lemma_mul_mod_noop_right(head, a * k, p);
        lemma_mul_mod_noop_left(head, a * k, p);
        lemma_mul_mod_noop_left(closed, a * k, p);
        assert(closed * (a * k) == pow(a, k) * factorial(k)) by (nonlinear_arith)
            requires
                closed == pow(a, j) * factorial(j),
                pow(a, k) == a * pow(a, j),
                factorial(k) == factorial(j) * k,
        ;
    }
}

/// Fermat's little theorem: for a prime `p` and `a` not divisible by it,
/// `a^(p-1)` leaves remainder 1 on division by `p`.
pub proof fn lemma_fermat_little(a: int, p: int)
    requires
        is_prime(p),
        a >= 0,
        !divides(p, a),
    ensures
        pow(a, (p - 1) as nat) % p == 1,
{
    let n = (p - 1) as nat;
    let s = multiples(a, p, n);
    lemma_multiples_distinct(a, p);
    lemma_distinct_within(s, n);
    lemma_multiples_product(a, p, n);
    let f = factorial(n);
    let x = pow(a, n);
    // f and x * f leave the same remainder, so p divides (x - 1) * f
    lemma_mod_equivalence(x * f, f, p);
    assert(x * f - f == f * (x - 1)) by (nonlinear_arith);
    lemma_factorial_positive(n);
    lemma_prime_misses_factorial(p, n);
    lemma_prime_divides_product(p, f, x - 1);
    lemma_mod_equivalence(x, 1, p);
    lemma_small_mod(1, p as nat);
}

} // verus!
