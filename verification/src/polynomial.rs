//! Polynomials with integer coefficients, read modulo a prime: evaluation,
//! division by a linear factor, and the fact that a polynomial with more
//! roots than coefficients vanishes.

use crate::divisibility::{divides, lemma_divides_combination, lemma_divides_multiple};
use crate::primes::{is_prime, lemma_prime_divides_product};
use vstd::arithmetic::div_mod::*;
use vstd::arithmetic::mul::*;
use vstd::prelude::*;

verus! {

/// The value at `x` of the polynomial with the coefficients `c`, where
/// `c[0]` is the constant term.
pub open spec fn eval(c: Seq<int>, x: int) -> int
    decreases c.len(),
{
    if c.len() == 0 {
        0
    } else {
        c[0] + x * eval(c.drop_first(), x)
    }
}

/// The quotient of the polynomial `c` on division by `X - a`.
pub open spec fn quotient(c: Seq<int>, a: int) -> Seq<int>
    decreases c.len(),
{
    if c.len() <= 1 {
        Seq::empty()
    } else {
        seq![eval(c.drop_first(), a)] + quotient(c.drop_first(), a)
    }
}

/// The difference of two polynomials, coefficient by coefficient; the
/// shorter one counts as padded with zeros.
pub open spec fn difference(c: Seq<int>, d: Seq<int>) -> Seq<int> {
    Seq::new(
        if c.len() >= d.len() {
            c.len()
        } else {
            d.len()
        },
        |i: int|
            (if i < c.len() {
                c[i]
            } else {
                0
            }) - (if i < d.len() {
                d[i]
            } else {
                0
            }),
    )
}

/// Every coefficient of `c` is a multiple of `p`.
pub open spec fn vanishes(c: Seq<int>, p: int) -> bool {
    forall|i: int| 0 <= i < c.len() ==> #[trigger] divides(p, c[i])
}

/// The numbers in `xs` are pairwise incongruent modulo `p`.
pub open spec fn distinct_residues(xs: Seq<int>, p: int) -> bool {
    forall|i: int, j: int| 0 <= i < j < xs.len() ==> xs[i] % p != xs[j] % p
}

/// Every number in `xs` is a root of `c` modulo `p`.
pub open spec fn all_roots(c: Seq<int>, xs: Seq<int>, p: int) -> bool {
    forall|i: int| 0 <= i < xs.len() ==> divides(p, eval(c, #[trigger] xs[i]))
}

/// The quotient has one coefficient less than the dividend.
pub proof fn lemma_quotient_len(c: Seq<int>, a: int)
    ensures
        quotient(c, a).len() == if c.len() == 0 {
            0
        } else {
            c.len() - 1
        },
    decreases c.len(),
{
    if c.len() > 1 {
        lemma_quotient_len(c.drop_first(), a);
    }
}

/// Division by `X - a` leaves the value at `a` as remainder.
pub proof fn lemma_division(c: Seq<int>, a: int, x: int)
    ensures
        eval(c, x) == (x - a) * eval(quotient(c, a), x) + eval(c, a),
    decreases c.len(),
{
    let q = quotient(c, a);
    if c.len() == 0 {
        assert(eval(q, x) == 0);
        lemma_mul_basics(x - a);
    } else if c.len() == 1 {
        assert(eval(q, x) == 0);
        lemma_mul_basics(x - a);
        assert(c.drop_first().len() == 0);
        assert(eval(c.drop_first(), x) == 0);
        assert(eval(c.drop_first(), a) == 0);
        lemma_mul_basics(x);
        lemma_mul_basics(a);
    } else {
        let tail = c.drop_first();
        let qt = quotient(tail, a);
        lemma_division(tail, a, x);
        assert(q.drop_first() =~= qt);
        assert(q[0] == eval(tail, a));
        assert(eval(q, x) == eval(tail, a) + x * eval(qt, x));
        let et = eval(tail, a);
        let eq = eval(qt, x);
        assert(c[0] + x * ((x - a) * eq + et) == (x - a) * (et + x * eq) + (c[0] + a * et))
            by (nonlinear_arith);
    }
}

/// If the quotient by `X - a` and the remainder vanish modulo `p`, so does
/// the dividend.
pub proof fn lemma_vanishing_quotient(c: Seq<int>, a: int, p: int)
    requires
        p > 0,
        vanishes(quotient(c, a), p),
        divides(p, eval(c, a)),
    ensures
        vanishes(c, p),
    decreases c.len(),
{
    if c.len() > 0 {
        let tail = c.drop_first();
        let q = quotient(c, a);
        let qt = quotient(tail, a);
        lemma_divides_multiple(p, 0);
        if c.len() == 1 {
            assert(tail.len() == 0);
            assert(eval(tail, a) == 0);
            lemma_mul_basics(a);
            assert(c[0] == eval(c, a));
        } else {
            assert(q.drop_first() =~= qt);
            assert(q[0] == eval(tail, a));
            assert(divides(p, q[0]));
            assert forall|i: int| 0 <= i < qt.len() implies #[trigger] divides(p, qt[i]) by {
                assert(qt[i] == q[i + 1]);
                assert(divides(p, q[i + 1]));
            }
            lemma_vanishing_quotient(tail, a, p);
            // the constant term is the remainder less a multiple of q[0]
            lemma_divides_combination(p, eval(c, a), q[0], 1, -a);
            assert(eval(c, a) * 1 + q[0] * (-a) == c[0]) by (nonlinear_arith)
                requires
                    eval(c, a) == c[0] + a * q[0],
            ;
        }
        assert forall|i: int| 0 <= i < c.len() implies #[trigger] divides(p, c[i]) by {
            if i > 0 {
                assert(c[i] == tail[i - 1]);
                assert(divides(p, tail[i - 1]));
            }
        }
    }
}

/// A polynomial that vanishes modulo `p` has every integer as a root
/// modulo `p`.
pub proof fn lemma_vanishing_value(c: Seq<int>, x: int, p: int)
    requires
        p > 0,
        vanishes(c, p),
    ensures
        divides(p, eval(c, x)),
    decreases c.len(),
{
    lemma_divides_multiple(p, 0);
    if c.len() > 0 {
        let tail = c.drop_first();
        assert forall|i: int| 0 <= i < tail.len() implies #[trigger] divides(p, tail[i]) by {
            assert(tail[i] == c[i + 1]);
            assert(divides(p, c[i + 1]));
        }
        lemma_vanishing_value(tail, x, p);
        assert(divides(p, c[0]));
        lemma_divides_combination(p, c[0], eval(tail, x), 1, x);
        lemma_mul_is_commutative(x, eval(tail, x));
    }
}

/// Modulo a prime, a polynomial with at least as many pairwise incongruent
/// roots as it has coefficients vanishes.
pub proof fn lemma_roots_force_zero(c: Seq<int>, xs: Seq<int>, p: int)
    requires
        is_prime(p),
        c.len() <= xs.len(),
        distinct_residues(xs, p),
        all_roots(c, xs, p),
    ensures
        vanishes(c, p),
    decreases xs.len(),
{
    if c.len() > 0 {
        let last = xs.len() - 1;
        let a = xs[last];
        let rest = xs.drop_last();
        let q = quotient(c, a);
        lemma_quotient_len(c, a);
        assert(divides(p, eval(c, xs[last])));
        assert forall|i: int| 0 <= i < rest.len() implies divides(p, eval(q, #[trigger] rest[i])) by {
            let x = rest[i];
            assert(x == xs[i]);
            assert(divides(p, eval(c, xs[i])));
            lemma_division(c, a, x);
            let v = eval(q, x);
            // p divides (x - a) * v, and x - a is no multiple of p
            lemma_divides_combination(p, eval(c, x), eval(c, a), 1, -1);
            assert(eval(c, x) * 1 + eval(c, a) * (-1) == (x - a) * v);
            let r = (x - a) % p;
            lemma_mod_bound(x - a, p);
            lemma_mul_mod_noop_left(x - a, v, p);
            assert(divides(p, r * v));
            assert(r != 0) by {
                if r == 0 {
                    lemma_mod_equivalence(x, a, p);
                    assert(xs[i] % p != xs[last] % p);
                }
            }
            lemma_prime_divides_product(p, r, v);
            lemma_small_mod(r as nat, p as nat);
        }
        assert(distinct_residues(rest, p)) by {
            assert forall|i: int, j: int| 0 <= i < j < rest.len() implies rest[i] % p != rest[j]
                % p by {
                assert(rest[i] == xs[i] && rest[j] == xs[j]);
            }
        }
        lemma_roots_force_zero(q, rest, p);
        lemma_vanishing_quotient(c, a, p);
    }
}

/// The value of a difference is the difference of the values.
pub proof fn lemma_difference_value(c: Seq<int>, d: Seq<int>, x: int)
    ensures
        eval(difference(c, d), x) == eval(c, x) - eval(d, x),
    decreases c.len() + d.len(),
{
    let diff = difference(c, d);
    if c.len() == 0 && d.len() == 0 {
    } else {
        let ct = if c.len() > 0 {
            c.drop_first()
        } else {
            c
        };
        let dt = if d.len() > 0 {
            d.drop_first()
        } else {
            d
        };
        lemma_difference_value(ct, dt, x);
        assert(diff.drop_first() =~= difference(ct, dt));
        let c0 = if c.len() > 0 {
            c[0]
        } else {
            0
        };
        let d0 = if d.len() > 0 {
            d[0]
        } else {
            0
        };
        assert(diff[0] == c0 - d0);
        assert(eval(c, x) == c0 + x * eval(ct, x)) by {
            if c.len() == 0 {
                lemma_mul_basics(x);
            }
        }
        assert(eval(d, x) == d0 + x * eval(dt, x)) by {
            if d.len() == 0 {
                lemma_mul_basics(x);
            }
        }
        assert(x * (eval(ct, x) - eval(dt, x)) == x * eval(ct, x) - x * eval(dt, x))
            by (nonlinear_arith);
    }
}

/// Two polynomials that agree modulo a prime at no fewer pairwise
/// incongruent points than either has coefficients agree modulo that prime
/// everywhere.
pub proof fn lemma_agreement_spreads(c: Seq<int>, d: Seq<int>, xs: Seq<int>, p: int, x: int)
    requires
        is_prime(p),
        c.len() <= xs.len(),
        d.len() <= xs.len(),
        distinct_residues(xs, p),
        forall|i: int| 0 <= i < xs.len() ==> eval(c, #[trigger] xs[i]) % p == eval(d, xs[i]) % p,
    ensures
        eval(c, x) % p == eval(d, x) % p,
{
    let diff = difference(c, d);
    assert forall|i: int| 0 <= i < xs.len() implies divides(p, eval(diff, #[trigger] xs[i])) by {
        lemma_difference_value(c, d, xs[i]);
        lemma_mod_equivalence(eval(c, xs[i]), eval(d, xs[i]), p);
    }
    lemma_roots_force_zero(diff, xs, p);
    lemma_vanishing_value(diff, x, p);
    lemma_difference_value(c, d, x);
    lemma_mod_equivalence(eval(c, x), eval(d, x), p);
}

} // verus!
