//! Divisibility and coprimality of integers, up to Bezout's identity and the
//! existence of modular inverses.

use vstd::arithmetic::div_mod::*;
use vstd::arithmetic::mul::*;
use vstd::prelude::*;

verus! {

/// The positive integer `d` divides `n`.
pub open spec fn divides(d: int, n: int) -> bool {
    d > 0 && n % d == 0
}

/// `a` and `b` have no common divisor greater than 1.
pub open spec fn coprime(a: int, b: int) -> bool {
    forall|d: int| d > 1 ==> !(#[trigger] divides(d, a) && divides(d, b))
}

/// Every multiple of a positive integer is divisible by it.
pub proof fn lemma_divides_multiple(d: int, k: int)
    requires
        d > 0,
    ensures
        divides(d, k * d),
        divides(d, d * k),
{
    lemma_mod_multiples_basic(k, d);
    lemma_mul_is_commutative(k, d);
}

/// A multiple of `d` is `d` times the quotient.
pub proof fn lemma_divides_quotient(d: int, n: int)
    requires
        divides(d, n),
    ensures
        n == d * (n / d),
{
    lemma_fundamental_div_mod(n, d);
}

/// A positive multiple of `d` is at least `d`.
pub proof fn lemma_divisor_bound(d: int, n: int)
    requires
        divides(d, n),
        n > 0,
    ensures
        d <= n,
{
    if n < d {
        lemma_small_mod(n as nat, d as nat);
    }
}

/// A common divisor of `a` and `b` divides each of their integer combinations.
pub proof fn lemma_divides_combination(d: int, a: int, b: int, x: int, y: int)
    requires
        divides(d, a),
        divides(d, b),
    ensures
        divides(d, a * x + b * y),
{
    lemma_divides_quotient(d, a);
    lemma_divides_quotient(d, b);
    let qa = a / d;
    let qb = b / d;
    assert(a * x + b * y == (qa * x + qb * y) * d) by (nonlinear_arith)
        requires
            a == d * qa,
            b == d * qb,
    ;
    lemma_divides_multiple(d, qa * x + qb * y);
}

/// Divisibility is transitive.
pub proof fn lemma_divides_transitive(a: int, b: int, c: int)
    requires
        divides(a, b),
        divides(b, c),
    ensures
        divides(a, c),
{
    lemma_divides_quotient(b, c);
    lemma_divides_multiple(a, 0);
    lemma_divides_combination(a, b, 0, c / b, 0);
    assert(b * (c / b) + 0 * 0 == c);
}

/// Bezout's identity with its witness: returns `(x, y, g)` where `g` is a
/// positive common divisor of `a` and `b` that is also `a * x + b * y`.
pub proof fn lemma_bezout(a: int, b: int) -> (r: (int, int, int))
    requires
        a >= 0,
        b >= 0,
        a + b > 0,
    ensures
        divides(r.2, a),
        divides(r.2, b),
        a * r.0 + b * r.1 == r.2,
    decreases b,
{
    if b == 0 {
        lemma_mod_self_0(a);
        (1, 0, a)
    } else {
        let q = a / b;
        let rem = a % b;
        lemma_fundamental_div_mod(a, b);
        lemma_mod_pos_bound(a, b);
        let (x1, y1, g) = lemma_bezout(b, rem);
        lemma_divides_combination(g, b, rem, q, 1);
        assert(b * q + rem * 1 == a);
        assert(a * y1 + b * (x1 - q * y1) == g) by (nonlinear_arith)
            requires
                a == b * q + rem,
                b * x1 + rem * y1 == g,
        ;
        (y1, x1 - q * y1, g)
    }
}

/// For coprime `a` and `b`, some integer combination of them is 1.
pub proof fn lemma_coprime_combination(a: int, b: int) -> (r: (int, int))
    requires
        a >= 0,
        b >= 0,
        a + b > 0,
        coprime(a, b),
    ensures
        a * r.0 + b * r.1 == 1,
{
    let (x, y, g) = lemma_bezout(a, b);
    assert(g == 1) by {
        if g > 1 {
            assert(divides(g, a) && divides(g, b));
        }
    }
    (x, y)
}

/// Euclid's lemma: a number coprime to `a` that divides `a * b` divides `b`.
pub proof fn lemma_coprime_cancels(n: int, a: int, b: int)
    requires
        n > 0,
        a >= 0,
        coprime(n, a),
        divides(n, a * b),
    ensures
        divides(n, b),
{
    let (x, y) = lemma_coprime_combination(n, a);
    lemma_divides_multiple(n, 1);
    assert(divides(n, n)) by {
        assert(1 * n == n);
    }
    lemma_divides_combination(n, n, a * b, x * b, y);
    assert(n * (x * b) + (a * b) * y == b) by (nonlinear_arith)
        requires
            n * x + a * y == 1,
    ;
}

/// A residue coprime to the modulus has a multiplicative inverse among the
/// nonzero residues.
pub proof fn lemma_inverse_exists(e: int, z: int) -> (d: int)
    requires
        e >= 0,
        z > 1,
        coprime(e, z),
    ensures
        1 <= d < z,
        (e * d) % z == 1,
{
    let (x, y) = lemma_coprime_combination(e, z);
    let d = x % z;
    lemma_mod_bound(x, z);
    // e * d is congruent to e * x, which is 1 minus a multiple of z
    lemma_mul_mod_noop_right(e, x, z);
    assert(e * x == z * (-y) + 1) by (nonlinear_arith)
        requires
            e * x + z * y == 1,
    ;
    lemma_mod_multiples_vanish(-y, 1, z);
    lemma_small_mod(1, z as nat);
    assert((e * d) % z == 1);
    if d == 0 {
        assert(e * d == 0) by (nonlinear_arith)
            requires
                d == 0,
        ;
        lemma_small_mod(0, z as nat);
    }
    d
}

} // verus!
