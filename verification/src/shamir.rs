//! Shamir secret sharing over the prime field of order 17: a secret becomes
//! the constant term of a random polynomial, the shares are values of that
//! polynomial, and enough shares give the secret back by interpolation.

use crate::divisibility::divides;
use crate::polynomial::{distinct_residues, eval, lemma_agreement_spreads};
use crate::primes::is_prime;
use crate::random::random_in_range;
use lambdaworks_math::field::fields::u64_prime_field::FE17;
use lambdaworks_math::polynomial::InterpolateError;
use vstd::arithmetic::div_mod::*;
use vstd::arithmetic::mul::*;
use vstd::prelude::*;
use vstd::string::StringSliceAdditionalSpecFns;

verus! {

/// The order of the field that secrets, coefficients and shares live in.
pub const MODULUS: u64 = 17;

/// Random coefficients are drawn from `COEFFICIENT_START` up to, not
/// including, `COEFFICIENT_END`, and then reduced into the field.
pub const COEFFICIENT_START: u64 = 1;

/// See `COEFFICIENT_START`.
pub const COEFFICIENT_END: u64 = 100;

/// An element of the field of order `MODULUS`, held as its canonical
/// representative.
#[derive(Clone, Copy, Debug, PartialEq, Eq, Structural)]
pub struct FieldElement {
    value: u64,
}

impl View for FieldElement {
    type V = int;

    closed spec fn view(&self) -> int {
        self.value as int
    }
}

impl FieldElement {
    #[verifier::type_invariant]
    spec fn canonical(self) -> bool {
        self.value < MODULUS
    }

    /// The element that `value` stands for.
    pub fn new(value: u64) -> (r: Self)
        ensures
            r@ == value % MODULUS,
    {
        Self { value: value % MODULUS }
    }

    /// The canonical representative: the one number below `MODULUS` that
    /// stands for the element.
    pub fn representative(&self) -> (r: u64)
        ensures
            r == self@,
            r < MODULUS,
    {
        proof {
            use_type_invariant(self);
        }
        self.value
    }
}

/// The representatives of a list of field elements.
pub open spec fn values(elements: Seq<FieldElement>) -> Seq<int> {
    Seq::new(elements.len(), |i: int| elements[i]@)
}

/// `c` without its trailing zeros.
pub open spec fn trim(c: Seq<int>) -> Seq<int>
    decreases c.len(),
{
    if c.len() == 0 || c.last() != 0 {
        c
    } else {
        trim(c.drop_last())
    }
}

/// A polynomial over the field, as the list of its coefficients from the
/// constant term on. The list has no trailing zero, so the zero polynomial is
/// the empty list.
#[derive(Debug)]
pub struct Polynomial {
    coefficients: Vec<FieldElement>,
}

impl View for Polynomial {
    type V = Seq<int>;

    closed spec fn view(&self) -> Seq<int> {
        values(self.coefficients@)
    }
}

/// Why an interpolation was refused.
#[derive(Clone, Copy, Debug, PartialEq, Eq, Structural)]
pub enum ReconstructionError {
    /// There are not as many `y` values as `x` values.
    UnequalLengths,
    /// Two of the points have the same `x` value.
    RepeatedPoint,
}

/// Trusted: the error type of `Polynomial::interpolate` in `lambdaworks_math`,
/// carried as an opaque value.
#[verifier::external_type_specification]
#[verifier::external_body]
pub struct ExInterpolateError(InterpolateError);

/// Trusted: `Polynomial::new` of `lambdaworks_math` keeps the coefficients it
/// is given but for the zeros at the end of the list, which it drops.
#[verifier::external_body]
fn lambdaworks_new(coefficients: &Vec<FieldElement>) -> (r: Vec<FieldElement>)
    ensures
        values(r@) == trim(values(coefficients@)),
{
    let coefficients: Vec<FE17> = coefficients.iter().map(|c| FE17::new(c.value)).collect();
    let polynomial = lambdaworks_math::polynomial::Polynomial::new(&coefficients);
    polynomial.coefficients.iter().map(|c| FieldElement { value: c.representative() }).collect()
}

/// Trusted: `Polynomial::evaluate` of `lambdaworks_math` returns the value of
/// the polynomial at the point, computed in the field.
#[verifier::external_body]
fn lambdaworks_evaluate(coefficients: &Vec<FieldElement>, x: &FieldElement) -> (y: FieldElement)
    ensures
        y@ == eval(values(coefficients@), x@) % (MODULUS as int),
{
    let coefficients: Vec<FE17> = coefficients.iter().map(|c| FE17::new(c.value)).collect();
    let polynomial = lambdaworks_math::polynomial::Polynomial { coefficients };
    FieldElement { value: polynomial.evaluate(&FE17::new(x.value)).representative() }
}

/// Trusted: `Polynomial::interpolate` of `lambdaworks_math` fails exactly
/// when the two lists differ in length or two of the `x` values are equal.
/// Otherwise it returns a polynomial, free of trailing zeros and with no
/// more coefficients than there are points, that takes the value `ys[i]` at
/// each `xs[i]`.
#[verifier::external_body]
fn lambdaworks_interpolate(
    xs: &Vec<FieldElement>,
    ys: &Vec<FieldElement>,
) -> (r: Result<Vec<FieldElement>, InterpolateError>)
    ensures
        r is Ok <==> (xs.len() == ys.len() && distinct_residues(values(xs@), MODULUS as int)),
        r matches Ok(c) ==> is_interpolant(values(c@), values(xs@), values(ys@)),
{
    let xs: Vec<FE17> = xs.iter().map(|x| FE17::new(x.value)).collect();
    let ys: Vec<FE17> = ys.iter().map(|y| FE17::new(y.value)).collect();
    let polynomial = lambdaworks_math::polynomial::Polynomial::interpolate(&xs, &ys)?;
    Ok(polynomial.coefficients.iter().map(|c| FieldElement { value: c.representative() }).collect())
}

/// The polynomial `c` takes the value `ys[i]` at each `xs[i]`, in the field.
pub open spec fn interpolates(c: Seq<int>, xs: Seq<int>, ys: Seq<int>) -> bool {
    &&& xs.len() == ys.len()
    &&& forall|i: int| 0 <= i < xs.len() ==> eval(c, #[trigger] xs[i]) % (MODULUS as int) == ys[i]
}

/// `c` is the polynomial that interpolation gives for the points: it has no
/// trailing zero, at most as many coefficients as there are points, and
/// takes the value `ys[i]` at each `xs[i]`.
pub open spec fn is_interpolant(c: Seq<int>, xs: Seq<int>, ys: Seq<int>) -> bool {
    &&& c.len() <= xs.len()
    &&& trim(c) == c
    &&& interpolates(c, xs, ys)
}

impl Polynomial {
    #[verifier::type_invariant]
    spec fn trimmed(self) -> bool {
        trim(values(self.coefficients@)) == values(self.coefficients@)
    }

    /// The polynomial with the given coefficients, constant term first.
    /// Zeros at the end of the list are dropped.
    pub fn new(coefficients: &Vec<FieldElement>) -> (r: Self)
        ensures
            r@ == trim(values(coefficients@)),
    {
        proof {
            lemma_trim_idempotent(values(coefficients@));
        }
        Self { coefficients: lambdaworks_new(coefficients) }
    }

    /// The coefficients, constant term first.
    pub fn coefficients(&self) -> (r: &Vec<FieldElement>)
        ensures
            values(r@) == self@,
    {
        &self.coefficients
    }

    /// The value of the polynomial at `x`.
    pub fn evaluate(&self, x: &FieldElement) -> (y: FieldElement)
        ensures
            y@ == eval(self@, x@) % (MODULUS as int),
    {
        lambdaworks_evaluate(&self.coefficients, x)
    }

    /// The polynomial with at most as many coefficients as there are points
    /// that takes the value `ys[i]` at each `xs[i]`.
    ///
    /// It is refused with `UnequalLengths` if the two lists differ in length,
    /// and with `RepeatedPoint` if they do not but two `x` values are equal.
    pub fn interpolate(
        xs: &Vec<FieldElement>,
        ys: &Vec<FieldElement>,
    ) -> (r: Result<Self, ReconstructionError>)
        ensures
            match r {
                Ok(p) => {
                    &&& distinct_residues(values(xs@), MODULUS as int)
                    &&& p@.len() <= xs.len()
                    &&& interpolates(p@, values(xs@), values(ys@))
                },
                Err(ReconstructionError::UnequalLengths) => xs.len() != ys.len(),
                Err(ReconstructionError::RepeatedPoint) => xs.len() == ys.len()
                    && !distinct_residues(values(xs@), MODULUS as int),
            },
    {
        match lambdaworks_interpolate(xs, ys) {
            Ok(coefficients) => Ok(Self { coefficients }),
            Err(_) => {
                if xs.len() != ys.len() {
                    Err(ReconstructionError::UnequalLengths)
                } else {
                    Err(ReconstructionError::RepeatedPoint)
                }
            },
        }
    }
}

/// Trimming twice is trimming once.
pub proof fn lemma_trim_idempotent(c: Seq<int>)
    ensures
        trim(trim(c)) == trim(c),
    decreases c.len(),
{
    if c.len() > 0 && c.last() == 0 {
        lemma_trim_idempotent(c.drop_last());
    }
}

/// One share of a secret: a point of the sharing polynomial.
#[derive(Clone, Copy, Debug, PartialEq, Eq, Structural)]
pub struct Share {
    pub x: FieldElement,
    pub y: FieldElement,
}

impl View for Share {
    type V = (int, int);

    open spec fn view(&self) -> (int, int) {
        (self.x@, self.y@)
    }
}

/// The `x` values of a list of shares.
pub open spec fn share_xs(shares: Seq<Share>) -> Seq<int> {
    Seq::new(shares.len(), |i: int| shares[i].x@)
}

/// The `y` values of a list of shares.
pub open spec fn share_ys(shares: Seq<Share>) -> Seq<int> {
    Seq::new(shares.len(), |i: int| shares[i].y@)
}

/// The number that the bytes spell when read as one binary numeral, first
/// byte first.
pub open spec fn big_endian(bytes: Seq<u8>) -> nat
    decreases bytes.len(),
{
    if bytes.len() == 0 {
        0
    } else {
        big_endian(bytes.drop_last()) * 256 + bytes.last() as nat
    }
}

/// The constant term of the polynomial `c`.
pub open spec fn constant_term(c: Seq<int>) -> int {
    if c.len() == 0 {
        0
    } else {
        c[0]
    }
}

/// `c` is a polynomial that shares `secret` with threshold `k`: a list of
/// `k` field elements that starts with the secret and, where `k` is more
/// than 1, ends with a nonzero element, so that the degree is `k - 1`. For
/// `k == 1` it is the secret alone, which as a polynomial is the empty list
/// if the secret is zero.
pub open spec fn shares_secret(c: Seq<int>, secret: int, k: int) -> bool {
    if k == 1 {
        c == trim(seq![secret])
    } else {
        &&& c.len() == k
        &&& c[0] == secret
        &&& c.last() != 0
        &&& forall|i: int| 0 <= i < c.len() ==> 0 <= #[trigger] c[i] < MODULUS
    }
}

/// The share of the polynomial `c` with number `t`: the point at `t`, taken
/// into the field.
pub open spec fn share_at(c: Seq<int>, t: int) -> (int, int) {
    (t % (MODULUS as int), eval(c, t % (MODULUS as int)) % (MODULUS as int))
}

/// `secret` is what interpolation gives for the shares: the value at 0 of a
/// polynomial with at most as many coefficients as there are shares that
/// passes through all of them.
pub open spec fn recovered_from(shares: Seq<Share>, secret: int) -> bool {
    exists|c: Seq<int>|
        {
            &&& c.len() <= shares.len()
            &&& #[trigger] interpolates(c, share_xs(shares), share_ys(shares))
            &&& secret == eval(c, 0) % (MODULUS as int)
        }
}

/// Encodes a string as a field element: its UTF-8 bytes are read as one
/// binary numeral, first byte first, and the number is taken into the field.
///
/// The string must not be empty, and the number must fit in 64 bits, as that
/// of every string of at most eight bytes does (`lemma_eight_bytes_fit`).
pub fn string_to_decimal(secret: &str) -> (r: FieldElement)
    requires
        secret.spec_bytes().len() > 0,
        big_endian(secret.spec_bytes()) <= u64::MAX,
    ensures
        r@ == big_endian(secret.spec_bytes()) % (MODULUS as nat),
{
    let bytes = secret.as_bytes();
    let mut secret_int: u64 = 0;
    let mut i: usize = 0;
    while i < bytes.len()
        invariant
            i <= bytes.len(),
            secret_int == big_endian(bytes@.take(i as int)),
            big_endian(bytes@) <= u64::MAX,
        decreases bytes.len() - i,
    {
        proof {
            let next = bytes@.take(i + 1);
            assert(next.drop_last() =~= bytes@.take(i as int));
            lemma_big_endian_prefix(bytes@, i + 1);
        }
        secret_int = secret_int * 256 + bytes[i] as u64;
        i += 1;
    }
    proof {
        assert(bytes@.take(i as int) =~= bytes@);
    }
    FieldElement::new(secret_int)
}

/// How many numbers `len` bytes can spell: `256^len`.
pub open spec fn capacity(len: nat) -> nat
    decreases len,
{
    if len == 0 {
        1
    } else {
        256 * capacity((len - 1) as nat)
    }
}

/// A byte string spells a number below the capacity of its length.
pub proof fn lemma_big_endian_below_capacity(bytes: Seq<u8>)
    ensures
        big_endian(bytes) < capacity(bytes.len()),
    decreases bytes.len(),
{
    if bytes.len() > 0 {
        lemma_big_endian_below_capacity(bytes.drop_last());
    }
}

/// Whatever a string of at most eight bytes spells fits in 64 bits.
pub proof fn lemma_eight_bytes_fit(bytes: Seq<u8>)
    requires
        bytes.len() <= 8,
    ensures
        big_endian(bytes) <= u64::MAX,
{
    lemma_big_endian_below_capacity(bytes);
    reveal_with_fuel(capacity, 9);
    assert(capacity(8) == 0x1_0000_0000_0000_0000);
}

/// A prefix of a byte string spells no larger a number than the whole.
pub proof fn lemma_big_endian_prefix(bytes: Seq<u8>, n: int)
    requires
        0 <= n <= bytes.len(),
    ensures
        big_endian(bytes.take(n)) <= big_endian(bytes),
    decreases bytes.len() - n,
{
    if n == bytes.len() {
        assert(bytes.take(n) =~= bytes);
    } else {
        lemma_big_endian_prefix(bytes, n + 1);
        let next = bytes.take(n + 1);
        assert(next.drop_last() =~= bytes.take(n));
    }
}

/// How many numbers from `COEFFICIENT_START` up to, not including,
/// `COEFFICIENT_END` are nonzero in the field.
pub const NONZERO_COEFFICIENTS: u64 = 94;

/// Draws a coefficient that is nonzero in the field: a number of the
/// coefficient range that is no multiple of `MODULUS`, each with the same
/// chance.
fn draw_nonzero_coefficient() -> (r: FieldElement)
    ensures
        0 < r@ < MODULUS,
{
    let t = random_in_range(0, NONZERO_COEFFICIENTS);
    // one multiple of the modulus is skipped for every sixteen numbers
    let coefficient = t + 1 + t / 16;
    assert(COEFFICIENT_START <= coefficient < COEFFICIENT_END);
    assert(coefficient % MODULUS != 0);
    FieldElement::new(coefficient)
}

/// Builds a sharing polynomial for `secret` with threshold `k`: the secret
/// as constant term, followed by `k - 1` coefficients drawn at random, the
/// last of them nonzero in the field. The polynomial has degree `k - 1`, but
/// for `k == 1` and the secret zero, where it is the zero polynomial.
pub fn construct_polynomial(secret: FieldElement, k: FieldElement) -> (polynomial: Polynomial)
    requires
        k@ >= 1,
    ensures
        shares_secret(polynomial@, secret@, k@),
        k@ >= 2 ==> polynomial@.len() == k@,
{
    let threshold = k.representative();
    let mut coefficients: Vec<FieldElement> = Vec::new();
    coefficients.push(secret);
    let mut drawn: u64 = 1;
    proof {
        use_type_invariant(secret);
    }
    while drawn < threshold
        invariant
            1 <= drawn <= threshold < MODULUS,
            coefficients.len() == drawn,
            coefficients[0] == secret,
            forall|i: int|
                0 <= i < coefficients.len() ==> 0 <= #[trigger] values(coefficients@)[i] < MODULUS,
            drawn >= 2 && drawn == threshold ==> values(coefficients@).last() != 0,
        decreases threshold - drawn,
    {
        let element = if drawn + 1 == threshold {
            draw_nonzero_coefficient()
        } else {
            FieldElement::new(random_in_range(COEFFICIENT_START, COEFFICIENT_END))
        };
        let ghost before = values(coefficients@);
        coefficients.push(element);
        proof {
            let after = values(coefficients@);
            assert forall|i: int| 0 <= i < after.len() implies 0 <= #[trigger] after[i] < MODULUS by {
                if i < before.len() {
                    assert(after[i] == before[i]);
                }
            }
            assert(after.last() == element@);
        }
        drawn += 1;
    }
    let polynomial = Polynomial::new(&coefficients);
    proof {
        let full = values(coefficients@);
        assert(full[0] == secret@);
        if threshold == 1 {
            assert(full =~= seq![secret@]);
        } else {
            assert(trim(full) == full);
        }
    }
    polynomial
}

/// The first `n` shares of the polynomial: its points at 1, 2, and so on up
/// to `n`, each taken into the field.
pub fn find_shares(polynomial: Polynomial, n: u64) -> (shares: Vec<Share>)
    requires
        n <= usize::MAX,
    ensures
        shares.len() == n,
        forall|i: int| 0 <= i < n ==> (#[trigger] shares[i])@ == share_at(polynomial@, i + 1),
{
    let mut shares: Vec<Share> = Vec::new();
    let mut i: u64 = 0;
    while i < n
        invariant
            i <= n <= usize::MAX,
            shares.len() == i,
            forall|j: int| 0 <= j < i ==> (#[trigger] shares[j])@ == share_at(polynomial@, j + 1),
        decreases n - i,
    {
        i += 1;
        let x = FieldElement::new(i);
        let y = polynomial.evaluate(&x);
        shares.push(Share { x, y });
    }
    shares
}

/// The shares at the given places of the list, in the order of the places.
/// A place may be named more than once.
pub fn select_shares(shares: &Vec<Share>, places: &Vec<usize>) -> (selected: Vec<Share>)
    requires
        forall|j: int| 0 <= j < places.len() ==> #[trigger] places[j] < shares.len(),
    ensures
        selected.len() == places.len(),
        forall|j: int| 0 <= j < places.len() ==> #[trigger] selected[j] == shares[places[j] as int],
{
    let mut selected: Vec<Share> = Vec::new();
    let mut j: usize = 0;
    while j < places.len()
        invariant
            j <= places.len(),
            selected.len() == j,
            forall|i: int| 0 <= i < places.len() ==> #[trigger] places[i] < shares.len(),
            forall|i: int| 0 <= i < j ==> #[trigger] selected[i] == shares[places[i] as int],
        decreases places.len() - j,
    {
        selected.push(shares[places[j]]);
        j += 1;
    }
    selected
}

/// Picks `k` shares at random, each from the whole list: a share may be
/// picked more than once.
pub fn select_random_shares(shares: Vec<Share>, k: FieldElement) -> (selected: Vec<Share>)
    requires
        k@ == 0 || shares.len() > 0,
    ensures
        selected.len() == k@,
        forall|j: int| 0 <= j < selected.len() ==> shares@.contains(#[trigger] selected[j]),
{
    let count = k.representative();
    let mut places: Vec<usize> = Vec::new();
    let mut picked: u64 = 0;
    while picked < count
        invariant
            picked <= count < MODULUS,
            count == 0 || shares.len() > 0,
            places.len() == picked,
            forall|j: int| 0 <= j < places.len() ==> #[trigger] places[j] < shares.len(),
        decreases count - picked,
    {
        let share_idx = random_in_range(0, shares.len() as u64) as usize;
        places.push(share_idx);
        picked += 1;
    }
    let selected = select_shares(&shares, &places);
    proof {
        assert forall|j: int| 0 <= j < selected.len() implies shares@.contains(
            #[trigger] selected[j],
        ) by {
            assert(selected[j] == shares@[places[j] as int]);
        }
    }
    selected
}

/// The polynomial through the shares: the one with at most as many
/// coefficients as there are shares that takes the value `y` at the `x` of
/// each share.
///
/// It is refused with `RepeatedPoint` exactly when two of the shares have the
/// same `x` value.
pub fn interpolate_shares(shares: &Vec<Share>) -> (r: Result<Polynomial, ReconstructionError>)
    ensures
        match r {
            Ok(polynomial) => {
                &&& distinct_residues(share_xs(shares@), MODULUS as int)
                &&& polynomial@.len() <= shares.len()
                &&& interpolates(polynomial@, share_xs(shares@), share_ys(shares@))
            },
            Err(e) => e == ReconstructionError::RepeatedPoint && !distinct_residues(
                share_xs(shares@),
                MODULUS as int,
            ),
        },
{
    let mut xs: Vec<FieldElement> = Vec::new();
    let mut ys: Vec<FieldElement> = Vec::new();
    let mut i: usize = 0;
    while i < shares.len()
        invariant
            i <= shares.len(),
            xs.len() == i,
            ys.len() == i,
            forall|j: int| 0 <= j < i ==> (#[trigger] xs[j])@ == shares[j].x@,
            forall|j: int| 0 <= j < i ==> (#[trigger] ys[j])@ == shares[j].y@,
        decreases shares.len() - i,
    {
        xs.push(shares[i].x);
        ys.push(shares[i].y);
        i += 1;
    }
    proof {
        assert(values(xs@) =~= share_xs(shares@));
        assert(values(ys@) =~= share_ys(shares@));
    }
    Polynomial::interpolate(&xs, &ys)
}

/// Recovers the secret from shares by interpolation: the value at 0 of the
/// polynomial through them.
///
/// It is refused with `RepeatedPoint` exactly when two of the shares have the
/// same `x` value.
pub fn recover_secret(shares: &Vec<Share>) -> (r: Result<FieldElement, ReconstructionError>)
    ensures
        match r {
            Ok(secret) => distinct_residues(share_xs(shares@), MODULUS as int) && recovered_from(
                shares@,
                secret@,
            ),
            Err(e) => e == ReconstructionError::RepeatedPoint && !distinct_residues(
                share_xs(shares@),
                MODULUS as int,
            ),
        },
{
    match interpolate_shares(shares) {
        Ok(polynomial) => {
            let secret = polynomial.evaluate(&FieldElement::new(0));
            proof {
                assert(interpolates(polynomial@, share_xs(shares@), share_ys(shares@)));
            }
            Ok(secret)
        },
        Err(e) => Err(e),
    }
}

/// 17 is prime.
pub proof fn lemma_modulus_prime()
    ensures
        is_prime(MODULUS as int),
{
    assert forall|d: int| 1 < d < 17 implies !#[trigger] divides(d, 17) by {
        if d <= 8 {
            assert(17int % 2 != 0 && 17int % 3 != 0 && 17int % 4 != 0 && 17int % 5 != 0);
            assert(17int % 6 != 0 && 17int % 7 != 0 && 17int % 8 != 0);
        } else {
            assert(17int % 9 != 0 && 17int % 10 != 0 && 17int % 11 != 0 && 17int % 12 != 0);
            assert(17int % 13 != 0 && 17int % 14 != 0 && 17int % 15 != 0 && 17int % 16 != 0);
        }
    }
}

/// Any shares of a polynomial with pairwise different `x` values, at least
/// as many as the polynomial has coefficients, give back its constant term:
/// whatever interpolation recovers from them is the secret.
///
/// The `x` values have to differ. `select_random_shares` may pick a share
/// twice, and from such a selection nothing is recovered.
pub proof fn lemma_shares_recover_secret(polynomial: Seq<int>, shares: Seq<Share>, secret: int)
    requires
        polynomial.len() <= shares.len(),
        forall|i: int|
            0 <= i < shares.len() ==> (#[trigger] shares[i]).y@ == eval(polynomial, shares[i].x@) % (
            MODULUS as int),
        distinct_residues(share_xs(shares), MODULUS as int),
        recovered_from(shares, secret),
    ensures
        secret == constant_term(polynomial) % (MODULUS as int),
{
    let p = MODULUS as int;
    let xs = share_xs(shares);
    let c = choose|c: Seq<int>|
        {
            &&& c.len() <= shares.len()
            &&& #[trigger] interpolates(c, share_xs(shares), share_ys(shares))
            &&& secret == eval(c, 0) % (MODULUS as int)
        };
    lemma_modulus_prime();
    assert forall|i: int| 0 <= i < xs.len() implies eval(c, #[trigger] xs[i]) % p == eval(
        polynomial,
        xs[i],
    ) % p by {
        assert(share_ys(shares)[i] == shares[i].y@);
        assert(xs[i] == shares[i].x@);
    }
    lemma_agreement_spreads(c, polynomial, xs, p, 0);
    lemma_eval_at_zero(polynomial);
}

/// The value of a polynomial at 0 is its constant term.
pub proof fn lemma_eval_at_zero(c: Seq<int>)
    ensures
        eval(c, 0) == constant_term(c),
{
    if c.len() > 0 {
        lemma_mul_basics(eval(c.drop_first(), 0));
    }
}

/// Dropping trailing zeros leaves the constant term as it is.
pub proof fn lemma_trim_constant_term(c: Seq<int>)
    ensures
        constant_term(trim(c)) == constant_term(c),
        trim(c).len() <= c.len(),
    decreases c.len(),
{
    if c.len() > 0 && c.last() == 0 {
        lemma_trim_constant_term(c.drop_last());
    }
}

/// A polynomial that shares a secret has the secret as constant term and at
/// most as many coefficients as the threshold.
pub proof fn lemma_sharing_polynomial(c: Seq<int>, secret: int, k: int)
    requires
        k >= 1,
        shares_secret(c, secret, k),
    ensures
        constant_term(c) == secret,
        c.len() <= k,
{
    if k == 1 {
        lemma_trim_constant_term(seq![secret]);
    }
}

/// Threshold recovery: from a polynomial that shares `secret` with threshold
/// `k`, take the first `n` shares and select at least `k` of them with
/// pairwise different `x` values. Then whatever interpolation recovers from
/// the selection is the secret.
pub proof fn lemma_threshold_recovery(
    secret: int,
    k: int,
    polynomial: Seq<int>,
    shares: Seq<Share>,
    selected: Seq<Share>,
    recovered: int,
)
    requires
        0 <= secret < MODULUS,
        k >= 1,
        shares_secret(polynomial, secret, k),
        forall|i: int| 0 <= i < shares.len() ==> (#[trigger] shares[i])@ == share_at(polynomial, i + 1),
        selected.len() >= k,
        forall|j: int| 0 <= j < selected.len() ==> shares.contains(#[trigger] selected[j]),
        distinct_residues(share_xs(selected), MODULUS as int),
        recovered_from(selected, recovered),
    ensures
        recovered == secret,
{
    lemma_sharing_polynomial(polynomial, secret, k);
    assert forall|j: int| 0 <= j < selected.len() implies (#[trigger] selected[j]).y@ == eval(
        polynomial,
        selected[j].x@,
    ) % (MODULUS as int) by {
        let i = choose|i: int| 0 <= i < shares.len() && shares[i] == selected[j];
        assert(shares[i]@ == share_at(polynomial, i + 1));
    }
    lemma_shares_recover_secret(polynomial, selected, recovered);
    lemma_small_mod(secret as nat, MODULUS as nat);
}

} // verus!
