use crypto_primitives::shamir::{
    construct_polynomial, find_shares, interpolate_shares, recover_secret, select_random_shares,
    select_shares, string_to_decimal, FieldElement, Polynomial, ReconstructionError, Share,
    MODULUS,
};

fn fe(value: u64) -> FieldElement {
    FieldElement::new(value)
}

fn elements(values: &[u64]) -> Vec<FieldElement> {
    values.iter().map(|v| fe(*v)).collect()
}

fn representatives(elements: &[FieldElement]) -> Vec<u64> {
    elements.iter().map(|e| e.representative()).collect()
}

#[test]
fn field_element_is_reduced() {
    assert_eq!(fe(0).representative(), 0);
    assert_eq!(fe(16).representative(), 16);
    assert_eq!(fe(17).representative(), 0);
    assert_eq!(fe(100).representative(), 15);
    assert_eq!(fe(u64::MAX).representative(), u64::MAX % 17);
    assert_eq!(fe(3), fe(20));
    assert_eq!(MODULUS, 17);
}

#[test]
fn string_to_decimal_of_hello() {
    assert_eq!(string_to_decimal("hello").representative(), 5);
    assert_eq!(string_to_decimal("hello"), fe(448378203247));
}

#[test]
fn string_to_decimal_of_short_strings() {
    assert_eq!(string_to_decimal("A").representative(), 14);
    assert_eq!(string_to_decimal("\0").representative(), 0);
    assert_eq!(string_to_decimal("abcdefgh"), fe(7017280452245743464));
    assert_eq!(string_to_decimal("abcdefgh").representative(), 5);
}

#[test]
fn string_to_decimal_reads_every_byte() {
    assert_eq!(string_to_decimal("\u{e9}"), fe(0xc3a9));
    assert_eq!(string_to_decimal("\u{e9}").representative(), 7);
}

#[test]
fn string_to_decimal_ignores_leading_zero_bytes() {
    assert_eq!(string_to_decimal("\0\0\0abcdefgh"), string_to_decimal("abcdefgh"));
}

#[test]
fn polynomial_drops_trailing_zeros() {
    let polynomial = Polynomial::new(&elements(&[3, 0, 5, 0, 17, 34]));
    assert_eq!(representatives(polynomial.coefficients()), vec![3, 0, 5]);
    let zero = Polynomial::new(&elements(&[0, 17, 0]));
    assert!(zero.coefficients().is_empty());
    let empty = Polynomial::new(&Vec::new());
    assert!(empty.coefficients().is_empty());
}

#[test]
fn polynomial_evaluates_in_the_field() {
    let polynomial = Polynomial::new(&elements(&[5, 5, 11]));
    assert_eq!(polynomial.evaluate(&fe(0)), fe(5));
    assert_eq!(polynomial.evaluate(&fe(1)), fe(4));
    assert_eq!(polynomial.evaluate(&fe(2)), fe(8));
    assert_eq!(polynomial.evaluate(&fe(3)), fe(0));
    assert_eq!(polynomial.evaluate(&fe(4)), fe(14));
    assert_eq!(polynomial.evaluate(&fe(5)), fe(16));
    assert_eq!(polynomial.evaluate(&fe(22)), fe(16));
}

#[test]
fn zero_polynomial_evaluates_to_zero() {
    let zero = Polynomial::new(&Vec::new());
    assert_eq!(zero.evaluate(&fe(9)), fe(0));
}

#[test]
fn interpolation_passes_through_the_points() {
    let xs = elements(&[1, 3, 5]);
    let ys = elements(&[4, 0, 16]);
    let polynomial = Polynomial::interpolate(&xs, &ys).unwrap();
    assert_eq!(representatives(polynomial.coefficients()), vec![5, 5, 11]);
    for i in 0..3 {
        assert_eq!(polynomial.evaluate(&xs[i]), ys[i]);
    }
}

#[test]
fn interpolation_of_a_single_point_is_constant() {
    let polynomial = Polynomial::interpolate(&elements(&[7]), &elements(&[9])).unwrap();
    assert_eq!(representatives(polynomial.coefficients()), vec![9]);
}

#[test]
fn interpolation_of_no_points_is_zero() {
    let polynomial = Polynomial::interpolate(&Vec::new(), &Vec::new()).unwrap();
    assert!(polynomial.coefficients().is_empty());
}

#[test]
fn interpolation_refuses_unequal_lengths() {
    let r = Polynomial::interpolate(&elements(&[1, 2]), &elements(&[1]));
    assert_eq!(r.err(), Some(ReconstructionError::UnequalLengths));
    let r = Polynomial::interpolate(&elements(&[1, 1]), &elements(&[1]));
    assert_eq!(r.err(), Some(ReconstructionError::UnequalLengths));
}

#[test]
fn interpolation_refuses_repeated_points() {
    let r = Polynomial::interpolate(&elements(&[1, 2, 1]), &elements(&[1, 2, 3]));
    assert_eq!(r.err(), Some(ReconstructionError::RepeatedPoint));
    let r = Polynomial::interpolate(&elements(&[1, 18]), &elements(&[1, 1]));
    assert_eq!(r.err(), Some(ReconstructionError::RepeatedPoint));
}

#[test]
fn shares_are_the_points_from_one_on() {
    let polynomial = Polynomial::new(&elements(&[5, 5, 11]));
    let shares = find_shares(polynomial, 5);
    let expected = [(1, 4), (2, 8), (3, 0), (4, 14), (5, 16)];
    assert_eq!(shares.len(), 5);
    for i in 0..5 {
        assert_eq!(shares[i], Share { x: fe(expected[i].0), y: fe(expected[i].1) });
    }
}

#[test]
fn share_numbers_wrap_around_the_field() {
    let polynomial = Polynomial::new(&elements(&[5, 5, 11]));
    let shares = find_shares(polynomial, 20);
    assert_eq!(shares.len(), 20);
    assert_eq!(shares[16], Share { x: fe(0), y: fe(5) });
    assert_eq!(shares[17], shares[0]);
}

#[test]
fn no_shares_of_a_polynomial() {
    let polynomial = Polynomial::new(&elements(&[5, 5, 11]));
    assert!(find_shares(polynomial, 0).is_empty());
}

#[test]
fn any_three_of_five_shares_recover_the_secret() {
    let secret = string_to_decimal("hello");
    let polynomial = Polynomial::new(&vec![secret, fe(5), fe(11)]);
    let shares = find_shares(polynomial, 5);
    for a in 0..5 {
        for b in 0..5 {
            for c in 0..5 {
                let selected = select_shares(&shares, &vec![a, b, c]);
                let recovered = recover_secret(&selected);
                if a == b || a == c || b == c {
                    assert_eq!(recovered, Err(ReconstructionError::RepeatedPoint));
                } else {
                    assert_eq!(recovered, Ok(secret));
                }
            }
        }
    }
}

#[test]
fn polynomial_through_the_shares_is_the_sharing_polynomial() {
    let polynomial = Polynomial::new(&elements(&[5, 5, 11]));
    let shares = find_shares(polynomial, 5);
    let selected = select_shares(&shares, &vec![4, 1, 2]);
    let through = interpolate_shares(&selected).unwrap();
    assert_eq!(representatives(through.coefficients()), vec![5, 5, 11]);
    let repeated = select_shares(&shares, &vec![4, 1, 4]);
    assert_eq!(interpolate_shares(&repeated).err(), Some(ReconstructionError::RepeatedPoint));
}

#[test]
fn more_shares_than_the_threshold_recover_the_secret() {
    let polynomial = Polynomial::new(&elements(&[9, 1, 2]));
    let shares = find_shares(polynomial, 7);
    assert_eq!(recover_secret(&shares), Ok(fe(9)));
}

#[test]
fn fewer_shares_than_the_threshold_may_miss_the_secret() {
    let polynomial = Polynomial::new(&elements(&[5, 5, 11]));
    let shares = find_shares(polynomial, 5);
    let selected = vec![shares[0], shares[1]];
    assert_eq!(recover_secret(&selected), Ok(fe(0)));
}

#[test]
fn recovery_from_no_shares_is_zero() {
    assert_eq!(recover_secret(&Vec::new()), Ok(fe(0)));
}

#[test]
fn constructed_polynomial_keeps_the_secret() {
    for _ in 0..50 {
        let secret = fe(5);
        let polynomial = construct_polynomial(secret, fe(3));
        let coefficients = polynomial.coefficients();
        assert_eq!(coefficients.len(), 3);
        assert_eq!(coefficients[0], secret);
        assert_ne!(coefficients[2], fe(0));
        assert_eq!(polynomial.evaluate(&fe(0)), secret);
    }
}

#[test]
fn constructed_polynomial_has_the_degree_of_the_threshold() {
    for k in 2..17 {
        for secret in [0, 5, 16] {
            for _ in 0..40 {
                let polynomial = construct_polynomial(fe(secret), fe(k));
                let coefficients = polynomial.coefficients();
                assert_eq!(coefficients.len() as u64, k);
                assert_eq!(coefficients[0], fe(secret));
                assert_ne!(coefficients[coefficients.len() - 1], fe(0));
            }
        }
    }
}

#[test]
fn last_coefficient_takes_every_nonzero_value() {
    let mut seen = [false; 17];
    for _ in 0..2000 {
        let polynomial = construct_polynomial(fe(5), fe(2));
        seen[polynomial.coefficients()[1].representative() as usize] = true;
    }
    assert!(!seen[0]);
    assert!(seen[1..].iter().all(|s| *s));
}

#[test]
fn middle_coefficients_may_be_zero() {
    let mut zero_seen = false;
    for _ in 0..2000 {
        let polynomial = construct_polynomial(fe(5), fe(3));
        if polynomial.coefficients()[1] == fe(0) {
            zero_seen = true;
        }
    }
    assert!(zero_seen);
}

#[test]
fn constructed_polynomial_with_threshold_one_is_the_secret() {
    let polynomial = construct_polynomial(fe(5), fe(1));
    assert_eq!(representatives(polynomial.coefficients()), vec![5]);
    let zero = construct_polynomial(fe(0), fe(1));
    assert!(zero.coefficients().is_empty());
}

#[test]
fn constructed_polynomials_differ() {
    let first = representatives(construct_polynomial(fe(5), fe(4)).coefficients());
    let mut differs = false;
    for _ in 0..100 {
        if representatives(construct_polynomial(fe(5), fe(4)).coefficients()) != first {
            differs = true;
        }
    }
    assert!(differs);
}

#[test]
fn selected_shares_stand_at_their_places() {
    let polynomial = Polynomial::new(&elements(&[5, 5, 11]));
    let shares = find_shares(polynomial, 5);
    let selected = select_shares(&shares, &vec![4, 0, 0, 2]);
    assert_eq!(selected, vec![shares[4], shares[0], shares[0], shares[2]]);
    assert!(select_shares(&shares, &Vec::new()).is_empty());
    assert!(select_shares(&Vec::new(), &Vec::new()).is_empty());
}

#[test]
fn selected_shares_come_from_the_list() {
    let polynomial = Polynomial::new(&elements(&[5, 5, 11]));
    let shares = find_shares(polynomial, 5);
    for _ in 0..50 {
        let selected = select_random_shares(shares.clone(), fe(3));
        assert_eq!(selected.len(), 3);
        for share in &selected {
            assert!(shares.contains(share));
        }
    }
}

#[test]
fn selecting_no_shares() {
    assert!(select_random_shares(Vec::new(), fe(0)).is_empty());
    let polynomial = Polynomial::new(&elements(&[5, 5, 11]));
    assert!(select_random_shares(find_shares(polynomial, 5), fe(17)).is_empty());
}

#[test]
fn selections_differ() {
    let polynomial = Polynomial::new(&elements(&[5, 5, 11]));
    let shares = find_shares(polynomial, 5);
    let first = select_random_shares(shares.clone(), fe(3));
    let mut differs = false;
    for _ in 0..100 {
        if select_random_shares(shares.clone(), fe(3)) != first {
            differs = true;
        }
    }
    assert!(differs);
}

#[test]
fn a_full_run_recovers_the_secret_unless_a_share_repeats() {
    for _ in 0..50 {
        let secret = string_to_decimal("hello");
        let k = fe(3);
        let polynomial = construct_polynomial(secret, k);
        let shares = find_shares(polynomial, 5);
        let selected = select_random_shares(shares, k);
        let repeats = selected[0] == selected[1]
            || selected[0] == selected[2]
            || selected[1] == selected[2];
        match recover_secret(&selected) {
            Ok(recovered) => {
                assert!(!repeats);
                assert_eq!(recovered, secret);
            }
            Err(e) => {
                assert!(repeats);
                assert_eq!(e, ReconstructionError::RepeatedPoint);
            }
        }
    }
}
