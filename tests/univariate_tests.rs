use gkr_circuits::error::PolyError;
use gkr_circuits::field::FieldElement;
use gkr_circuits::univariate::UnivariatePoly;

fn fe(v: u64) -> FieldElement {
    FieldElement::from_u64(v)
}

#[test]
fn test_new_and_degree() {
    let coeffs: Vec<FieldElement> = vec![fe(17), fe(4), fe(99), fe(3), fe(12)];
    let poly = UnivariatePoly::new(coeffs.clone());

    assert_eq!(poly.coefficient, coeffs);
    assert_eq!(poly.degree(), coeffs.len() - 1);
}

#[test]
fn polynomials_test_evaluate() {
    let coeffs = vec![FieldElement::one(), FieldElement::one(), FieldElement::one()];
    let poly = UnivariatePoly::new(coeffs);

    let x = FieldElement::one();
    let result = poly.evaluate(x);
    assert_eq!(result, FieldElement::one().add(&FieldElement::one()).add(&FieldElement::one()));
}

#[test]
fn test_interpolation() {
    let xs = vec![FieldElement::zero(), FieldElement::one(), fe(2)];
    let ys = vec![FieldElement::one(), FieldElement::one(), FieldElement::one()];

    let poly = UnivariatePoly::interpolate(xs.clone(), ys.clone()).unwrap();

    for (&x, &y) in xs.iter().zip(ys.iter()) {
        assert_eq!(poly.evaluate(x), y);
    }
}

#[test]
fn test_scalar_mul() {
    let coeffs = vec![FieldElement::one(), FieldElement::one(), FieldElement::one()];
    let poly = UnivariatePoly::new(coeffs.clone());
    let scalar = fe(2);

    let scaled = poly.scalar_mul(&scalar);
    assert_eq!(scaled.coefficient, coeffs.into_iter().map(|c| c.mul(&scalar)).collect::<Vec<_>>());
}

#[test]
fn test_add() {
    let coeffs1 = vec![FieldElement::one(), FieldElement::one()];
    let coeffs2 = vec![FieldElement::one(), FieldElement::one(), FieldElement::one()];
    let poly1 = UnivariatePoly::new(coeffs1.clone());
    let poly2 = UnivariatePoly::new(coeffs2.clone());

    let sum = poly1.add(&poly2);
    let expected = vec![fe(2), fe(2), FieldElement::one()];
    assert_eq!(sum.coefficient, expected);
}

#[test]
fn evaluate_uses_horner_rule() {
    // 3 + 2x + 5x^2 at x = 4 is 3 + 8 + 80.
    let poly = UnivariatePoly::new(vec![fe(3), fe(2), fe(5)]);
    assert_eq!(poly.evaluate(fe(4)), fe(91));
}

#[test]
fn evaluate_of_empty_polynomial_is_zero() {
    let poly = UnivariatePoly::new(Vec::new());
    assert_eq!(poly.evaluate(fe(4)), FieldElement::zero());
}

#[test]
fn interpolation_recovers_a_quadratic() {
    // 1 + 2x + 3x^2 through x = 0, 1, 2.
    let xs = vec![fe(0), fe(1), fe(2)];
    let ys = vec![fe(1), fe(6), fe(17)];
    let poly = UnivariatePoly::interpolate(xs, ys).unwrap();
    assert_eq!(poly.coefficient, vec![fe(1), fe(2), fe(3)]);
    assert_eq!(poly.evaluate(fe(5)), fe(86));
}

#[test]
fn interpolation_rejects_duplicate_points() {
    let xs = vec![fe(0), fe(1), fe(0)];
    let ys = vec![fe(1), fe(2), fe(3)];
    assert_eq!(UnivariatePoly::interpolate(xs, ys).unwrap_err(), PolyError::DuplicatePoint);
}

#[test]
fn interpolation_rejects_mismatched_lengths() {
    let xs = vec![fe(0), fe(1)];
    let ys = vec![fe(1)];
    assert_eq!(UnivariatePoly::interpolate(xs, ys).unwrap_err(), PolyError::LengthMismatch);
}

#[test]
fn interpolation_of_no_points_is_zero() {
    let poly = UnivariatePoly::interpolate(Vec::new(), Vec::new()).unwrap();
    assert_eq!(poly.coefficient, vec![FieldElement::zero()]);
}

#[test]
fn test_mul() {
    let coeffs1 = vec![FieldElement::one(), FieldElement::one()];
    let coeffs2 = vec![FieldElement::one(), FieldElement::one()];
    let poly1 = UnivariatePoly::new(coeffs1.clone());
    let poly2 = UnivariatePoly::new(coeffs2.clone());

    let product = poly1.multiply(&poly2);
    let expected = vec![FieldElement::one(), fe(2), FieldElement::one()];
    assert_eq!(product.coefficient, expected);
}

#[test]
fn test_sum() {
    let poly1 = UnivariatePoly::new(vec![FieldElement::one(), FieldElement::one()]);
    let poly2 = UnivariatePoly::new(vec![FieldElement::one(), FieldElement::one(), FieldElement::one()]);

    let sum = UnivariatePoly::sum(&[poly1, poly2]);
    let expected = vec![fe(2), fe(2), FieldElement::one()];
    assert_eq!(sum.coefficient, expected);
}

#[test]
fn multiply_matches_convolution() {
    // (2 + 3x)(1 + 4x + 5x^2) = 2 + 11x + 22x^2 + 15x^3.
    let a = UnivariatePoly::new(vec![fe(2), fe(3)]);
    let b = UnivariatePoly::new(vec![fe(1), fe(4), fe(5)]);
    assert_eq!(a.multiply(&b).coefficient, vec![fe(2), fe(11), fe(22), fe(15)]);
}

#[test]
fn product_multiplies_every_polynomial() {
    // (1 + x)(2 + x)(3) = 6 + 9x + 3x^2.
    let polys = vec![
        UnivariatePoly::new(vec![fe(1), fe(1)]),
        UnivariatePoly::new(vec![fe(2), fe(1)]),
        UnivariatePoly::new(vec![fe(3)]),
    ];
    assert_eq!(UnivariatePoly::product(&polys).coefficient, vec![fe(6), fe(9), fe(3)]);
    assert_eq!(UnivariatePoly::product(&[]).coefficient, vec![FieldElement::one()]);
}

#[test]
fn sum_has_the_longest_length() {
    let polys = vec![UnivariatePoly::new(vec![fe(1)]), UnivariatePoly::new(vec![fe(1), fe(2), fe(3)])];
    assert_eq!(UnivariatePoly::sum(&polys).coefficient, vec![fe(2), fe(2), fe(3)]);
    assert_eq!(UnivariatePoly::sum(&[]).coefficient, vec![FieldElement::zero()]);
}
