use gkr_circuits::error::PolyError;
use gkr_circuits::field::FieldElement;
use gkr_circuits::multilinear::MultilinearPoly;

fn fe(v: u64) -> FieldElement {
    FieldElement::from_u64(v)
}

#[test]
fn multilinear_polynomial_test_new() {
    let evaluations = vec![FieldElement::zero(), FieldElement::one(), FieldElement::one(), FieldElement::zero()];
    let poly = MultilinearPoly::new(evaluations.clone()).unwrap();

    assert_eq!(poly.evaluation, evaluations);
    assert_eq!(poly.number_of_variables, 2);
}

#[test]
fn multilinear_polynomial_test_partial_evaluate() {
    let evaluations = vec![FieldElement::zero(), FieldElement::one(), FieldElement::one(), FieldElement::zero()];
    let poly = MultilinearPoly::new(evaluations).unwrap();

    let value = fe(2);
    let new_poly = poly.partial_evaluate(0, &value);

    assert_eq!(new_poly.evaluation.len(), 2);
}

#[test]
fn multilinear_polynomial_test_full_evaluation() {
    let evaluations = vec![FieldElement::zero(), FieldElement::one(), FieldElement::one(), FieldElement::zero()];
    let poly = MultilinearPoly::new(evaluations).unwrap();

    let values = vec![fe(2), fe(3)];
    let result = poly.full_evaluation(values).unwrap();

    assert!(result != FieldElement::zero());
}

#[test]
fn multilinear_polynomial_test_addition() {
    let poly1 = MultilinearPoly::new(vec![fe(1), fe(0), fe(1), fe(0)]).unwrap();
    let poly2 = MultilinearPoly::new(vec![fe(0), fe(1), fe(0), fe(1)]).unwrap();

    let sum = poly1.add(&poly2);

    assert_eq!(sum.evaluation, vec![fe(1), fe(1), fe(1), fe(1)]);
}

#[test]
fn test_new_invalid_evaluations() {
    let evaluations = vec![fe(1), fe(2), fe(3)];
    assert_eq!(MultilinearPoly::new(evaluations).unwrap_err(), PolyError::InvalidLength);
}

#[test]
fn new_rejects_empty_vector() {
    assert_eq!(MultilinearPoly::new(Vec::new()).unwrap_err(), PolyError::InvalidLength);
}

#[test]
fn new_accepts_single_value() {
    let poly = MultilinearPoly::new(vec![fe(9)]).unwrap();
    assert_eq!(poly.number_of_variables, 0);
    assert_eq!(poly.full_evaluation(Vec::new()).unwrap(), fe(9));
}

#[test]
fn full_evaluation_rejects_wrong_arity() {
    let poly = MultilinearPoly::new(vec![fe(1), fe(2), fe(3), fe(4)]).unwrap();
    assert_eq!(poly.full_evaluation(vec![fe(1)]).unwrap_err(), PolyError::ArityMismatch);
    assert_eq!(
        poly.full_evaluation(vec![fe(1), fe(2), fe(3)]).unwrap_err(),
        PolyError::ArityMismatch
    );
}

#[test]
fn full_evaluation_at_hypercube_points_gives_stored_values() {
    let values = vec![fe(1), fe(2), fe(3), fe(4), fe(5), fe(6), fe(7), fe(8)];
    let poly = MultilinearPoly::new(values.clone()).unwrap();
    for i in 0..8u64 {
        let point = vec![fe((i >> 2) & 1), fe((i >> 1) & 1), fe(i & 1)];
        assert_eq!(poly.full_evaluation(point).unwrap(), values[i as usize]);
    }
}

#[test]
fn partial_evaluation_at_zero_and_one_gives_halves() {
    let values = vec![fe(1), fe(2), fe(3), fe(4), fe(5), fe(6), fe(7), fe(8)];
    let poly = MultilinearPoly::new(values.clone()).unwrap();
    assert_eq!(poly.partial_evaluate(0, &fe(0)).evaluation, values[..4].to_vec());
    assert_eq!(poly.partial_evaluate(0, &fe(1)).evaluation, values[4..].to_vec());
}

#[test]
fn partial_evaluation_follows_the_line_formula() {
    // y0 + v·(y1 − y0) with the pairs (1, 5), (2, 6), (3, 7), (4, 8) and v = 3.
    let poly = MultilinearPoly::new(vec![fe(1), fe(2), fe(3), fe(4), fe(5), fe(6), fe(7), fe(8)]).unwrap();
    let r = poly.partial_evaluate(0, &fe(3));
    assert_eq!(r.evaluation, vec![fe(13), fe(14), fe(15), fe(16)]);
    assert_eq!(r.number_of_variables, 2);
}

#[test]
fn partial_evaluation_of_a_later_variable() {
    // Variable 2 pairs neighbouring entries: (1, 2), (3, 4), (5, 6), (7, 8).
    let poly = MultilinearPoly::new(vec![fe(1), fe(2), fe(3), fe(4), fe(5), fe(6), fe(7), fe(8)]).unwrap();
    let r = poly.partial_evaluate(2, &fe(2));
    assert_eq!(r.evaluation, vec![fe(3), fe(5), fe(7), fe(9)]);
    // Variable 1 pairs entries two apart: (1, 3), (2, 4), (5, 7), (6, 8).
    let r = poly.partial_evaluate(1, &fe(0));
    assert_eq!(r.evaluation, vec![fe(1), fe(2), fe(5), fe(6)]);
}

#[test]
fn partial_evaluation_wraps_below_zero() {
    // 5 + 2·(3 − 5) = 1, and 1 + 2·(0 − 1) = −1.
    let poly = MultilinearPoly::new(vec![fe(5), fe(1), fe(3), fe(0)]).unwrap();
    let r = poly.partial_evaluate(0, &fe(2));
    assert_eq!(r.evaluation[0], fe(1));
    assert_eq!(r.evaluation[1], FieldElement::zero().sub(&fe(1)));
}

#[test]
fn multi_partial_evaluate_fixes_leading_variables() {
    let poly = MultilinearPoly::new(vec![fe(1), fe(2), fe(3), fe(4), fe(5), fe(6), fe(7), fe(8)]).unwrap();
    let r = poly.multi_partial_evaluate(&[fe(1), fe(0)]);
    assert_eq!(r.evaluation, vec![fe(5), fe(6)]);
    assert_eq!(r.number_of_variables, 1);
}

#[test]
fn scale_multiplies_every_value() {
    let poly = MultilinearPoly::new(vec![fe(1), fe(2), fe(3), fe(4)]).unwrap();
    assert_eq!(poly.scale(fe(3)).evaluation, vec![fe(3), fe(6), fe(9), fe(12)]);
}

#[test]
fn multiply_is_pointwise() {
    let a = MultilinearPoly::new(vec![fe(1), fe(2), fe(3), fe(4)]).unwrap();
    let b = MultilinearPoly::new(vec![fe(5), fe(6), fe(7), fe(8)]).unwrap();
    assert_eq!(a.multiply(&b).evaluation, vec![fe(5), fe(12), fe(21), fe(32)]);
}
