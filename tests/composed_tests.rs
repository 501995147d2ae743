use gkr_circuits::composed::{ProductPoly, SumPoly};
use gkr_circuits::error::PolyError;
use gkr_circuits::field::FieldElement;

fn fe(v: u64) -> FieldElement {
    FieldElement::from_u64(v)
}

fn sample_products() -> (ProductPoly, ProductPoly) {
    let poly_evals_1 = vec![vec![fe(0), fe(0), fe(0), fe(3)], vec![fe(0), fe(0), fe(0), fe(2)]];
    let poly_evals_2 = vec![vec![fe(0), fe(0), fe(0), fe(4)], vec![fe(0), fe(0), fe(0), fe(5)]];
    (ProductPoly::init_poly(poly_evals_1).unwrap(), ProductPoly::init_poly(poly_evals_2).unwrap())
}

#[test]
fn product_poly_evaluates_multiple_polys() {
    let poly_evals = vec![vec![fe(0), fe(0), fe(0), fe(3)], vec![fe(0), fe(0), fe(0), fe(2)]];

    let product_polys = ProductPoly::init_poly(poly_evals).unwrap();

    let values = vec![fe(2), fe(3)];

    let expected_evaluation = fe(216);

    let result = product_polys.evaluate(values).unwrap();

    assert_eq!(expected_evaluation, result);
}

#[test]
fn product_poly_partially_evaluates_multiple_polys() {
    let poly_evals = vec![vec![fe(0), fe(0), fe(0), fe(3)], vec![fe(0), fe(0), fe(0), fe(2)]];

    let product_polys = ProductPoly::init_poly(poly_evals).unwrap();

    let value = fe(2);

    let expected_evaluation = vec![vec![fe(0), fe(6)], vec![fe(0), fe(4)]];

    let result = product_polys.partial_evaluate(&value);

    let result_polys: Vec<_> = result.evaluation.iter().map(|poly| poly.evaluation.clone()).collect();

    assert_eq!(result_polys, expected_evaluation);
}

#[test]
fn product_poly_doesnt_allow_different_evaluation_size() {
    let poly_evals = vec![
        vec![fe(0), fe(0), fe(0), fe(3)],
        vec![fe(0), fe(0), fe(0), fe(4), fe(0), fe(0), fe(0), fe(4)],
    ];

    assert_eq!(ProductPoly::init_poly(poly_evals).unwrap_err(), PolyError::LengthMismatch);
}

#[test]
fn product_poly_rejects_length_that_is_no_power_of_two() {
    let poly_evals = vec![vec![fe(0), fe(1), fe(2)], vec![fe(3), fe(4), fe(5)]];
    assert_eq!(ProductPoly::init_poly(poly_evals).unwrap_err(), PolyError::InvalidLength);
}

#[test]
fn product_poly_gets_correct_degree() {
    let (product_poly, _) = sample_products();
    assert_eq!(product_poly.get_degree(), 2);
}

#[test]
fn sum_poly_gets_correct_degree() {
    let (product_poly_1, product_poly_2) = sample_products();
    let sum_poly = SumPoly::new(vec![product_poly_1, product_poly_2]).unwrap();
    assert_eq!(sum_poly.get_degree(), 2);
}

#[test]
fn sum_poly_evaluates_properly() {
    let (product_poly_1, product_poly_2) = sample_products();

    let sum_poly = SumPoly::new(vec![product_poly_1, product_poly_2]).unwrap();

    let values = vec![fe(2), fe(3)];

    let expected_result = fe(936);

    let result = sum_poly.evaluate(values).unwrap();

    assert_eq!(expected_result, result);
}

#[test]
fn sum_poly_partially_evaluates_properly() {
    let (product_poly_1, product_poly_2) = sample_products();

    let value = fe(2);

    let expected_evaluation_1 = vec![vec![fe(0), fe(6)], vec![fe(0), fe(4)]];

    let expected_evaluation_2 = vec![vec![fe(0), fe(8)], vec![fe(0), fe(10)]];

    let sum_poly = SumPoly::new(vec![product_poly_1, product_poly_2]).unwrap();

    let result = sum_poly.partial_evaluate(&value);

    let result_polys: Vec<_> = result
        .polys
        .iter()
        .map(|product_poly| {
            product_poly.evaluation.iter().map(|poly| poly.evaluation.clone()).collect::<Vec<_>>()
        })
        .collect();

    assert_eq!(vec![expected_evaluation_1, expected_evaluation_2], result_polys);
}

#[test]
fn sum_poly_rejects_products_of_different_degree() {
    let (product_poly_1, _) = sample_products();
    let three = ProductPoly::init_poly(vec![vec![fe(1), fe(2)], vec![fe(3), fe(4)], vec![fe(5), fe(6)]]).unwrap();
    assert_eq!(SumPoly::new(vec![product_poly_1, three]).unwrap_err(), PolyError::DegreeMismatch);
}

#[test]
fn sum_poly_rejects_products_in_different_variables() {
    let (product_poly_1, _) = sample_products();
    let small = ProductPoly::init_poly(vec![vec![fe(1), fe(2)], vec![fe(3), fe(4)]]).unwrap();
    assert_eq!(SumPoly::new(vec![product_poly_1, small]).unwrap_err(), PolyError::LengthMismatch);
}

#[test]
fn sum_poly_reduce_sums_pointwise_products() {
    let (product_poly_1, product_poly_2) = sample_products();
    let sum_poly = SumPoly::new(vec![product_poly_1, product_poly_2]).unwrap();
    // 3·2 + 4·5 at the last point, zero elsewhere.
    assert_eq!(sum_poly.reduce(), vec![fe(0), fe(0), fe(0), fe(26)]);
}

#[test]
fn product_poly_evaluate_rejects_wrong_arity() {
    let (product_poly, _) = sample_products();
    assert_eq!(product_poly.evaluate(vec![fe(1)]).unwrap_err(), PolyError::ArityMismatch);
}
