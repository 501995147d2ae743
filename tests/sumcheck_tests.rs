use gkr_circuits::composed::{ProductPoly, SumPoly};
use gkr_circuits::field::FieldElement;
use gkr_circuits::multilinear::MultilinearPoly;
use gkr_circuits::sumcheck::{
    generate_sumcheck_proof, partial_sum_proof, prove, to_bytes, verify, verify_sumcheck_proof,
    Proof,
};
use gkr_circuits::transcript::Transcript;
use gkr_circuits::univariate::UnivariatePoly;

fn fe(v: u64) -> FieldElement {
    FieldElement::from_u64(v)
}

fn field_sum(values: &[FieldElement]) -> FieldElement {
    values.iter().fold(FieldElement::zero(), |acc, v| acc.add(v))
}

fn valid_proving_and_verification() {
    let initial_polynomial =
        MultilinearPoly::new(vec![fe(1), fe(2), fe(3), fe(4), fe(4), fe(4), fe(4), fe(4)]).unwrap();
    let proof = prove(&initial_polynomial);
    let is_verified = verify(&initial_polynomial, proof);
    assert_eq!(is_verified, true);
}

fn invalid_proof_doesnt_verify() {
    let initial_polynomial = MultilinearPoly::new(vec![fe(0), fe(3), fe(2), fe(5)]).unwrap();

    let tampered_claimed_sum = fe(21);
    let proof = prove(&initial_polynomial);
    let false_proof = Proof { claimed_sum: tampered_claimed_sum, proof_polynomials: proof.proof_polynomials };
    let is_verified = verify(&initial_polynomial, false_proof);
    assert_eq!(is_verified, false, "Tampered Claimed Sum Test Failed");

    let mut tampered_proof_polynomials = prove(&initial_polynomial).proof_polynomials;
    if let Some(first_poly) = tampered_proof_polynomials.first_mut() {
        if let Some(first_element) = first_poly.first_mut() {
            *first_element = first_element.add(&fe(1));
        }
    }
    let false_proof = Proof {
        claimed_sum: prove(&initial_polynomial).claimed_sum,
        proof_polynomials: tampered_proof_polynomials,
    };

    let is_verified = verify(&initial_polynomial, false_proof);
    assert_eq!(is_verified, false);
}

fn intermediate_sum_check() {
    let initial_polynomial = MultilinearPoly::new(vec![fe(1), fe(2), fe(3), fe(4)]).unwrap();
    let claimed_sum = field_sum(&initial_polynomial.evaluation);

    let mut transcript = Transcript::init();
    transcript.absorb(&to_bytes(&initial_polynomial.evaluation));
    transcript.absorb(&to_bytes(&[claimed_sum]));

    let num_rounds = initial_polynomial.evaluation.len().ilog2();
    let mut current_poly = initial_polynomial.clone();
    let mut expected_sum = claimed_sum;

    for _ in 0..num_rounds {
        let proof_poly = partial_sum_proof(&current_poly.evaluation);

        assert_eq!(field_sum(&proof_poly), expected_sum, "Intermediate sum check failed!");

        transcript.absorb(&to_bytes(&proof_poly));
        let random_challenge = transcript.squeeze();

        expected_sum = proof_poly[0].add(&random_challenge.mul(&proof_poly[1].sub(&proof_poly[0])));
        current_poly = current_poly.partial_evaluate(0, &random_challenge);
    }
}

#[test]
fn sumcheck_test_valid_proving_and_verification() {
    valid_proving_and_verification();
}

#[test]
fn sumcheck_test_invalid_proof_doesnt_verify() {
    invalid_proof_doesnt_verify();
}

#[test]
fn sumcheck_test_intermediate_sum_check() {
    intermediate_sum_check();
}

#[test]
fn fiat_shamir_test_valid_proving_and_verification() {
    valid_proving_and_verification();
}

#[test]
fn fiat_shamir_test_invalid_proof_doesnt_verify() {
    invalid_proof_doesnt_verify();
}

#[test]
fn fiat_shamir_test_intermediate_sum_check() {
    intermediate_sum_check();
}

#[test]
fn eight_point_scenario_accepts_true_sum_and_rejects_thirty() {
    let poly = MultilinearPoly::new(vec![fe(1), fe(2), fe(3), fe(4), fe(4), fe(4), fe(4), fe(4)]).unwrap();
    let proof = prove(&poly);
    // 1 + 2 + 3 + 4 + 4 + 4 + 4 + 4.
    assert_eq!(proof.claimed_sum, fe(26));
    assert_eq!(proof.proof_polynomials.len(), 3);
    assert_eq!(proof.proof_polynomials[0], vec![fe(10), fe(16)]);
    let tampered = Proof { claimed_sum: fe(30), proof_polynomials: proof.proof_polynomials.clone() };
    assert!(verify(&poly, proof));
    assert!(!verify(&poly, tampered));
}

#[test]
fn partial_sum_proof_sums_the_halves() {
    assert_eq!(partial_sum_proof(&[fe(1), fe(2), fe(3), fe(4)]), vec![fe(3), fe(7)]);
}

#[test]
fn verify_rejects_wrong_number_of_rounds() {
    let poly = MultilinearPoly::new(vec![fe(1), fe(2), fe(3), fe(4)]).unwrap();
    let mut proof = prove(&poly);
    proof.proof_polynomials.pop();
    assert!(!verify(&poly, proof));
    let mut proof = prove(&poly);
    proof.proof_polynomials.push(vec![fe(0), fe(0)]);
    assert!(!verify(&poly, proof));
}

#[test]
fn verify_rejects_malformed_round_message() {
    let poly = MultilinearPoly::new(vec![fe(1), fe(2), fe(3), fe(4)]).unwrap();
    let mut proof = prove(&poly);
    proof.proof_polynomials[0].push(fe(0));
    assert!(!verify(&poly, proof));
}

#[test]
fn tampering_a_later_round_is_rejected() {
    let poly = MultilinearPoly::new(vec![fe(1), fe(2), fe(3), fe(4), fe(4), fe(4), fe(4), fe(4)]).unwrap();
    let mut proof = prove(&poly);
    proof.proof_polynomials[2][1] = proof.proof_polynomials[2][1].add(&fe(1));
    assert!(!verify(&poly, proof));
}

fn sample_sum_poly() -> SumPoly {
    let p1 = ProductPoly::init_poly(vec![vec![fe(0), fe(0), fe(0), fe(3)], vec![fe(0), fe(0), fe(0), fe(2)]]).unwrap();
    let p2 = ProductPoly::init_poly(vec![vec![fe(1), fe(2), fe(0), fe(4)], vec![fe(7), fe(1), fe(0), fe(5)]]).unwrap();
    SumPoly::new(vec![p1, p2]).unwrap()
}

#[test]
fn sumcheck_over_sum_of_products_round_trip() {
    let sum_poly = sample_sum_poly();
    // 3·2 + (1·7 + 2·1 + 0 + 4·5) = 35.
    let claimed = fe(35);
    let mut prover_transcript = Transcript::init();
    let proof = generate_sumcheck_proof(claimed, &sum_poly, &mut prover_transcript);
    assert_eq!(proof.proof_polynomials.len(), 2);
    assert!(proof.proof_polynomials.iter().all(|p| p.len() == 3));

    let round_polys: Vec<UnivariatePoly> =
        proof.proof_polynomials.iter().map(|c| UnivariatePoly::new(c.clone())).collect();
    let mut verifier_transcript = Transcript::init();
    let result = verify_sumcheck_proof(round_polys.clone(), claimed, &mut verifier_transcript);
    assert!(result.verified);
    assert_eq!(result.random_challenges, proof.random_challenges);
    let at_point = sum_poly.evaluate(result.random_challenges.clone()).unwrap();
    assert_eq!(result.final_claimed_sum, at_point);

    let mut other_transcript = Transcript::init();
    let wrong = verify_sumcheck_proof(round_polys, fe(36), &mut other_transcript);
    assert!(!wrong.verified);
    assert_eq!(wrong.final_claimed_sum, FieldElement::zero());
    assert_eq!(wrong.random_challenges, vec![FieldElement::zero()]);
}

#[test]
fn round_polynomial_takes_the_round_sums() {
    let sum_poly = sample_sum_poly();
    let mut transcript = Transcript::init();
    let proof = generate_sumcheck_proof(fe(35), &sum_poly, &mut transcript);
    let first = UnivariatePoly::new(proof.proof_polynomials[0].clone());
    // With the first variable at 0 the sum is 1·7 + 2·1 = 9; at 1 it is 3·2 + 4·5 = 26.
    assert_eq!(first.evaluate(fe(0)), fe(9));
    assert_eq!(first.evaluate(fe(1)), fe(26));
}

#[test]
fn tampering_any_first_round_coefficient_is_rejected() {
    let sum_poly = sample_sum_poly();
    let mut transcript = Transcript::init();
    let proof = generate_sumcheck_proof(fe(35), &sum_poly, &mut transcript);
    for which in 0..3 {
        let mut round_polys: Vec<UnivariatePoly> =
            proof.proof_polynomials.iter().map(|c| UnivariatePoly::new(c.clone())).collect();
        round_polys[0].coefficient[which] = round_polys[0].coefficient[which].add(&fe(1));
        let mut verifier_transcript = Transcript::init();
        let result = verify_sumcheck_proof(round_polys, fe(35), &mut verifier_transcript);
        assert!(!result.verified);
    }
}

#[test]
fn empty_round_polynomial_is_rejected() {
    let mut transcript = Transcript::init();
    let result = verify_sumcheck_proof(vec![UnivariatePoly::new(Vec::new())], FieldElement::zero(), &mut transcript);
    assert!(!result.verified);
}
