use gkr_circuits::circuit::{Circuit, Gates, Layers, Operator};
use gkr_circuits::field::FieldElement;
use gkr_circuits::gkr::{combine_polynomials_using_operators, is_gkr_shaped, prove, verify, Proof};
use gkr_circuits::univariate::UnivariatePoly;

fn fe(v: u64) -> FieldElement {
    FieldElement::from_u64(v)
}

#[test]
fn it_add_polys_correctly() {
    let poly_a = &[fe(0), fe(2)];
    let poly_b = &[fe(0), fe(3)];

    let expected_poly = vec![fe(0), fe(3), fe(2), fe(5)];

    let result = combine_polynomials_using_operators(poly_a, poly_b, Operator::Add).unwrap();

    assert_eq!(result.evaluation, expected_poly);

    let poly_a = &[fe(0), fe(3)];
    let poly_b = &[fe(0), fe(0), fe(0), fe(2)];

    let expected_poly = vec![fe(0), fe(0), fe(0), fe(2), fe(3), fe(3), fe(3), fe(5)];

    let result = combine_polynomials_using_operators(poly_a, poly_b, Operator::Add).unwrap();

    assert_eq!(result.evaluation, expected_poly);
}

#[test]
fn it_multiplies_polys_correctly() {
    let poly_a = &[fe(0), fe(2)];
    let poly_b = &[fe(0), fe(3)];

    let expected_poly = vec![fe(0), fe(0), fe(0), fe(6)];

    let result = combine_polynomials_using_operators(poly_a, poly_b, Operator::Mul).unwrap();

    assert_eq!(result.evaluation, expected_poly);

    let poly_a = &[fe(0), fe(3)];
    let poly_b = &[fe(0), fe(0), fe(0), fe(2)];

    let expected_poly = vec![fe(0), fe(0), fe(0), fe(0), fe(0), fe(0), fe(0), fe(6)];

    let result = combine_polynomials_using_operators(poly_a, poly_b, Operator::Mul).unwrap();

    assert_eq!(result.evaluation, expected_poly);
}

fn sample_inputs() -> Vec<FieldElement> {
    vec![fe(5), fe(2), fe(2), fe(4), fe(10), fe(0), fe(3), fe(3)]
}

fn sample_circuit(inputs: &[FieldElement]) -> Circuit {
    let test_circuit: Vec<Layers> = vec![
        Layers::new_layer(vec![
            Gates::new_gate(inputs[0], inputs[1], Operator::Mul),
            Gates::new_gate(inputs[2], inputs[3], Operator::Mul),
            Gates::new_gate(inputs[4], inputs[5], Operator::Mul),
            Gates::new_gate(inputs[6], inputs[7], Operator::Mul),
        ]),
        Layers::new_layer(vec![
            Gates::new_gate(inputs[0], inputs[1], Operator::Add),
            Gates::new_gate(inputs[2], inputs[3], Operator::Add),
        ]),
        Layers::new_layer(vec![Gates::new_gate(inputs[4], inputs[5], Operator::Add)]),
    ];
    Circuit::new_circuit(test_circuit)
}

#[test]
fn test_prove() {
    let inputs = sample_inputs();
    let circuit = sample_circuit(&inputs);

    let proof = prove(&circuit, inputs.clone());

    let verification_result = verify(proof, circuit, &inputs);

    assert!(verification_result, "Proof verification failed");
}

#[test]
fn proof_carries_the_circuit_output() {
    let inputs = sample_inputs();
    let circuit = sample_circuit(&inputs);
    assert!(is_gkr_shaped(&circuit, inputs.len()));
    let proof = prove(&circuit, inputs.clone());
    let values = circuit.evaluate_circuit(inputs.clone());
    assert_eq!(values[2], vec![fe(27)]);
    assert_eq!(proof.final_layer_poly.evaluation, vec![fe(27), fe(0)]);
    assert_eq!(proof.sumcheck_proof_evals.len(), 3);
    assert_eq!(proof.sumcheck_claimed_evals.len(), 2);
    let rounds: Vec<usize> = proof.sumcheck_proof_evals.iter().map(|l| l.len()).collect();
    assert_eq!(rounds, vec![2, 4, 6]);
}

#[test]
fn tampering_any_round_polynomial_is_rejected() {
    let inputs = sample_inputs();
    let honest = prove(&sample_circuit(&inputs), inputs.clone());
    for layer in 0..honest.sumcheck_proof_evals.len() {
        for round in 0..honest.sumcheck_proof_evals[layer].len() {
            for coefficient in 0..3 {
                let mut proof = prove(&sample_circuit(&inputs), inputs.clone());
                let c = &mut proof.sumcheck_proof_evals[layer][round].coefficient[coefficient];
                *c = c.add(&fe(1));
                assert!(!verify(proof, sample_circuit(&inputs), &inputs));
            }
        }
    }
}

#[test]
fn tampering_any_claimed_evaluation_is_rejected() {
    let inputs = sample_inputs();
    let count = prove(&sample_circuit(&inputs), inputs.clone()).sumcheck_claimed_evals.len();
    for layer in 0..count {
        for side in 0..2 {
            let mut proof: Proof = prove(&sample_circuit(&inputs), inputs.clone());
            let pair = &mut proof.sumcheck_claimed_evals[layer];
            if side == 0 {
                pair.0 = pair.0.add(&fe(1));
            } else {
                pair.1 = pair.1.add(&fe(1));
            }
            assert!(!verify(proof, sample_circuit(&inputs), &inputs));
        }
    }
}

#[test]
fn a_wrong_output_is_rejected() {
    let inputs = sample_inputs();
    let mut proof = prove(&sample_circuit(&inputs), inputs.clone());
    proof.final_layer_poly.evaluation[0] = fe(28);
    assert!(!verify(proof, sample_circuit(&inputs), &inputs));
}

#[test]
fn other_inputs_are_rejected() {
    let inputs = sample_inputs();
    let proof = prove(&sample_circuit(&inputs), inputs.clone());
    let mut other = inputs.clone();
    other[7] = fe(4);
    assert!(!verify(proof, sample_circuit(&inputs), &other));
}

#[test]
fn malformed_proofs_are_rejected() {
    let inputs = sample_inputs();
    let mut proof = prove(&sample_circuit(&inputs), inputs.clone());
    proof.sumcheck_proof_evals.pop();
    assert!(!verify(proof, sample_circuit(&inputs), &inputs));
    let mut proof = prove(&sample_circuit(&inputs), inputs.clone());
    proof.sumcheck_proof_evals[1].pop();
    assert!(!verify(proof, sample_circuit(&inputs), &inputs));
    let mut proof = prove(&sample_circuit(&inputs), inputs.clone());
    proof.sumcheck_claimed_evals.pop();
    assert!(!verify(proof, sample_circuit(&inputs), &inputs));
}

#[test]
fn single_layer_circuit_round_trip() {
    let inputs = vec![fe(6), fe(7)];
    let circuit = Circuit::new_circuit(vec![Layers::new_layer(vec![Gates::new_gate(fe(6), fe(7), Operator::Mul)])]);
    let proof = prove(&circuit, inputs.clone());
    assert_eq!(proof.final_layer_poly.evaluation, vec![fe(42), fe(0)]);
    assert!(verify(proof, circuit, &inputs));
}

#[test]
fn unshaped_circuits_are_rejected() {
    let inputs = sample_inputs();
    let circuit = sample_circuit(&inputs);
    assert!(!is_gkr_shaped(&circuit, 4));
    let proof = prove(&circuit, inputs.clone());
    assert!(!verify(proof, sample_circuit(&inputs), &inputs[..4]));
}

fn two_output_circuit(inputs: &[FieldElement]) -> Circuit {
    Circuit::new_circuit(vec![
        Layers::new_layer(vec![
            Gates::new_gate(inputs[0], inputs[1], Operator::Mul),
            Gates::new_gate(inputs[2], inputs[3], Operator::Mul),
            Gates::new_gate(inputs[4], inputs[5], Operator::Mul),
            Gates::new_gate(inputs[6], inputs[7], Operator::Mul),
        ]),
        Layers::new_layer(vec![
            Gates::new_gate(inputs[0], inputs[1], Operator::Add),
            Gates::new_gate(inputs[2], inputs[3], Operator::Mul),
        ]),
    ])
}

#[test]
fn two_gate_output_round_trip() {
    let inputs = sample_inputs();
    let circuit = two_output_circuit(&inputs);
    assert!(is_gkr_shaped(&circuit, inputs.len()));
    let proof = prove(&circuit, inputs.clone());
    // [10, 8, 0, 9] below, then 10 + 8 and 0 · 9: no padding.
    assert_eq!(proof.final_layer_poly.evaluation, vec![fe(18), fe(0)]);
    let rounds: Vec<usize> = proof.sumcheck_proof_evals.iter().map(|l| l.len()).collect();
    assert_eq!(rounds, vec![4, 6]);
    assert!(verify(proof, two_output_circuit(&inputs), &inputs));
}

#[test]
fn two_gate_output_tampering_is_rejected() {
    let inputs = sample_inputs();
    let mut proof = prove(&two_output_circuit(&inputs), inputs.clone());
    proof.final_layer_poly.evaluation[1] = fe(1);
    assert!(!verify(proof, two_output_circuit(&inputs), &inputs));
    let mut proof = prove(&two_output_circuit(&inputs), inputs.clone());
    proof.sumcheck_claimed_evals[0].0 = proof.sumcheck_claimed_evals[0].0.add(&fe(1));
    assert!(!verify(proof, two_output_circuit(&inputs), &inputs));
}

#[test]
fn round_polynomials_without_three_coefficients_are_rejected() {
    let inputs = vec![fe(0), fe(0)];
    let circuit = Circuit::new_circuit(vec![Layers::new_layer(vec![Gates::new_gate(fe(0), fe(0), Operator::Add)])]);
    let mut proof = prove(&circuit, inputs.clone());
    proof.sumcheck_proof_evals[0] = vec![UnivariatePoly::new(Vec::new()), UnivariatePoly::new(Vec::new())];
    assert!(!verify(proof, circuit, &inputs));
}
