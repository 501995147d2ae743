use gkr_circuits::circuit::{Circuit, Gates, Layers, Operator};
use gkr_circuits::field::FieldElement;
use gkr_circuits::indexed;

fn fe(v: u64) -> FieldElement {
    FieldElement::from_u64(v)
}

#[test]
fn circuit_test_circuit() {
    let input1 = fe(1);
    let input2 = fe(2);
    let input3 = fe(3);

    let gate1 = Gates::new_gate(input1, input2, Operator::Add);
    let gate2 = Gates::new_gate(gate1.output, input3, Operator::Mul);

    let layer1 = Layers::new_layer(vec![gate1]);
    let layer2 = Layers::new_layer(vec![gate2]);

    let circuit = Circuit::new_circuit(vec![layer1, layer2]);

    let inputs: Vec<FieldElement> = vec![input1, input2, input3];
    let result = circuit.evaluate_circuit(inputs);

    assert_eq!(result[0][0], fe(3));
}

#[test]
fn test_circuit_evaluation() {
    let layer1_gates = vec![
        indexed::Gate::new(0, 1, Operator::Add),
        indexed::Gate::new(2, 3, Operator::Mul),
    ];
    let layer1 = indexed::Layer::new(layer1_gates);

    let layer2_gates = vec![indexed::Gate::new(0, 1, Operator::Mul)];
    let layer2 = indexed::Layer::new(layer2_gates);

    let circuit = indexed::Circuit::new(vec![layer1, layer2]);

    let inputs = vec![fe(2), fe(3), fe(4), fe(5)];

    let expected_result = fe((2 + 3) * (4 * 5));

    assert!(circuit.is_wired_for(inputs.len()));
    let actual_result = circuit.evaluate(&inputs);
    assert_eq!(actual_result, expected_result);
}

#[test]
fn test_circuit_with_random_inputs() {
    // A fixed linear congruential sequence stands in for a random generator.
    let mut state: u64 = 0x2545_f491_4f6c_dd1d;
    let input: Vec<FieldElement> = (0..4)
        .map(|_| {
            state = state.wrapping_mul(6364136223846793005).wrapping_add(1442695040888963407);
            fe(state)
        })
        .collect();

    let gate1 = indexed::Gate::new(0, 1, Operator::Add);
    let gate2 = indexed::Gate::new(2, 3, Operator::Mul);

    let layer1 = indexed::Layer::new(vec![gate1, gate2]);

    let gate3 = indexed::Gate::new(0, 1, Operator::Mul);
    let layer2 = indexed::Layer::new(vec![gate3]);

    let circuit = indexed::Circuit::new(vec![layer1, layer2]);

    let expected_result = input[0].add(&input[1]).mul(&input[2].mul(&input[3]));

    let actual_result = circuit.evaluate(&input);

    assert_eq!(actual_result, expected_result);
}

#[test]
fn indexed_circuit_wiring_is_checked() {
    let circuit = indexed::Circuit::new(vec![indexed::Layer::new(vec![indexed::Gate::new(0, 4, Operator::Add)])]);
    assert!(!circuit.is_wired_for(4));
    assert!(circuit.is_wired_for(5));
    let empty_output = indexed::Circuit::new(vec![indexed::Layer::new(Vec::new())]);
    assert!(!empty_output.is_wired_for(4));
}

#[test]
fn pairwise_evaluation_runs_layer_by_layer() {
    let gate = |op| Gates::new_gate(FieldElement::zero(), FieldElement::zero(), op);
    let circuit = Circuit::new_circuit(vec![
        Layers::new_layer(vec![gate(Operator::Mul), gate(Operator::Mul), gate(Operator::Mul), gate(Operator::Mul)]),
        Layers::new_layer(vec![gate(Operator::Add), gate(Operator::Add)]),
        Layers::new_layer(vec![gate(Operator::Add)]),
    ]);
    let inputs = vec![fe(5), fe(2), fe(2), fe(4), fe(10), fe(0), fe(3), fe(3)];
    let result = circuit.evaluate_circuit(inputs);
    assert_eq!(result, vec![vec![fe(10), fe(8), fe(0), fe(9)], vec![fe(18), fe(9)], vec![fe(27)]]);
}

#[test]
fn pairwise_evaluation_pads_missing_operands_with_zero() {
    let gate = |op| Gates::new_gate(FieldElement::zero(), FieldElement::zero(), op);
    let circuit = Circuit::new_circuit(vec![Layers::new_layer(vec![gate(Operator::Add), gate(Operator::Add)])]);
    let result = circuit.evaluate_circuit(vec![fe(1), fe(2), fe(3)]);
    assert_eq!(result, vec![vec![fe(3), fe(0)]]);
}

#[test]
fn gates_keep_their_output() {
    let g = Gates::new_gate(fe(6), fe(7), Operator::Mul);
    assert_eq!(g.output, fe(42));
    assert_eq!(Operator::Add.use_operation(fe(6), fe(7)), fe(13));
    let layer = Layers::new_layer(vec![g, Gates::new_gate(fe(1), fe(1), Operator::Add)]);
    assert_eq!(layer.get_output_for_layers(), vec![fe(42), fe(2)]);
    assert_eq!(layer.get_operators_of_layers(Operator::Add).len(), 1);
}

#[test]
fn gate_codes_pack_gate_and_operands() {
    let gate = |op| Gates::new_gate(FieldElement::zero(), FieldElement::zero(), op);
    let one = Layers::new_layer(vec![gate(Operator::Add)]);
    assert_eq!(one.gate_to_bits(), vec![1]);
    let two = Layers::new_layer(vec![gate(Operator::Add), gate(Operator::Mul)]);
    // (idx, 2·idx, 2·idx + 1) in widths 1, 2, 2: 0b0_00_01 and 0b1_10_11.
    assert_eq!(two.gate_to_bits(), vec![1, 27]);
    let three = Layers::new_layer(vec![gate(Operator::Add), gate(Operator::Add), gate(Operator::Mul)]);
    // Widths 2, 3, 3: gate 2 reads operands 4 and 5.
    assert_eq!(three.gate_to_bits(), vec![1, 83, 165]);
}

#[test]
fn wiring_predicates_mark_each_gate() {
    let gate = |op| Gates::new_gate(FieldElement::zero(), FieldElement::zero(), op);
    let two = Layers::new_layer(vec![gate(Operator::Add), gate(Operator::Mul)]);
    let add_i = two.get_add_mul_i(Operator::Add);
    let mul_i = two.get_add_mul_i(Operator::Mul);
    assert_eq!(add_i.number_of_variables, 5);
    assert_eq!(add_i.evaluation.len(), 32);
    for i in 0..32 {
        let a = if i == 1 { fe(1) } else { fe(0) };
        let m = if i == 27 { fe(1) } else { fe(0) };
        assert_eq!(add_i.evaluation[i], a);
        assert_eq!(mul_i.evaluation[i], m);
    }
}
