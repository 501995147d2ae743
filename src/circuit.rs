//! Layered arithmetic circuits in the pairwise form: gate `j` of a layer takes entries
//! `2j` and `2j + 1` of the previous layer's values. Each layer also has wiring
//! predicates, the indicator polynomials of its addition and multiplication gates.

use vstd::prelude::*;
use crate::field::{fadd, fmul, vals, FieldElement};
use crate::multilinear::{
    exp2, exp2_exec, lemma_exp2_adds, lemma_exp2_monotone, lemma_exp2_values, MultilinearPoly,
};

verus! {

#[derive(Clone, Copy, Debug, PartialEq, Eq, Structural)]
pub enum Operator {
    Add,
    Mul,
}

/// What a gate with operator `op` outputs for the operands `a` and `b`.
pub open spec fn apply_op(op: Operator, a: int, b: int) -> int {
    match op {
        Operator::Add => fadd(a, b),
        Operator::Mul => fmul(a, b),
    }
}

impl Operator {
    pub fn use_operation(self, a: FieldElement, b: FieldElement) -> (r: FieldElement)
        ensures
            r@ == apply_op(self, a@, b@),
    {
        match self {
            Operator::Add => a.add(&b),
            Operator::Mul => a.mul(&b),
        }
    }
}

/// A gate: its operator, and the operands and output it was built with.
#[derive(Clone, Copy, Debug)]
pub struct Gates {
    pub input_left: FieldElement,
    pub input_right: FieldElement,
    pub output: FieldElement,
    pub operator: Operator,
}

impl Gates {
    pub fn new_gate(input_left: FieldElement, input_right: FieldElement, operator: Operator) -> (r: Self)
        ensures
            r.input_left == input_left,
            r.input_right == input_right,
            r.operator == operator,
            r.output@ == apply_op(operator, input_left@, input_right@),
    {
        let output = operator.use_operation(input_left, input_right);
        Gates { input_left, input_right, output, operator }
    }
}

/// The values of a layer of gates whose operators are `ops`, given the previous layer's
/// values: gate `j` combines entries `2j` and `2j + 1`, or zeros where they run out.
pub open spec fn layer_eval(ops: Seq<Operator>, prev: Seq<int>) -> Seq<int> {
    Seq::new(
        ops.len(),
        |j: int|
            if 2 * j + 1 < prev.len() {
                apply_op(ops[j], prev[2 * j], prev[2 * j + 1])
            } else {
                apply_op(ops[j], 0, 0)
            },
    )
}

/// The values of every layer, first to last, for the given inputs.
pub open spec fn circuit_values(layers: Seq<Seq<Operator>>, inputs: Seq<int>) -> Seq<Seq<int>>
    decreases layers.len(),
{
    if layers.len() == 0 {
        Seq::empty()
    } else {
        let out = layer_eval(layers[0], inputs);
        seq![out] + circuit_values(layers.drop_first(), out)
    }
}

/// Whether `k` is the least number of bits that counts to `g`.
pub open spec fn is_ceil_log2(k: nat, g: nat) -> bool {
    exp2(k) >= g && (k == 0 || exp2((k - 1) as nat) < g)
}

/// `⌈log2 g⌉`.
pub open spec fn ceil_log2(g: nat) -> nat {
    choose|k: nat| is_ceil_log2(k, g)
}

proof fn lemma_ceil_log2_unique(k: nat, g: nat)
    requires
        is_ceil_log2(k, g),
    ensures
        ceil_log2(g) == k,
{
    let c = ceil_log2(g);
    assert(is_ceil_log2(c, g));
    if c < k {
        lemma_exp2_monotone(c, (k - 1) as nat);
    } else if k < c {
        lemma_exp2_monotone(k, (c - 1) as nat);
    }
}

/// How many bits select one of `g` gates.
pub open spec fn gate_width(g: nat) -> nat {
    if g == 1 {
        1
    } else {
        ceil_log2(g)
    }
}

/// How many bits select an operand: one more than select a gate, as the previous layer
/// has twice as many values.
pub open spec fn operand_width(g: nat) -> nat {
    if g == 1 {
        1
    } else {
        ceil_log2(g) + 1
    }
}

/// The number of variables of a layer's wiring predicates.
pub open spec fn layer_bits(g: nat) -> nat {
    gate_width(g) + 2 * operand_width(g)
}

/// The index at which gate `idx` of a layer of `g` gates is marked: its own index, then
/// its left operand `2·idx`, then its right operand `2·idx + 1`, each in its block.
pub open spec fn gate_code(idx: nat, g: nat) -> nat {
    let w = exp2(operand_width(g));
    (idx * w + 2 * idx) * w + 2 * idx + 1
}

/// The operators of a layer's gates.
pub open spec fn ops_of(gates: Seq<Gates>) -> Seq<Operator> {
    gates.map_values(|g: Gates| g.operator)
}

/// The wiring predicate of the gates with operator `op`: one at the code of each such
/// gate, zero elsewhere.
pub open spec fn wiring(ops: Seq<Operator>, op: Operator) -> Seq<int> {
    Seq::new(
        exp2(layer_bits(ops.len())),
        |i: int|
            if exists|k: int| 0 <= k < ops.len() && ops[k] == op && gate_code(k as nat, ops.len()) == i {
                1
            } else {
                0
            },
    )
}

/// A layer of gates.
#[derive(Clone, Debug)]
pub struct Layers {
    pub gates: Vec<Gates>,
}

/// `⌈log2 g⌉`, computed.
fn ceil_log2_exec(g: usize) -> (r: u32)
    ensures
        r == ceil_log2(g as nat),
        r <= 64,
{
    let mut k: u32 = 0;
    let mut p: u128 = 1;
    while p < g as u128
        invariant
            p == exp2(k as nat),
            k <= 64,
            k == 0 || exp2((k - 1) as nat) < g,
        decreases 64 - k,
    {
        proof {
            lemma_exp2_values();
            if k >= 64 {
                lemma_exp2_monotone(64, k as nat);
            }
        }
        p = p * 2;
        k = k + 1;
    }
    proof {
        lemma_ceil_log2_unique(k as nat, g as nat);
    }
    k
}

proof fn lemma_ceil_log2_exists(g: nat) -> (k: nat)
    requires
        g >= 1,
    ensures
        is_ceil_log2(k, g),
    decreases g,
{
    if g == 1 {
        0
    } else {
        let k0 = lemma_ceil_log2_exists((g - 1) as nat);
        if exp2(k0) >= g {
            k0
        } else {
            assert(exp2(k0 + 1) == 2 * exp2(k0));
            k0 + 1
        }
    }
}

proof fn lemma_block_bound(a: int, b: int, big_a: int, big_b: int)
    requires
        0 <= a < big_a,
        0 <= b < big_b,
    ensures
        0 <= a * big_b + b < big_a * big_b,
{
    assert(a * big_b + b < big_a * big_b) by (nonlinear_arith)
        requires
            0 <= a < big_a,
            0 <= b < big_b,
    ;
    assert(0 <= a * big_b) by (nonlinear_arith)
        requires
            0 <= a,
            0 <= big_b,
    ;
}

/// Each gate's code fits in the layer's bits, and so do the partial sums that build it.
proof fn lemma_code_bound(idx: nat, g: nat)
    requires
        idx < g,
    ensures
        ({
            let w = exp2(operand_width(g)) as int;
            &&& 2 * idx + 1 < w
            &&& idx * w + 2 * idx < exp2(gate_width(g)) * w
            &&& gate_code(idx, g) < exp2(layer_bits(g))
            &&& exp2(gate_width(g)) * w * w == exp2(layer_bits(g))
            &&& idx * w <= exp2(gate_width(g)) * w <= exp2(layer_bits(g))
        }),
{
    let (gw, ow) = (gate_width(g), operand_width(g));
    let w = exp2(ow) as int;
    if g == 1 {
        lemma_exp2_values();
    } else {
        let k = lemma_ceil_log2_exists(g);
        lemma_ceil_log2_unique(k, g);
        assert(exp2(ow) == 2 * exp2(gw));
    }
    lemma_block_bound(idx as int, (2 * idx) as int, exp2(gw) as int, w);
    lemma_block_bound(idx * w + 2 * idx, (2 * idx + 1) as int, exp2(gw) * w, w);
    lemma_exp2_adds(gw, ow);
    lemma_exp2_adds(gw + ow, ow);
    assert(layer_bits(g) == gw + ow + ow);
    lemma_exp2_monotone(0, ow);
    lemma_exp2_monotone(0, gw);
    let ew = exp2(gw) as int;
    assert(ew * w <= ew * w * w) by (nonlinear_arith)
        requires
            ew >= 1,
            w >= 1,
    ;
}

impl Layers {
    pub fn new_layer(gates: Vec<Gates>) -> (r: Self)
        ensures
            r.gates@ == gates@,
    {
        Layers { gates }
    }

    /// The outputs the gates were built with.
    pub fn get_output_for_layers(&self) -> (r: Vec<FieldElement>)
        ensures
            r@ == self.gates@.map_values(|g: Gates| g.output),
    {
        let mut r: Vec<FieldElement> = Vec::new();
        let mut i: usize = 0;
        while i < self.gates.len()
            invariant
                i <= self.gates@.len(),
                r@ == self.gates@.map_values(|g: Gates| g.output).take(i as int),
            decreases self.gates@.len() - i,
        {
            r.push(self.gates[i].output);
            i = i + 1;
            proof {
                assert(r@ =~= self.gates@.map_values(|g: Gates| g.output).take(i as int));
            }
        }
        proof {
            assert(r@ =~= self.gates@.map_values(|g: Gates| g.output));
        }
        r
    }

    /// The gates with operator `ops`, in order.
    pub fn get_operators_of_layers(&self, ops: Operator) -> (r: Vec<Gates>)
        ensures
            r@ == self.gates@.filter(|g: Gates| g.operator == ops),
    {
        let mut r: Vec<Gates> = Vec::new();
        let mut i: usize = 0;
        while i < self.gates.len()
            invariant
                i <= self.gates@.len(),
                r@ == self.gates@.take(i as int).filter(|g: Gates| g.operator == ops),
            decreases self.gates@.len() - i,
        {
            proof {
                reveal(Seq::filter);
                assert(self.gates@.take(i + 1).drop_last() =~= self.gates@.take(i as int));
            }
            if self.gates[i].operator == ops {
                r.push(self.gates[i]);
            }
            i = i + 1;
        }
        proof {
            assert(self.gates@.take(i as int) =~= self.gates@);
        }
        r
    }

    /// The number of variables of the layer's wiring predicates.
    fn get_no_bits_of_gates(&self) -> (r: u32)
        requires
            self.gates@.len() >= 1,
        ensures
            r == layer_bits(self.gates@.len()),
    {
        let number_of_gates = self.gates.len();
        if number_of_gates == 1 {
            3
        } else {
            let number_of_gates_log = ceil_log2_exec(number_of_gates);
            let n_bits = number_of_gates_log + 1;
            number_of_gates_log + (n_bits * 2)
        }
    }

    /// The index of each gate in the wiring predicates' evaluation vector.
    pub fn gate_to_bits(&self) -> (r: Vec<usize>)
        requires
            self.gates@.len() >= 1,
            exp2(layer_bits(self.gates@.len())) <= usize::MAX,
        ensures
            r@.len() == self.gates@.len(),
            forall|k: int|
                0 <= k < r@.len() ==> #[trigger] r@[k] == gate_code(k as nat, self.gates@.len()),
    {
        let n_gates = self.gates.len();
        let ghost g = n_gates as nat;
        let width: usize = if n_gates == 1 {
            1
        } else {
            ceil_log2_exec(n_gates) as usize + 1
        };
        proof {
            lemma_code_bound(0, g);
            lemma_exp2_monotone(operand_width(g), layer_bits(g));
        }
        let w = exp2_exec(width);
        let mut gate_decimal_values: Vec<usize> = Vec::new();
        let mut idx: usize = 0;
        while idx < n_gates
            invariant
                idx <= n_gates,
                g == n_gates,
                g == self.gates@.len(),
                w == exp2(operand_width(g)),
                exp2(layer_bits(g)) <= usize::MAX,
                gate_decimal_values@.len() == idx,
                forall|k: int|
                    0 <= k < idx ==> #[trigger] gate_decimal_values@[k] == gate_code(k as nat, g),
            decreases n_gates - idx,
        {
            proof {
                lemma_code_bound(idx as nat, g);
            }
            let value = (idx * w + 2 * idx) * w + (2 * idx + 1);
            gate_decimal_values.push(value);
            idx = idx + 1;
        }
        gate_decimal_values
    }

    /// The wiring predicate of the gates with operator `op`.
    pub fn get_add_mul_i(&self, op: Operator) -> (r: MultilinearPoly)
        requires
            self.gates@.len() >= 1,
            exp2(layer_bits(self.gates@.len())) <= usize::MAX,
        ensures
            r.wf(),
            r.number_of_variables == layer_bits(self.gates@.len()),
            r@ == wiring(ops_of(self.gates@), op),
    {
        let ghost g = self.gates@.len();
        let ghost ops = ops_of(self.gates@);
        let n_bits = self.get_no_bits_of_gates();
        proof {
            lemma_exp2_monotone(n_bits as nat, n_bits as nat);
            if n_bits >= 64 {
                lemma_exp2_monotone(64, n_bits as nat);
                lemma_exp2_values();
            }
        }
        let layer_size = exp2_exec(n_bits as usize);
        let mut poly_eval: Vec<FieldElement> = Vec::new();
        let mut i: usize = 0;
        while i < layer_size
            invariant
                i <= layer_size,
                poly_eval@.len() == i,
                forall|j: int| 0 <= j < i ==> (#[trigger] poly_eval@[j])@ == 0,
            decreases layer_size - i,
        {
            poly_eval.push(FieldElement::zero());
            i = i + 1;
        }
        let gate_values = self.gate_to_bits();
        let mut k: usize = 0;
        while k < self.gates.len()
            invariant
                k <= g,
                g == self.gates@.len(),
                ops == ops_of(self.gates@),
                layer_size == exp2(layer_bits(g)),
                poly_eval@.len() == layer_size,
                gate_values@.len() == g,
                forall|j: int| 0 <= j < g ==> #[trigger] gate_values@[j] == gate_code(j as nat, g),
                forall|j: int|
                    0 <= j < layer_size ==> (#[trigger] poly_eval@[j])@ == if exists|q: int|
                        0 <= q < k && ops[q] == op && gate_code(q as nat, g) == j {
                        1int
                    } else {
                        0int
                    },
            decreases g - k,
        {
            proof {
                lemma_code_bound(k as nat, g);
                assert(ops[k as int] == self.gates@[k as int].operator);
            }
            if self.gates[k].operator == op {
                poly_eval.set(gate_values[k], FieldElement::one());
            }
            proof {
                assert forall|j: int| 0 <= j < layer_size implies (#[trigger] poly_eval@[j])@ == if exists|q: int|
                    0 <= q < k + 1 && ops[q] == op && gate_code(q as nat, g) == j {
                    1int
                } else {
                    0int
                } by {
                    if ops[k as int] == op && gate_code(k as nat, g) == j {
                        assert(0 <= k < k + 1 && ops[k as int] == op && gate_code(k as nat, g) == j);
                    } else if exists|q: int| 0 <= q < k + 1 && ops[q] == op && gate_code(q as nat, g) == j {
                        let q = choose|q: int| 0 <= q < k + 1 && ops[q] == op && gate_code(q as nat, g) == j;
                        assert(q < k);
                    }
                }
            }
            k = k + 1;
        }
        let r = MultilinearPoly { evaluation: poly_eval, number_of_variables: n_bits as usize };
        proof {
            assert(r@ =~= wiring(ops, op));
        }
        r
    }
}

/// A circuit: its layers, from the one next to the inputs to the output.
pub struct Circuit {
    pub layers: Vec<Layers>,
}

/// The operators of every layer.
pub open spec fn circuit_ops(layers: Seq<Layers>) -> Seq<Seq<Operator>> {
    layers.map_values(|l: Layers| ops_of(l.gates@))
}

impl Circuit {
    pub fn new_circuit(layers: Vec<Layers>) -> (r: Self)
        ensures
            r.layers@ == layers@,
    {
        Circuit { layers }
    }

    /// The values of every layer for the given inputs, first to last: gate `j` of a layer
    /// combines entries `2j` and `2j + 1` of the previous layer's values.
    pub fn evaluate_circuit(&self, inputs: Vec<FieldElement>) -> (r: Vec<Vec<FieldElement>>)
        ensures
            r@.map_values(|v: Vec<FieldElement>| vals(v@)) == circuit_values(
                circuit_ops(self.layers@),
                vals(inputs@),
            ),
    {
        let ghost all = circuit_ops(self.layers@);
        let mut result: Vec<Vec<FieldElement>> = Vec::new();
        let mut current_inputs = inputs;
        let mut l: usize = 0;
        proof {
            assert(all.skip(0) =~= all);
            assert(result@.map_values(|v: Vec<FieldElement>| vals(v@)) + circuit_values(all, vals(current_inputs@)) =~= circuit_values(all, vals(current_inputs@)));
        }
        while l < self.layers.len()
            invariant
                l <= self.layers@.len(),
                all == circuit_ops(self.layers@),
                result@.map_values(|v: Vec<FieldElement>| vals(v@)) + circuit_values(
                    all.skip(l as int),
                    vals(current_inputs@),
                ) == circuit_values(all, vals(inputs@)),
            decreases self.layers@.len() - l,
        {
            let layer = &self.layers[l];
            let ghost ops = ops_of(layer.gates@);
            let ghost prev = vals(current_inputs@);
            let mut layer_outputs: Vec<FieldElement> = Vec::new();
            let mut j: usize = 0;
            while j < layer.gates.len()
                invariant
                    j <= layer.gates@.len(),
                    ops == ops_of(layer.gates@),
                    prev == vals(current_inputs@),
                    vals(layer_outputs@) == layer_eval(ops, prev).take(j as int),
                decreases layer.gates@.len() - j,
            {
                let gate = layer.gates[j];
                let (input_left, input_right) = if j < current_inputs.len() / 2 {
                    (current_inputs[2 * j], current_inputs[2 * j + 1])
                } else {
                    (FieldElement::zero(), FieldElement::zero())
                };
                let new_gate = Gates::new_gate(input_left, input_right, gate.operator);
                let ghost before = layer_outputs@;
                layer_outputs.push(new_gate.output);
                proof {
                    assert(vals(layer_outputs@) =~= vals(before).push(new_gate.output@));
                    assert(layer_eval(ops, prev).take(j + 1) =~= layer_eval(ops, prev).take(j as int).push(
                        layer_eval(ops, prev)[j as int],
                    ));
                }
                j = j + 1;
            }
            proof {
                assert(layer_eval(ops, prev).take(j as int) =~= layer_eval(ops, prev));
                assert(all.skip(l as int)[0] == ops);
                assert(all.skip(l as int).drop_first() =~= all.skip(l + 1));
            }
            let ghost before = result@;
            let copy = FieldElement::copy_all(layer_outputs.as_slice());
            result.push(copy);
            proof {
                let out = vals(layer_outputs@);
                assert(result@.map_values(|v: Vec<FieldElement>| vals(v@)) =~= before.map_values(
                    |v: Vec<FieldElement>| vals(v@),
                ).push(out));
                assert(before.map_values(|v: Vec<FieldElement>| vals(v@)) + (seq![out] + circuit_values(all.skip(l + 1), out))
                    =~= result@.map_values(|v: Vec<FieldElement>| vals(v@)) + circuit_values(all.skip(l + 1), out));
            }
            current_inputs = layer_outputs;
            l = l + 1;
        }
        proof {
            assert(all.skip(l as int) =~= Seq::<Seq<Operator>>::empty());
            assert(result@.map_values(|v: Vec<FieldElement>| vals(v@)) + Seq::<Seq<int>>::empty()
                =~= result@.map_values(|v: Vec<FieldElement>| vals(v@)));
        }
        result
    }
}

/// Every layer's values have one entry per gate.
pub proof fn lemma_circuit_values_len(layers: Seq<Seq<Operator>>, inputs: Seq<int>)
    ensures
        circuit_values(layers, inputs).len() == layers.len(),
        forall|i: int|
            0 <= i < layers.len() ==> (#[trigger] circuit_values(layers, inputs)[i]).len()
                == layers[i].len(),
    decreases layers.len(),
{
    if layers.len() > 0 {
        let out = layer_eval(layers[0], inputs);
        lemma_circuit_values_len(layers.drop_first(), out);
        assert forall|i: int| 0 <= i < layers.len() implies (#[trigger] circuit_values(
            layers,
            inputs,
        )[i]).len() == layers[i].len() by {
            if i > 0 {
                assert(circuit_values(layers, inputs)[i] == circuit_values(layers.drop_first(), out)[i
                    - 1]);
            }
        }
    }
}

/// The widths of a layer of `2^m` gates.
pub proof fn lemma_widths(m: nat)
    ensures
        gate_width(exp2(m)) == if m == 0 { 1 } else { m },
        operand_width(exp2(m)) == if m == 0 { 1 } else { m + 1 },
        exp2(operand_width(exp2(m))) == 2 * exp2(m),
{
    if m == 0 {
        crate::multilinear::lemma_exp2_values();
    } else {
        lemma_exp2_monotone((m - 1) as nat, m);
        assert(exp2(m) == 2 * exp2((m - 1) as nat));
        assert(is_ceil_log2(m, exp2(m)));
        lemma_ceil_log2_unique(m, exp2(m));
        assert(exp2(m + 1) == 2 * exp2(m));
    }
}

} // verus!
