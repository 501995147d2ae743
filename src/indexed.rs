//! Layered circuits whose gates name their operands by index into the previous layer's
//! values.

use vstd::prelude::*;
use crate::circuit::{apply_op, Operator};
use crate::field::{vals, FieldElement};

verus! {

/// A gate reading entries `left_val` and `right_val` of the previous layer.
#[derive(Clone, Copy, Debug)]
pub struct Gate {
    pub left_val: usize,
    pub right_val: usize,
    pub operator: Operator,
}

impl Gate {
    pub fn new(left_val: usize, right_val: usize, operator: Operator) -> (r: Self)
        ensures
            r.left_val == left_val,
            r.right_val == right_val,
            r.operator == operator,
    {
        Gate { left_val, right_val, operator }
    }
}

/// A layer of gates.
#[derive(Clone, Debug)]
pub struct Layer {
    pub gates: Vec<Gate>,
}

impl Layer {
    pub fn new(gates: Vec<Gate>) -> (r: Self)
        ensures
            r.gates@ == gates@,
    {
        Layer { gates }
    }
}

/// The values of a layer, given the previous layer's values.
pub open spec fn layer_values(gates: Seq<Gate>, prev: Seq<int>) -> Seq<int> {
    Seq::new(
        gates.len(),
        |j: int| apply_op(gates[j].operator, prev[gates[j].left_val as int], prev[gates[j].right_val as int]),
    )
}

/// Whether every gate reads entries that the previous layer has, from `count` inputs on,
/// and the last layer has a gate.
pub open spec fn wired(layers: Seq<Seq<Gate>>, count: nat) -> bool
    decreases layers.len(),
{
    if layers.len() == 0 {
        count >= 1
    } else {
        &&& forall|j: int|
            0 <= j < layers[0].len() ==> (#[trigger] layers[0][j]).left_val < count
                && layers[0][j].right_val < count
        &&& wired(layers.drop_first(), layers[0].len())
    }
}

/// The values of the last layer for the given inputs.
pub open spec fn final_values(layers: Seq<Seq<Gate>>, inputs: Seq<int>) -> Seq<int>
    decreases layers.len(),
{
    if layers.len() == 0 {
        inputs
    } else {
        final_values(layers.drop_first(), layer_values(layers[0], inputs))
    }
}

/// A circuit: its layers, from the one next to the inputs to the output.
pub struct Circuit {
    pub layers: Vec<Layer>,
}

pub open spec fn gates_of(layers: Seq<Layer>) -> Seq<Seq<Gate>> {
    layers.map_values(|l: Layer| l.gates@)
}

impl Circuit {
    pub fn new(layers: Vec<Layer>) -> (r: Self)
        ensures
            r.layers@ == layers@,
    {
        Circuit { layers }
    }

    /// Whether the circuit can be evaluated on `input_count` inputs.
    pub fn is_wired_for(&self, input_count: usize) -> (r: bool)
        ensures
            r == wired(gates_of(self.layers@), input_count as nat),
    {
        let ghost all = gates_of(self.layers@);
        let mut count = input_count;
        let mut l: usize = 0;
        proof {
            assert(all.skip(0) =~= all);
        }
        while l < self.layers.len()
            invariant
                l <= self.layers@.len(),
                all == gates_of(self.layers@),
                wired(all, input_count as nat) == wired(all.skip(l as int), count as nat),
            decreases self.layers@.len() - l,
        {
            let gates = &self.layers[l].gates;
            proof {
                assert(all.skip(l as int)[0] == gates@);
                assert(all.skip(l as int).drop_first() =~= all.skip(l + 1));
            }
            let mut j: usize = 0;
            while j < gates.len()
                invariant
                    j <= gates@.len(),
                    all == gates_of(self.layers@),
                    l < all.len(),
                    all.skip(l as int)[0] == gates@,
                    wired(all, input_count as nat) == wired(all.skip(l as int), count as nat),
                    forall|q: int|
                        0 <= q < j ==> (#[trigger] gates@[q]).left_val < count && gates@[q].right_val
                            < count,
                decreases gates@.len() - j,
            {
                if gates[j].left_val >= count || gates[j].right_val >= count {
                    proof {
                        let layers = all.skip(l as int);
                        assert(layers[0][j as int] == gates@[j as int]);
                        assert(!(layers[0][j as int].left_val < count && layers[0][j as int].right_val
                            < count));
                        assert(!wired(layers, count as nat));
                    }
                    return false;
                }
                j = j + 1;
            }
            count = gates.len();
            l = l + 1;
        }
        count >= 1
    }

    /// The first value of the last layer.
    pub fn evaluate(&self, inputs: &[FieldElement]) -> (r: FieldElement)
        requires
            wired(gates_of(self.layers@), inputs@.len()),
        ensures
            r@ == final_values(gates_of(self.layers@), vals(inputs@))[0],
    {
        let ghost all = gates_of(self.layers@);
        let mut current_values = FieldElement::copy_all(inputs);
        let mut l: usize = 0;
        proof {
            assert(all.skip(0) =~= all);
        }
        while l < self.layers.len()
            invariant
                l <= self.layers@.len(),
                all == gates_of(self.layers@),
                wired(all.skip(l as int), current_values@.len()),
                final_values(all, vals(inputs@)) == final_values(
                    all.skip(l as int),
                    vals(current_values@),
                ),
            decreases self.layers@.len() - l,
        {
            let gates = &self.layers[l].gates;
            proof {
                assert(all.skip(l as int)[0] == gates@);
                assert(all.skip(l as int).drop_first() =~= all.skip(l + 1));
            }
            let ghost prev = vals(current_values@);
            let mut next_values: Vec<FieldElement> = Vec::new();
            let mut j: usize = 0;
            while j < gates.len()
                invariant
                    j <= gates@.len(),
                    prev == vals(current_values@),
                    forall|q: int|
                        0 <= q < gates@.len() ==> (#[trigger] gates@[q]).left_val
                            < current_values@.len() && gates@[q].right_val < current_values@.len(),
                    vals(next_values@) == layer_values(gates@, prev).take(j as int),
                decreases gates@.len() - j,
            {
                let gate = gates[j];
                let left_val = current_values[gate.left_val];
                let right_val = current_values[gate.right_val];
                let result = gate.operator.use_operation(left_val, right_val);
                let ghost before = next_values@;
                next_values.push(result);
                proof {
                    assert(vals(next_values@) =~= vals(before).push(result@));
                    assert(layer_values(gates@, prev).take(j + 1) =~= layer_values(gates@, prev).take(
                        j as int,
                    ).push(layer_values(gates@, prev)[j as int]));
                }
                j = j + 1;
            }
            proof {
                assert(layer_values(gates@, prev).take(j as int) =~= layer_values(gates@, prev));
            }
            current_values = next_values;
            l = l + 1;
        }
        proof {
            assert(all.skip(l as int) =~= Seq::<Seq<Gate>>::empty());
        }
        current_values[0]
    }
}

} // verus!
