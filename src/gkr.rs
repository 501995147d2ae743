//! The GKR protocol over layered circuits in the pairwise form, made non-interactive
//! with the transcript. Layers are processed from the output to the inputs; each
//! layer's claim is reduced by a sumcheck over its wiring predicates and the values of
//! the layer below.

use vstd::prelude::*;
use crate::circuit::{
    apply_op, circuit_ops, circuit_values, gate_width, layer_bits, operand_width, ops_of, wiring,
    Circuit, Layers, Operator,
};
use crate::composed::{ProductPoly, SumPoly};
use crate::error::PolyError;
use crate::field::{fadd, fmul, vals, FieldElement};
use crate::multilinear::{
    exp2, fold_first, is_power_of_two, lemma_exp2_adds, lemma_exp2_monotone, lemma_exp2_values,
    mle_eval, multi_fold, MultilinearPoly,
};
use crate::sumcheck::{
    challenges_of, generate_sumcheck_proof, honest_quadratics, lemma_replay_challenges_len, msgs_of,
    polys_of, replay_quadratics, state_after, verify_sumcheck_proof,
};
use crate::transcript::{challenge_of, encode_all, fq_vec_to_bytes, keccak256_of, Transcript};
use crate::univariate::UnivariatePoly;

verus! {

/// The table of `a[i] op b[j]`, row by row.
pub open spec fn table(a: Seq<int>, b: Seq<int>, op: Operator) -> Seq<int> {
    Seq::new(a.len() * b.len(), |k: int| apply_op(op, a[k / b.len() as int], b[k % b.len() as int]))
}

/// The wiring values that the verifier checks a layer's final claim against:
/// `add·(o1 + o2) + mul·(o1·o2)`.
pub open spec fn layer_claim(add: int, mul: int, o1: int, o2: int) -> int {
    fadd(fmul(add, fadd(o1, o2)), fmul(mul, fmul(o1, o2)))
}

/// `alpha·e(r_b, ·) + beta·e(r_c, ·)`: a predicate with its leading variables fixed at two
/// points, merged with random weights.
pub open spec fn merged(e: Seq<int>, r_b: Seq<int>, r_c: Seq<int>, alpha: int, beta: int) -> Seq<int> {
    Seq::new(
        multi_fold(e, r_b).len(),
        |i: int| fadd(fmul(multi_fold(e, r_b)[i], alpha), fmul(multi_fold(e, r_c)[i], beta)),
    )
}

/// The table of `a[i] op b[j]` as a multilinear polynomial; its size must be a power of
/// two.
pub fn combine_polynomials_using_operators(
    poly_a: &[FieldElement],
    poly_b: &[FieldElement],
    op: Operator,
) -> (r: Result<MultilinearPoly, PolyError>)
    requires
        poly_a@.len() * poly_b@.len() <= usize::MAX,
    ensures
        r is Ok <==> is_power_of_two(poly_a@.len() * poly_b@.len()),
        r is Ok ==> r->Ok_0.wf() && r->Ok_0@ == table(vals(poly_a@), vals(poly_b@), op),
        r is Err ==> r->Err_0 == PolyError::InvalidLength,
{
    let ghost t = table(vals(poly_a@), vals(poly_b@), op);
    let ghost lb = poly_b@.len() as int;
    let mut new_eval: Vec<FieldElement> = Vec::new();
    let mut i: usize = 0;
    while i < poly_a.len()
        invariant
            i <= poly_a@.len(),
            lb == poly_b@.len(),
            poly_a@.len() * poly_b@.len() <= usize::MAX,
            t == table(vals(poly_a@), vals(poly_b@), op),
            new_eval@.len() == i * lb,
            forall|k: int| 0 <= k < i * lb ==> (#[trigger] new_eval@[k])@ == t[k],
        decreases poly_a@.len() - i,
    {
        let mut j: usize = 0;
        proof {
            assert(i * lb + lb <= poly_a@.len() * lb) by (nonlinear_arith)
                requires
                    i < poly_a@.len(),
                    lb >= 0,
            ;
        }
        while j < poly_b.len()
            invariant
                i < poly_a@.len(),
                j <= lb,
                lb == poly_b@.len(),
                i * lb + lb <= poly_a@.len() * lb,
                t == table(vals(poly_a@), vals(poly_b@), op),
                new_eval@.len() == i * lb + j,
                forall|k: int| 0 <= k < i * lb + j ==> (#[trigger] new_eval@[k])@ == t[k],
            decreases lb - j,
        {
            proof {
                let k = i * lb + j;
                vstd::arithmetic::div_mod::lemma_fundamental_div_mod_converse(k, lb, i as int, j as int);
                assert(k < poly_a@.len() * lb);
            }
            new_eval.push(op.use_operation(poly_a[i], poly_b[j]));
            j = j + 1;
        }
        proof {
            assert((i + 1) * lb == i * lb + lb) by (nonlinear_arith);
        }
        i = i + 1;
    }
    proof {
        assert(vals(new_eval@) =~= t);
    }
    MultilinearPoly::new(new_eval)
}

/// The sum of the two products `a1·t1` and `a2·t2`.
fn sum_of_products(
    a1: MultilinearPoly,
    t1: MultilinearPoly,
    a2: MultilinearPoly,
    t2: MultilinearPoly,
) -> (r: SumPoly)
    requires
        a1.wf(),
        t1.wf(),
        a2.wf(),
        t2.wf(),
        t1.number_of_variables == a1.number_of_variables,
        a2.number_of_variables == a1.number_of_variables,
        t2.number_of_variables == a1.number_of_variables,
    ensures
        r.wf(),
        r.degree() == 2,
        r.num_vars() == a1.number_of_variables,
        r@ == seq![seq![a1@, t1@], seq![a2@, t2@]],
{
    let mut f1: Vec<MultilinearPoly> = Vec::new();
    f1.push(a1);
    f1.push(t1);
    let mut f2: Vec<MultilinearPoly> = Vec::new();
    f2.push(a2);
    f2.push(t2);
    let p1 = ProductPoly { evaluation: f1 };
    let p2 = ProductPoly { evaluation: f2 };
    let mut polys: Vec<ProductPoly> = Vec::new();
    polys.push(p1);
    polys.push(p2);
    let r = SumPoly { polys };
    proof {
        assert(p1@ =~= seq![a1@, t1@]);
        assert(p2@ =~= seq![a2@, t2@]);
        assert(r@ =~= seq![seq![a1@, t1@], seq![a2@, t2@]]);
    }
    r
}

/// The table of a vector with itself, which has a power-of-two length.
fn square_table(w_b: &[FieldElement], w_c: &[FieldElement], op: Operator, k: Ghost<nat>) -> (r: MultilinearPoly)
    requires
        w_b@.len() == exp2(k@),
        w_c@.len() == exp2(k@),
        exp2(2 * k@) <= usize::MAX,
    ensures
        r.wf(),
        r.number_of_variables == 2 * k@,
        r@ == table(vals(w_b@), vals(w_c@), op),
{
    proof {
        lemma_exp2_adds(k@, k@);
        assert(k@ + k@ == 2 * k@);
    }
    match combine_polynomials_using_operators(w_b, w_c, op) {
        Ok(p) => {
            proof {
                assert(p@.len() == vals(w_b@).len() * vals(w_c@).len());
                assert(p.evaluation@.len() == w_b@.len() * w_c@.len());
                assert(exp2(p.number_of_variables as nat) == exp2(2 * k@));
                crate::multilinear::lemma_exp2_injective(p.number_of_variables as nat, 2 * k@);
            }
            p
        },
        Err(_) => {
            proof {
                assert(exp2(k@ + k@) == w_b@.len() * w_c@.len());
            }
            MultilinearPoly { evaluation: Vec::new(), number_of_variables: 0 }
        },
    }
}

/// The opening of the protocol: absorbs the output polynomial, squeezes the point at
/// which it is evaluated, and absorbs that value, the first claim.
fn initialize_sumcheck_protocol(
    transcript: &mut Transcript,
    final_layer_poly: &MultilinearPoly,
) -> (r: (FieldElement, FieldElement))
    requires
        final_layer_poly.wf(),
        final_layer_poly.number_of_variables == 1,
    ensures
        ({
            let st = old(transcript)@ + encode_all(final_layer_poly@);
            &&& r.1@ == challenge_of(st)
            &&& r.0@ == mle_eval(final_layer_poly@, seq![r.1@])
            &&& final(transcript)@ == keccak256_of(st) + encode_all(seq![r.0@])
        }),
{
    transcript.absorb(fq_vec_to_bytes(final_layer_poly.evaluation.as_slice()).as_slice());
    let random_challenge = transcript.squeeze();
    let mut point: Vec<FieldElement> = Vec::new();
    point.push(random_challenge);
    proof {
        assert(vals(point@) =~= seq![random_challenge@]);
    }
    let m_0 = match final_layer_poly.full_evaluation(point) {
        Ok(v) => v,
        Err(_) => FieldElement::zero(),
    };
    let mut claim: Vec<FieldElement> = Vec::new();
    claim.push(m_0);
    proof {
        assert(vals(claim@) =~= seq![m_0@]);
    }
    transcript.absorb(fq_vec_to_bytes(claim.as_slice()).as_slice());
    (m_0, random_challenge)
}

/// The sumcheck polynomial of the output layer, of one or two gates: its wiring
/// predicates at the opening point, times the sums and the products of the values below.
fn construct_sumcheck_input_polynomial(
    random_challenge: &FieldElement,
    layer: &Layers,
    w_b: &[FieldElement],
    w_c: &[FieldElement],
    k: Ghost<nat>,
) -> (r: SumPoly)
    requires
        k@ <= 1,
        layer.gates@.len() == exp2(k@),
        w_b@.len() == exp2(k@ + 1),
        w_c@.len() == exp2(k@ + 1),
    ensures
        r.wf(),
        r.degree() == 2,
        r.num_vars() == rounds_for(k@),
        r@ == seq![
            seq![
                fold_first(wiring(ops_of(layer.gates@), Operator::Add), random_challenge@),
                table(vals(w_b@), vals(w_c@), Operator::Add),
            ],
            seq![
                fold_first(wiring(ops_of(layer.gates@), Operator::Mul), random_challenge@),
                table(vals(w_b@), vals(w_c@), Operator::Mul),
            ],
        ],
{
    proof {
        lemma_layer_fits(k@);
        crate::circuit::lemma_widths(k@);
        lemma_exp2_monotone(2 * (k@ + 1), 31);
        lemma_exp2_values();
    }
    let add_i = layer.get_add_mul_i(Operator::Add).partial_evaluate(0, random_challenge);
    let mul_i = layer.get_add_mul_i(Operator::Mul).partial_evaluate(0, random_challenge);
    let summed_w_poly = square_table(w_b, w_c, Operator::Add, Ghost(k@ + 1));
    let multiplied_w_poly = square_table(w_b, w_c, Operator::Mul, Ghost(k@ + 1));
    sum_of_products(add_i, summed_w_poly, mul_i, multiplied_w_poly)
}

/// A layer's wiring predicate with its gate variables fixed at `r_b` and at `r_c`,
/// merged with the weights `alpha` and `beta`.
fn merge_predicate(
    pred: &MultilinearPoly,
    r_b: &[FieldElement],
    r_c: &[FieldElement],
    alpha: FieldElement,
    beta: FieldElement,
) -> (r: MultilinearPoly)
    requires
        pred.wf(),
        r_b@.len() == r_c@.len(),
        r_b@.len() <= pred.number_of_variables,
    ensures
        r.wf(),
        r.number_of_variables == pred.number_of_variables - r_b@.len(),
        r@ == merged(pred@, vals(r_b@), vals(r_c@), alpha@, beta@),
{
    let at_b = pred.multi_partial_evaluate(r_b).scale(alpha);
    let at_c = pred.multi_partial_evaluate(r_c).scale(beta);
    let r = at_b.add(&at_c);
    proof {
        assert(r@ =~= merged(pred@, vals(r_b@), vals(r_c@), alpha@, beta@));
    }
    r
}

/// The sumcheck polynomial of a layer below the output: its wiring predicates merged at
/// the two previous points, times the sums and the products of the values below.
fn construct_merged_sumcheck_input_polynomial(
    layer: &Layers,
    w_b: &[FieldElement],
    w_c: &[FieldElement],
    r_b: &[FieldElement],
    r_c: &[FieldElement],
    alpha: FieldElement,
    beta: FieldElement,
) -> (r: SumPoly)
    requires
        layer.gates@.len() >= 1,
        exp2(layer_bits(layer.gates@.len())) <= usize::MAX,
        r_b@.len() == gate_width(layer.gates@.len()),
        r_c@.len() == gate_width(layer.gates@.len()),
        w_b@.len() == exp2(operand_width(layer.gates@.len())),
        w_c@.len() == exp2(operand_width(layer.gates@.len())),
    ensures
        r.wf(),
        r.degree() == 2,
        r.num_vars() == 2 * operand_width(layer.gates@.len()),
        r@ == seq![
            seq![
                merged(wiring(ops_of(layer.gates@), Operator::Add), vals(r_b@), vals(r_c@), alpha@, beta@),
                table(vals(w_b@), vals(w_c@), Operator::Add),
            ],
            seq![
                merged(wiring(ops_of(layer.gates@), Operator::Mul), vals(r_b@), vals(r_c@), alpha@, beta@),
                table(vals(w_b@), vals(w_c@), Operator::Mul),
            ],
        ],
{
    let ghost g = layer.gates@.len();
    let ghost ow = operand_width(g);
    proof {
        lemma_exp2_monotone(2 * ow, layer_bits(g));
    }
    let add_i = layer.get_add_mul_i(Operator::Add);
    let mul_i = layer.get_add_mul_i(Operator::Mul);
    let summed_add_i = merge_predicate(&add_i, r_b, r_c, alpha, beta);
    let summed_mul_i = merge_predicate(&mul_i, r_b, r_c, alpha, beta);
    let summed_w_poly = square_table(w_b, w_c, Operator::Add, Ghost(ow));
    let multiplied_w_poly = square_table(w_b, w_c, Operator::Mul, Ghost(ow));
    sum_of_products(summed_add_i, summed_w_poly, summed_mul_i, multiplied_w_poly)
}

/// The lower and the upper half of a vector.
fn split_half(v: &[FieldElement]) -> (r: (Vec<FieldElement>, Vec<FieldElement>))
    ensures
        r.0@ == v@.take((v@.len() / 2) as int),
        r.1@ == v@.skip((v@.len() / 2) as int),
{
    let mid = v.len() / 2;
    let mut lo: Vec<FieldElement> = Vec::new();
    let mut hi: Vec<FieldElement> = Vec::new();
    let mut i: usize = 0;
    while i < v.len()
        invariant
            i <= v@.len(),
            mid == v@.len() / 2,
            lo@ == v@.take(if i < mid { i as int } else { mid as int }),
            hi@ == if i < mid { Seq::<FieldElement>::empty() } else { v@.subrange(mid as int, i as int) },
        decreases v@.len() - i,
    {
        if i < mid {
            lo.push(v[i]);
        } else {
            hi.push(v[i]);
        }
        i = i + 1;
        proof {
            assert(lo@ =~= v@.take(if i < mid { i as int } else { mid as int }));
            assert(hi@ =~= if i < mid { Seq::<FieldElement>::empty() } else { v@.subrange(mid as int, i as int) });
        }
    }
    proof {
        assert(hi@ =~= v@.skip(mid as int));
    }
    (lo, hi)
}

/// `x` followed by the entries of `v`.
fn prepend(x: FieldElement, v: &[FieldElement]) -> (r: Vec<FieldElement>)
    ensures
        vals(r@) == seq![x@] + vals(v@),
{
    let mut r: Vec<FieldElement> = Vec::new();
    r.push(x);
    let mut i: usize = 0;
    while i < v.len()
        invariant
            i <= v@.len(),
            vals(r@) == seq![x@] + vals(v@).take(i as int),
        decreases v@.len() - i,
    {
        let ghost before = r@;
        r.push(v[i]);
        proof {
            assert(vals(r@) =~= vals(before).push(v@[i as int]@));
            assert(seq![x@] + vals(v@).take(i + 1) =~= (seq![x@] + vals(v@).take(i as int)).push(
                v@[i as int]@,
            ));
        }
        i = i + 1;
    }
    proof {
        assert(vals(v@).take(i as int) =~= vals(v@));
    }
    r
}

/// The verifier's expected final claim for the output layer.
fn compute_verifier_claim_for_layer(
    layer: &Layers,
    init_random_challenge: FieldElement,
    sumcheck_random_challenges: &[FieldElement],
    o_1: FieldElement,
    o_2: FieldElement,
    k: Ghost<nat>,
) -> (r: FieldElement)
    requires
        k@ <= 1,
        layer.gates@.len() == exp2(k@),
        sumcheck_random_challenges@.len() == rounds_for(k@),
    ensures
        ({
            let pt = seq![init_random_challenge@] + vals(sumcheck_random_challenges@);
            let ops = ops_of(layer.gates@);
            r@ == layer_claim(
                mle_eval(wiring(ops, Operator::Add), pt),
                mle_eval(wiring(ops, Operator::Mul), pt),
                o_1@,
                o_2@,
            )
        }),
{
    proof {
        lemma_layer_fits(k@);
        crate::circuit::lemma_widths(k@);
        lemma_exp2_monotone(0, k@);
    }
    let all_random_challenges = prepend(init_random_challenge, sumcheck_random_challenges);
    let again = prepend(init_random_challenge, sumcheck_random_challenges);
    let a_r = match layer.get_add_mul_i(Operator::Add).full_evaluation(all_random_challenges) {
        Ok(v) => v,
        Err(_) => FieldElement::zero(),
    };
    let m_r = match layer.get_add_mul_i(Operator::Mul).full_evaluation(again) {
        Ok(v) => v,
        Err(_) => FieldElement::zero(),
    };
    a_r.mul(&o_1.add(&o_2)).add(&m_r.mul(&o_1.mul(&o_2)))
}

/// The verifier's expected final claim for a layer below the output.
#[verifier::rlimit(40)]
fn compute_merged_verifier_claim(
    layer: &Layers,
    current_random_challenge: &[FieldElement],
    previous_random_challenge: &[FieldElement],
    o_1: FieldElement,
    o_2: FieldElement,
    alpha: FieldElement,
    beta: FieldElement,
) -> (r: FieldElement)
    requires
        layer.gates@.len() >= 1,
        exp2(layer_bits(layer.gates@.len())) <= usize::MAX,
        previous_random_challenge@.len() == 2 * gate_width(layer.gates@.len()),
        current_random_challenge@.len() == 2 * operand_width(layer.gates@.len()),
    ensures
        ({
            let prev = vals(previous_random_challenge@);
            let half = (prev.len() / 2) as int;
            let cur = vals(current_random_challenge@);
            let ops = ops_of(layer.gates@);
            r@ == layer_claim(
                mle_eval(merged(wiring(ops, Operator::Add), prev.take(half), prev.skip(half), alpha@, beta@), cur),
                mle_eval(merged(wiring(ops, Operator::Mul), prev.take(half), prev.skip(half), alpha@, beta@), cur),
                o_1@,
                o_2@,
            )
        }),
{
    let (prev_r_b, prev_r_c) = split_half(previous_random_challenge);
    proof {
        let prev = vals(previous_random_challenge@);
        let half = (prev.len() / 2) as int;
        assert(vals(prev_r_b@) =~= prev.take(half));
        assert(vals(prev_r_c@) =~= prev.skip(half));
    }
    let add_i = layer.get_add_mul_i(Operator::Add);
    let mul_i = layer.get_add_mul_i(Operator::Mul);
    let summed_add_i = merge_predicate(&add_i, prev_r_b.as_slice(), prev_r_c.as_slice(), alpha, beta);
    let summed_mul_i = merge_predicate(&mul_i, prev_r_b.as_slice(), prev_r_c.as_slice(), alpha, beta);
    let a_r = match summed_add_i.full_evaluation(FieldElement::copy_all(current_random_challenge)) {
        Ok(v) => v,
        Err(_) => FieldElement::zero(),
    };
    let m_r = match summed_mul_i.full_evaluation(FieldElement::copy_all(current_random_challenge)) {
        Ok(v) => v,
        Err(_) => FieldElement::zero(),
    };
    a_r.mul(&o_1.add(&o_2)).add(&m_r.mul(&o_1.mul(&o_2)))
}

/// The input vector's values at the two halves of the last layer's challenges.
fn evaluate_input_layer_polynomial(
    inputs: &[FieldElement],
    sumcheck_random_challenges: &[FieldElement],
    k: Ghost<nat>,
) -> (r: (FieldElement, FieldElement))
    requires
        inputs@.len() == exp2(k@),
        sumcheck_random_challenges@.len() == 2 * k@,
    ensures
        ({
            let ch = vals(sumcheck_random_challenges@);
            &&& r.0@ == mle_eval(vals(inputs@), ch.take(k@ as int))
            &&& r.1@ == mle_eval(vals(inputs@), ch.skip(k@ as int))
        }),
{
    let half = sumcheck_random_challenges.len() / 2;
    let input_poly = MultilinearPoly {
        evaluation: FieldElement::copy_all(inputs),
        number_of_variables: half,
    };
    let (r_b, r_c) = split_half(sumcheck_random_challenges);
    proof {
        let ch = vals(sumcheck_random_challenges@);
        assert(vals(r_b@) =~= ch.take(k@ as int));
        assert(vals(r_c@) =~= ch.skip(k@ as int));
    }
    let o_1 = match input_poly.full_evaluation(r_b) {
        Ok(v) => v,
        Err(_) => FieldElement::zero(),
    };
    let o_2 = match input_poly.full_evaluation(r_c) {
        Ok(v) => v,
        Err(_) => FieldElement::zero(),
    };
    (o_1, o_2)
}

/// One when the output layer has two gates, zero otherwise: the exponent of its gate
/// count.
pub open spec fn top_exp(ops: Seq<Seq<Operator>>) -> nat {
    if ops.len() >= 1 && ops.last().len() == 2 {
        1
    } else {
        0
    }
}

/// Whether the protocol runs on a circuit with these layers, first to last, and this
/// many inputs: one or two output gates, each layer with twice the gates of the layer
/// above, two inputs per gate of the first layer, and a first layer of at most 2^9 gates,
/// so that every wiring predicate has fewer than 2^32 entries.
pub open spec fn gkr_shaped(ops: Seq<Seq<Operator>>, n_inputs: nat) -> bool {
    &&& 1 <= ops.len()
    &&& ops.len() + top_exp(ops) <= 10
    &&& forall|i: int|
        0 <= i < ops.len() ==> (#[trigger] ops[i]).len() == exp2((ops.len() - 1 - i + top_exp(ops)) as nat)
    &&& n_inputs == exp2(ops.len() + top_exp(ops))
}

/// The number of sumcheck rounds for a layer of `2^k` gates: the number of variables of
/// its two operand blocks.
pub open spec fn rounds_for(k: nat) -> nat {
    2 * operand_width(exp2(k))
}

/// The output polynomial: the output layer's values, padded with a zero to a length of
/// two when it has one value.
pub open spec fn padded_output(out: Seq<int>) -> Seq<int> {
    if out.len() == 1 {
        out.push(0)
    } else {
        out
    }
}

/// A GKR proof: the output polynomial, the sumcheck round polynomials of each layer from
/// the output down, and the claimed values of the layer below at the two halves of each
/// layer's challenges, for every layer but the one on the inputs.
pub struct Proof {
    pub final_layer_poly: MultilinearPoly,
    pub sumcheck_proof_evals: Vec<Vec<UnivariatePoly>>,
    pub sumcheck_claimed_evals: Vec<(FieldElement, FieldElement)>,
}

proof fn lemma_layer_fits(m: nat)
    requires
        m < 10,
    ensures
        exp2(layer_bits(exp2(m))) <= usize::MAX,
        2 * operand_width(exp2(m)) <= 20,
{
    crate::circuit::lemma_widths(m);
    assert(layer_bits(exp2(m)) <= 31);
    lemma_exp2_monotone(layer_bits(exp2(m)), 31);
    lemma_exp2_values();
}

fn to_univariate(coefficients: Vec<Vec<FieldElement>>) -> (r: Vec<UnivariatePoly>)
    ensures
        r@.len() == coefficients@.len(),
        forall|k: int| 0 <= k < r@.len() ==> (#[trigger] r@[k]).coefficient@ == coefficients@[k]@,
        polys_of(r@) == msgs_of(coefficients@),
{
    let mut r: Vec<UnivariatePoly> = Vec::new();
    let mut k: usize = 0;
    while k < coefficients.len()
        invariant
            k <= coefficients@.len(),
            r@.len() == k,
            forall|j: int| 0 <= j < k ==> (#[trigger] r@[j]).coefficient@ == coefficients@[j]@,
        decreases coefficients@.len() - k,
    {
        r.push(UnivariatePoly::new(FieldElement::copy_all(coefficients[k].as_slice())));
        k = k + 1;
    }
    proof {
        assert forall|j: int| 0 <= j < r@.len() implies polys_of(r@)[j] == msgs_of(coefficients@)[j] by {
            assert(r@[j]@ == vals(r@[j].coefficient@));
        }
        assert(polys_of(r@) =~= msgs_of(coefficients@));
    }
    r
}

/// The values of the layer below step `li` from the output: the inputs at the last step.
pub open spec fn values_below(values: Seq<Seq<int>>, inputs: Seq<int>, li: nat) -> Seq<int> {
    if li == values.len() - 1 {
        inputs
    } else {
        values[values.len() - 2 - li]
    }
}

/// The sum of products that step `li` runs its sumcheck over: the layer's wiring
/// predicates, at the opening point for the output layer and merged at the previous two
/// points below it, times the sums and the products of the values below.
pub open spec fn step_poly(
    layer: Seq<Operator>,
    w: Seq<int>,
    li: nat,
    rho: int,
    r_b: Seq<int>,
    r_c: Seq<int>,
    alpha: int,
    beta: int,
) -> Seq<Seq<Seq<int>>> {
    if li == 0 {
        seq![
            seq![fold_first(wiring(layer, Operator::Add), rho), table(w, w, Operator::Add)],
            seq![fold_first(wiring(layer, Operator::Mul), rho), table(w, w, Operator::Mul)],
        ]
    } else {
        seq![
            seq![merged(wiring(layer, Operator::Add), r_b, r_c, alpha, beta), table(w, w, Operator::Add)],
            seq![merged(wiring(layer, Operator::Mul), r_b, r_c, alpha, beta), table(w, w, Operator::Mul)],
        ]
    }
}

/// Whether `msgs` and `pairs` are what an honest prover sends from step `li` on: at each
/// step the honest round polynomials of the step's sum of products, and, but at the last,
/// the values below at the two halves of the challenges, which are then absorbed to
/// squeeze the weights of the next step.
pub open spec fn proves_steps(
    ops: Seq<Seq<Operator>>,
    values: Seq<Seq<int>>,
    inputs: Seq<int>,
    msgs: Seq<Seq<Seq<int>>>,
    pairs: Seq<(int, int)>,
    rho: int,
    li: nat,
    r_b: Seq<int>,
    r_c: Seq<int>,
    alpha: int,
    beta: int,
    state: Seq<u8>,
) -> bool
    decreases ops.len() - li,
{
    if li >= ops.len() {
        true
    } else {
        let steps = ops.len();
        let w = values_below(values, inputs, li);
        let ms = msgs[li as int];
        let ch = challenges_of(ms, state);
        let h = (ch.len() / 2) as int;
        let o = (mle_eval(w, ch.take(h)), mle_eval(w, ch.skip(h)));
        let s1 = state_after(ms, state) + encode_all(seq![o.0]);
        let s2 = keccak256_of(s1) + encode_all(seq![o.1]);
        &&& ms.len() == rounds_for(li + top_exp(ops))
        &&& honest_quadratics(step_poly(ops[steps - 1 - li], w, li, rho, r_b, r_c, alpha, beta), ms, state)
        &&& (li < steps - 1 ==> pairs[li as int] == o)
        &&& proves_steps(
            ops,
            values,
            inputs,
            msgs,
            pairs,
            rho,
            li + 1,
            ch.take(h),
            ch.skip(h),
            challenge_of(s1),
            challenge_of(s2),
            keccak256_of(s2),
        )
    }
}

/// The opening point and the transcript state after the opening, for an output
/// polynomial.
pub open spec fn opening_point(out: Seq<int>) -> int {
    challenge_of(encode_all(out))
}

pub open spec fn opened_state(out: Seq<int>) -> Seq<u8> {
    keccak256_of(encode_all(out)) + encode_all(seq![mle_eval(out, seq![opening_point(out)])])
}

/// One honest step, followed by honest steps from the next, is honest from this step.
proof fn lemma_step_back(
    ops: Seq<Seq<Operator>>,
    values: Seq<Seq<int>>,
    inputs: Seq<int>,
    msgs: Seq<Seq<Seq<int>>>,
    pairs: Seq<(int, int)>,
    rho: int,
    li: nat,
    r_b: Seq<int>,
    r_c: Seq<int>,
    alpha: int,
    beta: int,
    state: Seq<u8>,
    next_rb: Seq<int>,
    next_rc: Seq<int>,
    next_alpha: int,
    next_beta: int,
    next_state: Seq<u8>,
)
    requires
        li < ops.len(),
        ({
            let w = values_below(values, inputs, li);
            let ms = msgs[li as int];
            let ch = challenges_of(ms, state);
            let h = (ch.len() / 2) as int;
            let o = (mle_eval(w, ch.take(h)), mle_eval(w, ch.skip(h)));
            let s1 = state_after(ms, state) + encode_all(seq![o.0]);
            let s2 = keccak256_of(s1) + encode_all(seq![o.1]);
            &&& ms.len() == rounds_for(li + top_exp(ops))
            &&& honest_quadratics(
                step_poly(ops[ops.len() - 1 - li], w, li, rho, r_b, r_c, alpha, beta),
                ms,
                state,
            )
            &&& li < ops.len() - 1 ==> {
                &&& pairs[li as int] == o
                &&& next_rb == ch.take(h)
                &&& next_rc == ch.skip(h)
                &&& next_alpha == challenge_of(s1)
                &&& next_beta == challenge_of(s2)
                &&& next_state == keccak256_of(s2)
            }
        }),
        proves_steps(ops, values, inputs, msgs, pairs, rho, li + 1, next_rb, next_rc, next_alpha, next_beta, next_state),
    ensures
        proves_steps(ops, values, inputs, msgs, pairs, rho, li, r_b, r_c, alpha, beta, state),
{
    let w = values_below(values, inputs, li);
    let ms = msgs[li as int];
    let ch = challenges_of(ms, state);
    let h = (ch.len() / 2) as int;
    let o = (mle_eval(w, ch.take(h)), mle_eval(w, ch.skip(h)));
    let s1 = state_after(ms, state) + encode_all(seq![o.0]);
    let s2 = keccak256_of(s1) + encode_all(seq![o.1]);
    assert(proves_steps(
        ops,
        values,
        inputs,
        msgs,
        pairs,
        rho,
        li + 1,
        ch.take(h),
        ch.skip(h),
        challenge_of(s1),
        challenge_of(s2),
        keccak256_of(s2),
    ));
}

/// Proves the evaluation of the circuit on `inputs`.
#[verifier::rlimit(100)]
pub fn prove(circuit: &Circuit, inputs: Vec<FieldElement>) -> (r: Proof)
    requires
        gkr_shaped(circuit_ops(circuit.layers@), inputs@.len()),
    ensures
        r.final_layer_poly.wf(),
        r.final_layer_poly.number_of_variables == 1,
        r.final_layer_poly@ == padded_output(
            circuit_values(circuit_ops(circuit.layers@), vals(inputs@)).last(),
        ),
        r.sumcheck_proof_evals@.len() == circuit.layers@.len(),
        r.sumcheck_claimed_evals@.len() == circuit.layers@.len() - 1,
        proves_steps(
            circuit_ops(circuit.layers@),
            circuit_values(circuit_ops(circuit.layers@), vals(inputs@)),
            vals(inputs@),
            layer_msgs(r.sumcheck_proof_evals@),
            pair_vals(r.sumcheck_claimed_evals@),
            opening_point(r.final_layer_poly@),
            0,
            Seq::empty(),
            Seq::empty(),
            0,
            0,
            opened_state(r.final_layer_poly@),
        ),
{
    let ghost ops = circuit_ops(circuit.layers@);
    let ghost values = circuit_values(ops, vals(inputs@));
    let num_layers = circuit.layers.len();
    let mut transcript = Transcript::init();
    let circuit_evaluations = circuit.evaluate_circuit(FieldElement::copy_all(inputs.as_slice()));
    proof {
        crate::circuit::lemma_circuit_values_len(ops, vals(inputs@));
        assert(circuit_evaluations@.map_values(|v: Vec<FieldElement>| vals(v@))[num_layers - 1]
            == values[num_layers - 1]);
        assert(ops[num_layers - 1].len() == exp2(top_exp(ops)));
        lemma_exp2_values();
        assert(circuit.layers@[num_layers - 1].gates@.len() == ops[num_layers - 1].len());
        assert forall|i: int| 0 <= i < num_layers implies (#[trigger] circuit_evaluations@[i])@.len()
            == ops[i].len() by {
            assert(circuit_evaluations@.map_values(|v: Vec<FieldElement>| vals(v@))[i] == values[i]);
        }
    }
    let top = circuit.layers[num_layers - 1].gates.len() - 1;
    let ghost e = top_exp(ops);
    let mut w_0 = FieldElement::copy_all(circuit_evaluations[num_layers - 1].as_slice());
    proof {
        assert(vals(w_0@) == values.last());
        assert(w_0@.len() == exp2(e));
        assert(top == e);
    }
    if w_0.len() == 1 {
        w_0.push(FieldElement::zero());
    }
    proof {
        assert(vals(w_0@) =~= padded_output(values.last()));
    }
    let output_poly = MultilinearPoly { evaluation: w_0, number_of_variables: 1 };
    let (m_0, random_challenge) = initialize_sumcheck_protocol(&mut transcript, &output_poly);
    let ghost ins = vals(inputs@);
    let ghost rho = random_challenge@;
    let ghost start = transcript@;
    proof {
        assert(rho == opening_point(output_poly@));
        assert(start == opened_state(output_poly@));
    }
    let mut claimed_sum = m_0;
    let mut proof_polynomials: Vec<Vec<UnivariatePoly>> = Vec::new();
    let mut claimed_evaluations: Vec<(FieldElement, FieldElement)> = Vec::new();
    let mut current_rb: Vec<FieldElement> = Vec::new();
    let mut current_rc: Vec<FieldElement> = Vec::new();
    let mut alpha = FieldElement::zero();
    let mut beta = FieldElement::zero();
    let mut idx: usize = 0;
    proof {
        assert(vals(current_rb@) =~= Seq::<int>::empty());
        assert(vals(current_rc@) =~= Seq::<int>::empty());
        assert forall|msgs: Seq<Seq<Seq<int>>>, pairs: Seq<(int, int)>|
            msgs.len() == num_layers && pairs.len() == num_layers - 1 && msgs.take(0) == layer_msgs(
                proof_polynomials@,
            ) && pairs.take(0) == pair_vals(
                claimed_evaluations@,
            ) && proves_steps(
                ops,
                values,
                ins,
                msgs,
                pairs,
                rho,
                0,
                vals(current_rb@),
                vals(current_rc@),
                alpha@,
                beta@,
                transcript@,
            ) implies #[trigger] proves_steps(
                ops,
                values,
                ins,
                msgs,
                pairs,
                rho,
                0,
                Seq::empty(),
                Seq::empty(),
                0,
                0,
                start,
            ) by {}
    }
    while idx < num_layers
        invariant
            idx <= num_layers,
            num_layers == circuit.layers@.len(),
            ops == circuit_ops(circuit.layers@),
            values == circuit_values(ops, vals(inputs@)),
            gkr_shaped(ops, inputs@.len()),
            circuit_evaluations@.len() == num_layers,
            forall|i: int|
                0 <= i < num_layers ==> (#[trigger] circuit_evaluations@[i])@.len() == ops[i].len(),
            proof_polynomials@.len() == idx,
            claimed_evaluations@.len() == if idx < num_layers { idx as int } else { num_layers - 1 },
            top == e,
            e == top_exp(ops),
            1 <= idx < num_layers ==> current_rb@.len() == rounds_for((idx - 1 + e) as nat) / 2,
            1 <= idx < num_layers ==> current_rc@.len() == rounds_for((idx - 1 + e) as nat) / 2,
            ins == vals(inputs@),
            random_challenge@ == rho,
            circuit_evaluations@.map_values(|v: Vec<FieldElement>| vals(v@)) == values,
            forall|msgs: Seq<Seq<Seq<int>>>, pairs: Seq<(int, int)>|
                msgs.len() == num_layers && pairs.len() == num_layers - 1 && msgs.take(idx as int)
                    == layer_msgs(proof_polynomials@) && pairs.take(
                    claimed_evaluations@.len() as int,
                ) == pair_vals(claimed_evaluations@) && proves_steps(
                    ops,
                    values,
                    ins,
                    msgs,
                    pairs,
                    rho,
                    idx as nat,
                    vals(current_rb@),
                    vals(current_rc@),
                    alpha@,
                    beta@,
                    transcript@,
                ) ==> #[trigger] proves_steps(
                    ops,
                    values,
                    ins,
                    msgs,
                    pairs,
                    rho,
                    0,
                    Seq::empty(),
                    Seq::empty(),
                    0,
                    0,
                    start,
                ),
        decreases num_layers - idx,
    {
        let layer_index = num_layers - 1 - idx;
        let layer = &circuit.layers[layer_index];
        let ghost k = (idx + e) as nat;
        proof {
            lemma_layer_fits(k);
            crate::circuit::lemma_widths(k);
            assert(layer.gates@.len() == ops[layer_index as int].len());
            assert(ops[layer_index as int].len() == exp2(k));
            if idx >= 1 {
                crate::circuit::lemma_widths((k - 1) as nat);
            }
        }
        let w_i = if idx == num_layers - 1 {
            FieldElement::copy_all(inputs.as_slice())
        } else {
            proof {
                assert(ops[layer_index - 1].len() == exp2(k + 1));
            }
            FieldElement::copy_all(circuit_evaluations[layer_index - 1].as_slice())
        };
        proof {
            assert(exp2(k + 1) == 2 * exp2(k));
            assert(w_i@.len() == exp2(operand_width(exp2(k))));
        }
        let fbc_poly = if idx == 0 {
            construct_sumcheck_input_polynomial(
                &random_challenge,
                layer,
                w_i.as_slice(),
                w_i.as_slice(),
                Ghost(e),
            )
        } else {
            construct_merged_sumcheck_input_polynomial(
                layer,
                w_i.as_slice(),
                w_i.as_slice(),
                current_rb.as_slice(),
                current_rc.as_slice(),
                alpha,
                beta,
            )
        };
        let ghost state_before = transcript@;
        let sum_check_proof = generate_sumcheck_proof(claimed_sum, &fbc_poly, &mut transcript);
        proof {
            crate::sumcheck::lemma_challenges_len(
                crate::sumcheck::msgs_of(sum_check_proof.proof_polynomials@),
                state_before,
            );
        }
        let ghost n_rounds = sum_check_proof.proof_polynomials@.len();
        let challenges = sum_check_proof.random_challenges;
        proof {
            assert(vals(challenges@).len() == n_rounds);
            assert(n_rounds == rounds_for(k));
        }
        let ghost ms = msgs_of(sum_check_proof.proof_polynomials@);
        let ghost ch = vals(challenges@);
        let ghost st_after = transcript@;
        let ghost done0 = layer_msgs(proof_polynomials@);
        let ghost pairs0 = pair_vals(claimed_evaluations@);
        let ghost cnt0 = claimed_evaluations@.len();
        let ghost rb0 = vals(current_rb@);
        let ghost rc0 = vals(current_rc@);
        let ghost a0 = alpha@;
        let ghost b0 = beta@;
        let ghost w = vals(w_i@);
        let ghost layer_ops = ops[num_layers - 1 - idx];
        proof {
            assert(w == values_below(values, ins, idx as nat)) by {
                crate::circuit::lemma_circuit_values_len(ops, ins);
                if idx < num_layers - 1 {
                    assert(circuit_evaluations@.map_values(|v: Vec<FieldElement>| vals(v@))[layer_index
                        - 1] == values[layer_index - 1]);
                }
            }
            assert(layer_ops == ops_of(layer.gates@));
            assert(fbc_poly@ == step_poly(layer_ops, w, idx as nat, rho, rb0, rc0, a0, b0));
            assert(ch == challenges_of(ms, state_before));
            assert(st_after == state_after(ms, state_before));
            assert(ms.len() == rounds_for(k));
        }
        let ghost before = proof_polynomials@;
        proof_polynomials.push(to_univariate(sum_check_proof.proof_polynomials));
        proof {
            assert(layer_msgs(proof_polynomials@) =~= done0.push(ms));
        }
        if idx < num_layers - 1 {
            let k = challenges.len() / 2;
            let next_poly = MultilinearPoly { evaluation: w_i, number_of_variables: k };
            let (r_b, r_c) = split_half(challenges.as_slice());
            let o_1 = match next_poly.full_evaluation(FieldElement::copy_all(r_b.as_slice())) {
                Ok(v) => v,
                Err(_) => FieldElement::zero(),
            };
            let o_2 = match next_poly.full_evaluation(FieldElement::copy_all(r_c.as_slice())) {
                Ok(v) => v,
                Err(_) => FieldElement::zero(),
            };
            current_rb = r_b;
            current_rc = r_c;
            let mut one: Vec<FieldElement> = Vec::new();
            one.push(o_1);
            transcript.absorb(fq_vec_to_bytes(one.as_slice()).as_slice());
            alpha = transcript.squeeze();
            let mut two: Vec<FieldElement> = Vec::new();
            two.push(o_2);
            transcript.absorb(fq_vec_to_bytes(two.as_slice()).as_slice());
            beta = transcript.squeeze();
            claimed_sum = alpha.mul(&o_1).add(&beta.mul(&o_2));
            claimed_evaluations.push((o_1, o_2));
            proof {
                let h = (ch.len() / 2) as int;
                assert(vals(r_b@) =~= ch.take(h));
                assert(vals(r_c@) =~= ch.skip(h));
                assert(vals(one@) =~= seq![o_1@]);
                assert(vals(two@) =~= seq![o_2@]);
                assert(o_1@ == mle_eval(w, ch.take(h)));
                assert(o_2@ == mle_eval(w, ch.skip(h)));
                assert(pair_vals(claimed_evaluations@) =~= pairs0.push((o_1@, o_2@)));
                assert forall|msgs: Seq<Seq<Seq<int>>>, pairs: Seq<(int, int)>|
                    msgs.len() == num_layers && pairs.len() == num_layers - 1 && msgs.take(idx + 1)
                        == layer_msgs(proof_polynomials@) && pairs.take(
                        claimed_evaluations@.len() as int,
                    ) == pair_vals(claimed_evaluations@) && proves_steps(
                        ops,
                        values,
                        ins,
                        msgs,
                        pairs,
                        rho,
                        (idx + 1) as nat,
                        vals(current_rb@),
                        vals(current_rc@),
                        alpha@,
                        beta@,
                        transcript@,
                    ) implies #[trigger] proves_steps(
                        ops,
                        values,
                        ins,
                        msgs,
                        pairs,
                        rho,
                        0,
                        Seq::empty(),
                        Seq::empty(),
                        0,
                        0,
                        start,
                    ) by {
                    assert(msgs.take(idx as int) =~= msgs.take(idx + 1).take(idx as int));
                    assert(done0.push(ms).take(idx as int) =~= done0);
                    assert(msgs.take(idx as int) == done0);
                    assert(msgs.take(idx + 1)[idx as int] == msgs[idx as int]);
                    assert(msgs[idx as int] == ms);
                    assert(pairs.take(cnt0 as int) =~= pairs.take(cnt0 as int + 1).take(cnt0 as int));
                    assert(pairs0.push((o_1@, o_2@)).take(cnt0 as int) =~= pairs0);
                    assert(pairs.take(cnt0 as int) == pairs0);
                    assert(pairs.take(cnt0 as int + 1)[cnt0 as int] == pairs[cnt0 as int]);
                    assert(cnt0 == idx);
                    assert(pairs[idx as int] == (o_1@, o_2@));
                    lemma_step_back(
                        ops,
                        values,
                        ins,
                        msgs,
                        pairs,
                        rho,
                        idx as nat,
                        rb0,
                        rc0,
                        a0,
                        b0,
                        state_before,
                        vals(current_rb@),
                        vals(current_rc@),
                        alpha@,
                        beta@,
                        transcript@,
                    );
                }
            }
        } else {
            proof {
                assert forall|msgs: Seq<Seq<Seq<int>>>, pairs: Seq<(int, int)>|
                    msgs.len() == num_layers && pairs.len() == num_layers - 1 && msgs.take(idx + 1)
                        == layer_msgs(proof_polynomials@) && pairs.take(
                        claimed_evaluations@.len() as int,
                    ) == pair_vals(claimed_evaluations@) && proves_steps(
                        ops,
                        values,
                        ins,
                        msgs,
                        pairs,
                        rho,
                        (idx + 1) as nat,
                        vals(current_rb@),
                        vals(current_rc@),
                        alpha@,
                        beta@,
                        transcript@,
                    ) implies #[trigger] proves_steps(
                        ops,
                        values,
                        ins,
                        msgs,
                        pairs,
                        rho,
                        0,
                        Seq::empty(),
                        Seq::empty(),
                        0,
                        0,
                        start,
                    ) by {
                    assert(msgs.take(idx as int) =~= msgs.take(idx + 1).take(idx as int));
                    assert(done0.push(ms).take(idx as int) =~= done0);
                    assert(msgs.take(idx as int) == done0);
                    assert(msgs.take(idx + 1)[idx as int] == msgs[idx as int]);
                    assert(msgs[idx as int] == ms);
                    assert(pairs.take(cnt0 as int) == pairs0);
                    lemma_step_back(
                        ops,
                        values,
                        ins,
                        msgs,
                        pairs,
                        rho,
                        idx as nat,
                        rb0,
                        rc0,
                        a0,
                        b0,
                        state_before,
                        vals(current_rb@),
                        vals(current_rc@),
                        alpha@,
                        beta@,
                        transcript@,
                    );
                }
            }
        }
        idx = idx + 1;
    }
    proof {
        let msgs = layer_msgs(proof_polynomials@);
        let pairs = pair_vals(claimed_evaluations@);
        assert(msgs.take(num_layers as int) =~= msgs);
        assert(pairs.take(claimed_evaluations@.len() as int) =~= pairs);
        assert(proves_steps(
            ops,
            values,
            ins,
            msgs,
            pairs,
            rho,
            num_layers as nat,
            vals(current_rb@),
            vals(current_rc@),
            alpha@,
            beta@,
            transcript@,
        ));
        assert(proves_steps(ops, values, ins, msgs, pairs, rho, 0, Seq::empty(), Seq::empty(), 0, 0, start));
    }
    Proof {
        final_layer_poly: output_poly,
        sumcheck_proof_evals: proof_polynomials,
        sumcheck_claimed_evals: claimed_evaluations,
    }
}

/// The round polynomials of every layer, as coefficient sequences.
pub open spec fn layer_msgs(p: Seq<Vec<UnivariatePoly>>) -> Seq<Seq<Seq<int>>> {
    p.map_values(|v: Vec<UnivariatePoly>| polys_of(v@))
}

/// The claimed pairs, as values.
pub open spec fn pair_vals(p: Seq<(FieldElement, FieldElement)>) -> Seq<(int, int)> {
    p.map_values(|q: (FieldElement, FieldElement)| (q.0@, q.1@))
}

/// The values of the layer below at the two halves of step `li`'s challenges: claimed by
/// the proof, or computed from the inputs at the last step.
pub open spec fn below_values(
    steps: nat,
    li: nat,
    ch: Seq<int>,
    pairs: Seq<(int, int)>,
    inputs: Seq<int>,
) -> (int, int) {
    if li == steps - 1 {
        let h = (ch.len() / 2) as int;
        (mle_eval(inputs, ch.take(h)), mle_eval(inputs, ch.skip(h)))
    } else {
        pairs[li as int]
    }
}

/// The claim that step `li` expects of its sumcheck: the layer's wiring predicates at the
/// challenges (merged at the previous two points below the output), combined with the
/// values of the layer below.
pub open spec fn expected_claim(
    layer: Seq<Operator>,
    li: nat,
    rho: int,
    prev: Seq<int>,
    alpha: int,
    beta: int,
    ch: Seq<int>,
    o: (int, int),
) -> int {
    if li == 0 {
        let pt = seq![rho] + ch;
        layer_claim(
            mle_eval(wiring(layer, Operator::Add), pt),
            mle_eval(wiring(layer, Operator::Mul), pt),
            o.0,
            o.1,
        )
    } else {
        let h = (prev.len() / 2) as int;
        layer_claim(
            mle_eval(merged(wiring(layer, Operator::Add), prev.take(h), prev.skip(h), alpha, beta), ch),
            mle_eval(merged(wiring(layer, Operator::Mul), prev.take(h), prev.skip(h), alpha, beta), ch),
            o.0,
            o.1,
        )
    }
}

/// Whether the verifier accepts steps `li` onward: at each, the expected number of round
/// polynomials, a sumcheck that passes against the running claim, and a final claim that
/// equals the expected one; then the two values below are absorbed, the weights squeezed,
/// and the next claim is their combination.
pub open spec fn layers_accept(
    ops: Seq<Seq<Operator>>,
    msgs: Seq<Seq<Seq<int>>>,
    pairs: Seq<(int, int)>,
    inputs: Seq<int>,
    rho: int,
    li: nat,
    claim: int,
    prev: Seq<int>,
    alpha: int,
    beta: int,
    state: Seq<u8>,
) -> bool
    decreases ops.len() - li,
{
    if li >= ops.len() {
        true
    } else {
        let steps = ops.len();
        let run = replay_quadratics(msgs[li as int], claim, state);
        let ch = run.2;
        let o = below_values(steps, li, ch, pairs, inputs);
        let s1 = run.3 + encode_all(seq![o.0]);
        let a = challenge_of(s1);
        let s2 = keccak256_of(s1) + encode_all(seq![o.1]);
        let b = challenge_of(s2);
        &&& msgs[li as int].len() == rounds_for(li + top_exp(ops))
        &&& run.0
        &&& expected_claim(ops[steps - 1 - li], li, rho, prev, alpha, beta, ch, o) == run.1
        &&& layers_accept(
            ops,
            msgs,
            pairs,
            inputs,
            rho,
            li + 1,
            fadd(fmul(a, o.0), fmul(b, o.1)),
            ch,
            a,
            b,
            keccak256_of(s2),
        )
    }
}

/// Whether the verifier accepts a proof with output polynomial `out` (in `out_vars`
/// variables) for a circuit with these layers and these inputs.
pub open spec fn gkr_accepts(
    out: Seq<int>,
    out_vars: nat,
    msgs: Seq<Seq<Seq<int>>>,
    pairs: Seq<(int, int)>,
    ops: Seq<Seq<Operator>>,
    inputs: Seq<int>,
) -> bool {
    let st = encode_all(out);
    let rho = challenge_of(st);
    let m0 = mle_eval(out, seq![rho]);
    &&& gkr_shaped(ops, inputs.len())
    &&& out_vars == 1
    &&& out.len() == 2
    &&& msgs.len() == ops.len()
    &&& pairs.len() == ops.len() - 1
    &&& layers_accept(ops, msgs, pairs, inputs, rho, 0, m0, Seq::empty(), 0, 0, keccak256_of(st) + encode_all(seq![m0]))
}

/// Whether the protocol runs on this circuit with this many inputs.
pub fn is_gkr_shaped(circuit: &Circuit, n_inputs: usize) -> (r: bool)
    ensures
        r == gkr_shaped(circuit_ops(circuit.layers@), n_inputs as nat),
{
    let ghost ops = circuit_ops(circuit.layers@);
    let num_layers = circuit.layers.len();
    if num_layers < 1 || num_layers > 10 {
        return false;
    }
    let top: usize = if circuit.layers[num_layers - 1].gates.len() == 2 {
        1
    } else {
        0
    };
    proof {
        assert(ops.last() == ops_of(circuit.layers@[num_layers - 1].gates@));
        assert(top == top_exp(ops));
    }
    if num_layers + top > 10 {
        return false;
    }
    proof {
        lemma_exp2_monotone((num_layers + top) as nat, 31);
        lemma_exp2_values();
    }
    if n_inputs != crate::multilinear::exp2_exec(num_layers + top) {
        return false;
    }
    let mut i: usize = 0;
    while i < num_layers
        invariant
            i <= num_layers,
            1 <= num_layers,
            num_layers + top <= 10,
            top == top_exp(ops),
            num_layers == ops.len(),
            ops == circuit_ops(circuit.layers@),
            forall|j: int|
                0 <= j < i ==> (#[trigger] ops[j]).len() == exp2((ops.len() - 1 - j + top_exp(ops)) as nat),
        decreases num_layers - i,
    {
        proof {
            lemma_exp2_monotone((num_layers - 1 - i + top) as nat, 31);
            lemma_exp2_values();
            assert(ops[i as int] == ops_of(circuit.layers@[i as int].gates@));
        }
        if circuit.layers[i].gates.len() != crate::multilinear::exp2_exec(num_layers - 1 - i + top) {
            return false;
        }
        i = i + 1;
    }
    true
}

fn copy_polys(v: &Vec<UnivariatePoly>) -> (r: Vec<UnivariatePoly>)
    ensures
        polys_of(r@) == polys_of(v@),
{
    let mut r: Vec<UnivariatePoly> = Vec::new();
    let mut k: usize = 0;
    while k < v.len()
        invariant
            k <= v@.len(),
            r@.len() == k,
            polys_of(r@) == polys_of(v@).take(k as int),
        decreases v@.len() - k,
    {
        let ghost before = r@;
        let p = UnivariatePoly::new(FieldElement::copy_all(v[k].coefficient.as_slice()));
        proof {
            assert(p@ == v@[k as int]@);
        }
        r.push(p);
        proof {
            assert forall|j: int| 0 <= j < k + 1 implies polys_of(r@)[j] == polys_of(v@)[j] by {
                if j < k {
                    assert(r@[j] == before[j]);
                    assert(polys_of(before)[j] == polys_of(v@).take(k as int)[j]);
                }
            }
            assert(polys_of(r@) =~= polys_of(v@).take(k + 1));
        }
        k = k + 1;
    }
    proof {
        assert(polys_of(v@).take(k as int) =~= polys_of(v@));
    }
    r
}

/// Checks a proof of the circuit's evaluation on `inputs`, layer by layer from the
/// output down to the inputs.
pub fn verify(proof: Proof, circuit: Circuit, inputs: &[FieldElement]) -> (r: bool)
    ensures
        r == gkr_accepts(
            proof.final_layer_poly@,
            proof.final_layer_poly.number_of_variables as nat,
            layer_msgs(proof.sumcheck_proof_evals@),
            pair_vals(proof.sumcheck_claimed_evals@),
            circuit_ops(circuit.layers@),
            vals(inputs@),
        ),
{
    let ghost ops = circuit_ops(circuit.layers@);
    let ghost msgs = layer_msgs(proof.sumcheck_proof_evals@);
    let ghost pairs = pair_vals(proof.sumcheck_claimed_evals@);
    let ghost ins = vals(inputs@);
    if !is_gkr_shaped(&circuit, inputs.len()) {
        return false;
    }
    let num_layers = circuit.layers.len();
    if proof.final_layer_poly.number_of_variables != 1 || proof.final_layer_poly.evaluation.len() != 2
        || proof.sumcheck_proof_evals.len() != num_layers || proof.sumcheck_claimed_evals.len()
        != num_layers - 1 {
        return false;
    }
    let top: usize = if circuit.layers[num_layers - 1].gates.len() == 2 {
        1
    } else {
        0
    };
    proof {
        lemma_exp2_values();
        assert(ops.last() == ops_of(circuit.layers@[num_layers - 1].gates@));
        assert(top == top_exp(ops));
    }
    let mut transcript = Transcript::init();
    let (m_0, init_random_challenge) = initialize_sumcheck_protocol(
        &mut transcript,
        &proof.final_layer_poly,
    );
    let ghost rho = init_random_challenge@;
    let mut current_claim = m_0;
    let mut alpha_challenge = FieldElement::zero();
    let mut beta_challenge = FieldElement::zero();
    let mut prev_sumcheck_random_challenges: Vec<FieldElement> = Vec::new();
    proof {
        assert(vals(prev_sumcheck_random_challenges@) =~= Seq::<int>::empty());
    }
    let mut layer_index: usize = 0;
    while layer_index < num_layers
        invariant
            layer_index <= num_layers,
            num_layers == circuit.layers@.len(),
            ops == circuit_ops(circuit.layers@),
            msgs == layer_msgs(proof.sumcheck_proof_evals@),
            pairs == pair_vals(proof.sumcheck_claimed_evals@),
            ins == vals(inputs@),
            gkr_shaped(ops, inputs@.len()),
            msgs.len() == num_layers,
            pairs.len() == num_layers - 1,
            init_random_challenge@ == rho,
            top == top_exp(ops),
            layer_index >= 1 ==> prev_sumcheck_random_challenges@.len() == rounds_for(
                (layer_index - 1 + top) as nat,
            ),
            gkr_accepts(
                proof.final_layer_poly@,
                proof.final_layer_poly.number_of_variables as nat,
                msgs,
                pairs,
                ops,
                ins,
            ) == layers_accept(
                ops,
                msgs,
                pairs,
                ins,
                rho,
                layer_index as nat,
                current_claim@,
                vals(prev_sumcheck_random_challenges@),
                alpha_challenge@,
                beta_challenge@,
                transcript@,
            ),
        decreases num_layers - layer_index,
    {
        let li = layer_index;
        let layer = &circuit.layers[num_layers - 1 - li];
        let round_polys = &proof.sumcheck_proof_evals[li];
        let ghost k = (li + top) as nat;
        proof {
            lemma_layer_fits(k);
            crate::circuit::lemma_widths(k);
            if li >= 1 {
                crate::circuit::lemma_widths((k - 1) as nat);
            }
            assert(ops[num_layers - 1 - li] == ops_of(layer.gates@));
            assert(layer.gates@.len() == exp2(k));
            assert(msgs[li as int] == polys_of(round_polys@));
        }
        if round_polys.len() != rounds_for_exec(li + top) {
            return false;
        }
        let ghost state_before = transcript@;
        let sumcheck_verify = verify_sumcheck_proof(
            copy_polys(round_polys),
            current_claim,
            &mut transcript,
        );
        if !sumcheck_verify.verified {
            return false;
        }
        let current_random_challenge = sumcheck_verify.random_challenges;
        proof {
            lemma_replay_challenges_len(msgs[li as int], current_claim@, state_before);
        }
        let (evaluation_at_rb, evaluation_at_rc) = if li == num_layers - 1 {
            proof {
                assert(rounds_for(k) == 2 * (num_layers + top));
            }
            evaluate_input_layer_polynomial(
                inputs,
                current_random_challenge.as_slice(),
                Ghost((num_layers + top) as nat),
            )
        } else {
            proof {
                assert(pairs[li as int] == (proof.sumcheck_claimed_evals@[li as int].0@,
                    proof.sumcheck_claimed_evals@[li as int].1@));
            }
            proof.sumcheck_claimed_evals[li]
        };
        let expected_claim_value = if li == 0 {
            compute_verifier_claim_for_layer(
                layer,
                init_random_challenge,
                current_random_challenge.as_slice(),
                evaluation_at_rb,
                evaluation_at_rc,
                Ghost(top as nat),
            )
        } else {
            compute_merged_verifier_claim(
                layer,
                current_random_challenge.as_slice(),
                prev_sumcheck_random_challenges.as_slice(),
                evaluation_at_rb,
                evaluation_at_rc,
                alpha_challenge,
                beta_challenge,
            )
        };
        if !expected_claim_value.equals(&sumcheck_verify.final_claimed_sum) {
            return false;
        }
        prev_sumcheck_random_challenges = current_random_challenge;
        let mut one: Vec<FieldElement> = Vec::new();
        one.push(evaluation_at_rb);
        proof {
            assert(vals(one@) =~= seq![evaluation_at_rb@]);
        }
        transcript.absorb(fq_vec_to_bytes(one.as_slice()).as_slice());
        alpha_challenge = transcript.squeeze();
        let mut two: Vec<FieldElement> = Vec::new();
        two.push(evaluation_at_rc);
        proof {
            assert(vals(two@) =~= seq![evaluation_at_rc@]);
        }
        transcript.absorb(fq_vec_to_bytes(two.as_slice()).as_slice());
        beta_challenge = transcript.squeeze();
        current_claim = alpha_challenge.mul(&evaluation_at_rb).add(&beta_challenge.mul(&evaluation_at_rc));
        layer_index = layer_index + 1;
    }
    true
}

/// The number of sumcheck rounds for a layer of `2^idx` gates.
fn rounds_for_exec(idx: usize) -> (r: usize)
    requires
        idx < 10,
    ensures
        r == rounds_for(idx as nat),
{
    proof {
        crate::circuit::lemma_widths(idx as nat);
    }
    if idx == 0 {
        2
    } else {
        2 * (idx + 1)
    }
}

} // verus!
