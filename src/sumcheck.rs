//! The sumcheck protocol, made non-interactive with the transcript.
//!
//! The first form runs over a single multilinear polynomial: each round message is the
//! pair of sums over the two halves of the current evaluation vector. The second form
//! runs over a sum of degree-2 products, and each round message is the quadratic through
//! the round's sums at 0, 1 and 2.

use vstd::prelude::*;
use vstd::arithmetic::div_mod::{
    lemma_add_mod_noop, lemma_add_mod_noop_right, lemma_fundamental_div_mod,
    lemma_mod_multiples_vanish, lemma_mod_twice, lemma_mul_mod_noop, lemma_mul_mod_noop_right,
    lemma_small_mod, lemma_sub_mod_noop,
};
use crate::field::{fadd, fmul, fsub, modulus, vals, FieldElement};
use crate::multilinear::{exp2, fold_first, lemma_exp2_monotone, mle_eval, reduced, MultilinearPoly};
use crate::composed::{pair_product, sum_eval, sum_fold, sum_reduce_at, term_eval, term_fold, SumPoly};
use crate::univariate::{poly_eval, UnivariatePoly};
use crate::transcript::{challenge_of, encode_all, fq_vec_to_bytes, keccak256_of, Transcript};

verus! {

/// The sum of the values over the integers.
pub open spec fn sum_z(e: Seq<int>) -> int
    decreases e.len(),
{
    if e.len() == 0 {
        0
    } else {
        sum_z(e.drop_last()) + e.last()
    }
}

/// The sum of the values in the field.
pub open spec fn sum_all(e: Seq<int>) -> int {
    sum_z(e) % modulus()
}

/// The sums over the lower and the upper half: the round message of the first form.
pub open spec fn half_sums(e: Seq<int>) -> Seq<int> {
    seq![sum_all(e.take((e.len() / 2) as int)), sum_all(e.skip((e.len() / 2) as int))]
}

/// The round messages that an honest prover sends for `e` over `rounds` rounds, when the
/// transcript holds `state` before the first.
pub open spec fn honest_rounds(e: Seq<int>, state: Seq<u8>, rounds: nat) -> Seq<Seq<int>>
    decreases rounds,
{
    if rounds == 0 {
        Seq::empty()
    } else {
        let m = half_sums(e);
        let st = state + encode_all(m);
        seq![m] + honest_rounds(fold_first(e, challenge_of(st)), keccak256_of(st), (rounds - 1) as nat)
    }
}

/// The verifier's replay of the round messages from `state` with running claim `claim`:
/// whether every message is a pair summing to the running claim, the final claim, and
/// the challenges.
pub open spec fn replay(msgs: Seq<Seq<int>>, claim: int, state: Seq<u8>) -> (bool, int, Seq<int>)
    decreases msgs.len(),
{
    if msgs.len() == 0 {
        (true, claim, Seq::empty())
    } else {
        let m = msgs[0];
        let ok = m.len() == 2 && fadd(m[0], m[1]) == claim;
        let st = state + encode_all(m);
        let r = challenge_of(st);
        let rest = replay(msgs.drop_first(), fadd(m[0], fmul(r, fsub(m[1], m[0]))), keccak256_of(st));
        (ok && rest.0, rest.1, seq![r] + rest.2)
    }
}

/// The transcript state before the first round: the evaluations, then the claimed sum.
pub open spec fn opening_state(e: Seq<int>, claimed_sum: int) -> Seq<u8> {
    encode_all(e) + encode_all(seq![claimed_sum])
}

/// Whether the verifier accepts `msgs` as a proof that `claimed_sum` is the sum of `e`
/// over `rounds` variables: one pair per variable, each summing to the running claim,
/// and a final claim equal to the polynomial's value at the challenges.
pub open spec fn accepts(e: Seq<int>, rounds: nat, claimed_sum: int, msgs: Seq<Seq<int>>) -> bool {
    let run = replay(msgs, claimed_sum, opening_state(e, claimed_sum));
    &&& msgs.len() == rounds
    &&& run.0
    &&& run.1 == mle_eval(e, run.2)
}

proof fn lemma_sum_z_congruent(a: Seq<int>, b: Seq<int>)
    requires
        a.len() == b.len(),
        forall|j: int| 0 <= j < a.len() ==> #[trigger] a[j] % modulus() == b[j] % modulus(),
    ensures
        sum_z(a) % modulus() == sum_z(b) % modulus(),
    decreases a.len(),
{
    if a.len() > 0 {
        lemma_sum_z_congruent(a.drop_last(), b.drop_last());
        lemma_add_mod_noop(sum_z(a.drop_last()), a.last(), modulus());
        lemma_add_mod_noop(sum_z(b.drop_last()), b.last(), modulus());
    }
}

proof fn lemma_sum_z_append(a: Seq<int>, b: Seq<int>)
    ensures
        sum_z(a + b) == sum_z(a) + sum_z(b),
    decreases b.len(),
{
    if b.len() > 0 {
        assert((a + b).drop_last() =~= a + b.drop_last());
        lemma_sum_z_append(a, b.drop_last());
    }
}

proof fn lemma_sum_z_affine(a: Seq<int>, b: Seq<int>, r: int)
    requires
        a.len() == b.len(),
    ensures
        sum_z(Seq::new(a.len(), |j: int| a[j] + r * (b[j] - a[j]))) == sum_z(a) + r * (sum_z(b)
            - sum_z(a)),
    decreases a.len(),
{
    if a.len() > 0 {
        let f = Seq::new(a.len(), |j: int| a[j] + r * (b[j] - a[j]));
        let (a2, b2) = (a.drop_last(), b.drop_last());
        assert(f.drop_last() =~= Seq::new(a2.len(), |j: int| a2[j] + r * (b2[j] - a2[j])));
        lemma_sum_z_affine(a2, b2, r);
        let (sa, sb) = (sum_z(a2), sum_z(b2));
        assert(f.last() == a.last() + r * (b.last() - a.last()));
        assert(sum_z(f) == sum_z(f.drop_last()) + f.last());
        assert(sum_z(a) == sa + a.last());
        assert(sum_z(b) == sb + b.last());
        assert(sa + r * (sb - sa) + (a.last() + r * (b.last() - a.last())) == (sa + a.last()) + r
            * ((sb + b.last()) - (sa + a.last()))) by (nonlinear_arith);
    } else {
        let f = Seq::new(a.len(), |j: int| a[j] + r * (b[j] - a[j]));
        assert(sum_z(f) == 0);
        assert(sum_z(a) == 0 && sum_z(b) == 0);
        assert(r * (sum_z(b) - sum_z(a)) == 0) by (nonlinear_arith)
            requires
                sum_z(a) == 0 && sum_z(b) == 0,
        ;
    }
}

/// The sums of the two halves add up to the whole sum.
proof fn lemma_half_sums_add_up(e: Seq<int>)
    requires
        e.len() % 2 == 0,
    ensures
        fadd(half_sums(e)[0], half_sums(e)[1]) == sum_all(e),
{
    let h = (e.len() / 2) as int;
    assert(e =~= e.take(h) + e.skip(h));
    lemma_sum_z_append(e.take(h), e.skip(h));
    lemma_add_mod_noop(sum_z(e.take(h)), sum_z(e.skip(h)), modulus());
}

/// Fixing the first variable to `r` turns the sum into the line through the sums of the
/// two halves, taken at `r`.
proof fn lemma_sum_of_fold(e: Seq<int>, r: int)
    requires
        e.len() % 2 == 0,
    ensures
        sum_all(fold_first(e, r)) == fadd(
            half_sums(e)[0],
            fmul(r, fsub(half_sums(e)[1], half_sums(e)[0])),
        ),
{
    let m = modulus();
    let h = (e.len() / 2) as int;
    let (a, b) = (e.take(h), e.skip(h));
    let f = fold_first(e, r);
    let g = Seq::new(a.len(), |j: int| a[j] + r * (b[j] - a[j]));
    assert forall|j: int| 0 <= j < f.len() implies #[trigger] f[j] % m == g[j] % m by {
        assert(a[j] == e[j]);
        assert(b[j] == e[j + h]);
        let x = r * (b[j] - a[j]);
        lemma_mul_mod_noop_right(r, b[j] - a[j], m);
        lemma_add_mod_noop_right(a[j], x, m);
        assert(f[j] == (a[j] + x) % m);
        lemma_mod_twice(a[j] + x, m);
    }
    lemma_sum_z_congruent(f, g);
    lemma_sum_z_affine(a, b, r);
    let (sa, sb) = (sum_z(a), sum_z(b));
    lemma_sub_mod_noop(sb, sa, m);
    lemma_mul_mod_noop_right(r, sb - sa, m);
    lemma_mod_twice(sa, m);
    lemma_add_mod_noop(sa, r * (sb - sa), m);
    lemma_mod_twice(r * (sb - sa), m);
}

proof fn lemma_sum_single(e: Seq<int>)
    requires
        e.len() == 1,
        reduced(e),
    ensures
        sum_all(e) == e[0],
{
    assert(e.drop_last() =~= Seq::<int>::empty());
    assert(sum_z(e.drop_last()) == 0);
    assert(sum_z(e) == e[0]);
    lemma_small_mod(e[0] as nat, modulus() as nat);
}

proof fn lemma_fold_reduced(e: Seq<int>, r: int)
    ensures
        reduced(fold_first(e, r)),
{
}

proof fn lemma_honest_replay(e: Seq<int>, rounds: nat, state: Seq<u8>)
    requires
        e.len() == exp2(rounds),
        reduced(e),
    ensures
        ({
            let run = replay(honest_rounds(e, state, rounds), sum_all(e), state);
            run.0 && run.1 == mle_eval(e, run.2) && run.2.len() == rounds
        }),
    decreases rounds,
{
    let msgs = honest_rounds(e, state, rounds);
    if rounds == 0 {
        lemma_sum_single(e);
    } else {
        let m = half_sums(e);
        let st = state + encode_all(m);
        let r = challenge_of(st);
        let f = fold_first(e, r);
        assert(msgs.drop_first() =~= honest_rounds(f, keccak256_of(st), (rounds - 1) as nat));
        lemma_half_sums_add_up(e);
        lemma_sum_of_fold(e, r);
        lemma_fold_reduced(e, r);
        lemma_honest_replay(f, (rounds - 1) as nat, keccak256_of(st));
        let rest = replay(msgs.drop_first(), sum_all(f), keccak256_of(st));
        assert((seq![r] + rest.2).drop_first() =~= rest.2);
    }
}

/// A sumcheck proof for a multilinear polynomial: the claimed sum and one pair of half
/// sums per round.
#[derive(Clone, Debug)]
pub struct Proof {
    pub claimed_sum: FieldElement,
    pub proof_polynomials: Vec<Vec<FieldElement>>,
}

/// The messages of a proof, as values.
pub open spec fn msgs_of(p: Seq<Vec<FieldElement>>) -> Seq<Seq<int>> {
    p.map_values(|m: Vec<FieldElement>| vals(m@))
}

/// The canonical encodings of `values`, one after the other.
pub fn to_bytes(values: &[FieldElement]) -> (r: Vec<u8>)
    ensures
        r@ == encode_all(vals(values@)),
{
    fq_vec_to_bytes(values)
}

/// The sums of the lower and the upper half of the evaluation vector.
pub fn partial_sum_proof(polynomial: &[FieldElement]) -> (r: Vec<FieldElement>)
    ensures
        vals(r@) == half_sums(vals(polynomial@)),
{
    let ghost e = vals(polynomial@);
    let split = polynomial.len() / 2;
    let mut s_0 = FieldElement::zero();
    let mut i: usize = 0;
    proof {
        assert(e.take(split as int).take(0) =~= Seq::<int>::empty());
        assert(sum_z(e.take(split as int).take(0)) == 0);
    }
    while i < split
        invariant
            i <= split,
            split == e.len() / 2,
            e == vals(polynomial@),
            s_0@ == sum_all(e.take(split as int).take(i as int)),
        decreases split - i,
    {
        proof {
            let t = e.take(split as int);
            assert(t.take(i + 1).drop_last() =~= t.take(i as int));
            lemma_add_mod_noop(sum_z(t.take(i as int)), t[i as int], modulus());
            lemma_mod_twice(t[i as int], modulus());
            lemma_small_mod(t[i as int] as nat, modulus() as nat);
        }
        s_0 = s_0.add(&polynomial[i]);
        i = i + 1;
    }
    let mut s_1 = FieldElement::zero();
    let mut i: usize = split;
    proof {
        assert(e.skip(split as int).take(0) =~= Seq::<int>::empty());
        assert(sum_z(e.skip(split as int).take(0)) == 0);
        assert(e.take(split as int).take(split as int) =~= e.take(split as int));
    }
    while i < polynomial.len()
        invariant
            split <= i <= polynomial@.len(),
            split == e.len() / 2,
            e == vals(polynomial@),
            s_1@ == sum_all(e.skip(split as int).take(i - split)),
        decreases polynomial@.len() - i,
    {
        proof {
            let t = e.skip(split as int);
            assert(t.take(i - split + 1).drop_last() =~= t.take(i - split));
            lemma_add_mod_noop(sum_z(t.take(i - split)), t[i - split], modulus());
            lemma_small_mod(t[i - split] as nat, modulus() as nat);
        }
        s_1 = s_1.add(&polynomial[i]);
        i = i + 1;
    }
    proof {
        assert(e.skip(split as int).take(e.len() - split) =~= e.skip(split as int));
    }
    let mut r: Vec<FieldElement> = Vec::new();
    r.push(s_0);
    r.push(s_1);
    proof {
        assert(vals(r@) =~= half_sums(e));
    }
    r
}

/// The sum of all the values.
fn sum_values(values: &[FieldElement]) -> (r: FieldElement)
    ensures
        r@ == sum_all(vals(values@)),
{
    let ghost e = vals(values@);
    let mut s = FieldElement::zero();
    let mut i: usize = 0;
    proof {
        assert(e.take(0) =~= Seq::<int>::empty());
        assert(sum_z(e.take(0)) == 0);
    }
    while i < values.len()
        invariant
            i <= values@.len(),
            e == vals(values@),
            s@ == sum_all(e.take(i as int)),
        decreases values@.len() - i,
    {
        proof {
            assert(e.take(i + 1).drop_last() =~= e.take(i as int));
            lemma_add_mod_noop(sum_z(e.take(i as int)), e[i as int], modulus());
            lemma_small_mod(e[i as int] as nat, modulus() as nat);
        }
        s = s.add(&values[i]);
        i = i + 1;
    }
    proof {
        assert(e.take(values@.len() as int) =~= e);
    }
    s
}

/// Proves the sum of the polynomial's values over the hypercube.
pub fn prove(polynomial: &MultilinearPoly) -> (r: Proof)
    requires
        polynomial.wf(),
    ensures
        r.claimed_sum@ == sum_all(polynomial@),
        msgs_of(r.proof_polynomials@) == honest_rounds(
            polynomial@,
            opening_state(polynomial@, r.claimed_sum@),
            polynomial.number_of_variables as nat,
        ),
{
    let mut transcript = Transcript::init();
    transcript.absorb(to_bytes(polynomial.evaluation.as_slice()).as_slice());
    let claimed_sum = sum_values(polynomial.evaluation.as_slice());
    let mut claim: Vec<FieldElement> = Vec::new();
    claim.push(claimed_sum);
    transcript.absorb(to_bytes(claim.as_slice()).as_slice());
    proof {
        assert(vals(claim@) =~= seq![claimed_sum@]);
    }
    let num_rounds = polynomial.number_of_variables;
    let mut proof_polynomials: Vec<Vec<FieldElement>> = Vec::new();
    let mut current_poly = MultilinearPoly {
        evaluation: FieldElement::copy_all(polynomial.evaluation.as_slice()),
        number_of_variables: polynomial.number_of_variables,
    };
    let ghost whole = honest_rounds(
        polynomial@,
        opening_state(polynomial@, claimed_sum@),
        num_rounds as nat,
    );
    let mut k: usize = 0;
    while k < num_rounds
        invariant
            k <= num_rounds,
            current_poly.wf(),
            current_poly.number_of_variables == num_rounds - k,
            msgs_of(proof_polynomials@) + honest_rounds(
                current_poly@,
                transcript@,
                (num_rounds - k) as nat,
            ) == whole,
        decreases num_rounds - k,
    {
        let proof_poly = partial_sum_proof(current_poly.evaluation.as_slice());
        transcript.absorb(to_bytes(proof_poly.as_slice()).as_slice());
        let ghost before = proof_polynomials@;
        let ghost st = transcript@;
        proof_polynomials.push(proof_poly);
        let random_challenge = transcript.squeeze();
        current_poly = current_poly.partial_evaluate(0, &random_challenge);
        proof {
            assert(msgs_of(proof_polynomials@) =~= msgs_of(before).push(
                proof_polynomials@.last()@.map_values(|x: FieldElement| x@),
            ));
            let tail = honest_rounds(current_poly@, transcript@, (num_rounds - k - 1) as nat);
            assert(msgs_of(before) + (seq![vals(proof_polynomials@.last()@)] + tail) =~= msgs_of(
                proof_polynomials@,
            ) + tail);
        }
        k = k + 1;
    }
    proof {
        assert(msgs_of(proof_polynomials@) + Seq::<Seq<int>>::empty() =~= msgs_of(
            proof_polynomials@,
        ));
    }
    Proof { claimed_sum, proof_polynomials }
}

/// Checks a sumcheck proof for the polynomial: one pair per variable, each summing to the
/// running claim, and a final claim equal to the polynomial's value at the challenges.
pub fn verify(polynomial: &MultilinearPoly, proof: Proof) -> (r: bool)
    requires
        polynomial.wf(),
    ensures
        r == accepts(
            polynomial@,
            polynomial.number_of_variables as nat,
            proof.claimed_sum@,
            msgs_of(proof.proof_polynomials@),
        ),
{
    let ghost msgs = msgs_of(proof.proof_polynomials@);
    let ghost full = replay(msgs, proof.claimed_sum@, opening_state(polynomial@, proof.claimed_sum@));
    if proof.proof_polynomials.len() != polynomial.number_of_variables {
        return false;
    }
    let mut transcript = Transcript::init();
    transcript.absorb(to_bytes(polynomial.evaluation.as_slice()).as_slice());
    let mut claim: Vec<FieldElement> = Vec::new();
    claim.push(proof.claimed_sum);
    transcript.absorb(to_bytes(claim.as_slice()).as_slice());
    proof {
        assert(vals(claim@) =~= seq![proof.claimed_sum@]);
        assert(msgs.skip(0) =~= msgs);
        assert(vals(Seq::<FieldElement>::empty()) + full.2 =~= full.2);
    }
    let mut random_challenges: Vec<FieldElement> = Vec::new();
    let mut expected_sum = proof.claimed_sum;
    let mut k: usize = 0;
    while k < proof.proof_polynomials.len()
        invariant
            k <= msgs.len(),
            msgs.len() == polynomial.number_of_variables,
            random_challenges@.len() == k,
            msgs == msgs_of(proof.proof_polynomials@),
            full == replay(msgs, proof.claimed_sum@, opening_state(polynomial@, proof.claimed_sum@)),
            ({
                let rest = replay(msgs.skip(k as int), expected_sum@, transcript@);
                full.0 == rest.0 && full.1 == rest.1 && full.2 == vals(random_challenges@) + rest.2
            }),
        decreases msgs.len() - k,
    {
        let poly = &proof.proof_polynomials[k];
        proof {
            assert(msgs.skip(k as int)[0] == vals(poly@));
            assert(msgs.skip(k as int).drop_first() =~= msgs.skip(k + 1));
        }
        if poly.len() != 2 {
            return false;
        }
        proof {
            assert(vals(poly@)[0] == poly@[0]@ && vals(poly@)[1] == poly@[1]@);
        }
        if !poly[0].add(&poly[1]).equals(&expected_sum) {
            return false;
        }
        transcript.absorb(to_bytes(poly.as_slice()).as_slice());
        let random_challenge = transcript.squeeze();
        expected_sum = poly[0].add(&random_challenge.mul(&poly[1].sub(&poly[0])));
        let ghost before = random_challenges@;
        random_challenges.push(random_challenge);
        proof {
            assert(vals(random_challenges@) =~= vals(before).push(random_challenge@));
            let rest = replay(msgs.skip(k + 1), expected_sum@, transcript@);
            assert(vals(before) + (seq![random_challenge@] + rest.2) =~= vals(random_challenges@)
                + rest.2);
        }
        k = k + 1;
    }
    proof {
        assert(msgs.skip(k as int) =~= Seq::<Seq<int>>::empty());
        assert(vals(random_challenges@) + Seq::<int>::empty() =~= vals(random_challenges@));
    }
    match polynomial.full_evaluation(random_challenges) {
        Ok(poly_eval_sum) => expected_sum.equals(&poly_eval_sum),
        Err(_) => false,
    }
}

proof fn lemma_honest_rounds_len(e: Seq<int>, state: Seq<u8>, rounds: nat)
    ensures
        honest_rounds(e, state, rounds).len() == rounds,
    decreases rounds,
{
    if rounds > 0 {
        let m = half_sums(e);
        let st = state + encode_all(m);
        lemma_honest_rounds_len(fold_first(e, challenge_of(st)), keccak256_of(st), (rounds - 1) as nat);
    }
}

/// Completeness: the honest proof of a polynomial's true sum is accepted.
pub proof fn lemma_completeness(p: MultilinearPoly)
    requires
        p.wf(),
    ensures
        accepts(
            p@,
            p.number_of_variables as nat,
            sum_all(p@),
            honest_rounds(
                p@,
                opening_state(p@, sum_all(p@)),
                p.number_of_variables as nat,
            ),
        ),
{
    let n = p.number_of_variables as nat;
    let st = opening_state(p@, sum_all(p@));
    lemma_honest_replay(p@, n, st);
    lemma_honest_rounds_len(p@, st, n);
}

/// A proof is accepted only if its first message sums to the claimed sum: against the
/// honest first message, any claimed sum other than the true one is rejected.
pub proof fn lemma_wrong_claim_rejected(e: Seq<int>, rounds: nat, claimed_sum: int, msgs: Seq<Seq<int>>)
    requires
        e.len() % 2 == 0,
        msgs.len() >= 1,
        msgs[0] == half_sums(e),
        claimed_sum != sum_all(e),
    ensures
        !accepts(e, rounds, claimed_sum, msgs),
{
    lemma_half_sums_add_up(e);
}

proof fn lemma_tampered_replay(e: Seq<int>, rounds: nat, state: Seq<u8>, round: nat, which: int, value: int)
    requires
        e.len() == exp2(rounds),
        reduced(e),
        round < rounds,
        0 <= which < 2,
        0 <= value < modulus(),
        value != honest_rounds(e, state, rounds)[round as int][which],
    ensures
        ({
            let h = honest_rounds(e, state, rounds);
            !replay(h.update(round as int, h[round as int].update(which, value)), sum_all(e), state).0
        }),
    decreases round,
{
    let m = modulus();
    let h = honest_rounds(e, state, rounds);
    let t = h.update(round as int, h[round as int].update(which, value));
    lemma_honest_rounds_len(e, state, rounds);
    lemma_exp2_monotone(0, (rounds - 1) as nat);
    assert(e.len() == 2 * exp2((rounds - 1) as nat));
    let m0 = half_sums(e);
    let st = state + encode_all(m0);
    let r = challenge_of(st);
    let f = fold_first(e, r);
    assert(h[0] == m0);
    assert(h.drop_first() =~= honest_rounds(f, keccak256_of(st), (rounds - 1) as nat));
    lemma_half_sums_add_up(e);
    if round == 0 {
        let (s0, s1) = (m0[0], m0[1]);
        assert(t[0] == m0.update(which, value));
        lemma_small_mod(s0 as nat, m as nat);
        lemma_small_mod(s1 as nat, m as nat);
        lemma_small_mod(value as nat, m as nat);
        if which == 0 {
            if fadd(value, s1) == fadd(s0, s1) {
                crate::field::lemma_add_cancel(value, s0, s1);
            }
        } else {
            if fadd(s0, value) == fadd(s0, s1) {
                crate::field::lemma_add_cancel(value, s1, s0);
            }
        }
    } else {
        assert(t[0] == m0);
        lemma_sum_of_fold(e, r);
        lemma_fold_reduced(e, r);
        let hd = h.drop_first();
        assert(t.drop_first() =~= hd.update(round - 1, hd[round - 1].update(which, value)));
        lemma_tampered_replay(f, (rounds - 1) as nat, keccak256_of(st), (round - 1) as nat, which, value);
    }
}

/// Changing one entry of any round message of an honest proof, with the true sum
/// claimed, makes the verifier reject: the rounds before it still pass and leave the
/// same running claim, to which the changed message no longer sums.
pub proof fn lemma_tampered_round_rejected(p: MultilinearPoly, round: nat, which: int, value: int)
    requires
        p.wf(),
        round < p.number_of_variables,
        0 <= which < 2,
        0 <= value < modulus(),
        ({
            let h = honest_rounds(p@, opening_state(p@, sum_all(p@)), p.number_of_variables as nat);
            value != h[round as int][which]
        }),
    ensures
        ({
            let h = honest_rounds(p@, opening_state(p@, sum_all(p@)), p.number_of_variables as nat);
            !accepts(
                p@,
                p.number_of_variables as nat,
                sum_all(p@),
                h.update(round as int, h[round as int].update(which, value)),
            )
        }),
{
    crate::multilinear::lemma_vals_reduced(p.evaluation@);
    lemma_tampered_replay(
        p@,
        p.number_of_variables as nat,
        opening_state(p@, sum_all(p@)),
        round,
        which,
        value,
    );
}

/// The value of a round polynomial of the second form at `x`: the sum over the rest of
/// the hypercube of the products, with the first variable fixed to `x`.
pub open spec fn round_value(s: Seq<Seq<Seq<int>>>, x: int) -> int {
    total(sum_fold(s, x))
}

/// The sum over the hypercube of a sum of degree-2 products.
pub open spec fn total(s: Seq<Seq<Seq<int>>>) -> int {
    sum_all(Seq::new(s[0][0].len(), |i: int| sum_reduce_at(s, i)))
}

/// Every term has two factors of length `len`, with reduced values.
pub open spec fn shaped2(s: Seq<Seq<Seq<int>>>, len: nat) -> bool {
    &&& s.len() >= 1
    &&& forall|t: int|
        0 <= t < s.len() ==> {
            &&& (#[trigger] s[t]).len() == 2
            &&& s[t][0].len() == len
            &&& s[t][1].len() == len
            &&& reduced(s[t][0])
            &&& reduced(s[t][1])
        }
}

proof fn lemma_fold_shaped(s: Seq<Seq<Seq<int>>>, len: nat, x: int)
    requires
        shaped2(s, len),
    ensures
        shaped2(sum_fold(s, x), len / 2),
{
    assert forall|t: int| 0 <= t < sum_fold(s, x).len() implies {
        let f = #[trigger] sum_fold(s, x)[t];
        &&& f.len() == 2
        &&& f[0].len() == len / 2
        &&& f[1].len() == len / 2
        &&& reduced(f[0])
        &&& reduced(f[1])
    } by {
        assert(s[t].len() == 2);
        lemma_fold_reduced(s[t][0], x);
        lemma_fold_reduced(s[t][1], x);
    }
}

/// Sums of products that agree term by term at two points agree there.
proof fn lemma_reduce_at_agree(a: Seq<Seq<Seq<int>>>, b: Seq<Seq<Seq<int>>>, i: int, j: int)
    requires
        a.len() == b.len(),
        forall|t: int| 0 <= t < a.len() ==> #[trigger] pair_product(a[t], i) == pair_product(b[t], j),
    ensures
        sum_reduce_at(a, i) == sum_reduce_at(b, j),
    decreases a.len(),
{
    if a.len() > 0 {
        lemma_reduce_at_agree(a.drop_last(), b.drop_last(), i, j);
        assert(pair_product(a[a.len() - 1], i) == pair_product(b[b.len() - 1], j));
    }
}

/// The round values at 0 and 1 add up to the sum over the hypercube.
pub proof fn lemma_round_halves(s: Seq<Seq<Seq<int>>>, len: nat)
    requires
        shaped2(s, len),
        len >= 2,
        len % 2 == 0,
    ensures
        fadd(round_value(s, 0), round_value(s, 1)) == total(s),
{
    let h = (len / 2) as int;
    let r = Seq::new(len, |i: int| sum_reduce_at(s, i));
    let (s0, s1) = (sum_fold(s, 0), sum_fold(s, 1));
    lemma_fold_shaped(s, len, 0);
    lemma_fold_shaped(s, len, 1);
    assert forall|t: int| 0 <= t < s.len() implies #[trigger] s0[t] == seq![
        s[t][0].take(h),
        s[t][1].take(h),
    ] by {
        crate::multilinear::lemma_fold_first_boolean(s[t][0]);
        crate::multilinear::lemma_fold_first_boolean(s[t][1]);
        assert(s0[t] =~= seq![s[t][0].take(h), s[t][1].take(h)]);
    }
    assert forall|t: int| 0 <= t < s.len() implies #[trigger] s1[t] == seq![
        s[t][0].skip(h),
        s[t][1].skip(h),
    ] by {
        crate::multilinear::lemma_fold_first_boolean(s[t][0]);
        crate::multilinear::lemma_fold_first_boolean(s[t][1]);
        assert(s1[t] =~= seq![s[t][0].skip(h), s[t][1].skip(h)]);
    }
    let r0 = Seq::new(s0[0][0].len(), |i: int| sum_reduce_at(s0, i));
    let r1 = Seq::new(s1[0][0].len(), |i: int| sum_reduce_at(s1, i));
    assert forall|i: int| 0 <= i < h implies #[trigger] r0[i] == r[i] by {
        assert forall|t: int| 0 <= t < s0.len() implies #[trigger] pair_product(s0[t], i)
            == pair_product(s[t], i) by {
            assert(s0[t] == seq![s[t][0].take(h), s[t][1].take(h)]);
        }
        lemma_reduce_at_agree(s0, s, i, i);
    }
    assert forall|i: int| 0 <= i < h implies #[trigger] r1[i] == r[i + h] by {
        assert forall|t: int| 0 <= t < s1.len() implies #[trigger] pair_product(s1[t], i)
            == pair_product(s[t], i + h) by {
            assert(s1[t] == seq![s[t][0].skip(h), s[t][1].skip(h)]);
        }
        lemma_reduce_at_agree(s1, s, i, i + h);
    }
    assert(r0 =~= r.take(h));
    assert(r1 =~= r.skip(h));
    lemma_half_sums_add_up(r);
}


/// Whether `msgs` are the round polynomials of an honest prover for `s`, from transcript
/// state `state`: each has three coefficients and takes the round's value at 0, 1 and 2.
pub open spec fn honest_quadratics(s: Seq<Seq<Seq<int>>>, msgs: Seq<Seq<int>>, state: Seq<u8>) -> bool
    decreases msgs.len(),
{
    if msgs.len() == 0 {
        true
    } else {
        let m = msgs[0];
        let st = state + encode_all(m);
        &&& m.len() == 3
        &&& forall|x: int| 0 <= x < 3 ==> #[trigger] poly_eval(m, x) == round_value(s, x)
        &&& honest_quadratics(sum_fold(s, challenge_of(st)), msgs.drop_first(), keccak256_of(st))
    }
}

/// The challenges that absorbing `msgs` one after the other from `state` gives.
pub open spec fn challenges_of(msgs: Seq<Seq<int>>, state: Seq<u8>) -> Seq<int>
    decreases msgs.len(),
{
    if msgs.len() == 0 {
        Seq::empty()
    } else {
        let st = state + encode_all(msgs[0]);
        seq![challenge_of(st)] + challenges_of(msgs.drop_first(), keccak256_of(st))
    }
}

pub proof fn lemma_challenges_len(msgs: Seq<Seq<int>>, state: Seq<u8>)
    ensures
        challenges_of(msgs, state).len() == msgs.len(),
    decreases msgs.len(),
{
    if msgs.len() > 0 {
        lemma_challenges_len(msgs.drop_first(), keccak256_of(state + encode_all(msgs[0])));
    }
}

/// The transcript state after absorbing `msgs` and squeezing after each.
pub open spec fn state_after(msgs: Seq<Seq<int>>, state: Seq<u8>) -> Seq<u8>
    decreases msgs.len(),
{
    if msgs.len() == 0 {
        state
    } else {
        state_after(msgs.drop_first(), keccak256_of(state + encode_all(msgs[0])))
    }
}

/// The verifier's replay of round polynomials against a running claim: whether each
/// polynomial has three coefficients and its values at 0 and 1 add up to the running claim, the final claim, the
/// challenges, and the transcript state. At the first failure it stops, with claim zero
/// and the single challenge zero.
pub open spec fn replay_quadratics(msgs: Seq<Seq<int>>, claim: int, state: Seq<u8>) -> (
    bool,
    int,
    Seq<int>,
    Seq<u8>,
)
    decreases msgs.len(),
{
    if msgs.len() == 0 {
        (true, claim, Seq::empty(), state)
    } else {
        let m = msgs[0];
        if m.len() != 3 || fadd(poly_eval(m, 0), poly_eval(m, 1)) != claim {
            (false, 0, seq![0], state)
        } else {
            let st = state + encode_all(m);
            let r = challenge_of(st);
            let rest = replay_quadratics(msgs.drop_first(), poly_eval(m, r), keccak256_of(st));
            (
                rest.0,
                rest.1,
                if rest.0 {
                    seq![r] + rest.2
                } else {
                    rest.2
                },
                rest.3,
            )
        }
    }
}

/// The round polynomial of the current sum: the quadratic through its values at 0, 1, 2.
fn get_round_partial_polynomial_proof_gkr(composed_poly: &SumPoly) -> (r: UnivariatePoly)
    requires
        composed_poly.wf(),
        composed_poly.degree() == 2,
        composed_poly.num_vars() >= 1,
    ensures
        r@.len() == 3,
        forall|x: int| 0 <= x < 3 ==> #[trigger] poly_eval(r@, x) == round_value(composed_poly@, x),
{
    let degree = composed_poly.get_degree();
    let mut xs: Vec<FieldElement> = Vec::new();
    let mut ys: Vec<FieldElement> = Vec::new();
    let mut i: usize = 0;
    while i <= degree
        invariant
            degree == 2,
            i <= degree + 1,
            composed_poly.wf(),
            composed_poly.degree() == 2,
            composed_poly.num_vars() >= 1,
            xs@.len() == i,
            ys@.len() == i,
            forall|k: int| 0 <= k < i ==> (#[trigger] xs@[k])@ == k,
            forall|k: int| 0 <= k < i ==> (#[trigger] ys@[k])@ == round_value(composed_poly@, k),
        decreases degree + 1 - i,
    {
        let value = FieldElement::from_u64(i as u64);
        let partial_poly = composed_poly.partial_evaluate(&value);
        let eval = sum_values(partial_poly.reduce().as_slice());
        proof {
            assert(partial_poly@[0][0].len() == partial_poly@[0][0].len());
        }
        xs.push(value);
        ys.push(eval);
        i = i + 1;
    }
    let ghost (gx, gy) = (xs@, ys@);
    proof {
        assert(vals(gx) =~= seq![0int, 1, 2]);
        assert(crate::univariate::distinct(vals(gx)));
    }
    match UnivariatePoly::interpolate(xs, ys) {
        Ok(p) => {
            proof {
                assert forall|x: int| 0 <= x < 3 implies #[trigger] poly_eval(p@, x) == round_value(
                    composed_poly@,
                    x,
                ) by {
                    assert(gx[x]@ == x);
                    assert(poly_eval(p@, gx[x]@) == gy[x]@);
                }
            }
            p
        },
        Err(_) => {
            proof {
                assert(false);
            }
            UnivariatePoly::new(Vec::new())
        },
    }
}

/// The round polynomials and challenges of a sumcheck over a sum of products.
pub struct GkrProof {
    pub proof_polynomials: Vec<Vec<FieldElement>>,
    pub claimed_sum: FieldElement,
    pub random_challenges: Vec<FieldElement>,
}

/// The verifier's result: whether every round passed, the final claim, the challenges.
pub struct GkrVerify {
    pub verified: bool,
    pub final_claimed_sum: FieldElement,
    pub random_challenges: Vec<FieldElement>,
}

/// Runs the prover over a sum of degree-2 products, one round per variable, absorbing
/// each round polynomial and squeezing the challenge that fixes the next variable.
pub fn generate_sumcheck_proof(
    claimed_sum: FieldElement,
    composed_polynomial: &SumPoly,
    transcript: &mut Transcript,
) -> (r: GkrProof)
    requires
        composed_polynomial.wf(),
        composed_polynomial.degree() == 2,
    ensures
        r.claimed_sum == claimed_sum,
        r.proof_polynomials@.len() == composed_polynomial.num_vars(),
        honest_quadratics(composed_polynomial@, msgs_of(r.proof_polynomials@), old(transcript)@),
        vals(r.random_challenges@) == challenges_of(msgs_of(r.proof_polynomials@), old(transcript)@),
        final(transcript)@ == state_after(msgs_of(r.proof_polynomials@), old(transcript)@),
{
    let num_rounds = composed_polynomial.polys[0].evaluation[0].number_of_variables;
    let ghost start = transcript@;
    let mut proof_polynomials: Vec<Vec<FieldElement>> = Vec::new();
    let mut current_poly = composed_polynomial.duplicate();
    let mut random_challenges: Vec<FieldElement> = Vec::new();
    let mut k: usize = 0;
    proof {
        assert(msgs_of(proof_polynomials@) =~= Seq::<Seq<int>>::empty());
    }
    while k < num_rounds
        invariant
            k <= num_rounds,
            num_rounds == composed_polynomial.num_vars(),
            current_poly.wf(),
            current_poly.degree() == 2,
            current_poly.num_vars() == num_rounds - k,
            proof_polynomials@.len() == k,
            ({
                let done = msgs_of(proof_polynomials@);
                &&& forall|future: Seq<Seq<int>>|
                    honest_quadratics(current_poly@, future, transcript@) ==> #[trigger]
                    honest_quadratics(composed_polynomial@, done + future, start)
                &&& forall|future: Seq<Seq<int>>|
                    #[trigger] challenges_of(done + future, start) == vals(random_challenges@)
                        + challenges_of(future, transcript@)
                &&& forall|future: Seq<Seq<int>>|
                    #[trigger] state_after(done + future, start) == state_after(future, transcript@)
            }),
        decreases num_rounds - k,
    {
        let proof_poly = get_round_partial_polynomial_proof_gkr(&current_poly);
        let ghost st0 = transcript@;
        let ghost before = proof_polynomials@;
        let ghost chal_before = random_challenges@;
        let ghost before_poly = current_poly@;
        transcript.absorb(fq_vec_to_bytes(proof_poly.coefficient.as_slice()).as_slice());
        proof_polynomials.push(proof_poly.coefficient);
        let random_challenge = transcript.squeeze();
        random_challenges.push(random_challenge);
        current_poly = current_poly.partial_evaluate(&random_challenge);
        proof {
            let m = vals(proof_polynomials@.last()@);
            assert(msgs_of(proof_polynomials@) =~= msgs_of(before).push(m));
            assert(vals(random_challenges@) =~= vals(chal_before).push(random_challenge@));
            assert forall|future: Seq<Seq<int>>|
                honest_quadratics(current_poly@, future, transcript@) implies #[trigger]
                honest_quadratics(composed_polynomial@, msgs_of(proof_polynomials@) + future, start) by {
                assert((seq![m] + future).drop_first() =~= future);
                assert(msgs_of(before) + (seq![m] + future) =~= msgs_of(proof_polynomials@) + future);
                assert(honest_quadratics(before_poly, seq![m] + future, st0));
            }
            assert forall|future: Seq<Seq<int>>|
                #[trigger] challenges_of(msgs_of(proof_polynomials@) + future, start) == vals(
                    random_challenges@,
                ) + challenges_of(future, transcript@) by {
                assert((seq![m] + future).drop_first() =~= future);
                assert(msgs_of(before) + (seq![m] + future) =~= msgs_of(proof_polynomials@) + future);
                assert(challenges_of(msgs_of(before) + (seq![m] + future), start) == vals(chal_before)
                    + challenges_of(seq![m] + future, st0));
                assert(vals(chal_before) + (seq![random_challenge@] + challenges_of(future, transcript@))
                    =~= vals(random_challenges@) + challenges_of(future, transcript@));
            }
            assert forall|future: Seq<Seq<int>>|
                #[trigger] state_after(msgs_of(proof_polynomials@) + future, start) == state_after(
                    future,
                    transcript@,
                ) by {
                assert((seq![m] + future).drop_first() =~= future);
                assert(msgs_of(before) + (seq![m] + future) =~= msgs_of(proof_polynomials@) + future);
                assert(state_after(msgs_of(before) + (seq![m] + future), start) == state_after(
                    seq![m] + future,
                    st0,
                ));
            }
        }
        k = k + 1;
    }
    proof {
        let done = msgs_of(proof_polynomials@);
        assert(done + Seq::<Seq<int>>::empty() =~= done);
        assert(honest_quadratics(current_poly@, Seq::<Seq<int>>::empty(), transcript@));
        assert(honest_quadratics(composed_polynomial@, done + Seq::<Seq<int>>::empty(), start));
        assert(challenges_of(done + Seq::<Seq<int>>::empty(), start) == vals(random_challenges@)
            + challenges_of(Seq::<Seq<int>>::empty(), transcript@));
        assert(vals(random_challenges@) + Seq::<int>::empty() =~= vals(random_challenges@));
        assert(state_after(done + Seq::<Seq<int>>::empty(), start) == state_after(
            Seq::<Seq<int>>::empty(),
            transcript@,
        ));
    }
    GkrProof { proof_polynomials, random_challenges, claimed_sum }
}

/// A replay that passes yields one challenge per round polynomial.
pub proof fn lemma_replay_challenges_len(msgs: Seq<Seq<int>>, claim: int, state: Seq<u8>)
    requires
        replay_quadratics(msgs, claim, state).0,
    ensures
        replay_quadratics(msgs, claim, state).2.len() == msgs.len(),
    decreases msgs.len(),
{
    if msgs.len() > 0 {
        let m = msgs[0];
        let st = state + encode_all(m);
        lemma_replay_challenges_len(msgs.drop_first(), poly_eval(m, challenge_of(st)), keccak256_of(st));
    }
}

/// The coefficient sequences of univariate polynomials.
pub open spec fn polys_of(p: Seq<UnivariatePoly>) -> Seq<Seq<int>> {
    p.map_values(|u: UnivariatePoly| u@)
}

/// Checks round polynomials against a running claim, replaying the prover's transcript
/// operations, and returns the final claim and the challenges for the caller's final
/// check.
pub fn verify_sumcheck_proof(
    round_polys: Vec<UnivariatePoly>,
    claimed_sum: FieldElement,
    transcript: &mut Transcript,
) -> (r: GkrVerify)
    ensures
        ({
            let res = replay_quadratics(polys_of(round_polys@), claimed_sum@, old(transcript)@);
            &&& r.verified == res.0
            &&& r.final_claimed_sum@ == res.1
            &&& vals(r.random_challenges@) == res.2
            &&& final(transcript)@ == res.3
        }),
{
    let ghost msgs = polys_of(round_polys@);
    let ghost full = replay_quadratics(msgs, claimed_sum@, transcript@);
    let mut claim = claimed_sum;
    let mut random_challenges: Vec<FieldElement> = Vec::new();
    proof {
        assert(msgs.skip(0) =~= msgs);
        assert(vals(random_challenges@) + full.2 =~= full.2);
    }
    let mut k: usize = 0;
    while k < round_polys.len()
        invariant
            k <= msgs.len(),
            msgs == polys_of(round_polys@),
            full == replay_quadratics(msgs, claimed_sum@, old(transcript)@),
            ({
                let rest = replay_quadratics(msgs.skip(k as int), claim@, transcript@);
                &&& full.0 == rest.0
                &&& full.1 == rest.1
                &&& full.3 == rest.3
                &&& full.2 == if rest.0 {
                    vals(random_challenges@) + rest.2
                } else {
                    rest.2
                }
            }),
        decreases msgs.len() - k,
    {
        let round_poly = &round_polys[k];
        proof {
            assert(msgs.skip(k as int)[0] == round_poly@);
            assert(msgs.skip(k as int).drop_first() =~= msgs.skip(k + 1));
        }
        let f_b_0 = round_poly.evaluate(FieldElement::zero());
        let f_b_1 = round_poly.evaluate(FieldElement::one());
        if round_poly.coefficient.len() != 3 || !f_b_0.add(&f_b_1).equals(&claim) {
            let mut zero: Vec<FieldElement> = Vec::new();
            zero.push(FieldElement::zero());
            proof {
                assert(vals(zero@) =~= seq![0int]);
                let rest = replay_quadratics(msgs.skip(k as int), claim@, transcript@);
                assert(round_poly@.len() != 3 || fadd(poly_eval(round_poly@, 0), poly_eval(round_poly@, 1))
                    != claim@);
                assert(rest.0 == false);
                assert(rest.2 == seq![0int]);
                assert(rest.3 == transcript@);
            }
            return GkrVerify { verified: false, final_claimed_sum: FieldElement::zero(), random_challenges: zero };
        }
        transcript.absorb(fq_vec_to_bytes(round_poly.coefficient.as_slice()).as_slice());
        let r_c = transcript.squeeze();
        let ghost before = random_challenges@;
        random_challenges.push(r_c);
        claim = round_poly.evaluate(r_c);
        proof {
            assert(vals(random_challenges@) =~= vals(before).push(r_c@));
            let rest = replay_quadratics(msgs.skip(k + 1), claim@, transcript@);
            assert(vals(before) + (seq![r_c@] + rest.2) =~= vals(random_challenges@) + rest.2);
        }
        k = k + 1;
    }
    proof {
        assert(msgs.skip(k as int) =~= Seq::<Seq<int>>::empty());
        assert(vals(random_challenges@) + Seq::<int>::empty() =~= vals(random_challenges@));
    }
    GkrVerify { verified: true, final_claimed_sum: claim, random_challenges }
}

/// `k.0 + k.1·x + k.2·x²` over the integers.
pub open spec fn quad(k: (int, int, int), x: int) -> int {
    k.0 + k.1 * x + k.2 * (x * x)
}

pub open spec fn add3(p: (int, int, int), q: (int, int, int)) -> (int, int, int) {
    (p.0 + q.0, p.1 + q.1, p.2 + q.2)
}

/// The coefficients, in the first variable, of the product of a term's two factors at
/// point `i` of the remaining variables.
pub open spec fn term_coefs(t: Seq<Seq<int>>, i: int, h: int) -> (int, int, int) {
    let (a, b, c, d) = (t[0][i], t[0][i + h], t[1][i], t[1][i + h]);
    (a * c, a * (d - c) + c * (b - a), (b - a) * (d - c))
}

pub open spec fn point_coefs(s: Seq<Seq<Seq<int>>>, i: int, h: int) -> (int, int, int)
    decreases s.len(),
{
    if s.len() == 0 {
        (0, 0, 0)
    } else {
        add3(point_coefs(s.drop_last(), i, h), term_coefs(s.last(), i, h))
    }
}

pub open spec fn total_coefs(s: Seq<Seq<Seq<int>>>, h: int, n: nat) -> (int, int, int)
    decreases n,
{
    if n == 0 {
        (0, 0, 0)
    } else {
        add3(total_coefs(s, h, (n - 1) as nat), point_coefs(s, n - 1, h))
    }
}

proof fn lemma_quad_add(p: (int, int, int), q: (int, int, int), x: int)
    ensures
        quad(add3(p, q), x) == quad(p, x) + quad(q, x),
{
    assert((p.1 + q.1) * x == p.1 * x + q.1 * x) by (nonlinear_arith);
    assert((p.2 + q.2) * (x * x) == p.2 * (x * x) + q.2 * (x * x)) by (nonlinear_arith);
}

proof fn lemma_line_product(a: int, u: int, c: int, v: int, x: int)
    ensures
        (a + x * u) * (c + x * v) == a * c + (a * v + c * u) * x + u * v * (x * x),
{
    assert((a + x * u) * (c + x * v) == a * c + a * (x * v) + (x * u) * c + (x * u) * (x * v))
        by (nonlinear_arith);
    assert(a * (x * v) + (x * u) * c == (a * v + c * u) * x) by (nonlinear_arith);
    assert((x * u) * (x * v) == u * v * (x * x)) by (nonlinear_arith);
}

/// A folded value is the line through the two paired values, taken at `x`.
proof fn lemma_fold_value(e: Seq<int>, x: int, i: int)
    requires
        e.len() % 2 == 0,
        0 <= i < e.len() / 2,
    ensures
        fold_first(e, x)[i] == (e[i] + x * (e[i + e.len() / 2] - e[i])) % modulus(),
{
    let m = modulus();
    let (a, b) = (e[i], e[i + e.len() / 2]);
    lemma_mod_twice(b - a, m);
    lemma_mul_mod_noop_right(x, b - a, m);
    lemma_add_mod_noop_right(a, x * (b - a), m);
}

proof fn lemma_point_quadratic(s: Seq<Seq<Seq<int>>>, len: nat, x: int, i: int)
    requires
        shaped2(s, len) || s.len() == 0,
        len % 2 == 0,
        0 <= i < len / 2,
        forall|t: int|
            0 <= t < s.len() ==> (#[trigger] s[t]).len() == 2 && s[t][0].len() == len && s[t][1].len()
                == len,
    ensures
        sum_reduce_at(sum_fold(s, x), i) == quad(point_coefs(s, i, (len / 2) as int), x) % modulus(),
    decreases s.len(),
{
    let m = modulus();
    let h = (len / 2) as int;
    if s.len() == 0 {
        lemma_small_mod(0, m as nat);
        assert(quad((0, 0, 0), x) == 0) by (nonlinear_arith);
    } else {
        let f = sum_fold(s, x);
        assert(f.drop_last() =~= sum_fold(s.drop_last(), x));
        lemma_point_quadratic(s.drop_last(), len, x, i);
        let t = s.last();
        assert(t == s[s.len() - 1]);
        let (a, b, c, d) = (t[0][i], t[0][i + h], t[1][i], t[1][i + h]);
        lemma_fold_value(t[0], x, i);
        lemma_fold_value(t[1], x, i);
        let big_a = a + x * (b - a);
        let big_c = c + x * (d - c);
        assert(f.last() == term_fold(t, x));
        assert(pair_product(f.last(), i) == fmul(big_a % m, big_c % m));
        lemma_mul_mod_noop(big_a, big_c, m);
        lemma_line_product(a, b - a, c, d - c, x);
        assert(quad(term_coefs(t, i, h), x) == a * c + (a * (d - c) + c * (b - a)) * x + (b - a) * (d
            - c) * (x * x));
        let q1 = quad(point_coefs(s.drop_last(), i, h), x);
        let q2 = quad(term_coefs(t, i, h), x);
        lemma_add_mod_noop(q1, q2, m);
        lemma_quad_add(point_coefs(s.drop_last(), i, h), term_coefs(t, i, h), x);
    }
}

proof fn lemma_total_quadratic(s: Seq<Seq<Seq<int>>>, len: nat, x: int, n: nat)
    requires
        shaped2(s, len),
        len % 2 == 0,
        n <= len / 2,
    ensures
        sum_z(Seq::new(n, |i: int| sum_reduce_at(sum_fold(s, x), i))) % modulus() == quad(
            total_coefs(s, (len / 2) as int, n),
            x,
        ) % modulus(),
    decreases n,
{
    let m = modulus();
    let h = (len / 2) as int;
    let r = Seq::new(n, |i: int| sum_reduce_at(sum_fold(s, x), i));
    if n == 0 {
        assert(sum_z(r) == 0);
        lemma_small_mod(0, m as nat);
        assert(quad((0, 0, 0), x) == 0) by (nonlinear_arith);
    } else {
        assert(r.drop_last() =~= Seq::new((n - 1) as nat, |i: int| sum_reduce_at(sum_fold(s, x), i)));
        lemma_total_quadratic(s, len, x, (n - 1) as nat);
        lemma_point_quadratic(s, len, x, n - 1);
        let q1 = quad(total_coefs(s, h, (n - 1) as nat), x);
        let q2 = quad(point_coefs(s, n - 1, h), x);
        lemma_add_mod_noop(sum_z(r.drop_last()), r.last(), m);
        lemma_mod_twice(q2, m);
        lemma_add_mod_noop(q1, q2, m);
        lemma_quad_add(total_coefs(s, h, (n - 1) as nat), point_coefs(s, n - 1, h), x);
    }
}

/// Each round value is a quadratic in the fixed variable.
proof fn lemma_round_quadratic(s: Seq<Seq<Seq<int>>>, len: nat, x: int)
    requires
        shaped2(s, len),
        len >= 2,
        len % 2 == 0,
    ensures
        round_value(s, x) == quad(total_coefs(s, (len / 2) as int, len / 2), x) % modulus(),
{
    lemma_fold_shaped(s, len, x);
    lemma_total_quadratic(s, len, x, len / 2);
    let f = sum_fold(s, x);
    assert(f[0][0].len() == len / 2);
}

/// Three coefficients give a quadratic.
proof fn lemma_eval_three(c: Seq<int>, x: int)
    requires
        c.len() == 3,
    ensures
        poly_eval(c, x) == quad((c[0], c[1], c[2]), x) % modulus(),
{
    let t1 = c.drop_first();
    let t2 = t1.drop_first();
    let t3 = t2.drop_first();
    assert(t3.len() == 0);
    assert(crate::univariate::eval_z(t3, x) == 0);
    assert(crate::univariate::eval_z(t2, x) == c[2]);
    assert(crate::univariate::eval_z(t1, x) == c[1] + x * c[2]);
    assert(c[0] + x * (c[1] + x * c[2]) == quad((c[0], c[1], c[2]), x)) by (nonlinear_arith);
}

proof fn lemma_multiple(v: int)
    requires
        v % modulus() == 0,
    ensures
        v == modulus() * (v / modulus()),
{
    lemma_fundamental_div_mod(v, modulus());
}

/// Two quadratics that agree at 0, 1 and 2 agree everywhere in the field: the order is
/// odd, so two is invertible.
proof fn lemma_quadratics_agree(k: (int, int, int), q: (int, int, int), x: int)
    requires
        quad(k, 0) % modulus() == quad(q, 0) % modulus(),
        quad(k, 1) % modulus() == quad(q, 1) % modulus(),
        quad(k, 2) % modulus() == quad(q, 2) % modulus(),
    ensures
        quad(k, x) % modulus() == quad(q, x) % modulus(),
{
    let m = modulus();
    assert(m % 2 == 1);
    let (d0, d1, d2) = (q.0 - k.0, q.1 - k.1, q.2 - k.2);
    assert(quad(q, 0) - quad(k, 0) == d0) by (nonlinear_arith)
        requires
            d0 == q.0 - k.0,
    ;
    assert(quad(q, 1) - quad(k, 1) == d0 + d1 + d2) by (nonlinear_arith)
        requires
            d0 == q.0 - k.0,
            d1 == q.1 - k.1,
            d2 == q.2 - k.2,
    ;
    assert(quad(q, 2) - quad(k, 2) == d0 + 2 * d1 + 4 * d2) by (nonlinear_arith)
        requires
            d0 == q.0 - k.0,
            d1 == q.1 - k.1,
            d2 == q.2 - k.2,
    ;
    lemma_sub_mod_noop(quad(q, 0), quad(k, 0), m);
    lemma_sub_mod_noop(quad(q, 1), quad(k, 1), m);
    lemma_sub_mod_noop(quad(q, 2), quad(k, 2), m);
    lemma_small_mod(0, m as nat);
    lemma_multiple(d0);
    lemma_multiple(d0 + d1 + d2);
    lemma_multiple(d0 + 2 * d1 + 4 * d2);
    let (k0, k1, k2) = (d0 / m, (d0 + d1 + d2) / m, (d0 + 2 * d1 + 4 * d2) / m);
    // 2·d2 = m·(k2 − 2·k1 + k0), and m is odd, so the multiplier is even.
    let j = k2 - 2 * k1 + k0;
    assert(2 * d2 == m * j) by (nonlinear_arith)
        requires
            j == k2 - 2 * k1 + k0,
            d0 == m * k0,
            d0 + d1 + d2 == m * k1,
            d0 + 2 * d1 + 4 * d2 == m * k2,
    ;
    let half = m / 2;
    assert(m == 2 * half + 1);
    let jh = j / 2;
    assert(j == 2 * jh + j % 2);
    if j % 2 != 0 {
        assert(j % 2 == 1);
        assert(m * j == 2 * (m * jh + half) + 1) by (nonlinear_arith)
            requires
                m == 2 * half + 1,
                j == 2 * jh + 1,
        ;
    }
    assert(d2 == m * jh) by (nonlinear_arith)
        requires
            2 * d2 == m * j,
            j == 2 * jh,
    ;
    let jd1 = k1 - k0 - jh;
    assert(d1 == m * jd1) by (nonlinear_arith)
        requires
            d0 == m * k0,
            d0 + d1 + d2 == m * k1,
            d2 == m * jh,
            jd1 == k1 - k0 - jh,
    ;
    let w = k0 + jd1 * x + jh * (x * x);
    assert(quad(q, x) == quad(k, x) + m * w) by (nonlinear_arith)
        requires
            d0 == m * k0,
            d1 == m * jd1,
            d2 == m * jh,
            d0 == q.0 - k.0,
            d1 == q.1 - k.1,
            d2 == q.2 - k.2,
            w == k0 + jd1 * x + jh * (x * x),
    ;
    lemma_mod_multiples_vanish(w, quad(k, x), m);
}

/// Fixes the leading variables to `ch`, first to last.
pub open spec fn fold_chain(s: Seq<Seq<Seq<int>>>, ch: Seq<int>) -> Seq<Seq<Seq<int>>>
    decreases ch.len(),
{
    if ch.len() == 0 {
        s
    } else {
        fold_chain(sum_fold(s, ch[0]), ch.drop_first())
    }
}

proof fn lemma_honest_pass(s: Seq<Seq<Seq<int>>>, n: nat, msgs: Seq<Seq<int>>, state: Seq<u8>)
    requires
        shaped2(s, exp2(n)),
        honest_quadratics(s, msgs, state),
        msgs.len() == n,
    ensures
        ({
            let run = replay_quadratics(msgs, total(s), state);
            &&& run.0
            &&& run.1 == total(fold_chain(s, run.2))
            &&& run.2 == challenges_of(msgs, state)
            &&& run.3 == state_after(msgs, state)
        }),
    decreases n,
{
    if n > 0 {
        let m = msgs[0];
        let st = state + encode_all(m);
        let r = challenge_of(st);
        lemma_first_round(s, n, msgs, state);
        let next = sum_fold(s, r);
        lemma_honest_pass(next, (n - 1) as nat, msgs.drop_first(), keccak256_of(st));
        let rest = replay_quadratics(msgs.drop_first(), poly_eval(m, r), keccak256_of(st));
        assert((seq![r] + rest.2).drop_first() =~= rest.2);
        assert(fold_chain(s, seq![r] + rest.2) == fold_chain(next, rest.2));
    }
}

proof fn lemma_sum_poly_shaped(sp: SumPoly)
    requires
        sp.wf(),
        sp.degree() == 2,
    ensures
        shaped2(sp@, exp2(sp.num_vars())),
{
    assert forall|t: int| 0 <= t < sp@.len() implies {
        let term = #[trigger] sp@[t];
        &&& term.len() == 2
        &&& term[0].len() == exp2(sp.num_vars())
        &&& term[1].len() == exp2(sp.num_vars())
        &&& reduced(term[0])
        &&& reduced(term[1])
    } by {
        let p = sp.polys@[t];
        assert(sp@[t] == p@);
        assert(p.wf());
        assert(p.evaluation@[0].wf() && p.evaluation@[1].wf());
        assert(p@[0] == p.evaluation@[0]@);
        assert(p@[1] == p.evaluation@[1]@);
        crate::multilinear::lemma_vals_reduced(p.evaluation@[0].evaluation@);
        crate::multilinear::lemma_vals_reduced(p.evaluation@[1].evaluation@);
    }
}

/// Fixing one variable, then the rest, is fixing them all: for the sum of products.
proof fn lemma_sum_eval_fold(s: Seq<Seq<Seq<int>>>, c: int, rest: Seq<int>)
    ensures
        sum_eval(s, seq![c] + rest) == sum_eval(sum_fold(s, c), rest),
    decreases s.len(),
{
    let pt = seq![c] + rest;
    assert(pt.drop_first() =~= rest);
    if s.len() > 0 {
        assert(sum_fold(s, c).drop_last() =~= sum_fold(s.drop_last(), c));
        lemma_sum_eval_fold(s.drop_last(), c, rest);
        lemma_term_eval_fold(s.last(), c, rest);
    }
}

proof fn lemma_term_eval_fold(t: Seq<Seq<int>>, c: int, rest: Seq<int>)
    ensures
        term_eval(t, seq![c] + rest) == term_eval(term_fold(t, c), rest),
    decreases t.len(),
{
    let pt = seq![c] + rest;
    assert(pt.drop_first() =~= rest);
    if t.len() > 0 {
        assert(term_fold(t, c).drop_last() =~= term_fold(t.drop_last(), c));
        lemma_term_eval_fold(t.drop_last(), c, rest);
        assert(pt[0] == c);
        assert(mle_eval(t.last(), pt) == mle_eval(fold_first(t.last(), c), rest));
    }
}

/// With every variable fixed, the sum over the single point is the sum of products.
proof fn lemma_point_total(s: Seq<Seq<Seq<int>>>)
    requires
        shaped2(s, 1) || s.len() == 0,
        forall|t: int|
            0 <= t < s.len() ==> (#[trigger] s[t]).len() == 2 && s[t][0].len() == 1 && s[t][1].len() == 1
                && reduced(s[t][0]) && reduced(s[t][1]),
    ensures
        sum_reduce_at(s, 0) == sum_eval(s, Seq::empty()),
    decreases s.len(),
{
    if s.len() > 0 {
        lemma_point_total(s.drop_last());
        let t = s.last();
        assert(t == s[s.len() - 1]);
        let e: Seq<int> = Seq::empty();
        assert(t.drop_last().drop_last() =~= Seq::<Seq<int>>::empty());
        assert(t.drop_last().last() == t[0]);
        assert(mle_eval(t[0], e) == t[0][0]);
        assert(mle_eval(t[1], e) == t[1][0]);
        lemma_small_mod(t[0][0] as nat, modulus() as nat);
        assert(term_eval(t.drop_last().drop_last(), e) == 1);
        assert(term_eval(t.drop_last(), e) == fmul(1, t[0][0]));
        assert(term_eval(t, e) == pair_product(t, 0));
    }
}

/// With the challenges fixing every variable, the folded sum of products is the sum of
/// products evaluated at the challenges.
proof fn lemma_folded_total(s: Seq<Seq<Seq<int>>>, n: nat, ch: Seq<int>)
    requires
        shaped2(s, exp2(n)),
        ch.len() == n,
    ensures
        total(fold_chain(s, ch)) == sum_eval(s, ch),
    decreases n,
{
    if n == 0 {
        assert(exp2(0) == 1);
        lemma_point_total(s);
        assert(ch =~= Seq::<int>::empty());
        assert(0 <= sum_reduce_at(s, 0) < modulus());
        lemma_small_mod(sum_reduce_at(s, 0) as nat, modulus() as nat);
        assert(s[0].len() == 2 && s[0][0].len() == 1);
        let r = Seq::new(s[0][0].len(), |i: int| sum_reduce_at(s, i));
        assert(r.len() == 1);
        assert(r.drop_last() =~= Seq::<int>::empty());
        assert(sum_z(r.drop_last()) == 0);
        assert(r.last() == sum_reduce_at(s, 0));
        assert(sum_z(r) == sum_reduce_at(s, 0));
    } else {
        let c = ch[0];
        let rest = ch.drop_first();
        assert(ch =~= seq![c] + rest);
        lemma_exp2_monotone(0, (n - 1) as nat);
        assert(exp2(n) == 2 * exp2((n - 1) as nat));
        lemma_fold_shaped(s, exp2(n), c);
        lemma_folded_total(sum_fold(s, c), (n - 1) as nat, rest);
        lemma_sum_eval_fold(s, c, rest);
    }
}

/// Completeness of the sumcheck over a sum of degree-2 products: from any transcript
/// state, the honest prover's round polynomials for the polynomial's true sum over the
/// hypercube pass every round of the verifier, and the verifier's final claim is the
/// polynomial with every variable fixed to the challenges.
pub proof fn lemma_composed_completeness(sp: SumPoly, msgs: Seq<Seq<int>>, state: Seq<u8>)
    requires
        sp.wf(),
        sp.degree() == 2,
        honest_quadratics(sp@, msgs, state),
        msgs.len() == sp.num_vars(),
    ensures
        ({
            let run = replay_quadratics(msgs, total(sp@), state);
            &&& run.0
            &&& run.1 == sum_eval(sp@, run.2)
            &&& run.2 == challenges_of(msgs, state)
            &&& run.3 == state_after(msgs, state)
        }),
{
    lemma_sum_poly_shaped(sp);
    lemma_honest_pass(sp@, sp.num_vars(), msgs, state);
    let run = replay_quadratics(msgs, total(sp@), state);
    lemma_replay_challenges_len(msgs, total(sp@), state);
    lemma_folded_total(sp@, sp.num_vars(), run.2);
}

/// Against an honest first round polynomial, the verifier rejects any claimed sum other
/// than the true sum over the hypercube.
pub proof fn lemma_composed_wrong_claim_rejected(
    sp: SumPoly,
    msgs: Seq<Seq<int>>,
    state: Seq<u8>,
    claimed_sum: int,
)
    requires
        sp.wf(),
        sp.degree() == 2,
        sp.num_vars() >= 1,
        honest_quadratics(sp@, msgs, state),
        msgs.len() >= 1,
        claimed_sum != total(sp@),
    ensures
        !replay_quadratics(msgs, claimed_sum, state).0,
{
    let n = sp.num_vars();
    lemma_sum_poly_shaped(sp);
    lemma_exp2_monotone(0, (n - 1) as nat);
    assert(exp2(n) == 2 * exp2((n - 1) as nat));
    lemma_round_halves(sp@, exp2(n));
    assert(poly_eval(msgs[0], 0) == round_value(sp@, 0));
    assert(poly_eval(msgs[0], 1) == round_value(sp@, 1));
}

proof fn lemma_first_round(s: Seq<Seq<Seq<int>>>, n: nat, msgs: Seq<Seq<int>>, state: Seq<u8>)
    requires
        shaped2(s, exp2(n)),
        honest_quadratics(s, msgs, state),
        msgs.len() == n,
        n >= 1,
    ensures
        ({
            let m = msgs[0];
            let st = state + encode_all(m);
            let r = challenge_of(st);
            &&& m.len() == 3
            &&& fadd(poly_eval(m, 0), poly_eval(m, 1)) == total(s)
            &&& poly_eval(m, r) == total(sum_fold(s, r))
            &&& shaped2(sum_fold(s, r), exp2((n - 1) as nat))
            &&& honest_quadratics(sum_fold(s, r), msgs.drop_first(), keccak256_of(st))
        }),
{
    let m = msgs[0];
    let st = state + encode_all(m);
    let r = challenge_of(st);
    let len = exp2(n);
    lemma_exp2_monotone(0, (n - 1) as nat);
    assert(len == 2 * exp2((n - 1) as nat));
    let h = (len / 2) as int;
    lemma_round_halves(s, len);
    assert(poly_eval(m, 0) == round_value(s, 0));
    assert(poly_eval(m, 1) == round_value(s, 1));
    assert(poly_eval(m, 2) == round_value(s, 2));
    let k = total_coefs(s, h, len / 2);
    let q = (m[0], m[1], m[2]);
    lemma_round_quadratic(s, len, 0);
    lemma_round_quadratic(s, len, 1);
    lemma_round_quadratic(s, len, 2);
    lemma_round_quadratic(s, len, r);
    lemma_eval_three(m, 0);
    lemma_eval_three(m, 1);
    lemma_eval_three(m, 2);
    lemma_eval_three(m, r);
    lemma_quadratics_agree(k, q, r);
    lemma_fold_shaped(s, len, r);
}

/// A changed coefficient of the first round polynomial makes its values at 0 and 1 miss
/// the true sum.
proof fn lemma_tampered_first_quadratic(
    s: Seq<Seq<Seq<int>>>,
    n: nat,
    msgs: Seq<Seq<int>>,
    state: Seq<u8>,
    which: int,
    value: int,
)
    requires
        shaped2(s, exp2(n)),
        n >= 1,
        honest_quadratics(s, msgs, state),
        msgs.len() == n,
        0 <= which < 3,
        0 <= value < modulus(),
        0 <= msgs[0][which] < modulus(),
        value != msgs[0][which],
    ensures
        !replay_quadratics(msgs.update(0, msgs[0].update(which, value)), total(s), state).0,
{
    let m = modulus();
    let c = msgs[0];
    let t = c.update(which, value);
    lemma_first_round(s, n, msgs, state);
    lemma_eval_three(c, 0);
    lemma_eval_three(c, 1);
    lemma_eval_three(t, 0);
    lemma_eval_three(t, 1);
    let (k, q) = ((c[0], c[1], c[2]), (t[0], t[1], t[2]));
    let d = value - c[which];
    // The sum of the values at 0 and 1 moves by twice the change of the constant
    // coefficient, or by the change of another.
    let moved = if which == 0 { 2 * d } else { d };
    assert(quad(q, 0) + quad(q, 1) == quad(k, 0) + quad(k, 1) + moved) by (nonlinear_arith)
        requires
            which == 0 ==> q == (k.0 + d, k.1, k.2),
            which == 1 ==> q == (k.0, k.1 + d, k.2),
            which == 2 ==> q == (k.0, k.1, k.2 + d),
            0 <= which < 3,
            moved == if which == 0 { 2 * d } else { d },
    ;
    let msgs2 = msgs.update(0, t);
    assert(msgs2[0] == t);
    if fadd(poly_eval(t, 0), poly_eval(t, 1)) == total(s) {
        lemma_add_mod_noop(quad(q, 0), quad(q, 1), m);
        lemma_add_mod_noop(quad(k, 0), quad(k, 1), m);
        lemma_mod_twice(quad(q, 0), m);
        lemma_mod_twice(quad(q, 1), m);
        lemma_mod_twice(quad(k, 0), m);
        lemma_mod_twice(quad(k, 1), m);
        let base = quad(k, 0) + quad(k, 1);
        assert(poly_eval(t, 0) == quad(q, 0) % m);
        assert(poly_eval(c, 0) == quad(k, 0) % m);
        assert(fadd(poly_eval(c, 0), poly_eval(c, 1)) == total(s));
        assert((quad(q, 0) + quad(q, 1)) % m == (quad(k, 0) + quad(k, 1)) % m);
        assert((base + moved) % m == base % m);
        lemma_sub_mod_noop(base + moved, base, m);
        lemma_small_mod(0, m as nat);
        assert(moved % m == 0);
        lemma_multiple(moved);
        let j = moved / m;
        assert(-m < d < m);
        if which == 0 {
            let half = m / 2;
            assert(m == 2 * half + 1);
            assert(j % 2 == 0) by {
                if j % 2 != 0 {
                    let jh = j / 2;
                    assert(j == 2 * jh + 1);
                    assert(m * j == 2 * (m * jh + half) + 1) by (nonlinear_arith)
                        requires
                            m == 2 * half + 1,
                            j == 2 * jh + 1,
                    ;
                }
            }
            let jh = j / 2;
            assert(d == m * jh) by (nonlinear_arith)
                requires
                    2 * d == m * j,
                    j == 2 * jh,
            ;
            assert(jh == 0) by (nonlinear_arith)
                requires
                    d == m * jh,
                    -m < d < m,
                    m > 0,
            ;
            assert(d == 0) by (nonlinear_arith)
                requires
                    d == m * jh,
                    jh == 0,
            ;
        } else {
            assert(j == 0) by (nonlinear_arith)
                requires
                    d == m * j,
                    -m < d < m,
                    m > 0,
            ;
            assert(d == 0) by (nonlinear_arith)
                requires
                    d == m * j,
                    j == 0,
            ;
        }
        assert(d == 0);
        assert(false);
    } else {
        assert(!replay_quadratics(msgs2, total(s), state).0);
    }
}

proof fn lemma_tampered_quadratic(
    s: Seq<Seq<Seq<int>>>,
    n: nat,
    msgs: Seq<Seq<int>>,
    state: Seq<u8>,
    round: nat,
    which: int,
    value: int,
)
    requires
        shaped2(s, exp2(n)),
        honest_quadratics(s, msgs, state),
        msgs.len() == n,
        round < n,
        0 <= which < 3,
        0 <= value < modulus(),
        0 <= msgs[round as int][which] < modulus(),
        value != msgs[round as int][which],
    ensures
        !replay_quadratics(
            msgs.update(round as int, msgs[round as int].update(which, value)),
            total(s),
            state,
        ).0,
    decreases round,
{
    if round == 0 {
        lemma_tampered_first_quadratic(s, n, msgs, state, which, value);
    } else {
        let m = msgs[0];
        let st = state + encode_all(m);
        let r = challenge_of(st);
        let t = msgs.update(round as int, msgs[round as int].update(which, value));
        lemma_first_round(s, n, msgs, state);
        assert(t[0] == m);
        let rest = msgs.drop_first();
        assert(t.drop_first() =~= rest.update(round - 1, rest[round - 1].update(which, value)));
        lemma_tampered_quadratic(sum_fold(s, r), (n - 1) as nat, rest, keccak256_of(st), (round - 1) as nat, which, value);
    }
}

/// Changing any one coefficient of any round polynomial of an honest proof, with the
/// true sum claimed, makes the verifier reject: the rounds before it still pass and leave
/// the same running claim, which the changed polynomial's values at 0 and 1 no longer
/// add up to.
pub proof fn lemma_composed_tampered_round_rejected(
    sp: SumPoly,
    msgs: Seq<Seq<int>>,
    state: Seq<u8>,
    round: nat,
    which: int,
    value: int,
)
    requires
        sp.wf(),
        sp.degree() == 2,
        honest_quadratics(sp@, msgs, state),
        msgs.len() == sp.num_vars(),
        round < msgs.len(),
        0 <= which < 3,
        0 <= value < modulus(),
        0 <= msgs[round as int][which] < modulus(),
        value != msgs[round as int][which],
    ensures
        !replay_quadratics(
            msgs.update(round as int, msgs[round as int].update(which, value)),
            total(sp@),
            state,
        ).0,
{
    lemma_sum_poly_shaped(sp);
    lemma_tampered_quadratic(sp@, sp.num_vars(), msgs, state, round, which, value);
}

} // verus!
