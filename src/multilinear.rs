//! Multilinear polynomials in evaluation form over the boolean hypercube.
//!
//! Entry `i` of the evaluation vector is the value at the point whose coordinates are
//! the bits of `i`, most significant bit first: variable 0 selects the upper half.

use vstd::prelude::*;
use vstd::arithmetic::div_mod::{
    lemma_add_mod_noop_right, lemma_basic_div, lemma_fundamental_div_mod,
    lemma_fundamental_div_mod_converse, lemma_mod_twice, lemma_small_mod,
};
use crate::error::PolyError;
use crate::field::{fadd, fmul, fsub, modulus, vals, FieldElement};

verus! {

pub open spec fn exp2(n: nat) -> nat
    decreases n,
{
    if n == 0 {
        1
    } else {
        2 * exp2((n - 1) as nat)
    }
}

pub open spec fn is_power_of_two(len: nat) -> bool {
    exists|k: nat| exp2(k) == len
}

pub proof fn lemma_exp2_monotone(a: nat, b: nat)
    requires
        a <= b,
    ensures
        1 <= exp2(a) <= exp2(b),
    decreases b,
{
    if b > 0 {
        if a < b {
            lemma_exp2_monotone(a, (b - 1) as nat);
        } else {
            lemma_exp2_monotone((a - 1) as nat, (b - 1) as nat);
        }
    }
}

proof fn lemma_exp2_is_pow2(n: nat)
    ensures
        exp2(n) == vstd::arithmetic::power2::pow2(n),
    decreases n,
{
    if n == 0 {
        vstd::arithmetic::power2::lemma2_to64();
    } else {
        lemma_exp2_is_pow2((n - 1) as nat);
        vstd::arithmetic::power2::lemma_pow2_unfold(n);
    }
}

/// The powers of two that bound machine words.
pub proof fn lemma_exp2_values()
    ensures
        exp2(1) == 2,
        exp2(2) == 4,
        exp2(3) == 8,
        exp2(31) == 0x8000_0000,
        exp2(63) == 0x8000_0000_0000_0000,
        exp2(64) == 0x1_0000_0000_0000_0000,
{
    lemma_exp2_is_pow2(1);
    lemma_exp2_is_pow2(2);
    lemma_exp2_is_pow2(3);
    lemma_exp2_is_pow2(31);
    lemma_exp2_is_pow2(63);
    lemma_exp2_is_pow2(64);
    vstd::arithmetic::power2::lemma2_to64();
    vstd::arithmetic::power2::lemma2_to64_rest();
}

pub proof fn lemma_exp2_injective(a: nat, b: nat)
    requires
        exp2(a) == exp2(b),
    ensures
        a == b,
{
    if a < b {
        lemma_exp2_monotone(a, a);
        lemma_exp2_monotone(a + 1, b);
    } else if b < a {
        lemma_exp2_monotone(b, b);
        lemma_exp2_monotone(b + 1, a);
    }
}

pub proof fn lemma_exp2_adds(a: nat, b: nat)
    ensures
        exp2(a + b) == exp2(a) * exp2(b),
    decreases a,
{
    if a > 0 {
        lemma_exp2_adds((a - 1) as nat, b);
        assert((a + b - 1) as nat == (a - 1) as nat + b);
        assert(exp2(a + b) == 2 * exp2((a + b - 1) as nat));
        assert(exp2(a) == 2 * exp2((a - 1) as nat));
        let x = exp2((a - 1) as nat) as int;
        let y = exp2(b) as int;
        assert(exp2((a - 1) as nat + b) == x * y);
        assert(2 * (x * y) == (2 * x) * y) by (nonlinear_arith);
        assert(exp2(a + b) == 2 * (x * y));
        assert(exp2(a) == 2 * x);
    } else {
        assert(exp2(0) == 1);
        assert(a + b == b);
    }
}

/// A length strictly between two consecutive powers of two is none.
proof fn lemma_not_power_of_two(len: nat, n: nat)
    requires
        exp2(n) < len < 2 * exp2(n),
    ensures
        !is_power_of_two(len),
{
    if is_power_of_two(len) {
        let k = choose|k: nat| exp2(k) == len;
        if k <= n {
            lemma_exp2_monotone(k, n);
        } else {
            lemma_exp2_monotone(n + 1, k);
        }
    }
}

/// The lower index of pair `j` when the paired indices differ by `stride`.
pub open spec fn pair_index(j: int, stride: int) -> int {
    (j / stride) * (2 * stride) + j % stride
}

/// Fixes one variable to `v`: each pair of entries whose indices differ only in the bit
/// of weight `stride` becomes `y0 + v·(y1 − y0)`.
pub open spec fn fold_at(e: Seq<int>, stride: nat, v: int) -> Seq<int> {
    Seq::new(
        (e.len() / 2) as nat,
        |j: int|
            {
                let i0 = pair_index(j, stride as int);
                fadd(e[i0], fmul(v, fsub(e[i0 + stride], e[i0])))
            },
    )
}

/// Fixes the first variable to `v`: the lower half of the entries is paired with the upper.
pub open spec fn fold_first(e: Seq<int>, v: int) -> Seq<int> {
    Seq::new(
        (e.len() / 2) as nat,
        |j: int| fadd(e[j], fmul(v, fsub(e[j + e.len() / 2], e[j]))),
    )
}

/// Fixes the leading variables to the coordinates of `pt`, first to last.
pub open spec fn multi_fold(e: Seq<int>, pt: Seq<int>) -> Seq<int>
    decreases pt.len(),
{
    if pt.len() == 0 {
        e
    } else {
        multi_fold(fold_first(e, pt[0]), pt.drop_first())
    }
}

/// The value of the multilinear extension of `e` at `pt`.
pub open spec fn mle_eval(e: Seq<int>, pt: Seq<int>) -> int {
    multi_fold(e, pt)[0]
}

/// The `n` bits of `i`, most significant first.
pub open spec fn bits_of(i: nat, n: nat) -> Seq<int>
    decreases n,
{
    if n == 0 {
        Seq::empty()
    } else {
        seq![(i / exp2((n - 1) as nat)) as int] + bits_of(i % exp2((n - 1) as nat), (n - 1) as nat)
    }
}

pub open spec fn reduced(e: Seq<int>) -> bool {
    forall|k: int| 0 <= k < e.len() ==> 0 <= #[trigger] e[k] < modulus()
}

pub proof fn lemma_vals_reduced(s: Seq<FieldElement>)
    ensures
        reduced(vals(s)),
{
}

/// A polynomial in `number_of_variables` variables, given by its values on `{0,1}^n`.
#[derive(Clone, Debug)]
pub struct MultilinearPoly {
    pub evaluation: Vec<FieldElement>,
    pub number_of_variables: usize,
}

impl View for MultilinearPoly {
    type V = Seq<int>;

    open spec fn view(&self) -> Seq<int> {
        vals(self.evaluation@)
    }
}

/// `2^k`, computed.
pub(crate) fn exp2_exec(k: usize) -> (r: usize)
    requires
        exp2(k as nat) <= usize::MAX,
    ensures
        r == exp2(k as nat),
{
    let mut r: usize = 1;
    let mut i: usize = 0;
    while i < k
        invariant
            i <= k,
            r == exp2(i as nat),
            exp2(k as nat) <= usize::MAX,
        decreases k - i,
    {
        proof {
            lemma_exp2_monotone((i + 1) as nat, k as nat);
        }
        r = r * 2;
        i = i + 1;
    }
    r
}

proof fn lemma_pair_bound(j: int, stride: int, blocks: int)
    requires
        0 <= j < stride * blocks,
        stride > 0,
    ensures
        0 <= (j / stride) * (2 * stride),
        0 <= pair_index(j, stride),
        pair_index(j, stride) + stride < 2 * (stride * blocks),
{
    lemma_fundamental_div_mod(j, stride);
    let q = j / stride;
    let r = j % stride;
    assert(0 <= r < stride);
    assert(q >= 0) by (nonlinear_arith)
        requires
            j == stride * q + r,
            0 <= j,
            r < stride,
            stride > 0,
    ;
    assert(q < blocks) by (nonlinear_arith)
        requires
            j == stride * q + r,
            j < stride * blocks,
            r >= 0,
            stride > 0,
    ;
    assert(q * (2 * stride) + r + stride < 2 * (stride * blocks)) by (nonlinear_arith)
        requires
            0 <= q < blocks,
            0 <= r < stride,
    ;
    assert(q * (2 * stride) >= 0) by (nonlinear_arith)
        requires
            q >= 0,
            stride > 0,
    ;
}

/// `value` with a zero bit inserted at position `bit`: the bits below stay, the bits
/// from `bit` on move up by one.
pub fn insert_bit(value: usize, bit: usize) -> (r: usize)
    requires
        exp2(bit as nat + 1) <= usize::MAX,
        value <= usize::MAX / 2,
    ensures
        r == pair_index(value as int, exp2(bit as nat) as int),
        r == (value as int / exp2(bit as nat) as int) * exp2(bit as nat + 1) as int + value as int
            % exp2(bit as nat) as int,
{
    proof {
        lemma_exp2_monotone(bit as nat, bit as nat + 1);
        assert(exp2(bit as nat + 1) == 2 * exp2(bit as nat));
    }
    let stride = exp2_exec(bit);
    proof {
        lemma_fundamental_div_mod(value as int, stride as int);
        let q = value as int / stride as int;
        let m = value as int % stride as int;
        assert(q * (2 * stride) + m <= 2 * value) by (nonlinear_arith)
            requires
                value == stride * q + m,
                0 <= m < stride,
                q >= 0,
        ;
        assert(q >= 0) by (nonlinear_arith)
            requires
                value == stride * q + m,
                0 <= m < stride,
                value >= 0,
                stride > 0,
        ;
        assert(q * (2 * stride) >= 0) by (nonlinear_arith)
            requires
                q >= 0,
                stride > 0,
        ;
    }
    (value / stride) * (2 * stride) + value % stride
}

/// Pair `j` holds the two indices that differ by `stride`, both below `len`.
spec fn pair_ok(p: (usize, usize), j: int, stride: int, len: int) -> bool {
    &&& p.0 == pair_index(j, stride)
    &&& p.1 == pair_index(j, stride) + stride
    &&& 0 <= pair_index(j, stride)
    &&& pair_index(j, stride) + stride < len
}

impl MultilinearPoly {
    pub open spec fn wf(&self) -> bool {
        self.evaluation@.len() == exp2(self.number_of_variables as nat)
    }

    /// Wraps an evaluation vector; its length must be a nonzero power of two.
    pub fn new(new_evaluations: Vec<FieldElement>) -> (r: Result<Self, PolyError>)
        ensures
            r is Ok <==> is_power_of_two(new_evaluations@.len()),
            r is Ok ==> r->Ok_0.wf() && r->Ok_0.evaluation@ == new_evaluations@,
            r is Err ==> r->Err_0 == PolyError::InvalidLength,
    {
        let len = new_evaluations.len();
        let mut n: usize = 0;
        let mut size: usize = 1;
        while size < len
            invariant
                size == exp2(n as nat),
                size >= 1,
                n < size,
                n > 0 ==> exp2((n - 1) as nat) < len,
                len == new_evaluations@.len(),
            decreases usize::MAX - size,
        {
            if size > usize::MAX / 2 {
                proof {
                    lemma_not_power_of_two(len as nat, n as nat);
                }
                return Err(PolyError::InvalidLength);
            }
            size = size * 2;
            n = n + 1;
        }
        if size != len {
            proof {
                if n == 0 {
                    if is_power_of_two(len as nat) {
                        let k = choose|k: nat| exp2(k) == len;
                        lemma_exp2_monotone(0, k);
                    }
                } else {
                    lemma_not_power_of_two(len as nat, (n - 1) as nat);
                }
            }
            return Err(PolyError::InvalidLength);
        }
        Ok(MultilinearPoly { evaluation: new_evaluations, number_of_variables: n })
    }

    /// The index pairs that differ only in variable `bit`, in the order of the
    /// remaining variables.
    fn pair_points(bit: usize, number_of_variables: usize) -> (r: Vec<(usize, usize)>)
        requires
            bit < number_of_variables,
            exp2(number_of_variables as nat) <= usize::MAX,
        ensures
            r@.len() == exp2((number_of_variables - 1) as nat),
            forall|j: int|
                0 <= j < r@.len() ==> pair_ok(
                    #[trigger] r@[j],
                    j,
                    exp2((number_of_variables - 1 - bit) as nat) as int,
                    exp2(number_of_variables as nat) as int,
                ),
    {
        let ghost n = number_of_variables as nat;
        proof {
            lemma_exp2_monotone((n - 1) as nat, n);
            lemma_exp2_monotone((n - 1 - bit) as nat, n);
            lemma_exp2_adds((n - 1 - bit) as nat, bit as nat);
            lemma_exp2_monotone(0, bit as nat);
            lemma_exp2_monotone((n - bit) as nat, n);
            assert(exp2((n - bit) as nat) == 2 * exp2((n - 1 - bit) as nat));
        }
        let half = exp2_exec(number_of_variables - 1);
        let stride = exp2_exec(number_of_variables - 1 - bit);
        let mut result: Vec<(usize, usize)> = Vec::new();
        let mut j: usize = 0;
        while j < half
            invariant
                j <= half,
                half == exp2((n - 1) as nat),
                n == number_of_variables,
                bit < number_of_variables,
                stride == exp2((n - 1 - bit) as nat),
                half == stride * exp2(bit as nat),
                2 * half == exp2(n),
                stride > 0,
                2 * stride <= exp2(n),
                exp2(n) <= usize::MAX,
                result@.len() == j,
                forall|k: int|
                    0 <= k < j ==> pair_ok(#[trigger] result@[k], k, stride as int, exp2(n) as int),
            decreases half - j,
        {
            proof {
                lemma_pair_bound(j as int, stride as int, exp2(bit as nat) as int);
            }
            proof {
                lemma_exp2_monotone((n - bit) as nat, n);
                assert((n - 1 - bit) as nat + 1 == (n - bit) as nat);
            }
            let i0 = insert_bit(j, number_of_variables - 1 - bit);
            result.push((i0, i0 + stride));
            j = j + 1;
        }
        result
    }

    /// Fixes variable `bit` to `value`, leaving a polynomial in one variable fewer.
    pub fn partial_evaluate(&self, bit: usize, value: &FieldElement) -> (r: Self)
        requires
            self.wf(),
            bit < self.number_of_variables,
        ensures
            r.wf(),
            r.number_of_variables == self.number_of_variables - 1,
            r@ == fold_at(
                self@,
                exp2((self.number_of_variables - 1 - bit) as nat),
                value@,
            ),
            bit == 0 ==> r@ == fold_first(self@, value@),
    {
        let ghost n = self.number_of_variables as nat;
        let ghost stride = exp2((n - 1 - bit) as nat);
        let len = self.evaluation.len();
        proof {
            lemma_exp2_monotone((n - 1) as nat, n);
        }
        let pairs = Self::pair_points(bit, self.number_of_variables);
        let mut result: Vec<FieldElement> = Vec::new();
        let mut j: usize = 0;
        while j < pairs.len()
            invariant
                j <= pairs@.len(),
                pairs@.len() == exp2((n - 1) as nat),
                self.wf(),
                n == self.number_of_variables,
                2 * pairs@.len() == self@.len(),
                stride == exp2((n - 1 - bit) as nat),
                forall|k: int|
                    0 <= k < pairs@.len() ==> pair_ok(#[trigger] pairs@[k], k, stride as int, exp2(n) as int),
                vals(result@) =~= fold_at(self@, stride, value@).subrange(0, j as int),
            decreases pairs@.len() - j,
        {
            let (a, b) = pairs[j];
            let y_0 = self.evaluation[a];
            let y_1 = self.evaluation[b];
            let v = y_0.add(&value.mul(&y_1.sub(&y_0)));
            let ghost old_result = result@;
            result.push(v);
            proof {
                assert(vals(result@) =~= vals(old_result).push(v@));
                assert(fold_at(self@, stride, value@)[j as int] == v@);
            }
            j = j + 1;
        }
        let r = MultilinearPoly { evaluation: result, number_of_variables: self.number_of_variables - 1 };
        proof {
            assert(r@ =~= fold_at(self@, stride, value@));
            if bit == 0 {
                assert(exp2(n) == 2 * exp2((n - 1) as nat));
                assert forall|k: int| 0 <= k < r@.len() implies r@[k] == fold_first(
                    self@,
                    value@,
                )[k] by {
                    lemma_basic_div(k, stride as int);
                    lemma_small_mod(k as nat, stride);
                    assert(pair_index(k, stride as int) == k);
                    assert(self@.len() / 2 == stride);
                }
                assert(r@ =~= fold_first(self@, value@));
            }
        }
        r
    }

    /// A copy of the polynomial.
    pub fn duplicate(&self) -> (r: Self)
        ensures
            r.evaluation@ == self.evaluation@,
            r.number_of_variables == self.number_of_variables,
    {
        MultilinearPoly {
            evaluation: FieldElement::copy_all(self.evaluation.as_slice()),
            number_of_variables: self.number_of_variables,
        }
    }

    /// Fixes the leading variables to `values`, first to last.
    pub fn multi_partial_evaluate(&self, values: &[FieldElement]) -> (r: Self)
        requires
            self.wf(),
            values@.len() <= self.number_of_variables,
        ensures
            r.wf(),
            r.number_of_variables == self.number_of_variables - values@.len(),
            r@ == multi_fold(self@, vals(values@)),
    {
        let mut poly = MultilinearPoly {
            evaluation: FieldElement::copy_all(self.evaluation.as_slice()),
            number_of_variables: self.number_of_variables,
        };
        let ghost pt = vals(values@);
        proof {
            assert(pt.skip(0) =~= pt);
            assert(poly@ =~= self@);
        }
        let mut k: usize = 0;
        while k < values.len()
            invariant
                k <= values@.len(),
                values@.len() <= self.number_of_variables,
                poly.wf(),
                poly.number_of_variables == self.number_of_variables - k,
                pt == vals(values@),
                multi_fold(self@, pt) == multi_fold(poly@, pt.skip(k as int)),
            decreases values@.len() - k,
        {
            let ghost before = poly@;
            poly = poly.partial_evaluate(0, &values[k]);
            proof {
                assert(pt.skip(k as int).drop_first() =~= pt.skip(k + 1));
                assert(pt.skip(k as int)[0] == values@[k as int]@);
            }
            k = k + 1;
        }
        proof {
            assert(pt.skip(values@.len() as int) =~= Seq::<int>::empty());
        }
        poly
    }

    /// The value at `values`, which must give every variable.
    pub fn full_evaluation(&self, values: Vec<FieldElement>) -> (r: Result<FieldElement, PolyError>)
        requires
            self.wf(),
        ensures
            r is Ok <==> values@.len() == self.number_of_variables,
            r is Ok ==> r->Ok_0@ == mle_eval(self@, vals(values@)),
            r is Err ==> r->Err_0 == PolyError::ArityMismatch,
    {
        if values.len() != self.number_of_variables {
            return Err(PolyError::ArityMismatch);
        }
        let result = self.multi_partial_evaluate(values.as_slice());
        proof {
            assert(exp2(0) == 1);
        }
        Ok(result.evaluation[0])
    }

    /// Every value multiplied by `value`.
    pub fn scale(&self, value: FieldElement) -> (r: Self)
        requires
            self.wf(),
        ensures
            r.wf(),
            r.number_of_variables == self.number_of_variables,
            r@ == Seq::new(self@.len(), |i: int| fmul(self@[i], value@)),
    {
        let mut result: Vec<FieldElement> = Vec::new();
        let mut i: usize = 0;
        while i < self.evaluation.len()
            invariant
                i <= self@.len(),
                vals(result@) =~= Seq::new(self@.len(), |i: int| fmul(self@[i], value@)).subrange(
                    0,
                    i as int,
                ),
            decreases self@.len() - i,
        {
            let ghost before = result@;
            result.push(self.evaluation[i].mul(&value));
            proof {
                assert(vals(result@) =~= vals(before).push(result@[i as int]@));
            }
            i = i + 1;
        }
        MultilinearPoly { evaluation: result, number_of_variables: self.number_of_variables }
    }

    /// The pointwise sum of two polynomials in the same variables.
    pub fn add(&self, other: &Self) -> (r: Self)
        requires
            self.wf(),
            other.wf(),
            self.number_of_variables == other.number_of_variables,
        ensures
            r.wf(),
            r.number_of_variables == self.number_of_variables,
            r@ == Seq::new(self@.len(), |i: int| fadd(self@[i], other@[i])),
    {
        let mut result: Vec<FieldElement> = Vec::new();
        let mut i: usize = 0;
        while i < self.evaluation.len()
            invariant
                i <= self@.len(),
                self@.len() == other@.len(),
                vals(result@) =~= Seq::new(self@.len(), |i: int| fadd(self@[i], other@[i])).subrange(
                    0,
                    i as int,
                ),
            decreases self@.len() - i,
        {
            let ghost before = result@;
            result.push(self.evaluation[i].add(&other.evaluation[i]));
            proof {
                assert(vals(result@) =~= vals(before).push(result@[i as int]@));
            }
            i = i + 1;
        }
        MultilinearPoly { evaluation: result, number_of_variables: self.number_of_variables }
    }

    /// The pointwise product of two polynomials in the same variables: the values at
    /// each point of the hypercube are multiplied.
    pub fn multiply(&self, other: &Self) -> (r: Self)
        requires
            self.wf(),
            other.wf(),
            self.number_of_variables == other.number_of_variables,
        ensures
            r.wf(),
            r.number_of_variables == self.number_of_variables,
            r@ == Seq::new(self@.len(), |i: int| fmul(self@[i], other@[i])),
    {
        let mut result: Vec<FieldElement> = Vec::new();
        let mut i: usize = 0;
        while i < self.evaluation.len()
            invariant
                i <= self@.len(),
                self@.len() == other@.len(),
                vals(result@) =~= Seq::new(self@.len(), |i: int| fmul(self@[i], other@[i])).subrange(
                    0,
                    i as int,
                ),
            decreases self@.len() - i,
        {
            let ghost before = result@;
            result.push(self.evaluation[i].mul(&other.evaluation[i]));
            proof {
                assert(vals(result@) =~= vals(before).push(result@[i as int]@));
            }
            i = i + 1;
        }
        MultilinearPoly { evaluation: result, number_of_variables: self.number_of_variables }
    }
}

/// Fixing the first variable to 0 keeps the lower half of the values, and fixing it to 1
/// keeps the upper half.
pub proof fn lemma_fold_first_boolean(e: Seq<int>)
    requires
        reduced(e),
        e.len() % 2 == 0,
    ensures
        fold_first(e, 0) == e.subrange(0, (e.len() / 2) as int),
        fold_first(e, 1) == e.subrange((e.len() / 2) as int, e.len() as int),
{
    let h = e.len() / 2;
    let m = modulus();
    assert forall|j: int| 0 <= j < h implies fold_first(e, 0)[j] == e[j] by {
        let x = fsub(e[j + h], e[j]);
        assert(0 * x == 0);
        lemma_small_mod(0, m as nat);
        assert(fmul(0, x) == 0);
        lemma_small_mod(e[j] as nat, m as nat);
        assert(fadd(e[j], 0) == e[j]);
    }
    assert forall|j: int| 0 <= j < h implies fold_first(e, 1)[j] == e[j + h] by {
        lemma_mod_twice(e[j + h] - e[j], m);
        lemma_add_mod_noop_right(e[j], e[j + h] - e[j], m);
        lemma_small_mod(e[j + h] as nat, m as nat);
    }
    assert(fold_first(e, 0) =~= e.subrange(0, h as int));
    assert(fold_first(e, 1) =~= e.subrange(h as int, e.len() as int));
}

proof fn lemma_mle_at_bits(e: Seq<int>, n: nat, i: nat)
    requires
        reduced(e),
        e.len() == exp2(n),
        i < exp2(n),
    ensures
        mle_eval(e, bits_of(i, n)) == e[i as int],
    decreases n,
{
    if n == 0 {
        assert(bits_of(i, 0) =~= Seq::<int>::empty());
    } else {
        let h = exp2((n - 1) as nat);
        let pt = bits_of(i, n);
        let i2 = i % h;
        assert(pt.drop_first() =~= bits_of(i2, (n - 1) as nat));
        lemma_fold_first_boolean(e);
        lemma_exp2_monotone(0, (n - 1) as nat);
        if i < h {
            lemma_basic_div(i as int, h as int);
            lemma_small_mod(i, h);
        } else {
            lemma_fundamental_div_mod_converse(i as int, h as int, 1, i - h);
        }
        let f = fold_first(e, pt[0]);
        lemma_mle_at_bits(f, (n - 1) as nat, i2);
    }
}

/// Evaluating at a point of the hypercube, given by the bits of an index, gives back the
/// value stored at that index.
pub proof fn lemma_full_evaluation_at_hypercube_point(p: MultilinearPoly, i: nat)
    requires
        p.wf(),
        i < p@.len(),
    ensures
        mle_eval(p@, bits_of(i, p.number_of_variables as nat)) == p@[i as int],
{
    lemma_mle_at_bits(p@, p.number_of_variables as nat, i);
}

} // verus!
