//! Univariate polynomials in dense coefficient form: coefficient `i` multiplies `x^i`.

use vstd::prelude::*;
use vstd::arithmetic::div_mod::{
    lemma_add_mod_noop, lemma_mod_twice, lemma_small_mod, lemma_mul_mod_noop, lemma_mul_mod_noop_left,
    lemma_mul_mod_noop_right,
    lemma_sub_mod_noop_right, lemma_fundamental_div_mod_converse,
};
use crate::error::PolyError;
use crate::field::{fadd, fmul, fsub, modulus, vals, FieldElement};

verus! {

/// Coefficient `k`, zero past either end.
pub open spec fn coef(c: Seq<int>, k: int) -> int {
    if 0 <= k < c.len() {
        c[k]
    } else {
        0
    }
}

/// All coefficients but the constant one.
pub open spec fn tail(c: Seq<int>) -> Seq<int> {
    if c.len() == 0 {
        c
    } else {
        c.drop_first()
    }
}

/// The value at `x` over the integers, by Horner's rule.
pub open spec fn eval_z(c: Seq<int>, x: int) -> int
    decreases c.len(),
{
    if c.len() == 0 {
        0
    } else {
        c[0] + x * eval_z(c.drop_first(), x)
    }
}

/// The value at `x` in the field.
pub open spec fn poly_eval(c: Seq<int>, x: int) -> int {
    eval_z(c, x) % modulus()
}

pub open spec fn max_len(a: Seq<int>, b: Seq<int>) -> nat {
    if a.len() < b.len() {
        b.len()
    } else {
        a.len()
    }
}

/// Coefficients that agree modulo the field's order give values that agree.
proof fn lemma_eval_congruent(c: Seq<int>, d: Seq<int>, x: int)
    requires
        c.len() == d.len(),
        forall|k: int| 0 <= k < c.len() ==> #[trigger] c[k] % modulus() == d[k] % modulus(),
    ensures
        eval_z(c, x) % modulus() == eval_z(d, x) % modulus(),
    decreases c.len(),
{
    let m = modulus();
    if c.len() > 0 {
        lemma_eval_congruent(c.drop_first(), d.drop_first(), x);
        let (ec, ed) = (eval_z(c.drop_first(), x), eval_z(d.drop_first(), x));
        lemma_mul_mod_noop_right(x, ec, m);
        lemma_mul_mod_noop_right(x, ed, m);
        lemma_add_mod_noop(c[0], x * ec, m);
        lemma_add_mod_noop(d[0], x * ed, m);
    }
}

proof fn lemma_eval_tail(c: Seq<int>, x: int)
    ensures
        eval_z(c, x) == coef(c, 0) + x * eval_z(tail(c), x),
{
}

proof fn lemma_eval_sum(a: Seq<int>, b: Seq<int>, x: int)
    ensures
        eval_z(Seq::new(max_len(a, b), |k: int| coef(a, k) + coef(b, k)), x) == eval_z(a, x)
            + eval_z(b, x),
    decreases max_len(a, b),
{
    let s = Seq::new(max_len(a, b), |k: int| coef(a, k) + coef(b, k));
    lemma_eval_tail(a, x);
    lemma_eval_tail(b, x);
    if max_len(a, b) > 0 {
        let t = Seq::new(max_len(tail(a), tail(b)), |k: int| coef(tail(a), k) + coef(tail(b), k));
        assert(s.drop_first() =~= t);
        lemma_eval_sum(tail(a), tail(b), x);
        assert(x * (eval_z(tail(a), x) + eval_z(tail(b), x)) == x * eval_z(tail(a), x) + x
            * eval_z(tail(b), x)) by (nonlinear_arith);
    }
}

proof fn lemma_eval_scale(a: Seq<int>, s: int, x: int)
    ensures
        eval_z(Seq::new(a.len(), |k: int| a[k] * s), x) == s * eval_z(a, x),
    decreases a.len(),
{
    if a.len() > 0 {
        let t = Seq::new(a.len(), |k: int| a[k] * s);
        let u = a.drop_first();
        assert(t.drop_first() =~= Seq::new(u.len(), |k: int| u[k] * s));
        lemma_eval_scale(u, s, x);
        let e = eval_z(u, x);
        assert(a[0] * s + x * (s * e) == s * (a[0] + x * e)) by (nonlinear_arith);
    }
}

/// The coefficients of `(X − c)·A(X)`.
pub open spec fn linear_times(a: Seq<int>, c: int) -> Seq<int> {
    Seq::new(a.len() + 1, |k: int| coef(a, k - 1) - c * coef(a, k))
}

proof fn lemma_eval_linear(a: Seq<int>, c: int, x: int)
    ensures
        eval_z(linear_times(a, c), x) == (x - c) * eval_z(a, x),
    decreases a.len(),
{
    let r = linear_times(a, c);
    if a.len() == 0 {
        assert(r.drop_first() =~= Seq::<int>::empty());
        assert(eval_z(r.drop_first(), x) == 0);
        assert(r[0] == 0);
        assert(eval_z(a, x) == 0);
        assert(eval_z(r, x) == 0);
    } else {
        let u = a.drop_first();
        let rest = linear_times(u, c);
        lemma_eval_linear(u, c, x);
        // r = [-c·a0] followed by rest with a0 added to its constant coefficient.
        let bumped = Seq::new(rest.len(), |k: int| if k == 0 { rest[k] + a[0] } else { rest[k] });
        assert(r.drop_first() =~= bumped);
        assert(bumped.drop_first() =~= rest.drop_first());
        let e = eval_z(u, x);
        assert(eval_z(rest, x) == (x - c) * e);
        assert(eval_z(bumped, x) == eval_z(rest, x) + a[0]);
        assert(r[0] == -(c * a[0]));
        assert(eval_z(r, x) == r[0] + x * eval_z(bumped, x));
        assert(eval_z(a, x) == a[0] + x * e);
        assert(-(c * a[0]) + x * ((x - c) * e + a[0]) == (x - c) * (a[0] + x * e))
            by (nonlinear_arith);
    }
}

/// The field sum of the polynomials' values at `x`.
pub open spec fn sum_of_evals(ps: Seq<Seq<int>>, x: int) -> int
    decreases ps.len(),
{
    if ps.len() == 0 {
        0
    } else {
        fadd(sum_of_evals(ps.drop_last(), x), poly_eval(ps.last(), x))
    }
}

/// The coefficient sequences of the polynomials.
pub open spec fn coefficient_seqs(polys: Seq<UnivariatePoly>) -> Seq<Seq<int>> {
    polys.map_values(|p: UnivariatePoly| p@)
}

/// The length of the longest coefficient sequence, and at least one.
pub open spec fn longest(ps: Seq<Seq<int>>) -> nat
    decreases ps.len(),
{
    if ps.len() == 0 {
        1
    } else if longest(ps.drop_last()) < ps.last().len() {
        ps.last().len()
    } else {
        longest(ps.drop_last())
    }
}

/// The field product of the polynomials' values at `x`.
pub open spec fn product_of_evals(ps: Seq<Seq<int>>, x: int) -> int
    decreases ps.len(),
{
    if ps.len() == 0 {
        1
    } else {
        fmul(product_of_evals(ps.drop_last(), x), poly_eval(ps.last(), x))
    }
}

/// The number of coefficients of the product of the polynomials.
pub open spec fn product_len(ps: Seq<Seq<int>>) -> int
    decreases ps.len(),
{
    if ps.len() == 0 {
        1
    } else {
        product_len(ps.drop_last()) + ps.last().len() - 1
    }
}

/// No two entries are equal.
pub open spec fn distinct(s: Seq<int>) -> bool {
    forall|a: int, b: int| 0 <= a < b < s.len() ==> s[a] != s[b]
}

/// Two different elements of the field have a nonzero difference.
proof fn lemma_difference_nonzero(a: int, b: int)
    requires
        0 <= a < modulus(),
        0 <= b < modulus(),
        a != b,
    ensures
        fsub(a, b) != 0,
{
    let m = modulus();
    if a > b {
        lemma_small_mod((a - b) as nat, m as nat);
    } else {
        lemma_fundamental_div_mod_converse(a - b, m, -1, a - b + m);
    }
}

/// A polynomial by its coefficients, lowest degree first.
#[derive(Clone, Debug)]
pub struct UnivariatePoly {
    pub coefficient: Vec<FieldElement>,
}

impl View for UnivariatePoly {
    type V = Seq<int>;

    open spec fn view(&self) -> Seq<int> {
        vals(self.coefficient@)
    }
}

impl UnivariatePoly {
    pub fn new(coefficient: Vec<FieldElement>) -> (r: Self)
        ensures
            r.coefficient@ == coefficient@,
    {
        UnivariatePoly { coefficient }
    }

    /// The number of coefficients less one; trailing zeros are kept.
    pub fn degree(&self) -> (r: usize)
        requires
            self.coefficient@.len() >= 1,
        ensures
            r == self.coefficient@.len() - 1,
    {
        self.coefficient.len() - 1
    }

    /// The value at `x`, by Horner's rule; the empty polynomial is zero.
    pub fn evaluate(&self, x: FieldElement) -> (r: FieldElement)
        ensures
            r@ == poly_eval(self@, x@),
    {
        let ghost c = self@;
        let mut acc = FieldElement::zero();
        let mut i: usize = self.coefficient.len();
        proof {
            assert(c.skip(i as int) =~= Seq::<int>::empty());
            assert(eval_z(c.skip(i as int), x@) == 0);
        }
        while i > 0
            invariant
                i <= c.len(),
                c == self@,
                acc@ == poly_eval(c.skip(i as int), x@),
            decreases i,
        {
            let ghost prev = eval_z(c.skip(i as int), x@);
            acc = acc.mul(&x).add(&self.coefficient[i - 1]);
            proof {
                let m = modulus();
                assert(c.skip(i - 1).drop_first() =~= c.skip(i as int));
                assert(eval_z(c.skip(i - 1), x@) == c[i - 1] + x@ * prev);
                lemma_mul_mod_noop(prev, x@, m);
                lemma_small_mod(x@ as nat, m as nat);
                lemma_small_mod(c[i - 1] as nat, m as nat);
                lemma_add_mod_noop(prev * x@, c[i - 1], m);
                assert(prev * x@ == x@ * prev) by (nonlinear_arith);
            }
            i = i - 1;
        }
        proof {
            assert(c.skip(0) =~= c);
        }
        acc
    }

    /// Every coefficient multiplied by `scalar`.
    pub fn scalar_mul(&self, scalar: &FieldElement) -> (r: Self)
        ensures
            r@ == Seq::new(self@.len(), |k: int| fmul(self@[k], scalar@)),
            forall|x: int| #[trigger] poly_eval(r@, x) == fmul(scalar@, poly_eval(self@, x)),
    {
        let mut result: Vec<FieldElement> = Vec::new();
        let mut i: usize = 0;
        while i < self.coefficient.len()
            invariant
                i <= self@.len(),
                vals(result@) =~= Seq::new(self@.len(), |k: int| fmul(self@[k], scalar@)).subrange(
                    0,
                    i as int,
                ),
            decreases self@.len() - i,
        {
            let ghost before = result@;
            result.push(self.coefficient[i].mul(scalar));
            proof {
                assert(vals(result@) =~= vals(before).push(result@[i as int]@));
            }
            i = i + 1;
        }
        let r = UnivariatePoly { coefficient: result };
        proof {
            let m = modulus();
            let a = self@;
            let z = Seq::new(a.len(), |k: int| a[k] * scalar@);
            assert forall|x: int| #[trigger] poly_eval(r@, x) == fmul(scalar@, poly_eval(a, x)) by {
                assert forall|k: int| 0 <= k < r@.len() implies #[trigger] r@[k] % m == z[k] % m by {
                    lemma_mod_twice(a[k] * scalar@, m);
                }
                lemma_eval_congruent(r@, z, x);
                lemma_eval_scale(a, scalar@, x);
                lemma_mul_mod_noop_right(scalar@, eval_z(a, x), m);
            }
        }
        r
    }

    /// The coefficient-wise sum; the shorter polynomial counts as padded with zeros.
    pub fn add(&self, other: &Self) -> (r: Self)
        ensures
            r@ == Seq::new(max_len(self@, other@), |k: int| fadd(coef(self@, k), coef(other@, k))),
            forall|x: int| #[trigger]
                poly_eval(r@, x) == fadd(poly_eval(self@, x), poly_eval(other@, x)),
    {
        let ghost spec_r = Seq::new(
            max_len(self@, other@),
            |k: int| fadd(coef(self@, k), coef(other@, k)),
        );
        let n = if self.coefficient.len() < other.coefficient.len() {
            other.coefficient.len()
        } else {
            self.coefficient.len()
        };
        let mut result: Vec<FieldElement> = Vec::new();
        let mut i: usize = 0;
        while i < n
            invariant
                i <= n,
                n == max_len(self@, other@),
                spec_r == Seq::new(
                    max_len(self@, other@),
                    |k: int| fadd(coef(self@, k), coef(other@, k)),
                ),
                vals(result@) =~= spec_r.subrange(0, i as int),
            decreases n - i,
        {
            let a = if i < self.coefficient.len() {
                self.coefficient[i]
            } else {
                FieldElement::zero()
            };
            let b = if i < other.coefficient.len() {
                other.coefficient[i]
            } else {
                FieldElement::zero()
            };
            let ghost before = result@;
            result.push(a.add(&b));
            proof {
                assert(vals(result@) =~= vals(before).push(result@[i as int]@));
            }
            i = i + 1;
        }
        let r = UnivariatePoly { coefficient: result };
        proof {
            let m = modulus();
            let (a, b) = (self@, other@);
            let z = Seq::new(max_len(a, b), |k: int| coef(a, k) + coef(b, k));
            assert(r@ =~= spec_r);
            assert forall|x: int| #[trigger]
                poly_eval(r@, x) == fadd(poly_eval(a, x), poly_eval(b, x)) by {
                assert forall|k: int| 0 <= k < r@.len() implies #[trigger] r@[k] % m == z[k] % m by {
                    lemma_mod_twice(coef(a, k) + coef(b, k), m);
                }
                lemma_eval_congruent(r@, z, x);
                lemma_eval_sum(a, b, x);
                lemma_add_mod_noop(eval_z(a, x), eval_z(b, x), m);
            }
        }
        r
    }

    /// The product with `X − c`.
    fn mul_linear(&self, c: &FieldElement) -> (r: Self)
        requires
            self@.len() < usize::MAX,
        ensures
            r@.len() == self@.len() + 1,
            forall|x: int| #[trigger] poly_eval(r@, x) == fmul(fsub(x, c@), poly_eval(self@, x)),
    {
        let ghost a = self@;
        let ghost spec_r = Seq::new(
            a.len() + 1,
            |k: int| fsub(coef(a, k - 1), fmul(c@, coef(a, k))),
        );
        let n = self.coefficient.len();
        let mut result: Vec<FieldElement> = Vec::new();
        let mut i: usize = 0;
        while i <= n
            invariant
                i <= n + 1,
                n == a.len(),
                n < usize::MAX,
                a == self@,
                spec_r == Seq::new(a.len() + 1, |k: int| fsub(coef(a, k - 1), fmul(c@, coef(a, k)))),
                vals(result@) =~= spec_r.subrange(0, i as int),
            decreases n + 1 - i,
        {
            let lower = if i >= 1 {
                self.coefficient[i - 1]
            } else {
                FieldElement::zero()
            };
            let upper = if i < n {
                self.coefficient[i]
            } else {
                FieldElement::zero()
            };
            let ghost before = result@;
            result.push(lower.sub(&c.mul(&upper)));
            proof {
                assert(vals(result@) =~= vals(before).push(result@[i as int]@));
            }
            i = i + 1;
        }
        let r = UnivariatePoly { coefficient: result };
        proof {
            let m = modulus();
            let z = linear_times(a, c@);
            assert(r@ =~= spec_r);
            assert forall|x: int| #[trigger]
                poly_eval(r@, x) == fmul(fsub(x, c@), poly_eval(a, x)) by {
                assert forall|k: int| 0 <= k < r@.len() implies #[trigger] r@[k] % m == z[k] % m by {
                    lemma_sub_mod_noop_right(coef(a, k - 1), c@ * coef(a, k), m);
                    lemma_mod_twice(coef(a, k - 1) - c@ * coef(a, k), m);
                }
                lemma_eval_congruent(r@, z, x);
                lemma_eval_linear(a, c@, x);
                lemma_mul_mod_noop(x - c@, eval_z(a, x), m);
            }
        }
        r
    }

    /// The Lagrange interpolant through the points `(xs[k], ys[k])`: it has one
    /// coefficient per point (one at least), and takes the value `ys[k]` at `xs[k]`.
    pub fn interpolate(xs: Vec<FieldElement>, ys: Vec<FieldElement>) -> (r: Result<Self, PolyError>)
        ensures
            r is Err && r->Err_0 == PolyError::LengthMismatch <==> xs@.len() != ys@.len(),
            xs@.len() == ys@.len() ==> (r is Err <==> !distinct(vals(xs@))),
            r is Err ==> r->Err_0 == PolyError::LengthMismatch || r->Err_0
                == PolyError::DuplicatePoint,
            r is Ok ==> {
                &&& r->Ok_0@.len() == if xs@.len() == 0 {
                    1
                } else {
                    xs@.len()
                }
                &&& forall|k: int|
                    0 <= k < xs@.len() ==> #[trigger] poly_eval(r->Ok_0@, xs@[k]@) == ys@[k]@
            },
    {
        let n = xs.len();
        if n != ys.len() {
            return Err(PolyError::LengthMismatch);
        }
        let ghost px = vals(xs@);
        let mut i: usize = 0;
        while i < n
            invariant
                n == xs@.len(),
                n == ys@.len(),
                px == vals(xs@),
                i <= n,
                forall|a: int, b: int| 0 <= a < i && a < b < n ==> px[a] != px[b],
            decreases n - i,
        {
            let mut j: usize = i + 1;
            while j < n
                invariant
                    n == xs@.len(),
                    n == ys@.len(),
                    px == vals(xs@),
                    i < n,
                    i + 1 <= j <= n,
                    forall|a: int, b: int| 0 <= a < i && a < b < n ==> px[a] != px[b],
                    forall|b: int| i < b < j ==> px[i as int] != px[b],
                decreases n - j,
            {
                if xs[i].equals(&xs[j]) {
                    proof {
                        assert(px[i as int] == px[j as int]);
                    }
                    return Err(PolyError::DuplicatePoint);
                }
                j = j + 1;
            }
            i = i + 1;
        }
        assert(distinct(px));
        let m = Ghost(modulus());
        let mut result_coefficients: Vec<FieldElement> = Vec::new();
        result_coefficients.push(FieldElement::zero());
        let mut result = UnivariatePoly::new(result_coefficients);
        proof {
            assert(result@ =~= seq![0int]);
            assert(result@.drop_first() =~= Seq::<int>::empty());
            assert forall|k: int| 0 <= k < n implies #[trigger] poly_eval(result@, px[k]) == 0 by {
                assert(eval_z(result@.drop_first(), px[k]) == 0);
                assert(eval_z(result@, px[k]) == 0);
            }
        }
        let mut i: usize = 0;
        while i < n
            invariant
                n == xs@.len(),
                n == ys@.len(),
                px == vals(xs@),
                distinct(px),
                m@ == modulus(),
                i <= n,
                result@.len() == if i == 0 {
                    1
                } else {
                    n as int
                },
                forall|k: int|
                    0 <= k < n ==> #[trigger] poly_eval(result@, px[k]) == if k < i {
                        ys@[k]@
                    } else {
                        0
                    },
            decreases n - i,
        {
            let mut basis_coefficients: Vec<FieldElement> = Vec::new();
            basis_coefficients.push(FieldElement::one());
            let mut basis = UnivariatePoly::new(basis_coefficients);
            proof {
                assert(basis@ =~= seq![1int]);
                assert(basis@.drop_first() =~= Seq::<int>::empty());
                assert(eval_z(basis@.drop_first(), px[i as int]) == 0);
                assert(eval_z(basis@, px[i as int]) == 1);
                lemma_small_mod(1, m@ as nat);
            }
            let mut j: usize = 0;
            while j < n
                invariant
                    n == xs@.len(),
                    px == vals(xs@),
                    distinct(px),
                    m@ == modulus(),
                    i < n,
                    j <= n,
                    basis@.len() == if j <= i {
                        j + 1
                    } else {
                        j as int
                    },
                    poly_eval(basis@, px[i as int]) == 1,
                    forall|k: int|
                        0 <= k < j && k != i ==> #[trigger] poly_eval(basis@, px[k]) == 0,
                decreases n - j,
            {
                if i != j {
                    let d = xs[i].sub(&xs[j]);
                    proof {
                        lemma_difference_nonzero(px[i as int], px[j as int]);
                    }
                    let inv = d.inverse().unwrap();
                    let ghost before = basis@;
                    let lin = basis.mul_linear(&xs[j]);
                    basis = lin.scalar_mul(&inv);
                    proof {
                        assert(xs@[j as int]@ == px[j as int]);
                        assert(xs@[i as int]@ == px[i as int]);
                        let pi = poly_eval(before, px[i as int]);
                        assert(pi == 1);
                        lemma_small_mod(d@ as nat, m@ as nat);
                        assert(fmul(fsub(px[i as int], px[j as int]), pi) == d@);
                        assert(poly_eval(basis@, px[i as int]) == fmul(inv@, d@));
                        assert forall|k: int|
                            0 <= k < j + 1 && k != i implies #[trigger] poly_eval(basis@, px[k])
                            == 0 by {
                            if k == j {
                                assert(fsub(px[k], px[j as int]) == 0);
                                assert(poly_eval(lin@, px[k]) == fmul(
                                    fsub(px[k], px[j as int]),
                                    poly_eval(before, px[k]),
                                ));
                                assert(0 * poly_eval(before, px[k]) == 0);
                                assert(poly_eval(lin@, px[k]) == 0);
                            } else {
                                assert(poly_eval(before, px[k]) == 0);
                                assert(poly_eval(lin@, px[k]) == fmul(
                                    fsub(px[k], px[j as int]),
                                    poly_eval(before, px[k]),
                                ));
                                assert(fsub(px[k], px[j as int]) * 0 == 0);
                                assert(poly_eval(lin@, px[k]) == 0);
                            }
                            assert(poly_eval(basis@, px[k]) == fmul(inv@, poly_eval(lin@, px[k])));
                            assert(inv@ * 0 == 0);
                        }
                    }
                }
                j = j + 1;
            }
            let term = basis.scalar_mul(&ys[i]);
            let ghost before = result@;
            result = result.add(&term);
            proof {
                assert forall|k: int| 0 <= k < n implies #[trigger] poly_eval(result@, px[k]) == if k
                    < i + 1 {
                    ys@[k]@
                } else {
                    0
                } by {
                    lemma_small_mod(ys@[i as int]@ as nat, m@ as nat);
                    if k < i {
                        lemma_small_mod(ys@[k]@ as nat, m@ as nat);
                        assert(poly_eval(before, px[k]) == ys@[k]@);
                        assert(poly_eval(basis@, px[k]) == 0);
                    } else if k == i {
                        assert(poly_eval(before, px[k]) == 0);
                    } else {
                        assert(poly_eval(before, px[k]) == 0);
                        assert(poly_eval(basis@, px[k]) == 0);
                    }
                }
            }
            i = i + 1;
        }
        proof {
            assert forall|k: int| 0 <= k < xs@.len() implies #[trigger] poly_eval(result@, xs@[k]@)
                == ys@[k]@ by {
                assert(px[k] == xs@[k]@);
            }
        }
        Ok(result)
    }

    /// The product with `X`: every coefficient moves up one degree.
    fn shifted(&self) -> (r: Self)
        ensures
            r@ == seq![0int] + self@,
    {
        let mut c: Vec<FieldElement> = Vec::new();
        c.push(FieldElement::zero());
        let mut i: usize = 0;
        while i < self.coefficient.len()
            invariant
                i <= self@.len(),
                vals(c@) == seq![0int] + self@.take(i as int),
            decreases self@.len() - i,
        {
            let ghost before = c@;
            c.push(self.coefficient[i]);
            proof {
                assert(vals(c@) =~= vals(before).push(self@[i as int]));
                assert(self@.take(i + 1) =~= self@.take(i as int).push(self@[i as int]));
                assert(seq![0int] + self@.take(i + 1) =~= (seq![0int] + self@.take(i as int)).push(
                    self@[i as int],
                ));
            }
            i = i + 1;
        }
        proof {
            assert(self@.take(i as int) =~= self@);
        }
        UnivariatePoly { coefficient: c }
    }

    /// The product of two polynomials, with as many coefficients as the two have less one.
    pub fn multiply(&self, other: &Self) -> (r: Self)
        requires
            self@.len() >= 1,
            other@.len() >= 1,
            self@.len() + other@.len() <= usize::MAX,
        ensures
            r@.len() == self@.len() + other@.len() - 1,
            forall|x: int| #[trigger]
                poly_eval(r@, x) == fmul(poly_eval(self@, x), poly_eval(other@, x)),
    {
        let n = self.coefficient.len();
        let ghost a = self@;
        let ghost m = modulus();
        let mut result = other.scalar_mul(&self.coefficient[n - 1]);
        proof {
            assert forall|x: int| #[trigger]
                poly_eval(result@, x) == fmul(poly_eval(a.skip(n - 1), x), poly_eval(other@, x)) by {
                let s = a.skip(n - 1);
                assert(s.drop_first() =~= Seq::<int>::empty());
                assert(eval_z(s.drop_first(), x) == 0);
                assert(eval_z(s, x) == a[n - 1]);
                lemma_small_mod(a[n - 1] as nat, m as nat);
            }
        }
        let mut i: usize = n - 1;
        while i > 0
            invariant
                i <= n - 1,
                n == a.len(),
                a == self@,
                m == modulus(),
                n + other@.len() <= usize::MAX,
                result@.len() == other@.len() + (n - 1 - i),
                forall|x: int| #[trigger]
                    poly_eval(result@, x) == fmul(poly_eval(a.skip(i as int), x), poly_eval(other@, x)),
            decreases i,
        {
            let shifted = result.shifted();
            let term = other.scalar_mul(&self.coefficient[i - 1]);
            let ghost prev = result@;
            result = shifted.add(&term);
            proof {
                assert forall|x: int| #[trigger]
                    poly_eval(result@, x) == fmul(poly_eval(a.skip(i - 1), x), poly_eval(other@, x)) by {
                    let big_a = eval_z(a.skip(i as int), x);
                    let b = poly_eval(other@, x);
                    let c = a[i - 1];
                    let er = eval_z(prev, x);
                    assert(a.skip(i - 1).drop_first() =~= a.skip(i as int));
                    assert(eval_z(a.skip(i - 1), x) == c + x * big_a);
                    assert((seq![0int] + prev).drop_first() =~= prev);
                    assert(eval_z(shifted@, x) == x * er);
                    assert(poly_eval(prev, x) == fmul(poly_eval(a.skip(i as int), x), b));
                    assert(er % m == (big_a * b) % m) by {
                        lemma_mul_mod_noop_left(big_a, b, m);
                    }
                    lemma_mul_mod_noop_right(x, er, m);
                    lemma_mul_mod_noop_right(x, big_a * b, m);
                    assert((x * er) % m == (x * (big_a * b)) % m);
                    lemma_add_mod_noop(x * (big_a * b), c * b, m);
                    lemma_mul_mod_noop_left(c + x * big_a, b, m);
                    assert((c + x * big_a) * b == c * b + x * (big_a * b)) by (nonlinear_arith);
                }
            }
            i = i - 1;
        }
        proof {
            assert(a.skip(0) =~= a);
        }
        result
    }

    /// The sum of the polynomials: zero, to which each is added in turn.
    pub fn sum(polys: &[UnivariatePoly]) -> (r: Self)
        ensures
            r@.len() == longest(coefficient_seqs(polys@)),
            forall|x: int| #[trigger]
                poly_eval(r@, x) == sum_of_evals(coefficient_seqs(polys@), x),
    {
        let ghost ps = coefficient_seqs(polys@);
        let mut c: Vec<FieldElement> = Vec::new();
        c.push(FieldElement::zero());
        let mut result = UnivariatePoly { coefficient: c };
        proof {
            assert(result@ =~= seq![0int]);
            assert(ps.take(0) =~= Seq::<Seq<int>>::empty());
            assert forall|x: int| #[trigger] poly_eval(result@, x) == sum_of_evals(ps.take(0), x) by {
                assert(result@.drop_first() =~= Seq::<int>::empty());
                assert(eval_z(result@.drop_first(), x) == 0);
                assert(eval_z(result@, x) == 0);
                lemma_small_mod(0, modulus() as nat);
                assert(sum_of_evals(ps.take(0), x) == 0);
            }
        }
        let mut k: usize = 0;
        while k < polys.len()
            invariant
                k <= polys@.len(),
                ps == coefficient_seqs(polys@),
                result@.len() == longest(ps.take(k as int)),
                forall|x: int| #[trigger] poly_eval(result@, x) == sum_of_evals(ps.take(k as int), x),
            decreases polys@.len() - k,
        {
            result = result.add(&polys[k]);
            proof {
                assert(ps.take(k + 1).drop_last() =~= ps.take(k as int));
                assert(ps.take(k + 1).last() == polys@[k as int]@);
                assert forall|x: int| #[trigger] poly_eval(result@, x) == sum_of_evals(
                    ps.take(k + 1),
                    x,
                ) by {
                    assert(ps.take(k + 1).drop_last() =~= ps.take(k as int));
                    assert(ps.take(k + 1).last() == polys@[k as int]@);
                }
            }
            k = k + 1;
        }
        proof {
            assert(ps.take(polys@.len() as int) =~= ps);
        }
        result
    }

    /// The product of the polynomials: one, multiplied by each in turn.
    pub fn product(polys: &[UnivariatePoly]) -> (r: Self)
        requires
            forall|k: int| 0 <= k < polys@.len() ==> (#[trigger] polys@[k])@.len() >= 1,
            forall|k: int|
                0 <= k <= polys@.len() ==> #[trigger] product_len(
                    coefficient_seqs(polys@).take(k),
                ) + 1 <= usize::MAX,
        ensures
            r@.len() == product_len(coefficient_seqs(polys@)),
            forall|x: int| #[trigger]
                poly_eval(r@, x) == product_of_evals(coefficient_seqs(polys@), x),
    {
        let ghost ps = coefficient_seqs(polys@);
        let mut c: Vec<FieldElement> = Vec::new();
        c.push(FieldElement::one());
        let mut result = UnivariatePoly { coefficient: c };
        proof {
            assert(result@ =~= seq![1int]);
            assert(ps.take(0) =~= Seq::<Seq<int>>::empty());
            assert forall|x: int| #[trigger] poly_eval(result@, x) == product_of_evals(ps.take(0), x) by {
                assert(result@.drop_first() =~= Seq::<int>::empty());
                assert(eval_z(result@.drop_first(), x) == 0);
                assert(eval_z(result@, x) == 1);
                lemma_small_mod(1, modulus() as nat);
            }
        }
        let mut k: usize = 0;
        while k < polys.len()
            invariant
                k <= polys@.len(),
                ps == coefficient_seqs(polys@),
                forall|j: int| 0 <= j < polys@.len() ==> (#[trigger] polys@[j])@.len() >= 1,
                forall|j: int| 0 <= j <= polys@.len() ==> #[trigger] product_len(ps.take(j)) + 1 <= usize::MAX,
                result@.len() == product_len(ps.take(k as int)),
                result@.len() >= 1,
                forall|x: int| #[trigger] poly_eval(result@, x) == product_of_evals(ps.take(k as int), x),
            decreases polys@.len() - k,
        {
            proof {
                assert(ps.take(k + 1).drop_last() =~= ps.take(k as int));
                assert(ps.take(k + 1).last() == polys@[k as int]@);
                assert(product_len(ps.take(k + 1)) + 1 <= usize::MAX);
            }
            result = result.multiply(&polys[k]);
            proof {
                assert forall|x: int| #[trigger] poly_eval(result@, x) == product_of_evals(
                    ps.take(k + 1),
                    x,
                ) by {}
            }
            k = k + 1;
        }
        proof {
            assert(ps.take(polys@.len() as int) =~= ps);
        }
        result
    }
}

} // verus!
