//! Sums of products of multilinear polynomials: the object that the sumcheck runs over.

use vstd::prelude::*;
use crate::error::PolyError;
use crate::field::{fadd, fmul, vals, FieldElement};
use crate::multilinear::{fold_first, is_power_of_two, mle_eval, MultilinearPoly};

verus! {

/// The product of the factors' values at `pt`.
pub open spec fn term_eval(t: Seq<Seq<int>>, pt: Seq<int>) -> int
    decreases t.len(),
{
    if t.len() == 0 {
        1
    } else {
        fmul(term_eval(t.drop_last(), pt), mle_eval(t.last(), pt))
    }
}

/// The sum over the terms of their products at `pt`.
pub open spec fn sum_eval(s: Seq<Seq<Seq<int>>>, pt: Seq<int>) -> int
    decreases s.len(),
{
    if s.len() == 0 {
        0
    } else {
        fadd(sum_eval(s.drop_last(), pt), term_eval(s.last(), pt))
    }
}

/// Every factor with its first variable fixed to `v`.
pub open spec fn term_fold(t: Seq<Seq<int>>, v: int) -> Seq<Seq<int>> {
    t.map_values(|f: Seq<int>| fold_first(f, v))
}

/// Every factor of every term with its first variable fixed to `v`.
pub open spec fn sum_fold(s: Seq<Seq<Seq<int>>>, v: int) -> Seq<Seq<Seq<int>>> {
    s.map_values(|t: Seq<Seq<int>>| term_fold(t, v))
}

/// Point `i` of the pointwise product of the two factors of a term.
pub open spec fn pair_product(t: Seq<Seq<int>>, i: int) -> int {
    fmul(t[0][i], t[1][i])
}

/// Point `i` of the sum over the terms of their two factors' pointwise product.
pub open spec fn sum_reduce_at(s: Seq<Seq<Seq<int>>>, i: int) -> int
    decreases s.len(),
{
    if s.len() == 0 {
        0
    } else {
        fadd(sum_reduce_at(s.drop_last(), i), pair_product(s.last(), i))
    }
}

/// A product of multilinear polynomials in the same variables.
#[derive(Clone, Debug)]
pub struct ProductPoly {
    pub evaluation: Vec<MultilinearPoly>,
}

impl View for ProductPoly {
    type V = Seq<Seq<int>>;

    open spec fn view(&self) -> Seq<Seq<int>> {
        self.evaluation@.map_values(|p: MultilinearPoly| p@)
    }
}

impl ProductPoly {
    /// At least one factor, all in the same number of variables.
    pub open spec fn wf(&self) -> bool {
        &&& self.evaluation@.len() >= 1
        &&& forall|k: int|
            0 <= k < self.evaluation@.len() ==> {
                &&& (#[trigger] self.evaluation@[k]).wf()
                &&& self.evaluation@[k].number_of_variables
                    == self.evaluation@[0].number_of_variables
            }
    }

    pub open spec fn num_vars(&self) -> nat {
        self.evaluation@[0].number_of_variables as nat
    }

    /// One factor for each evaluation vector; the vectors must share one length, a
    /// power of two.
    pub fn init_poly(poly_evals: Vec<Vec<FieldElement>>) -> (r: Result<Self, PolyError>)
        requires
            poly_evals@.len() >= 1,
        ensures
            r is Err && r->Err_0 == PolyError::LengthMismatch <==> exists|k: int|
                0 <= k < poly_evals@.len() && #[trigger] poly_evals@[k]@.len()
                    != poly_evals@[0]@.len(),
            r is Ok <==> (forall|k: int|
                0 <= k < poly_evals@.len() ==> #[trigger] poly_evals@[k]@.len()
                    == poly_evals@[0]@.len()) && is_power_of_two(poly_evals@[0]@.len()),
            r is Err ==> r->Err_0 == PolyError::LengthMismatch || r->Err_0
                == PolyError::InvalidLength,
            r is Ok ==> r->Ok_0.wf() && r->Ok_0.evaluation@.len() == poly_evals@.len() && forall|
                k: int,
            |
                0 <= k < poly_evals@.len() ==> #[trigger] r->Ok_0.evaluation@[k].evaluation@
                    == poly_evals@[k]@,
    {
        let poly_length = poly_evals[0].len();
        let mut k: usize = 0;
        while k < poly_evals.len()
            invariant
                k <= poly_evals@.len(),
                poly_length == poly_evals@[0]@.len(),
                forall|j: int| 0 <= j < k ==> #[trigger] poly_evals@[j]@.len() == poly_length,
            decreases poly_evals@.len() - k,
        {
            if poly_evals[k].len() != poly_length {
                return Err(PolyError::LengthMismatch);
            }
            k = k + 1;
        }
        let ghost evals = poly_evals@;
        let mut polys: Vec<MultilinearPoly> = Vec::new();
        let count = poly_evals.len();
        let mut k: usize = 0;
        while k < count
            invariant
                count == evals.len(),
                k <= evals.len(),
                evals.len() >= 1,
                poly_length == evals[0]@.len(),
                forall|j: int| 0 <= j < evals.len() ==> #[trigger] evals[j]@.len() == poly_length,
                poly_evals@ == evals,
                polys@.len() == k,
                forall|j: int|
                    0 <= j < k ==> {
                        &&& (#[trigger] polys@[j]).wf()
                        &&& polys@[j].evaluation@ == evals[j]@
                        &&& polys@[j].number_of_variables == polys@[0].number_of_variables
                    },
            decreases evals.len() - k,
        {
            let v = FieldElement::copy_all(poly_evals[k].as_slice());
            match MultilinearPoly::new(v) {
                Ok(p) => {
                    proof {
                        if k > 0 {
                            crate::multilinear::lemma_exp2_injective(
                                p.number_of_variables as nat,
                                polys@[0].number_of_variables as nat,
                            );
                        }
                    }
                    polys.push(p);
                },
                Err(e) => {
                    proof {
                        assert(evals[k as int]@.len() == evals[0]@.len());
                        assert(!is_power_of_two(evals[0]@.len()));
                        assert(evals == poly_evals@);
                    }
                    return Err(e);
                },
            }
            k = k + 1;
        }
        proof {
            let n0 = polys@[0].number_of_variables as nat;
            assert(crate::multilinear::exp2(n0) == evals[0]@.len());
            assert(is_power_of_two(evals[0]@.len()));
        }
        Ok(ProductPoly { evaluation: polys })
    }

    /// A copy of the product.
    pub fn duplicate(&self) -> (r: Self)
        requires
            self.wf(),
        ensures
            r.wf(),
            r@ == self@,
            r.num_vars() == self.num_vars(),
            r.evaluation@.len() == self.evaluation@.len(),
    {
        let mut polys: Vec<MultilinearPoly> = Vec::new();
        let mut k: usize = 0;
        while k < self.evaluation.len()
            invariant
                self.wf(),
                k <= self.evaluation@.len(),
                polys@.len() == k,
                forall|j: int|
                    0 <= j < k ==> {
                        &&& (#[trigger] polys@[j]).evaluation@ == self.evaluation@[j].evaluation@
                        &&& polys@[j].number_of_variables == self.evaluation@[j].number_of_variables
                    },
            decreases self.evaluation@.len() - k,
        {
            polys.push(self.evaluation[k].duplicate());
            k = k + 1;
        }
        let r = ProductPoly { evaluation: polys };
        proof {
            assert(r@ =~= self@);
        }
        r
    }

    /// The number of factors.
    pub fn get_degree(&self) -> (r: usize)
        ensures
            r == self.evaluation@.len(),
    {
        self.evaluation.len()
    }

    /// The product of the factors' values at `values`, which must give every variable.
    pub fn evaluate(&self, values: Vec<FieldElement>) -> (r: Result<FieldElement, PolyError>)
        requires
            self.wf(),
        ensures
            r is Ok <==> values@.len() == self.num_vars(),
            r is Ok ==> r->Ok_0@ == term_eval(self@, vals(values@)),
            r is Err ==> r->Err_0 == PolyError::ArityMismatch,
    {
        if values.len() != self.evaluation[0].number_of_variables {
            return Err(PolyError::ArityMismatch);
        }
        let ghost pt = vals(values@);
        let mut acc = FieldElement::one();
        let mut k: usize = 0;
        proof {
            assert(self@.take(0) =~= Seq::<Seq<int>>::empty());
        }
        while k < self.evaluation.len()
            invariant
                self.wf(),
                values@.len() == self.num_vars(),
                pt == vals(values@),
                k <= self.evaluation@.len(),
                acc@ == term_eval(self@.take(k as int), pt),
            decreases self.evaluation@.len() - k,
        {
            let value = self.evaluation[k].full_evaluation(FieldElement::copy_all(values.as_slice()));
            match value {
                Ok(e) => {
                    proof {
                        assert(self@.take(k + 1).drop_last() =~= self@.take(k as int));
                        assert(self@.take(k + 1).last() == self.evaluation@[k as int]@);
                    }
                    acc = acc.mul(&e);
                },
                Err(_) => {
                    return Err(PolyError::ArityMismatch);
                },
            }
            k = k + 1;
        }
        proof {
            assert(self@.take(self.evaluation@.len() as int) =~= self@);
        }
        Ok(acc)
    }

    /// Every factor with its first variable fixed to `value`.
    pub fn partial_evaluate(&self, value: &FieldElement) -> (r: Self)
        requires
            self.wf(),
            self.num_vars() >= 1,
        ensures
            r.wf(),
            r.num_vars() == self.num_vars() - 1,
            r@ == term_fold(self@, value@),
    {
        let mut polys: Vec<MultilinearPoly> = Vec::new();
        let mut k: usize = 0;
        while k < self.evaluation.len()
            invariant
                self.wf(),
                self.num_vars() >= 1,
                k <= self.evaluation@.len(),
                polys@.len() == k,
                forall|j: int|
                    0 <= j < k ==> {
                        &&& (#[trigger] polys@[j]).wf()
                        &&& polys@[j].number_of_variables == self.num_vars() - 1
                        &&& polys@[j]@ == fold_first(self@[j], value@)
                    },
            decreases self.evaluation@.len() - k,
        {
            polys.push(self.evaluation[k].partial_evaluate(0, value));
            k = k + 1;
        }
        let r = ProductPoly { evaluation: polys };
        proof {
            assert(r@ =~= term_fold(self@, value@));
        }
        r
    }

    /// The pointwise product of the two factors.
    pub fn reduce(&self) -> (r: Vec<FieldElement>)
        requires
            self.wf(),
            self.evaluation@.len() == 2,
        ensures
            vals(r@) == Seq::new(self@[0].len(), |i: int| pair_product(self@, i)),
    {
        let p = self.evaluation[0].multiply(&self.evaluation[1]);
        proof {
            assert(vals(p.evaluation@) =~= Seq::new(self@[0].len(), |i: int| pair_product(self@, i)));
        }
        p.evaluation
    }
}

/// A sum of products, all with the same number of factors and of variables.
#[derive(Clone, Debug)]
pub struct SumPoly {
    pub polys: Vec<ProductPoly>,
}

impl View for SumPoly {
    type V = Seq<Seq<Seq<int>>>;

    open spec fn view(&self) -> Seq<Seq<Seq<int>>> {
        self.polys@.map_values(|t: ProductPoly| t@)
    }
}

impl SumPoly {
    pub open spec fn wf(&self) -> bool {
        &&& self.polys@.len() >= 1
        &&& forall|k: int|
            0 <= k < self.polys@.len() ==> {
                &&& (#[trigger] self.polys@[k]).wf()
                &&& self.polys@[k].evaluation@.len() == self.polys@[0].evaluation@.len()
                &&& self.polys@[k].num_vars() == self.polys@[0].num_vars()
            }
    }

    pub open spec fn num_vars(&self) -> nat {
        self.polys@[0].num_vars()
    }

    pub open spec fn degree(&self) -> nat {
        self.polys@[0].evaluation@.len()
    }

    /// Collects the products; they must agree in their number of factors, and then in
    /// their number of variables.
    pub fn new(polys: Vec<ProductPoly>) -> (r: Result<Self, PolyError>)
        requires
            polys@.len() >= 1,
            forall|k: int| 0 <= k < polys@.len() ==> (#[trigger] polys@[k]).wf(),
        ensures
            r is Err && r->Err_0 == PolyError::DegreeMismatch <==> exists|k: int|
                0 <= k < polys@.len() && #[trigger] polys@[k].evaluation@.len()
                    != polys@[0].evaluation@.len(),
            r is Ok <==> forall|k: int|
                0 <= k < polys@.len() ==> #[trigger] polys@[k].evaluation@.len()
                    == polys@[0].evaluation@.len() && polys@[k].num_vars() == polys@[0].num_vars(),
            r is Err ==> r->Err_0 == PolyError::DegreeMismatch || r->Err_0
                == PolyError::LengthMismatch,
            r is Ok ==> r->Ok_0.wf() && r->Ok_0.polys@ == polys@,
    {
        let degree = polys[0].get_degree();
        let mut k: usize = 0;
        while k < polys.len()
            invariant
                k <= polys@.len(),
                degree == polys@[0].evaluation@.len(),
                forall|j: int| 0 <= j < k ==> #[trigger] polys@[j].evaluation@.len() == degree,
            decreases polys@.len() - k,
        {
            if polys[k].get_degree() != degree {
                return Err(PolyError::DegreeMismatch);
            }
            k = k + 1;
        }
        let n = polys[0].evaluation[0].number_of_variables;
        let mut k: usize = 0;
        while k < polys.len()
            invariant
                k <= polys@.len(),
                polys@.len() >= 1,
                forall|j: int| 0 <= j < polys@.len() ==> (#[trigger] polys@[j]).wf(),
                degree == polys@[0].evaluation@.len(),
                forall|j: int| 0 <= j < polys@.len() ==> #[trigger] polys@[j].evaluation@.len() == degree,
                n == polys@[0].num_vars(),
                forall|j: int| 0 <= j < k ==> #[trigger] polys@[j].num_vars() == n,
            decreases polys@.len() - k,
        {
            if polys[k].evaluation[0].number_of_variables != n {
                return Err(PolyError::LengthMismatch);
            }
            k = k + 1;
        }
        Ok(SumPoly { polys })
    }

    /// A copy of the sum.
    pub fn duplicate(&self) -> (r: Self)
        requires
            self.wf(),
        ensures
            r.wf(),
            r@ == self@,
            r.num_vars() == self.num_vars(),
            r.degree() == self.degree(),
    {
        let mut polys: Vec<ProductPoly> = Vec::new();
        let mut k: usize = 0;
        while k < self.polys.len()
            invariant
                self.wf(),
                k <= self.polys@.len(),
                polys@.len() == k,
                forall|j: int|
                    0 <= j < k ==> {
                        &&& (#[trigger] polys@[j]).wf()
                        &&& polys@[j]@ == self.polys@[j]@
                        &&& polys@[j].num_vars() == self.polys@[j].num_vars()
                        &&& polys@[j].evaluation@.len() == self.polys@[j].evaluation@.len()
                    },
            decreases self.polys@.len() - k,
        {
            polys.push(self.polys[k].duplicate());
            k = k + 1;
        }
        let r = SumPoly { polys };
        proof {
            assert(r@ =~= self@);
        }
        r
    }

    /// The number of factors of each product.
    pub fn get_degree(&self) -> (r: usize)
        requires
            self.wf(),
        ensures
            r == self.degree(),
    {
        self.polys[0].get_degree()
    }

    /// The sum of the products' values at `values`, which must give every variable.
    pub fn evaluate(&self, values: Vec<FieldElement>) -> (r: Result<FieldElement, PolyError>)
        requires
            self.wf(),
        ensures
            r is Ok <==> values@.len() == self.num_vars(),
            r is Ok ==> r->Ok_0@ == sum_eval(self@, vals(values@)),
            r is Err ==> r->Err_0 == PolyError::ArityMismatch,
    {
        if values.len() != self.polys[0].evaluation[0].number_of_variables {
            return Err(PolyError::ArityMismatch);
        }
        let ghost pt = vals(values@);
        let mut acc = FieldElement::zero();
        let mut k: usize = 0;
        proof {
            assert(self@.take(0) =~= Seq::<Seq<Seq<int>>>::empty());
        }
        while k < self.polys.len()
            invariant
                self.wf(),
                values@.len() == self.num_vars(),
                pt == vals(values@),
                k <= self.polys@.len(),
                acc@ == sum_eval(self@.take(k as int), pt),
            decreases self.polys@.len() - k,
        {
            let value = self.polys[k].evaluate(FieldElement::copy_all(values.as_slice()));
            match value {
                Ok(e) => {
                    proof {
                        assert(self@.take(k + 1).drop_last() =~= self@.take(k as int));
                        assert(self@.take(k + 1).last() == self.polys@[k as int]@);
                    }
                    acc = acc.add(&e);
                },
                Err(_) => {
                    return Err(PolyError::ArityMismatch);
                },
            }
            k = k + 1;
        }
        proof {
            assert(self@.take(self.polys@.len() as int) =~= self@);
        }
        Ok(acc)
    }

    /// Every factor of every product with its first variable fixed to `value`.
    pub fn partial_evaluate(&self, value: &FieldElement) -> (r: Self)
        requires
            self.wf(),
            self.num_vars() >= 1,
        ensures
            r.wf(),
            r.num_vars() == self.num_vars() - 1,
            r.degree() == self.degree(),
            r@ == sum_fold(self@, value@),
    {
        let mut polys: Vec<ProductPoly> = Vec::new();
        let mut k: usize = 0;
        while k < self.polys.len()
            invariant
                self.wf(),
                self.num_vars() >= 1,
                k <= self.polys@.len(),
                polys@.len() == k,
                forall|j: int|
                    0 <= j < k ==> {
                        &&& (#[trigger] polys@[j]).wf()
                        &&& polys@[j].num_vars() == self.num_vars() - 1
                        &&& polys@[j].evaluation@.len() == self.degree()
                        &&& polys@[j]@ == term_fold(self@[j], value@)
                    },
            decreases self.polys@.len() - k,
        {
            let t = self.polys[k].partial_evaluate(value);
            proof {
                assert(t.evaluation@.len() == t@.len());
            }
            polys.push(t);
            k = k + 1;
        }
        let r = SumPoly { polys };
        proof {
            assert(r@ =~= sum_fold(self@, value@));
        }
        r
    }

    /// At each point of the hypercube, the sum over the products of their two factors'
    /// product.
    pub fn reduce(&self) -> (r: Vec<FieldElement>)
        requires
            self.wf(),
            self.degree() == 2,
        ensures
            vals(r@) == Seq::new(self@[0][0].len(), |i: int| sum_reduce_at(self@, i)),
    {
        let len = self.polys[0].evaluation[0].evaluation.len();
        let ghost target = Seq::new(self@[0][0].len(), |i: int| sum_reduce_at(self@, i));
        let mut acc: Vec<FieldElement> = Vec::new();
        let mut i: usize = 0;
        while i < len
            invariant
                i <= len,
                len == self@[0][0].len(),
                acc@.len() == i,
                forall|j: int| 0 <= j < i ==> (#[trigger] acc@[j])@ == 0,
            decreases len - i,
        {
            acc.push(FieldElement::zero());
            i = i + 1;
        }
        proof {
            assert(self@.take(0) =~= Seq::<Seq<Seq<int>>>::empty());
        }
        let mut k: usize = 0;
        while k < self.polys.len()
            invariant
                self.wf(),
                self.degree() == 2,
                len == self@[0][0].len(),
                k <= self.polys@.len(),
                acc@.len() == len,
                forall|j: int|
                    0 <= j < len ==> (#[trigger] acc@[j])@ == sum_reduce_at(self@.take(k as int), j),
            decreases self.polys@.len() - k,
        {
            let term = self.polys[k].reduce();
            proof {
                assert(self@.take(k + 1).drop_last() =~= self@.take(k as int));
                assert(self@.take(k + 1).last() == self.polys@[k as int]@);
                assert(self.polys@[k as int].evaluation@[0].number_of_variables
                    == self.polys@[0].evaluation@[0].number_of_variables);
            }
            let mut next: Vec<FieldElement> = Vec::new();
            proof {
                assert(vals(term@).len() == term@.len());
            }
            let mut i: usize = 0;
            while i < len
                invariant
                    i <= len,
                    len == self@[0][0].len(),
                    acc@.len() == len,
                    vals(term@) == Seq::new(self@[k as int][0].len(), |i: int| pair_product(self@[k as int], i)),
                    self@[k as int][0].len() == len,
                    term@.len() == len,
                    next@.len() == i,
                    forall|j: int|
                        0 <= j < i ==> (#[trigger] next@[j])@ == fadd(
                            sum_reduce_at(self@.take(k as int), j),
                            pair_product(self@[k as int], j),
                        ),
                    forall|j: int|
                        0 <= j < len ==> (#[trigger] acc@[j])@ == sum_reduce_at(self@.take(k as int), j),
                decreases len - i,
            {
                proof {
                    assert(vals(term@)[i as int] == term@[i as int]@);
                }
                next.push(acc[i].add(&term[i]));
                i = i + 1;
            }
            acc = next;
            k = k + 1;
        }
        proof {
            assert(self@.take(self.polys@.len() as int) =~= self@);
            assert(vals(acc@) =~= target);
        }
        acc
    }
}

} // verus!
