//! Sum polynomials: the pointwise sum of several product polynomials that
//! share the same variables and the same product arity.

use crate::field::{fadd, fe_views, FieldElement};
use crate::multilinear::{fix_list, is_pow2, lg, ml_fix, pt_views, sort_desc,
    MultilinearPolynomial};
use crate::product::{prod_eval, pw_mul, tables_bytes, ProductPolynomial};
use vstd::prelude::*;

verus! {

/// The value of a sum of products of tables at a point.
pub open spec fn sum_eval(s: Seq<Seq<Seq<int>>>, pt: Seq<int>) -> int
    decreases s.len(),
{
    if s.len() == 0 {
        0
    } else {
        fadd(sum_eval(s.drop_last(), pt), prod_eval(s.last(), pt))
    }
}

/// The pointwise sum of the elementwise products of a non-empty family.
pub open spec fn pw_sum(s: Seq<Seq<Seq<int>>>) -> Seq<int>
    recommends
        s.len() >= 1,
    decreases s.len(),
{
    if s.len() <= 1 {
        pw_mul(s[0])
    } else {
        let rest = pw_sum(s.drop_last());
        Seq::new(rest.len(), |i: int| fadd(rest[i], pw_mul(s.last())[i]))
    }
}

/// The concatenated serializations of the products of a family.
pub open spec fn products_bytes(s: Seq<Seq<Seq<int>>>) -> Seq<u8>
    decreases s.len(),
{
    if s.len() == 0 {
        Seq::empty()
    } else {
        products_bytes(s.drop_last()) + tables_bytes(s.last())
    }
}

/// A pointwise sum of product polynomials over the same variables, all of
/// the same arity.
#[derive(Clone, Debug)]
pub struct SumPolynomial {
    pub product_polynomials: Vec<ProductPolynomial>,
}

impl View for SumPolynomial {
    type V = Seq<Seq<Seq<int>>>;

    open spec fn view(&self) -> Seq<Seq<Seq<int>>> {
        self.product_polynomials@.map(|i: int, p: ProductPolynomial| p@)
    }
}

impl SumPolynomial {
    /// At least one product; all products are well formed, share one table
    /// length and one arity.
    pub open spec fn wf(self) -> bool {
        &&& self@.len() >= 1
        &&& forall|i: int| 0 <= i < self@.len()
            ==> (#[trigger] self.product_polynomials@[i]).wf()
        &&& forall|i: int| 0 <= i < self@.len()
            ==> (#[trigger] self@[i]).len() == self@[0].len()
        &&& forall|i: int| 0 <= i < self@.len()
            ==> (#[trigger] self@[i])[0].len() == self@[0][0].len()
    }

    /// The common number of variables.
    pub open spec fn spec_n_vars(self) -> nat {
        lg(self@[0][0].len())
    }

    /// The common arity of the products: the degree of the sumcheck round
    /// polynomials.
    pub open spec fn spec_degree(self) -> nat {
        self@[0].len() as nat
    }

    /// Wraps a non-empty family of product polynomials over the same
    /// variables and of the same arity.
    pub fn new(product_polynomials: Vec<ProductPolynomial>) -> (r: SumPolynomial)
        requires
            product_polynomials@.len() >= 1,
            forall|i: int| 0 <= i < product_polynomials@.len()
                ==> (#[trigger] product_polynomials@[i]).wf(),
            forall|i: int| 0 <= i < product_polynomials@.len()
                ==> (#[trigger] product_polynomials@[i])@.len()
                    == product_polynomials@[0]@.len(),
            forall|i: int| 0 <= i < product_polynomials@.len()
                ==> (#[trigger] product_polynomials@[i])@[0].len()
                    == product_polynomials@[0]@[0].len(),
        ensures
            r.wf(),
            r@ == product_polynomials@.map(|i: int, p: ProductPolynomial| p@),
    {
        SumPolynomial { product_polynomials }
    }

    /// The degree of the sumcheck round polynomials: the product arity.
    pub fn degree(&self) -> (r: usize)
        requires
            self.wf(),
        ensures
            r == self.spec_degree(),
    {
        proof {
            assert(self@[0] == self.product_polynomials@[0]@);
        }
        self.product_polynomials[0].degree()
    }

    /// The common number of variables.
    pub fn n_vars(&self) -> (r: usize)
        requires
            self.wf(),
        ensures
            r as nat == self.spec_n_vars(),
    {
        proof {
            assert(self@[0] == self.product_polynomials@[0]@);
        }
        self.product_polynomials[0].n_vars()
    }

    /// Evaluates the sum: the sum of the products' evaluations.
    pub fn evaluate(&self, points: &[FieldElement]) -> (r: FieldElement)
        requires
            self.wf(),
            points@.len() == self.spec_n_vars(),
        ensures
            r@ == sum_eval(self@, fe_views(points@)),
    {
        let mut acc = FieldElement::zero();
        let mut i: usize = 0;
        proof {
            assert(self@.take(0int) =~= Seq::<Seq<Seq<int>>>::empty());
        }
        while i < self.product_polynomials.len()
            invariant
                self.wf(),
                points@.len() == self.spec_n_vars(),
                i <= self@.len(),
                acc@ == sum_eval(self@.take(i as int), fe_views(points@)),
            decreases self@.len() - i,
        {
            proof {
                assert(self@[i as int] == self.product_polynomials@[i as int]@);
            }
            let v = self.product_polynomials[i].evaluate(points);
            proof {
                assert(self@.take(i as int + 1).drop_last() =~= self@.take(i as int));
                assert(self@.take(i as int + 1).last() == self@[i as int]);
            }
            acc = acc.add(v);
            i = i + 1;
        }
        proof {
            assert(self@.take(self@.len() as int) =~= self@);
        }
        acc
    }

    /// Fixes one variable in every product.
    pub fn partial_evaluate(&self, point: FieldElement, var_index: usize) -> (r: SumPolynomial)
        requires
            self.wf(),
            (var_index as nat) < self.spec_n_vars(),
        ensures
            r.wf(),
            r@.len() == self@.len(),
            forall|i: int, j: int| 0 <= i < self@.len() && 0 <= j < self@[i].len()
                ==> (#[trigger] r@[i][j]) == ml_fix(self@[i][j], point@, var_index as nat),
            forall|i: int| 0 <= i < self@.len() ==> (#[trigger] r@[i]).len() == self@[i].len(),
            r.spec_n_vars() + 1 == self.spec_n_vars(),
            r.spec_degree() == self.spec_degree(),
    {
        let mut product_polynomials: Vec<ProductPolynomial> = Vec::new();
        let mut i: usize = 0;
        while i < self.product_polynomials.len()
            invariant
                self.wf(),
                (var_index as nat) < self.spec_n_vars(),
                i <= self@.len(),
                product_polynomials@.len() == i,
                forall|j: int| 0 <= j < i ==> (#[trigger] product_polynomials@[j]).wf(),
                forall|j: int| 0 <= j < i
                    ==> (#[trigger] product_polynomials@[j])@.len() == self@[j].len(),
                forall|j: int, k: int| 0 <= j < i && 0 <= k < self@[j].len()
                    ==> (#[trigger] product_polynomials@[j]@[k])
                        == ml_fix(self@[j][k], point@, var_index as nat),
                forall|j: int| 0 <= j < i
                    ==> (#[trigger] product_polynomials@[j])@[0].len()
                        == self@[0][0].len() / 2,
            decreases self@.len() - i,
        {
            proof {
                assert(self@[i as int] == self.product_polynomials@[i as int]@);
            }
            let fixed = self.product_polynomials[i].partial_evaluate(point, var_index);
            product_polynomials.push(fixed);
            i = i + 1;
        }
        let r = SumPolynomial { product_polynomials };
        proof {
            assert forall|i: int, j: int| 0 <= i < self@.len() && 0 <= j < self@[i].len()
                implies (#[trigger] r@[i][j])
                    == ml_fix(self@[i][j], point@, var_index as nat) by {
                assert(r@[i] == product_polynomials@[i]@);
            }
            assert forall|i: int| 0 <= i < r@.len() implies
                (#[trigger] r@[i]).len() == r@[0].len()
                && (#[trigger] r@[i])[0].len() == r@[0][0].len() by {
                assert(r@[i] == product_polynomials@[i]@);
                assert(r@[0] == product_polynomials@[0]@);
            }
            assert(r@[0][0].len() == self@[0][0].len() / 2);
        }
        r
    }

    /// Fixes several variables in every product, by decreasing variable
    /// index; indices must be distinct and in range.
    pub fn partial_evaluate_many_vars(&self, points: &[(FieldElement, usize)]) -> (r:
        SumPolynomial)
        requires
            self.wf(),
            points@.len() <= self.spec_n_vars(),
            forall|q: int| 0 <= q < points@.len()
                ==> ((#[trigger] points@[q]).1 as nat) < self.spec_n_vars(),
            forall|q: int, k: int| 0 <= q < k < points@.len()
                ==> points@[q].1 != points@[k].1,
        ensures
            r.wf(),
            r@.len() == self@.len(),
            forall|i: int, j: int| 0 <= i < self@.len() && 0 <= j < self@[i].len()
                ==> (#[trigger] r@[i][j])
                    == fix_list(self@[i][j], sort_desc(pt_views(points@))),
            forall|i: int| 0 <= i < self@.len() ==> (#[trigger] r@[i]).len() == self@[i].len(),
            r.spec_n_vars() + points@.len() == self.spec_n_vars(),
            r.spec_degree() == self.spec_degree(),
    {
        let mut product_polynomials: Vec<ProductPolynomial> = Vec::new();
        let mut i: usize = 0;
        while i < self.product_polynomials.len()
            invariant
                self.wf(),
                points@.len() <= self.spec_n_vars(),
                forall|q: int| 0 <= q < points@.len()
                    ==> ((#[trigger] points@[q]).1 as nat) < self.spec_n_vars(),
                forall|q: int, k: int| 0 <= q < k < points@.len()
                    ==> points@[q].1 != points@[k].1,
                i <= self@.len(),
                product_polynomials@.len() == i,
                forall|j: int| 0 <= j < i ==> (#[trigger] product_polynomials@[j]).wf(),
                forall|j: int| 0 <= j < i
                    ==> (#[trigger] product_polynomials@[j])@.len() == self@[j].len(),
                forall|j: int, k: int| 0 <= j < i && 0 <= k < self@[j].len()
                    ==> (#[trigger] product_polynomials@[j]@[k])
                        == fix_list(self@[j][k], sort_desc(pt_views(points@))),
                forall|j: int| 0 <= j < i
                    ==> lg((#[trigger] product_polynomials@[j])@[0].len())
                        + points@.len() == self.spec_n_vars(),
                forall|j: int, k: int| 0 <= j < i && 0 <= k < i
                    ==> (#[trigger] product_polynomials@[j])@[0].len()
                        == (#[trigger] product_polynomials@[k])@[0].len(),
            decreases self@.len() - i,
        {
            proof {
                assert(self@[i as int] == self.product_polynomials@[i as int]@);
            }
            let fixed = self.product_polynomials[i].partial_evaluate_many_vars(points);
            product_polynomials.push(fixed);
            i = i + 1;
            proof {
                assert forall|j: int, k: int| 0 <= j < i && 0 <= k < i implies
                    (#[trigger] product_polynomials@[j])@[0].len()
                        == (#[trigger] product_polynomials@[k])@[0].len() by {
                    assert(product_polynomials@[j].wf() && product_polynomials@[k].wf());
                    assert(lg(product_polynomials@[j]@[0].len())
                        == lg(product_polynomials@[k]@[0].len()));
                }
            }
        }
        let r = SumPolynomial { product_polynomials };
        proof {
            assert forall|i: int, j: int| 0 <= i < self@.len() && 0 <= j < self@[i].len()
                implies (#[trigger] r@[i][j])
                    == fix_list(self@[i][j], sort_desc(pt_views(points@))) by {
                assert(r@[i] == product_polynomials@[i]@);
            }
            assert forall|i: int| 0 <= i < r@.len() implies
                (#[trigger] r@[i]).len() == r@[0].len()
                && (#[trigger] r@[i])[0].len() == r@[0][0].len() by {
                assert(r@[i] == product_polynomials@[i]@);
                assert(r@[0] == product_polynomials@[0]@);
            }
        }
        r
    }

    /// Reduces every product to one multilinear polynomial and adds the
    /// results elementwise; needs at least two products of arity at least
    /// two.
    pub fn element_wise_add(&self) -> (r: MultilinearPolynomial)
        requires
            self.wf(),
            self@.len() >= 2,
            self.spec_degree() >= 2,
        ensures
            r.wf(),
            r@ == pw_sum(self@),
            r@.len() == self@[0][0].len(),
    {
        proof {
            assert(self@[0] == self.product_polynomials@[0]@);
        }
        let mut acc = self.product_polynomials[0].element_wise_mul();
        let mut i: usize = 1;
        proof {
            assert(self@.take(1int).len() == 1);
            assert(self@.take(1int)[0] == self@[0]);
            assert(pw_sum(self@.take(1int)) == pw_mul(self@[0]));
        }
        while i < self.product_polynomials.len()
            invariant
                self.wf(),
                self.spec_degree() >= 2,
                1 <= i <= self@.len(),
                acc.wf(),
                acc@ == pw_sum(self@.take(i as int)),
                acc@.len() == self@[0][0].len(),
            decreases self@.len() - i,
        {
            proof {
                assert(self@[i as int] == self.product_polynomials@[i as int]@);
            }
            let reduced = self.product_polynomials[i].element_wise_mul();
            let next = acc.tensor_add(&reduced);
            proof {
                assert(self@.take(i as int + 1).drop_last() =~= self@.take(i as int));
                assert(self@.take(i as int + 1).last() == self@[i as int]);
                assert(next@ =~= pw_sum(self@.take(i as int + 1)));
            }
            acc = next;
            i = i + 1;
        }
        proof {
            assert(self@.take(self@.len() as int) =~= self@);
        }
        acc
    }

    /// The evaluation table of the elementwise sum of products.
    pub fn reduce(&self) -> (r: Vec<FieldElement>)
        requires
            self.wf(),
            self@.len() >= 2,
            self.spec_degree() >= 2,
        ensures
            fe_views(r@) == pw_sum(self@),
    {
        let reduced = self.element_wise_add();
        reduced.evals
    }

    /// Serializes the products in order.
    pub fn to_bytes(&self) -> (r: Vec<u8>)
        ensures
            r@ == products_bytes(self@),
    {
        let mut out: Vec<u8> = Vec::new();
        let mut i: usize = 0;
        while i < self.product_polynomials.len()
            invariant
                i <= self@.len(),
                out@ == products_bytes(self@.take(i as int)),
            decreases self@.len() - i,
        {
            proof {
                assert(self@[i as int] == self.product_polynomials@[i as int]@);
            }
            let mut bytes = self.product_polynomials[i].to_bytes();
            out.append(&mut bytes);
            i = i + 1;
            proof {
                assert(self@.take(i as int).drop_last() =~= self@.take(i as int - 1));
                assert(self@.take(i as int).last() == self@[i as int - 1]);
            }
        }
        proof {
            assert(self@.take(self@.len() as int) =~= self@);
        }
        out
    }
}

} // verus!
