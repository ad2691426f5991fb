//! Product polynomials: the pointwise product of several multilinear
//! polynomials over the same variables.

use crate::field::{fmul, fe_views, fe_seq_bytes, FieldElement, MODULUS};
use crate::multilinear::{fix_list, is_pow2, lg, ml_eval, ml_fix, pt_views, sort_desc,
    MultilinearPolynomial};
use vstd::prelude::*;

verus! {

/// The value of a product of tables at a point.
pub open spec fn prod_eval(ps: Seq<Seq<int>>, pt: Seq<int>) -> int
    decreases ps.len(),
{
    if ps.len() == 0 {
        1
    } else {
        fmul(prod_eval(ps.drop_last(), pt), ml_eval(ps.last(), pt))
    }
}

/// The pointwise product of a non-empty family of tables.
pub open spec fn pw_mul(ps: Seq<Seq<int>>) -> Seq<int>
    recommends
        ps.len() >= 1,
    decreases ps.len(),
{
    if ps.len() <= 1 {
        ps[0]
    } else {
        let rest = pw_mul(ps.drop_last());
        Seq::new(rest.len(), |i: int| fmul(rest[i], ps.last()[i]))
    }
}

/// The concatenated serializations of a family of tables.
pub open spec fn tables_bytes(ps: Seq<Seq<int>>) -> Seq<u8>
    decreases ps.len(),
{
    if ps.len() == 0 {
        Seq::empty()
    } else {
        tables_bytes(ps.drop_last()) + fe_seq_bytes(ps.last())
    }
}

/// A pointwise product of multilinear polynomials that all share the same
/// number of variables.
#[derive(Clone, Debug)]
pub struct ProductPolynomial {
    pub polynomials: Vec<MultilinearPolynomial>,
}

impl View for ProductPolynomial {
    type V = Seq<Seq<int>>;

    open spec fn view(&self) -> Seq<Seq<int>> {
        self.polynomials@.map(|i: int, p: MultilinearPolynomial| p@)
    }
}

impl ProductPolynomial {
    /// At least one factor; all factors share one table length, a power of
    /// two.
    pub open spec fn wf(self) -> bool {
        &&& self@.len() >= 1
        &&& forall|i: int| 0 <= i < self@.len()
            ==> is_pow2((#[trigger] self@[i]).len()) && self@[i].len() == self@[0].len()
    }

    /// The common number of variables of the factors.
    pub open spec fn spec_n_vars(self) -> nat {
        lg(self@[0].len())
    }

    /// Wraps a non-empty family of multilinear polynomials over the same
    /// variables.
    pub fn new(polynomials: Vec<MultilinearPolynomial>) -> (r: ProductPolynomial)
        requires
            polynomials@.len() >= 1,
            forall|i: int| 0 <= i < polynomials@.len() ==> (#[trigger] polynomials@[i]).wf(),
            forall|i: int| 0 <= i < polynomials@.len()
                ==> (#[trigger] polynomials@[i])@.len() == polynomials@[0]@.len(),
        ensures
            r.wf(),
            r@ == polynomials@.map(|i: int, p: MultilinearPolynomial| p@),
    {
        ProductPolynomial { polynomials }
    }

    /// The number of factors: the degree the product contributes to each
    /// variable.
    pub fn degree(&self) -> (r: usize)
        ensures
            r == self@.len(),
    {
        self.polynomials.len()
    }

    /// The common number of variables.
    pub fn n_vars(&self) -> (r: usize)
        requires
            self.wf(),
        ensures
            r as nat == self.spec_n_vars(),
    {
        self.polynomials[0].n_vars()
    }

    /// Evaluates the product: the product of the factors' evaluations.
    pub fn evaluate(&self, points: &[FieldElement]) -> (r: FieldElement)
        requires
            self.wf(),
            points@.len() == self.spec_n_vars(),
        ensures
            r@ == prod_eval(self@, fe_views(points@)),
    {
        let mut acc = FieldElement::one();
        let mut i: usize = 0;
        proof {
            assert(self@.take(0int) =~= Seq::<Seq<int>>::empty());
        }
        while i < self.polynomials.len()
            invariant
                self.wf(),
                points@.len() == self.spec_n_vars(),
                i <= self@.len(),
                acc@ == prod_eval(self@.take(i as int), fe_views(points@)),
            decreases self@.len() - i,
        {
            proof {
                assert(self@[i as int] == self.polynomials@[i as int]@);
            }
            let v = self.polynomials[i].evaluate(points);
            proof {
                assert(self@.take(i as int + 1).drop_last() =~= self@.take(i as int));
                assert(self@.take(i as int + 1).last() == self@[i as int]);
            }
            acc = acc.mul(v);
            i = i + 1;
        }
        proof {
            assert(self@.take(self@.len() as int) =~= self@);
        }
        acc
    }

    /// Fixes one variable in every factor.
    pub fn partial_evaluate(&self, point: FieldElement, var_index: usize) -> (r:
        ProductPolynomial)
        requires
            self.wf(),
            (var_index as nat) < self.spec_n_vars(),
        ensures
            r.wf(),
            r@.len() == self@.len(),
            forall|i: int| 0 <= i < self@.len()
                ==> r@[i] == ml_fix(self@[i], point@, var_index as nat),
            r.spec_n_vars() + 1 == self.spec_n_vars(),
    {
        let mut polynomials: Vec<MultilinearPolynomial> = Vec::new();
        let mut i: usize = 0;
        while i < self.polynomials.len()
            invariant
                self.wf(),
                (var_index as nat) < self.spec_n_vars(),
                i <= self@.len(),
                polynomials@.len() == i,
                forall|j: int| 0 <= j < i ==> (#[trigger] polynomials@[j]).wf(),
                forall|j: int| 0 <= j < i
                    ==> (#[trigger] polynomials@[j])@
                        == ml_fix(self@[j], point@, var_index as nat),
                forall|j: int| 0 <= j < i
                    ==> (#[trigger] polynomials@[j])@.len() == self@[0].len() / 2,
            decreases self@.len() - i,
        {
            proof {
                assert(self@[i as int] == self.polynomials@[i as int]@);
            }
            let fixed = self.polynomials[i].partial_evaluate(point, var_index);
            polynomials.push(fixed);
            i = i + 1;
        }
        let r = ProductPolynomial { polynomials };
        proof {
            assert forall|j: int| 0 <= j < r@.len() implies
                r@[j] == ml_fix(self@[j], point@, var_index as nat) by {
                assert(r@[j] == polynomials@[j]@);
            }
            assert(r@[0].len() == self@[0].len() / 2);
        }
        r
    }

    /// Fixes several variables in every factor, by decreasing variable
    /// index; indices must be distinct and in range.
    pub fn partial_evaluate_many_vars(&self, points: &[(FieldElement, usize)]) -> (r:
        ProductPolynomial)
        requires
            self.wf(),
            points@.len() <= self.spec_n_vars(),
            forall|q: int| 0 <= q < points@.len()
                ==> ((#[trigger] points@[q]).1 as nat) < self.spec_n_vars(),
            forall|q: int, k: int| 0 <= q < k < points@.len()
                ==> points@[q].1 != points@[k].1,
        ensures
            r.wf(),
            r@.len() == self@.len(),
            forall|i: int| 0 <= i < self@.len()
                ==> r@[i] == fix_list(self@[i], sort_desc(pt_views(points@))),
            r.spec_n_vars() + points@.len() == self.spec_n_vars(),
    {
        let mut polynomials: Vec<MultilinearPolynomial> = Vec::new();
        let mut i: usize = 0;
        while i < self.polynomials.len()
            invariant
                self.wf(),
                points@.len() <= self.spec_n_vars(),
                forall|q: int| 0 <= q < points@.len()
                    ==> ((#[trigger] points@[q]).1 as nat) < self.spec_n_vars(),
                forall|q: int, k: int| 0 <= q < k < points@.len()
                    ==> points@[q].1 != points@[k].1,
                i <= self@.len(),
                polynomials@.len() == i,
                forall|j: int| 0 <= j < i ==> (#[trigger] polynomials@[j]).wf(),
                forall|j: int| 0 <= j < i
                    ==> (#[trigger] polynomials@[j])@
                        == fix_list(self@[j], sort_desc(pt_views(points@))),
                forall|j: int| 0 <= j < i
                    ==> lg((#[trigger] polynomials@[j])@.len()) + points@.len()
                        == self.spec_n_vars(),
                forall|j: int, k: int| 0 <= j < k < i
                    ==> (#[trigger] polynomials@[j])@.len()
                        == (#[trigger] polynomials@[k])@.len(),
            decreases self@.len() - i,
        {
            proof {
                assert(self@[i as int] == self.polynomials@[i as int]@);
            }
            let fixed = self.polynomials[i].partial_evaluate_many_vars(points);
            polynomials.push(fixed);
            i = i + 1;
            proof {
                // All results so far have the same length: they all have the
                // same number of variables and lengths are powers of two.
                assert forall|j: int, k: int| 0 <= j < k < i implies
                    (#[trigger] polynomials@[j])@.len()
                        == (#[trigger] polynomials@[k])@.len() by {
                    assert(lg(polynomials@[j]@.len()) == lg(polynomials@[k]@.len()));
                    assert(polynomials@[j].wf() && polynomials@[k].wf());
                }
            }
        }
        let r = ProductPolynomial { polynomials };
        proof {
            assert forall|j: int| 0 <= j < r@.len() implies
                r@[j] == fix_list(self@[j], sort_desc(pt_views(points@))) by {
                assert(r@[j] == polynomials@[j]@);
            }
            assert forall|j: int| 0 <= j < r@.len() implies
                is_pow2((#[trigger] r@[j]).len()) && r@[j].len() == r@[0].len() by {
                assert(r@[j] == polynomials@[j]@);
                assert(polynomials@[j].wf());
            }
        }
        r
    }

    /// Multiplies all factors together elementwise into one multilinear
    /// polynomial; needs at least two factors.
    pub fn element_wise_mul(&self) -> (r: MultilinearPolynomial)
        requires
            self.wf(),
            self@.len() >= 2,
        ensures
            r.wf(),
            r@ == pw_mul(self@),
            r@.len() == self@[0].len(),
    {
        let mut acc = MultilinearPolynomial::new_copy(&self.polynomials[0]);
        let mut i: usize = 1;
        proof {
            assert(self@.take(1int).len() == 1);
            assert(self@.take(1int)[0] == self@[0]);
            assert(pw_mul(self@.take(1int)) == self@[0]);
        }
        while i < self.polynomials.len()
            invariant
                self.wf(),
                1 <= i <= self@.len(),
                acc.wf(),
                acc@ == pw_mul(self@.take(i as int)),
                acc@.len() == self@[0].len(),
            decreases self@.len() - i,
        {
            proof {
                assert(self@[i as int] == self.polynomials@[i as int]@);
            }
            let next = acc.tensor_mul(&self.polynomials[i]);
            proof {
                assert(self@.take(i as int + 1).drop_last() =~= self@.take(i as int));
                assert(self@.take(i as int + 1).last() == self@[i as int]);
                assert(next@ =~= pw_mul(self@.take(i as int + 1)));
            }
            acc = next;
            i = i + 1;
        }
        proof {
            assert(self@.take(self@.len() as int) =~= self@);
        }
        acc
    }

    /// The evaluation table of the elementwise product.
    pub fn reduce(&self) -> (r: Vec<FieldElement>)
        requires
            self.wf(),
            self@.len() >= 2,
        ensures
            fe_views(r@) == pw_mul(self@),
    {
        let reduced = self.element_wise_mul();
        reduced.evals
    }

    /// Serializes the factors in order.
    pub fn to_bytes(&self) -> (r: Vec<u8>)
        ensures
            r@ == tables_bytes(self@),
    {
        let mut out: Vec<u8> = Vec::new();
        let mut i: usize = 0;
        while i < self.polynomials.len()
            invariant
                i <= self@.len(),
                out@ == tables_bytes(self@.take(i as int)),
            decreases self@.len() - i,
        {
            proof {
                assert(self@[i as int] == self.polynomials@[i as int]@);
            }
            let mut bytes = self.polynomials[i].to_bytes();
            out.append(&mut bytes);
            i = i + 1;
            proof {
                assert(self@.take(i as int).drop_last() =~= self@.take(i as int - 1));
                assert(self@.take(i as int).last() == self@[i as int - 1]);
            }
        }
        proof {
            assert(self@.take(self@.len() as int) =~= self@);
        }
        out
    }
}

impl PartialEq for ProductPolynomial {
    /// Structural equality of the factor lists.
    fn eq(&self, other: &ProductPolynomial) -> (r: bool) {
        if self.polynomials.len() != other.polynomials.len() {
            return false;
        }
        let mut i: usize = 0;
        while i < self.polynomials.len()
            invariant
                i <= self.polynomials@.len(),
                self.polynomials@.len() == other.polynomials@.len(),
                forall|j: int| 0 <= j < i
                    ==> (#[trigger] self.polynomials@[j]).evals@
                        == (#[trigger] other.polynomials@[j]).evals@,
            decreases self.polynomials@.len() - i,
        {
            if !(self.polynomials[i] == other.polynomials[i]) {
                return false;
            }
            i = i + 1;
        }
        true
    }
}

impl vstd::std_specs::cmp::PartialEqSpecImpl for ProductPolynomial {
    open spec fn obeys_eq_spec() -> bool {
        true
    }

    open spec fn eq_spec(&self, other: &ProductPolynomial) -> bool {
        &&& self.polynomials@.len() == other.polynomials@.len()
        &&& forall|j: int| 0 <= j < self.polynomials@.len()
            ==> (#[trigger] self.polynomials@[j]).evals@
                == (#[trigger] other.polynomials@[j]).evals@
    }
}

} // verus!
