//! Dense univariate polynomials in coefficient form, with Lagrange
//! interpolation through given points. These carry the sumcheck round
//! polynomials.

use crate::field::{fadd, fmul, fneg, finv, fe_views, fe_seq_bytes, FieldElement, MODULUS};
use vstd::prelude::*;

verus! {

/// The value of a coefficient list at `x`: `c[0] + x * (c[1] + x * ...)`.
pub open spec fn horner(c: Seq<int>, x: int) -> int
    decreases c.len(),
{
    if c.len() == 0 {
        0
    } else {
        fadd(c[0], fmul(x, horner(c.skip(1), x)))
    }
}

/// A coefficient read as zero beyond the end of the list.
pub open spec fn coeff_or_zero(c: Seq<int>, i: int) -> int {
    if 0 <= i < c.len() {
        c[i]
    } else {
        0
    }
}

/// The coefficient list of the sum of two polynomials.
pub open spec fn poly_add(a: Seq<int>, b: Seq<int>) -> Seq<int> {
    Seq::new(if a.len() >= b.len() { a.len() } else { b.len() },
        |i: int| fadd(coeff_or_zero(a, i), coeff_or_zero(b, i)))
}

/// The first `up` summands of coefficient `k` of a product of polynomials.
pub open spec fn conv_sum(a: Seq<int>, b: Seq<int>, k: int, up: int) -> int
    decreases up,
{
    if up <= 0 {
        0
    } else {
        fadd(
            conv_sum(a, b, k, up - 1),
            if 0 <= k - (up - 1) < b.len() {
                fmul(a[up - 1], b[k - (up - 1)])
            } else {
                0
            },
        )
    }
}

/// The coefficient list of the product of two non-empty polynomials.
pub open spec fn poly_mul(a: Seq<int>, b: Seq<int>) -> Seq<int>
    recommends
        a.len() >= 1,
        b.len() >= 1,
{
    Seq::new((a.len() + b.len() - 1) as nat, |k: int| conv_sum(a, b, k, a.len() as int))
}

/// The coefficient list scaled by a constant.
pub open spec fn poly_scalar(c: Seq<int>, s: int) -> Seq<int> {
    Seq::new(c.len(), |i: int| fmul(c[i], s))
}

/// The product of the linear factors `(X - x')` over the nodes `x'` of the
/// interpolating set that differ from `x`, taken in order.
pub open spec fn basis_numer(x: int, set: Seq<int>) -> Seq<int>
    decreases set.len(),
{
    if set.len() == 0 {
        seq![1int]
    } else {
        let rest = basis_numer(x, set.drop_last());
        if set.last() == x {
            rest
        } else {
            poly_mul(rest, seq![fneg(set.last()), 1int])
        }
    }
}

/// The Lagrange basis polynomial for node `x`: the factor product scaled by
/// the inverse of its own value at `x`.
pub open spec fn basis_poly(x: int, set: Seq<int>) -> Seq<int> {
    poly_scalar(basis_numer(x, set), finv(horner(basis_numer(x, set), x)))
}

/// The partial Lagrange interpolation through the first `k` nodes.
pub open spec fn interp_upto(xs: Seq<int>, ys: Seq<int>, k: int) -> Seq<int>
    decreases k,
{
    if k <= 0 {
        seq![0int]
    } else {
        poly_add(interp_upto(xs, ys, k - 1), poly_scalar(basis_poly(xs[k - 1], xs), ys[k - 1]))
    }
}

/// The Lagrange interpolation through all given nodes and values.
pub open spec fn interp_poly(xs: Seq<int>, ys: Seq<int>) -> Seq<int> {
    interp_upto(xs, ys, xs.len() as int)
}

/// Every partial convolution sum is canonical.
pub proof fn lemma_conv_canonical(a: Seq<int>, b: Seq<int>, k: int, up: int)
    ensures
        crate::field::in_field(conv_sum(a, b, k, up)),
{
    if up <= 0 {
    } else {
        vstd::arithmetic::div_mod::lemma_mod_bound(
            conv_sum(a, b, k, up - 1) + (if 0 <= k - (up - 1) < b.len() {
                fmul(a[up - 1], b[k - (up - 1)])
            } else {
                0
            }),
            MODULUS as int,
        );
    }
}

/// A dense univariate polynomial: one coefficient for each power of `x`,
/// starting from the constant term.
#[derive(Clone, Debug)]
pub struct DenseUnivariatePolynomial {
    pub coefficients: Vec<FieldElement>,
}

impl View for DenseUnivariatePolynomial {
    type V = Seq<int>;

    open spec fn view(&self) -> Seq<int> {
        fe_views(self.coefficients@)
    }
}

impl DenseUnivariatePolynomial {
    /// Wraps a coefficient list.
    pub fn new(coefficients: Vec<FieldElement>) -> (r: DenseUnivariatePolynomial)
        ensures
            r@ == fe_views(coefficients@),
    {
        DenseUnivariatePolynomial { coefficients }
    }

    /// The degree bound: one less than the number of stored coefficients.
    pub fn degree(&self) -> (r: usize)
        requires
            self@.len() >= 1,
        ensures
            r == self@.len() - 1,
    {
        self.coefficients.len() - 1
    }

    /// A copy with the same coefficients.
    pub fn new_copy(other: &DenseUnivariatePolynomial) -> (r: DenseUnivariatePolynomial)
        ensures
            r@ == other@,
    {
        let mut coefficients: Vec<FieldElement> = Vec::new();
        let mut i: usize = 0;
        while i < other.coefficients.len()
            invariant
                i <= other.coefficients@.len(),
                coefficients@ == other.coefficients@.take(i as int),
            decreases other.coefficients@.len() - i,
        {
            coefficients.push(other.coefficients[i]);
            i = i + 1;
        }
        proof {
            assert(other.coefficients@.take(other.coefficients@.len() as int)
                =~= other.coefficients@);
        }
        DenseUnivariatePolynomial { coefficients }
    }

    /// Multiplies every coefficient by `scalar`.
    pub fn scalar_mul(&self, scalar: FieldElement) -> (r: DenseUnivariatePolynomial)
        ensures
            r@ == poly_scalar(self@, scalar@),
    {
        let mut coefficients: Vec<FieldElement> = Vec::new();
        let mut i: usize = 0;
        while i < self.coefficients.len()
            invariant
                i <= self.coefficients@.len(),
                coefficients@.len() == i,
                forall|j: int| 0 <= j < i
                    ==> (#[trigger] coefficients@[j])@
                        == fmul(self.coefficients@[j]@, scalar@),
            decreases self.coefficients@.len() - i,
        {
            coefficients.push(self.coefficients[i].mul(scalar));
            i = i + 1;
        }
        let r = DenseUnivariatePolynomial { coefficients };
        proof {
            assert forall|j: int| 0 <= j < r@.len()
                implies r@[j] == fmul(self@[j], scalar@) by {
                assert(r@[j] == coefficients@[j]@);
                assert(self@[j] == self.coefficients@[j]@);
            }
            assert(r@ =~= poly_scalar(self@, scalar@));
        }
        r
    }

    /// Evaluates the polynomial at `x` by Horner's rule.
    pub fn evaluate(&self, x: FieldElement) -> (r: FieldElement)
        requires
            self@.len() >= 1,
        ensures
            r@ == horner(self@, x@),
    {
        let n = self.coefficients.len();
        let mut acc = self.coefficients[n - 1];
        let mut i: usize = n - 1;
        proof {
            use_type_invariant(acc);
            acc.lemma_wf_canonical();
            crate::field::lemma_mod_small(acc@);
            assert(self@.skip(n as int - 1).len() == 1);
            assert(self@.skip(n as int - 1)[0] == self@[n as int - 1]);
            assert(self@.skip(n as int - 1).skip(1) =~= Seq::<int>::empty());
            assert(horner(Seq::<int>::empty(), x@) == 0);
            assert(horner(self@.skip(n as int - 1), x@)
                == fadd(self@[n as int - 1], fmul(x@, 0)));
        }
        while i > 0
            invariant
                i < self@.len(),
                acc@ == horner(self@.skip(i as int), x@),
            decreases i,
        {
            i = i - 1;
            let next = acc.mul(x).add(self.coefficients[i]);
            proof {
                let tail = self@.skip(i as int);
                assert(tail[0] == self@[i as int]);
                assert(tail.skip(1) =~= self@.skip(i as int + 1));
                vstd::arithmetic::mul::lemma_mul_is_commutative(acc@, x@);
            }
            acc = next;
            i = i;
        }
        proof {
            assert(self@.skip(0int) =~= self@);
        }
        acc
    }

    /// Adds two polynomials coefficientwise, keeping the longer tail.
    pub fn add(&self, other: &DenseUnivariatePolynomial) -> (r: DenseUnivariatePolynomial)
        ensures
            r@ == poly_add(self@, other@),
    {
        let (longer, shorter) = if self.coefficients.len() < other.coefficients.len() {
            (other, self)
        } else {
            (self, other)
        };
        let mut coefficients: Vec<FieldElement> = Vec::new();
        let mut i: usize = 0;
        while i < shorter.coefficients.len()
            invariant
                shorter.coefficients@.len() <= longer.coefficients@.len(),
                i <= shorter.coefficients@.len(),
                coefficients@.len() == i,
                forall|j: int| 0 <= j < i
                    ==> (#[trigger] coefficients@[j])@
                        == fadd(longer.coefficients@[j]@, shorter.coefficients@[j]@),
            decreases shorter.coefficients@.len() - i,
        {
            coefficients.push(longer.coefficients[i].add(shorter.coefficients[i]));
            i = i + 1;
        }
        while i < longer.coefficients.len()
            invariant
                shorter.coefficients@.len() <= longer.coefficients@.len(),
                shorter.coefficients@.len() <= i <= longer.coefficients@.len(),
                coefficients@.len() == i,
                forall|j: int| 0 <= j < shorter.coefficients@.len()
                    ==> (#[trigger] coefficients@[j])@
                        == fadd(longer.coefficients@[j]@, shorter.coefficients@[j]@),
                forall|j: int| shorter.coefficients@.len() <= j < i
                    ==> (#[trigger] coefficients@[j]) == longer.coefficients@[j]
                        && crate::field::in_field(coefficients@[j]@),
            decreases longer.coefficients@.len() - i,
        {
            let e = longer.coefficients[i];
            proof {
                use_type_invariant(e);
                e.lemma_wf_canonical();
            }
            coefficients.push(e);
            i = i + 1;
        }
        let r = DenseUnivariatePolynomial { coefficients };
        proof {
            assert forall|j: int| 0 <= j < r@.len()
                implies r@[j] == fadd(coeff_or_zero(longer@, j), coeff_or_zero(shorter@, j)) by {
                assert(r@[j] == coefficients@[j]@);
                assert(longer@[j] == longer.coefficients@[j]@);
                if j < shorter.coefficients@.len() {
                    assert(shorter@[j] == shorter.coefficients@[j]@);
                } else {
                    // Past the shorter list the longer coefficients are kept;
                    // they are canonical, so adding zero leaves them unchanged.
                    crate::field::lemma_mod_small(coefficients@[j]@);
                }
            }
            assert forall|j: int| 0 <= j < r@.len()
                implies r@[j] == poly_add(self@, other@)[j] by {
                vstd::arithmetic::div_mod::lemma_add_mod_noop(
                    coeff_or_zero(longer@, j), coeff_or_zero(shorter@, j), MODULUS as int);
                vstd::arithmetic::div_mod::lemma_add_mod_noop(
                    coeff_or_zero(shorter@, j), coeff_or_zero(longer@, j), MODULUS as int);
            }
            assert(r@ =~= poly_add(self@, other@));
        }
        r
    }

    /// Multiplies two polynomials: the coefficient at `k` is the sum of all
    /// products of coefficients whose powers add to `k`.
    pub fn mul(&self, other: &DenseUnivariatePolynomial) -> (r: DenseUnivariatePolynomial)
        requires
            self@.len() >= 1,
            other@.len() >= 1,
            self@.len() + other@.len() <= usize::MAX,
        ensures
            r@ == poly_mul(self@, other@),
            r@.len() == self@.len() + other@.len() - 1,
    {
        let n = self.coefficients.len();
        let m = other.coefficients.len();
        let mut coefficients: Vec<FieldElement> = Vec::new();
        let mut k: usize = 0;
        while k < n + m - 1
            invariant
                n >= 1,
                k <= n + m - 1,
                n + m <= usize::MAX,
                coefficients@.len() == k,
                forall|q: int| 0 <= q < k ==> (#[trigger] coefficients@[q])@ == 0,
            decreases n + m - 1 - k,
        {
            coefficients.push(FieldElement::zero());
            k = k + 1;
        }
        let ghost av = self@;
        let ghost bv = other@;
        let mut i: usize = 0;
        proof {
            assert forall|q: int| 0 <= q < coefficients@.len() implies
                (#[trigger] coefficients@[q])@ == conv_sum(av, bv, q, 0int) by {}
        }
        while i < n
            invariant
                av == self@,
                bv == other@,
                n == self.coefficients@.len(),
                m == other.coefficients@.len(),
                n >= 1 && m >= 1,
                n + m - 1 <= usize::MAX,
                i <= n,
                coefficients@.len() == n + m - 1,
                forall|q: int| 0 <= q < n + m - 1
                    ==> (#[trigger] coefficients@[q])@ == conv_sum(av, bv, q, i as int),
            decreases n - i,
        {
            let mut j: usize = 0;
            while j < m
                invariant
                    av == self@,
                    bv == other@,
                    n == self.coefficients@.len(),
                    m == other.coefficients@.len(),
                    n >= 1 && m >= 1,
                    n + m - 1 <= usize::MAX,
                    i < n,
                    j <= m,
                    coefficients@.len() == n + m - 1,
                    forall|q: int| i <= q < i + j
                        ==> (#[trigger] coefficients@[q])@ == conv_sum(av, bv, q, i as int + 1),
                    forall|q: int| 0 <= q < n + m - 1 && !(i <= q < i + j)
                        ==> (#[trigger] coefficients@[q])@ == conv_sum(av, bv, q, i as int),
                decreases m - j,
            {
                let idx = i + j;
                let prod = self.coefficients[i].mul(other.coefficients[j]);
                let updated = coefficients[idx].add(prod);
                coefficients[idx] = updated;
                proof {
                    assert(av[i as int] == self.coefficients@[i as int]@);
                    assert(bv[j as int] == other.coefficients@[j as int]@);
                    assert(conv_sum(av, bv, idx as int, i as int + 1)
                        == fadd(conv_sum(av, bv, idx as int, i as int),
                            fmul(av[i as int], bv[j as int])));
                }
                j = j + 1;
            }
            i = i + 1;
            proof {
                // Positions outside the touched band gain a zero summand.
                assert forall|q: int| 0 <= q < n + m - 1 implies
                    (#[trigger] coefficients@[q])@ == conv_sum(av, bv, q, i as int) by {
                    if !(i - 1 <= q < i - 1 + m) {
                        lemma_conv_canonical(av, bv, q, i as int - 1);
                        crate::field::lemma_mod_small(conv_sum(av, bv, q, i as int - 1));
                        assert(conv_sum(av, bv, q, i as int)
                            == fadd(conv_sum(av, bv, q, i as int - 1), 0));
                    }
                }
            }
        }
        let r = DenseUnivariatePolynomial { coefficients };
        proof {
            assert forall|q: int| 0 <= q < r@.len() implies
                r@[q] == poly_mul(av, bv)[q] by {
                assert(r@[q] == coefficients@[q]@);
            }
            assert(r@ =~= poly_mul(av, bv));
        }
        r
    }

    /// The Lagrange basis polynomial for node `x` within the interpolating
    /// set: the normalized product of `(X - x')` over the other nodes.
    pub fn basis(x: FieldElement, interpolating_set: &[FieldElement]) -> (r:
        DenseUnivariatePolynomial)
        requires
            interpolating_set@.len() + 2 <= usize::MAX,
        ensures
            r@ == basis_poly(x@, fe_views(interpolating_set@)),
    {
        let mut numerators = DenseUnivariatePolynomial { coefficients: Vec::new() };
        numerators.coefficients.push(FieldElement::one());
        let mut i: usize = 0;
        proof {
            assert(fe_views(interpolating_set@).take(0int) =~= Seq::<int>::empty());
            assert(numerators@ =~= seq![1int]);
        }
        while i < interpolating_set.len()
            invariant
                interpolating_set@.len() + 2 <= usize::MAX,
                i <= interpolating_set@.len(),
                numerators@ == basis_numer(x@, fe_views(interpolating_set@).take(i as int)),
                1 <= numerators@.len() <= i + 1,
            decreases interpolating_set@.len() - i,
        {
            let ghost pre = fe_views(interpolating_set@).take(i as int + 1);
            proof {
                assert(pre.drop_last() =~= fe_views(interpolating_set@).take(i as int));
                assert(pre.last() == interpolating_set@[i as int]@);
            }
            proof {
                FieldElement::lemma_view_injective(interpolating_set@[i as int], x);
            }
            if !(interpolating_set[i] == x) {
                let factor = DenseUnivariatePolynomial {
                    coefficients: vec![interpolating_set[i].neg(), FieldElement::one()],
                };
                proof {
                    assert(factor@ =~= seq![fneg(interpolating_set@[i as int]@), 1int]);
                }
                numerators = numerators.mul(&factor);
            }
            i = i + 1;
        }
        proof {
            assert(fe_views(interpolating_set@).take(interpolating_set@.len() as int)
                =~= fe_views(interpolating_set@));
        }
        let denominator = numerators.evaluate(x).inv();
        numerators.scalar_mul(denominator)
    }

    /// Interpolates the unique polynomial through the given nodes and
    /// values, as the value-weighted sum of the Lagrange basis polynomials.
    pub fn interpolate(xs: &[FieldElement], ys: &[FieldElement]) -> (r:
        DenseUnivariatePolynomial)
        requires
            xs@.len() == ys@.len(),
            xs@.len() + 2 <= usize::MAX,
        ensures
            r@ == interp_poly(fe_views(xs@), fe_views(ys@)),
    {
        let mut acc = DenseUnivariatePolynomial { coefficients: Vec::new() };
        acc.coefficients.push(FieldElement::zero());
        let mut i: usize = 0;
        proof {
            assert(acc@ =~= seq![0int]);
        }
        while i < xs.len()
            invariant
                xs@.len() == ys@.len(),
                xs@.len() + 2 <= usize::MAX,
                i <= xs@.len(),
                acc@ == interp_upto(fe_views(xs@), fe_views(ys@), i as int),
            decreases xs@.len() - i,
        {
            let term = DenseUnivariatePolynomial::basis(xs[i], xs).scalar_mul(ys[i]);
            proof {
                assert(fe_views(xs@)[i as int] == xs@[i as int]@);
                assert(fe_views(ys@)[i as int] == ys@[i as int]@);
            }
            acc = acc.add(&term);
            i = i + 1;
        }
        acc
    }

    /// Interpolates through the nodes `0, 1, 2, ...` with the given values.
    pub fn interpolate_y(ys: Vec<FieldElement>) -> (r: DenseUnivariatePolynomial)
        requires
            ys@.len() < MODULUS,
            ys@.len() + 2 <= usize::MAX,
        ensures
            r@ == interp_poly(Seq::new(ys@.len(), |i: int| i), fe_views(ys@)),
    {
        let mut xs: Vec<FieldElement> = Vec::new();
        let mut i: usize = 0;
        while i < ys.len()
            invariant
                ys@.len() < MODULUS,
                i <= ys@.len(),
                xs@.len() == i,
                forall|j: int| 0 <= j < i ==> (#[trigger] xs@[j])@ == j,
            decreases ys@.len() - i,
        {
            xs.push(FieldElement::from_u64(i as u64));
            i = i + 1;
            proof {
                vstd::arithmetic::div_mod::lemma_small_mod((i - 1) as nat, MODULUS as nat);
            }
        }
        let r = DenseUnivariatePolynomial::interpolate(xs.as_slice(), ys.as_slice());
        proof {
            assert(fe_views(xs@) =~= Seq::new(ys@.len(), |j: int| j));
        }
        r
    }

    /// Serializes the coefficients in order.
    pub fn to_bytes(&self) -> (r: Vec<u8>)
        ensures
            r@ == fe_seq_bytes(self@),
    {
        let mut out: Vec<u8> = Vec::new();
        let mut i: usize = 0;
        while i < self.coefficients.len()
            invariant
                i <= self.coefficients@.len(),
                out@ == fe_seq_bytes(self@.take(i as int)),
            decreases self.coefficients@.len() - i,
        {
            let mut bytes = self.coefficients[i].to_be_bytes();
            out.append(&mut bytes);
            i = i + 1;
            proof {
                assert(self@.take(i as int).drop_last() =~= self@.take(i as int - 1));
            }
        }
        proof {
            assert(self@.take(self@.len() as int) =~= self@);
        }
        out
    }
}

impl PartialEq for DenseUnivariatePolynomial {
    /// Structural equality of the coefficient lists.
    fn eq(&self, other: &DenseUnivariatePolynomial) -> (r: bool) {
        if self.coefficients.len() != other.coefficients.len() {
            return false;
        }
        let mut i: usize = 0;
        while i < self.coefficients.len()
            invariant
                i <= self.coefficients@.len(),
                self.coefficients@.len() == other.coefficients@.len(),
                forall|j: int| 0 <= j < i
                    ==> self.coefficients@[j] == other.coefficients@[j],
            decreases self.coefficients@.len() - i,
        {
            if !(self.coefficients[i] == other.coefficients[i]) {
                return false;
            }
            i = i + 1;
        }
        proof {
            assert(self.coefficients@ =~= other.coefficients@);
        }
        true
    }
}

impl vstd::std_specs::cmp::PartialEqSpecImpl for DenseUnivariatePolynomial {
    open spec fn obeys_eq_spec() -> bool {
        true
    }

    open spec fn eq_spec(&self, other: &DenseUnivariatePolynomial) -> bool {
        self.coefficients@ == other.coefficients@
    }
}

} // verus!
