//! Multilinear polynomials in evaluation form: the table of values over the
//! Boolean hypercube `{0,1}^n`, stored as `2^n` field elements. Variable `0`
//! is the most significant address bit of the table index.

use crate::field::{fadd, fsub, fmul, fe_views, fe_seq_bytes, FieldElement, MODULUS};
use vstd::arithmetic::power2::pow2;
use vstd::prelude::*;

verus! {

/// Base-2 logarithm, rounded down; `lg(0) == 0`.
pub open spec fn lg(n: nat) -> nat
    decreases n,
{
    if n <= 1 {
        0
    } else {
        1 + lg(n / 2)
    }
}

/// Whether `n` is a power of two.
pub open spec fn is_pow2(n: nat) -> bool {
    n == pow2(lg(n))
}

/// `lg` inverts `pow2`.
pub proof fn lemma_lg_pow2(k: nat)
    ensures
        lg(pow2(k)) == k,
    decreases k,
{
    if k == 0 {
        vstd::arithmetic::power2::lemma2_to64();
    } else {
        vstd::arithmetic::power2::lemma_pow2_unfold(k);
        vstd::arithmetic::power2::lemma_pow2_pos((k - 1) as nat);
        lemma_lg_pow2((k - 1) as nat);
    }
}

/// The logarithm never exceeds its argument.
pub proof fn lemma_lg_le(n: nat)
    ensures
        lg(n) <= n,
    decreases n,
{
    if n > 1 {
        lemma_lg_le(n / 2);
    }
}

/// A power of two above one halves to a power of two.
pub proof fn lemma_pow2_halves(n: nat)
    requires
        is_pow2(n),
        n >= 2,
    ensures
        n % 2 == 0,
        is_pow2(n / 2),
        lg(n / 2) + 1 == lg(n),
        n / 2 == pow2((lg(n) - 1) as nat),
{
    if lg(n) == 0 {
    } else {
        vstd::arithmetic::power2::lemma_pow2_unfold(lg(n));
        lemma_lg_pow2((lg(n) - 1) as nat);
    }
}

/// `2^e`, computed executably.
pub fn pow2_exec(e: usize) -> (r: usize)
    requires
        pow2(e as nat) <= usize::MAX,
    ensures
        r as nat == pow2(e as nat),
{
    let mut r: usize = 1;
    let mut i: usize = 0;
    proof {
        vstd::arithmetic::power2::lemma2_to64();
    }
    while i < e
        invariant
            i <= e,
            r as nat == pow2(i as nat),
            pow2(e as nat) <= usize::MAX,
        decreases e - i,
    {
        proof {
            vstd::arithmetic::power2::lemma_pow2_adds(i as nat, 1);
            vstd::arithmetic::power2::lemma2_to64();
            if ((i + 1) as nat) < (e as nat) {
                vstd::arithmetic::power2::lemma_pow2_strictly_increases((i + 1) as nat, e as nat);
            }
        }
        r = r * 2;
        i = i + 1;
    }
    r
}

/// Linear interpolation `a + (b - a) * x` between two residues.
pub open spec fn lerp(a: int, b: int, x: int) -> int {
    fadd(a, fmul(fsub(b, a), x))
}

/// The evaluation table that results from fixing variable `v` to `x`.
///
/// With `n` variables, the two table entries that differ only in variable `v`
/// sit `stride = 2^(n - v - 1)` apart.
pub open spec fn ml_fix(e: Seq<int>, x: int, v: nat) -> Seq<int>
    recommends
        is_pow2(e.len()),
        v < lg(e.len()),
{
    let s = pow2((lg(e.len()) - v - 1) as nat) as int;
    Seq::new(
        e.len() / 2,
        |i: int| lerp(e[2 * s * (i / s) + i % s], e[2 * s * (i / s) + i % s + s], x),
    )
}

/// The value of the multilinear extension of table `e` at `pt`, reduced to
/// canonical form.
pub open spec fn ml_eval(e: Seq<int>, pt: Seq<int>) -> int
    recommends
        e.len() == pow2(pt.len()),
    decreases pt.len(),
{
    if pt.len() == 0 {
        e[0] % (MODULUS as int)
    } else {
        let h = e.len() as int / 2;
        fadd(
            fmul(fsub(1, pt[0]), ml_eval(e.take(h), pt.skip(1))),
            fmul(pt[0], ml_eval(e.skip(h), pt.skip(1))),
        )
    }
}

/// Fixes the listed variables in order: the head of the list first.
pub open spec fn fix_list(e: Seq<int>, ps: Seq<(int, nat)>) -> Seq<int>
    decreases ps.len(),
{
    if ps.len() == 0 {
        e
    } else {
        fix_list(ml_fix(e, ps[0].0, ps[0].1), ps.skip(1))
    }
}

/// Inserts a point into a list that is sorted by weakly decreasing variable
/// index, before the first entry with an index not above its own.
pub open spec fn insert_desc(p: (int, nat), s: Seq<(int, nat)>) -> Seq<(int, nat)>
    decreases s.len(),
{
    if s.len() == 0 {
        seq![p]
    } else if p.1 >= s[0].1 {
        seq![p] + s
    } else {
        seq![s[0]] + insert_desc(p, s.skip(1))
    }
}

/// Sorts a point list by decreasing variable index, by insertion.
pub open spec fn sort_desc(s: Seq<(int, nat)>) -> Seq<(int, nat)>
    decreases s.len(),
{
    if s.len() == 0 {
        s
    } else {
        insert_desc(s.last(), sort_desc(s.drop_last()))
    }
}

/// The views of a sequence of (value, variable index) pairs.
pub open spec fn pt_views(ps: Seq<(FieldElement, usize)>) -> Seq<(int, nat)> {
    ps.map(|i: int, p: (FieldElement, usize)| (p.0@, p.1 as nat))
}

/// Index algebra for `ml_fix`: for each output position `i`, the pair of
/// table entries it interpolates between lies inside the table.
pub proof fn lemma_fix_index(len: int, s: int, i: int)
    requires
        s >= 1,
        len >= 2,
        len % 2 == 0,
        (len / 2) % s == 0,
        0 <= i < len / 2,
    ensures
        0 <= i / s,
        0 <= i % s < s,
        2 * s * (i / s) + i % s + s < len,
    decreases 0int,
{
    let q = i / s;
    let r = i % s;
    let t = (len / 2) / s;
    vstd::arithmetic::div_mod::lemma_fundamental_div_mod(i, s);
    vstd::arithmetic::div_mod::lemma_mod_bound(i, s);
    vstd::arithmetic::div_mod::lemma_div_pos_is_pos(i, s);
    vstd::arithmetic::div_mod::lemma_fundamental_div_mod(len / 2, s);
    assert(q < t) by (nonlinear_arith)
        requires s * q + r < s * t, 0 <= r, s >= 1;
    assert(2 * s * q + r + s < len) by (nonlinear_arith)
        requires q <= t - 1, 0 <= r < s, len == 2 * (len / 2), len / 2 == s * t, s >= 1;
}

/// A multilinear polynomial, stored as its evaluations over the Boolean
/// hypercube. The table length is a power of two.
#[derive(Clone, Debug)]
pub struct MultilinearPolynomial {
    pub evals: Vec<FieldElement>,
}

impl View for MultilinearPolynomial {
    type V = Seq<int>;

    open spec fn view(&self) -> Seq<int> {
        fe_views(self.evals@)
    }
}

impl MultilinearPolynomial {
    /// The table length is a power of two.
    pub open spec fn wf(self) -> bool {
        is_pow2(self@.len())
    }

    /// The number of variables: the base-2 logarithm of the table length.
    pub open spec fn spec_n_vars(self) -> nat {
        lg(self@.len())
    }

    /// Wraps an evaluation table whose length is a power of two.
    pub fn new(evals: Vec<FieldElement>) -> (r: MultilinearPolynomial)
        requires
            is_pow2(evals@.len()),
        ensures
            r@ == fe_views(evals@),
            r.wf(),
    {
        MultilinearPolynomial { evals }
    }

    /// A copy with the same evaluation table.
    pub fn new_copy(other: &MultilinearPolynomial) -> (r: MultilinearPolynomial)
        ensures
            r@ == other@,
            r.evals@ == other.evals@,
    {
        let mut evals: Vec<FieldElement> = Vec::new();
        let mut i: usize = 0;
        while i < other.evals.len()
            invariant
                i <= other.evals@.len(),
                evals@ == other.evals@.take(i as int),
            decreases other.evals@.len() - i,
        {
            evals.push(other.evals[i]);
            i = i + 1;
        }
        proof {
            assert(other.evals@.take(other.evals@.len() as int) =~= other.evals@);
        }
        MultilinearPolynomial { evals }
    }

    /// The number of variables.
    pub fn n_vars(&self) -> (r: usize)
        ensures
            r as nat == self.spec_n_vars(),
    {
        let mut m = self.evals.len();
        let mut k: usize = 0;
        proof {
            lemma_lg_le(lg(self@.len()));
            lemma_lg_le(self@.len());
        }
        while m > 1
            invariant
                lg(self.evals@.len()) == k as nat + lg(m as nat),
                k as nat <= lg(self.evals@.len()),
                lg(self.evals@.len()) <= usize::MAX,
            decreases m,
        {
            m = m / 2;
            k = k + 1;
        }
        k
    }

    /// The evaluation table.
    pub fn evals_slice(&self) -> (r: &[FieldElement])
        ensures
            fe_views(r@) == self@,
    {
        self.evals.as_slice()
    }

    /// Multiplies every evaluation by `scalar`.
    pub fn scalar_mul(&self, scalar: FieldElement) -> (r: MultilinearPolynomial)
        requires
            self.wf(),
        ensures
            r.wf(),
            r@.len() == self@.len(),
            forall|i: int| 0 <= i < self@.len() ==> r@[i] == fmul(self@[i], scalar@),
    {
        let mut evals: Vec<FieldElement> = Vec::new();
        let mut i: usize = 0;
        while i < self.evals.len()
            invariant
                i <= self.evals@.len(),
                evals@.len() == i,
                forall|j: int| 0 <= j < i
                    ==> (#[trigger] evals@[j])@ == fmul(self.evals@[j]@, scalar@),
            decreases self.evals@.len() - i,
        {
            evals.push(self.evals[i].mul(scalar));
            i = i + 1;
        }
        let r = MultilinearPolynomial { evals };
        proof {
            assert forall|j: int| 0 <= j < self@.len()
                implies r@[j] == fmul(self@[j], scalar@) by {
                assert(r@[j] == evals@[j]@);
                assert(self@[j] == self.evals@[j]@);
            }
        }
        r
    }

    /// Adds two polynomials with equal tables elementwise.
    pub fn tensor_add(&self, other: &MultilinearPolynomial) -> (r: MultilinearPolynomial)
        requires
            self.wf(),
            self@.len() == other@.len(),
        ensures
            r.wf(),
            r@.len() == self@.len(),
            forall|i: int| 0 <= i < self@.len() ==> r@[i] == fadd(self@[i], other@[i]),
    {
        let mut evals: Vec<FieldElement> = Vec::new();
        let mut i: usize = 0;
        while i < self.evals.len()
            invariant
                i <= self.evals@.len(),
                other.evals@.len() == self.evals@.len(),
                evals@.len() == i,
                forall|j: int| 0 <= j < i
                    ==> (#[trigger] evals@[j])@ == fadd(self.evals@[j]@, other.evals@[j]@),
            decreases self.evals@.len() - i,
        {
            evals.push(self.evals[i].add(other.evals[i]));
            i = i + 1;
        }
        let r = MultilinearPolynomial { evals };
        proof {
            assert forall|j: int| 0 <= j < self@.len()
                implies r@[j] == fadd(self@[j], other@[j]) by {
                assert(r@[j] == evals@[j]@);
                assert(self@[j] == self.evals@[j]@);
                assert(other@[j] == other.evals@[j]@);
            }
        }
        r
    }

    /// Multiplies two polynomials with equal tables elementwise.
    pub fn tensor_mul(&self, other: &MultilinearPolynomial) -> (r: MultilinearPolynomial)
        requires
            self.wf(),
            self@.len() == other@.len(),
        ensures
            r.wf(),
            r@.len() == self@.len(),
            forall|i: int| 0 <= i < self@.len() ==> r@[i] == fmul(self@[i], other@[i]),
    {
        let mut evals: Vec<FieldElement> = Vec::new();
        let mut i: usize = 0;
        while i < self.evals.len()
            invariant
                i <= self.evals@.len(),
                other.evals@.len() == self.evals@.len(),
                evals@.len() == i,
                forall|j: int| 0 <= j < i
                    ==> (#[trigger] evals@[j])@ == fmul(self.evals@[j]@, other.evals@[j]@),
            decreases self.evals@.len() - i,
        {
            evals.push(self.evals[i].mul(other.evals[i]));
            i = i + 1;
        }
        let r = MultilinearPolynomial { evals };
        proof {
            assert forall|j: int| 0 <= j < self@.len()
                implies r@[j] == fmul(self@[j], other@[j]) by {
                assert(r@[j] == evals@[j]@);
                assert(self@[j] == self.evals@[j]@);
                assert(other@[j] == other.evals@[j]@);
            }
        }
        r
    }

    /// Fixes variable `var_index` to `point`, producing the polynomial in the
    /// remaining variables by the interpolation `y0 + (y1 - y0) * point` over
    /// each pair of table entries that differ only in that variable.
    pub fn partial_evaluate(&self, point: FieldElement, var_index: usize) -> (r:
        MultilinearPolynomial)
        requires
            self.wf(),
            (var_index as nat) < self.spec_n_vars(),
        ensures
            r.wf(),
            r@ == ml_fix(self@, point@, var_index as nat),
            r@.len() == self@.len() / 2,
            r.spec_n_vars() + 1 == self.spec_n_vars(),
    {
        let ghost n = lg(self@.len());
        let total = self.evals.len();
        proof {
            // The table has at least two entries.
            if self@.len() < 2 {
                vstd::arithmetic::power2::lemma2_to64();
                vstd::arithmetic::power2::lemma_pow2_strictly_increases(0, n);
            }
            lemma_pow2_halves(self@.len());
            if ((n - var_index - 1) as nat) < n {
                vstd::arithmetic::power2::lemma_pow2_strictly_increases(
                    (n - var_index - 1) as nat, n);
            }
        }
        let n_exec = self.n_vars();
        let stride = pow2_exec(n_exec - var_index - 1);
        let half = total / 2;
        proof {
            // The stride divides the half table: both are powers of two.
            vstd::arithmetic::power2::lemma_pow2_adds(
                var_index as nat, (n - var_index - 1) as nat);
            assert(self@.len() / 2 == pow2((n - 1) as nat));
            assert(pow2((n - 1) as nat) == pow2(var_index as nat) * (stride as nat));
            vstd::arithmetic::div_mod::lemma_mod_multiples_basic(
                pow2(var_index as nat) as int, stride as int);
            assert((self@.len() / 2) as int % (stride as int) == 0);
            vstd::arithmetic::power2::lemma_pow2_pos(var_index as nat);
            assert(stride as nat <= self@.len() / 2) by (nonlinear_arith)
                requires
                    self@.len() / 2 == pow2(var_index as nat) * (stride as nat),
                    pow2(var_index as nat) >= 1;
        }
        let mut evals: Vec<FieldElement> = Vec::new();
        let mut i: usize = 0;
        while i < half
            invariant
                self.wf(),
                (var_index as nat) < lg(self@.len()),
                stride as nat == pow2((lg(self@.len()) - var_index - 1) as nat),
                stride >= 1,
                stride as nat <= self@.len() / 2,
                half == self@.len() / 2,
                half == self.evals@.len() / 2,
                self@.len() % 2 == 0,
                self@.len() <= usize::MAX,
                (self@.len() / 2) as int % (stride as int) == 0,
                i <= half,
                evals@.len() == i,
                forall|j: int| 0 <= j < i
                    ==> (#[trigger] evals@[j])@ == ml_fix(self@, point@, var_index as nat)[j],
            decreases half - i,
        {
            proof {
                lemma_fix_index(self@.len() as int, stride as int, i as int);
            }
            let lo = 2 * stride * (i / stride) + i % stride;
            let hi = lo + stride;
            let y0 = self.evals[lo];
            let y1 = self.evals[hi];
            let term = y0.add(y1.sub(y0).mul(point));
            evals.push(term);
            proof {
                let e = self@;
                let s = stride as int;
                let fixed = ml_fix(e, point@, var_index as nat);
                assert(fixed[i as int] == lerp(e[lo as int], e[hi as int], point@));
                assert(e[lo as int] == self.evals@[lo as int]@);
                assert(e[hi as int] == self.evals@[hi as int]@);
            }
            i = i + 1;
        }
        let r = MultilinearPolynomial { evals };
        proof {
            assert(r@ =~= ml_fix(self@, point@, var_index as nat));
            lemma_pow2_halves(self@.len());
            vstd::arithmetic::power2::lemma_pow2_pos((n - 1) as nat);
        }
        r
    }

    /// Fixes several variables at once, applying them in order of decreasing
    /// variable index so that the indices of the remaining variables keep
    /// their meaning. The variable indices must be distinct and in range.
    pub fn partial_evaluate_many_vars(&self, points: &[(FieldElement, usize)]) -> (r:
        MultilinearPolynomial)
        requires
            self.wf(),
            points@.len() <= self.spec_n_vars(),
            forall|q: int| 0 <= q < points@.len()
                ==> ((#[trigger] points@[q]).1 as nat) < self.spec_n_vars(),
            forall|q: int, k: int| 0 <= q < k < points@.len()
                ==> points@[q].1 != points@[k].1,
        ensures
            r.wf(),
            r@ == fix_list(self@, sort_desc(pt_views(points@))),
            r.spec_n_vars() + points@.len() == self.spec_n_vars(),
    {
        let ghost n = self.spec_n_vars();
        // Insertion sort by decreasing variable index.
        let mut sorted: Vec<(FieldElement, usize)> = Vec::new();
        let mut j: usize = 0;
        while j < points.len()
            invariant
                j <= points@.len(),
                sorted@.len() == j,
                pt_views(sorted@) == sort_desc(pt_views(points@.take(j as int))),
                forall|a: int, b: int| 0 <= a < b < j
                    ==> (#[trigger] sorted@[a]).1 > (#[trigger] sorted@[b]).1,
                forall|a: int| 0 <= a < j ==> exists|l: int|
                    0 <= l < j && (#[trigger] sorted@[a]).1 == points@[l].1,
                forall|q: int, k: int| 0 <= q < k < points@.len()
                    ==> points@[q].1 != points@[k].1,
            decreases points@.len() - j,
        {
            let p = points[j];
            let mut pos: usize = 0;
            while pos < sorted.len() && sorted[pos].1 > p.1
                invariant
                    pos <= sorted@.len(),
                    forall|k: int| 0 <= k < pos ==> (#[trigger] sorted@[k]).1 > p.1,
                decreases sorted@.len() - pos,
            {
                pos = pos + 1;
            }
            proof {
                let ghost old_sorted = sorted@;
                let svs = pt_views(old_sorted);
                let pv = (p.0@, p.1 as nat);
                if (pos as int) < old_sorted.len() {
                    // The index at the insertion point is not p's own index.
                    let l = choose|l: int|
                        0 <= l < j && old_sorted[pos as int].1 == points@[l].1;
                    assert(points@[l].1 != points@[j as int].1);
                    assert(old_sorted[pos as int].1 < p.1);
                }
                assert(forall|k: int| 0 <= k < pos ==> (#[trigger] svs[k]).1 > pv.1);
                assert((pos as int) < svs.len() ==> svs[pos as int].1 <= pv.1);
                crate::multilinear_laws::lemma_insert_desc_at(pv, svs, pos as int);
            }
            let ghost old_sorted = sorted@;
            sorted.insert(pos, p);
            j = j + 1;
            proof {
                let svs = pt_views(old_sorted);
                let pv = (p.0@, p.1 as nat);
                old_sorted.insert_ensures(pos as int, p);
                // The views of the updated vector are the specification insert.
                assert(pt_views(sorted@) =~= insert_desc(pv, svs));
                // And that is the sorted view of one more point.
                assert(pt_views(points@.take(j as int)).drop_last()
                    =~= pt_views(points@.take(j as int - 1)));
                assert(pt_views(points@.take(j as int)).last() == pv);
                assert(pt_views(sorted@) == sort_desc(pt_views(points@.take(j as int))));
                // Strict order is preserved: everything at or past the
                // insertion point has a strictly smaller index.
                assert forall|k: int| pos <= k < old_sorted.len() implies
                    (#[trigger] old_sorted[k]).1 < p.1 by {
                    if k > pos {
                        assert(old_sorted[pos as int].1 > old_sorted[k].1);
                    }
                }
                assert forall|a: int, b: int| 0 <= a < b < sorted@.len() implies
                    (#[trigger] sorted@[a]).1 > (#[trigger] sorted@[b]).1 by {
                    if b < pos {
                    } else if a > pos {
                        assert(sorted@[a] == old_sorted[a - 1]);
                        assert(sorted@[b] == old_sorted[b - 1]);
                    } else if a == pos {
                        assert(sorted@[b] == old_sorted[b - 1]);
                    } else if b == pos {
                        assert(sorted@[a] == old_sorted[a]);
                    } else {
                        assert(sorted@[a] == old_sorted[a]);
                        assert(sorted@[b] == old_sorted[b - 1]);
                    }
                }
                // Membership of every index in the processed prefix.
                assert forall|a: int| 0 <= a < sorted@.len() implies exists|l: int|
                    0 <= l < j && (#[trigger] sorted@[a]).1 == points@[l].1 by {
                    if a < pos {
                        let l = choose|l: int|
                            0 <= l < j - 1 && (old_sorted[a]).1 == points@[l].1;
                        assert(sorted@[a].1 == points@[l].1);
                    } else if a == pos {
                        assert(sorted@[a].1 == points@[j - 1].1);
                    } else {
                        let l = choose|l: int|
                            0 <= l < j - 1 && (old_sorted[a - 1]).1 == points@[l].1;
                        assert(sorted@[a].1 == points@[l].1);
                    }
                }
            }
        }
        proof {
            assert(points@.take(points@.len() as int) =~= points@);
        }
        // Fix the variables from the highest index down.
        let mut cur_evals: Vec<FieldElement> = Vec::new();
        let mut i: usize = 0;
        while i < self.evals.len()
            invariant
                i <= self.evals@.len(),
                cur_evals@ == self.evals@.take(i as int),
            decreases self.evals@.len() - i,
        {
            cur_evals.push(self.evals[i]);
            i = i + 1;
        }
        proof {
            assert(self.evals@.take(self.evals@.len() as int) =~= self.evals@);
        }
        let mut cur = MultilinearPolynomial { evals: cur_evals };
        let ghost svs = pt_views(sorted@);
        let mut k: usize = 0;
        while k < sorted.len()
            invariant
                k <= sorted@.len(),
                svs == pt_views(sorted@),
                sorted@.len() <= n,
                cur.wf(),
                cur.spec_n_vars() + k as nat == n,
                cur@ == fix_list(fe_views(self.evals@), svs.take(k as int)),
                forall|a: int, b: int| 0 <= a < b < svs.len()
                    ==> (#[trigger] svs[a]).1 > (#[trigger] svs[b]).1,
                forall|a: int| 0 <= a < svs.len() ==> (#[trigger] svs[a]).1 < n,
            decreases sorted@.len() - k,
        {
            proof {
                crate::multilinear_laws::lemma_strict_desc_bound(svs, n, k as int);
                assert(svs[k as int].1 == sorted@[k as int].1 as nat);
            }
            let (value, var_index) = sorted[k];
            let next = cur.partial_evaluate(value, var_index);
            proof {
                crate::multilinear_laws::lemma_fix_list_snoc(
                    fe_views(self.evals@), svs.take(k as int), svs[k as int]);
                assert(svs.take(k as int).push(svs[k as int]) =~= svs.take(k as int + 1));
            }
            cur = next;
            k = k + 1;
        }
        proof {
            assert(svs.take(svs.len() as int) =~= svs);
        }
        cur
    }

    /// Evaluates the polynomial at a point with one coordinate per variable.
    pub fn evaluate(&self, points: &[FieldElement]) -> (r: FieldElement)
        requires
            self.wf(),
            points@.len() == self.spec_n_vars(),
        ensures
            r@ == ml_eval(self@, fe_views(points@)),
    {
        let mut pairs: Vec<(FieldElement, usize)> = Vec::new();
        let mut i: usize = 0;
        while i < points.len()
            invariant
                i <= points@.len(),
                pairs@.len() == i,
                forall|k: int| 0 <= k < i
                    ==> (#[trigger] pairs@[k]).0 == points@[k] && pairs@[k].1 == k,
            decreases points@.len() - i,
        {
            pairs.push((points[i], i));
            i = i + 1;
        }
        let res = self.partial_evaluate_many_vars(pairs.as_slice());
        proof {
            assert(pt_views(pairs@) =~= crate::multilinear_laws::asc_points(
                fe_views(points@)));
            crate::multilinear_laws::lemma_sort_asc(fe_views(points@));
            lemma_lg_pow2(points@.len());
            crate::multilinear_laws::lemma_fix_list_full(self@, fe_views(points@));
            assert(res@.len() == 1);
        }
        let r = res.evals[0];
        proof {
            use_type_invariant(r);
            r.lemma_wf_canonical();
            crate::field::lemma_mod_small(r@);
            assert(r@ == res@[0]);
        }
        r
    }

    /// Serializes the table as the concatenation of the big-endian encodings
    /// of its entries, in index order.
    pub fn to_bytes(&self) -> (r: Vec<u8>)
        ensures
            r@ == fe_seq_bytes(self@),
    {
        let mut out: Vec<u8> = Vec::new();
        let mut i: usize = 0;
        while i < self.evals.len()
            invariant
                i <= self.evals@.len(),
                out@ == fe_seq_bytes(self@.take(i as int)),
            decreases self.evals@.len() - i,
        {
            let mut bytes = self.evals[i].to_be_bytes();
            out.append(&mut bytes);
            i = i + 1;
            proof {
                assert(self@.take(i as int).drop_last() =~= self@.take(i as int - 1));
            }
        }
        proof {
            assert(self@.take(self@.len() as int) =~= self@);
        }
        out
    }
}

impl PartialEq for MultilinearPolynomial {
    /// Structural equality of the evaluation tables.
    fn eq(&self, other: &MultilinearPolynomial) -> (r: bool) {
        if self.evals.len() != other.evals.len() {
            return false;
        }
        let mut i: usize = 0;
        while i < self.evals.len()
            invariant
                i <= self.evals@.len(),
                self.evals@.len() == other.evals@.len(),
                forall|j: int| 0 <= j < i ==> self.evals@[j] == other.evals@[j],
            decreases self.evals@.len() - i,
        {
            if !(self.evals[i] == other.evals[i]) {
                return false;
            }
            i = i + 1;
        }
        proof {
            assert(self.evals@ =~= other.evals@);
        }
        true
    }
}

impl vstd::std_specs::cmp::PartialEqSpecImpl for MultilinearPolynomial {
    open spec fn obeys_eq_spec() -> bool {
        true
    }

    open spec fn eq_spec(&self, other: &MultilinearPolynomial) -> bool {
        self.evals@ == other.evals@
    }
}

} // verus!
