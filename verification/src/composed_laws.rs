//! Laws of the composed polynomials: at the vertices of the Boolean
//! hypercube the product and sum evaluations agree with the elementwise
//! reductions, so the sum the prover derives from `reduce` is the sum of
//! the sum-of-products over the whole hypercube.

use crate::field::{fadd, fmul, fsum, lemma_add_congruence, lemma_mod_idempotent,
    lemma_mod_small, lemma_mul_congruence, MODULUS};
use crate::multilinear::{is_pow2, lg};
use crate::multilinear_laws::{bool_point, lemma_eval_on_cube, lemma_ml_eval_canonical};
use crate::product::{prod_eval, pw_mul};
use crate::sum::{pw_sum, sum_eval};
use vstd::prelude::*;

verus! {

/// Whether every table of a product family has the given length, a power
/// of two.
pub open spec fn product_tables_wf(ps: Seq<Seq<int>>, len: nat) -> bool {
    &&& ps.len() >= 1
    &&& is_pow2(len)
    &&& forall|j: int| 0 <= j < ps.len() ==> (#[trigger] ps[j]).len() == len
}

/// Whether every product of a family is well formed over the given table
/// length.
pub open spec fn sum_tables_wf(s: Seq<Seq<Seq<int>>>, len: nat) -> bool {
    &&& s.len() >= 1
    &&& forall|k: int| 0 <= k < s.len() ==> product_tables_wf(#[trigger] s[k], len)
}

/// The elementwise product keeps the table length.
pub proof fn lemma_pw_mul_len(ps: Seq<Seq<int>>, len: nat)
    requires
        product_tables_wf(ps, len),
    ensures
        pw_mul(ps).len() == len,
    decreases ps.len(),
{
    if ps.len() > 1 {
        assert(product_tables_wf(ps.drop_last(), len));
        lemma_pw_mul_len(ps.drop_last(), len);
    }
}

/// The elementwise sum keeps the table length.
pub proof fn lemma_pw_sum_len(s: Seq<Seq<Seq<int>>>, len: nat)
    requires
        sum_tables_wf(s, len),
    ensures
        pw_sum(s).len() == len,
    decreases s.len(),
{
    if s.len() <= 1 {
        lemma_pw_mul_len(s[0], len);
    } else {
        assert(sum_tables_wf(s.drop_last(), len));
        lemma_pw_sum_len(s.drop_last(), len);
    }
}

/// At a hypercube vertex, the product evaluation reads the elementwise
/// product table.
pub proof fn lemma_prod_eval_on_cube(ps: Seq<Seq<int>>, len: nat, i: int)
    requires
        product_tables_wf(ps, len),
        0 <= i < len,
    ensures
        prod_eval(ps, bool_point(lg(len), i)) == pw_mul(ps)[i] % (MODULUS as int),
    decreases ps.len(),
{
    let m = MODULUS as int;
    let bp = bool_point(lg(len), i);
    let last = ps.last();
    lemma_eval_on_cube(last, i);
    if ps.len() == 1 {
        assert(ps.drop_last() =~= Seq::<Seq<int>>::empty());
        assert(prod_eval(ps.drop_last(), bp) == 1);
        lemma_ml_eval_canonical(last, bp);
        lemma_mod_small(crate::multilinear::ml_eval(last, bp));
        lemma_mod_idempotent(last[i]);
        // 1 * x reduces to x modulo the prime.
        assert(1 * (last[i] % m) == last[i] % m) by (nonlinear_arith);
        assert(prod_eval(ps, bp) == (1 * (last[i] % m)) % m);
    } else {
        assert(product_tables_wf(ps.drop_last(), len));
        lemma_prod_eval_on_cube(ps.drop_last(), len, i);
        lemma_pw_mul_len(ps.drop_last(), len);
        // Multiply the reduced prefix by the last factor's entry.
        lemma_mod_idempotent(pw_mul(ps.drop_last())[i]);
        lemma_mod_idempotent(last[i]);
        lemma_mul_congruence(
            prod_eval(ps.drop_last(), bp), pw_mul(ps.drop_last())[i],
            crate::multilinear::ml_eval(last, bp), last[i],
        );
        assert(pw_mul(ps)[i] == fmul(pw_mul(ps.drop_last())[i], last[i]));
        lemma_mod_idempotent(pw_mul(ps.drop_last())[i] * last[i]);
    }
}

/// At a hypercube vertex, the sum evaluation reads the elementwise sum
/// table.
pub proof fn lemma_sum_eval_on_cube(s: Seq<Seq<Seq<int>>>, len: nat, i: int)
    requires
        sum_tables_wf(s, len),
        0 <= i < len,
    ensures
        sum_eval(s, bool_point(lg(len), i)) == pw_sum(s)[i] % (MODULUS as int),
    decreases s.len(),
{
    let m = MODULUS as int;
    let bp = bool_point(lg(len), i);
    let last = s.last();
    lemma_prod_eval_on_cube(last, len, i);
    lemma_pw_mul_len(last, len);
    if s.len() == 1 {
        assert(s.drop_last() =~= Seq::<Seq<Seq<int>>>::empty());
        assert(sum_eval(s.drop_last(), bp) == 0);
        lemma_mod_idempotent(pw_mul(last)[i]);
        assert(sum_eval(s, bp) == (0 + prod_eval(last, bp)) % m);
    } else {
        assert(sum_tables_wf(s.drop_last(), len));
        lemma_sum_eval_on_cube(s.drop_last(), len, i);
        lemma_pw_sum_len(s.drop_last(), len);
        lemma_mod_idempotent(pw_sum(s.drop_last())[i]);
        lemma_mod_idempotent(pw_mul(last)[i]);
        lemma_add_congruence(
            sum_eval(s.drop_last(), bp), pw_sum(s.drop_last())[i],
            prod_eval(last, bp), pw_mul(last)[i],
        );
        assert(pw_sum(s)[i] == fadd(pw_sum(s.drop_last())[i], pw_mul(last)[i]));
        lemma_mod_idempotent(pw_sum(s.drop_last())[i] + pw_mul(last)[i]);
    }
}

/// The sum of the sum-of-products over the first `m` hypercube vertices.
pub open spec fn cube_sum(s: Seq<Seq<Seq<int>>>, n: nat, m: int) -> int
    decreases m,
{
    if m <= 0 {
        0
    } else {
        fadd(cube_sum(s, n, m - 1), sum_eval(s, bool_point(n, m - 1)))
    }
}

/// The claimed sum the prover derives from the elementwise reduction is
/// the sum of the sum-of-products over the full Boolean hypercube.
pub proof fn lemma_reduce_sums_the_hypercube(s: Seq<Seq<Seq<int>>>, len: nat)
    requires
        sum_tables_wf(s, len),
    ensures
        fsum(pw_sum(s)) == cube_sum(s, lg(len), len as int),
{
    lemma_pw_sum_len(s, len);
    lemma_cube_sum_prefix(s, len, len as int);
    assert(pw_sum(s).take(len as int) =~= pw_sum(s));
}

/// The prefix form of the hypercube sum law.
proof fn lemma_cube_sum_prefix(s: Seq<Seq<Seq<int>>>, len: nat, k: int)
    requires
        sum_tables_wf(s, len),
        0 <= k <= len,
    ensures
        fsum(pw_sum(s).take(k)) == cube_sum(s, lg(len), k),
    decreases k,
{
    let m = MODULUS as int;
    let table = pw_sum(s);
    lemma_pw_sum_len(s, len);
    if k > 0 {
        lemma_cube_sum_prefix(s, len, k - 1);
        assert(table.take(k).drop_last() =~= table.take(k - 1));
        assert(table.take(k).last() == table[k - 1]);
        lemma_sum_eval_on_cube(s, len, k - 1);
        // Adding the raw entry and adding its reduction agree.
        lemma_mod_idempotent(table[k - 1]);
        lemma_add_congruence(
            fsum(table.take(k - 1)), fsum(table.take(k - 1)),
            table[k - 1], sum_eval(s, bool_point(lg(len), k - 1)),
        );
    }
}

} // verus!
