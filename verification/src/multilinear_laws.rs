//! Laws of the evaluation-form representation: fixing a variable commutes
//! with evaluation, fixing two distinct variables commutes, and evaluating
//! over the full Boolean hypercube recovers the stored table.

use crate::field::{fadd, fsub, fmul, fsum, in_field, lemma_add_congruence,
    lemma_mod_idempotent, lemma_mod_small, lemma_mul_congruence, lemma_sub_congruence, MODULUS};
use crate::multilinear::{fix_list, insert_desc, is_pow2, lemma_fix_index, lemma_lg_pow2,
    lemma_pow2_halves, lerp, lg, ml_eval, ml_fix, sort_desc};
use vstd::arithmetic::power2::pow2;
use vstd::prelude::*;

verus! {

/// Splitting off a multiple of the divisor shifts the quotient and leaves
/// the remainder.
pub proof fn lemma_div_mod_sum_multiple(a: int, j: int, s: int)
    requires
        s >= 1,
        a >= 0,
        j >= 0,
        a % s == 0,
    ensures
        (a + j) / s == a / s + j / s,
        (a + j) % s == j % s,
{
    vstd::arithmetic::div_mod::lemma_fundamental_div_mod(a, s);
    vstd::arithmetic::div_mod::lemma_fundamental_div_mod(j, s);
    vstd::arithmetic::div_mod::lemma_mod_bound(j, s);
    assert(a + j == (a / s + j / s) * s + j % s) by (nonlinear_arith)
        requires a == s * (a / s), j == s * (j / s) + j % s;
    vstd::arithmetic::div_mod::lemma_fundamental_div_mod_converse(
        a + j, s, a / s + j / s, j % s);
}

/// Every entry of a fixed table is canonical.
pub proof fn lemma_lerp_canonical(a: int, b: int, x: int)
    ensures
        in_field(lerp(a, b, x)),
{
    vstd::arithmetic::div_mod::lemma_mod_bound(
        a + fmul(fsub(b, a), x), MODULUS as int);
}

/// Every multilinear evaluation is canonical.
pub proof fn lemma_ml_eval_canonical(e: Seq<int>, pt: Seq<int>)
    ensures
        in_field(ml_eval(e, pt)),
{
    if pt.len() == 0 {
        vstd::arithmetic::div_mod::lemma_mod_bound(e[0], MODULUS as int);
    } else {
        let h = e.len() as int / 2;
        vstd::arithmetic::div_mod::lemma_mod_bound(
            fmul(fsub(1, pt[0]), ml_eval(e.take(h), pt.skip(1)))
                + fmul(pt[0], ml_eval(e.skip(h), pt.skip(1))),
            MODULUS as int,
        );
    }
}

/// The interpolation step written without intermediate reductions.
pub proof fn lemma_lerp_flat(a: int, b: int, x: int)
    ensures
        lerp(a, b, x) == (a + (b - a) * x) % (MODULUS as int),
{
    let m = MODULUS as int;
    lemma_mod_idempotent(b - a);
    lemma_mul_congruence(fsub(b, a), b - a, x, x);
    lemma_mod_idempotent((b - a) * x);
    lemma_add_congruence(a, a, fmul(fsub(b, a), x), (b - a) * x);
}

/// Interpolation respects congruence in the two endpoints.
pub proof fn lemma_lerp_congruence(a1: int, a2: int, b1: int, b2: int, x: int)
    requires
        a1 % (MODULUS as int) == a2 % (MODULUS as int),
        b1 % (MODULUS as int) == b2 % (MODULUS as int),
    ensures
        lerp(a1, b1, x) == lerp(a2, b2, x),
{
    lemma_sub_congruence(b1, b2, a1, a2);
    lemma_mul_congruence(b1 - a1, b2 - a2, x, x);
    lemma_lerp_flat(a1, b1, x);
    lemma_lerp_flat(a2, b2, x);
    lemma_add_congruence(a1, a2, (b1 - a1) * x, (b2 - a2) * x);
}

/// Fixing variable 0 interpolates the two halves of the table pointwise.
pub proof fn lemma_fix_var0(e: Seq<int>, x: int)
    requires
        is_pow2(e.len()),
        e.len() >= 2,
    ensures
        ml_fix(e, x, 0) =~= Seq::new(e.len() / 2,
            |i: int| lerp(e[i], e[i + e.len() / 2], x)),
{
    let n = lg(e.len());
    let h = e.len() as int / 2;
    lemma_pow2_halves(e.len());
    let s = pow2((n - 1) as nat) as int;
    assert(s == h);
    assert forall|i: int| 0 <= i < h implies
        ml_fix(e, x, 0)[i] == lerp(e[i], e[i + h], x) by {
        vstd::arithmetic::div_mod::lemma_basic_div(i, s);
        vstd::arithmetic::div_mod::lemma_small_mod(i as nat, s as nat);
        assert(2 * s * (i / s) + i % s == i) by (nonlinear_arith)
            requires i / s == 0, i % s == i;
    }
}

/// For a variable above 0, fixing acts independently on the two halves of
/// the table.
pub proof fn lemma_fix_split(e: Seq<int>, x: int, v: nat)
    requires
        is_pow2(e.len()),
        1 <= v < lg(e.len()),
    ensures
        ml_fix(e, x, v) =~= ml_fix(e.take(e.len() as int / 2), x, (v - 1) as nat)
            + ml_fix(e.skip(e.len() as int / 2), x, (v - 1) as nat),
{
    let n = lg(e.len());
    let len = e.len() as int;
    let h = len / 2;
    lemma_pow2_halves(e.len());
    // n >= 2, so the table has at least 4 entries and h is even.
    vstd::arithmetic::power2::lemma_pow2_strictly_increases(1, n);
    vstd::arithmetic::power2::lemma2_to64();
    lemma_pow2_halves((h as nat));
    let s = pow2((n - v - 1) as nat) as int;
    let fh = e.take(h);
    let sh = e.skip(h);
    assert(lg(fh.len()) == n - 1);
    assert(lg(sh.len()) == n - 1);
    // The stride of the halves equals the stride of the whole.
    assert(pow2(((n - 1) - (v - 1) - 1) as nat) as int == s);
    // The stride divides the half of a half: 2^(n-2) = 2^(v-1) * s.
    vstd::arithmetic::power2::lemma_pow2_adds((v - 1) as nat, (n - v - 1) as nat);
    vstd::arithmetic::div_mod::lemma_mod_multiples_basic(
        pow2((v - 1) as nat) as int, s);
    assert((h / 2) % s == 0);
    vstd::arithmetic::power2::lemma_pow2_pos((n - v - 1) as nat);
    assert forall|i: int| 0 <= i < h implies
        ml_fix(e, x, v)[i]
            == (ml_fix(fh, x, (v - 1) as nat) + ml_fix(sh, x, (v - 1) as nat))[i] by {
        if i < h / 2 {
            lemma_fix_index(h, s, i);
            assert(fh[2 * s * (i / s) + i % s] == e[2 * s * (i / s) + i % s]);
            assert(fh[2 * s * (i / s) + i % s + s] == e[2 * s * (i / s) + i % s + s]);
        } else {
            let j = i - h / 2;
            lemma_fix_index(h, s, j);
            // i = h/2 + j, and s divides h/2, so the index formula shifts by h.
            lemma_div_mod_sum_multiple(h / 2, j, s);
            assert((h / 2) / s * s == h / 2) by {
                vstd::arithmetic::div_mod::lemma_fundamental_div_mod(h / 2, s);
            }
            assert(2 * s * (i / s) + i % s == h + 2 * s * (j / s) + j % s)
                by (nonlinear_arith)
                requires
                    i / s == (h / 2) / s + j / s,
                    i % s == j % s,
                    s * ((h / 2) / s) == h / 2,
                    h == 2 * (h / 2);
            assert(sh[2 * s * (j / s) + j % s] == e[h + 2 * s * (j / s) + j % s]);
            assert(sh[2 * s * (j / s) + j % s + s] == e[h + 2 * s * (j / s) + j % s + s]);
        }
    }
}

/// The interpolation `a + (b - a) x` equals the weighted form
/// `(1 - x) a + x b`.
pub proof fn lemma_lerp_select(a: int, b: int, x: int)
    ensures
        lerp(a, b, x) == fadd(fmul(fsub(1, x), a), fmul(x, b)),
{
    let m = MODULUS as int;
    lemma_lerp_flat(a, b, x);
    // Flatten the weighted form to a single reduction.
    lemma_mod_idempotent(1 - x);
    lemma_mul_congruence(fsub(1, x), 1 - x, a, a);
    lemma_mod_idempotent((1 - x) * a);
    lemma_mod_idempotent(x * b);
    lemma_add_congruence(fmul(fsub(1, x), a), (1 - x) * a, fmul(x, b), x * b);
    assert(a + (b - a) * x == (1 - x) * a + x * b) by (nonlinear_arith);
}

/// Pointwise interpolation of two tables commutes with the round step of
/// multilinear evaluation.
proof fn lemma_lerp_combine(p: int, x: int, a0: int, a1: int, b0: int, b1: int)
    ensures
        fadd(fmul(fsub(1, p), lerp(a0, b0, x)), fmul(p, lerp(a1, b1, x)))
            == lerp(
                fadd(fmul(fsub(1, p), a0), fmul(p, a1)),
                fadd(fmul(fsub(1, p), b0), fmul(p, b1)),
                x,
            ),
{
    let m = MODULUS as int;
    let la = a0 + (b0 - a0) * x;
    let lb = a1 + (b1 - a1) * x;
    let ra = (1 - p) * a0 + p * a1;
    let rb = (1 - p) * b0 + p * b1;
    // Flatten the left-hand side.
    lemma_lerp_flat(a0, b0, x);
    lemma_lerp_flat(a1, b1, x);
    lemma_mod_idempotent(1 - p);
    lemma_mod_idempotent(la);
    lemma_mod_idempotent(lb);
    lemma_mul_congruence(fsub(1, p), 1 - p, lerp(a0, b0, x), la);
    lemma_mul_congruence(p, p, lerp(a1, b1, x), lb);
    lemma_add_congruence(
        fmul(fsub(1, p), lerp(a0, b0, x)), (1 - p) * la,
        fmul(p, lerp(a1, b1, x)), p * lb,
    );
    // Flatten the right-hand side.
    lemma_mul_congruence(fsub(1, p), 1 - p, a0, a0);
    lemma_mul_congruence(fsub(1, p), 1 - p, b0, b0);
    lemma_mod_idempotent((1 - p) * a0);
    lemma_mod_idempotent((1 - p) * b0);
    lemma_mod_idempotent(p * a1);
    lemma_mod_idempotent(p * b1);
    lemma_add_congruence(fmul(fsub(1, p), a0), (1 - p) * a0, fmul(p, a1), p * a1);
    lemma_add_congruence(fmul(fsub(1, p), b0), (1 - p) * b0, fmul(p, b1), p * b1);
    let fra = fadd(fmul(fsub(1, p), a0), fmul(p, a1));
    let frb = fadd(fmul(fsub(1, p), b0), fmul(p, b1));
    lemma_lerp_flat(fra, frb, x);
    lemma_mod_idempotent(ra);
    lemma_mod_idempotent(rb);
    lemma_sub_congruence(frb, rb, fra, ra);
    lemma_mul_congruence(frb - fra, rb - ra, x, x);
    lemma_add_congruence(fra, ra, (frb - fra) * x, (rb - ra) * x);
    // Both sides are now single reductions of ring expressions.
    assert((1 - p) * la + p * lb == ra + (rb - ra) * x) by (nonlinear_arith)
        requires
            la == a0 + (b0 - a0) * x,
            lb == a1 + (b1 - a1) * x,
            ra == (1 - p) * a0 + p * a1,
            rb == (1 - p) * b0 + p * b1;
}

/// Multilinear evaluation is linear in the table: evaluating the pointwise
/// interpolation of two tables interpolates their evaluations.
pub proof fn lemma_ml_eval_linear(a: Seq<int>, b: Seq<int>, x: int, pt: Seq<int>)
    requires
        a.len() == b.len(),
        a.len() == pow2(pt.len()),
    ensures
        ml_eval(Seq::new(a.len(), |i: int| lerp(a[i], b[i], x)), pt)
            == lerp(ml_eval(a, pt), ml_eval(b, pt), x),
    decreases pt.len(),
{
    let m = MODULUS as int;
    let c = Seq::new(a.len(), |i: int| lerp(a[i], b[i], x));
    if pt.len() == 0 {
        vstd::arithmetic::power2::lemma2_to64();
        lemma_lerp_canonical(a[0], b[0], x);
        lemma_mod_small(lerp(a[0], b[0], x));
        lemma_mod_idempotent(a[0]);
        lemma_mod_idempotent(b[0]);
        lemma_lerp_congruence(a[0], a[0] % m, b[0], b[0] % m, x);
    } else {
        let h = a.len() as int / 2;
        vstd::arithmetic::power2::lemma_pow2_unfold(pt.len());
        assert(a.len() == 2 * pow2((pt.len() - 1) as nat));
        let p0 = pt[0];
        let rest = pt.skip(1);
        assert(c.take(h) =~= Seq::new(a.take(h).len(),
            |i: int| lerp(a.take(h)[i], b.take(h)[i], x)));
        assert(c.skip(h) =~= Seq::new(a.skip(h).len(),
            |i: int| lerp(a.skip(h)[i], b.skip(h)[i], x)));
        lemma_ml_eval_linear(a.take(h), b.take(h), x, rest);
        lemma_ml_eval_linear(a.skip(h), b.skip(h), x, rest);
        lemma_lerp_combine(
            p0, x,
            ml_eval(a.take(h), rest), ml_eval(a.skip(h), rest),
            ml_eval(b.take(h), rest), ml_eval(b.skip(h), rest),
        );
    }
}

/// Fixing a variable commutes with evaluation: evaluating the fixed
/// polynomial at the remaining point equals evaluating the original
/// polynomial at the point with the fixed value re-inserted at its variable.
pub proof fn lemma_fix_then_eval(e: Seq<int>, x: int, v: nat, pt: Seq<int>)
    requires
        is_pow2(e.len()),
        v < lg(e.len()),
        pt.len() + 1 == lg(e.len()),
    ensures
        ml_eval(ml_fix(e, x, v), pt) == ml_eval(e, pt.insert(v as int, x)),
    decreases v,
{
    let n = lg(e.len());
    let len = e.len() as int;
    let h = len / 2;
    // The table has at least two entries.
    vstd::arithmetic::power2::lemma2_to64();
    vstd::arithmetic::power2::lemma_pow2_strictly_increases(0, n);
    lemma_pow2_halves(e.len());
    let pt2 = pt.insert(v as int, x);
    pt.insert_ensures(v as int, x);
    if v == 0 {
        lemma_fix_var0(e, x);
        assert(ml_fix(e, x, 0) =~= Seq::new(e.take(h).len(),
            |i: int| lerp(e.take(h)[i], e.skip(h)[i], x)));
        lemma_ml_eval_linear(e.take(h), e.skip(h), x, pt);
        // The extended point starts with x and continues with pt.
        assert(pt2.skip(1) =~= pt);
        assert(ml_eval(e, pt2) == fadd(
            fmul(fsub(1, x), ml_eval(e.take(h), pt)),
            fmul(x, ml_eval(e.skip(h), pt)),
        ));
        lemma_lerp_select(ml_eval(e.take(h), pt), ml_eval(e.skip(h), pt), x);
    } else {
        lemma_fix_split(e, x, v);
        let fh = e.take(h);
        let sh = e.skip(h);
        let lf = ml_fix(fh, x, (v - 1) as nat);
        let rf = ml_fix(sh, x, (v - 1) as nat);
        let c = ml_fix(e, x, v);
        assert(lg(fh.len()) == n - 1);
        assert(lg(sh.len()) == n - 1);
        let rest = pt.skip(1);
        pt.skip(1).insert_ensures(v as int - 1, x);
        lemma_fix_then_eval(fh, x, (v - 1) as nat, rest);
        lemma_fix_then_eval(sh, x, (v - 1) as nat, rest);
        // Unfold the evaluation of the concatenated fixed halves.
        assert(c.len() == h);
        assert(c.take(h / 2) =~= lf);
        assert(c.skip(h / 2) =~= rf);
        assert(pt.len() >= 1);
        assert(ml_eval(c, pt) == fadd(
            fmul(fsub(1, pt[0]), ml_eval(lf, rest)),
            fmul(pt[0], ml_eval(rf, rest)),
        ));
        // Unfold the evaluation of the original table at the extended point.
        assert(pt2[0] == pt[0]);
        assert(pt2.skip(1) =~= rest.insert(v as int - 1, x));
        assert(ml_eval(e, pt2) == fadd(
            fmul(fsub(1, pt[0]), ml_eval(fh, rest.insert(v as int - 1, x))),
            fmul(pt[0], ml_eval(sh, rest.insert(v as int - 1, x))),
        ));
    }
}

/// The vertex of the Boolean hypercube addressed by index `i`, with
/// variable 0 as the most significant bit.
pub open spec fn bool_point(n: nat, i: int) -> Seq<int> {
    Seq::new(n, |k: int| (i / pow2((n - 1 - k) as nat) as int) % 2)
}

/// Evaluating at the hypercube vertex addressed by `i` recovers table
/// entry `i`.
pub proof fn lemma_eval_on_cube(e: Seq<int>, i: int)
    requires
        is_pow2(e.len()),
        0 <= i < e.len(),
    ensures
        ml_eval(e, bool_point(lg(e.len()), i)) == e[i] % (MODULUS as int),
    decreases e.len(),
{
    let m = MODULUS as int;
    let n = lg(e.len());
    let len = e.len() as int;
    let pt = bool_point(n, i);
    if n == 0 {
        vstd::arithmetic::power2::lemma2_to64();
        assert(e.len() == 1);
    } else {
        lemma_pow2_halves(e.len());
        let h = len / 2;
        let rest = pt.skip(1);
        vstd::arithmetic::div_mod::lemma_mod_bound(i / h, 2);
        assert(pt[0] == (i / h) % 2);
        lemma_ml_eval_canonical(e.take(h), rest);
        lemma_ml_eval_canonical(e.skip(h), rest);
        lemma_mod_small(1);
        lemma_mod_small(0);
        if i < h {
            vstd::arithmetic::div_mod::lemma_basic_div(i, h);
            assert(pt[0] == 0);
            assert forall|k: int| 0 <= k < n - 1 implies
                rest[k] == bool_point((n - 1) as nat, i)[k] by {
                assert(rest[k] == (i / pow2((n - 1 - (k + 1)) as nat) as int) % 2);
            }
            assert(rest =~= bool_point((n - 1) as nat, i));
            lemma_eval_on_cube(e.take(h), i);
            let a = ml_eval(e.take(h), rest);
            let b = ml_eval(e.skip(h), rest);
            // (1 - 0) a + 0 b reduces to a.
            assert(fsub(1, 0) == 1);
            assert(fmul(1, a) == a) by {
                lemma_mod_small(a);
            }
            assert(fmul(0, b) == 0);
            assert(fadd(a, 0) == a) by {
                lemma_mod_small(a);
            }
        } else {
            let j = i - h;
            vstd::arithmetic::div_mod::lemma_fundamental_div_mod_converse(i, h, 1, j);
            assert(pt[0] == 1);
            assert forall|k: int| 0 <= k < n - 1 implies
                rest[k] == bool_point((n - 1) as nat, j)[k] by {
                let d = pow2((n - 2 - k) as nat) as int;
                vstd::arithmetic::power2::lemma_pow2_pos((n - 2 - k) as nat);
                vstd::arithmetic::power2::lemma_pow2_adds(
                    (k + 1) as nat, (n - 2 - k) as nat);
                vstd::arithmetic::div_mod::lemma_mod_multiples_basic(
                    pow2((k + 1) as nat) as int, d);
                lemma_div_mod_sum_multiple(h, j, d);
                vstd::arithmetic::div_mod::lemma_div_multiples_vanish(
                    pow2((k + 1) as nat) as int, d);
                vstd::arithmetic::mul::lemma_mul_is_commutative(
                    pow2((k + 1) as nat) as int, d);
                assert(h / d == pow2((k + 1) as nat));
                vstd::arithmetic::power2::lemma_pow2_unfold((k + 1) as nat);
                vstd::arithmetic::div_mod::lemma_mod_multiples_vanish(
                    pow2(k as nat) as int, (j / d), 2);
                assert(rest[k] == (i / d) % 2);
                assert((i / d) % 2 == (j / d) % 2);
            }
            assert(rest =~= bool_point((n - 1) as nat, j));
            lemma_eval_on_cube(e.skip(h), j);
            let a = ml_eval(e.take(h), rest);
            let b = ml_eval(e.skip(h), rest);
            // (1 - 1) a + 1 b reduces to b.
            assert(fsub(1, 1) == 0);
            assert(fmul(0, a) == 0);
            assert(fmul(1, b) == b) by {
                lemma_mod_small(b);
            }
            assert(fadd(0, b) == b) by {
                lemma_mod_small(b);
            }
        }
    }
}

/// Two canonical tables with equal evaluations at every hypercube vertex
/// are equal.
pub proof fn lemma_cube_determines_table(a: Seq<int>, b: Seq<int>)
    requires
        a.len() == b.len(),
        is_pow2(a.len()),
        forall|i: int| 0 <= i < a.len() ==> in_field(#[trigger] a[i]),
        forall|i: int| 0 <= i < b.len() ==> in_field(#[trigger] b[i]),
        forall|i: int| 0 <= i < a.len()
            ==> ml_eval(a, #[trigger] bool_point(lg(a.len()), i))
                == ml_eval(b, bool_point(lg(b.len()), i)),
    ensures
        a =~= b,
{
    assert forall|i: int| 0 <= i < a.len() implies a[i] == b[i] by {
        lemma_eval_on_cube(a, i);
        lemma_eval_on_cube(b, i);
        lemma_mod_small(a[i]);
        lemma_mod_small(b[i]);
    }
}

/// Inserting at a lower position first, then at a higher one, equals the
/// reverse order with the higher position shifted down by one.
pub proof fn lemma_insert_commutes(s: Seq<int>, x1: int, v1: int, x2: int, v2: int)
    requires
        0 <= v1 < v2,
        v2 <= s.len() + 1,
    ensures
        s.insert(v2 - 1, x2).insert(v1, x1) =~= s.insert(v1, x1).insert(v2, x2),
{
    let t1 = s.insert(v1, x1);
    let u1 = s.insert(v2 - 1, x2);
    s.insert_ensures(v1, x1);
    s.insert_ensures(v2 - 1, x2);
    t1.insert_ensures(v2, x2);
    u1.insert_ensures(v1, x1);
    assert forall|k: int| 0 <= k < s.len() + 2 implies
        u1.insert(v1, x1)[k] == t1.insert(v2, x2)[k] by {
        if k < v1 {
        } else if k == v1 {
        } else if k < v2 {
            assert(u1.insert(v1, x1)[k] == u1[k - 1]);
            assert(t1.insert(v2, x2)[k] == t1[k]);
            assert(t1[(k - 1) + 1] == s[k - 1]);
        } else if k == v2 {
            assert(u1.insert(v1, x1)[k] == u1[k - 1]);
        } else {
            assert(u1.insert(v1, x1)[k] == u1[k - 1]);
            assert(t1.insert(v2, x2)[(k - 1) + 1] == t1[k - 1]);
            assert(u1[(k - 2) + 1] == s[k - 2]);
            assert(t1[(k - 2) + 1] == s[k - 2]);
        }
    }
}

/// Every entry of a fixed table is canonical.
pub proof fn lemma_fix_entries_canonical(e: Seq<int>, x: int, v: nat)
    ensures
        forall|i: int| 0 <= i < ml_fix(e, x, v).len()
            ==> in_field(#[trigger] ml_fix(e, x, v)[i]),
{
    let s = pow2((lg(e.len()) - v - 1) as nat) as int;
    assert forall|i: int| 0 <= i < ml_fix(e, x, v).len() implies
        in_field(ml_fix(e, x, v)[i]) by {
        lemma_lerp_canonical(
            e[2 * s * (i / s) + i % s], e[2 * s * (i / s) + i % s + s], x);
    }
}

/// Fixing two distinct variables commutes: fixing the higher variable first
/// and then the lower one gives the same table as the reverse order, with
/// the higher index shifted down by the removal of the lower variable.
pub proof fn lemma_fix_commutes(e: Seq<int>, x1: int, v1: nat, x2: int, v2: nat)
    requires
        is_pow2(e.len()),
        v1 < v2 < lg(e.len()),
    ensures
        ml_fix(ml_fix(e, x2, v2), x1, v1) =~= ml_fix(ml_fix(e, x1, v1), x2, (v2 - 1) as nat),
{
    let m = MODULUS as int;
    let n = lg(e.len());
    let len = e.len() as int;
    // n >= 2, so len >= 4 and len / 2 >= 2.
    vstd::arithmetic::power2::lemma_pow2_strictly_increases(1, n);
    vstd::arithmetic::power2::lemma2_to64();
    lemma_pow2_halves(e.len());
    lemma_pow2_halves((len / 2) as nat);
    let ea = ml_fix(e, x2, v2);
    let eb = ml_fix(e, x1, v1);
    let a = ml_fix(ea, x1, v1);
    let b = ml_fix(eb, x2, (v2 - 1) as nat);
    assert(ea.len() == len / 2 && eb.len() == len / 2);
    assert(a.len() == len / 4 && b.len() == len / 4);
    assert(lg(a.len()) == n - 2 && lg(b.len()) == n - 2);
    lemma_fix_entries_canonical(ea, x1, v1);
    lemma_fix_entries_canonical(eb, x2, (v2 - 1) as nat);
    assert forall|i: int| 0 <= i < a.len() implies
        ml_eval(a, bool_point(lg(a.len()), i)) == ml_eval(b, bool_point(lg(b.len()), i)) by {
        let bp = bool_point((n - 2) as nat, i);
        assert(bp.len() == n - 2);
        lemma_fix_then_eval(ea, x1, v1, bp);
        lemma_fix_then_eval(e, x2, v2, bp.insert(v1 as int, x1));
        lemma_fix_then_eval(eb, x2, (v2 - 1) as nat, bp);
        lemma_fix_then_eval(e, x1, v1, bp.insert(v2 as int - 1, x2));
        lemma_insert_commutes(bp, x1, v1 as int, x2, v2 as int);
    }
    lemma_cube_determines_table(a, b);
}

/// Fixing one more variable at the end of a list extends the fold.
pub proof fn lemma_fix_list_snoc(e: Seq<int>, ps: Seq<(int, nat)>, p: (int, nat))
    ensures
        fix_list(e, ps.push(p)) == ml_fix(fix_list(e, ps), p.0, p.1),
    decreases ps.len(),
{
    if ps.len() == 0 {
        assert(ps.push(p)[0] == p);
        assert(ps.push(p).skip(1) =~= Seq::<(int, nat)>::empty());
        assert(fix_list(e, ps.push(p))
            == fix_list(ml_fix(e, p.0, p.1), ps.push(p).skip(1)));
        assert(fix_list(ml_fix(e, p.0, p.1), Seq::<(int, nat)>::empty())
            == ml_fix(e, p.0, p.1));
        assert(fix_list(e, ps) == e);
    } else {
        assert(ps.push(p)[0] == ps[0]);
        assert(ps.push(p).skip(1) =~= ps.skip(1).push(p));
        assert(fix_list(e, ps.push(p))
            == fix_list(ml_fix(e, ps[0].0, ps[0].1), ps.skip(1).push(p)));
        lemma_fix_list_snoc(ml_fix(e, ps[0].0, ps[0].1), ps.skip(1), p);
        assert(fix_list(e, ps) == fix_list(ml_fix(e, ps[0].0, ps[0].1), ps.skip(1)));
    }
}

/// Where the executable insertion places a point is where the specification
/// insertion places it.
pub proof fn lemma_insert_desc_at(p: (int, nat), s: Seq<(int, nat)>, pos: int)
    requires
        0 <= pos <= s.len(),
        forall|k: int| 0 <= k < pos ==> (#[trigger] s[k]).1 > p.1,
        pos < s.len() ==> s[pos].1 <= p.1,
    ensures
        insert_desc(p, s) =~= s.take(pos) + seq![p] + s.skip(pos),
    decreases s.len(),
{
    if s.len() == 0 {
    } else if pos == 0 {
    } else {
        lemma_insert_desc_at(p, s.skip(1), pos - 1);
        assert(s.skip(1).take(pos - 1) =~= s.take(pos).skip(1));
        assert(s.skip(1).skip(pos - 1) =~= s.skip(pos));
    }
}

/// In a strictly descending index list whose indices are below `n`, the
/// index at position `k` is below `n - k`.
pub proof fn lemma_strict_desc_bound(s: Seq<(int, nat)>, n: nat, k: int)
    requires
        forall|a: int, b: int| 0 <= a < b < s.len()
            ==> (#[trigger] s[a]).1 > (#[trigger] s[b]).1,
        forall|a: int| 0 <= a < s.len() ==> (#[trigger] s[a]).1 < n,
        0 <= k < s.len(),
    ensures
        s[k].1 + k < n,
    decreases k,
{
    if k > 0 {
        lemma_strict_desc_bound(s, n, k - 1);
        assert(s[k - 1].1 > s[k].1);
    }
}

/// The ascending full point list of an evaluation.
pub open spec fn asc_points(pts: Seq<int>) -> Seq<(int, nat)> {
    Seq::new(pts.len(), |i: int| (pts[i], i as nat))
}

/// The same list sorted by decreasing variable index.
pub open spec fn desc_points(pts: Seq<int>) -> Seq<(int, nat)> {
    Seq::new(pts.len(), |j: int| (pts[pts.len() - 1 - j], (pts.len() - 1 - j) as nat))
}

/// Sorting the ascending full list reverses it.
pub proof fn lemma_sort_asc(pts: Seq<int>)
    ensures
        sort_desc(asc_points(pts)) =~= desc_points(pts),
    decreases pts.len(),
{
    let n = pts.len() as int;
    if n > 0 {
        let s = asc_points(pts);
        assert(s.drop_last() =~= asc_points(pts.take(n - 1)));
        lemma_sort_asc(pts.take(n - 1));
        assert(s.last() == (pts[n - 1], (n - 1) as nat));
        let rest = desc_points(pts.take(n - 1));
        if rest.len() == 0 {
            assert(insert_desc(s.last(), rest) =~= desc_points(pts));
        } else {
            assert(rest[0].1 == n - 2);
            assert(s.last().1 >= rest[0].1);
            assert(insert_desc(s.last(), rest) =~= seq![s.last()] + rest);
            assert(seq![s.last()] + rest =~= desc_points(pts));
        }
    }
}

/// Fixing all variables in decreasing order leaves the single value of the
/// polynomial at the point.
pub proof fn lemma_fix_list_full(e: Seq<int>, pts: Seq<int>)
    requires
        e.len() == pow2(pts.len()),
    ensures
        fix_list(e, desc_points(pts)).len() == 1,
        fix_list(e, desc_points(pts))[0] % (MODULUS as int) == ml_eval(e, pts),
    decreases pts.len(),
{
    let n = pts.len() as int;
    let d = desc_points(pts);
    if n == 0 {
        vstd::arithmetic::power2::lemma2_to64();
        assert(d =~= Seq::<(int, nat)>::empty());
    } else {
        lemma_lg_pow2(pts.len());
        assert(lg(e.len()) == pts.len());
        let x = pts[n - 1];
        assert(d[0] == (x, (n - 1) as nat));
        let e1 = ml_fix(e, x, (n - 1) as nat);
        assert(d.skip(1) =~= desc_points(pts.take(n - 1)));
        assert(e1.len() == pow2((pts.len() - 1) as nat)) by {
            vstd::arithmetic::power2::lemma_pow2_unfold(pts.len());
        }
        lemma_fix_list_full(e1, pts.take(n - 1));
        lemma_fix_then_eval(e, x, (n - 1) as nat, pts.take(n - 1));
        pts.take(n - 1).insert_ensures(n - 1, x);
        assert(pts.take(n - 1).insert(n - 1, x) =~= pts);
    }
}

/// Every residue sum is canonical.
pub proof fn lemma_fsum_canonical(s: Seq<int>)
    ensures
        in_field(fsum(s)),
{
    if s.len() == 0 {
    } else {
        vstd::arithmetic::div_mod::lemma_mod_bound(
            fsum(s.drop_last()) + s.last(), MODULUS as int);
    }
}

/// The sum of a concatenation is the sum of the sums.
pub proof fn lemma_fsum_concat(a: Seq<int>, b: Seq<int>)
    ensures
        fsum(a + b) == fadd(fsum(a), fsum(b)),
    decreases b.len(),
{
    if b.len() == 0 {
        assert(a + b =~= a);
        lemma_fsum_canonical(a);
        lemma_mod_small(fsum(a));
    } else {
        assert((a + b).drop_last() =~= a + b.drop_last());
        assert((a + b).last() == b.last());
        lemma_fsum_concat(a, b.drop_last());
        // Reassociate under the reduction.
        lemma_mod_idempotent(fsum(a) + fsum(b.drop_last()));
        lemma_add_congruence(
            fadd(fsum(a), fsum(b.drop_last())), fsum(a) + fsum(b.drop_last()),
            b.last(), b.last());
        lemma_mod_idempotent(fsum(b.drop_last()) + b.last());
        lemma_add_congruence(
            fsum(a), fsum(a),
            fadd(fsum(b.drop_last()), b.last()), fsum(b.drop_last()) + b.last());
    }
}

/// The sum of a table is the sum of its two halves.
pub proof fn lemma_fsum_halves(e: Seq<int>)
    requires
        e.len() % 2 == 0,
    ensures
        fsum(e) == fadd(fsum(e.take(e.len() as int / 2)), fsum(e.skip(e.len() as int / 2))),
{
    let h = e.len() as int / 2;
    assert(e =~= e.take(h) + e.skip(h));
    lemma_fsum_concat(e.take(h), e.skip(h));
}

/// Interpolation distributes over residue addition.
proof fn lemma_lerp_additive(a0: int, b0: int, a1: int, b1: int, x: int)
    ensures
        fadd(lerp(a0, b0, x), lerp(a1, b1, x)) == lerp(fadd(a0, a1), fadd(b0, b1), x),
{
    let la = a0 + (b0 - a0) * x;
    let lb = a1 + (b1 - a1) * x;
    lemma_lerp_flat(a0, b0, x);
    lemma_lerp_flat(a1, b1, x);
    lemma_mod_idempotent(la);
    lemma_mod_idempotent(lb);
    lemma_add_congruence(lerp(a0, b0, x), la, lerp(a1, b1, x), lb);
    lemma_lerp_flat(fadd(a0, a1), fadd(b0, b1), x);
    lemma_mod_idempotent(a0 + a1);
    lemma_mod_idempotent(b0 + b1);
    lemma_sub_congruence(fadd(b0, b1), b0 + b1, fadd(a0, a1), a0 + a1);
    lemma_mul_congruence(fadd(b0, b1) - fadd(a0, a1), (b0 + b1) - (a0 + a1), x, x);
    lemma_add_congruence(
        fadd(a0, a1), a0 + a1,
        (fadd(b0, b1) - fadd(a0, a1)) * x, ((b0 + b1) - (a0 + a1)) * x);
    assert(la + lb == (a0 + a1) + (((b0 + b1) - (a0 + a1))) * x) by (nonlinear_arith)
        requires la == a0 + (b0 - a0) * x, lb == a1 + (b1 - a1) * x;
}

/// Summing a pointwise interpolation interpolates the sums.
pub proof fn lemma_fsum_lerp(a: Seq<int>, b: Seq<int>, x: int)
    requires
        a.len() == b.len(),
    ensures
        fsum(Seq::new(a.len(), |i: int| lerp(a[i], b[i], x)))
            == lerp(fsum(a), fsum(b), x),
    decreases a.len(),
{
    let c = Seq::new(a.len(), |i: int| lerp(a[i], b[i], x));
    if a.len() == 0 {
        lemma_lerp_flat(0, 0, x);
    } else {
        assert(c.drop_last() =~= Seq::new(a.drop_last().len(),
            |i: int| lerp(a.drop_last()[i], b.drop_last()[i], x)));
        lemma_fsum_lerp(a.drop_last(), b.drop_last(), x);
        // fsum(c) adds the last interpolated entry; the last entries of a and
        // b are interpolations of themselves under the sum.
        assert(c.last() == lerp(a.last(), b.last(), x));
        lemma_lerp_additive(fsum(a.drop_last()), fsum(b.drop_last()), a.last(), b.last(), x);
        // The right-hand side folds the last entries into the sums.
        lemma_fsum_canonical(a.drop_last());
        lemma_fsum_canonical(b.drop_last());
        // lerp respects congruence: fadd(fsum(a'), a.last()) is fsum(a).
        lemma_lerp_congruence(
            fadd(fsum(a.drop_last()), a.last()), fsum(a),
            fadd(fsum(b.drop_last()), b.last()), fsum(b),
            x,
        );
    }
}

/// The sum of the table with variable 0 fixed at `x` interpolates the two
/// half sums at `x`.
pub proof fn lemma_fsum_fix0(e: Seq<int>, x: int)
    requires
        is_pow2(e.len()),
        e.len() >= 2,
    ensures
        fsum(ml_fix(e, x, 0)) == lerp(
            fsum(e.take(e.len() as int / 2)),
            fsum(e.skip(e.len() as int / 2)),
            x,
        ),
{
    let h = e.len() as int / 2;
    lemma_pow2_halves(e.len());
    lemma_fix_var0(e, x);
    assert(ml_fix(e, x, 0) =~= Seq::new(e.take(h).len(),
        |i: int| lerp(e.take(h)[i], e.skip(h)[i], x)));
    lemma_fsum_lerp(e.take(h), e.skip(h), x);
}

/// Evaluating at a point equals fixing variable 0 at the point's head and
/// evaluating the rest.
pub proof fn lemma_eval_prepend(e: Seq<int>, x: int, rest: Seq<int>)
    requires
        is_pow2(e.len()),
        rest.len() + 1 == lg(e.len()),
    ensures
        ml_eval(e, seq![x] + rest) == ml_eval(ml_fix(e, x, 0), rest),
{
    lemma_fix_then_eval(e, x, 0, rest);
    rest.insert_ensures(0, x);
    assert(rest.insert(0, x) =~= seq![x] + rest);
}

} // verus!
