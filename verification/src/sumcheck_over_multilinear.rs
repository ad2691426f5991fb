//! The sumcheck protocol over a single multilinear polynomial, made
//! non-interactive with a Fiat-Shamir transcript.
//!
//! The prover claims that the polynomial's evaluations over the Boolean
//! hypercube sum to `claimed_sum`. Each round sends the degree-1 univariate
//! that restricts the current polynomial to its first variable; the verifier
//! checks consistency round by round and finishes with one oracle query.

use crate::field::{fadd, fsub, fmul, fsum, be_bytes8, be_bytes_mod, fe_views, fe_seq_bytes,
    FieldElement};
use crate::multilinear::{lg, ml_eval, ml_fix, MultilinearPolynomial};
use crate::transcript::{keccak256, Transcript};
use crate::univariate::{horner, DenseUnivariatePolynomial};
use vstd::prelude::*;

verus! {

/// The transcript seed: the claimed sum, then the polynomial's table.
pub open spec fn sc_seed(e: Seq<int>, cs: int) -> Seq<u8> {
    be_bytes8(cs) + fe_seq_bytes(e)
}

/// The coefficients of one round polynomial: the unique line through
/// `(0, sum of the first half)` and `(1, sum of the second half)`.
pub open spec fn sc_round_coeffs(e: Seq<int>) -> Seq<int> {
    let f0 = fsum(e.take(e.len() as int / 2));
    let f1 = fsum(e.skip(e.len() as int / 2));
    seq![f0, fsub(f1, f0)]
}

/// The round polynomials of the honest prover, starting from table `e` and
/// transcript state `t`, for `k` rounds.
pub open spec fn sc_rounds(e: Seq<int>, t: Seq<u8>, k: nat) -> Seq<Seq<int>>
    decreases k,
{
    if k == 0 {
        Seq::empty()
    } else {
        let u = sc_round_coeffs(e);
        let t1 = t + fe_seq_bytes(u);
        let r = be_bytes_mod(keccak256(t1));
        seq![u] + sc_rounds(ml_fix(e, r, 0), keccak256(t1), (k - 1) as nat)
    }
}

/// Whether every round check passes: each round polynomial is non-empty and
/// interpolates the running sum at 0 and 1.
pub open spec fn sc_ok(rps: Seq<Seq<int>>, t: Seq<u8>, cur: int) -> bool
    decreases rps.len(),
{
    if rps.len() == 0 {
        true
    } else {
        let u = rps[0];
        let t1 = t + fe_seq_bytes(u);
        let r = be_bytes_mod(keccak256(t1));
        &&& u.len() >= 1
        &&& cur == fadd(horner(u, 0), horner(u, 1))
        &&& sc_ok(rps.skip(1), keccak256(t1), horner(u, r))
    }
}

/// The running sum after all rounds.
pub open spec fn sc_final(rps: Seq<Seq<int>>, t: Seq<u8>, cur: int) -> int
    decreases rps.len(),
{
    if rps.len() == 0 {
        cur
    } else {
        let u = rps[0];
        let t1 = t + fe_seq_bytes(u);
        let r = be_bytes_mod(keccak256(t1));
        sc_final(rps.skip(1), keccak256(t1), horner(u, r))
    }
}

/// The challenges the transcript yields for the given round polynomials.
pub open spec fn sc_challenges(rps: Seq<Seq<int>>, t: Seq<u8>) -> Seq<int>
    decreases rps.len(),
{
    if rps.len() == 0 {
        Seq::empty()
    } else {
        let u = rps[0];
        let t1 = t + fe_seq_bytes(u);
        let r = be_bytes_mod(keccak256(t1));
        seq![r] + sc_challenges(rps.skip(1), keccak256(t1))
    }
}

/// The views of a list of round polynomials.
pub open spec fn rounds_views(rps: Seq<DenseUnivariatePolynomial>) -> Seq<Seq<int>> {
    rps.map(|i: int, p: DenseUnivariatePolynomial| p@)
}

/// Whether the verifier accepts a proof for the polynomial with table `e`:
/// one round polynomial per variable, every round check passes, and the
/// final running sum equals the polynomial at the challenge point.
pub open spec fn sc_accepts(e: Seq<int>, cs: int, rps: Seq<Seq<int>>) -> bool {
    let t0 = sc_seed(e, cs);
    &&& rps.len() == lg(e.len())
    &&& sc_ok(rps, t0, cs)
    &&& sc_final(rps, t0, cs) == ml_eval(e, sc_challenges(rps, t0))
}

/// The honest prover emits one round polynomial per variable.
pub proof fn lemma_sc_rounds_len(e: Seq<int>, t: Seq<u8>, k: nat)
    ensures
        sc_rounds(e, t, k).len() == k,
    decreases k,
{
    if k > 0 {
        let u = sc_round_coeffs(e);
        let t1 = t + fe_seq_bytes(u);
        let r = be_bytes_mod(keccak256(t1));
        lemma_sc_rounds_len(ml_fix(e, r, 0), keccak256(t1), (k - 1) as nat);
    }
}

/// The protocol invariant: against the honest round polynomials, the round
/// checks pass exactly when the running sum is the true sum of the current
/// table, and the final running sum is the polynomial's value at the
/// challenge point.
#[verifier::rlimit(100)]
#[verifier::spinoff_prover]
proof fn lemma_sc_protocol(e: Seq<int>, t: Seq<u8>, cur: int)
    requires
        crate::multilinear::is_pow2(e.len()),
        crate::field::in_field(cur),
    ensures
        ({
            let rps = sc_rounds(e, t, lg(e.len()));
            let chal = sc_challenges(rps, t);
            &&& chal.len() == lg(e.len())
            &&& (sc_ok(rps, t, cur) && sc_final(rps, t, cur) == ml_eval(e, chal))
                <==> cur == fsum(e)
        }),
    decreases lg(e.len()),
{
    let m = crate::field::MODULUS as int;
    let n = lg(e.len());
    let rps = sc_rounds(e, t, n);
    let chal = sc_challenges(rps, t);
    if n == 0 {
        // A single-entry table: no rounds, only the oracle check.
        vstd::arithmetic::power2::lemma2_to64();
        assert(e.len() == 1);
        assert(rps =~= Seq::<Seq<int>>::empty());
        assert(chal =~= Seq::<int>::empty());
        assert(e.drop_last() =~= Seq::<int>::empty());
        assert(fsum(Seq::<int>::empty()) == 0);
        assert(e.last() == e[0]);
        assert(fsum(e) == fadd(0, e[0]));
        assert(ml_eval(e, chal) == e[0] % m);
    } else {
        crate::multilinear::lemma_pow2_halves(e.len());
        let h = e.len() as int / 2;
        let f0 = fsum(e.take(h));
        let f1 = fsum(e.skip(h));
        let u = sc_round_coeffs(e);
        let t1 = t + fe_seq_bytes(u);
        let r = be_bytes_mod(keccak256(t1));
        let next = ml_fix(e, r, 0);
        let tail = sc_rounds(next, keccak256(t1), (n - 1) as nat);
        assert(rps == seq![u] + tail);
        assert(rps[0] == u);
        assert(rps.skip(1) =~= tail);
        // The half sums are canonical residues.
        crate::multilinear_laws::lemma_fsum_canonical(e.take(h));
        crate::multilinear_laws::lemma_fsum_canonical(e.skip(h));
        crate::field::lemma_mod_small(f0);
        crate::field::lemma_mod_small(f1);
        vstd::arithmetic::div_mod::lemma_mod_bound(f1 - f0, m);
        // Horner values of the round polynomial at 0, 1, and r.
        assert(u.skip(1) =~= seq![u[1]]);
        assert(seq![u[1]].skip(1) =~= Seq::<int>::empty());
        crate::field::lemma_mod_small(0);
        assert(horner(Seq::<int>::empty(), 0) == 0);
        assert(horner(Seq::<int>::empty(), 1) == 0);
        assert(horner(Seq::<int>::empty(), r) == 0);
        assert(horner(seq![u[1]], 0) == fadd(u[1], fmul(0, 0)));
        assert(fmul(0, 0) == 0);
        crate::field::lemma_mod_small(u[1]);
        assert(horner(u, 0) == fadd(u[0], fmul(0, fadd(u[1], 0))));
        assert(fmul(0, fadd(u[1], 0)) == 0);
        assert(horner(u, 0) == fadd(f0, 0));
        assert(horner(u, 0) == f0);
        // At 1 the polynomial gives the second half sum.
        assert(horner(seq![u[1]], 1) == fadd(u[1], fmul(1, 0)));
        assert(fmul(1, 0) == 0);
        assert(fadd(u[1], 0) == u[1]);
        assert(fmul(1, u[1]) == u[1] % m);
        assert(horner(u, 1) == fadd(f0, u[1]));
        crate::field::lemma_mod_idempotent(f1 - f0);
        crate::field::lemma_add_congruence(f0, f0, fsub(f1, f0), f1 - f0);
        assert(horner(u, 1) == f1);
        // The round check compares the running sum against the table sum.
        crate::multilinear_laws::lemma_fsum_halves(e);
        assert(fadd(horner(u, 0), horner(u, 1)) == fsum(e));
        // The next running sum is the sum of the fixed table.
        assert(horner(seq![u[1]], r) == fadd(u[1], fmul(r, 0)));
        assert(fmul(r, 0) == 0);
        assert(horner(u, r) == fadd(f0, fmul(r, u[1])));
        vstd::arithmetic::mul::lemma_mul_is_commutative(r, u[1]);
        assert(horner(u, r) == crate::multilinear::lerp(f0, f1, r));
        crate::multilinear_laws::lemma_fsum_fix0(e, r);
        assert(horner(u, r) == fsum(next));
        let cur2 = horner(u, r);
        vstd::arithmetic::div_mod::lemma_mod_bound(f0 + fmul(r, u[1]), m);
        assert(crate::field::in_field(cur2));
        // Recurse on the fixed table.
        lemma_sc_protocol(next, keccak256(t1), cur2);
        let chal2 = sc_challenges(tail, keccak256(t1));
        assert(chal =~= seq![r] + chal2);
        crate::multilinear_laws::lemma_eval_prepend(e, r, chal2);
        assert(sc_final(rps, t, cur) == sc_final(tail, keccak256(t1), cur2));
        assert(sc_ok(tail, keccak256(t1), cur2));
        assert(sc_final(tail, keccak256(t1), cur2) == ml_eval(next, chal2));
        assert(ml_eval(e, chal) == ml_eval(next, chal2));
    }
}

/// Completeness and the deterministic core of soundness against this
/// prover: the verifier accepts the proof `prove` builds for `claimed_sum`
/// exactly when `claimed_sum` is the true sum of the table over the Boolean
/// hypercube. In particular every honestly generated proof is accepted, and
/// a proof generated for any other claimed sum is rejected.
pub proof fn lemma_verify_honest_proof(e: Seq<int>, cs: int)
    requires
        crate::multilinear::is_pow2(e.len()),
        crate::field::in_field(cs),
    ensures
        sc_accepts(e, cs, sc_rounds(e, sc_seed(e, cs), lg(e.len()))) <==> cs == fsum(e),
{
    lemma_sc_rounds_len(e, sc_seed(e, cs), lg(e.len()));
    lemma_sc_protocol(e, sc_seed(e, cs), cs);
}

/// The transcript seed determines the polynomial: two canonical tables of
/// the same size with the same seed are equal. Handing the verifier a
/// different polynomial of the same size therefore changes the bytes from
/// which it derives every challenge and its oracle check.
pub proof fn lemma_seed_determines_polynomial(e1: Seq<int>, e2: Seq<int>, cs: int)
    requires
        e1.len() == e2.len(),
        forall|i: int| 0 <= i < e1.len() ==> crate::field::in_field(#[trigger] e1[i]),
        forall|i: int| 0 <= i < e2.len() ==> crate::field::in_field(#[trigger] e2[i]),
        sc_seed(e1, cs) == sc_seed(e2, cs),
    ensures
        e1 == e2,
{
    crate::field::lemma_fe_seq_bytes_len(e1);
    crate::field::lemma_fe_seq_bytes_len(e2);
    assert(fe_seq_bytes(e1) =~= sc_seed(e1, cs).skip(8));
    assert(fe_seq_bytes(e2) =~= sc_seed(e2, cs).skip(8));
    crate::field::lemma_fe_seq_bytes_injective(e1, e2);
}

/// A non-interactive sumcheck proof: the claimed sum and one round
/// polynomial per variable.
#[derive(Debug)]
pub struct SumcheckProof {
    pub claimed_sum: FieldElement,
    pub round_polynomials: Vec<DenseUnivariatePolynomial>,
}

impl SumcheckProof {
    /// Wraps a claimed sum and its round polynomials.
    pub fn new(claimed_sum: FieldElement, round_polynomials: Vec<DenseUnivariatePolynomial>)
        -> (r: SumcheckProof)
        ensures
            r.claimed_sum == claimed_sum,
            r.round_polynomials@ == round_polynomials@,
    {
        SumcheckProof { claimed_sum, round_polynomials }
    }
}

/// The round polynomial of the current table: sums each half of the table
/// (the restrictions of the first variable to 0 and to 1) and returns the
/// line through those two values, in coefficient form.
pub fn skip_one_and_sum_over_boolean_hypercube(polynomial: &MultilinearPolynomial) -> (r:
    DenseUnivariatePolynomial)
    ensures
        r@ == sc_round_coeffs(polynomial@),
{
    let half = polynomial.evals.len() / 2;
    let mut f0 = FieldElement::zero();
    let mut i: usize = 0;
    proof {
        assert(polynomial@.take(0int) =~= Seq::<int>::empty());
    }
    while i < half
        invariant
            half <= polynomial.evals@.len(),
            i <= half,
            f0@ == fsum(polynomial@.take(i as int)),
        decreases half - i,
    {
        proof {
            assert(polynomial@[i as int] == polynomial.evals@[i as int]@);
            assert(polynomial@.take(i as int + 1).drop_last()
                =~= polynomial@.take(i as int));
        }
        f0 = f0.add(polynomial.evals[i]);
        i = i + 1;
    }
    let mut f1 = FieldElement::zero();
    proof {
        assert(polynomial@.subrange(half as int, half as int) =~= Seq::<int>::empty());
    }
    while i < polynomial.evals.len()
        invariant
            half <= i <= polynomial.evals@.len(),
            f1@ == fsum(polynomial@.subrange(half as int, i as int)),
        decreases polynomial.evals@.len() - i,
    {
        proof {
            assert(polynomial@[i as int] == polynomial.evals@[i as int]@);
            assert(polynomial@.subrange(half as int, i as int + 1).drop_last()
                =~= polynomial@.subrange(half as int, i as int));
        }
        f1 = f1.add(polynomial.evals[i]);
        i = i + 1;
    }
    proof {
        assert(polynomial@.take(half as int)
            =~= polynomial@.take(polynomial@.len() as int / 2));
        assert(polynomial@.subrange(half as int, polynomial@.len() as int)
            =~= polynomial@.skip(polynomial@.len() as int / 2));
    }
    let coefficients = vec![f0, f1.sub(f0)];
    let r = DenseUnivariatePolynomial { coefficients };
    proof {
        assert(r@ =~= sc_round_coeffs(polynomial@));
    }
    r
}

/// Produces a sumcheck proof for the claim that the polynomial sums to
/// `claimed_sum` over the Boolean hypercube. The transcript absorbs the
/// claimed sum, the polynomial, and each round polynomial in turn.
pub fn prove(polynomial: &MultilinearPolynomial, claimed_sum: FieldElement) -> (r:
    SumcheckProof)
    requires
        polynomial.wf(),
    ensures
        r.claimed_sum == claimed_sum,
        rounds_views(r.round_polynomials@) == sc_rounds(
            polynomial@,
            sc_seed(polynomial@, claimed_sum@),
            polynomial.spec_n_vars(),
        ),
{
    let ghost e0 = polynomial@;
    let ghost t0 = sc_seed(polynomial@, claimed_sum@);
    let n = polynomial.n_vars();
    let mut transcript = Transcript::new();
    transcript.append_field_element(&claimed_sum);
    let poly_bytes = polynomial.to_bytes();
    transcript.append(poly_bytes.as_slice());
    proof {
        assert(transcript@ =~= t0);
    }
    let mut round_polynomials: Vec<DenseUnivariatePolynomial> = Vec::new();
    let mut current = MultilinearPolynomial::new_copy(polynomial);
    let mut i: usize = 0;
    proof {
        assert(rounds_views(round_polynomials@) =~= Seq::<Seq<int>>::empty());
        assert(rounds_views(round_polynomials@) + sc_rounds(current@, transcript@, n as nat)
            =~= sc_rounds(e0, t0, n as nat));
    }
    while i < n
        invariant
            i <= n,
            current.wf(),
            current.spec_n_vars() + i as nat == n as nat,
            round_polynomials@.len() == i,
            sc_rounds(e0, t0, n as nat) == rounds_views(round_polynomials@)
                + sc_rounds(current@, transcript@, (n - i) as nat),
        decreases n - i,
    {
        let round_polynomial = skip_one_and_sum_over_boolean_hypercube(&current);
        let ghost pre_rounds = round_polynomials@;
        let ghost pre_table = current@;
        let ghost pre_t = transcript@;
        let round_bytes = round_polynomial.to_bytes();
        transcript.append(round_bytes.as_slice());
        round_polynomials.push(round_polynomial);
        let challenge = transcript.sample_field_element();
        current = current.partial_evaluate(challenge, 0);
        i = i + 1;
        proof {
            let u = sc_round_coeffs(pre_table);
            let t1 = pre_t + fe_seq_bytes(u);
            assert(sc_rounds(pre_table, pre_t, (n - i + 1) as nat)
                == seq![u] + sc_rounds(ml_fix(pre_table, challenge@, 0), keccak256(t1),
                    (n - i) as nat));
            assert(rounds_views(round_polynomials@)
                =~= rounds_views(pre_rounds).push(u));
            assert(rounds_views(pre_rounds).push(u)
                + sc_rounds(current@, transcript@, (n - i) as nat)
                =~= rounds_views(pre_rounds)
                    + (seq![u] + sc_rounds(current@, transcript@, (n - i) as nat)));
        }
    }
    proof {
        assert(sc_rounds(current@, transcript@, 0) =~= Seq::<Seq<int>>::empty());
        assert(rounds_views(round_polynomials@) + sc_rounds(current@, transcript@, 0)
            =~= rounds_views(round_polynomials@));
    }
    SumcheckProof { claimed_sum, round_polynomials }
}

/// Checks a sumcheck proof: replays the transcript, checks each round
/// polynomial against the running sum at 0 and 1, and finishes by comparing
/// the running sum with the polynomial's value at the challenge point.
pub fn verify(polynomial: &MultilinearPolynomial, proof: &SumcheckProof) -> (r: bool)
    requires
        polynomial.wf(),
    ensures
        r == sc_accepts(polynomial@, proof.claimed_sum@,
            rounds_views(proof.round_polynomials@)),
{
    let ghost e0 = polynomial@;
    let ghost cs0 = proof.claimed_sum@;
    let ghost rps = rounds_views(proof.round_polynomials@);
    let ghost t0 = sc_seed(polynomial@, proof.claimed_sum@);
    let n = polynomial.n_vars();
    if proof.round_polynomials.len() != n {
        return false;
    }
    let mut transcript = Transcript::new();
    transcript.append_field_element(&proof.claimed_sum);
    let poly_bytes = polynomial.to_bytes();
    transcript.append(poly_bytes.as_slice());
    proof {
        assert(transcript@ =~= t0);
    }
    let mut current_sum = proof.claimed_sum;
    let mut challenges: Vec<FieldElement> = Vec::new();
    let mut i: usize = 0;
    proof {
        assert(rps.skip(0int) =~= rps);
        assert(fe_views(challenges@) =~= Seq::<int>::empty());
        assert(fe_views(challenges@) + sc_challenges(rps, t0) =~= sc_challenges(rps, t0));
    }
    while i < n
        invariant
            polynomial.wf(),
            n as nat == lg(polynomial@.len()),
            e0 == polynomial@,
            cs0 == proof.claimed_sum@,
            t0 == sc_seed(e0, cs0),
            rps == rounds_views(proof.round_polynomials@),
            proof.round_polynomials@.len() == n,
            i <= n,
            challenges@.len() == i,
            sc_ok(rps, t0, cs0) == sc_ok(rps.skip(i as int), transcript@, current_sum@),
            sc_final(rps, t0, cs0)
                == sc_final(rps.skip(i as int), transcript@, current_sum@),
            sc_challenges(rps, t0) == fe_views(challenges@)
                + sc_challenges(rps.skip(i as int), transcript@),
        decreases n - i,
    {
        let round_polynomial = &proof.round_polynomials[i];
        proof {
            assert(rps.skip(i as int)[0] == rps[i as int]);
            assert(rps[i as int] == proof.round_polynomials@[i as int]@);
            assert(rps.skip(i as int).skip(1) =~= rps.skip(i as int + 1));
        }
        if round_polynomial.coefficients.len() == 0 {
            // A malformed round polynomial: reject.
            proof {
                assert(!sc_ok(rps.skip(i as int), transcript@, current_sum@));
            }
            return false;
        }
        let p_0 = round_polynomial.evaluate(FieldElement::zero());
        let p_1 = round_polynomial.evaluate(FieldElement::one());
        let check = p_0.add(p_1);
        proof {
            FieldElement::lemma_view_injective(current_sum, check);
        }
        if !(current_sum == check) {
            proof {
                assert(!sc_ok(rps.skip(i as int), transcript@, current_sum@));
            }
            return false;
        }
        let ghost pre_t = transcript@;
        let ghost pre_challenges = challenges@;
        let round_bytes = round_polynomial.to_bytes();
        transcript.append(round_bytes.as_slice());
        let challenge = transcript.sample_field_element();
        current_sum = round_polynomial.evaluate(challenge);
        challenges.push(challenge);
        i = i + 1;
        proof {
            let u = rps[i - 1];
            let t1 = pre_t + fe_seq_bytes(u);
            assert(fe_views(challenges@) =~= fe_views(pre_challenges).push(challenge@));
            assert(fe_views(pre_challenges).push(challenge@)
                + sc_challenges(rps.skip(i as int), transcript@)
                =~= fe_views(pre_challenges)
                    + (seq![challenge@] + sc_challenges(rps.skip(i as int), transcript@)));
        }
    }
    proof {
        assert(rps.skip(n as int) =~= Seq::<Seq<int>>::empty());
        assert(fe_views(challenges@) + sc_challenges(rps.skip(n as int), transcript@)
            =~= fe_views(challenges@));
    }
    let expected = polynomial.evaluate(challenges.as_slice());
    proof {
        FieldElement::lemma_view_injective(current_sum, expected);
    }
    current_sum == expected
}

} // verus!
