//! The sumcheck protocol over a sum of products of multilinear polynomials.
//!
//! Each round polynomial has degree equal to the product arity `d`: the
//! prover evaluates the round function at `0, 1, ..., d` and interpolates.
//! The `partial_` entry points run on a caller-supplied transcript so that
//! an outer protocol can compose them; `prove` and `verify` seed a fresh
//! transcript with the serialized polynomial.

use crate::field::{fsum, be_bytes8, be_bytes_mod, fe_views, fe_seq_bytes, FieldElement,
    MODULUS};
use crate::multilinear::{lg, ml_fix};
use crate::sum::{products_bytes, pw_sum, sum_eval, SumPolynomial};
use crate::sumcheck_over_multilinear::{sc_challenges, sc_final, sc_ok, rounds_views};
use crate::transcript::{keccak256, Transcript};
use crate::univariate::{interp_poly, DenseUnivariatePolynomial};
use vstd::prelude::*;

verus! {

/// The family with variable 0 of every factor fixed to `x`.
pub open spec fn sp_fix(s: Seq<Seq<Seq<int>>>, x: int) -> Seq<Seq<Seq<int>>> {
    Seq::new(s.len(), |i: int| Seq::new(s[i].len(), |j: int| ml_fix(s[i][j], x, 0)))
}

/// The round function at `x`: the sum over the remaining hypercube of the
/// sum of products with variable 0 fixed to `x`.
pub open spec fn sp_round_eval(s: Seq<Seq<Seq<int>>>, x: int) -> int {
    fsum(pw_sum(sp_fix(s, x)))
}

/// The round polynomial: the interpolation of the round function through
/// `0, 1, ..., d`, in coefficient form.
pub open spec fn sp_round_poly(s: Seq<Seq<Seq<int>>>, d: nat) -> Seq<int> {
    interp_poly(
        Seq::new(d + 1, |i: int| i),
        Seq::new(d + 1, |i: int| sp_round_eval(s, i)),
    )
}

/// The round polynomials of the honest prover over `k` rounds.
pub open spec fn sp_rounds(s: Seq<Seq<Seq<int>>>, d: nat, t: Seq<u8>, k: nat) -> Seq<Seq<int>>
    decreases k,
{
    if k == 0 {
        Seq::empty()
    } else {
        let u = sp_round_poly(s, d);
        let t1 = t + fe_seq_bytes(u);
        let r = be_bytes_mod(keccak256(t1));
        seq![u] + sp_rounds(sp_fix(s, r), d, keccak256(t1), (k - 1) as nat)
    }
}

/// The challenges drawn by the honest prover over `k` rounds.
pub open spec fn sp_chals(s: Seq<Seq<Seq<int>>>, d: nat, t: Seq<u8>, k: nat) -> Seq<int>
    decreases k,
{
    if k == 0 {
        Seq::empty()
    } else {
        let u = sp_round_poly(s, d);
        let t1 = t + fe_seq_bytes(u);
        let r = be_bytes_mod(keccak256(t1));
        seq![r] + sp_chals(sp_fix(s, r), d, keccak256(t1), (k - 1) as nat)
    }
}

/// The transcript state after the honest prover's `k` rounds.
pub open spec fn sp_state(s: Seq<Seq<Seq<int>>>, d: nat, t: Seq<u8>, k: nat) -> Seq<u8>
    decreases k,
{
    if k == 0 {
        t
    } else {
        let u = sp_round_poly(s, d);
        let t1 = t + fe_seq_bytes(u);
        let r = be_bytes_mod(keccak256(t1));
        sp_state(sp_fix(s, r), d, keccak256(t1), (k - 1) as nat)
    }
}

/// The transcript state after the verifier replays the given rounds.
pub open spec fn sc_state(rps: Seq<Seq<int>>, t: Seq<u8>) -> Seq<u8>
    decreases rps.len(),
{
    if rps.len() == 0 {
        t
    } else {
        sc_state(rps.skip(1), keccak256(t + fe_seq_bytes(rps[0])))
    }
}

/// Whether the verifier accepts a proof for the sum of products `s`:
/// one non-empty round polynomial per variable, every round check passes,
/// and the final running sum equals the sum polynomial at the challenges.
pub open spec fn sp_accepts(s: Seq<Seq<Seq<int>>>, cs: int, rps: Seq<Seq<int>>) -> bool {
    let t0 = products_bytes(s) + be_bytes8(cs);
    &&& rps.len() == lg(s[0][0].len())
    &&& rps.len() >= 1
    &&& sc_ok(rps, t0, cs)
    &&& sc_final(rps, t0, cs) == sum_eval(s, sc_challenges(rps, t0))
}

/// The sum of a table of field elements.
fn sum_evals(evals: &[FieldElement]) -> (r: FieldElement)
    ensures
        r@ == fsum(fe_views(evals@)),
{
    let mut acc = FieldElement::zero();
    let mut i: usize = 0;
    proof {
        assert(fe_views(evals@).take(0int) =~= Seq::<int>::empty());
    }
    while i < evals.len()
        invariant
            i <= evals@.len(),
            acc@ == fsum(fe_views(evals@).take(i as int)),
        decreases evals@.len() - i,
    {
        proof {
            assert(fe_views(evals@).take(i as int + 1).drop_last()
                =~= fe_views(evals@).take(i as int));
            assert(fe_views(evals@).take(i as int + 1).last()
                == evals@[i as int]@);
        }
        acc = acc.add(evals[i]);
        i = i + 1;
    }
    proof {
        assert(fe_views(evals@).take(evals@.len() as int) =~= fe_views(evals@));
    }
    acc
}

/// Runs the prover's rounds on a caller-supplied transcript. Derives the
/// claimed sum from the elementwise reduction, absorbs it, and then, per
/// round, absorbs the interpolated round polynomial and fixes variable 0 of
/// every factor at the squeezed challenge.
#[verifier::rlimit(100)]
pub fn partial_prove(sum_polynomial: SumPolynomial, transcript: &mut Transcript) -> (r: (
    FieldElement,
    Vec<DenseUnivariatePolynomial>,
    Vec<FieldElement>,
))
    requires
        sum_polynomial.wf(),
        sum_polynomial@.len() >= 2,
        sum_polynomial.spec_degree() >= 2,
        sum_polynomial.spec_degree() + 3 <= usize::MAX,
        sum_polynomial.spec_degree() + 1 < MODULUS,
    ensures
        ({
            let s0 = sum_polynomial@;
            let d = sum_polynomial.spec_degree();
            let n = sum_polynomial.spec_n_vars();
            let cs = fsum(pw_sum(s0));
            let t0 = old(transcript)@ + be_bytes8(cs);
            &&& r.0@ == cs
            &&& rounds_views(r.1@) == sp_rounds(s0, d, t0, n)
            &&& fe_views(r.2@) == sp_chals(s0, d, t0, n)
            &&& r.1@.len() == n
            &&& r.2@.len() == n
            &&& final(transcript)@ == sp_state(s0, d, t0, n)
        }),
{
    let ghost s0 = sum_polynomial@;
    let ghost d_spec = sum_polynomial.spec_degree();
    let ghost n_spec = sum_polynomial.spec_n_vars();
    let reduced = sum_polynomial.element_wise_add();
    let claimed_sum = sum_evals(reduced.evals.as_slice());
    let n = sum_polynomial.n_vars();
    let degree = sum_polynomial.degree();
    transcript.append_field_element(&claimed_sum);
    let ghost t0 = transcript@;
    let mut round_polynomials: Vec<DenseUnivariatePolynomial> = Vec::new();
    let mut challenges: Vec<FieldElement> = Vec::new();
    let mut current = sum_polynomial;
    let mut i: usize = 0;
    proof {
        assert(rounds_views(round_polynomials@) =~= Seq::<Seq<int>>::empty());
        assert(fe_views(challenges@) =~= Seq::<int>::empty());
        assert(rounds_views(round_polynomials@) + sp_rounds(current@, d_spec, transcript@,
            n_spec) =~= sp_rounds(s0, d_spec, t0, n_spec));
        assert(fe_views(challenges@) + sp_chals(current@, d_spec, transcript@, n_spec)
            =~= sp_chals(s0, d_spec, t0, n_spec));
    }
    while i < n
        invariant
            i <= n,
            current.wf(),
            current@.len() >= 2,
            current.spec_degree() == d_spec,
            degree == d_spec,
            d_spec >= 2,
            d_spec + 3 <= usize::MAX,
            d_spec + 1 < MODULUS,
            current.spec_n_vars() + i as nat == n as nat,
            round_polynomials@.len() == i,
            challenges@.len() == i,
            sp_rounds(s0, d_spec, t0, n as nat) == rounds_views(round_polynomials@)
                + sp_rounds(current@, d_spec, transcript@, (n - i) as nat),
            sp_chals(s0, d_spec, t0, n as nat) == fe_views(challenges@)
                + sp_chals(current@, d_spec, transcript@, (n - i) as nat),
            sp_state(s0, d_spec, t0, n as nat)
                == sp_state(current@, d_spec, transcript@, (n - i) as nat),
        decreases n - i,
    {
        let num_evals = degree + 1;
        let mut evals: Vec<FieldElement> = Vec::new();
        let mut x: usize = 0;
        while x < num_evals
            invariant
                x <= num_evals,
                num_evals == d_spec + 1,
                d_spec + 1 < MODULUS,
                current.wf(),
                current@.len() >= 2,
                current.spec_degree() == d_spec,
                d_spec >= 2,
                current.spec_n_vars() >= 1,
                evals@.len() == x,
                forall|q: int| 0 <= q < x
                    ==> (#[trigger] evals@[q])@ == sp_round_eval(current@, q),
            decreases num_evals - x,
        {
            let point = FieldElement::from_u64(x as u64);
            proof {
                vstd::arithmetic::div_mod::lemma_small_mod(x as nat, MODULUS as nat);
            }
            let partial = current.partial_evaluate(point, 0);
            proof {
                assert(partial@ =~~= sp_fix(current@, x as int));
            }
            let value = sum_evals(partial.element_wise_add().evals.as_slice());
            evals.push(value);
            x = x + 1;
        }
        let ghost pre_s = current@;
        let ghost pre_t = transcript@;
        let ghost pre_rounds = round_polynomials@;
        let ghost pre_chals = challenges@;
        let ghost evals_v = evals@;
        let round_polynomial = DenseUnivariatePolynomial::interpolate_y(evals);
        proof {
            assert(fe_views(evals_v)
                =~= Seq::new((d_spec + 1) as nat, |q: int| sp_round_eval(pre_s, q)));
            assert(round_polynomial@ == sp_round_poly(pre_s, d_spec));
        }
        let round_bytes = round_polynomial.to_bytes();
        transcript.append(round_bytes.as_slice());
        round_polynomials.push(round_polynomial);
        let challenge = transcript.sample_field_element();
        challenges.push(challenge);
        current = current.partial_evaluate(challenge, 0);
        i = i + 1;
        proof {
            assert(current@ =~~= sp_fix(pre_s, challenge@));
            let u = sp_round_poly(pre_s, d_spec);
            let t1 = pre_t + fe_seq_bytes(u);
            assert(sp_rounds(pre_s, d_spec, pre_t, (n - i + 1) as nat)
                == seq![u] + sp_rounds(current@, d_spec, transcript@, (n - i) as nat));
            assert(sp_chals(pre_s, d_spec, pre_t, (n - i + 1) as nat)
                == seq![challenge@] + sp_chals(current@, d_spec, transcript@,
                    (n - i) as nat));
            assert(sp_state(pre_s, d_spec, pre_t, (n - i + 1) as nat)
                == sp_state(current@, d_spec, transcript@, (n - i) as nat));
            assert(rounds_views(round_polynomials@)
                =~= rounds_views(pre_rounds).push(u));
            assert(rounds_views(pre_rounds).push(u)
                + sp_rounds(current@, d_spec, transcript@, (n - i) as nat)
                =~= rounds_views(pre_rounds)
                    + (seq![u] + sp_rounds(current@, d_spec, transcript@, (n - i) as nat)));
            assert(fe_views(challenges@) =~= fe_views(pre_chals).push(challenge@));
            assert(fe_views(pre_chals).push(challenge@)
                + sp_chals(current@, d_spec, transcript@, (n - i) as nat)
                =~= fe_views(pre_chals)
                    + (seq![challenge@] + sp_chals(current@, d_spec, transcript@,
                        (n - i) as nat)));
        }
    }
    proof {
        assert(rounds_views(round_polynomials@)
            + sp_rounds(current@, d_spec, transcript@, 0) =~= rounds_views(
            round_polynomials@));
        assert(fe_views(challenges@) + sp_chals(current@, d_spec, transcript@, 0)
            =~= fe_views(challenges@));
    }
    (claimed_sum, round_polynomials, challenges)
}

/// Produces a proof on a fresh transcript seeded with the serialized sum
/// polynomial; returns the derived claimed sum, the round polynomials, and
/// the challenges.
pub fn prove(sum_polynomial: SumPolynomial) -> (r: (
    FieldElement,
    Vec<DenseUnivariatePolynomial>,
    Vec<FieldElement>,
))
    requires
        sum_polynomial.wf(),
        sum_polynomial@.len() >= 2,
        sum_polynomial.spec_degree() >= 2,
        sum_polynomial.spec_degree() + 3 <= usize::MAX,
        sum_polynomial.spec_degree() + 1 < MODULUS,
    ensures
        ({
            let s0 = sum_polynomial@;
            let d = sum_polynomial.spec_degree();
            let n = sum_polynomial.spec_n_vars();
            let cs = fsum(pw_sum(s0));
            let t0 = products_bytes(s0) + be_bytes8(cs);
            &&& r.0@ == cs
            &&& rounds_views(r.1@) == sp_rounds(s0, d, t0, n)
            &&& fe_views(r.2@) == sp_chals(s0, d, t0, n)
            &&& r.1@.len() == n
            &&& r.2@.len() == n
        }),
{
    let mut transcript = Transcript::new();
    let poly_bytes = sum_polynomial.to_bytes();
    transcript.append(poly_bytes.as_slice());
    proof {
        assert(transcript@ =~= products_bytes(sum_polynomial@));
    }
    partial_prove(sum_polynomial, &mut transcript)
}

/// Replays the verifier's rounds on a caller-supplied transcript: absorbs
/// the claimed sum, then checks each round polynomial against the running
/// sum at 0 and 1 and advances the running sum to its value at the squeezed
/// challenge. Returns whether all rounds passed, the final running sum, and
/// the challenges. An empty proof is rejected.
pub fn partial_verify(
    transcript: &mut Transcript,
    claimed_sum: FieldElement,
    round_polynomials: Vec<DenseUnivariatePolynomial>,
) -> (r: (bool, FieldElement, Vec<FieldElement>))
    ensures
        ({
            let rvs = rounds_views(round_polynomials@);
            let t0 = old(transcript)@ + be_bytes8(claimed_sum@);
            &&& r.0 == (rvs.len() >= 1 && sc_ok(rvs, t0, claimed_sum@))
            &&& r.0 ==> r.1@ == sc_final(rvs, t0, claimed_sum@)
            &&& r.0 ==> fe_views(r.2@) == sc_challenges(rvs, t0)
            &&& r.0 ==> r.2@.len() == rvs.len()
            &&& r.0 ==> final(transcript)@ == sc_state(rvs, t0)
        }),
{
    let ghost rvs = rounds_views(round_polynomials@);
    let ghost cs0 = claimed_sum@;
    if round_polynomials.len() == 0 {
        let challenges: Vec<FieldElement> = Vec::new();
        return (false, claimed_sum, challenges);
    }
    transcript.append_field_element(&claimed_sum);
    let ghost t0 = transcript@;
    let mut current_sum = claimed_sum;
    let mut challenges: Vec<FieldElement> = Vec::new();
    let mut i: usize = 0;
    proof {
        assert(rvs.skip(0int) =~= rvs);
        assert(fe_views(challenges@) =~= Seq::<int>::empty());
        assert(fe_views(challenges@) + sc_challenges(rvs, t0) =~= sc_challenges(rvs, t0));
    }
    while i < round_polynomials.len()
        invariant
            rvs == rounds_views(round_polynomials@),
            cs0 == claimed_sum@,
            t0 == old(transcript)@ + be_bytes8(cs0),
            i <= round_polynomials@.len(),
            challenges@.len() == i,
            sc_ok(rvs, t0, cs0) == sc_ok(rvs.skip(i as int), transcript@, current_sum@),
            sc_final(rvs, t0, cs0)
                == sc_final(rvs.skip(i as int), transcript@, current_sum@),
            sc_challenges(rvs, t0) == fe_views(challenges@)
                + sc_challenges(rvs.skip(i as int), transcript@),
            sc_state(rvs, t0) == sc_state(rvs.skip(i as int), transcript@),
        decreases round_polynomials@.len() - i,
    {
        let round_polynomial = &round_polynomials[i];
        proof {
            assert(rvs.skip(i as int)[0] == rvs[i as int]);
            assert(rvs[i as int] == round_polynomials@[i as int]@);
            assert(rvs.skip(i as int).skip(1) =~= rvs.skip(i as int + 1));
        }
        if round_polynomial.coefficients.len() == 0 {
            // A malformed round polynomial: reject.
            proof {
                assert(!sc_ok(rvs.skip(i as int), transcript@, current_sum@));
            }
            return (false, current_sum, challenges);
        }
        let p_0 = round_polynomial.evaluate(FieldElement::zero());
        let p_1 = round_polynomial.evaluate(FieldElement::one());
        let check = p_0.add(p_1);
        proof {
            FieldElement::lemma_view_injective(current_sum, check);
        }
        if !(current_sum == check) {
            proof {
                assert(!sc_ok(rvs.skip(i as int), transcript@, current_sum@));
            }
            return (false, current_sum, challenges);
        }
        let ghost pre_challenges = challenges@;
        let round_bytes = round_polynomial.to_bytes();
        transcript.append(round_bytes.as_slice());
        let challenge = transcript.sample_field_element();
        current_sum = round_polynomial.evaluate(challenge);
        challenges.push(challenge);
        i = i + 1;
        proof {
            assert(fe_views(challenges@) =~= fe_views(pre_challenges).push(challenge@));
            assert(fe_views(pre_challenges).push(challenge@)
                + sc_challenges(rvs.skip(i as int), transcript@)
                =~= fe_views(pre_challenges)
                    + (seq![challenge@] + sc_challenges(rvs.skip(i as int), transcript@)));
        }
    }
    proof {
        assert(rvs.skip(round_polynomials@.len() as int) =~= Seq::<Seq<int>>::empty());
        assert(fe_views(challenges@)
            + sc_challenges(rvs.skip(round_polynomials@.len() as int), transcript@)
            =~= fe_views(challenges@));
    }
    (true, current_sum, challenges)
}

/// Checks a proof against a fresh transcript seeded with the serialized sum
/// polynomial: replays the rounds and finishes with the oracle check that
/// the final running sum equals the sum polynomial at the challenge point.
pub fn verify(
    sum_polynomial: SumPolynomial,
    claimed_sum: FieldElement,
    round_polynomials: Vec<DenseUnivariatePolynomial>,
) -> (r: bool)
    requires
        sum_polynomial.wf(),
    ensures
        r == sp_accepts(sum_polynomial@, claimed_sum@, rounds_views(round_polynomials@)),
{
    let ghost rvs = rounds_views(round_polynomials@);
    let n = sum_polynomial.n_vars();
    if round_polynomials.len() != n {
        return false;
    }
    let mut transcript = Transcript::new();
    let poly_bytes = sum_polynomial.to_bytes();
    transcript.append(poly_bytes.as_slice());
    proof {
        assert(transcript@ =~= products_bytes(sum_polynomial@));
    }
    let (is_partially_verified, final_sum, challenges) =
        partial_verify(&mut transcript, claimed_sum, round_polynomials);
    if !is_partially_verified {
        return false;
    }
    let derived_sum = sum_polynomial.evaluate(challenges.as_slice());
    proof {
        FieldElement::lemma_view_injective(final_sum, derived_sum);
    }
    final_sum == derived_sum
}

} // verus!
