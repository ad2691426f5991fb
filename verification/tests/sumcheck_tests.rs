//! Tests of the sumcheck protocol, over a single multilinear polynomial and
//! over a sum of products.

use sumcheck_gkr::field::{FieldElement, MODULUS};
use sumcheck_gkr::multilinear::MultilinearPolynomial;
use sumcheck_gkr::product::ProductPolynomial;
use sumcheck_gkr::sum::SumPolynomial;
use sumcheck_gkr::sumcheck_composed::{prove, verify};
use sumcheck_gkr::sumcheck_over_multilinear;
use sumcheck_gkr::univariate::DenseUnivariatePolynomial;

fn fq(x: u64) -> FieldElement {
    FieldElement::from_u64(x)
}

fn mk_poly(values: &[u64]) -> MultilinearPolynomial {
    MultilinearPolynomial::new(values.iter().map(|&v| fq(v)).collect())
}

fn poly1a() -> MultilinearPolynomial {
    mk_poly(&[6, 9, 7, 6, 9, 12, 10, 9, 7, 10, 8, 7, 6, 9, 7, 6])
}

fn poly1b() -> MultilinearPolynomial {
    mk_poly(&[0, 0, 0, 0, 0, 0, 0, 0, 0, 0, 0, 2, 0, 0, 0, 0])
}

fn poly2a() -> MultilinearPolynomial {
    mk_poly(&[9, 18, 12, 9, 18, 36, 24, 18, 12, 24, 16, 12, 9, 18, 12, 9])
}

fn poly2b() -> MultilinearPolynomial {
    let mut values = vec![fq(0); 16];
    values[1] = fq(MODULUS - 1);
    MultilinearPolynomial::new(values)
}

fn prod_poly1() -> ProductPolynomial {
    ProductPolynomial::new(vec![poly1a(), poly1b()])
}

fn prod_poly2() -> ProductPolynomial {
    ProductPolynomial::new(vec![poly2a(), poly2b()])
}

fn sum_poly() -> SumPolynomial {
    SumPolynomial::new(vec![prod_poly1(), prod_poly2()])
}

#[test]
fn test_full_sumcheck() {
    let (claimed_sum, round_polys, _challenges) = prove(sum_poly());

    assert!(verify(sum_poly(), claimed_sum, round_polys))
}

#[test]
fn test_prover_and_verifier() {
    let poly1a = mk_poly(&[0, 0, 0, 2]);
    let poly2a = mk_poly(&[0, 0, 0, 3]);
    let product_poly1 = ProductPolynomial::new(vec![poly1a, poly2a]);

    let poly1b = mk_poly(&[0, 0, 0, 2]);
    let poly2b = mk_poly(&[0, 0, 0, 3]);
    let product_poly2 = ProductPolynomial::new(vec![poly1b, poly2b]);

    let sum_polynomial = SumPolynomial::new(vec![product_poly1, product_poly2]);

    let (claimed_sum, round_polys, _challenges) = prove(sum_polynomial.clone());

    let verified = verify(sum_polynomial.clone(), claimed_sum, round_polys);

    assert_eq!(verified, true);
}

#[test]
fn test_sum_of_products_wrong_sum_rejected() {
    let (claimed_sum, round_polys, _challenges) = prove(sum_poly());
    let altered = claimed_sum.add(fq(1));

    assert!(!verify(sum_poly(), altered, round_polys));
}

#[test]
fn test_sumcheck() {
    let polynomial = mk_poly(&[0, 0, 0, 3, 0, 0, 2, 5]);

    let proof = sumcheck_over_multilinear::prove(&polynomial, fq(10));
    assert!(sumcheck_over_multilinear::verify(&polynomial, &proof));
}

#[test]
fn test_sumcheck_valid_proof() {
    let polynomial = mk_poly(&[0, 0, 0, 3, 0, 0, 2, 5]);
    let proof = sumcheck_over_multilinear::prove(&polynomial, fq(10));
    assert!(sumcheck_over_multilinear::verify(&polynomial, &proof));
}

#[test]
fn test_sumcheck_invalid_sum() {
    let polynomial = mk_poly(&[0, 0, 0, 3, 0, 0, 2, 5]);
    let proof = sumcheck_over_multilinear::prove(&polynomial, fq(9));
    assert!(!sumcheck_over_multilinear::verify(&polynomial, &proof));
}

#[test]
fn test_sumcheck_invalid_polynomial() {
    let poly_correct = mk_poly(&[0, 0, 0, 3, 0, 0, 2, 5]);
    let poly_wrong = mk_poly(&[0, 0, 0, 3, 0, 0, 2, 4]);
    let proof = sumcheck_over_multilinear::prove(&poly_correct, fq(10));
    assert!(!sumcheck_over_multilinear::verify(&poly_wrong, &proof));
}

#[test]
fn test_sumcheck_wrong_proof_length_rejected() {
    let polynomial = mk_poly(&[0, 0, 0, 3, 0, 0, 2, 5]);
    let proof = sumcheck_over_multilinear::prove(&polynomial, fq(10));
    let mut rounds = proof.round_polynomials;
    rounds.pop();
    let truncated = sumcheck_over_multilinear::SumcheckProof::new(proof.claimed_sum, rounds);
    assert!(!sumcheck_over_multilinear::verify(&polynomial, &truncated));
}

#[test]
fn test_sumcheck_malformed_round_polynomial_rejected() {
    let polynomial = mk_poly(&[0, 0, 0, 3, 0, 0, 2, 5]);
    let rounds = vec![
        DenseUnivariatePolynomial::new(Vec::new()),
        DenseUnivariatePolynomial::new(Vec::new()),
        DenseUnivariatePolynomial::new(Vec::new()),
    ];
    let malformed = sumcheck_over_multilinear::SumcheckProof::new(fq(10), rounds);
    assert!(!sumcheck_over_multilinear::verify(&polynomial, &malformed));
}

#[test]
fn test_round_polynomial_line() {
    // The first round polynomial is the line through the two half sums.
    let polynomial = mk_poly(&[0, 0, 0, 3, 0, 0, 2, 5]);
    let round =
        sumcheck_over_multilinear::skip_one_and_sum_over_boolean_hypercube(&polynomial);
    assert_eq!(round.evaluate(fq(0)), fq(3));
    assert_eq!(round.evaluate(fq(1)), fq(7));
}

#[test]
fn test_sumcheck_one_variable() {
    let polynomial = mk_poly(&[4, 9]);
    let proof = sumcheck_over_multilinear::prove(&polynomial, fq(13));
    assert!(sumcheck_over_multilinear::verify(&polynomial, &proof));

    let bad = sumcheck_over_multilinear::prove(&polynomial, fq(12));
    assert!(!sumcheck_over_multilinear::verify(&polynomial, &bad));
}
