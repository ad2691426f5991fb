//! The data carried by a GKR proof over a layered circuit: the claimed
//! output sum, the output layer, one sumcheck proof per layer, and the
//! evaluations of the two lower-layer polynomials at the split points.

use crate::field::FieldElement;
use crate::univariate::DenseUnivariatePolynomial;
use vstd::prelude::*;

verus! {

/// The result of a GKR prover run: each layer contributes a sum-of-products
/// sumcheck proof as the triple (claimed sum, round polynomials,
/// challenges).
#[derive(Debug)]
pub struct GKRProofResult {
    pub claimed_sum: FieldElement,
    pub output_layer: Vec<FieldElement>,
    pub proofs: Vec<(FieldElement, Vec<DenseUnivariatePolynomial>, Vec<FieldElement>)>,
    pub wb_evals: Vec<FieldElement>,
    pub wc_evals: Vec<FieldElement>,
}

} // verus!
