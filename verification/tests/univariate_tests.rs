//! Tests of the dense univariate polynomial.

use sumcheck_gkr::field::FieldElement;
use sumcheck_gkr::univariate::DenseUnivariatePolynomial;

fn fq(x: u64) -> FieldElement {
    FieldElement::from_u64(x)
}

fn test_poly() -> DenseUnivariatePolynomial {
    // f(x) = 1 + 2x + 3x^2
    DenseUnivariatePolynomial::new(vec![fq(1), fq(2), fq(3)])
}

#[test]
fn dense_test_degree() {
    let poly = test_poly();

    assert_eq!(poly.degree(), 2);
}

#[test]
fn dense_test_evaluation() {
    let poly = test_poly();

    assert_eq!(poly.evaluate(fq(2)), fq(17));
}

#[test]
fn dense_test_scalar_mul() {
    let poly = test_poly();
    let expected_result = DenseUnivariatePolynomial::new(vec![fq(2), fq(4), fq(6)]);

    assert_eq!(poly.scalar_mul(fq(2)), expected_result);
}

#[test]
fn dense_test_addition() {
    let poly_1 = test_poly();
    let poly_2 = DenseUnivariatePolynomial::new(vec![
        fq(3),
        fq(4),
        fq(0),
        fq(0),
        fq(0),
        fq(0),
        fq(0),
        fq(0),
        fq(0),
        fq(0),
        fq(0),
        fq(5),
    ]);
    let expected_result = DenseUnivariatePolynomial::new(vec![
        fq(4),
        fq(6),
        fq(3),
        fq(0),
        fq(0),
        fq(0),
        fq(0),
        fq(0),
        fq(0),
        fq(0),
        fq(0),
        fq(5),
    ]);

    assert_eq!(poly_1.add(&poly_2), expected_result);
}

#[test]
fn dense_test_multiplication() {
    // f(x) = 5 + 2x^2
    let poly_1 = DenseUnivariatePolynomial::new(vec![fq(5), fq(0), fq(2)]);
    // f(x) = 6 + 2x
    let poly_2 = DenseUnivariatePolynomial::new(vec![fq(6), fq(2)]);
    let expected_result =
        DenseUnivariatePolynomial::new(vec![fq(30), fq(10), fq(12), fq(4)]);

    assert_eq!(poly_1.mul(&poly_2), expected_result);
}

#[test]
fn dense_test_interpolation() {
    // f(x) = 2x through the points (2, 4) and (4, 8).
    let interpolated_poly =
        DenseUnivariatePolynomial::interpolate(&[fq(2), fq(4)], &[fq(4), fq(8)]);
    let expected_result = DenseUnivariatePolynomial::new(vec![fq(0), fq(2)]);

    assert_eq!(interpolated_poly, expected_result);
}

#[test]
fn test_interpolate_y_hits_the_values() {
    // Through (0, 3), (1, 7), (2, 13): f(x) = 3 + 3x + x^2.
    let poly = DenseUnivariatePolynomial::interpolate_y(vec![fq(3), fq(7), fq(13)]);
    assert_eq!(poly.evaluate(fq(0)), fq(3));
    assert_eq!(poly.evaluate(fq(1)), fq(7));
    assert_eq!(poly.evaluate(fq(2)), fq(13));
    assert_eq!(poly.evaluate(fq(3)), fq(21));
    assert_eq!(
        poly,
        DenseUnivariatePolynomial::new(vec![fq(3), fq(3), fq(1)])
    );
}

#[test]
fn test_basis_is_an_indicator() {
    // The basis polynomial for a node is 1 there and 0 at the other nodes.
    let set = [fq(0), fq(1), fq(2), fq(3)];
    let basis = DenseUnivariatePolynomial::basis(fq(2), &set);
    assert_eq!(basis.evaluate(fq(2)), fq(1));
    assert_eq!(basis.evaluate(fq(0)), fq(0));
    assert_eq!(basis.evaluate(fq(1)), fq(0));
    assert_eq!(basis.evaluate(fq(3)), fq(0));
}
