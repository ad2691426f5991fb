//! Tests of the product and sum polynomials.

use sumcheck_gkr::field::FieldElement;
use sumcheck_gkr::multilinear::MultilinearPolynomial;
use sumcheck_gkr::product::ProductPolynomial;
use sumcheck_gkr::sum::SumPolynomial;

fn fq(val: u64) -> FieldElement {
    FieldElement::from_u64(val)
}

fn create_multilinear_poly(evals: Vec<u64>) -> MultilinearPolynomial {
    MultilinearPolynomial::new(evals.iter().map(|&v| fq(v)).collect())
}

fn create_product_poly(polys: &[&[u64]]) -> ProductPolynomial {
    let multilinears = polys
        .iter()
        .map(|vals| create_multilinear_poly(vals.to_vec()))
        .collect();
    ProductPolynomial::new(multilinears)
}

#[test]
fn test_new_valid_polys() {
    let polys = vec![
        create_multilinear_poly(vec![1, 2, 3, 4]),
        create_multilinear_poly(vec![5, 6, 7, 8]),
    ];
    let pp = ProductPolynomial::new(polys);

    assert_eq!(pp.degree(), 2);
}

#[test]
fn product_test_evaluate() {
    let p1 = create_multilinear_poly(vec![1, 2, 3, 4]);
    let p2 = create_multilinear_poly(vec![5, 6, 7, 8]);
    let pp = ProductPolynomial::new(vec![p1.clone(), p2.clone()]);
    let point = vec![fq(1), fq(0)];
    let expected = p1.evaluate(&point).mul(p2.evaluate(&point));
    let result = pp.evaluate(&point);

    assert_eq!(expected, result);
}

#[test]
fn product_test_partial_evaluate() {
    let p1 = create_multilinear_poly(vec![1, 2, 3, 4]);
    let p2 = create_multilinear_poly(vec![5, 6, 7, 8]);
    let pp = ProductPolynomial::new(vec![p1.clone(), p2.clone()]);

    let partial_points = vec![(fq(1), 0)];
    let evaluated_pp = pp.partial_evaluate_many_vars(&partial_points);

    for (original, evaluated) in [p1, p2].iter().zip(evaluated_pp.polynomials.iter()) {
        let expected = original.partial_evaluate_many_vars(&partial_points);

        assert_eq!(expected, *evaluated);
    }
}

#[test]
fn test_element_wise_mul() {
    let poly1 = create_multilinear_poly(vec![1, 2, 3, 4]);
    let poly2 = create_multilinear_poly(vec![2, 3, 4, 5]);
    let poly3 = create_multilinear_poly(vec![1, 1, 1, 1]);

    let product = ProductPolynomial::new(vec![poly1, poly2, poly3]);
    let result = product.element_wise_mul();

    let expected = create_multilinear_poly(vec![2, 6, 12, 20]);

    assert_eq!(result, expected);
}

#[test]
fn test_to_bytes() {
    let p1 = create_multilinear_poly(vec![1, 2, 3, 4]);
    let p2 = create_multilinear_poly(vec![5, 6, 7, 8]);
    let pp = ProductPolynomial::new(vec![p1.clone(), p2.clone()]);
    let expected_bytes: Vec<u8> = p1.to_bytes().into_iter().chain(p2.to_bytes()).collect();

    assert_eq!(pp.to_bytes(), expected_bytes);
}

#[test]
fn test_new_valid_sum_poly() {
    let prod1 = create_product_poly(&[&[1, 2, 3, 4], &[5, 6, 7, 8]]);
    let prod2 = create_product_poly(&[&[9, 10, 11, 12], &[13, 14, 15, 16]]);
    let sum_poly = SumPolynomial::new(vec![prod1, prod2]);

    assert_eq!(sum_poly.degree(), 2);
}

#[test]
fn test_evaluate_sum_poly() {
    let prod1 = create_product_poly(&[&[1, 2, 3, 4]]);
    let prod2 = create_product_poly(&[&[5, 6, 7, 8]]);
    let sum_poly = SumPolynomial::new(vec![prod1.clone(), prod2.clone()]);
    let point = &[fq(1), fq(0)];
    let expected = prod1.evaluate(point).add(prod2.evaluate(point));

    assert_eq!(sum_poly.evaluate(point), expected);
}

#[test]
fn test_partial_evaluate_sum_poly() {
    let prod1 = create_product_poly(&[&[1, 2, 3, 4]]);
    let prod2 = create_product_poly(&[&[5, 6, 7, 8]]);
    let sum_poly = SumPolynomial::new(vec![prod1.clone(), prod2.clone()]);

    let partial = sum_poly.partial_evaluate(fq(1), 0);

    for (original, reduced) in sum_poly
        .product_polynomials
        .iter()
        .zip(partial.product_polynomials.iter())
    {
        let expected = original.partial_evaluate(fq(1), 0);

        assert_eq!(*reduced, expected);
    }
}

#[test]
fn test_element_wise_add() {
    let prod1 = create_product_poly(&[&[1, 1], &[1, 1]]);
    let prod2 = create_product_poly(&[&[2, 2], &[1, 1]]);
    let prod3 = create_product_poly(&[&[3, 3], &[1, 1]]);

    let sum_poly = SumPolynomial::new(vec![prod1, prod2, prod3]);
    let result = sum_poly.element_wise_add();

    let expected = create_multilinear_poly(vec![6, 6]);

    assert_eq!(result, expected);
}

#[test]
fn test_to_bytes_sum_poly() {
    let prod1 = create_product_poly(&[&[1, 2, 3, 4]]);
    let prod2 = create_product_poly(&[&[5, 6, 7, 8]]);
    let sum_poly = SumPolynomial::new(vec![prod1.clone(), prod2.clone()]);

    let expected: Vec<u8> = prod1
        .to_bytes()
        .into_iter()
        .chain(prod2.to_bytes())
        .collect();

    assert_eq!(sum_poly.to_bytes(), expected);
}
