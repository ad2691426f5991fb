//! Tests of the multilinear polynomial in evaluation form.

use sumcheck_gkr::field::FieldElement;
use sumcheck_gkr::multilinear::MultilinearPolynomial;

fn fq(x: u64) -> FieldElement {
    FieldElement::from_u64(x)
}

fn poly(values: &[u64]) -> MultilinearPolynomial {
    MultilinearPolynomial::new(values.iter().map(|&v| fq(v)).collect())
}

#[test]
fn evaluation_test_evaluate() {
    let polynomial = poly(&[0, 0, 3, 8]);
    let values = vec![fq(6), fq(2)];

    assert_eq!(polynomial.evaluate(&values), fq(78));
}

#[test]
fn evaluation_test_partial_evaluate() {
    // 3-variable polynomial over (a, b, c), in lexicographic order.
    let poly_abc = poly(&[1, 3, 5, 7, 2, 4, 6, 8]);

    // Fix c = 0: keeps the values at indices 0, 2, 4, 6.
    assert_eq!(poly_abc.partial_evaluate(fq(0), 2), poly(&[1, 5, 2, 6]));

    // Fix b = 1: keeps the values at indices 2, 3, 6, 7.
    assert_eq!(poly_abc.partial_evaluate(fq(1), 1), poly(&[5, 7, 6, 8]));

    // Fix a = 1, c = 1.
    assert_eq!(
        poly_abc.partial_evaluate_many_vars(&[(fq(1), 0), (fq(1), 2)]),
        poly(&[4, 8])
    );

    // Fix a = 0, b = 0.
    assert_eq!(
        poly_abc.partial_evaluate_many_vars(&[(fq(0), 0), (fq(0), 1)]),
        poly(&[1, 3])
    );

    // Fix a = 0, b = 1, c = 0: the single point (0, 1, 0).
    assert_eq!(
        poly_abc.partial_evaluate_many_vars(&[(fq(0), 0), (fq(1), 1), (fq(0), 2)]),
        poly(&[5])
    );

    // 4-variable polynomial over (a, b, c, d).
    let poly_abcd = poly(&[1, 2, 3, 4, 5, 6, 7, 8, 9, 10, 11, 12, 13, 14, 15, 16]);

    // Fix d = 0: keeps every even index.
    assert_eq!(
        poly_abcd.partial_evaluate(fq(0), 3),
        poly(&[1, 3, 5, 7, 9, 11, 13, 15])
    );

    // Fix b = 1, c = 0.
    assert_eq!(
        poly_abcd.partial_evaluate_many_vars(&[(fq(1), 1), (fq(0), 2)]),
        poly(&[5, 6, 13, 14])
    );

    // Fix a = 0, b = 1, c = 1.
    assert_eq!(
        poly_abcd.partial_evaluate_many_vars(&[(fq(0), 0), (fq(1), 1), (fq(1), 2)]),
        poly(&[7, 8])
    );

    // Fix all: a = 1, b = 0, c = 1, d = 0 is index 10.
    assert_eq!(
        poly_abcd.partial_evaluate_many_vars(&[
            (fq(1), 0),
            (fq(0), 1),
            (fq(1), 2),
            (fq(0), 3),
        ]),
        poly(&[11])
    );
}

#[test]
fn test_new_and_n_vars() {
    let values = vec![fq(0), fq(1), fq(2), fq(3)];
    let p = MultilinearPolynomial::new(values.clone());

    assert_eq!(p.evals_slice().to_vec(), values);
    assert_eq!(p.n_vars(), 2);
}

#[test]
fn evaluation_test_scalar_mul() {
    let p = poly(&[1, 2, 3, 4]);
    let result = p.scalar_mul(fq(2));
    assert_eq!(result, poly(&[2, 4, 6, 8]));
}

#[test]
fn test_evaluate_constant_polynomial() {
    let p = poly(&[7, 7]);
    assert_eq!(p.evaluate(&[fq(0)]), fq(7));
    assert_eq!(p.evaluate(&[fq(1)]), fq(7));
}

#[test]
fn test_partial_evaluation_stepwise() {
    let p = poly(&[1, 2, 3, 4, 5, 6, 7, 8]);

    let a = fq(1);
    let b = fq(0);
    let c = fq(1);

    let full_eval = p.evaluate(&[a, b, c]);

    let partial1 = p.partial_evaluate(a, 0);
    let partial2 = partial1.partial_evaluate(b, 0);
    let final_eval = partial2.evaluate(&[c]);

    assert_eq!(full_eval, final_eval);
}

#[test]
fn test_partial_evaluate_randomized() {
    let mut rng = rand::thread_rng();
    let num_vars = 10;
    let num_evals: usize = 1 << num_vars;

    let evals: Vec<FieldElement> =
        (0..num_evals).map(|_| fq(rand::Rng::gen::<u64>(&mut rng))).collect();
    let p = MultilinearPolynomial::new(evals);

    let assignment: Vec<FieldElement> =
        (0..num_vars).map(|_| fq(rand::Rng::gen::<u64>(&mut rng))).collect();
    let full_eval = p.evaluate(&assignment);

    for fixed_vars in 1..=num_vars {
        let fixed: Vec<(FieldElement, usize)> =
            (0..fixed_vars).map(|i| (assignment[i], i)).collect();

        let partial = p.partial_evaluate_many_vars(&fixed);
        let remaining_assignment: Vec<FieldElement> = (0..num_vars)
            .filter(|i| i >= &fixed_vars)
            .map(|i| assignment[i])
            .collect();
        let final_eval = partial.evaluate(&remaining_assignment);

        assert_eq!(full_eval, final_eval);
    }
}

#[test]
fn test_tensor_add() {
    let poly1 = poly(&[1, 2, 3, 4]);
    let poly2 = poly(&[5, 6, 7, 8]);
    let result = poly1.tensor_add(&poly2);

    assert_eq!(result, poly(&[6, 8, 10, 12]));
}

#[test]
fn test_tensor_product() {
    let poly1 = poly(&[1, 2, 3, 4]);
    let poly2 = poly(&[5, 6, 7, 8]);
    let result = poly1.tensor_mul(&poly2);

    assert_eq!(result, poly(&[5, 12, 21, 32]));
}

#[test]
fn test_partial_evaluate_order_independent() {
    // Fixing two distinct variables commutes, whatever the list order.
    let p = poly(&[3, 1, 4, 1, 5, 9, 2, 6]);
    let one_way = p.partial_evaluate_many_vars(&[(fq(11), 0), (fq(22), 2)]);
    let other_way = p.partial_evaluate_many_vars(&[(fq(22), 2), (fq(11), 0)]);
    assert_eq!(one_way, other_way);

    let stepwise = p.partial_evaluate(fq(22), 2).partial_evaluate(fq(11), 0);
    assert_eq!(one_way, stepwise);
}

#[test]
fn test_hypercube_recovers_table() {
    // Evaluating at every Boolean vertex reads the table back in order.
    let values: Vec<u64> = vec![12, 7, 0, 3, 8, 1, 9, 4];
    let p = poly(&values);
    for i in 0..8usize {
        let point = vec![
            fq(((i >> 2) & 1) as u64),
            fq(((i >> 1) & 1) as u64),
            fq((i & 1) as u64),
        ];
        assert_eq!(p.evaluate(&point), fq(values[i]));
    }
}
