//! Tests of the layered circuit: gate evaluation, positional wiring
//! indices, wiring polynomials, and full bottom-up evaluation.

use sumcheck_gkr::circuit::Circuit;
use sumcheck_gkr::field::FieldElement;
use sumcheck_gkr::gate::{Gate, Op};
use sumcheck_gkr::layer::{get_positional_index, Layer};

fn fq(x: u64) -> FieldElement {
    FieldElement::from_u64(x)
}

fn fqs(values: &[u64]) -> Vec<FieldElement> {
    values.iter().map(|&v| fq(v)).collect()
}

#[test]
fn test_get_positional_index() {
    // layer_index = 2, binary lengths: output = 2, left = 3, right = 3
    let idx = get_positional_index(2, 2, 3, 4);

    // binary: output=10, left=011, right=100 => combined = 10011100
    // binary 10011100 = decimal 156
    assert_eq!(idx, 156);
}

#[test]
fn test_gate_eval() {
    let values = fqs(&[5, 7]);
    assert_eq!(Gate::new(Op::Add, 0, 0, 1).eval_gate(&values), fq(12));
    assert_eq!(Gate::new(Op::Mul, 0, 0, 1).eval_gate(&values), fq(35));
}

#[test]
fn test_circuit_two_layers() {
    // Two layers, four inputs.
    let layer0 = Layer::new(vec![Gate::new(Op::Add, 0, 0, 1)]);
    let layer1 = Layer::new(vec![
        Gate::new(Op::Add, 0, 0, 1),
        Gate::new(Op::Mul, 1, 2, 3),
    ]);
    let mut circuit = Circuit::new(vec![layer0, layer1]);
    circuit.evaluate(fqs(&[1, 2, 3, 4]));

    assert_eq!(circuit.layer_evals.len(), 3);
    assert_eq!(circuit.layer_evals[0], fqs(&[15]));
    assert_eq!(circuit.layer_evals[1], fqs(&[3, 12]));
    assert_eq!(circuit.layer_evals[2], fqs(&[1, 2, 3, 4]));
}

#[test]
fn test_circuit_three_layers() {
    // Three layers, eight inputs.
    let layer0 = Layer::new(vec![Gate::new(Op::Add, 0, 0, 1)]);
    let layer1 = Layer::new(vec![
        Gate::new(Op::Mul, 0, 0, 1),
        Gate::new(Op::Add, 1, 2, 3),
    ]);
    let layer2 = Layer::new(vec![
        Gate::new(Op::Add, 0, 0, 1),
        Gate::new(Op::Mul, 1, 2, 3),
        Gate::new(Op::Add, 2, 4, 5),
        Gate::new(Op::Mul, 3, 6, 7),
    ]);
    let mut circuit = Circuit::new(vec![layer0, layer1, layer2]);
    circuit.evaluate(fqs(&[1, 2, 3, 4, 5, 6, 7, 8]));

    assert_eq!(circuit.layer_evals[0], fqs(&[103]));
    assert_eq!(circuit.layer_evals[1], fqs(&[36, 67]));
    assert_eq!(circuit.layer_evals[2], fqs(&[3, 12, 11, 56]));
    assert_eq!(circuit.layer_evals[3], fqs(&[1, 2, 3, 4, 5, 6, 7, 8]));

    // Layer sizes follow the powers of two, output first.
    for i in 0..3 {
        assert_eq!(circuit.layer_evals[i].len(), 1usize << i);
    }

    let w2 = circuit.w_i_polynomial(2);
    assert_eq!(w2.evals_slice().to_vec(), fqs(&[3, 12, 11, 56]));
}

#[test]
fn test_circuit_accumulating_gates() {
    // Two gates writing the same output wire accumulate.
    let layer0 = Layer::new(vec![Gate::new(Op::Add, 0, 0, 1)]);
    let layer1 = Layer::new(vec![
        Gate::new(Op::Add, 0, 0, 1),
        Gate::new(Op::Mul, 0, 2, 3),
    ]);
    let mut circuit = Circuit::new(vec![layer0, layer1]);
    circuit.evaluate(fqs(&[1, 2, 3, 4]));

    // Wire 0 of the middle layer receives (1 + 2) + (3 * 4); wire 1 is 0.
    assert_eq!(circuit.layer_evals[1], fqs(&[15, 0]));
    assert_eq!(circuit.layer_evals[0], fqs(&[15]));
}

#[test]
fn test_add_i_and_mul_i_polynomials() {
    let layer = Layer::new(vec![
        Gate::new(Op::Add, 0, 0, 1),
        Gate::new(Op::Mul, 1, 2, 3),
    ]);
    assert_eq!(layer.layer_index(), 1);
    assert_eq!(layer.num_layer_vars(), 5);

    let (add_i, mul_i) = layer.add_i_and_mul_i_polynomials();
    let add_evals = add_i.evals_slice().to_vec();
    let mul_evals = mul_i.evals_slice().to_vec();
    assert_eq!(add_evals.len(), 32);
    assert_eq!(mul_evals.len(), 32);

    // Add(out=0, l=0, r=1): index 0|00|01 = 1.
    // Mul(out=1, l=2, r=3): index 1|10|11 = 27.
    for k in 0..32 {
        assert_eq!(add_evals[k], if k == 1 { fq(1) } else { fq(0) });
        assert_eq!(mul_evals[k], if k == 27 { fq(1) } else { fq(0) });
    }
}
