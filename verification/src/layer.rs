//! Layers of a layered arithmetic circuit, and the wiring indicator
//! polynomials `add_i` and `mul_i` that encode which gate triples exist.

use crate::field::{fe_views, FieldElement};
use crate::gate::{Gate, Op};
use crate::multilinear::{is_pow2, lg, lemma_lg_le, pow2_exec, MultilinearPolynomial};
use vstd::arithmetic::power2::pow2;
use vstd::prelude::*;

verus! {

/// A table of the given size holding only zeros.
pub open spec fn zero_table(size: nat) -> Seq<int> {
    Seq::new(size, |i: int| 0int)
}

/// Two to a power exceeds the exponent.
pub proof fn lemma_pow2_gt(m: nat)
    ensures
        pow2(m) > m,
    decreases m,
{
    vstd::arithmetic::power2::lemma_pow2_pos(m);
    if m > 0 {
        lemma_pow2_gt((m - 1) as nat);
        vstd::arithmetic::power2::lemma_pow2_unfold(m);
    }
}

/// The number of bits used for a gate's output wire on layer `idx`.
pub open spec fn out_bits(idx: nat) -> nat {
    if idx == 0 {
        1
    } else {
        idx
    }
}

/// The positional index of a gate triple on layer `idx`: the output bits,
/// then the left-operand bits, then the right-operand bits, big-endian.
pub open spec fn pos_index(idx: nat, g: Gate) -> int {
    g.output * pow2(2 * idx + 2) + g.left_index * pow2(idx + 1) + g.right_index
}

/// The wiring table of the gates of the chosen operation: 1 at the
/// positional index of every gate with that operation, 0 elsewhere.
pub open spec fn wiring_table(gates: Seq<Gate>, idx: nat, size: nat, op: Op) -> Seq<int>
    decreases gates.len(),
{
    if gates.len() == 0 {
        zero_table(size)
    } else {
        let prev = wiring_table(gates.drop_last(), idx, size, op);
        if gates.last().op == op {
            prev.update(pos_index(idx, gates.last()), 1int)
        } else {
            prev
        }
    }
}

/// The positional index stays below the table size.
pub proof fn lemma_pos_index_bound(idx: nat, g: Gate)
    requires
        (g.output as nat) < pow2(out_bits(idx)),
        (g.left_index as nat) < pow2(idx + 1),
        (g.right_index as nat) < pow2(idx + 1),
    ensures
        0 <= pos_index(idx, g),
        pos_index(idx, g) < pow2(if idx == 0 { 3nat } else { (3 * idx + 2) as nat }) as int,
{
    let a = pow2(2 * idx + 2) as int;
    let b = pow2(idx + 1) as int;
    let o = pow2(out_bits(idx)) as int;
    vstd::arithmetic::power2::lemma_pow2_adds(idx + 1, idx + 1);
    vstd::arithmetic::power2::lemma_pow2_adds(out_bits(idx), 2 * idx + 2);
    vstd::arithmetic::power2::lemma_pow2_pos(idx + 1);
    vstd::arithmetic::power2::lemma_pow2_pos(2 * idx + 2);
    vstd::arithmetic::power2::lemma_pow2_pos(out_bits(idx));
    assert(out_bits(idx) + (2 * idx + 2) == if idx == 0 { 3nat } else { (3 * idx + 2) as nat });
    assert(g.output * a + g.left_index * b + g.right_index < o * a) by (nonlinear_arith)
        requires
            0 <= g.output < o,
            0 <= g.left_index < b,
            0 <= g.right_index < b,
            a == b * b,
            b >= 1,
            a >= 1;
    assert(g.output * a + g.left_index * b + g.right_index >= 0) by (nonlinear_arith)
        requires 0 <= g.output, 0 <= g.left_index, 0 <= g.right_index, a >= 1, b >= 1;
}

/// The positional index of a gate triple on a layer: the output wire in
/// `idx` bits (one bit on layer 0), then each operand in `idx + 1` bits.
pub fn get_positional_index(
    layer_index: usize,
    output_index: usize,
    left_index: usize,
    right_index: usize,
) -> (r: usize)
    requires
        (output_index as nat) < pow2(out_bits(layer_index as nat)),
        (left_index as nat) < pow2(layer_index as nat + 1),
        (right_index as nat) < pow2(layer_index as nat + 1),
        pow2(if layer_index == 0 { 3nat } else { (3 * layer_index + 2) as nat })
            <= usize::MAX,
    ensures
        r as int == pos_index(layer_index as nat, Gate {
            op: Op::Add,
            output: output_index,
            left_index,
            right_index,
        }),
        (r as nat) < pow2(if layer_index == 0 { 3nat } else { (3 * layer_index + 2) as nat }),
{
    let ghost nv: nat = if layer_index == 0 { 3nat } else { (3 * layer_index + 2) as nat };
    proof {
        lemma_pos_index_bound(layer_index as nat, Gate {
            op: Op::Add,
            output: output_index,
            left_index,
            right_index,
        });
        vstd::arithmetic::power2::lemma_pow2_adds(out_bits(layer_index as nat),
            2 * layer_index as nat + 2);
        lemma_pow2_gt(nv);
        // The widths fit: each block is narrower than the whole table.
        vstd::arithmetic::power2::lemma_pow2_strictly_increases(
            layer_index as nat + 1, nv);
        if 2 * layer_index as nat + 2 < nv {
            vstd::arithmetic::power2::lemma_pow2_strictly_increases(
                2 * layer_index as nat + 2, nv);
        }
        vstd::arithmetic::power2::lemma_pow2_adds(
            layer_index as nat + 1, layer_index as nat + 1);
    }
    let operand_width = pow2_exec(layer_index + 1);
    let output_width = operand_width * operand_width;
    proof {
        assert(output_width as nat == pow2(2 * layer_index as nat + 2));
        assert(output_index * output_width + left_index * operand_width + right_index
            < pow2(nv)) by {
            assert(output_index as int * (output_width as int)
                + left_index as int * (operand_width as int) + right_index as int
                == pos_index(layer_index as nat, Gate {
                    op: Op::Add,
                    output: output_index,
                    left_index,
                    right_index,
                }));
        }
        assert(output_index * output_width >= 0) by (nonlinear_arith);
        assert(left_index * operand_width >= 0) by (nonlinear_arith);
    }
    output_index * output_width + left_index * operand_width + right_index
}

/// One layer of a layered circuit: an ordered list of gates. Layer `i` of a
/// circuit holds `2^i` gates, so the layer index is the base-2 logarithm of
/// the number of gates.
#[derive(Clone, Debug)]
pub struct Layer {
    pub gates: Vec<Gate>,
}

impl Layer {
    /// The number of gates is a power of two, and every gate addresses
    /// wires within the layer's bit widths.
    pub open spec fn wf(self) -> bool {
        &&& self.gates@.len() >= 1
        &&& is_pow2(self.gates@.len())
        &&& forall|i: int| 0 <= i < self.gates@.len()
            ==> ((#[trigger] self.gates@[i]).output as nat)
                < pow2(out_bits(self.spec_layer_index()))
        &&& forall|i: int| 0 <= i < self.gates@.len()
            ==> ((#[trigger] self.gates@[i]).left_index as nat)
                < pow2(self.spec_layer_index() + 1)
        &&& forall|i: int| 0 <= i < self.gates@.len()
            ==> ((#[trigger] self.gates@[i]).right_index as nat)
                < pow2(self.spec_layer_index() + 1)
    }

    /// The layer's index within the circuit.
    pub open spec fn spec_layer_index(self) -> nat {
        lg(self.gates@.len())
    }

    /// The number of Boolean variables the wiring polynomials take: one
    /// output-wire bit block and two operand blocks.
    pub open spec fn spec_num_layer_vars(self) -> nat {
        if self.spec_layer_index() == 0 {
            3
        } else {
            3 * self.spec_layer_index() + 2
        }
    }

    /// Wraps a gate list.
    pub fn new(gates: Vec<Gate>) -> (r: Layer)
        ensures
            r.gates@ == gates@,
    {
        Layer { gates }
    }

    /// The layer's index: the base-2 logarithm of the number of gates.
    pub fn layer_index(&self) -> (r: usize)
        requires
            self.gates@.len() >= 1,
        ensures
            r as nat == self.spec_layer_index(),
    {
        let mut m = self.gates.len();
        let mut k: usize = 0;
        proof {
            lemma_lg_le(lg(self.gates@.len()));
            lemma_lg_le(self.gates@.len());
        }
        while m > 1
            invariant
                lg(self.gates@.len()) == k as nat + lg(m as nat),
                k as nat <= lg(self.gates@.len()),
                lg(self.gates@.len()) <= usize::MAX,
            decreases m,
        {
            m = m / 2;
            k = k + 1;
        }
        k
    }

    /// The number of Boolean variables of the wiring polynomials.
    pub fn num_layer_vars(&self) -> (r: usize)
        requires
            self.gates@.len() >= 1,
            self.spec_num_layer_vars() <= usize::MAX,
        ensures
            r as nat == self.spec_num_layer_vars(),
    {
        let layer_index = self.layer_index();
        if layer_index == 0 {
            3
        } else {
            3 * layer_index + 2
        }
    }

    /// The wiring indicator polynomials of the layer: the `add` table is 1
    /// exactly at the positional indices of the add gates, and the `mul`
    /// table at those of the mul gates.
    pub fn add_i_and_mul_i_polynomials(&self) -> (r: (
        MultilinearPolynomial,
        MultilinearPolynomial,
    ))
        requires
            self.wf(),
            pow2(self.spec_num_layer_vars()) <= usize::MAX,
        ensures
            r.0.wf(),
            r.1.wf(),
            r.0@ == wiring_table(self.gates@, self.spec_layer_index(),
                pow2(self.spec_num_layer_vars()), Op::Add),
            r.1@ == wiring_table(self.gates@, self.spec_layer_index(),
                pow2(self.spec_num_layer_vars()), Op::Mul),
    {
        let ghost idx = self.spec_layer_index();
        let ghost size = pow2(self.spec_num_layer_vars());
        proof {
            lemma_pow2_gt(self.spec_num_layer_vars());
        }
        let num_vars = self.num_layer_vars();
        let table_len = pow2_exec(num_vars);
        let layer_index = self.layer_index();
        let mut add_i_evals: Vec<FieldElement> = Vec::new();
        let mut mul_i_evals: Vec<FieldElement> = Vec::new();
        let mut k: usize = 0;
        while k < table_len
            invariant
                k <= table_len,
                add_i_evals@.len() == k,
                mul_i_evals@.len() == k,
                forall|q: int| 0 <= q < k ==> (#[trigger] add_i_evals@[q])@ == 0,
                forall|q: int| 0 <= q < k ==> (#[trigger] mul_i_evals@[q])@ == 0,
            decreases table_len - k,
        {
            add_i_evals.push(FieldElement::zero());
            mul_i_evals.push(FieldElement::zero());
            k = k + 1;
        }
        proof {
            assert(fe_views(add_i_evals@) =~= wiring_table(self.gates@.take(0int), idx,
                size, Op::Add));
            assert(fe_views(mul_i_evals@) =~= wiring_table(self.gates@.take(0int), idx,
                size, Op::Mul));
        }
        let mut g: usize = 0;
        while g < self.gates.len()
            invariant
                self.wf(),
                idx == self.spec_layer_index(),
                size == pow2(self.spec_num_layer_vars()),
                size <= usize::MAX,
                table_len == size,
                layer_index as nat == idx,
                g <= self.gates@.len(),
                add_i_evals@.len() == size,
                mul_i_evals@.len() == size,
                fe_views(add_i_evals@) == wiring_table(self.gates@.take(g as int), idx,
                    size, Op::Add),
                fe_views(mul_i_evals@) == wiring_table(self.gates@.take(g as int), idx,
                    size, Op::Mul),
            decreases self.gates@.len() - g,
        {
            let gate = self.gates[g];
            proof {
                lemma_pos_index_bound(idx, gate);
            }
            let positional_index = get_positional_index(layer_index, gate.output,
                gate.left_index, gate.right_index);
            let ghost pre_add = add_i_evals@;
            let ghost pre_mul = mul_i_evals@;
            match gate.op {
                Op::Add => {
                    add_i_evals[positional_index] = FieldElement::one();
                },
                Op::Mul => {
                    mul_i_evals[positional_index] = FieldElement::one();
                },
            }
            g = g + 1;
            proof {
                assert(self.gates@.take(g as int).drop_last()
                    =~= self.gates@.take(g as int - 1));
                assert(self.gates@.take(g as int).last() == self.gates@[g - 1]);
                assert(fe_views(add_i_evals@) =~= wiring_table(self.gates@.take(g as int),
                    idx, size, Op::Add));
                assert(fe_views(mul_i_evals@) =~= wiring_table(self.gates@.take(g as int),
                    idx, size, Op::Mul));
            }
        }
        proof {
            assert(self.gates@.take(self.gates@.len() as int) =~= self.gates@);
            crate::multilinear::lemma_lg_pow2(self.spec_num_layer_vars());
        }
        let add_poly = MultilinearPolynomial::new(add_i_evals);
        let mul_poly = MultilinearPolynomial::new(mul_i_evals);
        (add_poly, mul_poly)
    }
}

} // verus!
