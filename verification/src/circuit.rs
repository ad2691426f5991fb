//! A layered arithmetic circuit. Layer 0 is the output layer; evaluation
//! runs bottom-up from the input vector and records every layer's wire
//! values. Gates that write the same output wire accumulate.

use crate::field::{fadd, fe_views, FieldElement};
use crate::gate::{gate_value, Gate};
use crate::layer::{zero_table, Layer};
use crate::multilinear::{is_pow2, pow2_exec, MultilinearPolynomial};
use vstd::arithmetic::power2::pow2;
use vstd::prelude::*;

verus! {

/// The wire values a layer produces from the values `v` of the layer
/// below: every gate accumulates its value into its output wire.
pub open spec fn layer_output(gates: Seq<Gate>, v: Seq<int>, size: nat) -> Seq<int>
    decreases gates.len(),
{
    if gates.len() == 0 {
        zero_table(size)
    } else {
        let prev = layer_output(gates.drop_last(), v, size);
        let g = gates.last();
        prev.update(g.output as int, fadd(prev[g.output as int], gate_value(g, v)))
    }
}

/// The wire values of layers `0 .. j`, top-down, given the values `v` of
/// layer `j`: `[w_0, ..., w_{j-1}, v]`.
pub open spec fn eval_from(layers: Seq<Layer>, j: nat, v: Seq<int>) -> Seq<Seq<int>>
    decreases j,
{
    if j == 0 {
        seq![v]
    } else {
        eval_from(layers, (j - 1) as nat,
            layer_output(layers[j - 1].gates@, v, pow2((j - 1) as nat))) + seq![v]
    }
}

/// The views of a list of evaluation tables.
pub open spec fn tables_views(s: Seq<Vec<FieldElement>>) -> Seq<Seq<int>> {
    s.map(|i: int, v: Vec<FieldElement>| fe_views(v@))
}

/// A layer output has exactly `size` entries.
pub proof fn lemma_layer_output_len(gates: Seq<Gate>, v: Seq<int>, size: nat)
    requires
        forall|g: int| 0 <= g < gates.len()
            ==> ((#[trigger] gates[g]).output as nat) < size,
    ensures
        layer_output(gates, v, size).len() == size,
    decreases gates.len(),
{
    if gates.len() > 0 {
        assert(forall|g: int| 0 <= g < gates.drop_last().len()
            ==> ((#[trigger] gates.drop_last()[g]).output as nat) < size);
        lemma_layer_output_len(gates.drop_last(), v, size);
    }
}

/// The recorded tables have one entry per layer plus the input, and layer
/// `i`'s table has `2^i` entries.
pub proof fn lemma_eval_from_sizes(layers: Seq<Layer>, j: nat, v: Seq<int>)
    requires
        j <= layers.len(),
        forall|i: int, g: int| 0 <= i < layers.len()
                && 0 <= g < layers[i].gates@.len()
            ==> ((#[trigger] layers[i].gates@[g]).output as nat) < pow2(i as nat),
    ensures
        eval_from(layers, j, v).len() == j + 1,
        forall|i: int| 0 <= i < j ==> (#[trigger] eval_from(layers, j, v)[i]).len()
            == pow2(i as nat),
        eval_from(layers, j, v)[j as int] == v,
    decreases j,
{
    if j > 0 {
        lemma_layer_output_len(layers[j - 1].gates@, v, pow2((j - 1) as nat));
        lemma_eval_from_sizes(layers, (j - 1) as nat,
            layer_output(layers[j - 1].gates@, v, pow2((j - 1) as nat)));
    }
}

/// A layered circuit: layer 0 produces the single output; layer `i` has
/// `2^i` gates whose operands address the `2^(i+1)` wires of the layer
/// below. After `evaluate`, `layer_evals` holds `[w_0, ..., w_k]` with
/// `w_k` the input vector.
#[derive(Debug)]
pub struct Circuit {
    pub layers: Vec<Layer>,
    pub layer_evals: Vec<Vec<FieldElement>>,
}

impl Circuit {
    /// Every layer is well formed: layer `i` holds `2^i` gates whose output
    /// wires stay below `2^i` and whose operands stay below `2^(i+1)`.
    pub open spec fn wf(self) -> bool {
        &&& self.layers@.len() >= 1
        &&& forall|i: int| 0 <= i < self.layers@.len()
            ==> (#[trigger] self.layers@[i]).gates@.len() == pow2(i as nat)
        &&& forall|i: int, g: int| 0 <= i < self.layers@.len()
                && 0 <= g < self.layers@[i].gates@.len()
            ==> ((#[trigger] self.layers@[i].gates@[g]).output as nat) < pow2(i as nat)
        &&& forall|i: int, g: int| 0 <= i < self.layers@.len()
                && 0 <= g < self.layers@[i].gates@.len()
            ==> ((#[trigger] self.layers@[i].gates@[g]).left_index as nat)
                < pow2((i + 1) as nat)
        &&& forall|i: int, g: int| 0 <= i < self.layers@.len()
                && 0 <= g < self.layers@[i].gates@.len()
            ==> ((#[trigger] self.layers@[i].gates@[g]).right_index as nat)
                < pow2((i + 1) as nat)
    }

    /// Builds a circuit from its layers, output layer first; the recorded
    /// evaluations start empty.
    pub fn new(layers: Vec<Layer>) -> (r: Circuit)
        ensures
            r.layers@ == layers@,
            r.layer_evals@.len() == 0,
    {
        Circuit { layers, layer_evals: Vec::new() }
    }

    /// Evaluates the circuit bottom-up on the given input vector and
    /// records `[w_0, ..., w_k]`: every layer's wire values, output first,
    /// input last. `|w_i| == 2^i`, and gates writing the same output wire
    /// accumulate.
    pub fn evaluate(&mut self, input: Vec<FieldElement>)
        requires
            old(self).wf(),
            input@.len() == pow2(old(self).layers@.len()),
        ensures
            final(self).layers@ == old(self).layers@,
            tables_views(final(self).layer_evals@)
                == eval_from(old(self).layers@, old(self).layers@.len(), fe_views(input@)),
            final(self).layer_evals@.len() == old(self).layers@.len() + 1,
    {
        let ghost in0 = fe_views(input@);
        let k = self.layers.len();
        let mut list: Vec<Vec<FieldElement>> = Vec::new();
        let mut current = input;
        let mut j: usize = k;
        proof {
            assert(tables_views(list@) =~= Seq::<Seq<int>>::empty());
            assert(eval_from(self.layers@, j as nat, fe_views(current@))
                + tables_views(list@) =~= eval_from(self.layers@, k as nat, in0));
        }
        while j > 0
            invariant
                self.wf(),
                j <= k,
                k == self.layers@.len(),
                fe_views(current@).len() == pow2(j as nat),
                eval_from(self.layers@, k as nat, in0)
                    == eval_from(self.layers@, j as nat, fe_views(current@))
                        + tables_views(list@),
            decreases j,
        {
            let ghost pre = fe_views(current@);
            let layer_gates = &self.layers[j - 1].gates;
            let current_len = current.len();
            proof {
                assert(current_len as nat == pow2(j as nat));
                vstd::arithmetic::power2::lemma_pow2_strictly_increases(
                    (j - 1) as nat, j as nat);
            }
            let size = pow2_exec(j - 1);
            let mut out: Vec<FieldElement> = Vec::new();
            let mut z: usize = 0;
            while z < size
                invariant
                    z <= size,
                    out@.len() == z,
                    forall|q: int| 0 <= q < z ==> (#[trigger] out@[q])@ == 0,
                decreases size - z,
            {
                out.push(FieldElement::zero());
                z = z + 1;
            }
            proof {
                assert(fe_views(out@) =~= layer_output(layer_gates@.take(0int), pre,
                    (size as nat)));
            }
            let mut g: usize = 0;
            while g < layer_gates.len()
                invariant
                    g <= layer_gates@.len(),
                    out@.len() == size,
                    current@.len() == pow2(j as nat) && j >= 1,
                    size as nat == pow2((j - 1) as nat),
                    pre == fe_views(current@),
                    forall|q: int| 0 <= q < layer_gates@.len()
                        ==> ((#[trigger] layer_gates@[q]).output as nat)
                            < pow2((j - 1) as nat),
                    forall|q: int| 0 <= q < layer_gates@.len()
                        ==> ((#[trigger] layer_gates@[q]).left_index as nat)
                            < pow2(j as nat),
                    forall|q: int| 0 <= q < layer_gates@.len()
                        ==> ((#[trigger] layer_gates@[q]).right_index as nat)
                            < pow2(j as nat),
                    fe_views(out@) == layer_output(layer_gates@.take(g as int), pre,
                        size as nat),
                decreases layer_gates@.len() - g,
            {
                let gate = layer_gates[g];
                let value = gate.eval_gate(current.as_slice());
                let updated = out[gate.output].add(value);
                out[gate.output] = updated;
                g = g + 1;
                proof {
                    assert(layer_gates@.take(g as int).drop_last()
                        =~= layer_gates@.take(g as int - 1));
                    assert(layer_gates@.take(g as int).last() == layer_gates@[g - 1]);
                    assert(fe_views(out@) =~= layer_output(layer_gates@.take(g as int),
                        pre, size as nat));
                }
            }
            proof {
                assert(layer_gates@.take(layer_gates@.len() as int) =~= layer_gates@);
            }
            list.insert(0, current);
            current = out;
            j = j - 1;
            proof {
                assert(tables_views(list@) =~= seq![pre] + tables_views(list@.skip(1)));
                assert(eval_from(self.layers@, (j + 1) as nat, pre)
                    == eval_from(self.layers@, j as nat, fe_views(current@)) + seq![pre]);
                assert(eval_from(self.layers@, j as nat, fe_views(current@))
                    + (seq![pre] + tables_views(list@.skip(1)))
                    =~= (eval_from(self.layers@, j as nat, fe_views(current@)) + seq![pre])
                        + tables_views(list@.skip(1)));
            }
        }
        list.insert(0, current);
        proof {
            assert(tables_views(list@)
                =~= seq![fe_views(list@[0]@)] + tables_views(list@.skip(1)));
            lemma_eval_from_sizes(self.layers@, k as nat, in0);
        }
        self.layer_evals = list;
    }

    /// The multilinear polynomial whose table is layer `i`'s recorded wire
    /// values.
    pub fn w_i_polynomial(&self, i: usize) -> (r: MultilinearPolynomial)
        requires
            i < self.layer_evals@.len(),
            is_pow2(fe_views(self.layer_evals@[i as int]@).len()),
        ensures
            r.wf(),
            r@ == fe_views(self.layer_evals@[i as int]@),
    {
        let table = &self.layer_evals[i];
        let mut evals: Vec<FieldElement> = Vec::new();
        let mut q: usize = 0;
        while q < table.len()
            invariant
                q <= table@.len(),
                evals@ == table@.take(q as int),
            decreases table@.len() - q,
        {
            evals.push(table[q]);
            q = q + 1;
        }
        proof {
            assert(table@.take(table@.len() as int) =~= table@);
        }
        MultilinearPolynomial::new(evals)
    }
}

} // verus!
