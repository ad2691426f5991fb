//! Gates of a layered arithmetic circuit: each gate reads two wires of the
//! layer below and adds or multiplies them into an output wire.

use crate::field::{fadd, fmul, fe_views, FieldElement};
use vstd::prelude::*;

verus! {

/// The operation a gate performs.
#[derive(Clone, Copy, Debug, PartialEq, Eq, Structural)]
pub enum Op {
    Add,
    Mul,
}

/// A gate: an operation, the output wire it feeds, and the two input wires
/// it reads from the layer below.
#[derive(Clone, Copy, Debug, PartialEq, Eq, Structural)]
pub struct Gate {
    pub op: Op,
    pub output: usize,
    pub left_index: usize,
    pub right_index: usize,
}

/// The value a gate contributes, given the evaluations of the layer below.
pub open spec fn gate_value(g: Gate, v: Seq<int>) -> int {
    match g.op {
        Op::Add => fadd(v[g.left_index as int], v[g.right_index as int]),
        Op::Mul => fmul(v[g.left_index as int], v[g.right_index as int]),
    }
}

impl Gate {
    /// Builds a gate.
    pub fn new(op: Op, output: usize, left_index: usize, right_index: usize) -> (r: Gate)
        ensures
            r == (Gate { op, output, left_index, right_index }),
    {
        Gate { op, output, left_index, right_index }
    }

    /// Computes this gate's contribution from the wire values of the layer below.
    pub fn eval_gate(&self, layer_eval: &[FieldElement]) -> (r: FieldElement)
        requires
            self.left_index < layer_eval@.len(),
            self.right_index < layer_eval@.len(),
        ensures
            r@ == gate_value(*self, fe_views(layer_eval@)),
    {
        let left_val = layer_eval[self.left_index];
        let right_val = layer_eval[self.right_index];
        let r = match self.op {
            Op::Add => left_val.add(right_val),
            Op::Mul => left_val.mul(right_val),
        };
        proof {
            assert(fe_views(layer_eval@)[self.left_index as int]
                == layer_eval@[self.left_index as int]@);
            assert(fe_views(layer_eval@)[self.right_index as int]
                == layer_eval@[self.right_index as int]@);
        }
        r
    }
}

} // verus!
