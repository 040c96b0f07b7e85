//! The nonlinear operators: the rectifier and the hyperbolic tangent.

use vstd::prelude::*;

use crate::graph::{push_node, Graph, Value};
use crate::node::Rule;
use crate::ops::derived;
use crate::scalar::{gt_zero, is_pos, ZERO_BITS};

verus! {

impl Value {
    /// The rectifier of the operand: a fresh node whose value is the
    /// operand's scalar if that scalar is strictly positive, and zero
    /// otherwise (in particular, zero for a NaN input). The rule scales the
    /// downstream gradient by one where the frozen input was strictly
    /// positive and by zero elsewhere — the gradient at exactly zero is
    /// zero.
    pub fn relu(&self, g: &mut Graph) -> (v: Value)
        requires
            old(g).wf(),
            self@ < old(g)@.len(),
        ensures
            final(g).wf(),
            v@ == old(g)@.len(),
            final(g)@ == old(g)@.push(
                derived(
                    if is_pos(old(g)@[self@].data) {
                        old(g)@[self@].data
                    } else {
                        ZERO_BITS
                    },
                    seq![self@],
                    Rule::ReluRule { active: is_pos(old(g)@[self@].data) },
                ),
            ),
    {
        let input = self.data(g);
        let active = gt_zero(input);
        let data = if active {
            input
        } else {
            ZERO_BITS
        };
        let mut prev: Vec<usize> = Vec::new();
        prev.push(self.id());
        let v = push_node(g, data, String::new(), prev, Rule::ReluRule { active });
        proof {
            assert(g@ =~~= old(g)@.push(
                derived(
                    if is_pos(old(g)@[self@].data) {
                        old(g)@[self@].data
                    } else {
                        ZERO_BITS
                    },
                    seq![self@],
                    Rule::ReluRule { active: is_pos(old(g)@[self@].data) },
                ),
            ));
        }
        v
    }

    /// The hyperbolic tangent of the operand. Verified code holds scalars
    /// only as opaque bit patterns, so the transcendental itself is
    /// evaluated by the caller: `t` must be the hyperbolic tangent of the
    /// operand's current scalar. The fresh node holds `t` as its value, and
    /// its rule scales the downstream gradient by `1 - t * t` with that same
    /// frozen `t`.
    pub fn tanh(&self, g: &mut Graph, t: u64) -> (v: Value)
        requires
            old(g).wf(),
            self@ < old(g)@.len(),
        ensures
            final(g).wf(),
            v@ == old(g)@.len(),
            final(g)@ == old(g)@.push(derived(t, seq![self@], Rule::TanhRule { t })),
    {
        let mut prev: Vec<usize> = Vec::new();
        prev.push(self.id());
        let v = push_node(g, t, String::new(), prev, Rule::TanhRule { t });
        proof {
            assert(g@ =~~= old(g)@.push(derived(t, seq![self@], Rule::TanhRule { t })));
        }
        v
    }
}

} // verus!
