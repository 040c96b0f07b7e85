//! The operator layer: each call reads the operands' current scalars,
//! computes the forward value, and appends a fresh node that records the
//! operator tag, the operand edges, and the local gradient rule with its
//! frozen scalars.

use vstd::prelude::*;

use crate::graph::{push_node, Graph, Value};
use crate::node::{NodeModel, Rule};
use crate::scalar::{add_bits, add_of, div_bits, div_of, mul_bits, mul_of, neg_bits, flip_sign,
    sub_bits, sub_of, ZERO_BITS};

verus! {

/// The node an operator appends: the computed forward value, a zero
/// gradient, no label, and the recorded provenance.
pub open spec fn derived(data: u64, prev: Seq<int>, rule: Rule) -> NodeModel {
    NodeModel { data, grad: ZERO_BITS, label: Seq::empty(), prev, rule }
}

impl Value {
    /// The sum of the two operands: a fresh node whose value is
    /// `self + rhs`, and whose rule passes the downstream gradient to both
    /// operands unchanged.
    pub fn add(self, g: &mut Graph, rhs: Value) -> (v: Value)
        requires
            old(g).wf(),
            self@ < old(g)@.len(),
            rhs@ < old(g)@.len(),
        ensures
            final(g).wf(),
            v@ == old(g)@.len(),
            final(g)@ == old(g)@.push(
                derived(
                    add_of(old(g)@[self@].data, old(g)@[rhs@].data),
                    seq![self@, rhs@],
                    Rule::AddRule,
                ),
            ),
    {
        let a = self.data(g);
        let b = rhs.data(g);
        let data = add_bits(a, b);
        let mut prev: Vec<usize> = Vec::new();
        prev.push(self.id());
        prev.push(rhs.id());
        let v = push_node(g, data, String::new(), prev, Rule::AddRule);
        proof {
            assert(g@ =~~= old(g)@.push(
                derived(
                    add_of(old(g)@[self@].data, old(g)@[rhs@].data),
                    seq![self@, rhs@],
                    Rule::AddRule,
                ),
            ));
        }
        v
    }

    /// The difference of the two operands: a fresh node whose value is
    /// `self - rhs`; the left operand receives the downstream gradient, the
    /// right its negation.
    pub fn sub(self, g: &mut Graph, rhs: Value) -> (v: Value)
        requires
            old(g).wf(),
            self@ < old(g)@.len(),
            rhs@ < old(g)@.len(),
        ensures
            final(g).wf(),
            v@ == old(g)@.len(),
            final(g)@ == old(g)@.push(
                derived(
                    sub_of(old(g)@[self@].data, old(g)@[rhs@].data),
                    seq![self@, rhs@],
                    Rule::SubRule,
                ),
            ),
    {
        let a = self.data(g);
        let b = rhs.data(g);
        let data = sub_bits(a, b);
        let mut prev: Vec<usize> = Vec::new();
        prev.push(self.id());
        prev.push(rhs.id());
        let v = push_node(g, data, String::new(), prev, Rule::SubRule);
        proof {
            assert(g@ =~~= old(g)@.push(
                derived(
                    sub_of(old(g)@[self@].data, old(g)@[rhs@].data),
                    seq![self@, rhs@],
                    Rule::SubRule,
                ),
            ));
        }
        v
    }

    /// The negation of the operand: a fresh node whose value is `-self`; the
    /// operand receives the negated downstream gradient.
    pub fn neg(self, g: &mut Graph) -> (v: Value)
        requires
            old(g).wf(),
            self@ < old(g)@.len(),
        ensures
            final(g).wf(),
            v@ == old(g)@.len(),
            final(g)@ == old(g)@.push(
                derived(flip_sign(old(g)@[self@].data), seq![self@], Rule::NegRule),
            ),
    {
        let a = self.data(g);
        let data = neg_bits(a);
        let mut prev: Vec<usize> = Vec::new();
        prev.push(self.id());
        let v = push_node(g, data, String::new(), prev, Rule::NegRule);
        proof {
            assert(g@ =~~= old(g)@.push(
                derived(flip_sign(old(g)@[self@].data), seq![self@], Rule::NegRule),
            ));
        }
        v
    }

    /// The product of the two operands: a fresh node whose value is
    /// `self * rhs`; each operand receives the downstream gradient times the
    /// other operand's value, frozen at construction.
    pub fn mul(self, g: &mut Graph, rhs: Value) -> (v: Value)
        requires
            old(g).wf(),
            self@ < old(g)@.len(),
            rhs@ < old(g)@.len(),
        ensures
            final(g).wf(),
            v@ == old(g)@.len(),
            final(g)@ == old(g)@.push(
                derived(
                    mul_of(old(g)@[self@].data, old(g)@[rhs@].data),
                    seq![self@, rhs@],
                    Rule::MulRule { a: old(g)@[self@].data, b: old(g)@[rhs@].data },
                ),
            ),
    {
        let a = self.data(g);
        let b = rhs.data(g);
        let data = mul_bits(a, b);
        let mut prev: Vec<usize> = Vec::new();
        prev.push(self.id());
        prev.push(rhs.id());
        let v = push_node(g, data, String::new(), prev, Rule::MulRule { a, b });
        proof {
            assert(g@ =~~= old(g)@.push(
                derived(
                    mul_of(old(g)@[self@].data, old(g)@[rhs@].data),
                    seq![self@, rhs@],
                    Rule::MulRule { a: old(g)@[self@].data, b: old(g)@[rhs@].data },
                ),
            ));
        }
        v
    }

    /// The quotient of the two operands: a fresh node whose value is
    /// `self / rhs`. Division by zero is not special-cased: the value is the
    /// platform's infinity or NaN bit pattern and flows on unchanged. The
    /// left operand receives `g / b`, the right `(-g) * a / (b * b)`, with
    /// `a` and `b` frozen at construction.
    pub fn div(self, g: &mut Graph, rhs: Value) -> (v: Value)
        requires
            old(g).wf(),
            self@ < old(g)@.len(),
            rhs@ < old(g)@.len(),
        ensures
            final(g).wf(),
            v@ == old(g)@.len(),
            final(g)@ == old(g)@.push(
                derived(
                    div_of(old(g)@[self@].data, old(g)@[rhs@].data),
                    seq![self@, rhs@],
                    Rule::DivRule { a: old(g)@[self@].data, b: old(g)@[rhs@].data },
                ),
            ),
    {
        let a = self.data(g);
        let b = rhs.data(g);
        let data = div_bits(a, b);
        let mut prev: Vec<usize> = Vec::new();
        prev.push(self.id());
        prev.push(rhs.id());
        let v = push_node(g, data, String::new(), prev, Rule::DivRule { a, b });
        proof {
            assert(g@ =~~= old(g)@.push(
                derived(
                    div_of(old(g)@[self@].data, old(g)@[rhs@].data),
                    seq![self@, rhs@],
                    Rule::DivRule { a: old(g)@[self@].data, b: old(g)@[rhs@].data },
                ),
            ));
        }
        v
    }
}

} // verus!
