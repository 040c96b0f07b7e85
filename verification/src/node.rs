//! The vertex of the computation graph: its scalar value, its accumulated
//! gradient, its provenance (operator tag and operand edges), and its local
//! gradient rule.

use vstd::prelude::*;

use crate::scalar::{div_of, flip_sign, mul_of, sub_of, ONE_BITS, ZERO_BITS};

verus! {

/// The operator that produced a node. Leaves carry no tag.
#[derive(Clone, Copy, Debug, PartialEq, Eq, Structural)]
pub enum Op {
    Add,
    Sub,
    Neg,
    Mul,
    Div,
    Relu,
    Tanh,
}

/// The local gradient rule of a node, fixed at construction. A variant
/// records the operator kind together with the frozen scalar(s) its rule
/// needs; the values are captured when the node is built and never re-read
/// from the operands.
#[derive(Clone, Copy, Debug, PartialEq, Eq, Structural)]
pub enum Rule {
    /// A leaf: no operands, no rule.
    Leaf,
    /// Both operands receive the downstream gradient unchanged.
    AddRule,
    /// The left operand receives the downstream gradient, the right its
    /// negation.
    SubRule,
    /// The operand receives the negated downstream gradient.
    NegRule,
    /// Each operand receives the downstream gradient times the other
    /// operand's frozen value.
    MulRule { a: u64, b: u64 },
    /// The left operand receives `g / b`, the right `(-g) * a / (b * b)`.
    DivRule { a: u64, b: u64 },
    /// The operand receives the downstream gradient times one if the frozen
    /// input was strictly positive, times zero otherwise.
    ReluRule { active: bool },
    /// The operand receives the downstream gradient times `1 - t * t`, where
    /// `t` is the node's own frozen forward value.
    TanhRule { t: u64 },
}

/// How many operand edges a node with this rule carries.
pub open spec fn rule_arity(r: Rule) -> int {
    match r {
        Rule::Leaf => 0,
        Rule::AddRule => 2,
        Rule::SubRule => 2,
        Rule::NegRule => 1,
        Rule::MulRule { .. } => 2,
        Rule::DivRule { .. } => 2,
        Rule::ReluRule { .. } => 1,
        Rule::TanhRule { .. } => 1,
    }
}

/// The operator tag belonging to a rule; leaves have none.
pub open spec fn op_of_rule(r: Rule) -> Option<Op> {
    match r {
        Rule::Leaf => None,
        Rule::AddRule => Some(Op::Add),
        Rule::SubRule => Some(Op::Sub),
        Rule::NegRule => Some(Op::Neg),
        Rule::MulRule { .. } => Some(Op::Mul),
        Rule::DivRule { .. } => Some(Op::Div),
        Rule::ReluRule { .. } => Some(Op::Relu),
        Rule::TanhRule { .. } => Some(Op::Tanh),
    }
}

/// A node as stored in the arena.
pub struct Node {
    pub data: u64,
    pub grad: u64,
    pub label: String,
    pub prev: Vec<usize>,
    pub rule: Rule,
}

/// The mathematical model of a node.
#[verifier::ext_equal]
pub struct NodeModel {
    pub data: u64,
    pub grad: u64,
    pub label: Seq<char>,
    pub prev: Seq<int>,
    pub rule: Rule,
}

impl View for Node {
    type V = NodeModel;

    open spec fn view(&self) -> NodeModel {
        NodeModel {
            data: self.data,
            grad: self.grad,
            label: self.label@,
            prev: self.prev@.map_values(|p: usize| p as int),
            rule: self.rule,
        }
    }
}

impl NodeModel {
    /// The same node with a different accumulated gradient.
    pub open spec fn with_grad(self, grad: u64) -> NodeModel {
        NodeModel { grad, ..self }
    }

    /// Whether this node is a leaf: built directly from a value, not by an
    /// operator.
    pub open spec fn is_leaf(self) -> bool {
        self.rule is Leaf
    }
}

/// The downstream contribution a rule sends to its first operand, given the
/// node's accumulated gradient `g`.
pub open spec fn contrib0(r: Rule, g: u64) -> u64 {
    match r {
        Rule::Leaf => ZERO_BITS,
        Rule::AddRule => g,
        Rule::SubRule => g,
        Rule::NegRule => flip_sign(g),
        Rule::MulRule { a: _, b } => mul_of(g, b),
        Rule::DivRule { a: _, b } => div_of(g, b),
        Rule::ReluRule { active } => mul_of(g, if active { ONE_BITS } else { ZERO_BITS }),
        Rule::TanhRule { t } => mul_of(g, sub_of(ONE_BITS, mul_of(t, t))),
    }
}

/// The downstream contribution a rule sends to its second operand, given the
/// node's accumulated gradient `g`.
pub open spec fn contrib1(r: Rule, g: u64) -> u64 {
    match r {
        Rule::AddRule => g,
        Rule::SubRule => flip_sign(g),
        Rule::MulRule { a, b: _ } => mul_of(g, a),
        Rule::DivRule { a, b } => div_of(mul_of(flip_sign(g), a), mul_of(b, b)),
        _ => ZERO_BITS,
    }
}

} // verus!
