//! Nodes of a branching sequence.
//!
//! A sequence is a flat list of nodes: leaf nodes carrying a symbol with a
//! role-specific payload, and paired branch markers delimiting nested
//! sub-branches. The payload type (`Ctx`) distinguishes the three roles a
//! sequence can play: the left side of a rule, the right side of a rule, or a
//! live generation of instances. The three roles never mix in one sequence.

use vstd::prelude::*;

use crate::ast::Expr;
use crate::values::Parameter;
use crate::values::Value;

verus! {

/// One node of a branching sequence.
///
/// `BranchStart(i)` marks the start of a sub-branch and stores the index of
/// its matching `BranchEnd`; the index is a placeholder until the branch is
/// closed. `BranchEnd(i)` stores the index of its matching `BranchStart`.
#[derive(Debug, Clone)]
pub enum Node<Ctx, Char> {
    BranchStart(usize),
    BranchEnd(usize),
    Leaf(NodeContent<Ctx, Char>),
}

/// The payload of a leaf node: a symbol plus a role-specific context.
#[derive(Debug, Clone)]
pub struct NodeContent<Ctx, Char> {
    pub character: Char,
    pub context: Ctx,
}

/// The role a sequence's leaf payloads play.
///
/// Exactly one of the three tests answers `true` for each implementor.
pub trait Context {
    fn is_left_side() -> bool;

    fn is_right_side() -> bool;

    fn is_instance() -> bool;
}

/// Payload of a leaf on the left side of a rule: the parameter names it
/// binds from a matched instance leaf.
#[derive(Debug)]
pub struct LeftSide {
    pub params: Vec<Parameter>,
}

/// Payload of a leaf on the right side of a rule: the argument expressions
/// to evaluate against the binding scope.
#[derive(Debug)]
pub struct RightSide {
    pub args: Vec<Expr>,
}

/// Payload of an instance leaf: the already-evaluated values it carries.
#[derive(Debug)]
pub struct Instance {
    pub values: Vec<Value>,
}

impl Context for LeftSide {
    fn is_left_side() -> bool {
        true
    }

    fn is_right_side() -> bool {
        false
    }

    fn is_instance() -> bool {
        false
    }
}

impl Context for RightSide {
    fn is_left_side() -> bool {
        false
    }

    fn is_right_side() -> bool {
        true
    }

    fn is_instance() -> bool {
        false
    }
}

impl Context for Instance {
    fn is_left_side() -> bool {
        false
    }

    fn is_right_side() -> bool {
        false
    }

    fn is_instance() -> bool {
        true
    }
}

impl<Char> NodeContent<LeftSide, Char> {
    /// Creates a left-side node content with no parameters declared.
    pub fn new_left(ch: Char) -> (r: Self)
        ensures
            r.character == ch,
            r.context.params@ == Seq::<Parameter>::empty(),
    {
        NodeContent { character: ch, context: LeftSide { params: Vec::new() } }
    }
}

impl<Char> NodeContent<RightSide, Char> {
    /// Creates a right-side node content with no arguments.
    pub fn new_right(ch: Char) -> (r: Self)
        ensures
            r.character == ch,
            r.context.args@ == Seq::<Expr>::empty(),
    {
        NodeContent { character: ch, context: RightSide { args: Vec::new() } }
    }
}

impl<Char> NodeContent<Instance, Char> {
    /// Creates an instance node content carrying no values.
    pub fn new_instance(ch: Char) -> (r: Self)
        ensures
            r.character == ch,
            r.context.values@ == Seq::<Value>::empty(),
    {
        NodeContent { character: ch, context: Instance { values: Vec::new() } }
    }
}

} // verus!
