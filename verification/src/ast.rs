//! Expression trees and rule shapes, as handed over by the language front
//! end.
//!
//! The engine never parses text; it consumes already-built expression trees,
//! rules and rule tables in the shapes below and evaluates or applies them.

use std::rc::Rc;

use vstd::prelude::*;

use crate::values::Parameter;

verus! {

/// An expression tree for guards, successor arguments and bound values.
///
/// Evaluation is defined in the expression evaluator; every operator works on
/// the engine's runtime values and produces the error value on a type
/// mismatch rather than failing.
#[derive(Debug)]
pub enum Expr {
    Int(i64),
    Str(String),
    Bool(bool),
    Null,
    ID(String),
    PropAcc(Box<Expr>, String),
    FnCall(Box<Expr>, Vec<Expr>),
    IndexExpr(Box<Expr>, Box<Expr>),
    Plus(Box<Expr>),
    Minus(Box<Expr>),
    Not(Box<Expr>),
    BitNot(Box<Expr>),
    Pow(Box<Expr>, Box<Expr>),
    Mul(Box<Expr>, Box<Expr>),
    Div(Box<Expr>, Box<Expr>),
    Mod(Box<Expr>, Box<Expr>),
    Add(Box<Expr>, Box<Expr>),
    Sub(Box<Expr>, Box<Expr>),
    LT(Box<Expr>, Box<Expr>),
    LE(Box<Expr>, Box<Expr>),
    GT(Box<Expr>, Box<Expr>),
    GE(Box<Expr>, Box<Expr>),
    EQ(Box<Expr>, Box<Expr>),
    NE(Box<Expr>, Box<Expr>),
    BitAnd(Box<Expr>, Box<Expr>),
    BitXor(Box<Expr>, Box<Expr>),
    BitOr(Box<Expr>, Box<Expr>),
    And(Box<Expr>, Box<Expr>),
    Or(Box<Expr>, Box<Expr>),
    IfElse(Box<Expr>, Box<Expr>, Box<Expr>),
    In(Box<Expr>, Box<Expr>, bool),
    Lambda(Vec<Parameter>, Rc<Expr>),
}

/// An import of another module, by name, under an optional alias.
#[derive(Debug)]
pub struct ImportStmt {
    pub module: String,
    pub alias: Option<String>,
}

/// A module-level statement. Only imports are modeled here; declarations
/// and definitions stay with the language front end.
#[derive(Debug)]
pub enum ModStmt {
    Import(ImportStmt),
}

/// A parsed module: its name, its source path, and its statements.
#[derive(Debug)]
pub struct Module {
    pub name: Option<String>,
    pub path: Option<String>,
    pub stmts: Vec<ModStmt>,
}

/// A leaf of a rule's predecessor or context pattern: a symbol plus the
/// parameter names it binds from the matched instance leaf.
#[derive(Debug)]
pub struct LeftLeaf {
    pub symbol: char,
    pub params: Option<Vec<String>>,
}

/// A node of a rule's context pattern: a leaf to match, or a branch whose
/// nested pattern must match inside a branch of the instance sequence.
#[derive(Debug)]
pub enum CtxNode {
    Leaf(LeftLeaf),
    Branch(Vec<CtxNode>),
}

/// A leaf of a rule's successor: a symbol plus the argument expressions whose
/// values the produced instance leaf will carry.
#[derive(Debug)]
pub struct Leaf {
    pub symbol: char,
    pub args: Option<Vec<Expr>>,
}

/// A node of a rule's successor word.
#[derive(Debug)]
pub enum Node {
    Leaf(Leaf),
    Branch(Vec<Node>),
}

/// A successor word: the ordered nodes a rule rewrites its predecessor into.
#[derive(Debug)]
pub struct Word(pub Vec<Node>);

/// The shared body of a rule.
///
/// `weight` steers stochastic selection among viable rules; weights are
/// integers, which the weighted selection treats proportionally.
#[derive(Debug)]
pub struct RuleBase {
    pub weight: u32,
    pub left_leaf: LeftLeaf,
    pub condition: Option<Expr>,
    pub l_ctx: Vec<CtxNode>,
    pub r_ctx: Vec<CtxNode>,
    pub right_side: Word,
}

/// A rewrite rule, tagged by the pass it belongs to.
#[derive(Debug)]
pub enum Rule {
    /// Applied once per generation.
    Production(RuleBase),
    /// Applied once, after the last generation.
    Coding(RuleBase),
}

/// An optionally named, ordered collection of rules.
#[derive(Debug)]
pub struct RulesTable {
    pub name: Option<String>,
    pub rules: Vec<Rule>,
}

impl Rule {
    /// The shared body, whichever pass the rule belongs to.
    pub fn base(&self) -> (b: &RuleBase)
        ensures
            *b == self.base_spec(),
    {
        match self {
            Rule::Production(b) => b,
            Rule::Coding(b) => b,
        }
    }

    /// The shared body, in specifications.
    pub open spec fn base_spec(&self) -> RuleBase {
        match self {
            Rule::Production(b) => *b,
            Rule::Coding(b) => *b,
        }
    }
}

} // verus!
