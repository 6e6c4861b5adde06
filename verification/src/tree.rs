//! The parts of a Ruby syntax tree that say how classes are declared, nested
//! and linked: class and module bodies, singleton bodies, calls, constant
//! writes, and the constants they name. Every other node is kept only for
//! the children under it.

use crate::text::{cat3, owned};
use vstd::prelude::*;

verus! {

/// An expression as far as naming a class goes.
pub enum Expr {
    /// A bare constant, `Account`.
    Read(String),
    /// A constant path, `Billing::Account`; `::Account` has no parent.
    Path(Option<Box<Expr>>, String),
    /// `self`.
    SelfRef,
    /// Anything else.
    Other,
}

/// What a node is, with the fields the class links are read from.
pub enum Shape {
    Class { path: Expr, superclass: Option<Expr> },
    Module { path: Expr },
    /// `class << self`.
    SingletonClass,
    /// A method call: its name, its receiver, and its arguments.
    Call { name: String, receiver: Option<Expr>, arguments: Vec<Expr> },
    /// `NAME = value`.
    ConstantWrite { name: String, value: Expr },
    Other,
}

/// A node and the nodes under it, in source order.
pub struct Tree {
    pub shape: Shape,
    pub children: Vec<Tree>,
}

/// A constant path rendered whole -- `Billing::Account` rather than
/// `Account` -- or nothing for an expression that is not a constant.
pub open spec fn spec_qualified(e: Expr) -> Option<Seq<char>>
    decreases e,
{
    match e {
        Expr::Read(name) => Some(name@),
        Expr::Path(parent, last) => match parent {
            Some(p) => match spec_qualified(*p) {
                Some(q) => Some(q + "::"@ + last@),
                None => None,
            },
            None => Some(last@),
        },
        _ => None,
    }
}

/// The constant an expression names, qualified.
pub fn qualified(e: &Expr) -> (r: Option<String>)
    ensures
        crate::text::opt_view(r) == spec_qualified(*e),
    decreases e,
{
    match e {
        Expr::Read(name) => Some(owned(name.as_str())),
        Expr::Path(parent, last) => match parent {
            Some(p) => match qualified(p) {
                Some(q) => Some(cat3(q.as_str(), "::", last.as_str())),
                None => None,
            },
            None => Some(owned(last.as_str())),
        },
        _ => None,
    }
}

/// What a node pushes onto the scope stack: the path a class or module
/// declares, the singleton marker for `class << self`, nothing otherwise.
pub open spec fn spec_scope_name(s: Shape) -> Option<Seq<char>> {
    match s {
        Shape::Class { path, .. } => spec_qualified(path),
        Shape::Module { path } => spec_qualified(path),
        Shape::SingletonClass => Some(crate::matcher::singleton_marker()),
        _ => None,
    }
}

/// What a node pushes onto the scope stack.
pub fn scope_name_of(s: &Shape) -> (r: Option<String>)
    ensures
        crate::text::opt_view(r) == spec_scope_name(*s),
{
    match s {
        Shape::Class { path, .. } => qualified(path),
        Shape::Module { path } => qualified(path),
        Shape::SingletonClass => {
            let r = owned("<<self");
            proof {
                reveal_strlit("<<self");
            }
            Some(r)
        },
        _ => None,
    }
}

} // verus!
