//! Structural equality over syntax nodes. Two nodes are equal iff they are
//! the same variant, carry equal atoms, and have pairwise-equal children.
//! Locations never participate, which is what makes `foo(a, b)`,
//! `foo(a,b)` and a multiline spelling all one program, while `foo(a)` and
//! `bar(a)` are not.

use crate::matcher::Atom;
use crate::text::{bytes_eq, str_eq};
use vstd::prelude::*;

verus! {

/// What a node is to the matcher beyond its variant: a splat (`*x` or
/// `**x`), a parameter list with the name of its rest parameter, a
/// statement sequence; for where a match sits, a class or module body with
/// its qualified name (none where the path names no constant), a `class <<
/// self` body, a method definition with its name and whether it names a
/// receiver (`def self.x`); for what a rule could not account for, a call
/// (its name, whether it has a receiver and a message, the span of its
/// arguments, and whether it has a block), an argument list, a regular
/// expression's content span, a string with interpolation and the literal
/// text at each of its ends, a constant assignment and its name, a hash
/// pair; `self`; for constraint checks, a
/// constant reference, a symbol with its unescaped bytes, a plain string
/// with its unescaped bytes and content span, an integer, an array or a
/// hash literal; or anything else.
#[derive(Debug)]
pub enum Role {
    Splat,
    Parameters { rest: Option<Vec<u8>> },
    Statements,
    Body(Option<String>),
    SingletonBody,
    Def { receiver: bool, name: Vec<u8> },
    Call { name: Vec<u8>, receiver: bool, message: bool, arguments: Option<(usize, usize)>, block: bool },
    Arguments,
    Regexp((usize, usize)),
    Interpolated { prefix: Vec<u8>, suffix: Vec<u8> },
    ConstantWrite(Vec<u8>),
    Assoc,
    Constant,
    Symbol(Vec<u8>),
    Str(Vec<u8>, (usize, usize)),
    Integer,
    Array,
    Hash,
    /// The value half of `{foo:}`, which has no text of its own.
    Implicit,
    /// `self`.
    SelfRef,
    Other,
}

/// A syntax node: its variant, its atoms, its children in order, where it
/// lies in the source, the identifier it reads when it is a bare name
/// reference, its role, where the furthest of the locations it carries
/// ends (past `end` for a heredoc, whose body follows its opening), where
/// the name a call or a definition is written with lies, and the inside of
/// an array's or a hash's delimiters.
#[derive(Debug)]
pub struct Node {
    pub kind: u16,
    pub atoms: Vec<Atom>,
    pub children: Vec<Node>,
    pub start: usize,
    pub end: usize,
    pub bare: Option<Vec<u8>>,
    pub role: Role,
    pub reach: usize,
    pub name_at: Option<(usize, usize)>,
    pub delimited: Option<(usize, usize)>,
}

pub open spec fn atom_eq(a: Atom, b: Atom) -> bool {
    match (a, b) {
        (Atom::Name(x), Atom::Name(y)) => x@ == y@,
        (Atom::Value(x), Atom::Value(y)) => x@ == y@,
        (Atom::Number(x), Atom::Number(y)) => x@ == y@,
        _ => false,
    }
}

pub open spec fn atoms_eq(a: Seq<Atom>, b: Seq<Atom>) -> bool {
    a.len() == b.len() && forall|i: int| 0 <= i < a.len() ==> atom_eq(#[trigger] a[i], b[i])
}

/// Structural equality, position ignored.
pub open spec fn spec_node_eq(a: Node, b: Node) -> bool
    decreases a,
{
    &&& a.kind == b.kind
    &&& atoms_eq(a.atoms@, b.atoms@)
    &&& spec_nodes_eq(a.children@, b.children@)
}

/// Pairwise structural equality.
pub open spec fn spec_nodes_eq(a: Seq<Node>, b: Seq<Node>) -> bool
    decreases a,
{
    if a.len() != b.len() {
        false
    } else if a.len() == 0 {
        true
    } else {
        spec_node_eq(a[0], b[0]) && spec_nodes_eq(a.subrange(1, a.len() as int), b.subrange(1, b.len() as int))
    }
}

pub fn atom_equal(a: &Atom, b: &Atom) -> (r: bool)
    ensures
        r == atom_eq(*a, *b),
{
    match (a, b) {
        (Atom::Name(x), Atom::Name(y)) => bytes_eq(x.as_slice(), y.as_slice()),
        (Atom::Value(x), Atom::Value(y)) => bytes_eq(x.as_slice(), y.as_slice()),
        (Atom::Number(x), Atom::Number(y)) => str_eq(x.as_str(), y.as_str()),
        _ => false,
    }
}

/// Structural equality, ignoring source position entirely.
pub fn node_eq(a: &Node, b: &Node) -> (r: bool)
    ensures
        r == spec_node_eq(*a, *b),
    decreases *a,
{
    if a.kind != b.kind {
        return false;
    }
    if a.atoms.len() != b.atoms.len() {
        return false;
    }
    let mut k: usize = 0;
    while k < a.atoms.len()
        invariant
            k <= a.atoms@.len() == b.atoms@.len(),
            forall|i: int| 0 <= i < k ==> atom_eq(#[trigger] a.atoms@[i], b.atoms@[i]),
        decreases a.atoms@.len() - k,
    {
        if !atom_equal(&a.atoms[k], &b.atoms[k]) {
            return false;
        }
        k += 1;
    }
    nodes_eq(a.children.as_slice(), b.children.as_slice())
}

/// Pairwise structural equality of two runs of nodes.
pub fn nodes_eq(a: &[Node], b: &[Node]) -> (r: bool)
    ensures
        r == spec_nodes_eq(a@, b@),
    decreases a@,
{
    if a.len() != b.len() {
        return false;
    }
    if a.len() == 0 {
        return true;
    }
    assert(a@.subrange(1, a@.len() as int) == a@.subrange(1, a@.len() as int));
    if !node_eq(&a[0], &b[0]) {
        return false;
    }
    let ra = &a[1..a.len()];
    let rb = &b[1..b.len()];
    assert(ra@ == a@.subrange(1, a@.len() as int));
    nodes_eq(ra, rb)
}

/// Every node is structurally equal to itself.
pub proof fn law_a_node_equals_itself(a: Node)
    ensures
        spec_node_eq(a, a),
    decreases a,
{
    lemma_nodes_reflexive(a.children@);
}

proof fn lemma_nodes_reflexive(a: Seq<Node>)
    ensures
        spec_nodes_eq(a, a),
    decreases a,
{
    if a.len() > 0 {
        law_a_node_equals_itself(a[0]);
        lemma_nodes_reflexive(a.subrange(1, a.len() as int));
    }
}

/// Structural equality does not depend on the order of its operands.
pub proof fn law_node_equality_is_symmetric(a: Node, b: Node)
    ensures
        spec_node_eq(a, b) == spec_node_eq(b, a),
    decreases a,
{
    lemma_nodes_symmetric(a.children@, b.children@);
}

proof fn lemma_nodes_symmetric(a: Seq<Node>, b: Seq<Node>)
    ensures
        spec_nodes_eq(a, b) == spec_nodes_eq(b, a),
    decreases a,
{
    if a.len() == b.len() && a.len() > 0 {
        law_node_equality_is_symmetric(a[0], b[0]);
        lemma_nodes_symmetric(a.subrange(1, a.len() as int), b.subrange(1, b.len() as int));
    }
}

/// Nodes equal to a third are equal to each other.
pub proof fn law_node_equality_is_transitive(a: Node, b: Node, c: Node)
    requires
        spec_node_eq(a, b),
        spec_node_eq(b, c),
    ensures
        spec_node_eq(a, c),
    decreases a,
{
    lemma_nodes_transitive(a.children@, b.children@, c.children@);
}

proof fn lemma_nodes_transitive(a: Seq<Node>, b: Seq<Node>, c: Seq<Node>)
    requires
        spec_nodes_eq(a, b),
        spec_nodes_eq(b, c),
    ensures
        spec_nodes_eq(a, c),
    decreases a,
{
    if a.len() > 0 {
        law_node_equality_is_transitive(a[0], b[0], c[0]);
        lemma_nodes_transitive(
            a.subrange(1, a.len() as int),
            b.subrange(1, b.len() as int),
            c.subrange(1, c.len() as int),
        );
    }
}

} // verus!
