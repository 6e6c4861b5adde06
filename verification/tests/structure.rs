use rwr::compare::{node_eq, Node, Role};
use rwr::matcher::Atom;
use rwr::metavar::Arity;
use rwr::prepare::Binding;
use rwr::structure::{pattern_root, search, Capture};

const CALL: u16 = 1;
const ARGUMENTS: u16 = 2;
const SPLAT: u16 = 3;
const INTEGER: u16 = 4;

fn node(kind: u16, atoms: Vec<Atom>, children: Vec<Node>, bare: Option<&str>, role: Role) -> Node {
    Node { kind, atoms, children, start: 0, end: 0, bare: bare.map(|b| b.as_bytes().to_vec()), role, reach: 0, name_at: None, delimited: None }
}

/// A bare reference, `x`: a call with no receiver or arguments.
fn name(n: &str) -> Node {
    node(CALL, vec![Atom::Name(n.as_bytes().to_vec())], vec![], Some(n), Role::Other)
}

fn integer(v: &str) -> Node {
    node(INTEGER, vec![Atom::Number(v.to_string())], vec![], None, Role::Other)
}

fn call(method: &str, args: Vec<Node>) -> Node {
    let children = if args.is_empty() { vec![] } else { vec![node(ARGUMENTS, vec![], args, None, Role::Other)] };
    node(CALL, vec![Atom::Name(method.as_bytes().to_vec())], children, None, Role::Other)
}

fn splat(inner: Node) -> Node {
    node(SPLAT, vec![], vec![inner], None, Role::Splat)
}

fn bindings(names: &[(&str, Option<&str>, Arity)]) -> Vec<(String, Binding)> {
    names
        .iter()
        .map(|(p, n, a)| (p.to_string(), Binding { name: n.map(str::to_string), arity: *a }))
        .collect()
}

fn captured<'a>(env: &'a [(String, Capture<'a>)], key: &str) -> &'a Capture<'a> {
    &env.iter().find(|(k, _)| k == key).expect("captured").1
}

#[test]
fn a_placeholder_binds_the_node_in_its_place() {
    let bs = bindings(&[("rwr_mv_0", Some("A"), Arity::One)]);
    let pattern = call("foo", vec![name("rwr_mv_0")]);
    let target = call("foo", vec![integer("1")]);
    let found = search(&pattern, &target, &bs);
    assert_eq!(found.len(), 1);
    match captured(&found[0].1, "A") {
        Capture::One(n) => assert!(node_eq(n, &integer("1"))),
        _ => panic!("one node"),
    }
    assert!(search(&pattern, &call("bar", vec![integer("1")]), &bs).is_empty());
}

/// A repeated metavariable must bind structurally equal nodes.
#[test]
fn a_repeated_metavariable_binds_equal_nodes() {
    let bs = bindings(&[("rwr_mv_0", Some("A"), Arity::One), ("rwr_mv_1", Some("A"), Arity::One)]);
    let pattern = call("foo", vec![name("rwr_mv_0"), name("rwr_mv_1")]);
    assert_eq!(search(&pattern, &call("foo", vec![name("x"), name("x")]), &bs).len(), 1);
    assert!(search(&pattern, &call("foo", vec![name("x"), name("y")]), &bs).is_empty());
}

#[test]
fn a_sequence_absorbs_its_run() {
    let bs = bindings(&[("rwr_mv_0", Some("R"), Arity::Many)]);
    let pattern = call("foo", vec![splat(name("rwr_mv_0"))]);
    let target = call("foo", vec![integer("1"), integer("2"), integer("3")]);
    let found = search(&pattern, &target, &bs);
    assert_eq!(found.len(), 1);
    match captured(&found[0].1, "R") {
        Capture::Many(v) => assert_eq!(v.len(), 3),
        _ => panic!("a run"),
    }
}

/// A call without arguments has no arguments node; the sequence vanishes.
#[test]
fn an_empty_sequence_matches_a_call_without_arguments() {
    let bs = bindings(&[("rwr_mv_0", Some("R"), Arity::Many)]);
    let pattern = call("foo", vec![splat(name("rwr_mv_0"))]);
    let target = call("foo", vec![]);
    let found = search(&pattern, &target, &bs);
    assert_eq!(found.len(), 1);
    match captured(&found[0].1, "R") {
        Capture::Many(v) => assert!(v.is_empty()),
        _ => panic!("a run"),
    }
}

#[test]
fn a_sequence_after_a_single_takes_the_rest() {
    let bs = bindings(&[("rwr_mv_0", Some("A"), Arity::One), ("rwr_mv_1", Some("R"), Arity::Many)]);
    let pattern = call("foo", vec![name("rwr_mv_0"), splat(name("rwr_mv_1"))]);
    let target = call("foo", vec![integer("1")]);
    let found = search(&pattern, &target, &bs);
    assert_eq!(found.len(), 1);
    match captured(&found[0].1, "R") {
        Capture::Many(v) => assert!(v.is_empty()),
        _ => panic!("a run"),
    }
}

/// Nested matches are all found, the outer one first.
#[test]
fn nested_matches_are_found_outer_first() {
    let bs = bindings(&[("rwr_mv_0", Some("A"), Arity::One)]);
    let pattern = call("foo", vec![name("rwr_mv_0")]);
    let target = call("foo", vec![call("foo", vec![integer("1")])]);
    let found = search(&pattern, &target, &bs);
    assert_eq!(found.len(), 2);
    assert!(node_eq(found[0].0, &target));
}

/// A placeholder in a name position binds the name.
#[test]
fn a_placeholder_in_a_name_position_binds_the_name() {
    let bs = bindings(&[("rwr_mv_0", Some("M"), Arity::One)]);
    let pattern = node(CALL, vec![Atom::Name(b"rwr_mv_0".to_vec())], vec![integer("1")], None, Role::Other);
    let target = node(CALL, vec![Atom::Name(b"display_name".to_vec())], vec![integer("1")], None, Role::Other);
    let found = search(&pattern, &target, &bs);
    assert_eq!(found.len(), 1);
    match captured(&found[0].1, "M") {
        Capture::Name(n) => assert_eq!(n, b"display_name"),
        _ => panic!("a name"),
    }
}

/// Layout is not structure: positions never take part in equality.
#[test]
fn positions_do_not_affect_equality() {
    let mut a = call("foo", vec![name("a"), name("b")]);
    a.start = 10;
    a.end = 30;
    assert!(node_eq(&a, &call("foo", vec![name("a"), name("b")])));
    assert!(!node_eq(&a, &call("bar", vec![name("a"), name("b")])));
}

#[test]
fn a_pattern_program_of_one_statement_yields_that_statement() {
    let statements = node(5, vec![], vec![call("foo", vec![])], None, Role::Statements);
    let program = node(6, vec![], vec![statements], None, Role::Other);
    let root = pattern_root(&program).expect("one statement");
    assert!(node_eq(root, &call("foo", vec![])));
    let two = node(5, vec![], vec![call("foo", vec![]), call("bar", vec![])], None, Role::Statements);
    assert!(pattern_root(&node(6, vec![], vec![two], None, Role::Other)).is_none());
    assert!(pattern_root(&node(6, vec![], vec![], None, Role::Other)).is_none());
}
