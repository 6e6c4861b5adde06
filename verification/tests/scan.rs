use rwr::compare::{Node, Role};
use rwr::engine::Engine;
use rwr::hierarchy::Hierarchy;
use rwr::matcher::Atom;
use rwr::rewrite::Refusal;
use rwr::rule::{Rule, Scope};
use rwr::scan::{check_template, ScanOutcome};
use rwr::verdict::{Applied, Criteria, Flag, Template};

fn rule(pattern: &str, rewrite: Option<&str>) -> Rule {
    Rule { id: Some("t".to_string()), pattern: pattern.to_string(), rewrite: rewrite.map(str::to_string), ..Default::default() }
}

/// A bare call by `name`, written at `start`.
fn call(name: &str, start: usize) -> Node {
    Node {
        kind: 18,
        atoms: vec![Atom::Name(name.as_bytes().to_vec())],
        children: vec![],
        start,
        end: start + name.len(),
        bare: Some(name.as_bytes().to_vec()),
        role: Role::Call { name: name.as_bytes().to_vec(), receiver: false, message: true, arguments: None, block: false },
        reach: start + name.len(),
        name_at: Some((start, start + name.len())),
        delimited: None,
    }
}

fn program(statements: Vec<Node>, end: usize) -> Node {
    let body = Node {
        kind: 1,
        atoms: vec![],
        children: statements,
        start: 0,
        end,
        bare: None,
        role: Role::Statements,
        reach: end,
        name_at: None,
        delimited: None,
    };
    Node { kind: 2, atoms: vec![], children: vec![body], start: 0, end, bare: None, role: Role::Other, reach: end, name_at: None, delimited: None }
}

fn applied(engine: &Engine) -> Vec<Applied> {
    engine
        .prepared()
        .into_iter()
        .map(|(r, p)| Applied {
            program: program(vec![call("foo", 0)], 3),
            bindings: p.bindings.clone(),
            criteria: Criteria { constraints: vec![], contained: vec![], scope: Scope::default() },
            rewrites: r.rewrite.is_some(),
            template: None,
        })
        .collect()
}

#[test]
fn a_rewriting_rule_rewrites_each_match_and_the_result_parses() {
    let engine = Engine::new(vec![rule("foo", Some("bar"))]).expect("builds");
    let source = b"foo\nbaz\nfoo\n";
    let tree = program(vec![call("foo", 0), call("baz", 4), call("foo", 8)], 12);
    match engine.scan(source, Some(&tree), &Vec::new(), 0, &applied(&engine), &Hierarchy::new(), None) {
        ScanOutcome::Rewrote { rule, flags, planned, text } => {
            assert_eq!(rule, 0);
            assert!(flags.is_empty());
            assert_eq!(planned.sites, 2);
            assert_eq!(planned.dropped, 0);
            assert_eq!(text, "bar\nbaz\nbar\n");
        }
        _ => panic!("the rule should rewrite"),
    }
}

#[test]
fn a_reporting_rule_flags_and_leaves_the_source_alone() {
    let engine = Engine::new(vec![rule("foo", None)]).expect("builds");
    let source = b"baz\nfoo\n";
    let tree = program(vec![call("baz", 0), call("foo", 4)], 8);
    match engine.scan(source, Some(&tree), &Vec::new(), 0, &applied(&engine), &Hierarchy::new(), None) {
        ScanOutcome::Settled { flags } => assert_eq!(flags, vec![Flag { rule: 0, start: 4, end: 7 }]),
        _ => panic!("the rule should only flag"),
    }
}

#[test]
fn a_source_without_the_rule_literal_is_left_alone() {
    let engine = Engine::new(vec![rule("foo", Some("bar"))]).expect("builds");
    let source = b"baz\n";
    let tree = program(vec![call("baz", 0)], 4);
    match engine.scan(source, Some(&tree), &Vec::new(), 0, &applied(&engine), &Hierarchy::new(), None) {
        ScanOutcome::Settled { flags } => assert!(flags.is_empty()),
        _ => panic!("nothing should change"),
    }
}

#[test]
fn a_rewrite_that_no_longer_parses_is_refused() {
    let engine = Engine::new(vec![rule("foo", Some("bar("))]).expect("builds");
    let source = b"foo\n";
    let tree = program(vec![call("foo", 0)], 4);
    match engine.scan(source, Some(&tree), &Vec::new(), 0, &applied(&engine), &Hierarchy::new(), None) {
        ScanOutcome::Refused { rule, refusal } => {
            assert_eq!(rule, 0);
            assert!(matches!(refusal, Refusal::VerifyFailed { .. }));
        }
        _ => panic!("the rewrite should be refused"),
    }
}

#[test]
fn an_unparseable_source_is_never_rewritten() {
    let engine = Engine::new(vec![rule("foo", Some("bar"))]).expect("builds");
    let tree = program(vec![call("foo", 0)], 4);
    assert!(matches!(
        engine.scan(b"foo(\n", Some(&tree), &Vec::new(), 0, &applied(&engine), &Hierarchy::new(), None),
        ScanOutcome::Unparseable
    ));
    assert!(matches!(engine.scan(b"foo\n", None, &Vec::new(), 0, &applied(&engine), &Hierarchy::new(), None), ScanOutcome::Unparseable));
}

#[test]
fn a_span_past_the_source_is_a_misfit() {
    let engine = Engine::new(vec![rule("foo", Some("bar"))]).expect("builds");
    let tree = program(vec![call("foo", 10)], 13);
    assert!(matches!(
        engine.scan(b"foo\n", Some(&tree), &Vec::new(), 0, &applied(&engine), &Hierarchy::new(), None),
        ScanOutcome::Misfit { rule: 0 }
    ));
}

fn node(kind: u16, start: usize, end: usize, role: Role, children: Vec<Node>) -> Node {
    Node { kind, atoms: vec![], children, start, end, bare: None, role, reach: end, name_at: None, delimited: None }
}

/// `name(first, second)`, with `first` and `second` as given.
fn call_with(name: &str, start: usize, end: usize, args: (usize, usize), first: Node, second: Node) -> Node {
    let arguments = node(3, args.0, args.1, Role::Arguments, vec![first, second]);
    Node {
        kind: 18,
        atoms: vec![Atom::Name(name.as_bytes().to_vec())],
        children: vec![arguments],
        start,
        end,
        bare: None,
        role: Role::Call { name: name.as_bytes().to_vec(), receiver: false, message: true, arguments: Some(args), block: false },
        reach: end,
        name_at: Some((start, start + name.len())),
        delimited: None,
    }
}

/// The tree of a prepared `name($A, $B)`: placeholders read as bare calls.
fn prepared_call(name: &str, prepared: &rwr::prepare::Prepared) -> Node {
    let source = prepared.source.as_bytes();
    let open = name.len();
    let comma = source.iter().position(|b| *b == b',').expect("two arguments");
    let first = std::str::from_utf8(&source[open + 1..comma]).expect("utf-8");
    let second = std::str::from_utf8(&source[comma + 2..source.len() - 1]).expect("utf-8");
    let a = call(first, open + 1);
    let b = call(second, comma + 2);
    call_with(name, 0, source.len(), (open + 1, source.len() - 1), a, b)
}

#[test]
fn a_rename_edits_only_the_name_and_keeps_the_layout_around_its_captures() {
    let engine = Engine::new(vec![rule("foo($A, $B)", Some("bar($A, $B)"))]).expect("builds");
    let (_, pattern) = engine.prepared()[0];
    let template = rwr::prepare::prepare_with("bar($A, $B)", &vec![]).expect("prepares");
    let pattern_tree = prepared_call("foo", pattern);
    let template_tree = prepared_call("bar", &template);
    let end = pattern_tree.end;
    let t_end = template_tree.end;
    let applied = vec![Applied {
        program: program(vec![pattern_tree], end),
        bindings: pattern.bindings.clone(),
        criteria: Criteria { constraints: vec![], contained: vec![], scope: Scope::default() },
        rewrites: true,
        template: Some(Template { prepared: template, program: program(vec![template_tree], t_end) }),
    }];
    let source = b"foo(1,  2)\n";
    let one = node(30, 4, 5, Role::Integer, vec![]);
    let two = node(30, 8, 9, Role::Integer, vec![]);
    let target = call_with("foo", 0, 10, (4, 9), one, two);
    let tree = program(vec![target], 11);
    match engine.scan(source, Some(&tree), &Vec::new(), 0, &applied, &Hierarchy::new(), None) {
        ScanOutcome::Rewrote { planned, text, .. } => {
            assert_eq!(planned.sites, 1);
            assert_eq!(text, "bar(1,  2)\n");
            let parsed = applied[0].template.as_ref().expect("the template parsed");
            let reread = |name: &str| {
                let one = node(30, 4, 5, Role::Integer, vec![]);
                let two = node(30, 8, 9, Role::Integer, vec![]);
                program(vec![call_with(name, 0, 10, (4, 9), one, two)], 11)
            };
            let good = reread("bar");
            assert!(check_template(text.as_bytes(), &good, &planned.matched, &planned.edits, "bar($A, $B)", parsed).is_ok());
            let bad = reread("baz");
            match check_template(text.as_bytes(), &bad, &planned.matched, &planned.edits, "bar($A, $B)", parsed) {
                Err(Refusal::TemplateMismatch { text, template }) => {
                    assert_eq!(text, "bar(1,  2)");
                    assert_eq!(template, "bar($A, $B)");
                }
                _ => panic!("a site that does not read as the template is refused"),
            }
        }
        _ => panic!("the rule should rewrite"),
    }
}

#[test]
fn a_rewrite_that_brings_in_a_local_name_is_refused() {
    let engine = Engine::new(vec![rule("foo", Some("bar"))]).expect("builds");
    let source = b"foo\nbaz\nfoo\n";
    let tree = program(vec![call("foo", 0), call("baz", 4), call("foo", 8)], 12);
    let scopes = vec![(6usize, 12usize, vec!["bar".to_string()])];
    match engine.scan(source, Some(&tree), &scopes, 0, &applied(&engine), &Hierarchy::new(), None) {
        ScanOutcome::Shadowed { rule, at, name } => {
            assert_eq!(rule, 0);
            assert_eq!(at, 8);
            assert_eq!(name, "bar");
        }
        _ => panic!("the rewrite should be refused"),
    }
    let elsewhere = vec![(0usize, 12usize, vec!["qux".to_string()])];
    assert!(matches!(
        engine.scan(source, Some(&tree), &elsewhere, 0, &applied(&engine), &Hierarchy::new(), None),
        ScanOutcome::Rewrote { .. }
    ));
}
