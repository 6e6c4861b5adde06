use rwr::compare::{Node, Role};
use rwr::hierarchy::Hierarchy;
use rwr::matcher::{Atom, ConstraintMiss, Receiver, ScopeMiss, Verdict};
use rwr::rule::{Constraint, Kind, NodeKind, Scope};
use rwr::structure::Capture;
use rwr::verdict::{flag, resolve_type, verdict, walk, Applied, Contained, Criteria, Flag};

fn leaf(kind: u16, start: usize, end: usize, bare: Option<&str>, role: Role) -> Node {
    Node {
        reach: 0,
        name_at: None,
        delimited: None,
        kind,
        atoms: bare.map(|b| vec![Atom::Name(b.as_bytes().to_vec())]).unwrap_or_default(),
        children: vec![],
        start,
        end,
        bare: bare.map(|b| b.as_bytes().to_vec()),
        role,
    }
}

fn judge(env: &Vec<(String, Capture)>, constraints: Vec<(String, Constraint)>) -> Verdict {
    let resolved = vec![None; constraints.len()];
    verdict(env, &vec![], false, &constraints, &vec![], &resolved, &Scope::default(), &Hierarchy::new())
}

fn named(names: &[&str]) -> Option<Vec<String>> {
    Some(names.iter().map(|n| n.to_string()).collect())
}

#[test]
fn a_name_constraint_admits_only_its_identifiers() {
    let x = leaf(1, 0, 1, Some("foo"), Role::Other);
    let env = vec![("M".to_string(), Capture::One(&x))];
    let ok = Constraint { name: named(&["foo", "bar"]), ..Default::default() };
    assert_eq!(judge(&env, vec![("$M".to_string(), ok)]), Verdict::Holds);
    let no = Constraint { name: named(&["baz"]), ..Default::default() };
    assert_eq!(
        judge(&env, vec![("$M".to_string(), no)]),
        Verdict::BadBinding {
            capture: "M".to_string(),
            miss: ConstraintMiss::Name { actual: Some("foo".to_string()), allowed: vec!["baz".to_string()] },
        }
    );
    let not = Constraint { name_not: named(&["foo"]), ..Default::default() };
    assert_eq!(
        judge(&env, vec![("M".to_string(), not)]),
        Verdict::BadBinding { capture: "M".to_string(), miss: ConstraintMiss::NameNot { actual: "foo".to_string() } }
    );
}

#[test]
fn a_constraint_on_an_uncaptured_name_is_a_rule_bug() {
    let env: Vec<(String, Capture)> = vec![];
    assert_eq!(
        judge(&env, vec![("$X".to_string(), Constraint::none())]),
        Verdict::Bug("a constraint names a capture the pattern never binds")
    );
}

#[test]
fn kinds_lengths_and_shared_names_are_judged() {
    let sym = leaf(2, 0, 4, None, Role::Symbol(b"abc".to_vec()));
    let read = leaf(3, 10, 13, Some("abc"), Role::Other);
    let env = vec![("S".to_string(), Capture::One(&sym)), ("V".to_string(), Capture::One(&read))];
    let is_symbol = Constraint { is: Some(NodeKind::Symbol), ..Default::default() };
    assert_eq!(judge(&env, vec![("S".to_string(), is_symbol)]), Verdict::Holds);
    let is_string = Constraint { is: Some(NodeKind::String), ..Default::default() };
    assert_eq!(
        judge(&env, vec![("S".to_string(), is_string)]),
        Verdict::BadBinding { capture: "S".to_string(), miss: ConstraintMiss::Is { wanted: NodeKind::String } }
    );
    let three = Constraint { length: Some(3), ..Default::default() };
    assert_eq!(judge(&env, vec![("S".to_string(), three)]), Verdict::Holds);
    let four = Constraint { length: Some(4), ..Default::default() };
    assert_eq!(
        judge(&env, vec![("S".to_string(), four)]),
        Verdict::BadBinding {
            capture: "S".to_string(),
            miss: ConstraintMiss::Length { actual: Some(3), wanted: 4 },
        }
    );
    let same = Constraint { same_name_as: Some("$V".to_string()), ..Default::default() };
    assert_eq!(judge(&env, vec![("S".to_string(), same)]), Verdict::Holds);
    let upper = vec![("C".to_string(), Capture::Name(b"Foo".to_vec()))];
    let constant = Constraint { is: Some(NodeKind::Constant), ..Default::default() };
    assert_eq!(judge(&upper, vec![("C".to_string(), constant)]), Verdict::Holds);
}

#[test]
fn the_rule_scope_comes_before_every_constraint() {
    let x = leaf(1, 0, 1, Some("foo"), Role::Other);
    let env = vec![("M".to_string(), Capture::One(&x))];
    let scope = Scope { inside: Some("Billing".to_string()), singleton: None, subclasses: None };
    let v = verdict(&env, &vec!["Other".to_string()], false, &vec![], &vec![], &vec![], &scope, &Hierarchy::new());
    assert_eq!(
        v,
        Verdict::WrongScope(ScopeMiss::Inside { wanted: "Billing".to_string(), found: vec!["Other".to_string()] })
    );
    let v = verdict(&env, &vec!["Billing".to_string()], false, &vec![], &vec![], &vec![], &scope, &Hierarchy::new());
    assert_eq!(v, Verdict::Holds);
    let single = Scope { inside: None, singleton: Some(true), subclasses: None };
    let v = verdict(&env, &vec![], false, &vec![], &vec![], &vec![], &single, &Hierarchy::new());
    assert_eq!(v, Verdict::WrongScope(ScopeMiss::Singleton { wanted: true }));
}

#[test]
fn a_receiver_type_is_judged_by_what_it_resolved_to() {
    let x = leaf(1, 0, 1, Some("account"), Role::Other);
    let env = vec![("R".to_string(), Capture::One(&x))];
    let typed = vec![("R".to_string(), Constraint { receiver_type: Some("Account".to_string()), ..Default::default() })];
    let h = Hierarchy::new();
    let run = |r: Option<Receiver>| verdict(&env, &vec![], false, &typed, &vec![], &vec![r], &Scope::default(), &h);
    assert_eq!(run(Some(Receiver::Instance("Account".to_string()))), Verdict::Holds);
    assert_eq!(
        run(Some(Receiver::Class("Account".to_string()))),
        Verdict::BadBinding {
            capture: "R".to_string(),
            miss: ConstraintMiss::Type { resolved: Some("Account".to_string()), wanted: "Account".to_string(), wrong_kind: true },
        }
    );
    assert_eq!(
        run(None),
        Verdict::BadBinding {
            capture: "R".to_string(),
            miss: ConstraintMiss::Type { resolved: None, wanted: "Account".to_string(), wrong_kind: false },
        }
    );
    let class = vec![(
        "R".to_string(),
        Constraint { receiver_type: Some("Account".to_string()), kind: Some(Kind::Class), ..Default::default() },
    )];
    let v = verdict(&env, &vec![], false, &class, &vec![], &vec![Some(Receiver::Class("Account".to_string()))], &Scope::default(), &h);
    assert_eq!(v, Verdict::Holds);
}

#[test]
fn a_contains_constraint_searches_inside_the_capture() {
    // `foo(x)`: a call whose arguments hold the bare reference `x`.
    let x = leaf(1, 4, 5, Some("x"), Role::Other);
    let args = Node { reach: 0, name_at: None, delimited: None, kind: 2, atoms: vec![], children: vec![x], start: 4, end: 5, bare: None, role: Role::Other };
    let call = Node {
        reach: 0,
        name_at: None,
        delimited: None,
        kind: 3,
        atoms: vec![Atom::Name(b"foo".to_vec())],
        children: vec![args],
        start: 0,
        end: 6,
        bare: None,
        role: Role::Other,
    };
    let env = vec![("B".to_string(), Capture::One(&call))];
    // The sub-pattern `x`, as a program of one statement.
    let sub_root = leaf(1, 0, 1, Some("x"), Role::Other);
    let statements = Node { reach: 0, name_at: None, delimited: None, kind: 9, atoms: vec![], children: vec![sub_root], start: 0, end: 1, bare: None, role: Role::Statements };
    let program = Node { reach: 0, name_at: None, delimited: None, kind: 10, atoms: vec![], children: vec![statements], start: 0, end: 1, bare: None, role: Role::Other };
    let contained = vec![Contained { key: "B".to_string(), source: "x".to_string(), program, bindings: vec![] }];
    let cs = vec![("B".to_string(), Constraint { contains: Some("x".to_string()), ..Default::default() })];
    let v = verdict(&env, &vec![], false, &cs, &contained, &vec![None], &Scope::default(), &Hierarchy::new());
    assert_eq!(v, Verdict::Holds);
    let y = leaf(1, 0, 1, Some("y"), Role::Other);
    let env = vec![("B".to_string(), Capture::One(&y))];
    let v = verdict(&env, &vec![], false, &cs, &contained, &vec![None], &Scope::default(), &Hierarchy::new());
    assert_eq!(v, Verdict::BadBinding { capture: "B".to_string(), miss: ConstraintMiss::Contains { pattern: "x".to_string() } });
}

#[test]
fn a_walk_records_where_each_match_sits_and_keeps_what_the_scope_admits() {
    let call = |start: usize| leaf(7, start, start + 3, Some("foo"), Role::Other);
    let method = Node {
        reach: 0,
        name_at: None,
        delimited: None,
        kind: 8,
        atoms: vec![],
        children: vec![call(20)],
        start: 15,
        end: 30,
        bare: None,
        role: Role::Def { receiver: true, name: b"total".to_vec() },
    };
    let class = Node {
        reach: 0,
        name_at: None,
        delimited: None,
        kind: 5,
        atoms: vec![],
        children: vec![call(10), method],
        start: 0,
        end: 40,
        bare: None,
        role: Role::Body(Some("Billing".to_string())),
    };
    let program = Node { reach: 0, name_at: None, delimited: None, kind: 6, atoms: vec![], children: vec![call(50), class], start: 0, end: 60, bare: None, role: Role::Other };
    let pattern = leaf(7, 0, 3, Some("foo"), Role::Other);
    let anywhere = Criteria { constraints: vec![], contained: vec![], scope: Scope::default() };
    let all = walk(&pattern, &program, &vec![], &anywhere, &Hierarchy::new());
    let seen: Vec<(usize, Vec<String>, bool)> = all.iter().map(|p| (p.node.start, p.scope.clone(), p.singleton)).collect();
    assert_eq!(
        seen,
        vec![
            (50, vec![], false),
            (10, vec!["Billing".to_string()], false),
            (20, vec!["Billing".to_string()], true),
        ]
    );
    let inside = Criteria {
        constraints: vec![],
        contained: vec![],
        scope: Scope { inside: Some("Billing".to_string()), singleton: Some(false), subclasses: None },
    };
    let kept = walk(&pattern, &program, &vec![], &inside, &Hierarchy::new());
    assert_eq!(kept.iter().map(|p| p.node.start).collect::<Vec<_>>(), vec![10]);
}

fn program_of(statement: Node) -> Node {
    let end = statement.end;
    let statements = Node { reach: 0, name_at: None, delimited: None, kind: 1, atoms: vec![], children: vec![statement], start: 0, end, bare: None, role: Role::Statements };
    Node { reach: 0, name_at: None, delimited: None, kind: 2, atoms: vec![], children: vec![statements], start: 0, end, bare: None, role: Role::Other }
}

fn applied(rewrites: bool) -> Applied {
    Applied {
        program: program_of(leaf(7, 0, 3, Some("foo"), Role::Other)),
        bindings: vec![],
        criteria: Criteria { constraints: vec![], contained: vec![], scope: Scope::default() },
        rewrites,
        template: None,
    }
}

#[test]
fn a_reporting_rule_flags_each_match_and_a_rewriting_rule_flags_none() {
    let source = b"foo\nbar\nfoo\n";
    let tree = Node {
        reach: 0,
        name_at: None,
        delimited: None,
        kind: 6,
        atoms: vec![],
        children: vec![leaf(7, 0, 3, Some("foo"), Role::Other), leaf(7, 4, 7, Some("bar"), Role::Other), leaf(7, 8, 11, Some("foo"), Role::Other)],
        start: 0,
        end: 12,
        bare: None,
        role: Role::Statements,
    };
    let rules = vec![applied(false), applied(true), applied(false)];
    let flags = flag(source, Some(&tree), &rules, &Hierarchy::new(), None).expect("the source parses");
    assert_eq!(
        flags,
        vec![
            Flag { rule: 0, start: 0, end: 3 },
            Flag { rule: 0, start: 8, end: 11 },
            Flag { rule: 2, start: 0, end: 3 },
            Flag { rule: 2, start: 8, end: 11 },
        ]
    );
}

#[test]
fn a_source_that_does_not_parse_is_not_scanned() {
    let tree = leaf(7, 0, 3, Some("foo"), Role::Other);
    assert_eq!(flag(b"def foo(", Some(&tree), &vec![applied(false)], &Hierarchy::new(), None), None);
    assert_eq!(flag(b"foo\n", None, &vec![applied(false)], &Hierarchy::new(), None), None);
    assert_eq!(flag(b"foo\n", Some(&tree), &vec![applied(false)], &Hierarchy::new(), None), Some(vec![Flag { rule: 0, start: 0, end: 3 }]));
}

#[test]
fn a_run_restricted_to_changed_lines_flags_only_what_touches_them() {
    let source = b"foo\nbar\nfoo\n";
    let tree = Node {
        reach: 0,
        name_at: None,
        delimited: None,
        kind: 6,
        atoms: vec![],
        children: vec![leaf(7, 0, 3, Some("foo"), Role::Other), leaf(7, 8, 11, Some("foo"), Role::Other)],
        start: 0,
        end: 12,
        bare: None,
        role: Role::Statements,
    };
    let changed = rwr::diff::Changed::from_lines(vec![("/repo/a.rb".to_string(), (3, 3))]);
    let flags = flag(source, Some(&tree), &vec![applied(false)], &Hierarchy::new(), Some((&changed, "/repo/a.rb")));
    assert_eq!(flags, Some(vec![Flag { rule: 0, start: 8, end: 11 }]));
    let elsewhere = flag(source, Some(&tree), &vec![applied(false)], &Hierarchy::new(), Some((&changed, "/repo/b.rb")));
    assert_eq!(elsewhere, Some(vec![]));
}

fn constant(name: &str, start: usize) -> Node {
    let mut n = leaf(3, start, start + name.len(), None, Role::Constant);
    n.atoms = vec![Atom::Name(name.as_bytes().to_vec())];
    n
}

fn method_call(name: &str, receiver: Node) -> Node {
    let end = receiver.end + 1 + name.len();
    let start = receiver.start;
    let mut n = leaf(18, start, end, None, Role::Call { name: name.as_bytes().to_vec(), receiver: true, message: true, arguments: None, block: false });
    n.children = vec![receiver];
    n
}

#[test]
fn a_receiver_resolves_as_far_as_its_syntax_tells() {
    let scope = vec!["Billing".to_string()];
    assert_eq!(resolve_type(&constant("Widget", 0), &scope, false), Some(Receiver::Class("Widget".to_string())));
    assert_eq!(
        resolve_type(&method_call("new", constant("Widget", 0)), &scope, false),
        Some(Receiver::Instance("Widget".to_string()))
    );
    assert_eq!(
        resolve_type(&method_call("dup", method_call("new", constant("Widget", 0))), &scope, false),
        Some(Receiver::Instance("Widget".to_string()))
    );
    let own = leaf(4, 0, 4, None, Role::SelfRef);
    assert_eq!(resolve_type(&own, &scope, false), Some(Receiver::Instance("Billing".to_string())));
    assert_eq!(resolve_type(&own, &scope, true), Some(Receiver::Class("Billing".to_string())));
    assert_eq!(resolve_type(&own, &vec![], false), None);
    let local = leaf(5, 0, 1, Some("x"), Role::Other);
    assert_eq!(resolve_type(&method_call("dup", local), &scope, false), None);
    assert_eq!(resolve_type(&method_call("name", constant("Widget", 0)), &scope, false), None);
}
