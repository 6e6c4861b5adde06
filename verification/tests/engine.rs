use rwr::engine::{shadowed, Engine};
use rwr::rule::{Constraint, Rule};
use rwr::tree::{Expr, Shape, Tree};

fn rule(pattern: &str, rewrite: Option<&str>) -> Rule {
    Rule {
        id: Some("t".to_string()),
        pattern: pattern.to_string(),
        rewrite: rewrite.map(str::to_string),
        ..Default::default()
    }
}

fn refusal(rules: Vec<Rule>) -> String {
    match Engine::new(rules) {
        Ok(_) => panic!("the rule set should be refused"),
        Err(e) => e,
    }
}

#[test]
fn a_valid_rule_set_is_built() {
    let engine = Engine::new(vec![rule("foo($A)", Some("bar($A)"))]).unwrap_or_else(|e| panic!("{e}"));
    assert_eq!(engine.rules().len(), 1);
    let prepared = engine.prepared();
    assert_eq!(prepared.len(), 1);
    assert_eq!(prepared[0].0.pattern, "foo($A)");
    assert_eq!(prepared[0].1.source, "foo(rwr_mv_0)");
    assert!(!engine.claims_completeness());
}

#[test]
fn only_a_source_holding_the_literals_is_read() {
    let engine = Engine::new(vec![rule("foo($A)", Some("bar($A)"))]).expect("builds");
    assert!(engine.may_contribute(b"x = foo(1)\n"));
    assert!(!engine.may_contribute(b"x = baz(1)\n"));

    // Any one rule needing the file is enough.
    let two = Engine::new(vec![rule("foo($A)", None), rule("qux($A)", None)]).expect("builds");
    assert!(two.may_contribute(b"qux(2)"));
}

#[test]
fn moving_a_definition_claims_completeness() {
    for pattern in ["def display_name; $B; end", "attr_reader :display_name"] {
        let engine = Engine::new(vec![rule(pattern, None)]).unwrap_or_else(|e| panic!("{pattern}: {e}"));
        assert!(engine.claims_completeness(), "{pattern}");
    }
    let calls = Engine::new(vec![rule("$R.gsub($F, $T)", Some("$R.tr($F, $T)"))]).expect("builds");
    assert!(!calls.claims_completeness());
}

#[test]
fn a_pattern_must_be_one_statement() {
    assert_eq!(
        refusal(vec![rule("foo; bar", None)]),
        "a pattern must be a single expression: foo; bar"
    );
}

#[test]
fn an_unparseable_pattern_is_refused() {
    let message = refusal(vec![rule("foo(", None)]);
    assert!(message.starts_with("pattern is not valid Ruby: "), "{message}");
}

#[test]
fn a_constraint_on_a_variable_the_pattern_lacks_is_refused() {
    let mut r = rule("$R.foo", None);
    r.constraints = vec![("$X".to_string(), Constraint::default())];
    let message = refusal(vec![r]);
    assert!(message.starts_with("t is not a rule: "), "{message}");
}

#[test]
fn a_name_already_local_where_the_edit_lands_is_shadowed() {
    let scopes = vec![(0usize, 40usize, vec!["full_name".to_string()]), (50, 60, vec!["other".to_string()])];
    assert!(shadowed(&scopes, 10, "full_name"));
    assert!(!shadowed(&scopes, 45, "full_name"));
    assert!(!shadowed(&scopes, 55, "full_name"));
    assert!(shadowed(&scopes, 55, "other"));
}

/// The hierarchy is built only when a rule asks about subclasses, and then
/// from every class any rule names.
#[test]
fn the_hierarchy_is_wanted_from_every_named_class() {
    let plain = Engine::new(vec![rule("foo($A)", None)]).expect("builds");
    assert_eq!(plain.hierarchy_roots(), None);
    assert!(!plain.needs_signatures());

    let mut scoped = rule("foo($A)", None);
    scoped.scope.inside = Some("Account".to_string());
    scoped.scope.subclasses = Some(true);
    let mut typed = rule("bar($X)", None);
    typed.constraints = vec![(
        "X".to_string(),
        Constraint { receiver_type: Some("User".to_string()), type_not: Some(vec!["Admin".to_string()]), ..Default::default() },
    )];
    let engine = Engine::new(vec![scoped, typed]).expect("builds");
    assert_eq!(
        engine.hierarchy_roots(),
        Some(vec!["Account".to_string(), "User".to_string(), "Admin".to_string()])
    );
    assert!(engine.needs_signatures());
}

fn premium() -> Tree {
    let class = Tree {
        shape: Shape::Class { path: Expr::Read("Premium".to_string()), superclass: Some(Expr::Read("Account".to_string())) },
        children: Vec::new(),
    };
    Tree { shape: Shape::Other, children: vec![class] }
}

/// Nothing is read unless a rule asks about subclasses; then the hierarchy
/// holds what the files reachable from the named classes say.
#[test]
fn the_context_reads_only_what_a_subclass_rule_needs() {
    let bytes = vec![b"class Premium < Account\nend\n".to_vec()];
    let plain = Engine::new(vec![rule("foo($A)", None)]).expect("builds");
    let ctx = plain.context(&bytes, &vec![Some(premium())]);
    assert_eq!(ctx.parsed, 0);
    assert!(!ctx.hierarchy.descends_from("Premium", "Account"));

    let mut scoped = rule("foo($A)", None);
    scoped.scope.inside = Some("Account".to_string());
    scoped.scope.subclasses = Some(true);
    let engine = Engine::new(vec![scoped]).expect("builds");
    let ctx = engine.context(&bytes, &vec![Some(premium())]);
    assert_eq!(ctx.parsed, 1);
    assert!(ctx.hierarchy.descends_from("Premium", "Account"));
}
