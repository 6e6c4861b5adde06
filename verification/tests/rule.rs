use rwr::prepare::prepare;
use rwr::rule::{method_notation, Constraint, Kind, MethodRename, Rule, RuleError};

/// A rule matching `$R.foo` whose `$R` carries the given constraint.
fn receiver_rule(constraint: Constraint) -> Rule {
    Rule {
        id: Some("t".to_string()),
        pattern: "$R.foo".to_string(),
        constraints: vec![("$R".to_string(), constraint)],
        ..Default::default()
    }
}

fn refuse(constraint: Constraint) -> Option<String> {
    let rule = receiver_rule(constraint);
    let prepared = prepare(&rule.pattern).unwrap_or_else(|e| panic!("prepares: {}", e.text()));
    rule.validate(&prepared).err().map(|e| format!("{e:?}"))
}

#[test]
fn a_type_that_cannot_be_a_constant_is_refused() {
    let lower = refuse(Constraint {
        receiver_type: Some("constant".into()),
        ..Default::default()
    })
    .expect("lowercase class refuses");
    assert!(lower.contains("cannot be one"), "{lower}");
    // And points at the predicate that does take this word.
    assert!(lower.contains("is: constant"), "{lower}");

    // Not a node kind, so no hint -- but still refused.
    let odd = refuse(Constraint {
        receiver_type: Some("fooBar".into()),
        ..Default::default()
    })
    .expect("refuses");
    assert!(!odd.contains("did you mean"), "{odd}");

    // Every class in an exclusion list is checked, not just the first.
    assert!(
        refuse(Constraint {
            type_not: Some(vec!["TrueClass".into(), "boolean".into()]),
            ..Default::default()
        })
        .is_some(),
        "a bad class later in the list must still refuse"
    );

    // A real class name is left alone.
    assert!(refuse(Constraint {
        receiver_type: Some("Account".into()),
        ..Default::default()
    })
    .is_none());
    assert!(
        refuse(Constraint {
            receiver_type: Some("ActiveRecord::Base".into()),
            ..Default::default()
        })
        .is_none(),
        "a constant path is a class name too"
    );
}

#[test]
fn every_receiver_predicate_is_in_the_lazy_gate() {
    let by_type = Constraint {
        receiver_type: Some("Account".into()),
        ..Default::default()
    };
    let by_exclusion = Constraint {
        type_not: Some(vec!["TrueClass".into(), "FalseClass".into()]),
        ..Default::default()
    };
    assert!(by_type.narrows_by_receiver());
    assert!(by_exclusion.narrows_by_receiver());
    assert!(!Constraint::default().narrows_by_receiver());

    // Descent is consulted for every excluded class, so each is a root.
    assert_eq!(by_type.hierarchy_roots(), vec!["Account".to_string()]);
    assert_eq!(
        by_exclusion.hierarchy_roots(),
        vec!["TrueClass".to_string(), "FalseClass".to_string()]
    );
}

#[test]
fn method_notation_is_recognised_narrowly() {
    for good in [
        "Account#display_name",
        "Account.display_name",
        "Admin::Account#display_name",
        "#display_name",
        "Account#valid?",
        "Account#save!",
    ] {
        assert!(method_notation(good).is_some(), "{good}");
    }
    for not in [
        "$R.display_name",
        "Account.display_name(1)",
        "Account.new.display_name",
        "display_name",
        "Account",
        "foo.bar",
        "Account#Display",
        ".display_name",
        "Account#",
    ] {
        assert!(method_notation(not).is_none(), "{not}");
    }
}

#[test]
fn the_reporting_form_covers_the_same_sites_as_the_rename() {
    let renaming = MethodRename {
        method: "Account#display_name".into(),
        rename: Some("full_name".into()),
    };
    let reporting = method_notation("Account#display_name").expect("notation");

    let (a, b) = (renaming.expand(), reporting.expand());
    assert_eq!(a.len(), b.len());
    for (r, f) in a.iter().zip(&b) {
        assert_eq!(r.pattern, f.pattern);
        assert_eq!(r.scope.inside, f.scope.inside);
        assert_eq!(r.scope.singleton, f.scope.singleton);
        assert!(r.rewrite.is_some(), "a rename proposes an edit");
        assert!(f.rewrite.is_none(), "a report proposes none");
    }
}

#[test]
fn a_classless_method_notation_drops_the_scoped_rules() {
    let rules = method_notation("#display_name").expect("notation").expand();
    assert!(!rules.is_empty());
    assert!(rules.iter().all(|r| r.scope.inside.is_none()), "nothing to scope by");
    assert!(
        rules.iter().any(|r| r.pattern == "$R.display_name"),
        "explicit-receiver calls still covered"
    );
}

#[test]
fn method_notation_expands_to_a_rule_set() {
    let rename = MethodRename {
        method: "Account#display_name".into(),
        rename: Some("full_name".into()),
    };
    let rules = rename.expand();
    assert_eq!(rules[0].pattern, "def display_name(*$P); $B; end");
    assert_eq!(rules[0].scope.inside.as_deref(), Some("Account"));
    assert_eq!(rules[1].pattern, "$R.display_name");
    assert_eq!(rules[1].constraint("$R").expect("$R").kind, Some(Kind::Instance));

    let patterns: Vec<&str> = rules.iter().map(|r| r.pattern.as_str()).collect();
    assert!(patterns.contains(&"$R.$SEND(:display_name)"), "{patterns:?}");
    assert!(patterns.contains(&"$R.$SEND(\"display_name\")"), "{patterns:?}");
    for rule in rules.iter().filter(|r| r.pattern.contains("$SEND")) {
        assert!(
            rule.constraint("$SEND")
                .expect("$SEND")
                .name
                .as_ref()
                .is_some_and(|n| n.iter().any(|m| m == "public_send")),
            "a dispatcher rule must say which dispatchers it means"
        );
        assert_eq!(rule.constraint("$R").expect("$R").kind, Some(Kind::Instance));
    }

    let implicit = rules.last().expect("an implicit-self rule");
    assert_eq!(implicit.pattern, "display_name");
    assert_eq!(implicit.scope.inside.as_deref(), Some("Account"));
}

#[test]
fn the_dot_form_targets_class_methods() {
    let rename = MethodRename {
        method: "Account.display_name".into(),
        rename: Some("full_name".into()),
    };
    let rules = rename.expand();
    assert_eq!(rules[0].pattern, "def self.display_name(*$P); $B; end");
    assert_eq!(rules[1].pattern, "def display_name(*$P); $B; end");
    assert_eq!(rules[1].scope.singleton, Some(true));

    let calls = rules
        .iter()
        .find(|r| r.pattern.starts_with("$R."))
        .expect("a call-site rule");
    assert_eq!(calls.constraint("$R").expect("$R").kind, Some(Kind::Class));

    let implicit = rules.last().expect("an implicit-self rule");
    assert_eq!(implicit.scope.singleton, Some(true));
}

#[test]
fn the_hash_form_stays_out_of_the_singleton() {
    let rename = MethodRename {
        method: "Account#display_name".into(),
        rename: Some("full_name".into()),
    };
    let rules = rename.expand();
    assert_eq!(rules[0].pattern, "def display_name(*$P); $B; end");
    assert_eq!(
        rules[0].scope.singleton,
        Some(false),
        "an instance rename must decline a `class << self` definition"
    );
}

#[test]
fn a_rule_without_an_id_is_named_by_its_file() {
    let rules = rwr::rule::identified(
        vec![
            Rule { pattern: "a".into(), ..Default::default() },
            Rule { id: Some("own".into()), pattern: "b".into(), ..Default::default() },
        ],
        "pack/detect",
    );
    assert_eq!(rules[0].id.as_deref(), Some("pack/detect"));
    assert_eq!(rules[1].id.as_deref(), Some("own"));
}

#[test]
fn an_unknown_variable_in_a_where_block_is_malformed() {
    let rule = Rule {
        id: Some("t".to_string()),
        pattern: "$R.foo".to_string(),
        constraints: vec![("$X".to_string(), Constraint::default())],
        ..Default::default()
    };
    let prepared = prepare(&rule.pattern).unwrap_or_else(|e| panic!("{}", e.text()));
    assert!(matches!(rule.validate(&prepared), Err(RuleError::Malformed { .. })));
}

/// A `residue:` count is about a name the set moves; on a set that moves
/// none it is refused, as `finds:` is on a rewriting set.
#[test]
fn a_residue_fixture_needs_a_set_that_moves_a_name() {
    let case = rwr::rule::Case {
        input: "x".to_string(),
        output: None,
        unchanged: None,
        finds: None,
        residue: Some(0),
    };
    let rule = Rule { pattern: "foo($A)".to_string(), rewrite: Some("bar($A)".to_string()), tests: vec![case], ..Default::default() };
    let rules = vec![rule];
    assert_eq!(
        rwr::rule::cases(&rules, false).err(),
        Some("`residue:` needs a rule that moves a name; this set moves none".to_string())
    );
    assert_eq!(rwr::rule::cases(&rules, true).map(|c| c.len()).ok(), Some(1));
}

#[test]
fn a_where_entry_naming_a_capture_twice_is_refused() {
    let rule = Rule {
        id: Some("t".to_string()),
        pattern: "$R.foo".to_string(),
        constraints: vec![("$R".to_string(), Constraint::none()), ("$R".to_string(), Constraint::none())],
        ..Default::default()
    };
    let prepared = prepare(&rule.pattern).unwrap_or_else(|e| panic!("prepares: {}", e.text()));
    match rule.validate(&prepared) {
        Err(RuleError::Malformed { message, .. }) => assert_eq!(message, "`where:` names $R twice"),
        other => panic!("expected a refusal, got {other:?}"),
    }
}
