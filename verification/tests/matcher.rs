use rwr::matcher::{enclosing_class, Atom, ConstraintMiss, Receiver, ScopeMiss, Verdict};
use rwr::rule::NodeKind;

#[test]
fn an_unresolved_receiver_reads_differently_from_a_wrong_one() {
    let unresolved = Verdict::BadBinding {
        capture: "R".to_string(),
        miss: ConstraintMiss::Type {
            resolved: None,
            wanted: "Widget".to_string(),
            wrong_kind: false,
        },
    };
    let wrong = Verdict::BadBinding {
        capture: "R".to_string(),
        miss: ConstraintMiss::Type {
            resolved: Some("Gadget".to_string()),
            wanted: "Widget".to_string(),
            wrong_kind: false,
        },
    };
    assert!(unresolved.detail().contains("did not resolve"));
    assert!(wrong.detail().contains("Gadget"));
    assert_ne!(unresolved.detail(), wrong.detail());
    assert_eq!(unresolved.constraint(), "type");
    assert_eq!(wrong.constraint(), "type");
}

#[test]
fn a_rule_bug_is_distinct_from_a_scope_miss() {
    assert_eq!(Verdict::Bug("x").constraint(), "rule-bug");
    assert_eq!(
        Verdict::WrongScope(ScopeMiss::Singleton { wanted: true }).constraint(),
        "singleton"
    );
}

#[test]
fn every_detail_reads_as_one_line() {
    let bad = |miss| Verdict::BadBinding { capture: "X".to_string(), miss };
    assert_eq!(Verdict::Holds.detail(), "");
    assert_eq!(Verdict::Holds.constraint(), "none");
    assert_eq!(Verdict::Bug("why").detail(), "why");
    assert_eq!(
        Verdict::WrongScope(ScopeMiss::Inside { wanted: "A".to_string(), found: vec![] }).detail(),
        "needs `inside: A`, found the top level"
    );
    assert_eq!(
        Verdict::WrongScope(ScopeMiss::Inside {
            wanted: "A".to_string(),
            found: vec!["B".to_string(), "C".to_string()]
        })
        .detail(),
        "needs `inside: A`, found B::C"
    );
    assert_eq!(
        Verdict::WrongScope(ScopeMiss::Singleton { wanted: false }).detail(),
        "needs `singleton: false`, found a singleton method"
    );
    assert_eq!(
        bad(ConstraintMiss::Name {
            actual: Some("map".to_string()),
            allowed: vec!["select".to_string(), "find_all".to_string()]
        })
        .detail(),
        "`map` is not one of select, find_all"
    );
    assert_eq!(
        bad(ConstraintMiss::Name { actual: None, allowed: vec!["a".to_string()] }).detail(),
        "no identifier here; `name:` wants one of a"
    );
    assert_eq!(
        bad(ConstraintMiss::Type {
            resolved: Some("Account".to_string()),
            wanted: "Account".to_string(),
            wrong_kind: true
        })
        .detail(),
        "resolved to Account, but as the other of instance/class than `type: Account` means"
    );
    assert_eq!(
        bad(ConstraintMiss::NameNot { actual: "x".to_string() }).detail(),
        "`x` is excluded by `name_not:`"
    );
    assert_eq!(bad(ConstraintMiss::Is { wanted: NodeKind::Symbol }).detail(), "not Symbol");
    assert_eq!(
        bad(ConstraintMiss::Contains { pattern: "log($A)".to_string() }).detail(),
        "does not contain `log($A)`"
    );
    assert_eq!(
        bad(ConstraintMiss::Length { actual: Some(3), wanted: 1 }).detail(),
        "3 character(s), not 1"
    );
    assert_eq!(
        bad(ConstraintMiss::Length { actual: None, wanted: 12 }).detail(),
        "not a literal, so `length: 12` cannot apply"
    );
    assert_eq!(
        bad(ConstraintMiss::SameNameAs { other: "$B".to_string() }).detail(),
        "does not name the same identifier as $B"
    );
    assert_eq!(bad(ConstraintMiss::SameNameAs { other: "$B".to_string() }).capture(), Some("$X".to_string()));
    assert_eq!(Verdict::Holds.capture(), None);
}

#[test]
fn the_enclosing_class_skips_singleton_bodies() {
    let scope = vec!["Billing".to_string(), "<<self".to_string(), "Account".to_string()];
    assert_eq!(enclosing_class(&scope), Some("Billing::Account".to_string()));
    assert_eq!(enclosing_class(&vec!["<<self".to_string()]), None);
    assert_eq!(enclosing_class(&vec![]), None);
}

#[test]
fn a_receiver_says_which_method_table() {
    let i = Receiver::Instance("Account".to_string());
    let c = Receiver::Class("Account".to_string());
    assert_eq!(i.class_name(), "Account");
    assert_eq!(c.class_name(), "Account");
    assert!(i.is_instance());
    assert!(!c.is_instance());
}

#[test]
fn atoms_compare_by_bytes() {
    assert_eq!(Atom::name(b"foo"), Atom::Name(b"foo".to_vec()));
    assert_eq!(Atom::value(b"x"), Atom::Value(b"x".to_vec()));
    assert_ne!(Atom::name(b"x"), Atom::value(b"x"));
}
