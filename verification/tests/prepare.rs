use rwr::metavar::{scan, Arity};
use rwr::prepare::{nearest, prepare, prepare_with, render, Case, Prepared};

fn parses(pattern: &str) -> Prepared {
    prepare(pattern).unwrap_or_else(|e| panic!("{pattern:?} should prepare: {}", e.text()))
}

fn clean(source: &str) -> bool {
    ruby_prism::parse(source.as_bytes()).errors().count() == 0
}

#[test]
fn expression_position_needs_no_repair() {
    let p = parses("foo($A, $B)");
    assert_eq!(p.bindings.len(), 2);
    assert!(clean(&p.source));
    assert_eq!(p.source, "foo(rwr_mv_0, rwr_mv_1)");
}

#[test]
fn positions_that_a_global_cannot_occupy() {
    for pattern in ["x.$M(1)", "def $M; end", ":$M", "foo($K: 1)", "Foo::$C"] {
        let p = parses(pattern);
        assert!(clean(&p.source), "{pattern:?} produced unparseable {:?}", p.source);
    }
}

#[test]
fn mixed_case_requirements_are_repaired_independently() {
    let p = parses("class $C; def go; [1].each { |$P| $P }; end; end");
    assert!(clean(&p.source));
    assert!(p.source.contains("class RwrMv"), "class name lowercase: {:?}", p.source);
    assert!(p.source.contains("|rwr_mv_"), "block param capitalised: {:?}", p.source);
}

#[test]
fn scope_resolution_parses_under_either_casing() {
    let p = parses("Foo::$C");
    assert!(clean(&p.source));
    assert!(p.source.contains("rwr_mv_0"), "unexpected repair: {:?}", p.source);
}

#[test]
fn sequence_metavariables_keep_their_splat() {
    let p = parses("[*$ITEMS]");
    assert!(p.source.starts_with("[*"), "splat lost: {:?}", p.source);
    assert_eq!(p.bindings[0].1.arity, Arity::Many);
}

#[test]
fn anonymous_metavariables_bind_no_name() {
    let p = parses("foo(_, *_)");
    assert_eq!(p.bindings.len(), 2);
    assert!(p.bindings.iter().all(|(_, b)| b.name.is_none()));
}

#[test]
fn unparseable_patterns_are_rejected() {
    assert!(prepare("def foo(").is_err());
    assert!(prepare("$A +").is_err());
}

#[test]
fn a_declared_constant_starts_capitalised() {
    let p = prepare_with("$C = [1]", &vec!["$C".to_string()]).expect("prepares");
    assert_eq!(p.source, "RwrMv0 = [1]");
    let q = prepare("$C = [1]").expect("prepares");
    assert_eq!(q.source, "rwr_mv_0 = [1]");
}

#[test]
fn placeholders_are_numbered_by_position() {
    assert_eq!(Case::Lower.placeholder(3), "rwr_mv_3");
    assert_eq!(Case::Upper.placeholder(12), "RwrMv12");
    assert_eq!(Case::Lower.flipped(), Case::Upper);
    assert_eq!(Case::Upper.flipped(), Case::Lower);
}

#[test]
fn rendering_reports_each_placeholder_span() {
    let pattern = "f($A, *$B)";
    let vars = scan(pattern);
    let (source, spans) = render(pattern, &vars, &vec![Case::Lower, Case::Upper]);
    assert_eq!(source, "f(rwr_mv_0, *RwrMv1)");
    assert_eq!(spans, vec![(2, 10), (13, 19)]);
}

#[test]
fn the_nearest_placeholder_is_the_one_holding_the_error_else_the_closest() {
    let spans = vec![(2, 10), (13, 19)];
    assert_eq!(nearest(&spans, 4), Some(0));
    assert_eq!(nearest(&spans, 13), Some(1));
    assert_eq!(nearest(&spans, 11), Some(0));
    assert_eq!(nearest(&spans, 12), Some(1));
    assert_eq!(nearest(&spans, 40), Some(1));
    assert_eq!(nearest(&vec![], 0), None);
}
