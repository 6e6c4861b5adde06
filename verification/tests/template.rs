use rwr::rewrite::{captured_text, render, Bound, Refusal, Span};

/// A node without a heredoc at `start..end`.
fn node(start: usize, end: usize) -> Span {
    Span { start, own_end: end, end }
}

fn env(pairs: Vec<(&str, Bound)>) -> Vec<(String, Bound)> {
    pairs.into_iter().map(|(n, b)| (n.to_string(), b)).collect()
}

#[test]
fn captures_keep_their_source_text() {
    let source = b"foo(  x  +  1  )\n";
    let e = env(vec![("A", Bound::One(node(4, 15)))]);
    assert_eq!(render("bar($A)", &e, source, (4, 15)), Ok("bar(  x  +  1  )".to_string()));
}

#[test]
fn a_sequence_capture_spans_its_run() {
    let source = b"foo(1, 2, 3)\n";
    let e = env(vec![("R", Bound::Many(vec![node(4, 5), node(7, 8), node(10, 11)]))]);
    assert_eq!(render("bar(*$R)", &e, source, (4, 11)), Ok("bar(1, 2, 3)".to_string()));
}

#[test]
fn an_empty_sequence_takes_the_comma_before_it() {
    let source = b"foo(1)\n";
    let e = env(vec![("A", Bound::One(node(4, 5))), ("R", Bound::Many(vec![]))]);
    assert_eq!(render("bar($A, *$R)", &e, source, (4, 5)), Ok("bar(1)".to_string()));
}

#[test]
fn an_empty_leading_sequence_takes_the_comma_after_it() {
    let source = b"[2]\n";
    let e = env(vec![("R", Bound::Many(vec![]))]);
    assert_eq!(render("[*$R, 2]", &e, source, (1, 2)), Ok("[2]".to_string()));
}

#[test]
fn a_bare_name_renders_as_itself() {
    let e = env(vec![("M", Bound::Name(b"display_name".to_vec()))]);
    assert_eq!(render("def $M; end", &e, b"", (0, 0)), Ok("def display_name; end".to_string()));
}

#[test]
fn a_sequence_is_sorted_by_its_transform() {
    let source = b"[:b, :a]";
    let e = env(vec![("R", Bound::Many(vec![node(1, 3), node(5, 7)]))]);
    assert_eq!(render("[*$R.sort]", &e, source, (1, 7)), Ok("[:a, :b]".to_string()));
}

/// On a single capture a `.sort` suffix is ordinary output.
#[test]
fn a_suffix_on_a_single_capture_is_literal() {
    let source = b"xs";
    let e = env(vec![("X", Bound::One(node(0, 2)))]);
    assert_eq!(render("$X.sort", &e, source, (0, 2)), Ok("xs.sort".to_string()));
}

#[test]
fn an_unknown_transform_is_refused() {
    let source = b"[:b, :a]";
    let e = env(vec![("R", Bound::Many(vec![node(1, 3), node(5, 7)]))]);
    assert_eq!(
        render("[*$R.srot]", &e, source, (1, 7)),
        Err(Refusal::UnknownTransform { name: "srot".to_string() })
    );
}

#[test]
fn an_ambiguous_comment_refuses_the_template() {
    let source = b"[\n  :b, :a, # which\n]";
    let e = env(vec![("R", Bound::Many(vec![node(4, 6), node(8, 10)]))]);
    assert_eq!(render("[*$R.sort]", &e, source, (1, 20)), Err(Refusal::AmbiguousComment));
}

/// A heredoc's body lies outside its node, so a capture holding one cannot
/// be spliced by range.
#[test]
fn a_capture_holding_a_heredoc_is_refused() {
    let source = b"foo(<<~SQL)\n  SELECT 1\nSQL\n";
    let heredoc = Span { start: 4, own_end: 10, end: 26 };
    let e = env(vec![("A", Bound::One(heredoc))]);
    assert_eq!(
        render("bar($A)", &e, source, (4, 10)),
        Err(Refusal::DiscontiguousCapture { at: 4 })
    );
    assert_eq!(
        captured_text(&Bound::Many(vec![node(0, 3), heredoc]), source),
        Err(Refusal::DiscontiguousCapture { at: 4 })
    );
}

#[test]
fn an_unbound_metavariable_renders_as_nothing() {
    let e = env(vec![]);
    assert_eq!(render("f($A)", &e, b"", (0, 0)), Ok("f()".to_string()));
}

#[test]
fn a_template_without_metavariables_renders_as_itself() {
    let e = env(vec![("A", Bound::One(node(0, 1)))]);
    assert_eq!(render("return", &e, b"x", (0, 1)), Ok("return".to_string()));
}
