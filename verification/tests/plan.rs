use rwr::rewrite::plan::{edits_for, match_edits, outermost, plan, plan_edits, Matched};
use rwr::rewrite::{apply, Bound, Edit, Refusal, Span};

fn edit(start: usize, end: usize, text: &str) -> Edit {
    Edit { start, end, text: text.to_string() }
}

#[test]
fn a_contained_edit_is_dropped_and_counted() {
    let (kept, dropped) = outermost(vec![(1, edit(2, 5, "inner")), (0, edit(0, 10, "outer"))])
        .unwrap_or_else(|e| panic!("{}", e.text()));
    assert_eq!(kept.len(), 1);
    assert_eq!(kept[0].0, 0);
    assert_eq!(kept[0].1, edit(0, 10, "outer"));
    assert_eq!(dropped, 1);
}

#[test]
fn of_two_edits_at_one_place_the_wider_wins() {
    let (kept, dropped) = outermost(vec![(0, edit(3, 4, "a")), (1, edit(3, 8, "b"))]).expect("no overlap");
    assert_eq!(kept.iter().map(|(i, _)| *i).collect::<Vec<_>>(), vec![1]);
    assert_eq!(dropped, 1);
}

#[test]
fn a_partial_overlap_is_refused() {
    match outermost(vec![(0, edit(0, 5, "a")), (1, edit(3, 8, "b"))]) {
        Err(Refusal::Overlap { first, second }) => {
            assert_eq!(first, edit(0, 5, "a"));
            assert_eq!(second, edit(3, 8, "b"));
        }
        other => panic!("expected an overlap, got {other:?}"),
    }
}

#[test]
fn disjoint_edits_come_out_in_order() {
    let (kept, dropped) =
        outermost(vec![(2, edit(9, 10, "c")), (0, edit(0, 1, "a")), (1, edit(4, 6, "b"))]).expect("disjoint");
    let starts: Vec<usize> = kept.iter().map(|(_, e)| e.start).collect();
    assert_eq!(starts, vec![0, 4, 9]);
    assert_eq!(dropped, 0);
}

#[test]
fn a_site_is_its_whole_lines_with_its_edits_applied() {
    let source = b"a = 1\nfoo(bar)\nb = 2\n";
    let planned = plan_edits(vec![(0, edit(6, 9, "baz")), (0, edit(10, 13, "qux"))], &vec![(6, 13)], source)
        .unwrap_or_else(|e| panic!("{}", e.text()));
    assert_eq!(planned.sites, 1);
    assert_eq!(planned.dropped, 0);
    assert_eq!(planned.edits.len(), 2);
    assert_eq!(planned.at.len(), 1);
    assert_eq!(planned.at[0].start, 6);
    assert_eq!(planned.at[0].end, 14);
    assert_eq!(planned.at[0].replacement, "baz(qux)");
}

#[test]
fn sites_are_reported_by_where_they_start() {
    let source = b"one\ntwo\nthree\n";
    let planned = plan_edits(vec![(0, edit(8, 13, "3")), (1, edit(0, 3, "1"))], &vec![(8, 13), (0, 3)], source).expect("plan");
    assert_eq!(planned.sites, 2);
    let at: Vec<(usize, usize, &str)> =
        planned.at.iter().map(|s| (s.start, s.end, s.replacement.as_str())).collect();
    assert_eq!(at, vec![(0, 3, "1"), (8, 13, "3")]);
}


fn node(start: usize, end: usize) -> Span {
    Span { start, own_end: end, end }
}

fn matched(start: usize, end: usize, env: Vec<(String, Bound)>) -> Matched {
    Matched { span: node(start, end), env, inner: (start, end), minimal: None }
}

/// An empty template deletes the match's unit: the node, the comment above
/// it and its line.
#[test]
fn an_empty_template_deletes_the_unit() {
    let src = "class A\n  # Says b.\n  def b; end\n  def c; end\nend\n";
    let start = src.find("def b").unwrap();
    let m = matched(start, start + "def b; end".len(), vec![]);
    let planned = plan(vec![m], "  ", src.as_bytes()).unwrap_or_else(|e| panic!("{}", e.text()));
    assert_eq!(apply(src.as_bytes(), &planned.edits), "class A\n  def c; end\nend\n");
    assert_eq!(planned.sites, 1);
}

/// Deleting part of a line is refused, naming what would have gone.
#[test]
fn deleting_part_of_a_line_is_refused() {
    let src = "x = a.display_name\n";
    let m = matched(4, 18, vec![]);
    match match_edits(0, m, "", src.as_bytes()) {
        Err(Refusal::PartialDeletion { text }) => assert_eq!(text, "a.display_name"),
        other => panic!("expected a refusal, got {:?}", other.map(|v| v.len())),
    }
}

/// Where no minimal edit is known the whole span takes the rendered template.
#[test]
fn without_a_minimal_edit_the_span_is_re_rendered() {
    let src = "x = foo(  1 )\n";
    let env = vec![("A".to_string(), Bound::One(node(10, 11)))];
    let m = matched(4, 13, env);
    let planned = plan(vec![m], "bar($A)", src.as_bytes()).unwrap_or_else(|e| panic!("{}", e.text()));
    assert_eq!(apply(src.as_bytes(), &planned.edits), "x = bar(1)\n");
}

/// Minimal edits pass through, tagged with their match; none means the
/// match already reads as the template.
#[test]
fn minimal_edits_pass_through() {
    let src = "foo(1)\nfoo(2)\n";
    let first = Matched { span: node(0, 6), env: vec![], inner: (4, 5), minimal: Some(vec![edit(0, 3, "bar")]) };
    let second = Matched { span: node(7, 13), env: vec![], inner: (11, 12), minimal: Some(vec![]) };
    let edits = edits_for(vec![first, second], "bar($A)", src.as_bytes()).unwrap_or_else(|e| panic!("{}", e.text()));
    assert_eq!(edits, vec![(0, edit(0, 3, "bar"))]);
}

/// The first match that cannot be planned refuses the whole plan.
#[test]
fn the_first_refusing_match_refuses_the_plan() {
    let src = "foo(<<~A)\n  x\nA\n";
    let env = vec![("A".to_string(), Bound::One(Span { start: 4, own_end: 8, end: 16 }))];
    let m = matched(0, 9, env);
    match plan(vec![m], "bar($A)", src.as_bytes()) {
        Err(Refusal::DiscontiguousCapture { at }) => assert_eq!(at, 4),
        _ => panic!("expected a refusal"),
    }
}

/// Each changed site's matched span, in order of span, one per site.
#[test]
fn each_changed_site_keeps_its_matched_span() {
    let src = "foo(1)\nfoo(2)\n";
    let second = Matched { span: node(7, 13), env: vec![], inner: (11, 12), minimal: Some(vec![edit(7, 10, "bar")]) };
    let first = Matched { span: node(0, 6), env: vec![], inner: (4, 5), minimal: Some(vec![edit(0, 3, "bar")]) };
    let unchanged = Matched { span: node(0, 6), env: vec![], inner: (4, 5), minimal: Some(vec![]) };
    let planned = plan(vec![second, unchanged, first], "bar($A)", src.as_bytes()).unwrap_or_else(|e| panic!("{}", e.text()));
    assert_eq!(planned.sites, 2);
    assert_eq!(planned.matched, vec![(0, 6), (7, 13)]);
}
