use rwr::prepare::prepare;
use rwr::rewrite::sequence::{is_comment_line, line_end, line_start, Transform};
use rwr::rewrite::{
    apply, is_ident_byte, is_ident_start, restore, shifted, transform_suffix, verify, Edit, Refusal,
};

fn edit(start: usize, end: usize, text: &str) -> Edit {
    Edit { start, end, text: text.to_string() }
}

#[test]
fn only_the_closed_set_is_recognised() {
    assert!(Transform::parse("sort").is_some());
    assert!(Transform::parse("uniq").is_some());
    assert!(Transform::parse("reverse").is_some());
    assert!(Transform::parse("sort_by").is_none());
    assert!(Transform::parse("map").is_none());
}

#[test]
fn edits_apply_in_order_and_keep_the_rest() {
    let src = b"foo(a, b)";
    assert_eq!(apply(src, &[edit(0, 3, "bar"), edit(7, 8, "c")]), "bar(a, c)");
    assert_eq!(apply(src, &[]), "foo(a, b)");
    assert_eq!(apply(src, &[edit(4, 8, "")]), "foo()");
}

#[test]
fn an_offset_moves_by_the_edits_before_it() {
    let edits = [edit(0, 3, "longer"), edit(10, 12, "")];
    assert_eq!(shifted(&edits, 0), 0);
    assert_eq!(shifted(&edits, 3), 6);
    assert_eq!(shifted(&edits, 9), 12);
    assert_eq!(shifted(&edits, 12), 13);
    assert_eq!(shifted(&[edit(0, 5, "")], 2), 2);
    assert_eq!(shifted(&[edit(0, 5, "")], 5), 0);
}

#[test]
fn a_transform_suffix_follows_the_metavariable() {
    assert_eq!(transform_suffix("[*$ITEMS.sort]", 8), Some(("sort", 13)));
    assert_eq!(transform_suffix("[*$ITEMS]", 8), None);
    assert_eq!(transform_suffix("*$X.", 3), None);
    assert_eq!(transform_suffix("*$X", 9), None);
}

#[test]
fn identifier_bytes() {
    assert!(is_ident_start(b'_') && is_ident_start(b'a') && !is_ident_start(b'1'));
    assert!(is_ident_byte(b'1') && is_ident_byte(b'Z') && !is_ident_byte(b'?'));
}

#[test]
fn placeholders_are_written_back_as_metavariables() {
    let prepared = prepare("foo($A, _)").expect("prepares");
    assert_eq!(restore("foo(rwr_mv_0)", &prepared), Some("foo($A)".to_string()));
    assert_eq!(restore("bar(rwr_mv_1)", &prepared), None);
    assert_eq!(restore("x + 1", &prepared), Some("x + 1".to_string()));
}

#[test]
fn a_rewrite_that_stops_parsing_is_refused() {
    assert!(verify("foo(a, b)").is_ok());
    match verify("def foo(") {
        Err(Refusal::VerifyFailed { message }) => assert!(!message.is_empty()),
        other => panic!("expected a refusal, got {other:?}"),
    }
}

#[test]
fn refusals_read_as_sentences() {
    assert_eq!(
        Refusal::UnknownTransform { name: "srot".to_string() }.text(),
        "`.srot` is not a sequence transform -- expected `.sort`, `.uniq` or `.reverse`. Emitting it as literal text would write `.srot` into your source"
    );
    assert_eq!(
        Refusal::Overlap { first: edit(1, 5, "x"), second: edit(3, 9, "y") }.text(),
        "two edits overlap and neither can apply without corrupting the other (1..5 and 3..9)"
    );
    assert!(Refusal::DiscontiguousCapture { at: 42 }.text().starts_with("a capture at byte 42 "));
}

#[test]
fn lines_and_comment_lines() {
    let src = b"a = 1\n  # note\nb";
    assert_eq!(line_start(src, 3), 0);
    assert_eq!(line_start(src, 8), 6);
    assert_eq!(line_end(src, 0), 5);
    assert_eq!(line_end(src, 15), 16);
    assert!(is_comment_line(src, 6, 14));
    assert!(!is_comment_line(src, 0, 5));
    // All blank is blank or comment throughout.
    assert!(is_comment_line(src, 6, 8));
    assert!(is_comment_line(b"  # about zebra", 0, 15));
    assert!(!is_comment_line(b"  :apple, # x", 0, 13));
    assert!(is_comment_line(b"   ", 0, 3));
}
