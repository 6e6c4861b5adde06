use rwr::rewrite::sequence::{has_ambiguous_comment, render, unit_range, Transform};

/// The span of the `nth` occurrence of `word` in `src`.
fn span(src: &str, word: &str, nth: usize) -> (usize, usize) {
    let mut from = 0;
    let mut at = 0;
    for _ in 0..=nth {
        at = from + src[from..].find(word).expect("word present");
        from = at + word.len();
    }
    (at, at + word.len())
}

/// The inside of the array's brackets.
fn inner(src: &str) -> (usize, usize) {
    (src.find('[').unwrap() + 1, src.rfind(']').unwrap())
}

fn sorted(src: &str, words: &[&str]) -> Option<String> {
    let elements: Vec<(usize, usize)> = words.iter().map(|w| span(src, w, 0)).collect();
    render(src.as_bytes(), &elements, Transform::Sort, inner(src))
}

#[test]
fn sorts_a_single_line_array() {
    assert_eq!(
        sorted("[:zebra, :apple, :mango]", &[":zebra", ":apple", ":mango"]).as_deref(),
        Some(":apple, :mango, :zebra")
    );
}

/// A leading comment on its own line and a trailing comment on the element's
/// line both travel with their element.
#[test]
fn comments_travel_with_their_element() {
    let src = "[\n  # about zebra\n  :zebra,\n  :apple, # about apple\n  :mango,\n]";
    let out = sorted(src, &[":zebra", ":apple", ":mango"]).expect("not ambiguous");
    let apple = out.find("about apple").expect("apple comment kept");
    let zebra = out.find("about zebra").expect("zebra comment kept");
    assert!(apple < zebra, "comments did not move with their elements:\n{out}");
}

#[test]
fn a_multi_line_sort_keeps_its_layout() {
    let src = "[\n  # about zebra\n  :zebra,\n  :apple, # about apple\n  :mango,\n]";
    let out = sorted(src, &[":zebra", ":apple", ":mango"]).unwrap();
    assert_eq!(
        out,
        "\n  :apple, # about apple\n  :mango,\n  # about zebra\n  :zebra,\n"
    );
}

/// A comment sharing a line with two elements has no unambiguous owner, so
/// reordering refuses rather than reattaching it to a neighbour.
#[test]
fn an_ambiguous_comment_refuses() {
    let src = "[\n  :zebra, :apple, # which one?\n  :mango,\n]";
    assert!(sorted(src, &[":zebra", ":apple", ":mango"]).is_none());
}

#[test]
fn elements_sharing_a_line_without_a_comment_are_not_ambiguous() {
    let src = "[:zebra, :apple]";
    let elements = vec![span(src, ":zebra", 0), span(src, ":apple", 0)];
    assert!(!has_ambiguous_comment(src.as_bytes(), &elements));
}

#[test]
fn uniq_and_reverse() {
    let src = "[:a, :b, :a]";
    let elements = vec![span(src, ":a", 0), span(src, ":b", 0), span(src, ":a", 1)];
    assert_eq!(
        render(src.as_bytes(), &elements, Transform::Uniq, inner(src)).as_deref(),
        Some(":a, :b")
    );
    assert_eq!(
        render(src.as_bytes(), &elements, Transform::Reverse, inner(src)).as_deref(),
        Some(":a, :b, :a")
    );
}

#[test]
fn reverse_turns_the_order_around() {
    let src = "[:a, :b, :c]";
    let elements = vec![span(src, ":a", 0), span(src, ":b", 0), span(src, ":c", 0)];
    assert_eq!(
        render(src.as_bytes(), &elements, Transform::Reverse, inner(src)).as_deref(),
        Some(":c, :b, :a")
    );
}

#[test]
fn a_sort_is_stable_among_equal_keys() {
    let src = "[\n  :b, # first\n  :a,\n  :b, # second\n]";
    let elements = vec![span(src, ":b", 0), span(src, ":a", 0), span(src, ":b", 1)];
    let out = render(src.as_bytes(), &elements, Transform::Sort, inner(src)).unwrap();
    assert_eq!(out, "\n  :a,\n  :b, # first\n  :b, # second\n");
}

#[test]
fn an_empty_sequence_renders_nothing() {
    assert_eq!(render(b"[]", &[], Transform::Sort, (1, 1)).as_deref(), Some(""));
}

/// Deleting a method takes the comment above it and one of the blank lines
/// around it.
#[test]
fn a_deleted_unit_takes_its_comment_and_one_blank_line() {
    let src = "class A\n  def a; end\n\n  # Says b.\n  def b; end\n\n  def c; end\nend\n";
    let node = span(src, "def b; end", 0);
    let (start, end) = unit_range(src.as_bytes(), node).expect("whole lines");
    let mut out = String::from(&src[..start]);
    out.push_str(&src[end..]);
    assert_eq!(out, "class A\n  def a; end\n\n  def c; end\nend\n");
}

/// Deleting part of a line would leave a hole that can still parse.
#[test]
fn a_node_sharing_its_line_is_no_unit() {
    let src = "x = a.display_name\ny = 2\n";
    let node = span(src, "a.display_name", 0);
    assert_eq!(unit_range(src.as_bytes(), node), None);
}

/// Sorting keeps every element and orders them; uniq keeps one per key.
#[test]
fn sorting_keeps_and_orders_every_element() {
    let src = "[:c, :a, :b, :a]";
    let elements = vec![span(src, ":c", 0), span(src, ":a", 0), span(src, ":b", 0), span(src, ":a", 1)];
    assert_eq!(
        render(src.as_bytes(), &elements, Transform::Sort, inner(src)).as_deref(),
        Some(":a, :a, :b, :c")
    );
    assert_eq!(
        render(src.as_bytes(), &elements, Transform::Uniq, inner(src)).as_deref(),
        Some(":c, :a, :b")
    );
}
