use rwr::prefilter::{required, Filter};

#[test]
fn placeholders_are_not_required_text() {
    assert_eq!(required("$R.autoload_paths"), vec!["autoload_paths"]);
    assert_eq!(required("foo($A, $B)"), vec!["foo"]);
}

#[test]
fn keywords_count_as_required_text() {
    assert_eq!(required("return nil"), vec!["return", "nil"]);
}

#[test]
fn predicate_and_bang_suffixes_are_kept() {
    assert_eq!(required("$R.active?"), vec!["active?"]);
    assert_eq!(required("$R.save!"), vec!["save!"]);
}

#[test]
fn a_pattern_without_literals_filters_nothing() {
    assert!(required("$A.$B").is_empty());
    assert!(Filter::new(&[], &[]).may_contribute(b"anything at all"));
}

#[test]
fn a_file_missing_a_required_literal_is_skipped() {
    let filter = Filter::new(&required("return nil"), &[]);
    assert!(filter.may_contribute(b"def a; return nil; end"));
    assert!(!filter.may_contribute(b"def a; 1; end"));
}

#[test]
fn a_subsuming_residue_literal_never_decides() {
    let of = |residue: &[Vec<u8>]| Filter::new(&required("$R.display_name"), residue);
    let full = of(&[b"send".to_vec(), b"public_send".to_vec(), b"try".to_vec()]);
    let trimmed = of(&[b"send".to_vec(), b"try".to_vec()]);
    for source in [
        &b"public_send(:x)"[..],
        b"__send__(:x)",
        b"foo.try(:x)",
        b"display_name",
        b"nothing here",
    ] {
        assert_eq!(
            full.may_contribute(source),
            trimmed.may_contribute(source),
            "{}",
            String::from_utf8_lossy(source)
        );
    }
}

#[test]
fn an_anchor_alone_keeps_a_file() {
    let filter = Filter::new(&required("$R.display_name"), &[b"display_name".to_vec()]);
    assert!(filter.may_contribute(b"class A; attr_reader :display_name; end"));
}

#[test]
fn repeated_words_are_required_once() {
    assert_eq!(required("foo(foo, bar)"), vec!["foo", "bar"]);
}

#[test]
fn substitution_does_not_change_the_required_literals() {
    for pattern in [
        "$R.display_name",
        "foo($A, $B)",
        "$R.select { |$P| $B }.first",
        "def display_name($A); $B; end",
        "$R.active?",
        "Foo::$C.bar(*$A)",
        "attr_reader :display_name",
    ] {
        let prepared = rwr::prepare::prepare(pattern).expect("prepares");
        let (mut from_text, mut from_prepared) =
            (rwr::prefilter::required(pattern), rwr::prefilter::required_of(&prepared));
        from_text.sort();
        from_prepared.sort();
        assert_eq!(from_text, from_prepared, "{pattern}");
    }
}
