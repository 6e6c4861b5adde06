use rwr::diff::{hunks, parse, spec, split_lines, Changed, Lines, Revision};

#[test]
fn a_named_revision_uses_merge_base_semantics() {
    assert_eq!(spec(Some("main"), false).unwrap(), Revision::Range("main...".to_string()));
    assert_eq!(spec(None, true).unwrap(), Revision::Range("HEAD".to_string()));
    assert_eq!(
        spec(Some("main..HEAD"), false).unwrap(),
        Revision::Range("main..HEAD".to_string())
    );
    assert!(spec(Some("a..b"), true).is_err());
    assert_eq!(spec(Some("main"), true).unwrap(), Revision::MergeBase("main".to_string()));
}

#[test]
fn a_line_suffix_is_split_off_the_path() {
    let at = |path, range| Some(Lines { path, range });
    assert_eq!(split_lines("x.rb:3").unwrap(), at("x.rb", (3, 3)));
    assert_eq!(split_lines("a/x.rb:3-15").unwrap(), at("a/x.rb", (3, 15)));
    assert_eq!(split_lines("x.rb").unwrap(), None);
    assert_eq!(split_lines("odd:name.rb").unwrap(), None);
    assert!(split_lines("x.rb:0").is_err());
    assert!(split_lines("x.rb:9-3").is_err());
}

#[test]
fn malformed_suffixes_say_why() {
    assert_eq!(split_lines("x.rb:0").unwrap_err(), "x.rb:0: line numbers start at 1");
    assert_eq!(split_lines("x.rb:9-3").unwrap_err(), "x.rb:9-3: line range ends before it starts");
    assert_eq!(split_lines("x.rb:3-").unwrap_err(), "x.rb:3-: line numbers start at 1");
    assert_eq!(split_lines("x.rb:3x").unwrap_err(), "x.rb:3x: line numbers start at 1");
    assert_eq!(split_lines("x.rb:3-+5").unwrap(), Some(Lines { path: "x.rb", range: (3, 5) }));
    assert_eq!(split_lines("a:b:7").unwrap(), Some(Lines { path: "a:b", range: (7, 7) }));
}

#[test]
fn named_lines_scope_the_files_they_name() {
    let file = "/repo/x.rb".to_string();
    let changed = Changed::from_lines(vec![(file.clone(), (3, 5))]);
    assert!(changed.touches(&file, 4, 4));
    assert!(!changed.touches(&file, 6, 6));
    assert!(!changed.covers("/repo/other.rb"));
    assert!(changed.covers(&file));
}

#[test]
fn ranges_for_one_file_are_gathered_under_it() {
    let changed = Changed::from_lines(vec![
        ("a.rb".to_string(), (1, 1)),
        ("b.rb".to_string(), (2, 2)),
        ("a.rb".to_string(), (9, 10)),
    ]);
    assert_eq!(changed.files(), 2);
    assert!(changed.touches("a.rb", 10, 12));
    assert!(changed.touches("a.rb", 0, 1));
    assert!(!changed.touches("a.rb", 2, 8));
    assert!(changed.touches("b.rb", 1, 3));
}

#[test]
fn overlap_counts_not_containment() {
    let diff = "+++ b/x.rb\n@@ -1 +5 @@\n+x\n";
    let changed = parse(diff, "/repo");
    assert!(changed.touches("/repo/x.rb", 3, 7), "spans the changed line");
    assert!(!changed.touches("/repo/x.rb", 6, 9), "sits entirely below it");
}

#[test]
fn hunk_headers_become_line_ranges() {
    let diff = "diff --git a/app/x.rb b/app/x.rb\n\
                --- a/app/x.rb\n\
                +++ b/app/x.rb\n\
                @@ -3,0 +4,2 @@ class X\n\
                +  a\n\
                +  b\n\
                @@ -10 +12 @@\n\
                +  c\n";
    let root = "/repo";
    assert!(hunks(diff, root).is_some());
    let changed = parse(diff, root);
    let file = std::path::Path::new(root).join("app/x.rb");
    let file = file.to_string_lossy();

    assert!(changed.touches(&file, 4, 4));
    assert!(changed.touches(&file, 5, 5));
    assert!(!changed.touches(&file, 6, 6));
    // A bare `+12` with no count is one line.
    assert!(changed.touches(&file, 12, 12));
    assert!(!changed.touches(&file, 13, 13));
}

#[test]
fn a_deletion_contributes_nothing() {
    let diff = "+++ /dev/null\n@@ -1,5 +0,0 @@\n-x\n";
    assert_eq!(parse(diff, "/repo").files(), 0);
}

#[test]
fn a_hunk_that_adds_nothing_is_skipped_and_crlf_lines_are_read() {
    let diff = "+++ b/x.rb\r\n@@ -1,2 +3,0 @@\r\n@@ -1 +7,3 @@\r\n";
    let found = hunks(diff, "/repo").expect("fits");
    assert_eq!(found, vec![("/repo/x.rb".to_string(), (7, 3))]);
    let changed = parse(diff, "/repo");
    assert!(changed.touches("/repo/x.rb", 9, 9));
    assert!(!changed.touches("/repo/x.rb", 3, 3));
}

#[test]
fn a_hunk_past_the_last_line_number_is_refused() {
    let diff = "+++ b/x.rb\n@@ -1 +4294967295,2 @@\n";
    assert!(hunks(diff, "/repo").is_none());
}

/// An empty suffix is malformed, not a filename: read as a path it would
/// turn a scoped run into an unscoped one.
#[test]
fn an_empty_line_suffix_is_an_error() {
    assert!(rwr::diff::split_lines("foo.rb:").is_err());
}
