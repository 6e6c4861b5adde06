use rwr::source::{
    identifier_offsets, is_excluded, is_ruby, is_template, line_at, line_col, prune_contained,
    span_text,
};

#[test]
fn ruby_is_more_than_the_rb_extension() {
    for name in [
        "a.rb",
        "lib/tasks/db.rake",
        "config.ru",
        "thing.gemspec",
        "Rakefile",
        "Gemfile",
        "Vagrantfile",
        "views/show.jbuilder",
    ] {
        assert!(is_ruby(name), "{name}");
    }
    for name in ["a.py", "README.md", "schema.sql", "app/views/show.html.erb"] {
        assert!(!is_ruby(name), "{name}");
    }
}

#[test]
fn templates_are_recognised_but_not_claimed_as_ruby() {
    for name in ["show.html.erb", "index.haml", "form.slim"] {
        assert!(is_template(name), "{name}");
        assert!(!is_ruby(name), "{name}");
    }
    assert!(!is_template("show.json.jbuilder"));
}

#[test]
fn line_and_column_are_one_based() {
    let src = b"a\nbb\nccc";
    assert_eq!(line_col(src, 0), (1, 1));
    assert_eq!(line_col(src, 2), (2, 1));
    assert_eq!(line_col(src, 3), (2, 2));
    assert_eq!(line_col(src, 5), (3, 1));
}

#[test]
fn the_column_counts_characters_not_bytes() {
    let two_byte = "x = \"caf\u{e9}\"; Foo".as_bytes();
    assert_eq!(line_col(two_byte, two_byte.len() - 3), (1, 13));
    let four_byte = "x = \"\u{1f389}\"; Foo".as_bytes();
    assert_eq!(line_col(four_byte, four_byte.len() - 3), (1, 10));
}

#[test]
fn a_multi_byte_character_on_an_earlier_line_does_not_leak() {
    let src = "\u{e9}\u{e9}\u{e9}\nab".as_bytes();
    assert_eq!(line_col(src, src.len() - 1), (2, 2));
}

#[test]
fn an_offset_past_the_end_is_the_end() {
    let src = b"ab\ncd";
    assert_eq!(line_col(src, 99), (2, 3));
    assert_eq!(line_at(src, 99), "cd");
}

#[test]
fn line_at_returns_the_containing_line() {
    let src = b"first\nsecond\nthird\n";
    assert_eq!(line_at(src, 0), "first");
    assert_eq!(line_at(src, 7), "second");
}

#[test]
fn span_text_of_a_single_line_site_is_its_whole_line() {
    let src = b"  total = xs.size\n";
    let (start, end) = (10, 17);
    assert_eq!(span_text(src, start, end), "  total = xs.size");
    assert_eq!(span_text(src, start, end), line_at(src, start));
}

#[test]
fn span_text_joins_a_leading_dot_chain() {
    let src = b"def go\n  orders\n    .each { |o| puts o.customer.name }\nend\n";
    let start = 9;
    let end = src.len() - 5;
    assert_eq!(line_at(src, start), "  orders");
    assert_eq!(
        span_text(src, start, end),
        "orders.each { |o| puts o.customer.name }"
    );
}

#[test]
fn span_text_joins_without_inventing_spaces() {
    let src = b"foo(\n  a,\n  b\n) do |x|\n  x\nend\n";
    assert_eq!(span_text(src, 0, src.len() - 1), "foo(a, b) do |x| x end");
}

#[test]
fn span_text_cuts_a_long_block() {
    let body = "  puts :x\n".repeat(40);
    let src = format!("xs.each do |x|\n{body}end\n");
    let out = span_text(src.as_bytes(), 0, src.len() - 1);
    assert!(!out.contains('\n'), "{out}");
    assert!(out.ends_with('\u{2026}'), "{out}");
    assert_eq!(out.chars().count(), 121);
}

#[test]
fn vendored_paths_are_excluded_by_default() {
    let root = ".";
    assert!(is_excluded("./vendor/gems/foo.rb", root));
    assert!(is_excluded("./tmp/cache/x.rb", root));
    assert!(is_excluded("./db/schema.rb", root));
    assert!(!is_excluded("./app/models/account.rb", root));
}

#[test]
fn exclusions_match_components_relative_to_the_root() {
    let root = "/var/folders/xyz/T/rwr-fixture";
    let file = "/var/folders/xyz/T/rwr-fixture/thing.rb";
    assert!(!is_excluded(file, root));
    assert!(!is_excluded("./app/tmpfile.rb", "."));
}

#[test]
fn identifiers_are_found_whole() {
    let src = b"display_name; display_names; x.display_name(1); _display_name";
    assert_eq!(identifier_offsets(src, b"display_name"), vec![0, 31]);
    assert_eq!(identifier_offsets(b"aaaa", b"aa"), Vec::<usize>::new());
    assert_eq!(identifier_offsets(b"a a", b"a"), vec![0, 2]);
}

fn strings(v: &[&str]) -> Vec<String> {
    v.iter().map(|s| s.to_string()).collect()
}

#[test]
fn a_name_prefix_is_not_containment() {
    let roots = strings(&["/r/app/models", "/r/app/modelsx"]);
    assert_eq!(prune_contained(&roots, &roots), roots);
}

#[test]
fn only_a_contained_root_is_dropped() {
    let app_lib = strings(&["/r/app", "/r/lib"]);
    assert_eq!(prune_contained(&app_lib, &app_lib), app_lib);
    let nested = strings(&["/r/app", "/r/app/models"]);
    assert_eq!(prune_contained(&nested, &nested), strings(&["/r/app"]));
    let reversed = strings(&["/r/app/models", "/r/app"]);
    assert_eq!(prune_contained(&reversed, &reversed), strings(&["/r/app"]));
}

#[test]
fn the_same_place_spelled_two_ways_is_one_root() {
    let written = strings(&["/r/app", "/r/./app"]);
    let resolved = strings(&["/r/app", "/r/app"]);
    assert_eq!(prune_contained(&written, &resolved), strings(&["/r/app"]));
}

#[test]
fn a_repeated_root_survives_once() {
    let roots = strings(&["/r/app", "/r/app", "/r/app"]);
    assert_eq!(prune_contained(&roots, &roots), strings(&["/r/app"]));
}

#[test]
fn pruning_keeps_the_roots_in_the_order_given() {
    let roots = strings(&["/r/lib", "/r/app/models", "/r/app", "/r/bin"]);
    assert_eq!(prune_contained(&roots, &roots), strings(&["/r/lib", "/r/app", "/r/bin"]));
}
