use rwr::metavar::{scan, Arity};

fn found(p: &str) -> Vec<(Option<String>, Arity)> {
    scan(p).into_iter().map(|m| (m.name, m.arity)).collect()
}

#[test]
fn covers_all_four_forms() {
    assert_eq!(
        found("foo($A, *$REST, _, *_)"),
        vec![
            (Some("A".into()), Arity::One),
            (Some("REST".into()), Arity::Many),
            (None, Arity::One),
            (None, Arity::Many),
        ]
    );
}

#[test]
fn lowercase_globals_are_literals() {
    assert_eq!(found("$stdout.puts($1)"), vec![]);
    assert_eq!(found("$_.strip"), vec![]);
}

#[test]
fn escaped_dollar_is_a_literal_global() {
    assert_eq!(
        found("\\$LOAD_PATH.unshift($A)"),
        vec![(Some("A".into()), Arity::One)]
    );
    assert_eq!(
        found("$LOAD_PATH"),
        vec![(Some("LOAD_PATH".into()), Arity::One)]
    );
}

#[test]
fn underscore_wildcard_requires_word_boundaries() {
    assert_eq!(found("foo(_)"), vec![(None, Arity::One)]);
    assert_eq!(found("foo(_unused)"), vec![]);
    assert_eq!(found("foo(bar_baz)"), vec![]);
}

#[test]
fn bare_asterisk_is_not_a_metavariable() {
    assert_eq!(found("a * $B"), vec![(Some("B".into()), Arity::One)]);
    assert_eq!(found("foo(*args)"), vec![]);
}

#[test]
fn repeated_name_reports_each_occurrence() {
    assert_eq!(scan("$A.foo($A)").len(), 2);
}

#[test]
fn ranges_cover_the_whole_token() {
    let m = &scan("foo(*$REST)")[0];
    assert_eq!(&"foo(*$REST)"[m.start..m.end], "*$REST");
}

#[test]
fn a_name_stops_at_the_first_lowercase_byte() {
    let m = &scan("$ABc")[0];
    assert_eq!(m.name.as_deref(), Some("AB"));
    assert_eq!((m.start, m.end), (0, 3));
}
