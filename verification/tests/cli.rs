use rwr::cli::{apply_exit, judge, output_for, Exit, FixtureScan, Output};

/// Agents branch on the exit code before parsing any output, so these
/// numbers are as much a public contract as the JSON field names.
#[test]
fn exit_codes_are_stable() {
    assert_eq!(Exit::Success.code(), 0);
    assert_eq!(Exit::Negative.code(), 1);
    assert_eq!(Exit::Error.code(), 2);
    assert_eq!(Exit::PatternError.code(), 3);
    assert_eq!(Exit::Retryable.code(), 4);
    assert_eq!(Exit::Refused.code(), 5);
}

/// `2` is near-universally "something went wrong".
#[test]
fn two_means_error() {
    assert_eq!(Exit::Error.code(), 2);
}

/// Retryable and Refused must stay distinguishable.
#[test]
fn retryable_is_distinct_from_refused() {
    assert_ne!(Exit::Retryable.code(), Exit::Refused.code());
}

#[test]
fn ndjson_wins_over_json() {
    assert_eq!(output_for(true, true), Output::Ndjson);
}

#[test]
fn each_flag_picks_its_format() {
    assert_eq!(output_for(true, false), Output::Json);
    assert_eq!(output_for(false, true), Output::Ndjson);
    assert_eq!(output_for(false, false), Output::Text);
}

#[test]
fn every_outcome_has_its_own_status() {
    let all = [Exit::Success, Exit::Negative, Exit::Error, Exit::PatternError, Exit::Retryable, Exit::Refused];
    for (i, a) in all.iter().enumerate() {
        for (j, b) in all.iter().enumerate() {
            assert_eq!(a.code() == b.code(), i == j);
        }
    }
}

use rwr::cli::{classify, diff_lines, explain_kind, restrict, scope_start, template};
use rwr::diff::Lines;

#[test]
fn a_line_diff_names_missing_and_extra_lines() {
    assert_eq!(
        diff_lines("a\nb\n", "a\nc"),
        vec![
            "--- expected".to_string(),
            "+++ actual".to_string(),
            "-b".to_string(),
            "+c".to_string(),
            "(expected a trailing newline, actual has none)".to_string(),
        ]
    );
    assert_eq!(diff_lines("x\r\ny\n", "x\ny\n"), vec!["--- expected".to_string(), "+++ actual".to_string()]);
}

#[test]
fn failure_kinds_are_explained() {
    assert_eq!(explain_kind("refused"), "the rule refused to edit this snippet");
    assert_eq!(explain_kind("whatever"), "asserts nothing");
}

#[test]
fn delete_is_the_empty_template() {
    assert_eq!(template(Some("x"), true), Some(""));
    assert_eq!(template(Some("x"), false), Some("x"));
    assert_eq!(template(None, false), None);
}

#[test]
fn a_run_starts_at_its_first_path() {
    assert_eq!(scope_start(&vec!["app".to_string()], &vec!["lib".to_string()]), "app");
    assert_eq!(scope_start(&vec![], &vec!["lib".to_string()]), "lib");
    assert_eq!(scope_start(&vec![], &vec![]), ".");
}

#[test]
fn a_missing_path_is_an_error() {
    let split = Some(Lines { path: "a.rb", range: (3, 3) });
    assert_eq!(classify("a.rb:3", split, true, false, false), Ok(Some(Lines { path: "a.rb", range: (3, 3) })));
    assert_eq!(
        classify("a.rb:3", Some(Lines { path: "a.rb", range: (3, 3) }), false, false, false),
        Err("no such path: a.rb (nor a.rb:3)".to_string())
    );
    assert_eq!(classify("main", None, false, false, true), Err("no such path: main -- for a revision, --since main".to_string()));
    assert_eq!(classify("gone", None, false, false, false), Err("no such path: gone".to_string()));
    assert_eq!(classify("app", None, false, true, false), Ok(None));
}

#[test]
fn lines_and_whole_paths_do_not_mix() {
    let walk = vec!["a.rb".to_string(), "app".to_string()];
    match restrict(walk.clone(), vec![("/r/a.rb".to_string(), (3, 3))], Some("app"), false) {
        Err(e) => assert_eq!(e, "app names no lines, but another path does -- give every path a `:N` range, or none"),
        Ok(_) => panic!("mixing must be refused"),
    }
    match restrict(walk.clone(), vec![], Some("app"), true) {
        Ok((w, c)) => {
            assert_eq!(w, walk);
            assert!(c.is_none());
        }
        Err(e) => panic!("{e}"),
    }
    assert!(restrict(vec!["a.rb".to_string()], vec![("/r/a.rb".to_string(), (3, 3))], None, true).is_err());
    assert!(matches!(restrict(vec!["a.rb".to_string()], vec![("/r/a.rb".to_string(), (3, 3))], None, false), Ok((_, Some(_)))));
}

#[test]
fn the_apply_verbs_end_as_their_outcome_says() {
    assert_eq!(apply_exit(true, 3, true, 1, 0), Exit::Refused);
    assert_eq!(apply_exit(false, 3, true, 1, 0), Exit::Retryable);
    assert_eq!(apply_exit(false, 3, false, 1, 0), Exit::Negative);
    assert_eq!(apply_exit(false, 0, true, 2, 0), Exit::Success);
    assert_eq!(apply_exit(false, 0, false, 0, 0), Exit::Success);
    assert_eq!(apply_exit(false, 0, false, 0, 1), Exit::Negative);
    assert_eq!(rwr::cli::find_exit(0), Exit::Negative);
    assert_eq!(rwr::cli::find_exit(2), Exit::Success);
    assert_eq!(rwr::cli::test_exit(1), Exit::Negative);
    assert_eq!(rwr::cli::test_exit(0), Exit::Success);
}

fn fixture(input: &str, output: Option<&str>, unchanged: Option<bool>, finds: Option<usize>) -> rwr::rule::Case {
    rwr::rule::Case {
        input: input.to_string(),
        output: output.map(str::to_string),
        unchanged,
        finds,
        residue: None,
    }
}

#[test]
fn a_fixture_is_judged_by_its_first_assertion() {
    let rewrite = fixture("a.foo", Some("a.bar"), None, None);
    let done = FixtureScan::Scanned { rewritten: Some("a.bar".to_string()), findings: 0, residue: 0 };
    let j = judge(&rewrite, &done);
    assert!(j.passed);
    assert_eq!(j.kind, "rewrote");
    let wrong = FixtureScan::Scanned { rewritten: Some("a.baz".to_string()), findings: 0, residue: 0 };
    let j = judge(&rewrite, &wrong);
    assert!(!j.passed);
    assert_eq!(j.kind, "output_mismatch");
    assert_eq!(j.expected.as_deref(), Some("a.bar"));
    assert_eq!(j.actual.as_deref(), Some("a.baz"));

    let same = fixture("x", None, Some(true), None);
    assert_eq!(judge(&same, &FixtureScan::Quiet).kind, "unchanged");
    let moved = judge(&same, &FixtureScan::Scanned { rewritten: Some("y".to_string()), findings: 0, residue: 0 });
    assert_eq!((moved.passed, moved.kind), (false, "unexpected_rewrite"));

    let finds = fixture("a.foo; b.foo", None, None, Some(2));
    assert!(judge(&finds, &FixtureScan::Scanned { rewritten: None, findings: 2, residue: 0 }).passed);
    let off = judge(&finds, &FixtureScan::Scanned { rewritten: None, findings: 1, residue: 0 });
    assert_eq!(off.kind, "wrong_finds");
    assert_eq!((off.expected.as_deref(), off.actual.as_deref()), (Some("2"), Some("1")));

    assert_eq!(judge(&finds, &FixtureScan::Unparseable).kind, "invalid_ruby");
    let refused = judge(&finds, &FixtureScan::Refused("overlap".to_string()));
    assert_eq!((refused.kind, refused.actual.as_deref()), ("refused", Some("overlap")));
    assert_eq!(judge(&fixture("x", None, None, None), &FixtureScan::Quiet).kind, "asserts_nothing");
}

#[test]
fn a_residue_count_is_compared_with_what_was_left_over() {
    let mut only = fixture("x.foo", None, None, None);
    only.residue = Some(2);
    let scanned = |residue: usize| FixtureScan::Scanned { rewritten: None, findings: 0, residue };
    let j = judge(&only, &scanned(2));
    assert_eq!((j.passed, j.kind), (true, "residue"));
    let j = judge(&only, &scanned(1));
    assert_eq!((j.passed, j.kind), (false, "wrong_residue"));
    assert_eq!((j.expected.as_deref(), j.actual.as_deref()), (Some("2"), Some("1")));

    let mut both = fixture("x.foo", Some("x.bar"), None, None);
    both.residue = Some(0);
    let done = |residue: usize| FixtureScan::Scanned { rewritten: Some("x.bar".to_string()), findings: 0, residue };
    assert_eq!(judge(&both, &done(0)).kind, "rewrote");
    assert_eq!(judge(&both, &done(3)).kind, "wrong_residue");
    assert_eq!(rwr::cli::explain_kind("wrong_residue"), "wrong number of occurrences left unaccounted for");
}
