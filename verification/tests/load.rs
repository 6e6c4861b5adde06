use rwr::load::{builtin, families, load_pack};
use rwr::rule::RuleError;

fn pack() -> Vec<(String, String)> {
    [("performance/detect", "a"), ("style/quotes", "b"), ("performance/each", "c"), ("lone", "d")]
        .iter()
        .map(|(i, y)| (i.to_string(), y.to_string()))
        .collect()
}

#[test]
fn families_list_all_then_each_family_once_then_every_id() {
    let got = families(&pack());
    assert_eq!(
        got,
        vec!["all", "performance", "style", "performance/detect", "style/quotes", "performance/each", "lone"]
    );
}

#[test]
fn a_family_name_selects_its_ids_in_pack_order() {
    let got = builtin(&pack(), "performance").expect("a family");
    let ids: Vec<&str> = got.iter().map(|(i, _)| i.as_str()).collect();
    assert_eq!(ids, vec!["performance/detect", "performance/each"]);
    let all = builtin(&pack(), "all").expect("everything");
    assert_eq!(all.len(), 4);
    let one = builtin(&pack(), "lone").expect("an id");
    assert_eq!(one, vec![("lone".to_string(), "d".to_string())]);
}

#[test]
fn a_name_that_selects_nothing_lists_what_could_be_asked_for() {
    match builtin(&pack(), "perf") {
        Err(RuleError::NoSuchRule { name, known }) => {
            assert_eq!(name, "perf");
            assert_eq!(known[0], "all");
            assert!(known.contains(&"performance".to_string()));
        }
        other => panic!("expected NoSuchRule, got {other:?}"),
    }
}

#[test]
fn a_pack_lists_every_file_once_in_path_order_with_its_id() {
    let files = vec!["pack/b.yml".to_string(), "pack/a/x.yaml".to_string(), "pack/a.yml".to_string()];
    let got = load_pack("pack", &files).expect("a pack");
    let expected: Vec<(String, String)> = vec![
        ("pack/a/x.yaml".to_string(), "a/x".to_string()),
        ("pack/a.yml".to_string(), "a".to_string()),
        ("pack/b.yml".to_string(), "b".to_string()),
    ];
    assert_eq!(got, expected);
    assert!(matches!(load_pack("pack", &Vec::new()), Err(RuleError::EmptyPack { path }) if path == "pack"));
}
