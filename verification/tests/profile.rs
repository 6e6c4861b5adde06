use rwr::profile::Profile;

#[test]
fn a_span_is_transparent_when_disabled() {
    let mut p = Profile::new(false);
    assert_eq!(p.span("noop", || 41 + 1), 42);
}

#[test]
fn a_disabled_profile_records_nothing() {
    let mut p = Profile::new(false);
    let v = p.span_noted("parse", || 7, |n| format!("{n} files"));
    assert_eq!(v, 7);
    p.mark("walk", rwr::profile::now(), || "noted".to_string());
    assert!(!p.enabled());
    assert!(p.phases().is_empty());
}

#[test]
fn an_enabled_profile_records_each_phase_in_order() {
    let mut p = Profile::new(true);
    assert_eq!(p.span("scan", || "x".len()), 1);
    let v = p.span_noted("match", || 3, |n| format!("{n} sites"));
    assert_eq!(v, 3);
    let names: Vec<&str> = p.phases().iter().map(|ph| ph.name).collect();
    assert_eq!(names, vec!["scan", "match"]);
    assert_eq!(p.phases()[0].note, None);
    assert_eq!(p.phases()[1].note.as_deref(), Some("3 sites"));
}
