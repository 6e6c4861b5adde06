use rwr::ruby::{floor_of, Version};

#[test]
fn a_lower_bound_is_the_floor() {
    // discourse
    assert_eq!(floor_of("\"~> 3.4\""), Some(Version { major: 3, minor: 4 }));
    // mastodon -- the upper bound must not become the floor
    assert_eq!(
        floor_of("'>= 3.3.0', '< 4.1.0'"),
        Some(Version { major: 3, minor: 3 })
    );
    // rails
    assert_eq!(floor_of("\">= 3.1.0\""), Some(Version { major: 3, minor: 1 }));
}

#[test]
fn a_plain_version_parses() {
    assert_eq!(Version::first_in("3.2.2\n"), Some(Version { major: 3, minor: 2 }));
    assert_eq!(Version::first_in("ruby-3.0.6"), Some(Version { major: 3, minor: 0 }));
}

#[test]
fn comparison_ignores_the_patch_level() {
    let target = Version::first_in("3.1.4").expect("parses");
    let floor = Version::parse("3.1").expect("parses");
    assert!(target >= floor);
    assert!(target < Version::parse("3.2").expect("parses"));
    assert!(floor.no_later_than(&target));
    assert!(target.no_later_than(&floor));
}

#[test]
fn the_lowest_of_several_lower_bounds_wins() {
    assert_eq!(floor_of(">= 3.2, >= 2.7"), Some(Version { major: 2, minor: 7 }));
    assert_eq!(floor_of("!= 3.0.1, > 3.0"), Some(Version { major: 3, minor: 0 }));
}

#[test]
fn no_version_and_only_upper_bounds_give_nothing() {
    assert_eq!(Version::first_in("no digits here"), None);
    assert_eq!(floor_of("< 4.0"), None);
    assert_eq!(floor_of(""), None);
}

#[test]
fn a_missing_or_oversized_minor_reads_as_zero() {
    assert_eq!(Version::first_in("v4"), Some(Version { major: 4, minor: 0 }));
    assert_eq!(Version::first_in("4."), Some(Version { major: 4, minor: 0 }));
    assert_eq!(Version::first_in("4.99999999999"), Some(Version { major: 4, minor: 0 }));
    assert_eq!(Version::first_in("99999999999.1"), None);
}

#[test]
fn a_version_is_written_as_major_dot_minor() {
    assert_eq!(Version { major: 3, minor: 10 }.text(), "3.10");
}

#[test]
fn the_version_file_wins_over_the_gemfile() {
    let found = rwr::ruby::in_dir(Some("3.2.2\n"), Some("ruby '3.1'\n"), &Vec::new()).expect("detected");
    assert_eq!((found.version.major, found.version.minor), (3, 2));
    assert_eq!(found.source, ".ruby-version");
}

#[test]
fn a_gemfile_ruby_line_declares_the_floor() {
    let gemfile = "source 'https://rubygems.org'\r\n  ruby \"~> 3.1.4\"\r\ngem 'rails'\n";
    let found = rwr::ruby::in_dir(None, Some(gemfile), &Vec::new()).expect("detected");
    assert_eq!((found.version.major, found.version.minor), (3, 1));
    assert_eq!(found.source, "Gemfile");
}

#[test]
fn a_gemspec_requirement_is_read_after_its_equals_sign() {
    let entries = vec![
        ("dir/README.md".to_string(), Some("required_ruby_version = '>= 9.9'".to_string())),
        ("dir/unreadable.gemspec".to_string(), None),
        (
            "dir/rails.gemspec".to_string(),
            Some("Gem::Specification.new do |s|\n  s.required_ruby_version = \">= 3.2.0\"\nend\n".to_string()),
        ),
    ];
    let found = rwr::ruby::in_dir(None, Some("gem 'rails'\n"), &entries).expect("detected");
    assert_eq!((found.version.major, found.version.minor), (3, 2));
    assert_eq!(found.source, "rails.gemspec");
    assert!(rwr::ruby::in_dir(None, None, &Vec::new()).is_none());
}
