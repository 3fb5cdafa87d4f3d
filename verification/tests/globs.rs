use rask::error::ErrorKind;
use rask::glob::PathMatcher;

fn matches(pattern: &str, path: &str) -> bool {
    match PathMatcher::compile(pattern) {
        Ok(matcher) => matcher.is_match(path),
        Err(error) => panic!("{}", error.message()),
    }
}

#[test]
fn literal_pattern_matches_exactly_its_path() {
    assert!(matches("/repo/rask.yaml", "/repo/rask.yaml"));
    assert!(!matches("/repo/rask.yaml", "/repo/other/rask.yaml"));
    assert!(!matches("/repo/rask.yaml", "/repo/rask.yam"));
}

#[test]
fn star_matches_directory_names() {
    let matcher = PathMatcher::compile("/repo/packages/*/rask.yaml").unwrap();
    assert!(matcher.is_match("/repo/packages/app/rask.yaml"));
    assert!(matcher.is_match("/repo/packages/lib/rask.yaml"));
    assert!(!matcher.is_match("/repo/rask.yaml"));
    assert!(!matcher.is_match("/repo/packages/rask.yaml"));
    assert!(!matcher.is_match("/repo/other/app/rask.yaml"));
}

#[test]
fn star_stays_within_one_directory_name() {
    assert!(!matches("/repo/packages/*/rask.yaml", "/repo/packages/app/nested/rask.yaml"));
    assert!(!matches("/repo/*", "/repo/a/b"));
    assert!(matches("/repo/*/*/rask.yaml", "/repo/packages/app/rask.yaml"));
    assert!(!matches("/repo/pkg?/rask.yaml", "/repo/pkg//rask.yaml"));
}

#[test]
fn double_star_matches_no_directory_too() {
    assert!(matches("/repo/**/rask.yaml", "/repo/rask.yaml"));
    assert!(matches("/repo/**/rask.yaml", "/repo/a/b/rask.yaml"));
}

#[test]
fn alternatives_and_classes() {
    assert!(matches("/repo/{api,web}/rask.yaml", "/repo/api/rask.yaml"));
    assert!(matches("/repo/{api,web}/rask.yaml", "/repo/web/rask.yaml"));
    assert!(!matches("/repo/{api,web}/rask.yaml", "/repo/cli/rask.yaml"));
    assert!(matches("/repo/pkg[12]/rask.yaml", "/repo/pkg2/rask.yaml"));
    assert!(!matches("/repo/pkg[12]/rask.yaml", "/repo/pkg3/rask.yaml"));
}

#[test]
fn unclosed_class_is_not_a_pattern() {
    let error = match PathMatcher::compile("/repo/[/rask.yaml") {
        Ok(_) => panic!("accepted"),
        Err(error) => error,
    };
    assert_eq!(error.kind, ErrorKind::GlobPattern);
    assert_eq!(error.subject, "/repo/[/rask.yaml");
    assert!(!error.detail.is_empty());
    assert_eq!(error.message(), format!("Failed to create glob pattern: {}", error.detail));
    assert!(error.detail.starts_with("Error {"));
    assert!(error.detail.contains("/repo/[/rask.yaml"));
}

#[test]
fn unclosed_alternatives_are_not_a_pattern() {
    assert!(PathMatcher::compile("/repo/{a,b/rask.yaml").is_err());
    assert!(PathMatcher::compile("/repo/a}/rask.yaml").is_err());
}

#[test]
fn a_copy_of_an_error_is_the_error() {
    let error = PathMatcher::compile("[").unwrap_err();
    assert_eq!(error.clone(), error);
}
