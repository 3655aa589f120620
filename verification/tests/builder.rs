use vendor_cleanup::builder::{
    base64_decode, detect_stale_entries, github_addition_for_travis_removal,
    parsed_excluded_paths_from_gitattributes, PathSet,
};
use vendor_cleanup::style::{apply_entries, apply_removals, Style};

#[test]
fn parses_excluded_paths_from_gitattributes() {
    let text = "\
*.php text eol=lf
/tests export-ignore
/.github/ export-ignore
.gitattributes export-ignore
/phpunit.xml.dist export-ignore
# comment
";
    let set = parsed_excluded_paths_from_gitattributes(text);
    assert!(set.contains("tests"));
    assert!(set.contains(".github"));
    assert!(set.contains(".gitattributes"));
    assert!(set.contains("phpunit.xml.dist"));
    assert!(!set.contains("comment"));
}

#[test]
fn base64_decodes_standard() {
    let bytes = base64_decode("aGVsbG8=").unwrap();
    assert_eq!(bytes, b"hello");
    let bytes = base64_decode("Zm9vYmFy").unwrap();
    assert_eq!(bytes, b"foobar");
    let bytes = base64_decode("aGVs\nbG8=").unwrap();
    assert_eq!(bytes, b"hello");
}

#[test]
fn detect_stale_entries_flags_missing_paths() {
    let mut excluded = PathSet::new();
    excluded.insert(".travis.yml".to_string());
    excluded.insert("tests".to_string());
    excluded.insert("phpunit.xml.dist".to_string());

    let stale = detect_stale_entries(&excluded, |p| p != ".travis.yml");
    assert_eq!(stale.len(), 1);
    assert_eq!(stale[0].line, "/.travis.yml export-ignore");
    assert!(
        stale[0].reason.contains("GitHub Actions"),
        "Travis removal reason should call out the migration, got: {}",
        stale[0].reason
    );
}

#[test]
fn detect_stale_entries_handles_travis_ci_yml_variant() {
    let mut excluded = PathSet::new();
    excluded.insert(".travis-ci.yml".to_string());
    let stale = detect_stale_entries(&excluded, |_| false);
    assert_eq!(stale.len(), 1);
    assert_eq!(stale[0].line, "/.travis-ci.yml export-ignore");
    assert!(stale[0].reason.contains("GitHub Actions"));
}

#[test]
fn detect_stale_entries_uses_generic_reason_for_non_travis() {
    let mut excluded = PathSet::new();
    excluded.insert("some-old-folder".to_string());
    let stale = detect_stale_entries(&excluded, |_| false);
    assert_eq!(stale.len(), 1);
    assert_eq!(stale[0].line, "/some-old-folder export-ignore");
    assert!(stale[0].reason.contains("no longer exists"));
    assert!(!stale[0].reason.contains("GitHub Actions"));
}

#[test]
fn detect_stale_entries_returns_empty_when_all_exist() {
    let mut excluded = PathSet::new();
    excluded.insert("tests".to_string());
    excluded.insert(".travis.yml".to_string());
    let stale = detect_stale_entries(&excluded, |_| true);
    assert!(stale.is_empty());
}

#[test]
fn travis_removal_triggers_github_when_github_exists() {
    let mut excluded = PathSet::new();
    excluded.insert(".travis.yml".to_string());
    let stale = detect_stale_entries(&excluded, |_| false);
    let res = github_addition_for_travis_removal(&stale, &excluded, |p| p == ".github");
    assert!(res.is_some());
    let (path, reason) = res.unwrap();
    assert_eq!(path, ".github/");
    assert!(reason.contains("Travis"));
}

#[test]
fn travis_removal_does_not_trigger_github_when_already_excluded() {
    let mut excluded = PathSet::new();
    excluded.insert(".travis.yml".to_string());
    excluded.insert(".github".to_string());
    let stale = detect_stale_entries(&excluded, |p| p == ".github");
    let res = github_addition_for_travis_removal(&stale, &excluded, |_| true);
    assert!(res.is_none());
}

#[test]
fn travis_removal_does_not_trigger_github_when_github_missing_upstream() {
    let mut excluded = PathSet::new();
    excluded.insert(".travis.yml".to_string());
    let stale = detect_stale_entries(&excluded, |_| false);
    let res = github_addition_for_travis_removal(&stale, &excluded, |p| p != ".github");
    assert!(res.is_none());
}

#[test]
fn no_github_addition_without_travis_removal() {
    let mut excluded = PathSet::new();
    excluded.insert("dead-folder".to_string());
    let stale = detect_stale_entries(&excluded, |_| false);
    let res = github_addition_for_travis_removal(&stale, &excluded, |_| true);
    assert!(res.is_none());
}

#[test]
fn travis_to_github_e2e() {
    let before = "\
*.php text eol=lf
/.travis.yml export-ignore
/phpunit.xml.dist export-ignore
/tests/ export-ignore
";
    let excluded = parsed_excluded_paths_from_gitattributes(before);
    assert!(excluded.contains(".travis.yml"));

    let upstream_has = |p: &str| matches!(p, "tests" | "phpunit.xml.dist" | ".github");
    let stale = detect_stale_entries(&excluded, upstream_has);
    assert_eq!(stale.len(), 1);
    assert_eq!(stale[0].line, "/.travis.yml export-ignore");

    let gh = github_addition_for_travis_removal(&stale, &excluded, upstream_has);
    let (gh_path, _) = gh.expect("should propose adding /.github/");
    assert_eq!(gh_path, ".github/");

    let after_remove = apply_removals(before, &["/.travis.yml"]);
    assert!(!after_remove.contains(".travis.yml"));

    let new_line = format!("/{gh_path} export-ignore");
    let style = Style::detect(&after_remove);
    let final_content = apply_entries(&after_remove, &[&new_line], style);

    assert!(!final_content.contains(".travis.yml"));
    assert!(final_content.contains("/.github/ export-ignore"));
    assert!(final_content.contains("/phpunit.xml.dist export-ignore"));
    assert!(final_content.contains("/tests/ export-ignore"));
    assert!(final_content.contains("*.php text eol=lf"));
}
