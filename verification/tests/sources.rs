use vendor_cleanup::builder::{
    commit_summary_first, extract_github_slug, parse_composer_source, CommitInfo, ComposerSource,
};

fn composer(source: Option<&str>, homepage: Option<&str>, issues: Option<&str>) -> ComposerSource {
    ComposerSource {
        support_source: source.map(|s| s.to_string()),
        homepage: homepage.map(|s| s.to_string()),
        support_issues: issues.map(|s| s.to_string()),
    }
}

fn commit(sha: &str, date: &str, message: &str) -> CommitInfo {
    CommitInfo {
        sha: Some(sha.to_string()),
        date: Some(date.to_string()),
        message: Some(message.to_string()),
    }
}

#[test]
fn extracts_github_slug_from_https() {
    assert_eq!(
        extract_github_slug("https://github.com/foo/bar"),
        Some("foo/bar".into())
    );
    assert_eq!(
        extract_github_slug("https://github.com/foo/bar.git"),
        Some("foo/bar".into())
    );
    assert_eq!(
        extract_github_slug("https://github.com/foo/bar/issues"),
        Some("foo/bar".into())
    );
}

#[test]
fn extracts_github_slug_from_ssh() {
    assert_eq!(
        extract_github_slug("git@github.com:foo/bar.git"),
        Some("foo/bar".into())
    );
}

#[test]
fn no_slug_when_not_github() {
    assert_eq!(extract_github_slug("https://gitlab.com/foo/bar"), None);
    assert_eq!(extract_github_slug("https://example.com/foo"), None);
}

#[test]
fn slug_needs_a_repository_name() {
    assert_eq!(extract_github_slug("https://github.com/foo"), None);
    assert_eq!(extract_github_slug("https://github.com/foo/"), None);
    assert_eq!(
        extract_github_slug("see https://github.com/a.b/c-d_e.git for details"),
        Some("a.b/c-d_e".into())
    );
}

#[test]
fn composer_source_prefers_support_source() {
    let c = composer(
        Some("https://github.com/foo/bar"),
        Some("https://github.com/baz/qux"),
        None,
    );
    assert_eq!(parse_composer_source(&c), Some("foo/bar".into()));
}

#[test]
fn composer_source_falls_back_to_homepage() {
    let c = composer(None, Some("https://github.com/baz/qux"), None);
    assert_eq!(parse_composer_source(&c), Some("baz/qux".into()));
}

#[test]
fn composer_source_falls_back_to_support_issues() {
    let c = composer(None, None, Some("https://github.com/baz/qux/issues"));
    assert_eq!(parse_composer_source(&c), Some("baz/qux".into()));
}

#[test]
fn composer_source_none_when_no_github_url() {
    let c = composer(None, Some("https://example.com"), None);
    assert_eq!(parse_composer_source(&c), None);
}

#[test]
fn commit_summary_extracts_pr_number() {
    let v = vec![commit(
        "abcdef1234567",
        "2024-01-15T10:00:00Z",
        "Fix the thing (#1234)\n\nbody",
    )];
    assert_eq!(
        commit_summary_first(&v),
        Some("abcdef1 2024-01-15 (#1234)".into())
    );
}

#[test]
fn commit_summary_without_pr() {
    let v = vec![commit("abc1234", "2024-01-15T10:00:00Z", "Initial commit")];
    assert_eq!(commit_summary_first(&v), Some("abc1234 2024-01-15".into()));
}

#[test]
fn commit_summary_reads_only_the_subject_and_first_commit() {
    let v = vec![
        commit("1234567890", "2023-02-03T00:00:00Z", "Subject\n\nsee (#99)"),
        commit("fffffff", "2020-01-01T00:00:00Z", "Other (#1)"),
    ];
    assert_eq!(commit_summary_first(&v), Some("1234567 2023-02-03".into()));
    assert_eq!(commit_summary_first(&[]), None);
    let no_sha = vec![CommitInfo {
        sha: None,
        date: Some("2024-01-01".into()),
        message: None,
    }];
    assert_eq!(commit_summary_first(&no_sha), None);
    let short = vec![CommitInfo {
        sha: Some("ab".into()),
        date: Some("2024".into()),
        message: None,
    }];
    assert_eq!(commit_summary_first(&short), Some("ab 2024".into()));
}

#[test]
fn commit_summary_takes_unicode_digits_from_the_regex() {
    let v = vec![commit("abcdef1", "2024-01-15", "Fix (#\u{0663}\u{0664}) now")];
    assert_eq!(
        commit_summary_first(&v),
        Some("abcdef1 2024-01-15 (#\u{0663}\u{0664})".into())
    );
}
