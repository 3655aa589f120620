use vendor_cleanup::builder::{
    build_defaults, candidate_entry, default_candidates, excluded_from_contents, finish_target,
    is_skipped_vendor_dir, plan_build, repo_slug, unexcluded_candidates, BuildArgs, BuildError,
    PathSet, DEFAULT_DEV_CANDIDATES,
};
use vendor_cleanup::config::{Entry, RemoveEntry};

fn set(paths: &[&str]) -> PathSet {
    let mut s = PathSet::new();
    for p in paths {
        s.insert(p.to_string());
    }
    s
}

#[test]
fn default_candidates_keep_their_order() {
    let c = default_candidates();
    assert_eq!(c.len(), DEFAULT_DEV_CANDIDATES.len());
    assert_eq!(c[0], "tests");
    assert_eq!(c[8], ".github");
    assert_eq!(c.last().unwrap(), "splitsh.json");
}

#[test]
fn candidates_already_excluded_are_dropped() {
    let cands = vec!["/tests/".to_string(), "docs".to_string(), ".github/".to_string()];
    let excluded = set(&["tests", "examples"]);
    assert_eq!(unexcluded_candidates(&cands, &excluded), vec!["docs", ".github"]);
}

#[test]
fn candidate_entries_mark_directories() {
    let d = candidate_entry("tests", true, Some("abc1234 2024-01-01 (#5)".into()));
    assert_eq!(d.line, "/tests/ export-ignore");
    assert_eq!(d.reference, "abc1234 2024-01-01 (#5)");
    let f = candidate_entry("phpunit.xml.dist", false, None);
    assert_eq!(f.line, "/phpunit.xml.dist export-ignore");
    assert_eq!(f.reference, "unknown");
}

#[test]
fn new_gitattributes_gets_housekeeping_entries() {
    let found = vec![Entry {
        line: "/examples/ export-ignore".into(),
        reference: "r1".into(),
    }];
    let stale = vec![RemoveEntry {
        line: "/x export-ignore".into(),
        reason: "ignored when creating".into(),
    }];
    let t = finish_target(
        "foo/bar".into(),
        "main".into(),
        true,
        None,
        found,
        stale,
        Some((".github/", "why")),
    )
    .unwrap();
    let lines: Vec<&str> = t.entries.iter().map(|e| e.line.as_str()).collect();
    assert_eq!(
        lines,
        vec![
            "/examples/ export-ignore",
            "/.gitattributes export-ignore",
            "/.gitignore export-ignore"
        ]
    );
    assert_eq!(t.entries[1].reference, "new");
    assert!(t.remove.is_empty());
    assert!(t.create);
}

#[test]
fn travis_cleanup_adds_github_and_removals() {
    let stale = vec![RemoveEntry {
        line: "/.travis.yml export-ignore".into(),
        reason: "gone".into(),
    }];
    let t = finish_target(
        "foo/bar".into(),
        "master".into(),
        false,
        Some("abc (2020)".into()),
        vec![],
        stale,
        Some((".github/", "Added alongside")),
    )
    .unwrap();
    assert_eq!(t.entries.len(), 1);
    assert_eq!(t.entries[0].line, "/.github/ export-ignore");
    assert_eq!(t.entries[0].reference, "Added alongside");
    assert_eq!(t.remove.len(), 1);
    assert_eq!(t.last_gitattributes_ref.as_deref(), Some("abc (2020)"));
    assert_eq!(t.branch, "master");
}

#[test]
fn nothing_to_do_gives_no_target() {
    assert!(finish_target("a/b".into(), "main".into(), false, None, vec![], vec![], None).is_none());
}

#[test]
fn build_plan_sorts_and_keeps_first_of_each_repo() {
    let pairs = vec![
        ("zeta/z".to_string(), vec!["tests".to_string()]),
        ("alpha/a".to_string(), vec!["docs".to_string()]),
        ("zeta/z".to_string(), vec!["other".to_string()]),
        ("Beta/b".to_string(), vec![]),
    ];
    let plan = plan_build(pairs);
    let slugs: Vec<&str> = plan.iter().map(|p| p.0.as_str()).collect();
    assert_eq!(slugs, vec!["Beta/b", "alpha/a", "zeta/z"]);
    assert_eq!(plan[2].1, vec!["tests".to_string()]);
}

#[test]
fn repo_arguments_drop_the_branch_hint() {
    assert_eq!(repo_slug("foo/bar:develop"), "foo/bar");
    assert_eq!(repo_slug("foo/bar"), "foo/bar");
    assert_eq!(repo_slug("a:b:c"), "a");
}

#[test]
fn vendor_internal_dirs_are_skipped() {
    assert!(is_skipped_vendor_dir("bin"));
    assert!(is_skipped_vendor_dir("composer"));
    assert!(is_skipped_vendor_dir(".cache"));
    assert!(!is_skipped_vendor_dir("symfony"));
    assert!(!is_skipped_vendor_dir(""));
}

#[test]
fn build_needs_a_source() {
    let mut args = BuildArgs {
        vendor: None,
        repos: vec![],
        user_login: "me".into(),
        fork_dir: None,
        output: "out.yaml".into(),
    };
    assert_eq!(args.check(), Err(BuildError::NoSource));
    args.repos.push("foo/bar".into());
    assert_eq!(args.check(), Ok(()));
    args.repos.clear();
    args.vendor = Some("vendor".into());
    assert_eq!(args.check(), Ok(()));
}

#[test]
fn generated_defaults() {
    let d = build_defaults("alice", None);
    assert_eq!(d.fork_dir, "/path/to/your/forks");
    assert_eq!(d.user_login, "alice");
    assert_eq!(d.branch, "alice/gitattributes-export-ignore");
    assert_eq!(
        d.pr_title,
        "Update .gitattributes to exclude dev files from composer dist"
    );
    assert_eq!((d.sleep_min, d.sleep_max), (10, 20));
    assert_eq!(build_defaults("bob", Some("/srv/forks".into())).fork_dir, "/srv/forks");
}

#[test]
fn contents_api_base64_is_decoded_and_parsed() {
    // "/tests export-ignore\n/docs/ export-ignore\n" in base64, wrapped as GitHub does.
    let b64 = "L3Rlc3RzIGV4cG9ydC1pZ25vcmUKL2RvY3Mv\nIGV4cG9ydC1pZ25vcmUK\n";
    let s = excluded_from_contents(b64);
    assert_eq!(s.len(), 2);
    assert!(s.contains("tests"));
    assert!(s.contains("docs"));
    assert_eq!(excluded_from_contents("!!!").len(), 0);
}
