use vendor_cleanup::savings::{
    enrichment_plan, extract_added_paths, pr_to_enrich, repo_selected, savings_summary, tree_size, tree_total_fits,
    RegistryPr, RegistryRepo, TreeEntry,
};

#[test]
fn extracts_simple_added_paths() {
    let diff = r#"
diff --git a/.gitattributes b/.gitattributes
--- a/.gitattributes
+++ b/.gitattributes
@@ -1,2 +1,5 @@
 *.php text eol=lf
+/tests/ export-ignore
+/.editorconfig export-ignore
+/CONTRIBUTING.md export-ignore
"#;
    let paths = extract_added_paths(diff);
    assert_eq!(paths, vec!["tests", ".editorconfig", "CONTRIBUTING.md"]);
}

#[test]
fn skips_diff_headers_and_removed_lines() {
    let diff = r#"
+++ b/.gitattributes
--- a/.gitattributes
-/old export-ignore
+/new export-ignore
"#;
    let paths = extract_added_paths(diff);
    assert_eq!(paths, vec!["new"]);
}

#[test]
fn dedupes_repeated_paths() {
    let diff = r#"
+/tests/ export-ignore
+/tests/ export-ignore
"#;
    let paths = extract_added_paths(diff);
    assert_eq!(paths, vec!["tests"]);
}

#[test]
fn ignores_non_export_ignore_additions() {
    let diff = r#"
+# just a comment
+*.php text eol=lf
+/tests/ export-ignore
"#;
    let paths = extract_added_paths(diff);
    assert_eq!(paths, vec!["tests"]);
}

fn blob(path: &str, size: u64) -> TreeEntry {
    TreeEntry {
        kind: Some("blob".into()),
        path: Some(path.into()),
        size: Some(size),
    }
}

#[test]
fn tree_size_sums_blobs_under_a_directory() {
    let tree = vec![
        blob("tests/a.php", 100),
        blob("tests/sub/b.php", 20),
        TreeEntry {
            kind: Some("tree".into()),
            path: Some("tests".into()),
            size: None,
        },
        blob("testsuite.xml", 7),
        blob("src/x.php", 1000),
    ];
    assert_eq!(tree_size(&tree, "/tests/"), Some(120));
    assert_eq!(tree_size(&tree, "testsuite.xml"), Some(7));
    assert_eq!(tree_size(&tree, "docs"), None);
    assert!(tree_total_fits(&tree, "tests"));
}

#[test]
fn tree_totals_beyond_u64_do_not_fit() {
    let tree = vec![blob("a/x", u64::MAX), blob("a/y", 1), blob("b", u64::MAX)];
    assert!(!tree_total_fits(&tree, "a"));
    assert!(tree_total_fits(&tree, "b"));
}

#[test]
fn tree_size_counts_a_missing_size_as_zero() {
    let tree = vec![TreeEntry {
        kind: Some("blob".into()),
        path: Some("Makefile".into()),
        size: None,
    }];
    assert_eq!(tree_size(&tree, "Makefile"), Some(0));
}

#[test]
fn only_merged_prs_are_enriched() {
    let merged = RegistryPr {
        state: Some("MERGED".into()),
        savings_set: false,
        number: Some(12),
    };
    assert_eq!(pr_to_enrich(&merged, false), Some(12));
    let done = RegistryPr {
        savings_set: true,
        ..merged.clone()
    };
    assert_eq!(pr_to_enrich(&done, false), None);
    assert_eq!(pr_to_enrich(&done, true), Some(12));
    let open = RegistryPr {
        state: Some("OPEN".into()),
        ..merged.clone()
    };
    assert_eq!(pr_to_enrich(&open, true), None);
    let no_number = RegistryPr {
        number: None,
        ..merged
    };
    assert_eq!(pr_to_enrich(&no_number, false), None);
}

#[test]
fn repo_filter_selects_one_repository() {
    assert!(repo_selected("foo/bar", None));
    assert!(repo_selected("foo/bar", Some("foo/bar")));
    assert!(!repo_selected("foo/baz", Some("foo/bar")));
}

fn merged(n: u64, set: bool) -> RegistryPr {
    RegistryPr {
        state: Some("MERGED".into()),
        savings_set: set,
        number: Some(n),
    }
}

#[test]
fn enrichment_plan_follows_the_registry_and_the_limit() {
    let repos = vec![
        RegistryRepo {
            repo: "a/one".into(),
            prs: vec![
                merged(1, false),
                merged(2, true),
                RegistryPr {
                    state: Some("CLOSED".into()),
                    savings_set: false,
                    number: Some(3),
                },
            ],
        },
        RegistryRepo {
            repo: "b/two".into(),
            prs: vec![merged(4, false), merged(5, false)],
        },
    ];
    assert_eq!(
        enrichment_plan(&repos, false, 0, None),
        vec![(0, 0, 1), (1, 0, 4), (1, 1, 5)]
    );
    assert_eq!(
        enrichment_plan(&repos, true, 0, None),
        vec![(0, 0, 1), (0, 1, 2), (1, 0, 4), (1, 1, 5)]
    );
    assert_eq!(enrichment_plan(&repos, false, 2, None), vec![(0, 0, 1), (1, 0, 4)]);
    assert_eq!(
        enrichment_plan(&repos, false, 0, Some("b/two")),
        vec![(1, 0, 4), (1, 1, 5)]
    );
    assert!(enrichment_plan(&repos, false, 0, Some("c/none")).is_empty());
}

#[test]
fn savings_summary_skips_paths_without_size() {
    let paths = vec!["tests".to_string(), "docs".to_string(), ".github".to_string()];
    let sizes = vec![Some(100), None, Some(23)];
    let (total, detail) = savings_summary(&paths, &sizes);
    assert_eq!(total, 123);
    assert_eq!(
        detail,
        vec![("tests".to_string(), 100), (".github".to_string(), 23)]
    );
    let (t0, d0) = savings_summary(&[], &[]);
    assert_eq!(t0, 0);
    assert!(d0.is_empty());
}
