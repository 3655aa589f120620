use vendor_cleanup::config::RemoveEntry;
use vendor_cleanup::pr::build_pr_body;

#[test]
fn body_lists_each_entry() {
    let entries = [
        (
            "/tests/ export-ignore".to_string(),
            "abc1234 2025-01-01".to_string(),
        ),
        (
            "/.editorconfig export-ignore".to_string(),
            "deadbee 2024-06-06".to_string(),
        ),
    ];
    let refs: Vec<&(String, String)> = entries.iter().collect();
    let body = build_pr_body("xyz9876 (2023-01-01)", &refs, &[]);
    assert!(body.contains("xyz9876 (2023-01-01)"));
    assert!(body.contains("/tests/ export-ignore"));
    assert!(body.contains("abc1234 2025-01-01"));
    assert!(body.contains(".editorconfig"));
    assert!(body.contains("deadbee 2024-06-06"));
    assert!(body.contains("Background reading:"));
    assert!(!body.contains('\u{2014}'));
}

#[test]
fn body_groups_removals_and_additions() {
    let entries = [(
        "/.github/ export-ignore".to_string(),
        "Added alongside the Travis cleanup".to_string(),
    )];
    let refs: Vec<&(String, String)> = entries.iter().collect();
    let removals = vec![RemoveEntry {
        line: "/.travis.yml export-ignore".to_string(),
        reason: "Travis CI config no longer exists upstream (project migrated to GitHub Actions)."
            .to_string(),
    }];
    let body = build_pr_body("aaa1111 (2020-01-01)", &refs, &removals);
    assert!(body.contains("### Stale entries to remove"));
    assert!(body.contains("/.travis.yml export-ignore"));
    assert!(body.contains("migrated to GitHub Actions"));
    assert!(body.contains("### Entries to add"));
    assert!(body.contains("/.github/ export-ignore"));
    assert!(!body.contains('\u{2014}'));
}
