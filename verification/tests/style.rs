use vendor_cleanup::style::{apply_entries, apply_removals, strip_slashes, Style};

#[test]
fn detects_no_style_on_empty_file() {
    let s = Style::detect("");
    assert!(!s.sorted);
    assert_eq!(s.align_col, 0);
}

#[test]
fn detects_sorted_simple() {
    let content = "\
/.editorconfig export-ignore
/.github export-ignore
/tests/ export-ignore
";
    let s = Style::detect(content);
    assert!(s.sorted);
    assert_eq!(s.align_col, 0);
}

#[test]
fn detects_unsorted_simple() {
    let content = "\
/tests/ export-ignore
/.github export-ignore
";
    let s = Style::detect(content);
    assert!(!s.sorted);
}

#[test]
fn detects_alignment() {
    let content = "\
/.github           export-ignore
/build             export-ignore
/build.xml         export-ignore
/.editorconfig     export-ignore
";
    let s = Style::detect(content);
    assert_ne!(s.align_col, 0);
    let first = content.lines().next().unwrap();
    assert_eq!(s.align_col, first.find("export-ignore").unwrap());
}

#[test]
fn no_alignment_when_all_paths_same_length() {
    let content = "\
/aaa export-ignore
/bbb export-ignore
";
    let s = Style::detect(content);
    assert_eq!(s.align_col, 0);
}

#[test]
fn append_dedups_existing_paths() {
    let content = "/tests/ export-ignore\n";
    let new = apply_entries(content, &["/tests/ export-ignore"], Style::detect(content));
    assert_eq!(new.lines().count(), 1);
}

#[test]
fn append_dedups_normalized_slashes() {
    let content = "/tests export-ignore\n";
    let new = apply_entries(content, &["/tests/ export-ignore"], Style::detect(content));
    assert_eq!(new.lines().count(), 1);
}

#[test]
fn apply_removals_drops_named_lines() {
    let content = "\
*.php text eol=lf
/.travis.yml export-ignore
/phpunit.xml export-ignore
/tests/ export-ignore
";
    let out = apply_removals(content, &["/.travis.yml"]);
    assert!(!out.contains(".travis.yml"));
    assert!(out.contains("/phpunit.xml export-ignore"));
    assert!(out.contains("/tests/ export-ignore"));
    assert!(out.contains("*.php text eol=lf"));
}

#[test]
fn apply_removals_is_slash_insensitive() {
    let content = "/.travis.yml export-ignore\n";
    let out = apply_removals(content, &[".travis.yml"]);
    assert_eq!(out, "");
}

#[test]
fn apply_removals_no_op_when_empty() {
    let content = "/tests export-ignore\n";
    let out = apply_removals(content, &[]);
    assert_eq!(out, content);
}

#[test]
fn apply_removals_keeps_unrelated_export_ignore() {
    let content = "\
/.travis.yml export-ignore
/.travis-deploy/ export-ignore
";
    let out = apply_removals(content, &["/.travis.yml"]);
    assert!(!out.contains(".travis.yml"));
    assert!(out.contains(".travis-deploy"));
}

#[test]
fn append_preserves_sort_when_sorted() {
    let content = "\
.gitattributes export-ignore
/build export-ignore
/tests export-ignore
";
    let style = Style::detect(content);
    assert!(style.sorted);
    let new = apply_entries(content, &["/.editorconfig export-ignore"], style);
    let ei_lines: Vec<&str> = new
        .lines()
        .filter(|l| l.contains("export-ignore"))
        .collect();
    let stripped: Vec<String> = ei_lines
        .iter()
        .map(|l| strip_slashes(l.split_whitespace().next().unwrap()))
        .collect();
    let mut want = stripped.clone();
    want.sort();
    assert_eq!(stripped, want, "EI block should remain sorted after append");
}

#[test]
fn append_uses_alignment_padding() {
    let content = "\
/.github           export-ignore
/build             export-ignore
/build.xml         export-ignore
";
    let style = Style::detect(content);
    assert_ne!(style.align_col, 0);
    let col = style.align_col;
    let new = apply_entries(content, &["/.editorconfig export-ignore"], style);
    let added = new.lines().find(|l| l.contains(".editorconfig")).unwrap();
    assert_eq!(
        added.find("export-ignore").unwrap(),
        col,
        "new line should align to column {col}, got: {added:?}"
    );
}

#[test]
fn append_no_alignment_keeps_raw() {
    let content = "/tests export-ignore\n";
    let style = Style::detect(content);
    let new = apply_entries(content, &["/docs/ export-ignore"], style);
    assert!(new.contains("/docs/ export-ignore"));
}

#[test]
fn strip_slashes_normalizes() {
    assert_eq!(strip_slashes("/tests/"), "tests");
    assert_eq!(strip_slashes("/.editorconfig"), ".editorconfig");
    assert_eq!(strip_slashes("plain"), "plain");
}
