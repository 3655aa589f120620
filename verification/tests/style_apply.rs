use vendor_cleanup::style::{apply_entries, strip_slashes, Style};

#[test]
fn slevomat_real_world_sort() {
    let before = "\
*.php text eol=lf
/.github export-ignore
.gitattributes export-ignore
.gitignore export-ignore
/codecov.yml export-ignore
/build export-ignore
/build.xml export-ignore
/phpunit.xml.dist export-ignore
/temp export-ignore
/tests export-ignore
";
    let style = Style::detect(before);
    assert!(
        !style.sorted,
        "slevomat .gitattributes is intentionally unsorted before"
    );
    let sorted_input = "\
*.php text eol=lf
/.editorconfig export-ignore
.gitattributes export-ignore
/.github export-ignore
.gitignore export-ignore
/build export-ignore
/build.xml export-ignore
/codecov.yml export-ignore
/doc export-ignore
/phpunit.xml.dist export-ignore
/temp export-ignore
/tests export-ignore
";
    let style = Style::detect(sorted_input);
    assert!(style.sorted);
    let out = apply_entries(sorted_input, &["/.idea export-ignore"], style);
    let ei: Vec<&str> = out
        .lines()
        .filter(|l| l.contains("export-ignore"))
        .collect();
    let stripped: Vec<String> = ei
        .iter()
        .map(|l| strip_slashes(l.split_whitespace().next().unwrap()))
        .collect();
    let mut want = stripped.clone();
    want.sort();
    assert_eq!(stripped, want, "sorted property must hold after append");
}

#[test]
fn phar_io_real_world_alignment() {
    let before = "\
/.github           export-ignore
/build             export-ignore
/examples          export-ignore
/tests             export-ignore
/tools             export-ignore
/.gitattributes    export-ignore
/.gitignore        export-ignore
/.php_cs.dist.php  export-ignore
/build.xml         export-ignore
/phive.xml         export-ignore
/phpunit.xml       export-ignore
/psalm.xml         export-ignore
";
    let style = Style::detect(before);
    assert!(style.align_col > 0, "should detect alignment");
    let col = style.align_col;
    let out = apply_entries(before, &["/.idea export-ignore"], style);
    let new_line = out
        .lines()
        .find(|l| l.contains(".idea"))
        .expect("new line should be present");
    assert_eq!(
        new_line.find("export-ignore").unwrap(),
        col,
        "alignment column preserved on new entry"
    );
}

#[test]
fn long_path_falls_back_to_single_space_when_align_too_narrow() {
    let before = "\
/a   export-ignore
/bb  export-ignore
";
    let style = Style::detect(before);
    assert!(style.align_col > 0);
    let out = apply_entries(
        before,
        &["/this-is-way-longer-than-align export-ignore"],
        style,
    );
    let new_line = out
        .lines()
        .find(|l| l.contains("way-longer"))
        .expect("new line present");
    assert!(new_line.contains(" export-ignore"));
    assert!(!new_line.contains("  export-ignore"));
}

#[test]
fn create_path_from_empty() {
    let style = Style {
        sorted: false,
        align_col: 0,
    };
    let out = apply_entries(
        "",
        &[
            "/examples/ export-ignore",
            "/.gitattributes export-ignore",
            "/.gitignore export-ignore",
        ],
        style,
    );
    assert_eq!(out.lines().count(), 3);
    assert!(out.starts_with("/examples/"));
}

#[test]
fn dedup_existing_with_trailing_slash_variation() {
    let before = "/tests export-ignore\n";
    let style = Style::detect(before);
    let out = apply_entries(before, &["/tests/ export-ignore"], style);
    assert_eq!(out, before, "dedupes regardless of trailing slash");
}
