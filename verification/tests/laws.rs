use vendor_cleanup::style::{apply_entries, apply_removals, strip_slashes, Style};

#[test]
fn appending_twice_gives_the_same_file() {
    let content = "*.php text eol=lf\n/tests export-ignore\n/build export-ignore";
    let entries = ["/docs/ export-ignore", "/.editorconfig export-ignore", "/tests/ export-ignore"];
    for style in [
        Style {
            sorted: true,
            align_col: 0,
        },
        Style {
            sorted: false,
            align_col: 20,
        },
        Style {
            sorted: true,
            align_col: 4,
        },
    ] {
        let once = apply_entries(content, &entries, style);
        let twice = apply_entries(&once, &entries, style);
        assert_eq!(once, twice);
    }
}

#[test]
fn removal_names_compare_without_slashes() {
    let content = "/.travis.yml export-ignore\n/tests/ export-ignore\n*.php text\n";
    let a = apply_removals(content, &["/.travis.yml/", "tests"]);
    let b = apply_removals(content, &[".travis.yml", "//tests"]);
    assert_eq!(a, b);
    assert_eq!(a, "*.php text\n");
}

#[test]
fn stripped_paths_lose_every_edge_slash() {
    assert_eq!(strip_slashes("//a//"), "a");
    assert_eq!(strip_slashes("///"), "");
    assert_eq!(strip_slashes("a/b/"), "a/b");
}

#[test]
fn removed_paths_stay_gone_and_entries_are_excluded() {
    let content = "/.travis.yml export-ignore\n/tests export-ignore\n*.php text\n";
    let after = apply_removals(content, &["/.travis.yml"]);
    assert!(!after.contains(".travis.yml"));
    let out = apply_entries(
        &after,
        &["/.github/ export-ignore", "/tests/ export-ignore"],
        Style {
            sorted: false,
            align_col: 0,
        },
    );
    assert_eq!(
        out,
        "/tests export-ignore\n*.php text\n/.github/ export-ignore\n"
    );
}

#[test]
fn removing_a_path_undoes_appending_it() {
    let plain = Style {
        sorted: false,
        align_col: 0,
    };
    for content in ["", "*.php text\n/tests export-ignore\n"] {
        let added = apply_entries(content, &["/docs export-ignore"], plain);
        assert_ne!(added, content);
        assert_eq!(apply_removals(&added, &["/docs"]), content);
    }
}

#[test]
fn appending_twice_with_crlf_content() {
    let content = "/tests export-ignore\r\n/build export-ignore\r";
    let entries = ["/docs/ export-ignore", "/build/ export-ignore"];
    for sorted in [false, true] {
        let style = Style {
            sorted,
            align_col: 0,
        };
        let once = apply_entries(content, &entries, style);
        assert_eq!(apply_entries(&once, &entries, style), once);
    }
}
