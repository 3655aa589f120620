use vendor_cleanup::config::{Entry, RemoveEntry, SkippedRepo, Target};
use vendor_cleanup::pr::{
    fork_clone_url, fork_name, pr_head, upstream_start, upstream_url, Outcome, Pace, RunProgress,
    TargetAction, TargetRun,
};
use vendor_cleanup::style::Style;

fn entry(line: &str, r: &str) -> Entry {
    Entry {
        line: line.into(),
        reference: r.into(),
    }
}

fn target(create: bool) -> Target {
    Target {
        repo: "foo/bar".into(),
        branch: "main".into(),
        create,
        last_gitattributes_ref: Some("abc1234 (2020-01-01)".into()),
        entries: vec![
            entry("/tests/ export-ignore", "aaa1111 2021-01-01"),
            entry("/docs/ export-ignore", "bbb2222 2022-02-02"),
        ],
        remove: vec![RemoveEntry {
            line: "/.travis.yml export-ignore".into(),
            reason: "gone".into(),
        }],
    }
}

const PLAIN: &str = "Drafted with the help of an assistant.";
const COAUTHOR: &str = "Co-Authored-By: Helper <helper@example.com>";

fn start(t: Target, title: &str, go: bool) -> (TargetRun, TargetAction) {
    TargetRun::new(t, title.into(), PLAIN.into(), COAUTHOR.into(), &[], go)
}

fn skipped(a: &TargetAction) -> Option<String> {
    match a {
        TargetAction::Finish(Outcome::Skipped(s)) => Some(s.clone()),
        _ => None,
    }
}

#[test]
fn denylisted_and_skip_listed_repos_are_left_alone() {
    let mut t = target(false);
    t.repo = "Mockery/mockery".into();
    let (_, first) = start(t, "Title", true);
    assert_eq!(
        skipped(&first),
        Some("denylisted: maintainer pushed back on our prior cleanup changes".into())
    );
    let skip = vec![
        SkippedRepo {
            repo: "other/repo".into(),
            reason: "no".into(),
        },
        SkippedRepo {
            repo: "foo/bar".into(),
            reason: "owner declined before".into(),
        },
    ];
    let (_, first) = TargetRun::new(target(false), "T".into(), PLAIN.into(), COAUTHOR.into(), &skip, true);
    assert_eq!(
        skipped(&first),
        Some("on the skip list: owner declined before".into())
    );
    let (_, first) = TargetRun::new(target(false), "T".into(), PLAIN.into(), COAUTHOR.into(), &skip[..1], true);
    assert!(matches!(first, TargetAction::CountPrs));
}

#[test]
fn existing_pr_skips_the_target() {
    let (mut run, first) = start(target(false), "Title", true);
    assert!(matches!(first, TargetAction::CountPrs));
    let a = run.on_pr_count(1);
    assert_eq!(skipped(&a), Some("PR already exists".into()));
}

#[test]
fn rejection_history_skips_the_target() {
    let (mut run, _) = start(target(false), "Title", true);
    let a = run.on_pr_count(0);
    assert!(matches!(a, TargetAction::CheckRejection { max_age_years: 5 }));
    let a = run.on_rejection(Some("#3 closed by bob on 2024-01-01".into()));
    assert_eq!(
        skipped(&a),
        Some("rejection history: #3 closed by bob on 2024-01-01".into())
    );
}

#[test]
fn upstream_queries_skip_new_entries() {
    let mut t = target(false);
    t.entries.push(entry("/.gitignore export-ignore", "new"));
    let (mut run, _) = start(t, "Title", true);
    run.on_pr_count(0);
    match run.on_rejection(None) {
        TargetAction::ProbeUpstream { queries } => {
            assert_eq!(
                queries,
                vec![
                    Some("repos/foo/bar/contents/tests?ref=main".to_string()),
                    Some("repos/foo/bar/contents/docs?ref=main".to_string()),
                    None,
                ]
            );
        }
        other => panic!("unexpected {other:?}"),
    }
}

#[test]
fn nothing_left_upstream_skips_the_target() {
    let (mut run, _) = start(target(false), "Title", true);
    run.on_pr_count(0);
    run.on_rejection(None);
    let a = run.on_existence(&[false, false]);
    assert_eq!(
        skipped(&a),
        Some("nothing remains after upstream check".into())
    );
    assert_eq!(run.dropped.len(), 2);
}

#[test]
fn dry_run_ends_with_the_body() {
    let (mut run, _) = start(target(false), "Title", false);
    run.on_pr_count(0);
    run.on_rejection(None);
    let a = run.on_existence(&[true, false]);
    assert!(matches!(a, TargetAction::Finish(Outcome::DryRun)));
    assert_eq!(run.kept.len(), 1);
    assert_eq!(run.kept[0].0, "/tests/ export-ignore");
    assert_eq!(run.dropped[0].0, "/docs/ export-ignore");
    assert!(run.body.contains("Last `.gitattributes` update was abc1234 (2020-01-01)."));
    assert!(run.body.contains("- `/tests/ export-ignore` - last touched in aaa1111 2021-01-01"));
    assert!(!run.body.contains("/docs/"));
    assert!(run.body.contains("- `/.travis.yml export-ignore` - gone"));
}

#[test]
fn full_run_writes_commits_and_opens() {
    let (mut run, _) = start(target(false), "Title", true);
    run.on_pr_count(0);
    run.on_rejection(None);
    match run.on_existence(&[true, true]) {
        TargetAction::PrepareWorkspace { fork_name } => assert_eq!(fork_name, "bar"),
        other => panic!("unexpected {other:?}"),
    }
    let existing = "*.php text eol=lf\n/.travis.yml export-ignore\n/build export-ignore\n";
    match run.on_content(Some(existing.into())) {
        TargetAction::Publish { content, message } => {
            assert_eq!(
                content,
                "*.php text eol=lf\n/build export-ignore\n/docs/ export-ignore\n/tests/ export-ignore\n"
            );
            assert!(message.starts_with("Title\n\nThis avoids shipping"));
            assert!(message.ends_with(&format!("\n\n{COAUTHOR}")));
        }
        other => panic!("unexpected {other:?}"),
    }
    match run.on_published("https://github.com/foo/bar/pull/7".into()) {
        TargetAction::Finish(Outcome::Opened(url)) => {
            assert_eq!(url, "https://github.com/foo/bar/pull/7")
        }
        other => panic!("unexpected {other:?}"),
    }
}

#[test]
fn unchanged_file_is_skipped() {
    let mut t = target(false);
    t.remove.clear();
    let (mut run, _) = start(t, "Title", true);
    run.on_pr_count(0);
    run.on_rejection(None);
    run.on_existence(&[true, true]);
    let a = run.on_content(Some("/tests/ export-ignore\n/docs export-ignore\n".into()));
    assert_eq!(skipped(&a), Some("no diff after dedup".into()));
}

#[test]
fn created_file_starts_empty() {
    let mut t = target(true);
    t.remove.clear();
    let (mut run, _) = start(t, "Title", true);
    run.on_pr_count(0);
    run.on_rejection(None);
    run.on_existence(&[true, true]);
    match run.on_content(Some("ignored\n".into())) {
        TargetAction::Publish { content, .. } => {
            assert_eq!(content, "/tests/ export-ignore\n/docs/ export-ignore\n")
        }
        other => panic!("unexpected {other:?}"),
    }
}

#[test]
fn google_orgs_get_the_plain_trailer() {
    let mut t = target(false);
    t.repo = "googleapis/gax-php".into();
    let (mut run, _) = start(t, "T", true);
    run.on_pr_count(0);
    run.on_rejection(None);
    run.on_existence(&[true, true]);
    match run.on_content(None) {
        TargetAction::Publish { message, .. } => {
            assert!(message.ends_with(&format!("\n\n{PLAIN}")))
        }
        other => panic!("unexpected {other:?}"),
    }
}

#[test]
fn git_names() {
    assert_eq!(fork_name("foo/bar"), "bar");
    assert_eq!(fork_name("foo/bar/baz"), "bar/baz");
    assert_eq!(fork_name("plain"), "plain");
    assert_eq!(fork_clone_url("me", "bar"), "git@github.com:me/bar.git");
    assert_eq!(upstream_url("foo/bar"), "git@github.com:foo/bar.git");
    assert_eq!(pr_head("me", "me/branch"), "me:me/branch");
    assert_eq!(upstream_start("main"), "upstream/main");
}

#[test]
fn limit_stops_the_run() {
    let mut p = RunProgress::new(2);
    match p.on_opened(10, 20) {
        Pace::Sleep(s) => assert!((10..=20).contains(&s)),
        other => panic!("unexpected {other:?}"),
    }
    assert_eq!(p.on_opened(10, 20), Pace::Stop);
    let mut fixed = RunProgress::new(0);
    assert_eq!(fixed.on_opened(3, 3), Pace::Sleep(3));
}

#[test]
fn style_of_an_empty_file_is_plain() {
    assert_eq!(
        Style::detect(""),
        Style {
            sorted: false,
            align_col: 0
        }
    );
}
