use vendor_cleanup::checks::{filter_existing_paths, ClosedPr, RejectionScan, RejectionStep};
use vendor_cleanup::github::{
    is_true_output, parse_count, pr_closer_login, status_ok, TimelineEvent,
};

fn pr(number: u64, author: &str, closed_at: &str) -> ClosedPr {
    ClosedPr {
        number: Some(number),
        author_login: Some(author.into()),
        closed_at: Some(closed_at.into()),
    }
}

/// Drives a scan with fixed answers: which PRs touch `.gitattributes`
/// and who closed each.
fn drive(scan: &mut RejectionScan, mut step: RejectionStep, touching: &[u64], closers: &[(u64, &str)]) -> Option<String> {
    loop {
        step = match step {
            RejectionStep::Examine => scan.examine(),
            RejectionStep::AskTouches(n) => scan.on_touches(touching.contains(&n)),
            RejectionStep::AskCloser(n) => scan.on_closer(
                closers
                    .iter()
                    .find(|(m, _)| *m == n)
                    .map(|(_, c)| c.to_string()),
            ),
            RejectionStep::Done(r) => return r,
        }
    }
}

#[test]
fn rejection_found_when_a_maintainer_closed_a_recent_pr() {
    let prs = vec![
        pr(1, "old", "2010-05-05T00:00:00Z"),
        pr(2, "carol", "2024-03-04T10:00:00Z"),
    ];
    let (mut scan, step) = RejectionScan::start_at(prs, "me".into(), 5, 2025);
    let r = drive(&mut scan, step, &[1, 2], &[(1, "x"), (2, "maint")]);
    assert_eq!(r, Some("#2 closed by maint on 2024-03-04".into()));
}

#[test]
fn self_closed_and_author_closed_prs_are_not_rejections() {
    let prs = vec![
        pr(3, "carol", "2024-01-01T00:00:00Z"),
        pr(4, "dave", "2024-01-01T00:00:00Z"),
        pr(5, "erin", "2024-01-01T00:00:00Z"),
    ];
    let (mut scan, step) = RejectionScan::start_at(prs, "me".into(), 5, 2025);
    let r = drive(&mut scan, step, &[3, 4], &[(3, "carol"), (4, "me"), (5, "maint")]);
    assert_eq!(r, None);
}

#[test]
fn old_or_undated_prs_are_ignored() {
    let prs = vec![
        pr(6, "a", "2019-12-31T00:00:00Z"),
        pr(7, "a", "20"),
        ClosedPr {
            number: None,
            author_login: None,
            closed_at: Some("2024-01-01".into()),
        },
    ];
    let (mut scan, step) = RejectionScan::start_at(prs, "me".into(), 5, 2025);
    let r = drive(&mut scan, step, &[6, 7], &[(6, "m"), (7, "m")]);
    assert_eq!(r, None);
    let (mut empty, step) = RejectionScan::start_at(vec![], "me".into(), 5, 2025);
    assert_eq!(drive(&mut empty, step, &[], &[]), None);
}

#[test]
fn short_close_dates_are_cited_whole() {
    let prs = vec![pr(8, "a", "2024-01")];
    let (mut scan, step) = RejectionScan::start_at(prs, "me".into(), 5, 2025);
    let r = drive(&mut scan, step, &[8], &[(8, "m")]);
    assert_eq!(r, Some("#8 closed by m on 2024-01".into()));
}

#[test]
fn upstream_check_keeps_new_entries() {
    let entries = vec![
        ("/tests/ export-ignore".to_string(), "r1".to_string()),
        ("/gone export-ignore".to_string(), "r2".to_string()),
        ("/.gitignore export-ignore".to_string(), "new".to_string()),
    ];
    let (kept, dropped) = filter_existing_paths(&entries, &[true, false, false]);
    assert_eq!(kept, vec![entries[0].clone(), entries[2].clone()]);
    assert_eq!(dropped, vec![entries[1].clone()]);
}

#[test]
fn closer_is_the_last_closed_event() {
    let ev = |e: &str, a: Option<&str>| TimelineEvent {
        event: Some(e.into()),
        actor_login: a.map(|s| s.to_string()),
    };
    let timeline = vec![
        ev("closed", Some("first")),
        ev("reopened", Some("x")),
        ev("closed", Some("second")),
        ev("labeled", Some("y")),
        ev("closed", None),
    ];
    assert_eq!(pr_closer_login(&timeline), Some("second".into()));
    assert_eq!(pr_closer_login(&[ev("merged", Some("z"))]), None);
}

#[test]
fn gh_output_reading() {
    assert!(status_ok("HTTP/2.0 200 OK\nContent-Type: x\n\n{}"));
    assert!(!status_ok("HTTP/2.0 404 Not Found\n\n200 OK"));
    assert!(!status_ok(""));
    assert!(is_true_output(" true\n"));
    assert!(!is_true_output("false\n"));
    assert!(!is_true_output("truth"));
    assert_eq!(parse_count("3\n"), 3);
    assert_eq!(parse_count("  +12 "), 12);
    assert_eq!(parse_count(""), 0);
    assert_eq!(parse_count("-1"), 0);
    assert_eq!(parse_count("4x"), 0);
    assert_eq!(parse_count("99999999999999999999999"), 0);
}
