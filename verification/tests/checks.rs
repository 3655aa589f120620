use vendor_cleanup::checks::{commit_trailer, denylisted_repo};

const PLAIN: &str = "Drafted with the help of an assistant.";
const COAUTHOR: &str = "Co-Authored-By: Helper <helper@example.com>";

#[test]
fn trailer_for_google_orgs() {
    for r in [
        "GoogleCloudPlatform/grpc-gcp-php",
        "googleapis/gax-php",
        "google/recaptcha",
    ] {
        assert!(
            commit_trailer(r, PLAIN, COAUTHOR).contains("assistant"),
            "expected plain-text trailer for {r}, got {}",
            commit_trailer(r, PLAIN, COAUTHOR)
        );
        assert!(!commit_trailer(r, PLAIN, COAUTHOR).contains("Co-Authored-By"));
    }
}

#[test]
fn trailer_for_other_orgs() {
    for r in [
        "mockery/mockery",
        "phar-io/manifest",
        "slevomat/coding-standard",
    ] {
        assert!(
            commit_trailer(r, PLAIN, COAUTHOR).starts_with("Co-Authored-By"),
            "expected co-author trailer for {r}"
        );
    }
}

#[test]
fn denylist_skips_mockery() {
    assert!(denylisted_repo("mockery/mockery").is_some());
    assert!(denylisted_repo("Mockery/Mockery").is_some());
    assert!(denylisted_repo("phar-io/manifest").is_none());
    assert!(denylisted_repo("getsentry/sentry-laravel").is_none());
}
