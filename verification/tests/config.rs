use vendor_cleanup::config::{
    default_branch, default_branch_name, default_defaults, default_fork_dir, default_pr_title,
    default_sleep_max, default_sleep_min, default_user_login,
};

#[test]
fn defaults_fill_missing_fields() {
    let d = default_defaults(Some("/home/me"));
    assert_eq!(d.sleep_min, 10);
    assert_eq!(d.sleep_max, 20);
    assert_eq!(d.user_login, "you");
    assert_eq!(default_branch_name(), "main");
    assert_eq!(d.fork_dir, "/home/me/forks");
    assert!(d.plain_trailer.is_empty() && d.coauthor_trailer.is_empty());
}

#[test]
fn default_values() {
    assert_eq!(default_fork_dir(None), "/tmp/forks");
    assert_eq!(default_fork_dir(Some("/root/")), "/root/forks");
    assert_eq!(default_user_login(), "you");
    assert_eq!(default_branch(), "vendor-cleanup/gitattributes-export-ignore");
    assert_eq!(
        default_pr_title(),
        "Update .gitattributes to exclude dev files from composer dist"
    );
    assert_eq!((default_sleep_min(), default_sleep_max()), (10, 20));
}
