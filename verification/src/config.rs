//! The campaign configuration: what to change in which repository, and the
//! defaults that apply when a field is left out.
use vstd::prelude::*;

use crate::text::path_join;

verus! {

#[derive(Debug, Clone)]
pub struct Defaults {
    pub fork_dir: String,
    pub user_login: String,
    pub branch: String,
    pub pr_title: String,
    pub sleep_min: u64,
    pub sleep_max: u64,
    /// Commit trailer for CLA-protected organisations (empty: none).
    pub plain_trailer: String,
    /// Commit trailer for every other repository (empty: none).
    pub coauthor_trailer: String,
}

/// One line to add to `.gitattributes`, with the citation shown in the PR
/// body (`ref` in the YAML file).
#[derive(Debug, Clone)]
pub struct Entry {
    pub line: String,
    pub reference: String,
}

/// A stale line to remove from `.gitattributes`, with the reason shown in
/// the PR body.
#[derive(Debug, Clone)]
pub struct RemoveEntry {
    pub line: String,
    pub reason: String,
}

#[derive(Debug, Clone)]
pub struct Target {
    pub repo: String,
    pub branch: String,
    pub create: bool,
    pub last_gitattributes_ref: Option<String>,
    pub entries: Vec<Entry>,
    pub remove: Vec<RemoveEntry>,
}

#[derive(Debug, Clone)]
pub struct SkippedRepo {
    pub repo: String,
    pub reason: String,
}

#[derive(Debug, Clone)]
pub struct Config {
    pub defaults: Defaults,
    pub targets: Vec<Target>,
    pub skipped: Vec<SkippedRepo>,
}

/// Directory for local clones: `forks` under the home directory, or under
/// `/tmp` when no home directory is known.
pub fn default_fork_dir(home: Option<&str>) -> (r: String)
    ensures
        r@ == path_join(
            match home {
                Some(h) => h@,
                None => "/tmp"@,
            },
            "forks"@,
        ),
{
    let base: &str = match home {
        Some(h) => h,
        None => "/tmp",
    };
    crate::text::join_path(base, "forks")
}

pub fn default_user_login() -> (r: String)
    ensures
        r@ == "you"@,
{
    String::from_str("you")
}

pub fn default_branch() -> (r: String)
    ensures
        r@ == "vendor-cleanup/gitattributes-export-ignore"@,
{
    String::from_str("vendor-cleanup/gitattributes-export-ignore")
}

pub fn default_pr_title() -> (r: String)
    ensures
        r@ == "Update .gitattributes to exclude dev files from composer dist"@,
{
    String::from_str("Update .gitattributes to exclude dev files from composer dist")
}

pub fn default_sleep_min() -> (r: u64)
    ensures
        r == 10,
{
    10
}

pub fn default_sleep_max() -> (r: u64)
    ensures
        r == 20,
{
    20
}

/// Base branch of a target when the file names none.
pub fn default_branch_name() -> (r: String)
    ensures
        r@ == "main"@,
{
    String::from_str("main")
}

/// The defaults used when the file has no `defaults` section.
pub fn default_defaults(home: Option<&str>) -> (d: Defaults)
    ensures
        d.fork_dir@ == path_join(
            match home {
                Some(h) => h@,
                None => "/tmp"@,
            },
            "forks"@,
        ),
        d.user_login@ == "you"@,
        d.branch@ == "vendor-cleanup/gitattributes-export-ignore"@,
        d.pr_title@ == "Update .gitattributes to exclude dev files from composer dist"@,
        d.sleep_min == 10,
        d.sleep_max == 20,
        d.plain_trailer@.len() == 0,
        d.coauthor_trailer@.len() == 0,
{
    Defaults {
        fork_dir: default_fork_dir(home),
        user_login: default_user_login(),
        branch: default_branch(),
        pr_title: default_pr_title(),
        sleep_min: default_sleep_min(),
        sleep_max: default_sleep_max(),
        plain_trailer: String::new(),
        coauthor_trailer: String::new(),
    }
}

} // verus!
