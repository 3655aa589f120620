//! Pre-flight checks that gate every PR open: the static denylist, the
//! commit trailer for CLA-protected organisations, the upstream existence
//! filter and the rejection-history scan.
use vstd::prelude::*;

use crate::text::{
    first_token, first_token_exec, strip_slashes_chars,
    ascii_lower, ascii_lower_chars, byte_len, byte_prefix_len, chars_eq, decimal, from_chars,
    is_boundary, is_byte_prefix, lemma_byte_prefix_unique, parse_int, parse_short_int, str_eq,
    strip_slashes_spec, subrange_chars, to_chars, u64_to_decimal, append_chars,
};

verus! {

/// Repos where the maintainer has signalled they don't welcome our
/// `.gitattributes` cleanup contributions, with the reason.
pub const DENYLISTED_REPOS: [(&'static str, &'static str); 1] = [
    ("mockery/mockery", "maintainer pushed back on our prior cleanup changes"),
];

/// Returns Some(reason) when `repo` is on the static denylist. Match is
/// case-insensitive (ASCII) against `OWNER/REPO`.
pub fn denylisted_repo(repo: &str) -> (r: Option<&'static str>)
    ensures
        r is Some <==> ascii_lower(repo@) == "mockery/mockery"@,
        r matches Some(reason) ==> reason@ == "maintainer pushed back on our prior cleanup changes"@,
{
    let key = ascii_lower_chars(&to_chars(repo));
    let (slug, reason) = DENYLISTED_REPOS[0];
    let slug_lower = ascii_lower_chars(&to_chars(slug));
    proof {
        reveal_strlit("mockery/mockery");
        assert(ascii_lower("mockery/mockery"@) =~= "mockery/mockery"@);
        assert(ascii_lower(ascii_lower(repo@)) =~= ascii_lower(repo@));
    }
    if chars_eq(&slug_lower, &key) {
        Some(reason)
    } else {
        None
    }
}

/// Organisations whose CLA bot rejects the co-author e-mail.
pub open spec fn is_cla_org(org: Seq<char>) -> bool {
    org == "googlecloudplatform"@ || org == "googleapis"@ || org == "google"@
}

/// The part of `repo` before its first `/` (all of it when there is none).
pub open spec fn org_of(repo: Seq<char>) -> Seq<char> {
    if exists|i: int| 0 <= i < repo.len() && repo[i] == '/' {
        repo.take(choose|i: int| 0 <= i < repo.len() && repo[i] == '/' && forall|j: int| 0 <= j < i ==> repo[j] != '/')
    } else {
        repo
    }
}

pub(crate) fn org_prefix(repo: &Vec<char>) -> (r: Vec<char>)
    ensures
        r@ == org_of(repo@),
{
    let mut i: usize = 0;
    while i < repo.len() && repo[i] != '/'
        invariant
            i <= repo.len(),
            forall|j: int| 0 <= j < i ==> repo@[j] != '/',
        decreases repo.len() - i,
    {
        i = i + 1;
    }
    proof {
        if i < repo.len() {
            let k = choose|k: int|
                0 <= k < repo@.len() && repo@[k] == '/' && forall|j: int| 0 <= j < k ==> repo@[j] != '/';
            if k < i {
            } else if k > i {
                assert(repo@[i as int] == '/');
            }
        }
    }
    subrange_chars(repo, 0, i)
}

/// Pick the right commit trailer for the given repo: CLA-protected orgs get
/// the plain-text attribution `plain` so that a co-author e-mail doesn't
/// trip their bot; every other repo gets the co-author line `coauthor`.
pub fn commit_trailer<'a>(repo: &str, plain: &'a str, coauthor: &'a str) -> (r: &'a str)
    ensures
        r@ == if is_cla_org(ascii_lower(org_of(repo@))) {
            plain@
        } else {
            coauthor@
        },
{
    let org = ascii_lower_chars(&org_prefix(&to_chars(repo)));
    let a = to_chars("googlecloudplatform");
    let b = to_chars("googleapis");
    let c = to_chars("google");
    if chars_eq(&org, &a) || chars_eq(&org, &b) || chars_eq(&org, &c) {
        plain
    } else {
        coauthor
    }
}

/// An entry pair: (line, ref). `line` is the literal text we'd add to
/// `.gitattributes` (path + " export-ignore"); `ref` is the commit/PR
/// citation we put in the PR body, or the literal "new" for entries we
/// create ourselves (.gitattributes, .gitignore).
pub type EntryPair = (String, String);

/// The contents API path that tells whether an entry's path (the line's
/// first token, without leading and trailing slashes) still exists
/// upstream; entries cited as `new` need no check.
pub open spec fn existence_query_spec(repo: Seq<char>, branch: Seq<char>, line: Seq<char>, reference: Seq<char>) -> Option<Seq<char>> {
    if reference == "new"@ {
        None
    } else {
        Some("repos/"@ + repo + "/contents/"@ + strip_slashes_spec(first_token(line)) + "?ref="@ + branch)
    }
}

/// The `gh api` path to probe for one entry, `None` for `new` entries.
pub fn existence_query(repo: &str, branch: &str, entry: &EntryPair) -> (r: Option<String>)
    ensures
        r matches Some(q) ==> existence_query_spec(repo@, branch@, entry.0@, entry.1@) == Some(q@),
        r is None ==> existence_query_spec(repo@, branch@, entry.0@, entry.1@) is None,
{
    if str_eq(entry.1.as_str(), "new") {
        return None;
    }
    let stripped = from_chars(&strip_slashes_chars(&first_token_exec(&to_chars(entry.0.as_str()))));
    let mut q = String::from_str("repos/");
    q.append(repo);
    q.append("/contents/");
    q.append(stripped.as_str());
    q.append("?ref=");
    q.append(branch);
    Some(q)
}

/// Entries kept after the upstream check, in order: `new` entries always,
/// others when their path exists.
pub open spec fn kept_entries(entries: Seq<(Seq<char>, Seq<char>)>, exists: Seq<bool>) -> Seq<(Seq<char>, Seq<char>)>
    decreases entries.len(),
{
    if entries.len() == 0 {
        seq![]
    } else {
        let i = entries.len() - 1;
        let rest = kept_entries(entries.drop_last(), exists);
        if entries[i].1 == "new"@ || exists[i] {
            rest.push(entries[i])
        } else {
            rest
        }
    }
}

/// Entries dropped by the upstream check, in order.
pub open spec fn dropped_entries(entries: Seq<(Seq<char>, Seq<char>)>, exists: Seq<bool>) -> Seq<(Seq<char>, Seq<char>)>
    decreases entries.len(),
{
    if entries.len() == 0 {
        seq![]
    } else {
        let i = entries.len() - 1;
        let rest = dropped_entries(entries.drop_last(), exists);
        if entries[i].1 == "new"@ || exists[i] {
            rest
        } else {
            rest.push(entries[i])
        }
    }
}

pub open spec fn pair_views(v: Seq<EntryPair>) -> Seq<(Seq<char>, Seq<char>)> {
    v.map_values(|p: EntryPair| (p.0@, p.1@))
}

fn clone_pair(p: &EntryPair) -> (r: EntryPair)
    ensures
        r.0@ == p.0@,
        r.1@ == p.1@,
{
    (p.0.clone(), p.1.clone())
}

/// `(kept, dropped)`: splits the entries by the upstream check, where
/// `exists[i]` tells whether the path of `paths_with_ref[i]` exists
/// upstream (the answer to `existence_query` for that entry). Entries cited
/// as `new` are kept without looking at `exists`.
pub fn filter_existing_paths(paths_with_ref: &[EntryPair], exists: &[bool]) -> (r: (Vec<EntryPair>, Vec<EntryPair>))
    requires
        exists.len() == paths_with_ref.len(),
    ensures
        pair_views(r.0@) == kept_entries(pair_views(paths_with_ref@), exists@),
        pair_views(r.1@) == dropped_entries(pair_views(paths_with_ref@), exists@),
{
    let ghost pv = pair_views(paths_with_ref@);
    let mut keep: Vec<EntryPair> = Vec::new();
    let mut drop: Vec<EntryPair> = Vec::new();
    let mut i: usize = 0;
    while i < paths_with_ref.len()
        invariant
            i <= paths_with_ref.len(),
            exists.len() == paths_with_ref.len(),
            pv == pair_views(paths_with_ref@),
            pair_views(keep@) == kept_entries(pv.take(i as int), exists@),
            pair_views(drop@) == dropped_entries(pv.take(i as int), exists@),
        decreases paths_with_ref.len() - i,
    {
        let entry = &paths_with_ref[i];
        assert(pv.take(i + 1).drop_last() == pv.take(i as int));
        assert(pv.take(i + 1)[i as int] == (entry.0@, entry.1@));
        let ghost ok = pair_views(keep@);
        let ghost od = pair_views(drop@);
        if str_eq(entry.1.as_str(), "new") || exists[i] {
            keep.push(clone_pair(entry));
            assert(pair_views(keep@) =~= ok.push(pv[i as int]));
        } else {
            drop.push(clone_pair(entry));
            assert(pair_views(drop@) =~= od.push(pv[i as int]));
        }
        i = i + 1;
    }
    assert(pv.take(paths_with_ref.len() as int) == pv);
    (keep, drop)
}

/// The upstream check splits the entries: each is either kept or
/// dropped, and an entry cited as `new` is always kept.
pub proof fn upstream_check_partitions(entries: Seq<(Seq<char>, Seq<char>)>, exists: Seq<bool>)
    ensures
        kept_entries(entries, exists).len() + dropped_entries(entries, exists).len() == entries.len(),
        forall|i: int|
            0 <= i < entries.len() && (#[trigger] entries[i]).1 == "new"@ ==> kept_entries(
                entries,
                exists,
            ).contains(entries[i]),
    decreases entries.len(),
{
    if entries.len() > 0 {
        let pre = entries.drop_last();
        upstream_check_partitions(pre, exists);
        assert forall|i: int|
            0 <= i < entries.len() && (#[trigger] entries[i]).1 == "new"@ implies kept_entries(
                entries,
                exists,
            ).contains(entries[i]) by {
            let kp = kept_entries(pre, exists);
            if i < entries.len() - 1 {
                assert(pre[i] == entries[i]);
                assert(kp.contains(pre[i]));
                let k = choose|k: int| 0 <= k < kp.len() && kp[k] == pre[i];
                if entries.last().1 == "new"@ || exists[entries.len() - 1] {
                    assert(kp.push(entries.last())[k] == entries[i]);
                }
            } else {
                assert(kp.push(entries.last())[kp.len() as int] == entries[i]);
            }
        }
    }
}


// ---------------------------------------------------------------------------
// Rejection history
// ---------------------------------------------------------------------------

/// A closed, unmerged PR that mentions `.gitattributes` or `export-ignore`,
/// as listed by GitHub.
#[derive(Debug, Clone)]
pub struct ClosedPr {
    pub number: Option<u64>,
    pub author_login: Option<String>,
    pub closed_at: Option<String>,
}

pub open spec fn opt_str(o: Option<String>) -> Seq<char> {
    match o {
        Some(s) => s@,
        None => Seq::<char>::empty(),
    }
}

/// The year a PR was closed: its first four bytes parsed as an `i32`, 0 when
/// they do not parse.
pub open spec fn closed_year(closed_at: Seq<char>) -> int {
    let k = choose|k: int| is_byte_prefix(closed_at, k, 4);
    match parse_int(closed_at.take(k)) {
        Some(v) => v,
        None => 0,
    }
}

/// The PR is a candidate: it has a number, a close date of at least four
/// bytes, and was closed no more than `max_age_years` years before
/// `now_year`.
pub open spec fn is_candidate(pr: ClosedPr, now_year: int, max_age_years: int) -> bool {
    &&& pr.number is Some
    &&& byte_len(opt_str(pr.closed_at)) >= 4
    &&& !(now_year - closed_year(opt_str(pr.closed_at)) > max_age_years)
}

/// The first `min(10, len)` bytes of the close date (the date part).
pub open spec fn close_date(closed_at: Seq<char>) -> Seq<char> {
    let n = if byte_len(closed_at) < 10 {
        byte_len(closed_at) as int
    } else {
        10
    };
    closed_at.take(choose|k: int| is_byte_prefix(closed_at, k, n))
}

pub open spec fn date_cut(closed_at: Seq<char>) -> int {
    if byte_len(closed_at) < 10 {
        byte_len(closed_at) as int
    } else {
        10
    }
}

/// `#<num> closed by <closer> on <date>`.
pub open spec fn rejection_message(num: u64, closer: Seq<char>, closed_at: Seq<char>) -> Seq<char> {
    "#"@ + decimal(num as nat) + " closed by "@ + closer + " on "@ + close_date(closed_at)
}

/// The closer that makes PR `pr` a rejection: someone other than its
/// author and than us.
pub open spec fn rejecting_closer(pr: ClosedPr, c: Option<Seq<char>>, self_login: Seq<char>) -> bool {
    &&& c is Some
    &&& c->0 != opt_str(pr.author_login)
    &&& c->0 != self_login
}

/// The scan's conclusion over the PRs from `i` on, when `touches` tells
/// which PRs change `.gitattributes` and `closer` who closed each: the
/// message for the first candidate that changes it and whose closer is
/// neither its author nor us; none when there is no such PR.
pub open spec fn scan_outcome(
    prs: Seq<ClosedPr>,
    i: int,
    now_year: int,
    max_age_years: int,
    self_login: Seq<char>,
    touches: spec_fn(u64) -> bool,
    closer: spec_fn(u64) -> Option<Seq<char>>,
) -> Option<Seq<char>>
    decreases prs.len() - i,
{
    if i < 0 || i >= prs.len() {
        None
    } else {
        let pr = prs[i];
        let num = pr.number->0;
        if is_candidate(pr, now_year, max_age_years) && touches(num) && rejecting_closer(
            pr,
            closer(num),
            self_login,
        ) {
            Some(rejection_message(num, closer(num)->0, opt_str(pr.closed_at)))
        } else {
            scan_outcome(prs, i + 1, now_year, max_age_years, self_login, touches, closer)
        }
    }
}

/// The characters of an optional string.
pub open spec fn opt_seq(o: Option<String>) -> Option<Seq<char>> {
    match o {
        Some(s) => Some(s@),
        None => None,
    }
}

/// A step keeps the scan's conclusion: a final step gives it, any other
/// leaves it to the scan that follows.
pub open spec fn keeps_outcome(
    before: Option<Seq<char>>,
    after: RejectionScan,
    step: RejectionStep,
    touches: spec_fn(u64) -> bool,
    closer: spec_fn(u64) -> Option<Seq<char>>,
) -> bool {
    match step {
        RejectionStep::Done(r) => opt_seq(r) == before,
        _ => after.outcome(touches, closer) == before,
    }
}

#[derive(Debug, Clone, Copy, PartialEq, Eq, Structural)]
pub enum ScanPhase {
    Examining,
    AwaitTouches,
    AwaitCloser,
    Finished,
}

/// What the scan asks of its driver next.
#[derive(Debug, Clone)]
pub enum RejectionStep {
    /// Call `examine` for the next PR.
    Examine,
    /// Report whether the PR with this number changes `.gitattributes`.
    AskTouches(u64),
    /// Report the login of whoever closed the PR with this number.
    AskCloser(u64),
    /// The scan is over: the reason to skip the repository, if any.
    Done(Option<String>),
}

/// Scan for a similar PR that a non-author closed within the last
/// `max_age_years` years. The driver answers the GitHub questions the scan
/// asks. Every step keeps the conclusion (`keeps_outcome`): driven with
/// answers that agree with `touches` and `closer`, the scan ends with
/// `scan_outcome` of its PRs from the first one.
pub struct RejectionScan {
    pub prs: Vec<ClosedPr>,
    pub self_login: String,
    pub max_age_years: i32,
    pub now_year: i32,
    pub pos: usize,
    pub phase: ScanPhase,
}

impl RejectionScan {
    pub open spec fn wf(&self) -> bool {
        &&& self.pos <= self.prs.len()
        &&& self.phase != ScanPhase::Finished ==> self.pos < self.prs.len()
        &&& (self.phase == ScanPhase::AwaitTouches || self.phase == ScanPhase::AwaitCloser)
            ==> is_candidate(self.prs@[self.pos as int], self.now_year as int, self.max_age_years as int)
    }

    /// What the scan concludes from the current PR on, for the given
    /// answers.
    pub open spec fn outcome(
        &self,
        touches: spec_fn(u64) -> bool,
        closer: spec_fn(u64) -> Option<Seq<char>>,
    ) -> Option<Seq<char>> {
        scan_outcome(
            self.prs@,
            self.pos as int,
            self.now_year as int,
            self.max_age_years as int,
            self.self_login@,
            touches,
            closer,
        )
    }

    /// Same PRs, login, limits and year.
    pub open spec fn same_query(&self, other: &RejectionScan) -> bool {
        &&& self.prs@ == other.prs@
        &&& self.self_login@ == other.self_login@
        &&& self.max_age_years == other.max_age_years
        &&& self.now_year == other.now_year
    }

    /// The scan moved past the current PR.
    pub open spec fn advanced(&self, before: &RejectionScan, step: RejectionStep) -> bool {
        &&& self.same_query(before)
        &&& self.pos == before.pos + 1
        &&& if self.pos == self.prs.len() {
            self.phase == ScanPhase::Finished && step matches RejectionStep::Done(None)
        } else {
            self.phase == ScanPhase::Examining && step matches RejectionStep::Examine
        }
    }

    /// The close date of the current PR.
    pub open spec fn current_closed_at(&self) -> Seq<char> {
        opt_str(self.prs@[self.pos as int].closed_at)
    }

    /// Starts a scan over `prs` as of `now_year`.
    pub fn start_at(prs: Vec<ClosedPr>, self_login: String, max_age_years: i32, now_year: i32) -> (r: (RejectionScan, RejectionStep))
        ensures
            r.0.wf(),
            r.0.prs@ == prs@,
            r.0.self_login@ == self_login@,
            r.0.max_age_years == max_age_years,
            r.0.now_year == now_year,
            r.0.pos == 0,
            prs.len() == 0 ==> r.0.phase == ScanPhase::Finished && r.1 matches RejectionStep::Done(None),
            prs.len() > 0 ==> r.0.phase == ScanPhase::Examining && r.1 matches RejectionStep::Examine,
            forall|t: spec_fn(u64) -> bool, c: spec_fn(u64) -> Option<Seq<char>>|
                #[trigger] keeps_outcome(
                    scan_outcome(prs@, 0, now_year as int, max_age_years as int, self_login@, t, c),
                    r.0,
                    r.1,
                    t,
                    c,
                ),
    {
        let empty = prs.len() == 0;
        let scan = RejectionScan {
            prs,
            self_login,
            max_age_years,
            now_year,
            pos: 0,
            phase: if empty {
                ScanPhase::Finished
            } else {
                ScanPhase::Examining
            },
        };
        if empty {
            (scan, RejectionStep::Done(None))
        } else {
            (scan, RejectionStep::Examine)
        }
    }

    fn advance(&mut self) -> (step: RejectionStep)
        requires
            old(self).wf(),
            old(self).phase != ScanPhase::Finished,
        ensures
            final(self).wf(),
            final(self).advanced(&*old(self), step),
            forall|t: spec_fn(u64) -> bool, c: spec_fn(u64) -> Option<Seq<char>>|
                #[trigger] keeps_outcome(
                    scan_outcome(old(self).prs@, old(self).pos + 1, old(self).now_year as int,
                        old(self).max_age_years as int, old(self).self_login@, t, c),
                    *final(self),
                    step,
                    t,
                    c,
                ),
    {
        self.pos = self.pos + 1;
        if self.pos == self.prs.len() {
            self.phase = ScanPhase::Finished;
            RejectionStep::Done(None)
        } else {
            self.phase = ScanPhase::Examining;
            RejectionStep::Examine
        }
    }

    /// Looks at the current PR: a candidate leads to the question whether it
    /// changes `.gitattributes`; any other PR is passed over.
    pub fn examine(&mut self) -> (step: RejectionStep)
        requires
            old(self).wf(),
            old(self).phase == ScanPhase::Examining,
            byte_len(old(self).current_closed_at()) >= 4 ==> is_boundary(old(self).current_closed_at(), 4),
        ensures
            final(self).wf(),
            is_candidate(old(self).prs@[old(self).pos as int], old(self).now_year as int, old(self).max_age_years as int) ==> {
                &&& final(self).same_query(&*old(self))
                &&& final(self).pos == old(self).pos
                &&& final(self).phase == ScanPhase::AwaitTouches
                &&& step == RejectionStep::AskTouches(old(self).prs@[old(self).pos as int].number->0)
            },
            !is_candidate(old(self).prs@[old(self).pos as int], old(self).now_year as int, old(self).max_age_years as int)
                ==> final(self).advanced(&*old(self), step),
            forall|t: spec_fn(u64) -> bool, c: spec_fn(u64) -> Option<Seq<char>>|
                #[trigger] keeps_outcome(old(self).outcome(t, c), *final(self), step, t, c),
    {
        let pr = &self.prs[self.pos];
        let num = match pr.number {
            Some(n) => n,
            None => {
                return self.advance();
            },
        };
        let cv = match &pr.closed_at {
            Some(c) => to_chars(c.as_str()),
            None => Vec::new(),
        };
        assert(cv@ == opt_str(pr.closed_at));
        let k = match byte_prefix_len(&cv, 4) {
            Some(k) => k,
            None => {
                return self.advance();
            },
        };
        proof {
            lemma_byte_prefix_chars(cv@, k as int, 4);
            let kk = choose|kk: int| is_byte_prefix(cv@, kk, 4);
            lemma_byte_prefix_unique(cv@, k as int, kk, 4);
            crate::text::lemma_byte_len_subrange(cv@, 0, k as int);
            assert(cv@.take(k as int) == cv@.subrange(0, k as int));
        }
        let head = subrange_chars(&cv, 0, k);
        assert(head@ == cv@.take(k as int));
        let year: i32 = match parse_short_int(&head) {
            Some(v) => v,
            None => 0,
        };
        assert(year as int == closed_year(cv@));
        if (self.now_year as i64) - (year as i64) > (self.max_age_years as i64) {
            return self.advance();
        }
        self.phase = ScanPhase::AwaitTouches;
        RejectionStep::AskTouches(num)
    }

    /// Takes the answer whether the current PR changes `.gitattributes`.
    pub fn on_touches(&mut self, touches: bool) -> (step: RejectionStep)
        requires
            old(self).wf(),
            old(self).phase == ScanPhase::AwaitTouches,
        ensures
            final(self).wf(),
            forall|t: spec_fn(u64) -> bool, c: spec_fn(u64) -> Option<Seq<char>>|
                t(old(self).prs@[old(self).pos as int].number->0) == touches ==> #[trigger] keeps_outcome(
                    old(self).outcome(t, c),
                    *final(self),
                    step,
                    t,
                    c,
                ),
            touches ==> {
                &&& final(self).same_query(&*old(self))
                &&& final(self).pos == old(self).pos
                &&& final(self).phase == ScanPhase::AwaitCloser
                &&& step == RejectionStep::AskCloser(old(self).prs@[old(self).pos as int].number->0)
            },
            !touches ==> final(self).advanced(&*old(self), step),
    {
        if !touches {
            return self.advance();
        }
        let num = match self.prs[self.pos].number {
            Some(n) => n,
            None => 0,
        };
        self.phase = ScanPhase::AwaitCloser;
        RejectionStep::AskCloser(num)
    }

    /// Takes the login of whoever closed the current PR: a closer other than
    /// the PR's author and than us ends the scan with the reason to skip.
    pub fn on_closer(&mut self, closer: Option<String>) -> (step: RejectionStep)
        requires
            old(self).wf(),
            old(self).phase == ScanPhase::AwaitCloser,
            closer matches Some(c) && c@ != opt_str(old(self).prs@[old(self).pos as int].author_login)
                && c@ != old(self).self_login@ ==> is_boundary(
                old(self).current_closed_at(),
                date_cut(old(self).current_closed_at()),
            ),
        ensures
            final(self).wf(),
            ({
                let pr = old(self).prs@[old(self).pos as int];
                if closer matches Some(c) && c@ != opt_str(pr.author_login) && c@ != old(self).self_login@ {
                    &&& final(self).same_query(&*old(self))
                    &&& final(self).phase == ScanPhase::Finished
                    &&& step matches RejectionStep::Done(Some(m)) && m@ == rejection_message(
                        pr.number->0,
                        closer->0@,
                        opt_str(pr.closed_at),
                    )
                } else {
                    final(self).advanced(&*old(self), step)
                }
            }),
            forall|t: spec_fn(u64) -> bool, c: spec_fn(u64) -> Option<Seq<char>>|
                t(old(self).prs@[old(self).pos as int].number->0) && c(
                    old(self).prs@[old(self).pos as int].number->0,
                ) == opt_seq(closer) ==> #[trigger] keeps_outcome(
                    old(self).outcome(t, c),
                    *final(self),
                    step,
                    t,
                    c,
                ),
    {
        let c = match closer {
            Some(c) => c,
            None => {
                return self.advance();
            },
        };
        let pr = &self.prs[self.pos];
        let author: &str = match &pr.author_login {
            Some(a) => a.as_str(),
            None => "",
        };
        proof {
            reveal_strlit("");
        }
        assert(author@ == opt_str(pr.author_login));
        if str_eq(c.as_str(), author) || str_eq(c.as_str(), self.self_login.as_str()) {
            return self.advance();
        }
        let num = match pr.number {
            Some(n) => n,
            None => 0,
        };
        let cv = match &pr.closed_at {
            Some(s) => to_chars(s.as_str()),
            None => Vec::new(),
        };
        assert(cv@ == opt_str(pr.closed_at));
        let bl = match crate::text::byte_len_prefix(&cv, cv.len()) {
            Some(b) => b,
            None => 10,
        };
        assert(cv@.take(cv.len() as int) == cv@);
        let cut: usize = if bl < 10 {
            bl
        } else {
            10
        };
        assert(cut as int == date_cut(cv@));
        let k = match byte_prefix_len(&cv, cut) {
            Some(k) => k,
            None => 0,
        };
        proof {
            let kk = choose|kk: int| is_byte_prefix(cv@, kk, cut as int);
            lemma_byte_prefix_unique(cv@, k as int, kk, cut as int);
        }
        let date = subrange_chars(&cv, 0, k);
        assert(date@ == cv@.take(k as int));
        let mut msg: Vec<char> = vec!['#'];
        append_chars(&mut msg, &u64_to_decimal(num));
        append_chars(&mut msg, &to_chars(" closed by "));
        append_chars(&mut msg, &to_chars(c.as_str()));
        append_chars(&mut msg, &to_chars(" on "));
        append_chars(&mut msg, &date);
        proof {
            reveal_strlit("#");
            assert(seq!['#'] == "#"@);
        }
        let text = from_chars(&msg);
        proof {
            let pr0 = old(self).prs@[old(self).pos as int];
            assert(pr0.number == Some(num));
            assert forall|t: spec_fn(u64) -> bool, cf: spec_fn(u64) -> Option<Seq<char>>|
                t(num) && cf(num) == Some(c@) implies old(self).outcome(t, cf) == Some(text@) by {
                assert(rejecting_closer(pr0, cf(num), old(self).self_login@));
            }
        }
        self.phase = ScanPhase::Finished;
        RejectionStep::Done(Some(text))
    }
}

proof fn lemma_byte_prefix_chars(s: Seq<char>, k: int, n: int)
    requires
        is_byte_prefix(s, k, n),
    ensures
        k <= n,
{
    crate::text::lemma_byte_len_bounds(s.take(k));
}

} // verus!
