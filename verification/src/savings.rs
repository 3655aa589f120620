//! The `enrich-savings` subcommand's logic: which export-ignore paths a PR
//! added, which registry PRs to enrich, and how many bytes the excluded
//! paths weigh in the upstream tree.
use vstd::prelude::*;

use crate::style::{ei_path, ei_path_exec};
use crate::text::{
    contains_chars, lines, opt_chars, opt_to_chars, split_lines, starts_with, starts_with_exec,
    str_eq, strings, strings_from_chars, strip_slashes_chars, strip_slashes_spec, to_chars, views,
    chars_eq, append_chars,
};

verus! {

/// The path a diff line adds with `export-ignore`: a line starting with a
/// single `+` (not a `+++`/`---` header) whose rest is an `export-ignore`
/// entry line.
pub open spec fn added_path(l: Seq<char>) -> Option<Seq<char>> {
    if starts_with(l, "+++"@) || starts_with(l, "---"@) {
        None
    } else if l.len() > 0 && l[0] == '+' {
        ei_path(l.drop_first())
    } else {
        None
    }
}

/// The added paths of a diff, each once, in order of first appearance.
pub open spec fn added_paths(ls: Seq<Seq<char>>) -> Seq<Seq<char>>
    decreases ls.len(),
{
    if ls.len() == 0 {
        seq![]
    } else {
        let pre = added_paths(ls.drop_last());
        match added_path(ls.last()) {
            Some(p) => if pre.contains(p) {
                pre
            } else {
                pre.push(p)
            },
            None => pre,
        }
    }
}

/// A diff line that does not start with `+`, or is a `+++` header, adds no
/// path; one that starts with a single `+` adds the path of the entry line
/// after it, if any.
pub proof fn only_plus_lines_add_paths(l: Seq<char>)
    ensures
        (l.len() == 0 || l[0] != '+') ==> added_path(l) is None,
        (l.len() >= 3 && l[0] == '+' && l[1] == '+' && l[2] == '+') ==> added_path(l) is None,
        (l.len() > 0 && l[0] == '+' && !(l.len() >= 3 && l[1] == '+' && l[2] == '+')) ==> added_path(l)
            == ei_path(l.drop_first()),
{
    reveal_strlit("+++");
    reveal_strlit("---");
    if l.len() >= 3 && l[0] == '+' && l[1] == '+' && l[2] == '+' {
        assert(l.take(3) =~= "+++"@);
    }
    if l.len() > 0 && l[0] == '+' {
        assert(!starts_with(l, "---"@)) by {
            if starts_with(l, "---"@) {
                assert(l[0] == "---"@[0]);
            }
        }
        if !(l.len() >= 3 && l[1] == '+' && l[2] == '+') {
            assert(!starts_with(l, "+++"@)) by {
                if starts_with(l, "+++"@) {
                    assert(l[1] == "+++"@[1] && l[2] == "+++"@[2]);
                }
            }
        }
    }
}

/// Every path read from a diff comes from a line that starts with a single
/// `+` followed by an entry line for that path.
pub proof fn extracted_paths_come_from_added_lines(ls: Seq<Seq<char>>)
    ensures
        forall|j: int|
            0 <= j < added_paths(ls).len() ==> exists|k: int|
                0 <= k < ls.len() && ls[k].len() > 0 && ls[k][0] == '+' && !(ls[k].len() >= 3
                    && ls[k][1] == '+' && ls[k][2] == '+') && #[trigger] added_paths(ls)[j] == ei_path(
                    ls[k].drop_first(),
                )->0 && ei_path(ls[k].drop_first()) is Some,
    decreases ls.len(),
{
    if ls.len() > 0 {
        let pre = ls.drop_last();
        extracted_paths_come_from_added_lines(pre);
        let ap = added_paths(ls);
        let pp = added_paths(pre);
        only_plus_lines_add_paths(ls.last());
        assert forall|j: int| 0 <= j < ap.len() implies exists|k: int|
            0 <= k < ls.len() && ls[k].len() > 0 && ls[k][0] == '+' && !(ls[k].len() >= 3
                && ls[k][1] == '+' && ls[k][2] == '+') && #[trigger] ap[j] == ei_path(ls[k].drop_first())->0
                && ei_path(ls[k].drop_first()) is Some by {
            if j < pp.len() {
                assert(ap[j] == pp[j]);
                let k = choose|k: int|
                    0 <= k < pre.len() && pre[k].len() > 0 && pre[k][0] == '+' && !(pre[k].len() >= 3
                        && pre[k][1] == '+' && pre[k][2] == '+') && #[trigger] pp[j] == ei_path(
                        pre[k].drop_first(),
                    )->0 && ei_path(pre[k].drop_first()) is Some;
                assert(ls[k] == pre[k]);
            } else {
                let n = ls.len() - 1;
                assert(ls[n] == ls.last());
                assert(added_path(ls.last()) is Some);
            }
        }
    }
}

fn added_path_exec(l: &Vec<char>) -> (r: Option<Vec<char>>)
    ensures
        r matches Some(p) ==> added_path(l@) == Some(p@),
        r is None ==> added_path(l@) is None,
{
    if starts_with_exec(l, &to_chars("+++")) || starts_with_exec(l, &to_chars("---")) {
        return None;
    }
    if l.len() > 0 && l[0] == '+' {
        let mut rest = l.clone();
        rest.remove(0);
        assert(rest@ == l@.drop_first());
        ei_path_exec(&rest)
    } else {
        None
    }
}

/// Pure helper that extracts the added-and-export-ignored paths from a unified
/// diff. Lines starting with `+` (excluding the `+++ b/` header) that match
/// `+/?<path>/? export-ignore` are returned, each once.
pub fn extract_added_paths(diff: &str) -> (r: Vec<String>)
    ensures
        strings(r@) == added_paths(lines(diff@)),
{
    let cv = to_chars(diff);
    let ls = split_lines(&cv);
    let ghost dl = views(ls@);
    let mut paths: Vec<Vec<char>> = Vec::new();
    let mut i: usize = 0;
    while i < ls.len()
        invariant
            i <= ls.len(),
            dl == views(ls@),
            dl == lines(diff@),
            views(paths@) == added_paths(dl.take(i as int)),
        decreases ls.len() - i,
    {
        assert(dl.take(i + 1).drop_last() == dl.take(i as int));
        assert(dl.take(i + 1).last() == ls@[i as int]@);
        match added_path_exec(&ls[i]) {
            Some(p) => {
                if !contains_chars(&paths, &p) {
                    let ghost old_p = views(paths@);
                    paths.push(p);
                    assert(views(paths@) =~= old_p.push(added_path(dl[i as int])->0));
                }
            },
            None => {},
        }
        i = i + 1;
    }
    assert(dl.take(ls.len() as int) == dl);
    strings_from_chars(&paths)
}

/// An entry of a recursive git tree listing.
#[derive(Debug, Clone)]
pub struct TreeEntry {
    pub kind: Option<String>,
    pub path: Option<String>,
    pub size: Option<u64>,
}

/// A blob at `norm` or below `norm/`.
pub open spec fn tree_hit(e: TreeEntry, norm: Seq<char>) -> bool {
    &&& opt_chars(e.kind) == "blob"@
    &&& e.kind is Some
    &&& (opt_chars(e.path) == norm || starts_with(opt_chars(e.path), norm + "/"@))
}

/// Total size of the hits (a missing size counts as 0).
pub open spec fn tree_total(es: Seq<TreeEntry>, norm: Seq<char>) -> int
    decreases es.len(),
{
    if es.len() == 0 {
        0
    } else {
        tree_total(es.drop_last(), norm) + if tree_hit(es.last(), norm) {
            match es.last().size {
                Some(n) => n as int,
                None => 0,
            }
        } else {
            0
        }
    }
}

/// Some entry is a hit.
pub open spec fn tree_any(es: Seq<TreeEntry>, norm: Seq<char>) -> bool {
    exists|i: int| 0 <= i < es.len() && tree_hit(#[trigger] es[i], norm)
}

proof fn lemma_tree_total_mono(es: Seq<TreeEntry>, norm: Seq<char>, i: int)
    requires
        0 <= i <= es.len(),
    ensures
        0 <= tree_total(es.take(i), norm) <= tree_total(es, norm),
    decreases es.len() - i,
{
    if i < es.len() {
        lemma_tree_total_mono(es, norm, i + 1);
        assert(es.take(i + 1).drop_last() == es.take(i));
    } else {
        assert(es.take(i) == es);
    }
    lemma_tree_total_nonneg(es.take(i), norm);
}

proof fn lemma_tree_total_nonneg(es: Seq<TreeEntry>, norm: Seq<char>)
    ensures
        0 <= tree_total(es, norm),
    decreases es.len(),
{
    if es.len() > 0 {
        lemma_tree_total_nonneg(es.drop_last(), norm);
    }
}

/// Bytes the tree holds at `path` (slashes around it ignored): the sum of
/// the sizes of the blobs at or below it, or `None` when there is none.
pub fn tree_size(entries: &[TreeEntry], path: &str) -> (r: Option<u64>)
    requires
        tree_total(entries@, strip_slashes_spec(path@)) <= u64::MAX,
    ensures
        tree_any(entries@, strip_slashes_spec(path@)) ==> r == Some(tree_total(entries@, strip_slashes_spec(path@)) as u64),
        !tree_any(entries@, strip_slashes_spec(path@)) ==> r is None,
{
    let norm = strip_slashes_chars(&to_chars(path));
    let mut prefix = norm.clone();
    prefix.push('/');
    proof {
        reveal_strlit("/");
        assert(prefix@ == norm@ + "/"@);
    }
    let blob = to_chars("blob");
    let mut total: u64 = 0;
    let mut hit = false;
    let mut i: usize = 0;
    while i < entries.len()
        invariant
            i <= entries.len(),
            norm@ == strip_slashes_spec(path@),
            prefix@ == norm@ + "/"@,
            blob@ == "blob"@,
            total as int == tree_total(entries@.take(i as int), norm@),
            hit == exists|k: int| 0 <= k < i && tree_hit(#[trigger] entries@[k], norm@),
            tree_total(entries@, norm@) <= u64::MAX,
        decreases entries.len() - i,
    {
        let e = &entries[i];
        assert(entries@.take(i + 1).drop_last() == entries@.take(i as int));
        assert(entries@.take(i + 1).last() == *e);
        proof {
            lemma_tree_total_mono(entries@, norm@, i + 1);
        }
        let kind = opt_to_chars(&e.kind);
        if e.kind.is_some() && chars_eq(&kind, &blob) {
            let ep = opt_to_chars(&e.path);
            if chars_eq(&ep, &norm) || starts_with_exec(&ep, &prefix) {
                let add: u64 = match e.size {
                    Some(n) => n,
                    None => 0,
                };
                total = total + add;
                hit = true;
            }
        }
        i = i + 1;
    }
    assert(entries@.take(entries.len() as int) == entries@);
    if hit {
        Some(total)
    } else {
        None
    }
}

/// Whether the bytes the tree holds at `path` fit in a `u64`, the bound
/// `tree_size` needs.
pub fn tree_total_fits(entries: &[TreeEntry], path: &str) -> (r: bool)
    ensures
        r == (tree_total(entries@, strip_slashes_spec(path@)) <= u64::MAX),
{
    let norm = strip_slashes_chars(&to_chars(path));
    let mut prefix = norm.clone();
    prefix.push('/');
    proof {
        reveal_strlit("/");
        assert(prefix@ == norm@ + "/"@);
    }
    let blob = to_chars("blob");
    let mut total: u64 = 0;
    let mut i: usize = 0;
    while i < entries.len()
        invariant
            i <= entries.len(),
            norm@ == strip_slashes_spec(path@),
            prefix@ == norm@ + "/"@,
            blob@ == "blob"@,
            total as int == tree_total(entries@.take(i as int), norm@),
        decreases entries.len() - i,
    {
        let e = &entries[i];
        assert(entries@.take(i + 1).drop_last() == entries@.take(i as int));
        assert(entries@.take(i + 1).last() == *e);
        let kind = opt_to_chars(&e.kind);
        if e.kind.is_some() && chars_eq(&kind, &blob) {
            let ep = opt_to_chars(&e.path);
            if chars_eq(&ep, &norm) || starts_with_exec(&ep, &prefix) {
                let add: u64 = match e.size {
                    Some(n) => n,
                    None => 0,
                };
                match total.checked_add(add) {
                    Some(t) => {
                        total = t;
                    },
                    None => {
                        proof {
                            lemma_tree_total_mono(entries@, norm@, i + 1);
                        }
                        return false;
                    },
                }
            }
        }
        i = i + 1;
    }
    assert(entries@.take(entries.len() as int) == entries@);
    true
}

/// A PR of the savings registry, as far as the enrichment reads it.
#[derive(Debug, Clone)]
pub struct RegistryPr {
    pub state: Option<String>,
    /// `savings_bytes` is present and not null.
    pub savings_set: bool,
    pub number: Option<u64>,
}

/// The number of a registry PR to enrich: merged, and either not enriched
/// yet or `force` given; `None` when it is to be left alone.
pub open spec fn pr_to_enrich_spec(pr: RegistryPr, force: bool) -> Option<u64> {
    if opt_chars(pr.state) == "MERGED"@ && !(pr.savings_set && !force) {
        pr.number
    } else {
        None
    }
}

pub fn pr_to_enrich(pr: &RegistryPr, force: bool) -> (r: Option<u64>)
    ensures
        r == pr_to_enrich_spec(*pr, force),
{
    let st = opt_to_chars(&pr.state);
    if !chars_eq(&st, &to_chars("MERGED")) {
        return None;
    }
    if pr.savings_set && !force {
        return None;
    }
    pr.number
}

/// A repository entry takes part unless a filter names another one.
pub fn repo_selected(repo: &str, only_repo: Option<&str>) -> (r: bool)
    ensures
        r == match only_repo {
            Some(f) => repo@ == f@,
            None => true,
        },
{
    match only_repo {
        Some(f) => str_eq(repo, f),
        None => true,
    }
}

/// A repository of the savings registry: its `OWNER/REPO` and its PRs.
#[derive(Debug, Clone)]
pub struct RegistryRepo {
    pub repo: String,
    pub prs: Vec<RegistryPr>,
}

/// The PRs of one repository to enrich, as (repository index, PR index,
/// PR number), in order.
pub open spec fn repo_targets(i: int, prs: Seq<RegistryPr>, force: bool) -> Seq<(int, int, u64)>
    decreases prs.len(),
{
    if prs.len() == 0 {
        seq![]
    } else {
        let pre = repo_targets(i, prs.drop_last(), force);
        match pr_to_enrich_spec(prs.last(), force) {
            Some(n) => pre.push((i, prs.len() - 1, n)),
            None => pre,
        }
    }
}

pub open spec fn selected(repo: Seq<char>, only_repo: Option<Seq<char>>) -> bool {
    match only_repo {
        Some(f) => repo == f,
        None => true,
    }
}

/// The PRs of the registry to enrich, in registry order, from the
/// repositories the filter selects.
pub open spec fn all_targets(repos: Seq<RegistryRepo>, force: bool, only_repo: Option<Seq<char>>) -> Seq<
    (int, int, u64),
>
    decreases repos.len(),
{
    if repos.len() == 0 {
        seq![]
    } else {
        let i = repos.len() - 1;
        all_targets(repos.drop_last(), force, only_repo) + if selected(repos[i].repo@, only_repo) {
            repo_targets(i, repos[i].prs@, force)
        } else {
            seq![]
        }
    }
}

/// The enrichment's work: the first `limit` PRs to enrich (all of them
/// when `limit` is 0), each as (repository index, PR index, PR number).
pub open spec fn enrichment_plan_spec(
    repos: Seq<RegistryRepo>,
    force: bool,
    limit: usize,
    only_repo: Option<Seq<char>>,
) -> Seq<(int, int, u64)> {
    let all = all_targets(repos, force, only_repo);
    if limit > 0 && all.len() > limit {
        all.take(limit as int)
    } else {
        all
    }
}

pub open spec fn plan_ints(v: Seq<(usize, usize, u64)>) -> Seq<(int, int, u64)> {
    v.map_values(|t: (usize, usize, u64)| (t.0 as int, t.1 as int, t.2))
}

/// Which PRs to enrich and in which order: merged PRs not enriched yet
/// (or all merged ones with `force`), from the repository `only_repo`
/// names or from all, stopping after `limit` PRs (0 = no limit).
pub fn enrichment_plan(repos: &[RegistryRepo], force: bool, limit: usize, only_repo: Option<&str>) -> (r: Vec<(usize, usize, u64)>)
    ensures
        plan_ints(r@) == enrichment_plan_spec(
            repos@,
            force,
            limit,
            match only_repo {
                Some(f) => Some(f@),
                None => None,
            },
        ),
{
    let ghost only = match only_repo {
        Some(f) => Some(f@),
        None => None,
    };
    let mut out: Vec<(usize, usize, u64)> = Vec::new();
    let mut i: usize = 0;
    while i < repos.len()
        invariant
            i <= repos.len(),
            only == (match only_repo {
                Some(f) => Some(f@),
                None => None,
            }),
            plan_ints(out@) == all_targets(repos@.take(i as int), force, only),
        decreases repos.len() - i,
    {
        let ghost before = plan_ints(out@);
        assert(repos@.take(i + 1).drop_last() =~= repos@.take(i as int));
        assert(repos@.take(i + 1)[i as int] == repos@[i as int]);
        let r = &repos[i];
        if repo_selected(r.repo.as_str(), only_repo) {
            let mut j: usize = 0;
            while j < r.prs.len()
                invariant
                    j <= r.prs.len(),
                    plan_ints(out@) == before + repo_targets(i as int, r.prs@.take(j as int), force),
                decreases r.prs.len() - j,
            {
                assert(r.prs@.take(j + 1).drop_last() =~= r.prs@.take(j as int));
                assert(r.prs@.take(j + 1).last() == r.prs@[j as int]);
                match pr_to_enrich(&r.prs[j], force) {
                    Some(n) => {
                        let ghost o = plan_ints(out@);
                        out.push((i, j, n));
                        assert(plan_ints(out@) =~= o.push((i as int, j as int, n)));
                    },
                    None => {},
                }
                j = j + 1;
            }
            assert(r.prs@.take(r.prs.len() as int) =~= r.prs@);
        } else {
            assert(before + Seq::<(int, int, u64)>::empty() =~= before);
        }
        i = i + 1;
    }
    assert(repos@.take(repos.len() as int) =~= repos@);
    if limit > 0 && out.len() > limit {
        let ghost full = plan_ints(out@);
        out.truncate(limit);
        assert(plan_ints(out@) =~= full.take(limit as int));
    }
    out
}

/// Total bytes and per-path detail from the sizes found for each path
/// (`None` for a path with nothing upstream, which is left out).
pub open spec fn savings_total(sizes: Seq<Option<u64>>) -> int
    decreases sizes.len(),
{
    if sizes.len() == 0 {
        0
    } else {
        savings_total(sizes.drop_last()) + match sizes.last() {
            Some(n) => n as int,
            None => 0,
        }
    }
}

pub open spec fn savings_detail(paths: Seq<Seq<char>>, sizes: Seq<Option<u64>>) -> Seq<(Seq<char>, u64)>
    decreases sizes.len(),
{
    if sizes.len() == 0 {
        seq![]
    } else {
        let i = sizes.len() - 1;
        let pre = savings_detail(paths, sizes.drop_last());
        match sizes.last() {
            Some(n) => pre.push((paths[i], n)),
            None => pre,
        }
    }
}

proof fn lemma_savings_total_mono(sizes: Seq<Option<u64>>, i: int)
    requires
        0 <= i <= sizes.len(),
    ensures
        0 <= savings_total(sizes.take(i)) <= savings_total(sizes),
    decreases sizes.len() - i,
{
    if i < sizes.len() {
        lemma_savings_total_mono(sizes, i + 1);
        assert(sizes.take(i + 1).drop_last() == sizes.take(i));
    } else {
        assert(sizes.take(i) == sizes);
    }
    lemma_savings_total_nonneg(sizes.take(i));
}

proof fn lemma_savings_total_nonneg(sizes: Seq<Option<u64>>)
    ensures
        0 <= savings_total(sizes),
    decreases sizes.len(),
{
    if sizes.len() > 0 {
        lemma_savings_total_nonneg(sizes.drop_last());
    }
}

proof fn lemma_savings_detail_prefix(paths: Seq<Seq<char>>, a: Seq<Seq<char>>, sizes: Seq<Option<u64>>)
    requires
        sizes.len() <= paths.len(),
        sizes.len() <= a.len(),
        forall|k: int| 0 <= k < sizes.len() ==> paths[k] == a[k],
    ensures
        savings_detail(paths, sizes) == savings_detail(a, sizes),
    decreases sizes.len(),
{
    if sizes.len() > 0 {
        lemma_savings_detail_prefix(paths, a, sizes.drop_last());
    }
}

/// `(total, detail)` as written into the registry for one PR.
pub fn savings_summary(paths: &[String], sizes: &[Option<u64>]) -> (r: (u64, Vec<(String, u64)>))
    requires
        paths.len() == sizes.len(),
        savings_total(sizes@) <= u64::MAX,
    ensures
        r.0 == savings_total(sizes@),
        r.1@.map_values(|d: (String, u64)| (d.0@, d.1)) == savings_detail(strings(paths@), sizes@),
{
    let ghost pv = strings(paths@);
    let mut total: u64 = 0;
    let mut detail: Vec<(String, u64)> = Vec::new();
    let mut i: usize = 0;
    while i < sizes.len()
        invariant
            i <= sizes.len(),
            paths.len() == sizes.len(),
            pv == strings(paths@),
            total as int == savings_total(sizes@.take(i as int)),
            detail@.map_values(|d: (String, u64)| (d.0@, d.1)) == savings_detail(pv, sizes@.take(i as int)),
            savings_total(sizes@) <= u64::MAX,
        decreases sizes.len() - i,
    {
        assert(sizes@.take(i + 1).drop_last() == sizes@.take(i as int));
        assert(sizes@.take(i + 1).last() == sizes@[i as int]);
        proof {
            lemma_savings_total_mono(sizes@, i + 1);
        }
        match sizes[i] {
            Some(n) => {
                let ghost old_d = detail@.map_values(|d: (String, u64)| (d.0@, d.1));
                total = total + n;
                detail.push((paths[i].clone(), n));
                assert(detail@.map_values(|d: (String, u64)| (d.0@, d.1)) =~= old_d.push((pv[i as int], n)));
                assert(pv[i as int] == paths@[i as int]@);
            },
            None => {},
        }
        i = i + 1;
    }
    assert(sizes@.take(sizes.len() as int) == sizes@);
    (total, detail)
}


/// The paths read from a diff never repeat.
pub proof fn extracted_paths_distinct(diff: Seq<char>)
    ensures
        added_paths(lines(diff)).no_duplicates(),
{
    lemma_added_paths_distinct(lines(diff));
}

proof fn lemma_added_paths_distinct(ls: Seq<Seq<char>>)
    ensures
        added_paths(ls).no_duplicates(),
    decreases ls.len(),
{
    if ls.len() > 0 {
        lemma_added_paths_distinct(ls.drop_last());
        let pre = added_paths(ls.drop_last());
        match added_path(ls.last()) {
            Some(p) => {
                if !pre.contains(p) {
                    assert forall|a: int, b: int| 0 <= a < b < pre.push(p).len() implies pre.push(p)[a]
                        != pre.push(p)[b] by {
                        if b == pre.len() {
                            assert(pre.contains(pre[a]));
                        }
                    }
                }
            },
            None => {},
        }
    }
}

} // verus!
