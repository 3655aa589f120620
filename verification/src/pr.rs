//! The `run` subcommand's decisions: the PR body, the pacing between opened
//! PRs, and the per-target sequence of checks, git and GitHub work.
use vstd::prelude::*;

use crate::checks::{
    commit_trailer, denylisted_repo, dropped_entries, existence_query, existence_query_spec,
    filter_existing_paths, is_cla_org, kept_entries, org_of, org_prefix, pair_views,
    EntryPair,
};
use crate::config::{Entry, RemoveEntry, SkippedRepo, Target};
use crate::outside::{random_in_range, seeded_rng};
use crate::style::{
    appended_paths_are_excluded, appending_adds_only_entries, apply_entries, apply_entries_spec,
    apply_removals, apply_removals_spec, detect_spec, ei_paths, entry_norm, entry_reads_back,
    removal_adds_no_cr, removal_norms, removed_paths_are_gone, str_views, Style,
};
use crate::text::{
    ascii_lower, byte_len, first_token, first_token_exec, from_chars, lines, str_eq,
    subrange_chars, to_chars,
};

verus! {

pub open spec fn body_intro() -> Seq<char> {
    "This avoids shipping dev/tooling files in the composer dist that aren't needed at runtime.\n\n"@
}

pub open spec fn removals_header() -> Seq<char> {
    "\n### Stale entries to remove\nThese `export-ignore` rules point to files that no longer exist upstream:\n"@
}

pub open spec fn entries_header() -> Seq<char> {
    "\n### Entries to add\nFiles added or modified since the last `.gitattributes` update, still shipped in the composer dist:\n"@
}

pub open spec fn body_outro() -> Seq<char> {
    "\nBackground reading: https://blog.madewithlove.be/post/gitattributes/"@
}

/// `- `<line>` - <reason>` for each removal, one per line.
pub open spec fn removal_items(rs: Seq<(Seq<char>, Seq<char>)>) -> Seq<char>
    decreases rs.len(),
{
    if rs.len() == 0 {
        seq![]
    } else {
        removal_items(rs.drop_last()) + "- `"@ + rs.last().0 + "` - "@ + rs.last().1 + "\n"@
    }
}

/// `- `<line>` - last touched in <ref>` for each entry, one per line.
pub open spec fn entry_items(es: Seq<(Seq<char>, Seq<char>)>) -> Seq<char>
    decreases es.len(),
{
    if es.len() == 0 {
        seq![]
    } else {
        entry_items(es.drop_last()) + "- `"@ + es.last().0 + "` - last touched in "@ + es.last().1 + "\n"@
    }
}

/// The PR body: the motivation, the last `.gitattributes` update, the
/// stale lines to remove and the lines to add (each section only when it
/// has items), and a pointer to background reading.
pub open spec fn pr_body(last_ga: Seq<char>, entries: Seq<(Seq<char>, Seq<char>)>, removals: Seq<(Seq<char>, Seq<char>)>) -> Seq<char> {
    body_intro() + "Last `.gitattributes` update was "@ + last_ga + ".\n"@ + (if removals.len() > 0 {
        removals_header() + removal_items(removals)
    } else {
        seq![]
    }) + (if entries.len() > 0 {
        entries_header() + entry_items(entries)
    } else {
        seq![]
    }) + body_outro()
}

pub open spec fn entry_ref_views(v: Seq<&EntryPair>) -> Seq<(Seq<char>, Seq<char>)> {
    v.map_values(|p: &EntryPair| (p.0@, p.1@))
}

pub open spec fn removal_views(v: Seq<RemoveEntry>) -> Seq<(Seq<char>, Seq<char>)> {
    v.map_values(|r: RemoveEntry| (r.line@, r.reason@))
}

pub fn build_pr_body(last_ga: &str, entries: &[&EntryPair], removals: &[RemoveEntry]) -> (s: String)
    ensures
        s@ == pr_body(last_ga@, entry_ref_views(entries@), removal_views(removals@)),
{
    let ghost ev = entry_ref_views(entries@);
    let ghost rv = removal_views(removals@);
    let mut s = String::from_str(
        "This avoids shipping dev/tooling files in the composer dist that aren't needed at runtime.\n\n",
    );
    s.append("Last `.gitattributes` update was ");
    s.append(last_ga);
    s.append(".\n");
    let ghost head = s@;
    if removals.len() > 0 {
        s.append(
            "\n### Stale entries to remove\nThese `export-ignore` rules point to files that no longer exist upstream:\n",
        );
        let mut i: usize = 0;
        while i < removals.len()
            invariant
                i <= removals.len(),
                rv == removal_views(removals@),
                s@ == head + removals_header() + removal_items(rv.take(i as int)),
            decreases removals.len() - i,
        {
            let r = &removals[i];
            s.append("- `");
            s.append(r.line.as_str());
            s.append("` - ");
            s.append(r.reason.as_str());
            s.append("\n");
            assert(rv.take(i + 1).drop_last() == rv.take(i as int));
            assert(rv.take(i + 1).last() == (r.line@, r.reason@));
            i = i + 1;
        }
        assert(rv.take(removals.len() as int) == rv);
    }
    let ghost mid = s@;
    assert(mid == head + (if rv.len() > 0 {
        removals_header() + removal_items(rv)
    } else {
        seq![]
    }));
    if entries.len() > 0 {
        s.append(
            "\n### Entries to add\nFiles added or modified since the last `.gitattributes` update, still shipped in the composer dist:\n",
        );
        let mut i: usize = 0;
        while i < entries.len()
            invariant
                i <= entries.len(),
                ev == entry_ref_views(entries@),
                s@ == mid + entries_header() + entry_items(ev.take(i as int)),
            decreases entries.len() - i,
        {
            let e = entries[i];
            s.append("- `");
            s.append(e.0.as_str());
            s.append("` - last touched in ");
            s.append(e.1.as_str());
            s.append("\n");
            assert(ev.take(i + 1).drop_last() == ev.take(i as int));
            assert(ev.take(i + 1).last() == (e.0@, e.1@));
            i = i + 1;
        }
        assert(ev.take(entries.len() as int) == ev);
    }
    s.append("\nBackground reading: https://blog.madewithlove.be/post/gitattributes/");
    s
}


/// `part` occurs in `s` at index `k`.
pub open spec fn infix_at(s: Seq<char>, part: Seq<char>, k: int) -> bool {
    0 <= k && k + part.len() <= s.len() && s.subrange(k, k + part.len()) == part
}

pub open spec fn has_infix(s: Seq<char>, part: Seq<char>) -> bool {
    exists|k: int| #[trigger] infix_at(s, part, k)
}

proof fn lemma_infix_extend(a: Seq<char>, b: Seq<char>, c: Seq<char>, part: Seq<char>)
    requires
        has_infix(b, part),
    ensures
        has_infix(a + b + c, part),
{
    let k = choose|k: int| #[trigger] infix_at(b, part, k);
    let s = a + b + c;
    assert(s.subrange(a.len() + k, a.len() + k + part.len()) =~= b.subrange(k, k + part.len()));
    assert(infix_at(s, part, a.len() + k));
}

pub open spec fn entry_item(e: (Seq<char>, Seq<char>)) -> Seq<char> {
    "- `"@ + e.0 + "` - last touched in "@ + e.1 + "\n"@
}

pub open spec fn removal_item(r: (Seq<char>, Seq<char>)) -> Seq<char> {
    "- `"@ + r.0 + "` - "@ + r.1 + "\n"@
}

proof fn lemma_entry_items_cite(es: Seq<(Seq<char>, Seq<char>)>, i: int)
    requires
        0 <= i < es.len(),
    ensures
        has_infix(entry_items(es), entry_item(es[i])),
    decreases es.len(),
{
    let pre = es.drop_last();
    assert(entry_items(es) =~= entry_items(pre) + entry_item(es.last()));
    if i < es.len() - 1 {
        lemma_entry_items_cite(pre, i);
        assert(pre[i] == es[i]);
        lemma_infix_extend(seq![], entry_items(pre), entry_item(es.last()), entry_item(es[i]));
        assert(seq![] + entry_items(pre) + entry_item(es.last()) =~= entry_items(es));
    } else {
        let k = entry_items(pre).len() as int;
        assert(entry_items(es).subrange(k, k + entry_item(es[i]).len()) =~= entry_item(es[i]));
        assert(infix_at(entry_items(es), entry_item(es[i]), k));
    }
}

proof fn lemma_removal_items_cite(rs: Seq<(Seq<char>, Seq<char>)>, i: int)
    requires
        0 <= i < rs.len(),
    ensures
        has_infix(removal_items(rs), removal_item(rs[i])),
    decreases rs.len(),
{
    let pre = rs.drop_last();
    assert(removal_items(rs) =~= removal_items(pre) + removal_item(rs.last()));
    if i < rs.len() - 1 {
        lemma_removal_items_cite(pre, i);
        assert(pre[i] == rs[i]);
        lemma_infix_extend(seq![], removal_items(pre), removal_item(rs.last()), removal_item(rs[i]));
        assert(seq![] + removal_items(pre) + removal_item(rs.last()) =~= removal_items(rs));
    } else {
        let k = removal_items(pre).len() as int;
        assert(removal_items(rs).subrange(k, k + removal_item(rs[i]).len()) =~= removal_item(rs[i]));
        assert(infix_at(removal_items(rs), removal_item(rs[i]), k));
    }
}

proof fn lemma_removal_items_prefix(rs: Seq<(Seq<char>, Seq<char>)>, n: int)
    requires
        0 <= n <= rs.len(),
    ensures
        removal_items(rs.take(n)).len() <= removal_items(rs).len(),
        removal_items(rs).take(removal_items(rs.take(n)).len() as int) == removal_items(rs.take(n)),
    decreases rs.len(),
{
    if n == rs.len() {
        assert(rs.take(n) =~= rs);
        assert(removal_items(rs).take(removal_items(rs).len() as int) =~= removal_items(rs));
    } else {
        let pre = rs.drop_last();
        assert(pre.take(n) =~= rs.take(n));
        lemma_removal_items_prefix(pre, n);
        assert(removal_items(rs) =~= removal_items(pre) + removal_item(rs.last()));
        let a = removal_items(rs.take(n));
        assert(removal_items(rs).take(a.len() as int) =~= removal_items(pre).take(a.len() as int));
    }
}

proof fn lemma_entry_items_prefix(es: Seq<(Seq<char>, Seq<char>)>, n: int)
    requires
        0 <= n <= es.len(),
    ensures
        entry_items(es.take(n)).len() <= entry_items(es).len(),
        entry_items(es).take(entry_items(es.take(n)).len() as int) == entry_items(es.take(n)),
    decreases es.len(),
{
    if n == es.len() {
        assert(es.take(n) =~= es);
        assert(entry_items(es).take(entry_items(es).len() as int) =~= entry_items(es));
    } else {
        let pre = es.drop_last();
        assert(pre.take(n) =~= es.take(n));
        lemma_entry_items_prefix(pre, n);
        assert(entry_items(es) =~= entry_items(pre) + entry_item(es.last()));
        let a = entry_items(es.take(n));
        assert(entry_items(es).take(a.len() as int) =~= entry_items(pre).take(a.len() as int));
    }
}

/// No `#` in a text.
pub open spec fn hash_free(s: Seq<char>) -> bool {
    forall|t: int| 0 <= t < s.len() ==> s[t] != '#'
}

proof fn lemma_hash_free_concat(a: Seq<char>, b: Seq<char>)
    requires
        hash_free(a),
        hash_free(b),
    ensures
        hash_free(a + b),
{
    assert forall|t: int| 0 <= t < (a + b).len() implies (a + b)[t] != '#' by {
        if t < a.len() {
            assert((a + b)[t] == a[t]);
        } else {
            assert((a + b)[t] == b[t - a.len()]);
        }
    }
}

proof fn lemma_items_hash_free(
    rs: Seq<(Seq<char>, Seq<char>)>,
    es: Seq<(Seq<char>, Seq<char>)>,
)
    requires
        forall|i: int| 0 <= i < rs.len() ==> hash_free((#[trigger] rs[i]).0) && hash_free(rs[i].1),
        forall|i: int| 0 <= i < es.len() ==> hash_free((#[trigger] es[i]).0) && hash_free(es[i].1),
    ensures
        hash_free(removal_items(rs)),
        hash_free(entry_items(es)),
    decreases rs.len() + es.len(),
{
    reveal_strlit("- `");
    reveal_strlit("` - ");
    reveal_strlit("` - last touched in ");
    reveal_strlit("\n");
    if rs.len() > 0 {
        let pre = rs.drop_last();
        assert forall|i: int| 0 <= i < pre.len() implies hash_free((#[trigger] pre[i]).0) && hash_free(pre[i].1) by {
            assert(pre[i] == rs[i]);
        }
        lemma_items_hash_free(pre, seq![]);
        let r = rs.last();
        assert(hash_free(r.0) && hash_free(r.1));
        assert(hash_free("- `"@));
        assert(hash_free("` - "@));
        assert(hash_free("\n"@));
        lemma_hash_free_concat(removal_items(pre), "- `"@);
        lemma_hash_free_concat(removal_items(pre) + "- `"@, r.0);
        lemma_hash_free_concat(removal_items(pre) + "- `"@ + r.0, "` - "@);
        lemma_hash_free_concat(removal_items(pre) + "- `"@ + r.0 + "` - "@, r.1);
        lemma_hash_free_concat(removal_items(pre) + "- `"@ + r.0 + "` - "@ + r.1, "\n"@);
    } else {
        assert(hash_free(removal_items(rs)));
    }
    if es.len() > 0 {
        let pre = es.drop_last();
        assert forall|i: int| 0 <= i < pre.len() implies hash_free((#[trigger] pre[i]).0) && hash_free(pre[i].1) by {
            assert(pre[i] == es[i]);
        }
        lemma_items_hash_free(seq![], pre);
        let e = es.last();
        assert(hash_free(e.0) && hash_free(e.1));
        assert(hash_free("- `"@));
        assert(hash_free("` - last touched in "@));
        assert(hash_free("\n"@));
        lemma_hash_free_concat(entry_items(pre), "- `"@);
        lemma_hash_free_concat(entry_items(pre) + "- `"@, e.0);
        lemma_hash_free_concat(entry_items(pre) + "- `"@ + e.0, "` - last touched in "@);
        lemma_hash_free_concat(entry_items(pre) + "- `"@ + e.0 + "` - last touched in "@, e.1);
        lemma_hash_free_concat(entry_items(pre) + "- `"@ + e.0 + "` - last touched in "@ + e.1, "\n"@);
    } else {
        assert(hash_free(entry_items(es)));
    }
}

/// Where the body starts its stale-line section, and where the `i`-th
/// stale line's item stands in it; only `#`-free text lies between.
proof fn lemma_removal_in_section(
    last_ga: Seq<char>,
    entries: Seq<(Seq<char>, Seq<char>)>,
    removals: Seq<(Seq<char>, Seq<char>)>,
    i: int,
) -> (hk: (int, int))
    requires
        0 <= i < removals.len(),
        forall|q: int| 0 <= q < removals.len() ==> hash_free((#[trigger] removals[q]).0) && hash_free(removals[q].1),
    ensures
        hk.0 + 27 <= hk.1,
        infix_at(pr_body(last_ga, entries, removals), "### Stale entries to remove"@, hk.0),
        infix_at(pr_body(last_ga, entries, removals), "- `"@ + removals[i].0 + "` - "@ + removals[i].1 + "\n"@, hk.1),
        forall|t: int| hk.0 + 3 <= t < hk.1 ==> pr_body(last_ga, entries, removals)[t] != '#',
{
    reveal_strlit("\n### Stale entries to remove\nThese `export-ignore` rules point to files that no longer exist upstream:\n");
    reveal_strlit("### Stale entries to remove");
    let body = pr_body(last_ga, entries, removals);
    let head = body_intro() + "Last `.gitattributes` update was "@ + last_ga + ".\n"@;
    let rh = removals_header();
    let rpart = rh + removal_items(removals);
    let epart = if entries.len() > 0 {
        entries_header() + entry_items(entries)
    } else {
        seq![]
    };
    assert(body =~= head + rpart + epart + body_outro());
    assert(rh.subrange(1, 28) =~= "### Stale entries to remove"@);
    assert(hash_free(rh.skip(4)));
    let item = "- `"@ + removals[i].0 + "` - "@ + removals[i].1 + "\n"@;
    let before = removal_items(removals.take(i));
    lemma_removal_items_prefix(removals, i + 1);
    assert(removals.take(i + 1).drop_last() =~= removals.take(i));
    assert(removal_items(removals.take(i + 1)) =~= before + item);
    let h: int = head.len() as int + 1;
    let k: int = head.len() + rh.len() + before.len() as int;
    assert(body.subrange(h, h + 27) =~= "### Stale entries to remove"@);
    assert(body.subrange(k, k + item.len()) =~= item) by {
        assert(removal_items(removals).take((before + item).len() as int) == before + item);
        assert forall|t: int| 0 <= t < item.len() implies body[k + t] == item[t] by {
            assert(body[k + t] == rpart[rh.len() + before.len() + t]);
            assert(rpart[rh.len() + before.len() + t] == removal_items(removals)[before.len() + t]);
            assert(removal_items(removals)[before.len() + t] == (before + item)[before.len() + t]);
        }
    }
    assert forall|q: int| 0 <= q < removals.take(i).len() implies hash_free((#[trigger] removals.take(i)[q]).0) && hash_free(removals.take(i)[q].1) by {
        assert(removals.take(i)[q] == removals[q]);
    }
    lemma_items_hash_free(removals.take(i), seq![]);
    assert forall|t: int| h + 3 <= t < k implies body[t] != '#' by {
        if t < head.len() + rh.len() {
            assert(body[t] == rh[t - head.len()]);
            assert(rh[t - head.len()] == rh.skip(4)[t - head.len() - 4]);
        } else {
            let u = t - head.len() - rh.len();
            assert(body[t] == rpart[rh.len() + u]);
            assert(rpart[rh.len() + u] == removal_items(removals)[u]);
            assert(removal_items(removals)[u] == (before + item)[u]);
            assert((before + item)[u] == before[u]);
        }
    }
    (h, k)
}

/// Where the body starts its section of entries to add, and where the
/// `i`-th entry's item stands in it; only `#`-free text lies between.
proof fn lemma_entry_in_section(
    last_ga: Seq<char>,
    entries: Seq<(Seq<char>, Seq<char>)>,
    removals: Seq<(Seq<char>, Seq<char>)>,
    i: int,
) -> (hk: (int, int))
    requires
        0 <= i < entries.len(),
        forall|q: int| 0 <= q < entries.len() ==> hash_free((#[trigger] entries[q]).0) && hash_free(entries[q].1),
    ensures
        hk.0 + 18 <= hk.1,
        infix_at(pr_body(last_ga, entries, removals), "### Entries to add"@, hk.0),
        infix_at(pr_body(last_ga, entries, removals), "- `"@ + entries[i].0 + "` - last touched in "@ + entries[i].1 + "\n"@, hk.1),
        forall|t: int| hk.0 + 3 <= t < hk.1 ==> pr_body(last_ga, entries, removals)[t] != '#',
{
    reveal_strlit("\n### Entries to add\nFiles added or modified since the last `.gitattributes` update, still shipped in the composer dist:\n");
    reveal_strlit("### Entries to add");
    let body = pr_body(last_ga, entries, removals);
    let head = body_intro() + "Last `.gitattributes` update was "@ + last_ga + ".\n"@;
    let rpart = if removals.len() > 0 {
        removals_header() + removal_items(removals)
    } else {
        seq![]
    };
    let eh = entries_header();
    let epart = eh + entry_items(entries);
    assert(body =~= head + rpart + epart + body_outro());
    assert(eh.subrange(1, 19) =~= "### Entries to add"@);
    assert(hash_free(eh.skip(4)));
    let item = "- `"@ + entries[i].0 + "` - last touched in "@ + entries[i].1 + "\n"@;
    let before = entry_items(entries.take(i));
    lemma_entry_items_prefix(entries, i + 1);
    assert(entries.take(i + 1).drop_last() =~= entries.take(i));
    assert(entry_items(entries.take(i + 1)) =~= before + item);
    let base: int = head.len() + rpart.len() as int;
    let h: int = base + 1;
    let k: int = base + eh.len() + before.len();
    assert(body.subrange(h, h + 18) =~= "### Entries to add"@);
    assert(body.subrange(k, k + item.len()) =~= item) by {
        assert(entry_items(entries).take((before + item).len() as int) == before + item);
        assert forall|t: int| 0 <= t < item.len() implies body[k + t] == item[t] by {
            assert(body[k + t] == epart[eh.len() + before.len() + t]);
            assert(epart[eh.len() + before.len() + t] == entry_items(entries)[before.len() + t]);
            assert(entry_items(entries)[before.len() + t] == (before + item)[before.len() + t]);
        }
    }
    assert forall|q: int| 0 <= q < entries.take(i).len() implies hash_free((#[trigger] entries.take(i)[q]).0) && hash_free(entries.take(i)[q].1) by {
        assert(entries.take(i)[q] == entries[q]);
    }
    lemma_items_hash_free(seq![], entries.take(i));
    assert forall|t: int| h + 3 <= t < k implies body[t] != '#' by {
        if t < base + eh.len() {
            assert(body[t] == eh[t - base]);
            assert(eh[t - base] == eh.skip(4)[t - base - 4]);
        } else {
            let u = t - base - eh.len();
            assert(body[t] == epart[eh.len() + u]);
            assert(epart[eh.len() + u] == entry_items(entries)[u]);
            assert(entry_items(entries)[u] == (before + item)[u]);
            assert((before + item)[u] == before[u]);
        }
    }
    (h, k)
}

/// `item` occurs in `s` after `heading`, with no `#` between the
/// heading's leading hashes and the item: no other heading comes between.
pub open spec fn under_heading(s: Seq<char>, heading: Seq<char>, item: Seq<char>) -> bool {
    exists|h: int, k: int|
        #![trigger infix_at(s, heading, h), infix_at(s, item, k)]
        h + heading.len() <= k && infix_at(s, heading, h) && infix_at(s, item, k) && forall|t: int|
            h + 3 <= t < k ==> s[t] != '#'
}

/// The PR body puts every stale line under "### Stale entries to remove"
/// and every entry under "### Entries to add": each item occurs after its
/// section's heading, with no other heading (no `#` at all) in between.
/// Stated for texts without `#`.
pub proof fn body_items_sit_in_their_sections(
    last_ga: Seq<char>,
    entries: Seq<(Seq<char>, Seq<char>)>,
    removals: Seq<(Seq<char>, Seq<char>)>,
)
    requires
        hash_free(last_ga),
        forall|i: int| 0 <= i < removals.len() ==> hash_free((#[trigger] removals[i]).0) && hash_free(removals[i].1),
        forall|i: int| 0 <= i < entries.len() ==> hash_free((#[trigger] entries[i]).0) && hash_free(entries[i].1),
    ensures
        forall|i: int|
            0 <= i < removals.len() ==> under_heading(
                pr_body(last_ga, entries, removals),
                "### Stale entries to remove"@,
                "- `"@ + (#[trigger] removals[i]).0 + "` - "@ + removals[i].1 + "\n"@,
            ),
        forall|i: int|
            0 <= i < entries.len() ==> under_heading(
                pr_body(last_ga, entries, removals),
                "### Entries to add"@,
                "- `"@ + (#[trigger] entries[i]).0 + "` - last touched in "@ + entries[i].1 + "\n"@,
            ),
{
    reveal_strlit("### Stale entries to remove");
    reveal_strlit("### Entries to add");
    assert forall|i: int| 0 <= i < removals.len() implies under_heading(
        pr_body(last_ga, entries, removals),
        "### Stale entries to remove"@,
        "- `"@ + (#[trigger] removals[i]).0 + "` - "@ + removals[i].1 + "\n"@,
    ) by {
        let hk = lemma_removal_in_section(last_ga, entries, removals, i);
        assert(infix_at(pr_body(last_ga, entries, removals), "### Stale entries to remove"@, hk.0));
        assert(infix_at(pr_body(last_ga, entries, removals), "- `"@ + removals[i].0 + "` - "@ + removals[i].1 + "\n"@, hk.1));
    }
    assert forall|i: int| 0 <= i < entries.len() implies under_heading(
        pr_body(last_ga, entries, removals),
        "### Entries to add"@,
        "- `"@ + (#[trigger] entries[i]).0 + "` - last touched in "@ + entries[i].1 + "\n"@,
    ) by {
        let hk = lemma_entry_in_section(last_ga, entries, removals, i);
        assert(infix_at(pr_body(last_ga, entries, removals), "### Entries to add"@, hk.0));
        assert(infix_at(pr_body(last_ga, entries, removals), "- `"@ + entries[i].0 + "` - last touched in "@ + entries[i].1 + "\n"@, hk.1));
    }
}

/// The PR body cites the last `.gitattributes` change, every entry with
/// the commit that last touched it, and every stale line with the reason
/// for its removal, each on a line of its own.
pub proof fn body_cites_everything(
    last_ga: Seq<char>,
    entries: Seq<(Seq<char>, Seq<char>)>,
    removals: Seq<(Seq<char>, Seq<char>)>,
)
    ensures
        has_infix(pr_body(last_ga, entries, removals), "Last `.gitattributes` update was "@ + last_ga + ".\n"@),
        forall|i: int| 0 <= i < entries.len() ==> has_infix(pr_body(last_ga, entries, removals), entry_item(#[trigger] entries[i])),
        forall|i: int| 0 <= i < removals.len() ==> has_infix(pr_body(last_ga, entries, removals), removal_item(#[trigger] removals[i])),
{
    let head = "Last `.gitattributes` update was "@ + last_ga + ".\n"@;
    let rpart = if removals.len() > 0 {
        removals_header() + removal_items(removals)
    } else {
        seq![]
    };
    let epart = if entries.len() > 0 {
        entries_header() + entry_items(entries)
    } else {
        seq![]
    };
    let body = pr_body(last_ga, entries, removals);
    assert(body =~= body_intro() + head + (rpart + epart + body_outro()));
    assert(infix_at(head, head, 0)) by {
        assert(head.subrange(0, head.len() as int) =~= head);
    }
    lemma_infix_extend(body_intro(), head, rpart + epart + body_outro(), head);
    assert forall|i: int| 0 <= i < entries.len() implies has_infix(body, entry_item(#[trigger] entries[i])) by {
        lemma_entry_items_cite(entries, i);
        lemma_infix_extend(body_intro() + head + rpart + entries_header(), entry_items(entries), body_outro(), entry_item(entries[i]));
        assert(body_intro() + head + rpart + entries_header() + entry_items(entries) + body_outro() =~= body);
    }
    assert forall|i: int| 0 <= i < removals.len() implies has_infix(body, removal_item(#[trigger] removals[i])) by {
        lemma_removal_items_cite(removals, i);
        lemma_infix_extend(body_intro() + head + removals_header(), removal_items(removals), epart + body_outro(), removal_item(removals[i]));
        assert(body_intro() + head + removals_header() + removal_items(removals) + (epart + body_outro()) =~= body);
    }
}

// ---------------------------------------------------------------------------
// One target, step by step
// ---------------------------------------------------------------------------

/// How the work on one target ended.
#[derive(Debug, Clone)]
pub enum Outcome {
    /// A PR was opened; its URL.
    Opened(String),
    /// Nothing was done, for the reason given.
    Skipped(String),
    /// Dry run: the plan was shown, nothing was changed.
    DryRun,
}

/// How many years back the rejection-history check looks.
pub const REJECTION_WINDOW_YEARS: i32 = 5;

/// What the application is to do next for the target, and which method
/// of `TargetRun` takes the answer.
#[derive(Debug)]
pub enum TargetAction {
    /// Count the PRs already opened from the campaign branch
    /// (`on_pr_count`).
    CountPrs,
    /// Run the rejection-history scan over that many years
    /// (`on_rejection`).
    CheckRejection { max_age_years: i32 },
    /// Ask upstream whether each entry's path exists, with the given
    /// contents query per entry (`None`: no question, the entry is new);
    /// answer with `on_existence`.
    ProbeUpstream { queries: Vec<Option<String>> },
    /// Make sure the fork (named `fork_name`) and its local clone exist,
    /// check out the campaign branch from upstream, then read
    /// `.gitattributes` unless the target creates it (`on_content`).
    PrepareWorkspace { fork_name: String },
    /// Write `content` to `.gitattributes`, commit it with `message`, push
    /// and open the PR with the body (`on_published`).
    Publish { content: String, message: String },
    /// Nothing left to do.
    Finish(Outcome),
}

#[derive(Debug, Clone, Copy, PartialEq, Eq, Structural)]
pub enum TargetPhase {
    PrCount,
    Rejection,
    Upstream,
    Workspace,
    Publish,
    Done,
}

/// The state of the work on one target.
pub struct TargetRun {
    pub target: Target,
    pub pr_title: String,
    /// The commit trailer for CLA-protected organisations.
    pub plain_trailer: String,
    /// The commit trailer for every other repository.
    pub coauthor_trailer: String,
    /// `false` for a dry run.
    pub go: bool,
    pub phase: TargetPhase,
    /// The entries that passed the upstream check.
    pub kept: Vec<EntryPair>,
    /// The entries whose path is gone upstream.
    pub dropped: Vec<EntryPair>,
    /// The PR body, once the entries are known.
    pub body: String,
}

pub open spec fn entry_views(es: Seq<Entry>) -> Seq<(Seq<char>, Seq<char>)> {
    es.map_values(|e: Entry| (e.line@, e.reference@))
}

/// The last `.gitattributes` change as cited in the PR body.
pub open spec fn last_ga_text(r: Option<String>) -> Seq<char> {
    match r {
        Some(s) => s@,
        None => "N/A"@,
    }
}

/// The paths named by the stale lines: each line's first token.
pub open spec fn removal_tokens(rs: Seq<RemoveEntry>) -> Seq<Seq<char>> {
    rs.map_values(|r: RemoveEntry| first_token(r.line@))
}

pub open spec fn opt_view(o: Option<String>) -> Option<Seq<char>> {
    match o {
        Some(s) => Some(s@),
        None => None,
    }
}

pub open spec fn pair_lines(ps: Seq<(Seq<char>, Seq<char>)>) -> Seq<Seq<char>> {
    ps.map_values(|p: (Seq<char>, Seq<char>)| p.0)
}

/// The `.gitattributes` to start from: empty when it is to be created or
/// is missing.
pub open spec fn start_content(create: bool, existing: Option<Seq<char>>) -> Seq<char> {
    match existing {
        Some(c) => if create {
            seq![]
        } else {
            c
        },
        None => seq![],
    }
}

/// The style to keep: the detected one of an existing file, none else.
pub open spec fn start_style(create: bool, existing: Option<Seq<char>>) -> Style {
    match existing {
        Some(c) => if create {
            Style { sorted: false, align_col: 0 }
        } else {
            detect_spec(c)
        },
        None => Style { sorted: false, align_col: 0 },
    }
}

/// The new `.gitattributes`: the stale lines removed first, then the kept
/// entries appended in the file's style.
pub open spec fn planned_content(
    t: Target,
    kept: Seq<(Seq<char>, Seq<char>)>,
    existing: Option<Seq<char>>,
) -> Seq<char> {
    apply_entries_spec(
        apply_removals_spec(start_content(t.create, existing), removal_tokens(t.remove@)),
        pair_lines(kept),
        start_style(t.create, existing),
    )
}

/// The file a target's PR writes excludes the path of every kept entry,
/// and none of the stale paths unless a kept entry names it again. Stated
/// for entries whose written line reads back as their own path, and for
/// files and entries without carriage returns and entries without
/// newlines.
pub proof fn planned_file_excludes_entries_not_stale(
    t: Target,
    kept: Seq<(Seq<char>, Seq<char>)>,
    existing: Option<Seq<char>>,
)
    requires
        !start_content(t.create, existing).contains('\r'),
        forall|i: int|
            0 <= i < kept.len() ==> !(#[trigger] kept[i]).0.contains('\r') && !kept[i].0.contains('\n')
                && entry_reads_back(kept[i].0, start_style(t.create, existing).align_col as nat),
    ensures
        forall|i: int|
            0 <= i < kept.len() ==> ei_paths(lines(planned_content(t, kept, existing))).contains(
                entry_norm((#[trigger] kept[i]).0),
            ),
        forall|n: Seq<char>|
            #[trigger] removal_norms(removal_tokens(t.remove@)).contains(n) && !pair_lines(kept).map_values(
                |e: Seq<char>| entry_norm(e),
            ).contains(n) ==> !ei_paths(lines(planned_content(t, kept, existing))).contains(n),
{
    let start = start_content(t.create, existing);
    let style = start_style(t.create, existing);
    let tokens = removal_tokens(t.remove@);
    let after = apply_removals_spec(start, tokens);
    let ls = pair_lines(kept);
    let result = planned_content(t, kept, existing);
    removal_adds_no_cr(start, tokens);
    assert forall|i: int| 0 <= i < ls.len() implies !(#[trigger] ls[i]).contains('\r') && !ls[i].contains('\n')
        && entry_reads_back(ls[i], style.align_col as nat) by {
        assert(ls[i] == kept[i].0);
    }
    appended_paths_are_excluded(after, ls, style);
    assert forall|i: int| 0 <= i < kept.len() implies ei_paths(lines(result)).contains(
        entry_norm((#[trigger] kept[i]).0),
    ) by {
        assert(ls[i] == kept[i].0);
    }
    appending_adds_only_entries(after, ls, style);
    assert forall|n: Seq<char>|
        #[trigger] removal_norms(tokens).contains(n) && !ls.map_values(|e: Seq<char>| entry_norm(e)).contains(n)
        implies !ei_paths(lines(result)).contains(n) by {
        removed_paths_are_gone(start, tokens);
        if ei_paths(lines(result)).contains(n) {
            let k = choose|k: int| 0 <= k < ei_paths(lines(result)).len() && ei_paths(lines(result))[k] == n;
            assert(ei_paths(lines(after)).contains(n));
            let j = choose|j: int| 0 <= j < ei_paths(lines(after)).len() && ei_paths(lines(after))[j] == n;
            assert(!removal_norms(tokens).contains(ei_paths(lines(after))[j]));
        }
    }
}

/// The reason of the first skip-list entry for `repo`, if any.
pub open spec fn skip_list_reason(repo: Seq<char>, skipped: Seq<SkippedRepo>) -> Option<Seq<char>>
    decreases skipped.len(),
{
    if skipped.len() == 0 {
        None
    } else if skipped[0].repo@ == repo {
        Some(skipped[0].reason@)
    } else {
        skip_list_reason(repo, skipped.drop_first())
    }
}

/// Why a target is left alone before any GitHub work: the repository is on
/// the static denylist, or on the campaign's skip list.
pub open spec fn skip_reason(repo: Seq<char>, skipped: Seq<SkippedRepo>) -> Option<Seq<char>> {
    if ascii_lower(repo) == "mockery/mockery"@ {
        Some("denylisted: "@ + "maintainer pushed back on our prior cleanup changes"@)
    } else {
        match skip_list_reason(repo, skipped) {
            Some(r) => Some("on the skip list: "@ + r),
            None => None,
        }
    }
}

/// The reason to leave `repo` alone, if it is denylisted or skip-listed.
pub fn target_skip_reason(repo: &str, skipped: &[SkippedRepo]) -> (r: Option<String>)
    ensures
        opt_view(r) == skip_reason(repo@, skipped@),
{
    match denylisted_repo(repo) {
        Some(why) => {
            let mut s = String::from_str("denylisted: ");
            s.append(why);
            assert(ascii_lower(repo@) == "mockery/mockery"@);
            assert(s@ == "denylisted: "@ + "maintainer pushed back on our prior cleanup changes"@);
            return Some(s);
        },
        None => {},
    }
    let mut i: usize = 0;
    assert(skipped@.skip(0) =~= skipped@);
    while i < skipped.len()
        invariant
            i <= skipped.len(),
            ascii_lower(repo@) != "mockery/mockery"@,
            skip_list_reason(repo@, skipped@) == skip_list_reason(repo@, skipped@.skip(i as int)),
        decreases skipped.len() - i,
    {
        assert(skipped@.skip(i as int)[0] == skipped@[i as int]);
        assert(skipped@.skip(i as int).drop_first() =~= skipped@.skip(i + 1));
        if str_eq(skipped[i].repo.as_str(), repo) {
            let mut s = String::from_str("on the skip list: ");
            s.append(skipped[i].reason.as_str());
            return Some(s);
        }
        i = i + 1;
    }
    assert(skipped@.skip(i as int).len() == 0);
    None
}

/// The trailer for `repo`: the plain attribution for CLA-protected
/// organisations, the co-author line for the others.
pub open spec fn trailer_for(repo: Seq<char>, plain: Seq<char>, coauthor: Seq<char>) -> Seq<char> {
    if is_cla_org(ascii_lower(org_of(repo))) {
        plain
    } else {
        coauthor
    }
}

/// The commit message: the PR title, the body and the trailer, separated
/// by blank lines.
pub open spec fn commit_message(title: Seq<char>, body: Seq<char>, trailer: Seq<char>) -> Seq<char> {
    title + "\n\n"@ + body + "\n\n"@ + trailer
}

/// The repository name of the fork: what follows the first `/` of
/// `OWNER/REPO`, or all of it when there is no `/`.
pub open spec fn fork_name_spec(repo: Seq<char>) -> Seq<char> {
    if org_of(repo).len() < repo.len() {
        repo.skip(org_of(repo).len() + 1int)
    } else {
        repo
    }
}

pub fn fork_name(repo: &str) -> (r: String)
    ensures
        r@ == fork_name_spec(repo@),
{
    let rv = to_chars(repo);
    let org = org_prefix(&rv);
    if org.len() < rv.len() {
        from_chars(&subrange_chars(&rv, org.len() + 1, rv.len()))
    } else {
        String::from_str(repo)
    }
}

/// `git@github.com:<login>/<fork>.git`, the fork to clone.
pub fn fork_clone_url(user_login: &str, fork: &str) -> (r: String)
    ensures
        r@ == "git@github.com:"@ + user_login@ + "/"@ + fork@ + ".git"@,
{
    let mut s = String::from_str("git@github.com:");
    s.append(user_login);
    s.append("/");
    s.append(fork);
    s.append(".git");
    s
}

/// `git@github.com:<OWNER/REPO>.git`, the upstream remote.
pub fn upstream_url(repo: &str) -> (r: String)
    ensures
        r@ == "git@github.com:"@ + repo@ + ".git"@,
{
    let mut s = String::from_str("git@github.com:");
    s.append(repo);
    s.append(".git");
    s
}

/// `<login>:<branch>`, the head of the PR.
pub fn pr_head(user_login: &str, branch: &str) -> (r: String)
    ensures
        r@ == user_login@ + ":"@ + branch@,
{
    let mut s = String::from_str(user_login);
    s.append(":");
    s.append(branch);
    s
}

/// `upstream/<branch>`, where the campaign branch starts.
pub fn upstream_start(branch: &str) -> (r: String)
    ensures
        r@ == "upstream/"@ + branch@,
{
    let mut s = String::from_str("upstream/");
    s.append(branch);
    s
}

fn skipped(reason: &str) -> (a: TargetAction)
    ensures
        a matches TargetAction::Finish(Outcome::Skipped(s)) && s@ == reason@,
{
    TargetAction::Finish(Outcome::Skipped(String::from_str(reason)))
}

impl TargetRun {
    /// Starts the work on `target`: first the count of existing PRs.
    pub fn new(
        target: Target,
        pr_title: String,
        plain_trailer: String,
        coauthor_trailer: String,
        skipped: &[SkippedRepo],
        go: bool,
    ) -> (r: (TargetRun, TargetAction))
        ensures
            r.0.target == target,
            r.0.pr_title == pr_title,
            r.0.plain_trailer == plain_trailer,
            r.0.coauthor_trailer == coauthor_trailer,
            r.0.go == go,
            match skip_reason(target.repo@, skipped@) {
                Some(m) => r.0.phase == TargetPhase::Done
                    && (r.1 matches TargetAction::Finish(Outcome::Skipped(s)) && s@ == m),
                None => r.0.phase == TargetPhase::PrCount && r.1 is CountPrs,
            },
    {
        let reason = target_skip_reason(target.repo.as_str(), skipped);
        let phase = if reason.is_some() {
            TargetPhase::Done
        } else {
            TargetPhase::PrCount
        };
        let run = TargetRun {
            target,
            pr_title,
            plain_trailer,
            coauthor_trailer,
            go,
            phase,
            kept: Vec::new(),
            dropped: Vec::new(),
            body: String::new(),
        };
        match reason {
            Some(m) => (run, TargetAction::Finish(Outcome::Skipped(m))),
            None => (run, TargetAction::CountPrs),
        }
    }

    /// `n` PRs exist from the campaign branch: one is enough to skip.
    pub fn on_pr_count(&mut self, n: u64) -> (a: TargetAction)
        requires
            old(self).phase == TargetPhase::PrCount,
        ensures
            final(self).target == old(self).target,
            final(self).pr_title == old(self).pr_title,
            final(self).go == old(self).go,
            n >= 1 ==> final(self).phase == TargetPhase::Done
                && (a matches TargetAction::Finish(Outcome::Skipped(s)) && s@ == "PR already exists"@),
            n == 0 ==> final(self).phase == TargetPhase::Rejection
                && (a matches TargetAction::CheckRejection { max_age_years } && max_age_years == 5),
    {
        if n >= 1 {
            self.phase = TargetPhase::Done;
            skipped("PR already exists")
        } else {
            self.phase = TargetPhase::Rejection;
            TargetAction::CheckRejection { max_age_years: REJECTION_WINDOW_YEARS }
        }
    }

    /// The rejection scan's finding, if any, skips the target.
    pub fn on_rejection(&mut self, reason: Option<String>) -> (a: TargetAction)
        requires
            old(self).phase == TargetPhase::Rejection,
        ensures
            final(self).target == old(self).target,
            final(self).pr_title == old(self).pr_title,
            final(self).go == old(self).go,
            reason matches Some(r) ==> final(self).phase == TargetPhase::Done
                && (a matches TargetAction::Finish(Outcome::Skipped(s))
                && s@ == "rejection history: "@ + r@),
            reason is None ==> final(self).phase == TargetPhase::Upstream
                && (a matches TargetAction::ProbeUpstream { queries }
                && queries.len() == old(self).target.entries.len()
                && forall|i: int| 0 <= i < queries.len() ==> {
                    let e = #[trigger] old(self).target.entries@[i];
                    let q = existence_query_spec(
                        old(self).target.repo@,
                        old(self).target.branch@,
                        e.line@,
                        e.reference@,
                    );
                    match queries@[i] {
                        Some(x) => q == Some(x@),
                        None => q is None,
                    }
                }),
    {
        match reason {
            Some(r) => {
                self.phase = TargetPhase::Done;
                let mut s = String::from_str("rejection history: ");
                s.append(r.as_str());
                TargetAction::Finish(Outcome::Skipped(s))
            },
            None => {
                let mut queries: Vec<Option<String>> = Vec::new();
                let mut i: usize = 0;
                while i < self.target.entries.len()
                    invariant
                        i <= self.target.entries.len(),
                        queries.len() == i,
                        forall|k: int| 0 <= k < i ==> {
                            let e = #[trigger] self.target.entries@[k];
                            let q = existence_query_spec(
                                self.target.repo@,
                                self.target.branch@,
                                e.line@,
                                e.reference@,
                            );
                            match queries@[k] {
                                Some(x) => q == Some(x@),
                                None => q is None,
                            }
                        },
                    decreases self.target.entries.len() - i,
                {
                    let e = &self.target.entries[i];
                    let pair = (e.line.clone(), e.reference.clone());
                    let q = existence_query(self.target.repo.as_str(), self.target.branch.as_str(), &pair);
                    queries.push(q);
                    i = i + 1;
                }
                self.phase = TargetPhase::Upstream;
                TargetAction::ProbeUpstream { queries }
            },
        }
    }

    /// `exists[i]` answers the query for entry `i`. The entries that pass
    /// decide the rest: none left skips the target; otherwise the PR body
    /// is built, and a dry run ends here.
    pub fn on_existence(&mut self, exists: &[bool]) -> (a: TargetAction)
        requires
            old(self).phase == TargetPhase::Upstream,
            exists.len() == old(self).target.entries.len(),
        ensures
            final(self).target == old(self).target,
            final(self).pr_title == old(self).pr_title,
            final(self).go == old(self).go,
            pair_views(final(self).kept@) == kept_entries(entry_views(old(self).target.entries@), exists@),
            pair_views(final(self).dropped@) == dropped_entries(entry_views(old(self).target.entries@), exists@),
            final(self).kept.len() == 0 ==> final(self).phase == TargetPhase::Done
                && (a matches TargetAction::Finish(Outcome::Skipped(s))
                && s@ == "nothing remains after upstream check"@),
            final(self).kept.len() > 0 ==> final(self).body@ == pr_body(
                last_ga_text(old(self).target.last_gitattributes_ref),
                pair_views(final(self).kept@),
                removal_views(old(self).target.remove@),
            ),
            final(self).kept.len() > 0 && !old(self).go ==> final(self).phase == TargetPhase::Done
                && a matches TargetAction::Finish(Outcome::DryRun),
            final(self).kept.len() > 0 && old(self).go ==> final(self).phase == TargetPhase::Workspace
                && (a matches TargetAction::PrepareWorkspace { fork_name }
                && fork_name@ == fork_name_spec(old(self).target.repo@)),
    {
        let ghost ev = entry_views(self.target.entries@);
        let mut pairs: Vec<EntryPair> = Vec::new();
        let mut i: usize = 0;
        while i < self.target.entries.len()
            invariant
                i <= self.target.entries.len(),
                ev == entry_views(self.target.entries@),
                pair_views(pairs@) == ev.take(i as int),
            decreases self.target.entries.len() - i,
        {
            let e = &self.target.entries[i];
            let ghost before = pair_views(pairs@);
            pairs.push((e.line.clone(), e.reference.clone()));
            assert(pair_views(pairs@) =~= before.push(ev[i as int]));
            assert(ev.take(i + 1) =~= ev.take(i as int).push(ev[i as int]));
            i = i + 1;
        }
        assert(ev.take(ev.len() as int) =~= ev);
        let (kept, dropped) = filter_existing_paths(&pairs, exists);
        if kept.len() == 0 {
            self.kept = kept;
            self.dropped = dropped;
            self.phase = TargetPhase::Done;
            return skipped("nothing remains after upstream check");
        }
        let last_ga = match &self.target.last_gitattributes_ref {
            Some(r) => r.clone(),
            None => String::from_str("N/A"),
        };
        let mut refs: Vec<&EntryPair> = Vec::new();
        let mut j: usize = 0;
        while j < kept.len()
            invariant
                j <= kept.len(),
                entry_ref_views(refs@) == pair_views(kept@).take(j as int),
            decreases kept.len() - j,
        {
            let ghost before = entry_ref_views(refs@);
            refs.push(&kept[j]);
            assert(entry_ref_views(refs@) =~= before.push(pair_views(kept@)[j as int]));
            assert(pair_views(kept@).take(j + 1) =~= pair_views(kept@).take(j as int).push(
                pair_views(kept@)[j as int],
            ));
            j = j + 1;
        }
        assert(pair_views(kept@).take(kept.len() as int) =~= pair_views(kept@));
        let body = build_pr_body(last_ga.as_str(), refs.as_slice(), self.target.remove.as_slice());
        self.kept = kept;
        self.dropped = dropped;
        self.body = body;
        if !self.go {
            self.phase = TargetPhase::Done;
            return TargetAction::Finish(Outcome::DryRun);
        }
        self.phase = TargetPhase::Workspace;
        TargetAction::PrepareWorkspace { fork_name: fork_name(self.target.repo.as_str()) }
    }

    /// `existing` is the clone's `.gitattributes` (`None` when it is
    /// missing). Plans the new file; when nothing changes for an existing
    /// file the target is skipped, otherwise the write, commit and PR
    /// follow.
    pub fn on_content(&mut self, existing: Option<String>) -> (a: TargetAction)
        requires
            old(self).phase == TargetPhase::Workspace,
            existing matches Some(c) ==> byte_len(c@) <= usize::MAX,
        ensures
            final(self).target == old(self).target,
            final(self).pr_title == old(self).pr_title,
            final(self).go == old(self).go,
            final(self).kept == old(self).kept,
            final(self).body == old(self).body,
            ({
                let ex = opt_view(existing);
                let t = old(self).target;
                let new_content = planned_content(t, pair_views(old(self).kept@), ex);
                if new_content == start_content(t.create, ex) && !t.create {
                    final(self).phase == TargetPhase::Done
                        && (a matches TargetAction::Finish(Outcome::Skipped(s))
                        && s@ == "no diff after dedup"@)
                } else {
                    final(self).phase == TargetPhase::Publish
                        && (a matches TargetAction::Publish { content, message }
                        && content@ == new_content
                        && message@ == commit_message(
                            old(self).pr_title@,
                            old(self).body@,
                            trailer_for(
                                t.repo@,
                                old(self).plain_trailer@,
                                old(self).coauthor_trailer@,
                            ),
                        ))
                }
            }),
    {
        let ghost ex = opt_view(existing);
        let create = self.target.create;
        let mut content = String::new();
        let mut style = Style { sorted: false, align_col: 0 };
        match existing {
            Some(c) => {
                if !create {
                    style = Style::detect(c.as_str());
                    content = c;
                }
            },
            None => {},
        }
        assert(content@ == start_content(create, ex));
        assert(style == start_style(create, ex));
        let ghost rt = removal_tokens(self.target.remove@);
        let mut tokens: Vec<String> = Vec::new();
        let mut i: usize = 0;
        while i < self.target.remove.len()
            invariant
                i <= self.target.remove.len(),
                rt == removal_tokens(self.target.remove@),
                tokens.len() == i,
                forall|k: int| 0 <= k < i ==> #[trigger] tokens@[k]@ == rt[k],
            decreases self.target.remove.len() - i,
        {
            let tok = first_token_exec(&to_chars(self.target.remove[i].line.as_str()));
            tokens.push(from_chars(&tok));
            i = i + 1;
        }
        let mut token_refs: Vec<&str> = Vec::new();
        let mut j: usize = 0;
        while j < tokens.len()
            invariant
                j <= tokens.len(),
                token_refs.len() == j,
                forall|k: int| 0 <= k < j ==> #[trigger] token_refs@[k]@ == tokens@[k]@,
            decreases tokens.len() - j,
        {
            token_refs.push(tokens[j].as_str());
            j = j + 1;
        }
        assert(str_views(token_refs@) =~= rt);
        let after = apply_removals(content.as_str(), token_refs.as_slice());
        let ghost kl = pair_lines(pair_views(self.kept@));
        let mut line_refs: Vec<&str> = Vec::new();
        let mut k: usize = 0;
        while k < self.kept.len()
            invariant
                k <= self.kept.len(),
                kl == pair_lines(pair_views(self.kept@)),
                line_refs.len() == k,
                forall|m: int| 0 <= m < k ==> #[trigger] line_refs@[m]@ == kl[m],
            decreases self.kept.len() - k,
        {
            line_refs.push(self.kept[k].0.as_str());
            k = k + 1;
        }
        assert(str_views(line_refs@) =~= kl);
        let new_content = apply_entries(after.as_str(), line_refs.as_slice(), style);
        if str_eq(new_content.as_str(), content.as_str()) && !create {
            self.phase = TargetPhase::Done;
            return skipped("no diff after dedup");
        }
        let mut message = String::new();
        message.append(self.pr_title.as_str());
        message.append("\n\n");
        message.append(self.body.as_str());
        message.append("\n\n");
        message.append(
            commit_trailer(
                self.target.repo.as_str(),
                self.plain_trailer.as_str(),
                self.coauthor_trailer.as_str(),
            ),
        );
        self.phase = TargetPhase::Publish;
        TargetAction::Publish { content: new_content, message }
    }

    /// The PR is open at `url`.
    pub fn on_published(&mut self, url: String) -> (a: TargetAction)
        requires
            old(self).phase == TargetPhase::Publish,
        ensures
            final(self).phase == TargetPhase::Done,
            final(self).target == old(self).target,
            a matches TargetAction::Finish(Outcome::Opened(u)) && u == url,
    {
        self.phase = TargetPhase::Done;
        TargetAction::Finish(Outcome::Opened(url))
    }
}


// ---------------------------------------------------------------------------
// Pacing across targets
// ---------------------------------------------------------------------------

/// What follows an opened PR: stop at the limit, or pause that many
/// seconds before the next target (or report that no pause could be
/// drawn).
#[derive(Debug, Clone, Copy, PartialEq, Eq, Structural)]
pub enum Pace {
    Stop,
    Sleep(u64),
    /// The system's entropy source failed, so no pause could be drawn.
    NoEntropy,
}

/// Counts opened PRs against the limit (0 = unlimited).
pub struct RunProgress {
    pub opened: usize,
    pub limit: usize,
}

impl RunProgress {
    pub fn new(limit: usize) -> (r: RunProgress)
        ensures
            r.opened == 0,
            r.limit == limit,
    {
        RunProgress { opened: 0, limit }
    }

    /// One more PR was opened: stop when the limit is reached, otherwise
    /// pause for a random number of seconds between `sleep_min` and
    /// `sleep_max` inclusive (an empty range is refused, as `gen_range`
    /// panics on it), or `NoEntropy` when no generator could be seeded.
    pub fn on_opened(&mut self, sleep_min: u64, sleep_max: u64) -> (p: Pace)
        requires
            old(self).opened < usize::MAX,
            !(old(self).limit > 0 && old(self).opened + 1 >= old(self).limit) ==> sleep_min <= sleep_max,
        ensures
            final(self).opened == old(self).opened + 1,
            final(self).limit == old(self).limit,
            (p is Stop) == (final(self).limit > 0 && final(self).opened >= final(self).limit),
            p matches Pace::Sleep(secs) ==> sleep_min <= secs <= sleep_max,
            old(self).limit > 0 && old(self).opened < old(self).limit ==> final(self).opened
                <= final(self).limit,
    {
        self.opened = self.opened + 1;
        if self.limit > 0 && self.opened >= self.limit {
            return Pace::Stop;
        }
        match seeded_rng() {
            Some(mut rng) => Pace::Sleep(random_in_range(&mut rng, sleep_min, sleep_max)),
            None => Pace::NoEntropy,
        }
    }
}

} // verus!
