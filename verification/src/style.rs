//! The `.gitattributes` line format, and detecting and preserving the style
//! of an existing file when `export-ignore` entries are removed or appended.
use vstd::prelude::*;

use crate::text::{
    append_chars, byte_len, trim_end_slash, trim_start_slash, byte_len_prefix, clone_chars, contains_chars, join_lines_nl, join_nl, first_occurrence, first_token, first_token_exec,
    find_word, from_chars, is_ws, is_ws_char, lemma_byte_len_concat, lemma_byte_len_subrange,
    lemma_lex_le_trans, lemma_lex_lt_irrefl, lemma_lex_lt_le, lemma_lex_lt_trans, lemma_lex_total,
    lemma_next_nl_bounds, lemma_skip_token_bounds, lemma_skip_ws_bounds, lex_le, lex_lt,
    lex_lt_exec, lines, lines_from, next_nl, occurs_at, occurs_at_exec, skip_token,
    skip_token_exec, skip_ws, skip_ws_exec, split_lines, strip_slashes_chars, strip_slashes_spec,
    subrange_chars, to_chars, trim_end_ws, trim_end_ws_len, views, lemma_join_nl_without,
    lemma_lines_join_cr, lemma_lines_push_nl_any, strip_cr, lemma_join_lines,
    lemma_lines_join, lemma_lines_no_cr, lemma_lines_no_newline, plain_line, lemma_lines_append,
    lemma_lines_push_nl,
};

verus! {

// ---------------------------------------------------------------------------
// Line grammar
// ---------------------------------------------------------------------------

/// The attribute word `export-ignore`.
pub open spec fn ei_word() -> Seq<char> {
    seq!['e', 'x', 'p', 'o', 'r', 't', '-', 'i', 'g', 'n', 'o', 'r', 'e']
}

pub fn ei_word_chars() -> (v: Vec<char>)
    ensures
        v@ == ei_word(),
{
    let v = vec!['e', 'x', 'p', 'o', 'r', 't', '-', 'i', 'g', 'n', 'o', 'r', 'e'];
    assert(v@ == ei_word());
    v
}

/// A line that ends (up to trailing whitespace) in whitespace followed by
/// `export-ignore`: the pattern `\s+export-ignore\s*$`.
pub open spec fn is_ei_line(l: Seq<char>) -> bool {
    let t = trim_end_ws(l);
    t.len() >= 14 && t.subrange(t.len() - 13, t.len() as int) == ei_word() && is_ws(
        t[t.len() - 14],
    )
}

/// Drops one leading `/` and then one trailing `/`, each only when
/// something remains after it.
pub open spec fn strip_one_slash(tok: Seq<char>) -> Seq<char> {
    let t1 = if tok.len() >= 2 && tok[0] == '/' {
        tok.drop_first()
    } else {
        tok
    };
    if t1.len() >= 2 && t1.last() == '/' {
        t1.drop_last()
    } else {
        t1
    }
}

/// The path of an `export-ignore` entry line: a line made of optional
/// whitespace, one path token, whitespace, `export-ignore` and optional
/// whitespace yields the token with at most one leading and one trailing
/// `/` removed (the capture of `^\s*/?([^\s]+?)/?\s+export-ignore\s*$`).
/// Any other line yields `None`.
pub open spec fn ei_path(l: Seq<char>) -> Option<Seq<char>> {
    let a = skip_ws(l, 0);
    let b = skip_token(l, a);
    let c = skip_ws(l, b);
    if a < b && b < l.len() && occurs_at(l, ei_word(), c) && skip_ws(l, c + 13) == l.len() {
        Some(strip_one_slash(l.subrange(a, b)))
    } else {
        None
    }
}

pub fn is_ei_line_exec(l: &Vec<char>) -> (r: bool)
    ensures
        r == is_ei_line(l@),
{
    let e = trim_end_ws_len(l);
    if e < 14 {
        return false;
    }
    let word = ei_word_chars();
    let t = subrange_chars(l, 0, e);
    let hit = occurs_at_exec(&t, &word, e - 13);
    assert(hit == (t@.subrange(e - 13, e as int) == ei_word()));
    hit && is_ws_char(l[e - 14])
}

fn strip_one_slash_exec(tok: Vec<char>) -> (r: Vec<char>)
    ensures
        r@ == strip_one_slash(tok@),
{
    let mut t = tok;
    if t.len() >= 2 && t[0] == '/' {
        t.remove(0);
    }
    if t.len() >= 2 && t[t.len() - 1] == '/' {
        t.pop();
    }
    t
}

pub fn ei_path_exec(l: &Vec<char>) -> (r: Option<Vec<char>>)
    ensures
        r matches Some(p) ==> ei_path(l@) == Some(p@),
        r is None ==> ei_path(l@) is None,
{
    let a = skip_ws_exec(l, 0);
    proof {
        lemma_skip_ws_bounds(l@, 0);
    }
    let b = skip_token_exec(l, a);
    proof {
        lemma_skip_token_bounds(l@, a as int);
    }
    let c = skip_ws_exec(l, b);
    proof {
        lemma_skip_ws_bounds(l@, b as int);
    }
    if !(a < b && b < l.len()) {
        return None;
    }
    let word = ei_word_chars();
    if !occurs_at_exec(l, &word, c) {
        return None;
    }
    let d = skip_ws_exec(l, c + 13);
    if d != l.len() {
        return None;
    }
    let tok = subrange_chars(l, a, b);
    Some(strip_one_slash_exec(tok))
}

/// Strip leading `/` and trailing `/` from a path entry.
pub fn strip_slashes(s: &str) -> (r: String)
    ensures
        r@ == strip_slashes_spec(s@),
{
    let v = to_chars(s);
    let w = strip_slashes_chars(&v);
    from_chars(&w)
}

/// Sort key of an entry line: its first token without leading or trailing
/// slashes.
pub open spec fn sort_key(l: Seq<char>) -> Seq<char> {
    strip_slashes_spec(first_token(l))
}

pub fn sort_key_exec(l: &Vec<char>) -> (r: Vec<char>)
    ensures
        r@ == sort_key(l@),
{
    let t = first_token_exec(l);
    strip_slashes_chars(&t)
}

/// The `export-ignore` lines of `ls`, in order.
pub open spec fn ei_lines(ls: Seq<Seq<char>>) -> Seq<Seq<char>>
    decreases ls.len(),
{
    if ls.len() == 0 {
        seq![]
    } else if is_ei_line(ls.last()) {
        ei_lines(ls.drop_last()).push(ls.last())
    } else {
        ei_lines(ls.drop_last())
    }
}

/// The other lines of `ls`, in order.
pub open spec fn other_lines(ls: Seq<Seq<char>>) -> Seq<Seq<char>>
    decreases ls.len(),
{
    if ls.len() == 0 {
        seq![]
    } else if is_ei_line(ls.last()) {
        other_lines(ls.drop_last())
    } else {
        other_lines(ls.drop_last()).push(ls.last())
    }
}

/// Splits lines into the `export-ignore` ones and the others, keeping order.
pub fn partition_ei(ls: &Vec<Vec<char>>) -> (r: (Vec<Vec<char>>, Vec<Vec<char>>))
    ensures
        views(r.0@) == ei_lines(views(ls@)),
        views(r.1@) == other_lines(views(ls@)),
{
    let ghost dv = views(ls@);
    let mut ei: Vec<Vec<char>> = Vec::new();
    let mut other: Vec<Vec<char>> = Vec::new();
    let mut i: usize = 0;
    while i < ls.len()
        invariant
            i <= ls.len(),
            dv == views(ls@),
            views(ei@) == ei_lines(dv.take(i as int)),
            views(other@) == other_lines(dv.take(i as int)),
        decreases ls.len() - i,
    {
        assert(dv.take(i + 1).drop_last() == dv.take(i as int));
        assert(dv.take(i + 1).last() == ls@[i as int]@);
        let l = clone_chars(&ls[i]);
        if is_ei_line_exec(&l) {
            let ghost old_v = views(ei@);
            ei.push(l);
            assert(views(ei@) =~= old_v.push(dv[i as int]));
        } else {
            let ghost old_v = views(other@);
            other.push(l);
            assert(views(other@) =~= old_v.push(dv[i as int]));
        }
        i = i + 1;
    }
    assert(dv.take(ls.len() as int) == dv);
    (ei, other)
}


// ---------------------------------------------------------------------------
// Stable sort of lines by key
// ---------------------------------------------------------------------------

/// Position where a line with key `k` goes in `s` when `s` is kept stably
/// sorted: before the first line at or after `j` whose key is greater.
pub open spec fn insert_pos(s: Seq<Seq<char>>, k: Seq<char>, j: int) -> int
    decreases s.len() - j,
{
    if j < 0 || j >= s.len() {
        s.len() as int
    } else if lex_lt(k, sort_key(s[j])) {
        j
    } else {
        insert_pos(s, k, j + 1)
    }
}

/// Lines stably sorted by `sort_key` (what `sort_by_key` gives).
pub open spec fn sort_by_key_spec(ls: Seq<Seq<char>>) -> Seq<Seq<char>>
    decreases ls.len(),
{
    if ls.len() == 0 {
        seq![]
    } else {
        let t = sort_by_key_spec(ls.drop_last());
        t.insert(insert_pos(t, sort_key(ls.last()), 0), ls.last())
    }
}

/// The keys are in non-decreasing code-point order.
pub open spec fn keys_sorted(ks: Seq<Seq<char>>) -> bool {
    forall|i: int, j: int| 0 <= i < j < ks.len() ==> lex_le(#[trigger] ks[i], #[trigger] ks[j])
}

/// The lines are in non-decreasing order of their keys.
pub open spec fn lines_sorted(ls: Seq<Seq<char>>) -> bool {
    forall|i: int, j: int|
        0 <= i < j < ls.len() ==> lex_le(sort_key(#[trigger] ls[i]), sort_key(#[trigger] ls[j]))
}

proof fn lemma_insert_pos(s: Seq<Seq<char>>, k: Seq<char>, j: int)
    requires
        0 <= j <= s.len(),
    ensures
        j <= insert_pos(s, k, j) <= s.len(),
        forall|m: int| j <= m < insert_pos(s, k, j) ==> !lex_lt(k, sort_key(#[trigger] s[m])),
        insert_pos(s, k, j) < s.len() ==> lex_lt(k, sort_key(s[insert_pos(s, k, j)])),
    decreases s.len() - j,
{
    if j < s.len() && !lex_lt(k, sort_key(s[j])) {
        lemma_insert_pos(s, k, j + 1);
    }
}

/// Sorting by key yields lines in key order.
pub proof fn lemma_sort_by_key_sorted(ls: Seq<Seq<char>>)
    ensures
        lines_sorted(sort_by_key_spec(ls)),
        sort_by_key_spec(ls).len() == ls.len(),
    decreases ls.len(),
{
    if ls.len() > 0 {
        let t = sort_by_key_spec(ls.drop_last());
        lemma_sort_by_key_sorted(ls.drop_last());
        let x = ls.last();
        let k = sort_key(x);
        let p = insert_pos(t, k, 0);
        lemma_insert_pos(t, k, 0);
        let r = t.insert(p, x);
        assert forall|i: int, j: int| 0 <= i < j < r.len() implies lex_le(
            sort_key(#[trigger] r[i]),
            sort_key(#[trigger] r[j]),
        ) by {
            if i < p && j < p {
                assert(r[i] == t[i] && r[j] == t[j]);
            } else if i < p && j == p {
                assert(r[i] == t[i]);
            } else if i < p && j > p {
                assert(r[i] == t[i] && r[j] == t[j - 1]);
                lemma_lex_lt_le(k, sort_key(t[p]));
                lemma_lex_le_trans(sort_key(t[i]), k, sort_key(t[p]));
                if p < j - 1 {
                    lemma_lex_le_trans(sort_key(t[i]), sort_key(t[p]), sort_key(t[j - 1]));
                }
            } else if i == p {
                assert(r[j] == t[j - 1]);
                lemma_lex_lt_le(k, sort_key(t[p]));
                if p < j - 1 {
                    lemma_lex_le_trans(k, sort_key(t[p]), sort_key(t[j - 1]));
                } else {
                    lemma_lex_lt_irrefl(k);
                    assert(lex_lt(k, sort_key(t[p])));
                    if lex_lt(sort_key(t[p]), k) {
                        lemma_lex_lt_trans(k, sort_key(t[p]), k);
                    }
                }
            } else {
                assert(r[i] == t[i - 1] && r[j] == t[j - 1]);
            }
        }
    }
}

fn insert_pos_exec(keys: &Vec<Vec<char>>, k: &Vec<char>, Ghost(s): Ghost<Seq<Seq<char>>>) -> (r:
    usize)
    requires
        s.len() == keys.len(),
        forall|m: int| 0 <= m < s.len() ==> sort_key(#[trigger] s[m]) == keys@[m]@,
    ensures
        r == insert_pos(s, k@, 0),
{
    let mut j: usize = 0;
    while j < keys.len()
        invariant
            j <= keys.len(),
            s.len() == keys.len(),
            forall|m: int| 0 <= m < s.len() ==> sort_key(#[trigger] s[m]) == keys@[m]@,
            insert_pos(s, k@, 0) == insert_pos(s, k@, j as int),
        decreases keys.len() - j,
    {
        if lex_lt_exec(k, &keys[j]) {
            return j;
        }
        j = j + 1;
    }
    j
}

/// Stable sort of lines by `sort_key`.
pub fn sort_lines_by_key(ls: &Vec<Vec<char>>) -> (r: Vec<Vec<char>>)
    ensures
        views(r@) == sort_by_key_spec(views(ls@)),
{
    let ghost dv = views(ls@);
    let mut res: Vec<Vec<char>> = Vec::new();
    let mut keys: Vec<Vec<char>> = Vec::new();
    let mut i: usize = 0;
    while i < ls.len()
        invariant
            i <= ls.len(),
            dv == views(ls@),
            views(res@) == sort_by_key_spec(dv.take(i as int)),
            keys.len() == res.len(),
            forall|m: int| 0 <= m < res.len() ==> sort_key(#[trigger] res@[m]@) == keys@[m]@,
        decreases ls.len() - i,
    {
        assert(dv.take(i + 1).drop_last() == dv.take(i as int));
        assert(dv.take(i + 1).last() == ls@[i as int]@);
        let x = clone_chars(&ls[i]);
        let k = sort_key_exec(&x);
        let ghost t = views(res@);
        proof {
            lemma_sort_by_key_sorted(dv.take(i as int));
            assert forall|m: int| 0 <= m < t.len() implies sort_key(#[trigger] t[m])
                == keys@[m]@ by {
                assert(t[m] == res@[m]@);
            }
        }
        let p = insert_pos_exec(&keys, &k, Ghost(t));
        proof {
            lemma_insert_pos(t, k@, 0);
        }
        let ghost old_keys = keys@;
        let ghost old_res = res@;
        res.insert(p, x);
        keys.insert(p, k);
        assert(views(res@) =~= t.insert(p as int, dv[i as int]));
        assert forall|m: int| 0 <= m < res.len() implies sort_key(#[trigger] res@[m]@)
            == keys@[m]@ by {
            if m < p {
                assert(res@[m] == old_res[m] && keys@[m] == old_keys[m]);
            } else if m > p {
                assert(res@[m] == old_res[m - 1] && keys@[m] == old_keys[m - 1]);
            }
        }
        i = i + 1;
    }
    assert(dv.take(ls.len() as int) == dv);
    res
}


// ---------------------------------------------------------------------------
// Style detection
// ---------------------------------------------------------------------------

#[derive(Debug, Clone, Copy, PartialEq, Eq, Structural)]
pub struct Style {
    /// Existing `export-ignore` lines are alphabetically sorted by stripped path.
    pub sorted: bool,
    /// Column where `export-ignore` is aligned via padding. 0 means no alignment.
    pub align_col: usize,
}

/// Byte column of the first `export-ignore` in a line (0 when absent).
pub open spec fn ei_col(l: Seq<char>) -> int {
    match first_occurrence(l, ei_word()) {
        Some(k) => byte_len(l.take(k)) as int,
        None => 0,
    }
}

/// Number of times `c` occurs in `cols`.
pub open spec fn col_count(cols: Seq<int>, c: int) -> nat
    decreases cols.len(),
{
    if cols.len() == 0 {
        0
    } else {
        col_count(cols.drop_last(), c) + if cols.last() == c {
            1nat
        } else {
            0nat
        }
    }
}

/// `i` is the first index whose column is among the most frequent ones.
pub open spec fn is_first_top(cols: Seq<int>, i: int) -> bool {
    &&& 0 <= i < cols.len()
    &&& forall|j: int| 0 <= j < cols.len() ==> col_count(cols, #[trigger] cols[j]) <= col_count(cols, cols[i])
    &&& forall|j: int| 0 <= j < i ==> col_count(cols, #[trigger] cols[j]) < col_count(cols, cols[i])
}

/// Some two entry lines have first tokens of different byte lengths.
pub open spec fn token_lens_differ(ei: Seq<Seq<char>>) -> bool {
    exists|i: int, j: int|
        0 <= i < ei.len() && 0 <= j < ei.len() && byte_len(first_token(#[trigger] ei[i]))
            != byte_len(first_token(#[trigger] ei[j]))
}

/// The alignment column: the most frequent `export-ignore` column (the one
/// met first among equally frequent ones), when at least two lines share it
/// and the entry paths are not all of one length; 0 otherwise.
pub open spec fn detected_align(ei: Seq<Seq<char>>) -> int {
    let cols = ei.map_values(|l: Seq<char>| ei_col(l));
    let i = choose|i: int| is_first_top(cols, i);
    if col_count(cols, cols[i]) >= 2 && token_lens_differ(ei) {
        cols[i]
    } else {
        0
    }
}

/// The style of a `.gitattributes` content.
pub open spec fn detect_spec(content: Seq<char>) -> Style {
    let ei = ei_lines(lines(content));
    if ei.len() == 0 {
        Style { sorted: false, align_col: 0 }
    } else {
        Style {
            sorted: keys_sorted(ei.map_values(|l: Seq<char>| sort_key(l))),
            align_col: detected_align(ei) as usize,
        }
    }
}

proof fn lemma_lines_from_byte_len(s: Seq<char>, i: int)
    requires
        0 <= i,
    ensures
        forall|k: int|
            0 <= k < lines_from(s, i).len() ==> byte_len(#[trigger] lines_from(s, i)[k])
                <= byte_len(s),
    decreases s.len() - i,
{
    if i < s.len() {
        let e = next_nl(s, i);
        lemma_next_nl_bounds(s, i);
        lemma_byte_len_subrange(s, i, e);
        if e < s.len() {
            lemma_lines_from_byte_len(s, e + 1);
            let x = s.subrange(i, e);
            if x.len() > 0 && x.last() == '\r' {
                assert(x == x.drop_last() + seq![x.last()]);
                lemma_byte_len_concat(x.drop_last(), seq![x.last()]);
            }
            let r = lines_from(s, i);
            assert forall|k: int| 0 <= k < r.len() implies byte_len(#[trigger] r[k]) <= byte_len(
                s,
            ) by {
                if k > 0 {
                    assert(r[k] == lines_from(s, e + 1)[k - 1]);
                }
            }
        } else {
            lemma_byte_len_subrange(s, i, s.len() as int);
        }
    }
}

proof fn lemma_ei_lines_members(ls: Seq<Seq<char>>)
    ensures
        forall|k: int|
            0 <= k < ei_lines(ls).len() ==> exists|m: int|
                0 <= m < ls.len() && ls[m] == #[trigger] ei_lines(ls)[k],
        forall|k: int| 0 <= k < ei_lines(ls).len() ==> is_ei_line(#[trigger] ei_lines(ls)[k]),
    decreases ls.len(),
{
    if ls.len() > 0 {
        lemma_ei_lines_members(ls.drop_last());
        let r = ei_lines(ls);
        let q = ei_lines(ls.drop_last());
        assert forall|k: int| 0 <= k < r.len() implies exists|m: int|
            0 <= m < ls.len() && ls[m] == #[trigger] r[k] by {
            if k < q.len() {
                assert(r[k] == q[k]);
                let m = choose|m: int| 0 <= m < ls.drop_last().len() && ls.drop_last()[m] == q[k];
                assert(ls[m] == r[k]);
            } else {
                assert(ls[ls.len() - 1] == r[k]);
            }
        }
        assert forall|k: int| 0 <= k < r.len() implies is_ei_line(#[trigger] r[k]) by {
            if k < q.len() {
                assert(r[k] == q[k]);
            }
        }
    }
}

/// An `export-ignore` line contains the word, so its column is found.
proof fn lemma_ei_line_has_word(l: Seq<char>)
    requires
        is_ei_line(l),
    ensures
        occurs_at(l, ei_word(), trim_end_ws(l).len() - 13),
{
    lemma_trim_end_ws_prefix(l);
    let t = trim_end_ws(l);
    assert(l.subrange(t.len() - 13, t.len() as int) == t.subrange(t.len() - 13, t.len() as int));
}

proof fn lemma_trim_end_ws_prefix(l: Seq<char>)
    ensures
        trim_end_ws(l).len() <= l.len(),
        trim_end_ws(l) == l.subrange(0, trim_end_ws(l).len() as int),
    decreases l.len(),
{
    if l.len() > 0 && is_ws(l.last()) {
        lemma_trim_end_ws_prefix(l.drop_last());
    }
}

proof fn lemma_first_top_unique(cols: Seq<int>, i: int)
    requires
        is_first_top(cols, i),
    ensures
        (choose|k: int| is_first_top(cols, k)) == i,
{
    let k = choose|k: int| is_first_top(cols, k);
    if k < i {
        assert(col_count(cols, cols[k]) < col_count(cols, cols[i]));
    } else if k > i {
        assert(col_count(cols, cols[i]) < col_count(cols, cols[k]));
    }
}

/// Every `export-ignore` line of a content is no longer than the content.
proof fn lemma_ei_lines_bounded(content: Seq<char>)
    ensures
        forall|k: int|
            0 <= k < ei_lines(lines(content)).len() ==> is_ei_line(
                #[trigger] ei_lines(lines(content))[k],
            ) && byte_len(ei_lines(lines(content))[k]) <= byte_len(content),
{
    lemma_ei_lines_members(lines(content));
    lemma_lines_from_byte_len(content, 0);
    let e = ei_lines(lines(content));
    assert forall|k: int| 0 <= k < e.len() implies is_ei_line(#[trigger] e[k]) && byte_len(e[k])
        <= byte_len(content) by {
        let m = choose|m: int| 0 <= m < lines(content).len() && lines(content)[m] == e[k];
        assert(byte_len(lines(content)[m]) <= byte_len(content));
    }
}

fn count_col(cols: &Vec<usize>, c: usize, Ghost(g): Ghost<Seq<int>>) -> (r: usize)
    requires
        g.len() == cols.len(),
        forall|m: int| 0 <= m < g.len() ==> g[m] == cols@[m] as int,
    ensures
        r == col_count(g, c as int),
{
    let mut n: usize = 0;
    let mut j: usize = 0;
    while j < cols.len()
        invariant
            j <= cols.len(),
            g.len() == cols.len(),
            forall|m: int| 0 <= m < g.len() ==> g[m] == cols@[m] as int,
            n == col_count(g.take(j as int), c as int),
            n <= j,
        decreases cols.len() - j,
    {
        assert(g.take(j + 1).drop_last() == g.take(j as int));
        if cols[j] == c {
            n = n + 1;
        }
        j = j + 1;
    }
    assert(g.take(cols.len() as int) == g);
    n
}

fn keys_sorted_exec(ei: &Vec<Vec<char>>) -> (r: bool)
    ensures
        r == keys_sorted(views(ei@).map_values(|l: Seq<char>| sort_key(l))),
{
    let ghost gei = views(ei@);
    let mut keys: Vec<Vec<char>> = Vec::new();
    let mut i: usize = 0;
    while i < ei.len()
        invariant
            i <= ei.len(),
            gei == views(ei@),
            keys.len() == i,
            forall|m: int| 0 <= m < i ==> #[trigger] keys@[m]@ == sort_key(gei[m]),
        decreases ei.len() - i,
    {
        keys.push(sort_key_exec(&ei[i]));
        i = i + 1;
    }
    let ghost gkeys = gei.map_values(|l: Seq<char>| sort_key(l));
    assert(gkeys.len() == keys.len());
    let mut sorted = true;
    let mut i: usize = 1;
    while i < keys.len()
        invariant
            1 <= i,
            i <= keys.len() || keys.len() == 0,
            gkeys.len() == keys.len(),
            forall|m: int| 0 <= m < keys.len() ==> #[trigger] keys@[m]@ == gkeys[m],
            sorted ==> forall|a: int, b: int|
                0 <= a < b < i && b < keys.len() ==> lex_le(#[trigger] gkeys[a], #[trigger] gkeys[b]),
            !sorted ==> !keys_sorted(gkeys),
        decreases keys.len() - i,
    {
        if lex_lt_exec(&keys[i], &keys[i - 1]) {
            assert(!lex_le(gkeys[i - 1], gkeys[i as int]));
            sorted = false;
        }
        proof {
            if sorted {
                assert forall|a: int, b: int| 0 <= a < b < i + 1 && b < keys.len() implies lex_le(
                    #[trigger] gkeys[a],
                    #[trigger] gkeys[b],
                ) by {
                    if b == i && a < i - 1 {
                        lemma_lex_le_trans(gkeys[a], gkeys[i - 1], gkeys[b]);
                    }
                }
            }
        }
        i = i + 1;
    }
    sorted
}

/// Columns of the first `export-ignore` and byte lengths of the first
/// tokens, line by line.
fn cols_and_lens(ei: &Vec<Vec<char>>) -> (r: (
    Vec<usize>,
    Vec<usize>,
))
    requires
        forall|k: int| 0 <= k < ei.len() ==> is_ei_line(#[trigger] ei@[k]@),
        forall|k: int| 0 <= k < ei.len() ==> byte_len(#[trigger] ei@[k]@) <= usize::MAX,
    ensures
        r.0.len() == ei.len(),
        r.1.len() == ei.len(),
        forall|m: int| 0 <= m < ei.len() ==> #[trigger] r.0@[m] as int == ei_col(ei@[m]@),
        forall|m: int|
            0 <= m < ei.len() ==> #[trigger] r.1@[m] as int == byte_len(first_token(ei@[m]@)),
{
    let word = ei_word_chars();
    let mut cols: Vec<usize> = Vec::new();
    let mut lens: Vec<usize> = Vec::new();
    let mut i: usize = 0;
    while i < ei.len()
        invariant
            i <= ei.len(),
            word@ == ei_word(),
            cols.len() == i,
            lens.len() == i,
            forall|m: int| 0 <= m < i ==> #[trigger] cols@[m] as int == ei_col(ei@[m]@),
            forall|m: int|
                0 <= m < i ==> #[trigger] lens@[m] as int == byte_len(first_token(ei@[m]@)),
            forall|k: int| 0 <= k < ei.len() ==> is_ei_line(#[trigger] ei@[k]@),
            forall|k: int| 0 <= k < ei.len() ==> byte_len(#[trigger] ei@[k]@) <= usize::MAX,
        decreases ei.len() - i,
    {
        let l = &ei[i];
        assert(byte_len(l@) <= usize::MAX);
        let col = match find_word(l, &word) {
            Some(k) => {
                proof {
                    lemma_byte_len_subrange(l@, 0, k as int);
                    assert(l@.take(k as int) == l@.subrange(0, k as int));
                }
                match byte_len_prefix(l, k) {
                    Some(b) => b,
                    None => 0,
                }
            },
            None => {
                proof {
                    lemma_ei_line_has_word(l@);
                }
                0
            },
        };
        let tok = first_token_exec(l);
        proof {
            lemma_skip_ws_bounds(l@, 0);
            lemma_skip_token_bounds(l@, skip_ws(l@, 0));
            lemma_byte_len_subrange(l@, skip_ws(l@, 0), skip_token(l@, skip_ws(l@, 0)));
        }
        let tl = match byte_len_prefix(&tok, tok.len()) {
            Some(b) => b,
            None => 0,
        };
        assert(tok@.take(tok.len() as int) == tok@);
        cols.push(col);
        lens.push(tl);
        i = i + 1;
    }
    (cols, lens)
}

/// Index of the first column among the most frequent ones, and its count.
fn first_top(cols: &Vec<usize>, Ghost(gcols): Ghost<Seq<int>>) -> (r: (usize, usize))
    requires
        cols.len() > 0,
        gcols.len() == cols.len(),
        forall|m: int| 0 <= m < gcols.len() ==> gcols[m] == cols@[m] as int,
    ensures
        is_first_top(gcols, r.0 as int),
        r.1 == col_count(gcols, gcols[r.0 as int]),
{
    let mut best: usize = 0;
    let mut best_count: usize = count_col(cols, cols[0], Ghost(gcols));
    let mut i: usize = 1;
    while i < cols.len()
        invariant
            1 <= i <= cols.len(),
            best < i,
            gcols.len() == cols.len(),
            forall|m: int| 0 <= m < gcols.len() ==> gcols[m] == cols@[m] as int,
            best_count == col_count(gcols, gcols[best as int]),
            forall|j: int| 0 <= j < i ==> col_count(gcols, #[trigger] gcols[j]) <= best_count,
            forall|j: int| 0 <= j < best ==> col_count(gcols, #[trigger] gcols[j]) < best_count,
        decreases cols.len() - i,
    {
        let c = count_col(cols, cols[i], Ghost(gcols));
        if c > best_count {
            best = i;
            best_count = c;
        }
        i = i + 1;
    }
    (best, best_count)
}

fn lens_differ(lens: &Vec<usize>, Ghost(gei): Ghost<Seq<Seq<char>>>) -> (r: bool)
    requires
        lens.len() == gei.len(),
        forall|m: int|
            0 <= m < lens.len() ==> #[trigger] lens@[m] as int == byte_len(first_token(gei[m])),
    ensures
        r == token_lens_differ(gei),
{
    if lens.len() == 0 {
        return false;
    }
    let mut differ = false;
    let mut i: usize = 1;
    while i < lens.len()
        invariant
            1 <= i <= lens.len(),
            lens.len() == gei.len(),
            forall|m: int|
                0 <= m < lens.len() ==> #[trigger] lens@[m] as int == byte_len(first_token(gei[m])),
            differ ==> token_lens_differ(gei),
            !differ ==> forall|m: int| 0 <= m < i ==> #[trigger] lens@[m] == lens@[0],
        decreases lens.len() - i,
    {
        if lens[i] != lens[0] {
            assert(byte_len(first_token(gei[i as int])) != byte_len(first_token(gei[0])));
            differ = true;
        }
        i = i + 1;
    }
    proof {
        if !differ && token_lens_differ(gei) {
            let (a, b) = choose|a: int, b: int|
                0 <= a < gei.len() && 0 <= b < gei.len() && byte_len(first_token(#[trigger] gei[a]))
                    != byte_len(first_token(#[trigger] gei[b]));
            assert(lens@[a] == lens@[0] && lens@[b] == lens@[0]);
        }
    }
    differ
}

impl Style {
    /// Detect the style of an existing `.gitattributes` content.
    pub fn detect(content: &str) -> (s: Style)
        requires
            byte_len(content@) <= usize::MAX,
        ensures
            s == detect_spec(content@),
    {
        let cv = to_chars(content);
        let ls = split_lines(&cv);
        let (ei, _other) = partition_ei(&ls);
        let ghost gei = views(ei@);
        if ei.len() == 0 {
            return Style { sorted: false, align_col: 0 };
        }
        proof {
            lemma_ei_lines_bounded(content@);
            assert forall|k: int| 0 <= k < ei.len() implies is_ei_line(#[trigger] ei@[k]@)
                && byte_len(ei@[k]@) <= usize::MAX by {
                assert(ei@[k]@ == gei[k]);
            }
        }
        let sorted = keys_sorted_exec(&ei);
        let (cols, lens) = cols_and_lens(&ei);
        let ghost gcols = gei.map_values(|l: Seq<char>| ei_col(l));
        assert forall|m: int| 0 <= m < gcols.len() implies gcols[m] == cols@[m] as int by {
            assert(ei@[m]@ == gei[m]);
        }
        let (best, best_count) = first_top(&cols, Ghost(gcols));
        proof {
            lemma_first_top_unique(gcols, best as int);
        }
        assert forall|m: int| 0 <= m < lens.len() implies #[trigger] lens@[m] as int == byte_len(
            first_token(gei[m]),
        ) by {
            assert(ei@[m]@ == gei[m]);
        }
        let differ = lens_differ(&lens, Ghost(gei));
        let align_col = if best_count >= 2 && differ {
            cols[best]
        } else {
            0
        };
        Style { sorted, align_col }
    }
}


// ---------------------------------------------------------------------------
// Removing entries
// ---------------------------------------------------------------------------

/// The normalized paths named for removal.
pub open spec fn removal_norms(paths: Seq<Seq<char>>) -> Seq<Seq<char>> {
    paths.map_values(|p: Seq<char>| strip_slashes_spec(p))
}

/// An `export-ignore` entry line whose path is among `norms`.
pub open spec fn is_removed(l: Seq<char>, norms: Seq<Seq<char>>) -> bool {
    match ei_path(l) {
        Some(c) => norms.contains(c),
        None => false,
    }
}

/// The lines of `ls` that are not removed, in order.
pub open spec fn kept_lines(ls: Seq<Seq<char>>, norms: Seq<Seq<char>>) -> Seq<Seq<char>>
    decreases ls.len(),
{
    if ls.len() == 0 {
        seq![]
    } else if is_removed(ls.last(), norms) {
        kept_lines(ls.drop_last(), norms)
    } else {
        kept_lines(ls.drop_last(), norms).push(ls.last())
    }
}

/// `content` without the `export-ignore` lines whose path is named in
/// `paths` (compared without leading and trailing slashes); every other
/// line is kept, each ended by `'\n'`, and a final `'\n'` is kept only
/// when `content` had one. Nothing named: `content` unchanged.
pub open spec fn apply_removals_spec(content: Seq<char>, paths: Seq<Seq<char>>) -> Seq<char> {
    if paths.len() == 0 {
        content
    } else {
        let out = join_nl(kept_lines(lines(content), removal_norms(paths)));
        if !(content.len() > 0 && content.last() == '\n') && out.len() > 0 && out.last() == '\n' {
            out.drop_last()
        } else {
            out
        }
    }
}

/// The characters of each string of a slice.
pub open spec fn str_views(v: Seq<&str>) -> Seq<Seq<char>> {
    v.map_values(|p: &str| p@)
}

/// Remove every `export-ignore` line in `content` whose normalized path
/// appears in `paths_to_remove`; the comparison strips leading and trailing
/// slashes on both sides.
pub fn apply_removals(content: &str, paths_to_remove: &[&str]) -> (r: String)
    ensures
        r@ == apply_removals_spec(content@, str_views(paths_to_remove@)),
{
    let ghost pv = str_views(paths_to_remove@);
    if paths_to_remove.len() == 0 {
        return from_chars(&to_chars(content));
    }
    let mut normalized: Vec<Vec<char>> = Vec::new();
    let mut i: usize = 0;
    while i < paths_to_remove.len()
        invariant
            i <= paths_to_remove.len(),
            pv == str_views(paths_to_remove@),
            views(normalized@) == removal_norms(pv.take(i as int)),
        decreases paths_to_remove.len() - i,
    {
        let v = to_chars(paths_to_remove[i]);
        let n = strip_slashes_chars(&v);
        let ghost old_n = views(normalized@);
        normalized.push(n);
        assert(views(normalized@) =~= old_n.push(strip_slashes_spec(pv[i as int])));
        assert(removal_norms(pv.take(i + 1)) =~= removal_norms(pv.take(i as int)).push(
            strip_slashes_spec(pv[i as int]),
        ));
        i = i + 1;
    }
    assert(pv.take(paths_to_remove.len() as int) == pv);
    let ghost norms = removal_norms(pv);
    let cv = to_chars(content);
    let ls = split_lines(&cv);
    let ghost dl = views(ls@);
    let mut kept: Vec<Vec<char>> = Vec::new();
    let mut i: usize = 0;
    while i < ls.len()
        invariant
            i <= ls.len(),
            dl == views(ls@),
            views(normalized@) == norms,
            views(kept@) == kept_lines(dl.take(i as int), norms),
        decreases ls.len() - i,
    {
        assert(dl.take(i + 1).drop_last() == dl.take(i as int));
        assert(dl.take(i + 1).last() == ls@[i as int]@);
        let drop = match ei_path_exec(&ls[i]) {
            Some(c) => contains_chars(&normalized, &c),
            None => false,
        };
        if !drop {
            let ghost old_k = views(kept@);
            kept.push(clone_chars(&ls[i]));
            assert(views(kept@) =~= old_k.push(dl[i as int]));
        }
        i = i + 1;
    }
    assert(dl.take(ls.len() as int) == dl);
    let mut out = join_lines_nl(&kept);
    let preserve = cv.len() > 0 && cv[cv.len() - 1] == '\n';
    if !preserve && out.len() > 0 && out[out.len() - 1] == '\n' {
        out.pop();
    }
    from_chars(&out)
}

// ---------------------------------------------------------------------------
// Appending entries
// ---------------------------------------------------------------------------

/// Paths of the `export-ignore` entry lines of `ls`, in order.
pub open spec fn ei_paths(ls: Seq<Seq<char>>) -> Seq<Seq<char>>
    decreases ls.len(),
{
    if ls.len() == 0 {
        seq![]
    } else {
        match ei_path(ls.last()) {
            Some(c) => ei_paths(ls.drop_last()).push(c),
            None => ei_paths(ls.drop_last()),
        }
    }
}

/// Normalized path of a proposed entry: its first token without leading
/// or trailing slashes.
pub open spec fn entry_norm(e: Seq<char>) -> Seq<char> {
    strip_slashes_spec(first_token(e))
}

/// Number of spaces between the path and `export-ignore` so that the word
/// starts at byte column `align`; at least one.
pub open spec fn pad_width(key: Seq<char>, align: nat) -> nat {
    if byte_len(key) < align {
        (align - byte_len(key)) as nat
    } else {
        1
    }
}

pub open spec fn spaces(n: nat) -> Seq<char> {
    Seq::new(n, |i: int| ' ')
}

/// The line written for a proposed entry: re-padded when the style is
/// aligned, as given otherwise.
pub open spec fn format_entry(e: Seq<char>, align: nat) -> Seq<char> {
    if align > 0 {
        let key = first_token(e);
        key + spaces(pad_width(key, align)) + ei_word()
    } else {
        e
    }
}

/// The lines to add: each entry whose normalized path is neither already
/// excluded nor named by an earlier entry, formatted for the style.
pub open spec fn additions(existing: Seq<Seq<char>>, entries: Seq<Seq<char>>, align: nat) -> Seq<
    Seq<char>,
>
    decreases entries.len(),
{
    if entries.len() == 0 {
        seq![]
    } else {
        let pre = entries.drop_last();
        let e = entries.last();
        let a = additions(existing, pre, align);
        if existing.contains(entry_norm(e)) || pre.map_values(|x: Seq<char>| entry_norm(x)).contains(
            entry_norm(e),
        ) {
            a
        } else {
            a.push(format_entry(e, align))
        }
    }
}

/// `c` ended by a newline unless it is empty or already ends with one.
pub open spec fn with_final_nl(c: Seq<char>) -> Seq<char> {
    if c.len() > 0 && c.last() != '\n' {
        c.push('\n')
    } else {
        c
    }
}

/// The content after appending the entries: the additions follow the
/// content, one per line; when the style is sorted and something was
/// added, the other lines come first in their order, then the
/// `export-ignore` lines stably sorted by key.
pub open spec fn apply_entries_spec(content: Seq<char>, entries: Seq<Seq<char>>, style: Style) -> Seq<
    char,
> {
    let adds = additions(ei_paths(lines(content)), entries, style.align_col as nat);
    let body = with_final_nl(content) + join_nl(adds);
    if style.sorted && adds.len() > 0 {
        let bl = lines(body);
        join_nl(other_lines(bl) + sort_by_key_spec(ei_lines(bl)))
    } else {
        body
    }
}

proof fn lemma_push_contains(s: Seq<Seq<char>>, a: Seq<char>)
    ensures
        forall|x: Seq<char>| #[trigger] s.push(a).contains(x) <==> (s.contains(x) || x == a),
{
    assert forall|x: Seq<char>| #[trigger] s.push(a).contains(x) <==> (s.contains(x) || x == a) by {
        if s.push(a).contains(x) {
            let k = choose|k: int| 0 <= k < s.push(a).len() && s.push(a)[k] == x;
            if k < s.len() {
                assert(s[k] == x);
            }
        }
        if s.contains(x) {
            let k = choose|k: int| 0 <= k < s.len() && s[k] == x;
            assert(s.push(a)[k] == x);
        }
        if x == a {
            assert(s.push(a)[s.len() as int] == x);
        }
    }
}

fn ei_paths_exec(ls: &Vec<Vec<char>>) -> (r: Vec<Vec<char>>)
    ensures
        views(r@) == ei_paths(views(ls@)),
{
    let ghost dl = views(ls@);
    let mut r: Vec<Vec<char>> = Vec::new();
    let mut i: usize = 0;
    while i < ls.len()
        invariant
            i <= ls.len(),
            dl == views(ls@),
            views(r@) == ei_paths(dl.take(i as int)),
        decreases ls.len() - i,
    {
        assert(dl.take(i + 1).drop_last() == dl.take(i as int));
        assert(dl.take(i + 1).last() == ls@[i as int]@);
        match ei_path_exec(&ls[i]) {
            Some(c) => {
                let ghost old_r = views(r@);
                r.push(c);
                assert(views(r@) =~= old_r.push(ei_path(dl[i as int])->0));
            },
            None => {},
        }
        i = i + 1;
    }
    assert(dl.take(ls.len() as int) == dl);
    r
}

fn format_entry_exec(e: &Vec<char>, key: &Vec<char>, align: usize) -> (r: Vec<char>)
    requires
        key@ == first_token(e@),
    ensures
        r@ == format_entry(e@, align as nat),
{
    if align == 0 {
        return clone_chars(e);
    }
    let pad: usize = match byte_len_prefix(key, key.len()) {
        Some(bl) => if align > bl {
            align - bl
        } else {
            1
        },
        None => 1,
    };
    assert(key@.take(key.len() as int) == key@);
    let mut r = clone_chars(key);
    let mut k: usize = 0;
    while k < pad
        invariant
            k <= pad,
            r@ == key@ + spaces(k as nat),
        decreases pad - k,
    {
        r.push(' ');
        assert(spaces((k + 1) as nat) == spaces(k as nat).push(' '));
        k = k + 1;
    }
    let word = ei_word_chars();
    append_chars(&mut r, &word);
    r
}

/// Apply the given entries to `content`, respecting the detected style.
/// Returns the new content. Entries whose path is already present are deduped.
pub fn apply_entries(content: &str, entries_to_add: &[&str], style: Style) -> (r: String)
    ensures
        r@ == apply_entries_spec(content@, str_views(entries_to_add@), style),
{
    let ghost ev = str_views(entries_to_add@);
    let cv = to_chars(content);
    let ls = split_lines(&cv);
    let ghost ep = ei_paths(lines(content@));
    let mut existing = ei_paths_exec(&ls);
    let ghost align = style.align_col as nat;
    let mut new_lines: Vec<Vec<char>> = Vec::new();
    let mut i: usize = 0;
    while i < entries_to_add.len()
        invariant
            i <= entries_to_add.len(),
            ev == str_views(entries_to_add@),
            ep == ei_paths(lines(content@)),
            align == style.align_col as nat,
            forall|x: Seq<char>|
                views(existing@).contains(x) <==> (ep.contains(x) || ev.take(i as int).map_values(
                    |y: Seq<char>| entry_norm(y),
                ).contains(x)),
            views(new_lines@) == additions(ep, ev.take(i as int), align),
        decreases entries_to_add.len() - i,
    {
        let raw = to_chars(entries_to_add[i]);
        let key = first_token_exec(&raw);
        let norm = strip_slashes_chars(&key);
        let ghost pre = ev.take(i as int);
        let ghost pre_norms = pre.map_values(|y: Seq<char>| entry_norm(y));
        assert(ev.take(i + 1).drop_last() == pre);
        assert(ev.take(i + 1).last() == raw@);
        assert(ev.take(i + 1).map_values(|y: Seq<char>| entry_norm(y)) =~= pre_norms.push(norm@));
        let ghost old_e = views(existing@);
        assert forall|x: Seq<char>| old_e.contains(x) <==> (ep.contains(x) || pre_norms.contains(x)) by {
            assert(views(existing@).contains(x) <==> (ep.contains(x) || pre_norms.contains(x)));
        }
        proof {
            lemma_push_contains(pre_norms, norm@);
        }
        if contains_chars(&existing, &norm) {
            assert(ep.contains(norm@) || pre_norms.contains(norm@));
        } else {
            let line = format_entry_exec(&raw, &key, style.align_col);
            let ghost old_n = views(new_lines@);
            new_lines.push(line);
            assert(views(new_lines@) =~= old_n.push(format_entry(raw@, align)));
            existing.push(norm);
            assert(views(existing@) =~= old_e.push(entry_norm(raw@)));
            proof {
                lemma_push_contains(old_e, entry_norm(raw@));
            }
        }
        i = i + 1;
    }
    assert(ev.take(entries_to_add.len() as int) == ev);
    let mut body = cv;
    if body.len() > 0 && body[body.len() - 1] != '\n' {
        body.push('\n');
    }
    let joined = join_lines_nl(&new_lines);
    append_chars(&mut body, &joined);
    if style.sorted && new_lines.len() > 0 {
        let bl = split_lines(&body);
        let (ei, other) = partition_ei(&bl);
        let mut sorted_ei = sort_lines_by_key(&ei);
        let mut all = other;
        let ghost o = views(all@);
        let ghost se = views(sorted_ei@);
        all.append(&mut sorted_ei);
        assert(views(all@) =~= o + se);
        let out = join_lines_nl(&all);
        from_chars(&out)
    } else {
        from_chars(&body)
    }
}


// ---------------------------------------------------------------------------
// Laws
// ---------------------------------------------------------------------------

/// The entries that appending keeps, unformatted: each whose normalized
/// path is neither already excluded nor named by an earlier entry.
pub open spec fn chosen_entries(existing: Seq<Seq<char>>, entries: Seq<Seq<char>>) -> Seq<Seq<char>>
    decreases entries.len(),
{
    if entries.len() == 0 {
        seq![]
    } else {
        let pre = entries.drop_last();
        let e = entries.last();
        let c = chosen_entries(existing, pre);
        if existing.contains(entry_norm(e)) || pre.map_values(|x: Seq<char>| entry_norm(x)).contains(
            entry_norm(e),
        ) {
            c
        } else {
            c.push(e)
        }
    }
}

proof fn lemma_chosen_from(existing: Seq<Seq<char>>, entries: Seq<Seq<char>>)
    ensures
        forall|x: Seq<char>| #[trigger] chosen_entries(existing, entries).contains(x) ==> entries.contains(x),
    decreases entries.len(),
{
    if entries.len() > 0 {
        let pre = entries.drop_last();
        lemma_chosen_from(existing, pre);
        lemma_push_contains(chosen_entries(existing, pre), entries.last());
        assert forall|x: Seq<char>| #[trigger] chosen_entries(existing, entries).contains(x) implies entries.contains(x) by {
            if chosen_entries(existing, pre).contains(x) {
                let k = choose|k: int| 0 <= k < pre.len() && pre[k] == x;
                assert(entries[k] == x);
            } else {
                assert(entries[entries.len() - 1] == x);
            }
        }
    }
}

/// Appending never writes a path twice: the lines added are the chosen
/// entries, formatted for the style; no chosen path is already excluded
/// by the file, and no two chosen entries name the same path.
pub proof fn appended_paths_are_new(existing: Seq<Seq<char>>, entries: Seq<Seq<char>>, align: nat)
    ensures
        additions(existing, entries, align) == chosen_entries(existing, entries).map_values(
            |e: Seq<char>| format_entry(e, align),
        ),
        chosen_entries(existing, entries).map_values(|e: Seq<char>| entry_norm(e)).no_duplicates(),
        forall|i: int|
            0 <= i < chosen_entries(existing, entries).len() ==> !existing.contains(
                entry_norm(#[trigger] chosen_entries(existing, entries)[i]),
            ),
    decreases entries.len(),
{
    if entries.len() > 0 {
        let pre = entries.drop_last();
        let e = entries.last();
        appended_paths_are_new(existing, pre, align);
        let c = chosen_entries(existing, pre);
        lemma_chosen_from(existing, pre);
        let skip = existing.contains(entry_norm(e)) || pre.map_values(|x: Seq<char>| entry_norm(x)).contains(
            entry_norm(e),
        );
        if !skip {
            let cn = c.map_values(|x: Seq<char>| entry_norm(x));
            assert(chosen_entries(existing, entries) == c.push(e));
            assert(c.push(e).map_values(|x: Seq<char>| format_entry(x, align)) =~= c.map_values(
                |x: Seq<char>| format_entry(x, align),
            ).push(format_entry(e, align)));
            assert(c.push(e).map_values(|x: Seq<char>| entry_norm(x)) =~= cn.push(entry_norm(e)));
            assert forall|a: int, b: int| 0 <= a < b < cn.push(entry_norm(e)).len() implies cn.push(
                entry_norm(e),
            )[a] != cn.push(entry_norm(e))[b] by {
                if b == cn.len() {
                    assert(c.contains(c[a]));
                    assert(pre.contains(c[a]));
                    let k = choose|k: int| 0 <= k < pre.len() && pre[k] == c[a];
                    assert(pre.map_values(|x: Seq<char>| entry_norm(x))[k] == entry_norm(c[a]));
                }
            }
        }
    }
}

/// Removal is insensitive to leading and trailing slashes: two lists
/// that name the same normalized paths remove the same lines.
pub proof fn removal_ignores_slashes(content: Seq<char>, a: Seq<Seq<char>>, b: Seq<Seq<char>>)
    requires
        removal_norms(a) == removal_norms(b),
    ensures
        apply_removals_spec(content, a) == apply_removals_spec(content, b),
{
    assert(a.len() == removal_norms(a).len());
    assert(b.len() == removal_norms(b).len());
}

/// A content without `export-ignore` lines has no style to keep.
pub proof fn no_entries_no_style(content: Seq<char>)
    requires
        ei_lines(lines(content)).len() == 0,
    ensures
        detect_spec(content) == (Style { sorted: false, align_col: 0 }),
{
}

proof fn lemma_trim_start_slash(s: Seq<char>)
    ensures
        trim_start_slash(s).len() > 0 ==> trim_start_slash(s)[0] != '/',
    decreases s.len(),
{
    if s.len() > 0 && s[0] == '/' {
        lemma_trim_start_slash(s.drop_first());
    }
}

proof fn lemma_trim_end_slash(s: Seq<char>)
    ensures
        trim_end_slash(s) == s.take(trim_end_slash(s).len() as int),
        trim_end_slash(s).len() <= s.len(),
        trim_end_slash(s).len() > 0 ==> trim_end_slash(s).last() != '/',
    decreases s.len(),
{
    if s.len() > 0 && s.last() == '/' {
        lemma_trim_end_slash(s.drop_last());
        assert(s.drop_last().take(trim_end_slash(s).len() as int) =~= s.take(
            trim_end_slash(s).len() as int,
        ));
    } else {
        assert(s.take(s.len() as int) =~= s);
    }
}

/// A normalized path neither starts nor ends with `/`.
pub proof fn stripped_path_has_no_edge_slash(s: Seq<char>)
    ensures
        strip_slashes_spec(s).len() > 0 ==> strip_slashes_spec(s)[0] != '/' && strip_slashes_spec(
            s,
        ).last() != '/',
{
    let t = trim_start_slash(s);
    lemma_trim_start_slash(s);
    lemma_trim_end_slash(t);
    if trim_end_slash(t).len() > 0 {
        assert(trim_end_slash(t)[0] == t[0]);
    }
}


proof fn lemma_ei_lines_concat(a: Seq<Seq<char>>, b: Seq<Seq<char>>)
    ensures
        ei_lines(a + b) == ei_lines(a) + ei_lines(b),
    decreases b.len(),
{
    if b.len() == 0 {
        assert(a + b =~= a);
        assert(ei_lines(a) + ei_lines(b) =~= ei_lines(a));
    } else {
        lemma_ei_lines_concat(a, b.drop_last());
        assert((a + b).drop_last() =~= a + b.drop_last());
        assert((a + b).last() == b.last());
        if is_ei_line(b.last()) {
            assert(ei_lines(a) + ei_lines(b) =~= (ei_lines(a) + ei_lines(b.drop_last())).push(b.last()));
        }
    }
}

proof fn lemma_ei_lines_of_other(x: Seq<Seq<char>>)
    ensures
        ei_lines(other_lines(x)).len() == 0,
    decreases x.len(),
{
    if x.len() > 0 {
        lemma_ei_lines_of_other(x.drop_last());
        if !is_ei_line(x.last()) {
            let o = other_lines(x.drop_last());
            assert(other_lines(x) == o.push(x.last()));
            assert(o.push(x.last()).drop_last() =~= o);
        }
    }
}

proof fn lemma_ei_lines_all(y: Seq<Seq<char>>)
    requires
        forall|i: int| 0 <= i < y.len() ==> is_ei_line(#[trigger] y[i]),
    ensures
        ei_lines(y) == y,
    decreases y.len(),
{
    if y.len() > 0 {
        lemma_ei_lines_all(y.drop_last());
        assert(is_ei_line(y[y.len() - 1]));
        assert(y.drop_last().push(y.last()) =~= y);
    }
}

proof fn lemma_line_parts_from(x: Seq<Seq<char>>)
    ensures
        forall|k: int| 0 <= k < ei_lines(x).len() ==> is_ei_line(#[trigger] ei_lines(x)[k]) && x.contains(ei_lines(x)[k]),
        forall|k: int| 0 <= k < other_lines(x).len() ==> x.contains(#[trigger] other_lines(x)[k]),
    decreases x.len(),
{
    if x.len() > 0 {
        let pre = x.drop_last();
        lemma_line_parts_from(pre);
        assert forall|k: int| 0 <= k < ei_lines(x).len() implies is_ei_line(#[trigger] ei_lines(x)[k]) && x.contains(ei_lines(x)[k]) by {
            if k < ei_lines(pre).len() {
                assert(ei_lines(x)[k] == ei_lines(pre)[k]);
                let m = choose|m: int| 0 <= m < pre.len() && pre[m] == ei_lines(pre)[k];
                assert(x[m] == pre[m]);
            } else {
                assert(ei_lines(x)[k] == x[x.len() - 1]);
            }
        }
        assert forall|k: int| 0 <= k < other_lines(x).len() implies x.contains(#[trigger] other_lines(x)[k]) by {
            if k < other_lines(pre).len() {
                assert(other_lines(x)[k] == other_lines(pre)[k]);
                let m = choose|m: int| 0 <= m < pre.len() && pre[m] == other_lines(pre)[k];
                assert(x[m] == pre[m]);
            } else {
                assert(other_lines(x)[k] == x[x.len() - 1]);
            }
        }
    }
}

proof fn lemma_sort_members(ls: Seq<Seq<char>>)
    ensures
        forall|k: int| 0 <= k < sort_by_key_spec(ls).len() ==> ls.contains(#[trigger] sort_by_key_spec(ls)[k]),
    decreases ls.len(),
{
    if ls.len() > 0 {
        let pre = ls.drop_last();
        lemma_sort_members(pre);
        let t = sort_by_key_spec(pre);
        let p = insert_pos(t, sort_key(ls.last()), 0);
        lemma_insert_pos(t, sort_key(ls.last()), 0);
        assert forall|k: int| 0 <= k < sort_by_key_spec(ls).len() implies ls.contains(#[trigger] sort_by_key_spec(ls)[k]) by {
            let r = t.insert(p, ls.last());
            assert(sort_by_key_spec(ls) == r);
            let x = r[k];
            if k == p {
                assert(ls[ls.len() - 1] == x);
            } else {
                let kk = if k < p { k } else { k - 1 };
                assert(t[kk] == x);
                assert(pre.contains(x));
                let m = choose|m: int| 0 <= m < pre.len() && pre[m] == x;
                assert(ls[m] == x);
            }
        }
    }
}

proof fn lemma_format_entry_plain(e: Seq<char>, align: nat)
    requires
        !e.contains('\r'),
        !e.contains('\n'),
    ensures
        !format_entry(e, align).contains('\r'),
        !format_entry(e, align).contains('\n'),
{
    if align > 0 {
        let key = first_token(e);
        let a = skip_ws(e, 0);
        lemma_skip_ws_bounds(e, 0);
        lemma_skip_token_bounds(e, a);
        let f = format_entry(e, align);
        assert(f == key + spaces(pad_width(key, align)) + ei_word());
        assert forall|k: int| 0 <= k < f.len() implies f[k] != '\r' && f[k] != '\n' by {
            let kl = key.len() as int;
            let sl = pad_width(key, align) as int;
            if k < kl {
                assert(f[k] == e[a + k]);
                if e[a + k] == '\r' || e[a + k] == '\n' {
                    assert(e.contains(e[a + k]));
                }
            } else if k < kl + sl {
                assert(f[k] == ' ');
            } else {
                assert(f[k] == ei_word()[k - kl - sl]);
            }
        }
    }
}

/// With a sorted style, appending something keeps the `export-ignore`
/// lines sorted by path: every `export-ignore` line of the result, in
/// order, has a key no smaller than the one before, and the result is
/// detected as sorted. Stated for contents and entries without carriage
/// returns, and entries without newlines.
pub proof fn sorted_style_stays_sorted(content: Seq<char>, entries: Seq<Seq<char>>, style: Style)
    requires
        style.sorted,
        additions(ei_paths(lines(content)), entries, style.align_col as nat).len() > 0,
        !content.contains('\r'),
        forall|i: int|
            0 <= i < entries.len() ==> !(#[trigger] entries[i]).contains('\r') && !entries[i].contains(
                '\n',
            ),
    ensures
        lines_sorted(ei_lines(lines(apply_entries_spec(content, entries, style)))),
        ei_lines(lines(apply_entries_spec(content, entries, style))).len() > 0 ==> detect_spec(
            apply_entries_spec(content, entries, style),
        ).sorted,
{
    let align = style.align_col as nat;
    let existing = ei_paths(lines(content));
    let adds = additions(existing, entries, align);
    let body = with_final_nl(content) + join_nl(adds);
    let result = apply_entries_spec(content, entries, style);
    appended_paths_are_new(existing, entries, align);
    lemma_chosen_from(existing, entries);
    let chosen = chosen_entries(existing, entries);
    assert forall|i: int| 0 <= i < adds.len() implies !(#[trigger] adds[i]).contains('\r') && !adds[i].contains('\n') by {
        assert(adds[i] == format_entry(chosen[i], align));
        assert(chosen.contains(chosen[i]));
        let m = choose|m: int| 0 <= m < entries.len() && entries[m] == chosen[i];
        lemma_format_entry_plain(entries[m], align);
    }
    lemma_body_lines(content, adds);
    lemma_resorted_lines(body);
    let bl = lines(body);
    let ei = ei_lines(bl);
    let srt = sort_by_key_spec(ei);
    let oth = other_lines(bl);
    assert(result == join_nl(oth + srt));
    assert(lines(result) == oth + srt);
    lemma_ei_lines_concat(oth, srt);
    lemma_ei_lines_of_other(bl);
    lemma_line_parts_from(bl);
    lemma_sort_members(ei);
    assert forall|i: int| 0 <= i < srt.len() implies is_ei_line(#[trigger] srt[i]) by {
        assert(ei.contains(srt[i]));
        let k = choose|k: int| 0 <= k < ei.len() && ei[k] == srt[i];
        assert(is_ei_line(ei[k]));
    }
    lemma_ei_lines_all(srt);
    assert(ei_lines(lines(result)) =~= srt);
    lemma_sort_by_key_sorted(ei);
    let keys = srt.map_values(|l: Seq<char>| sort_key(l));
    assert forall|i: int, j: int| 0 <= i < j < keys.len() implies lex_le(#[trigger] keys[i], #[trigger] keys[j]) by {
        assert(keys[i] == sort_key(srt[i]) && keys[j] == sort_key(srt[j]));
    }
}

/// A file detected as sorted stays sorted whatever is appended to it in
/// its own style. Stated for contents and entries without carriage
/// returns, and entries without newlines.
pub proof fn sorted_file_stays_sorted(content: Seq<char>, entries: Seq<Seq<char>>)
    requires
        detect_spec(content).sorted,
        !content.contains('\r'),
        forall|i: int|
            0 <= i < entries.len() ==> !(#[trigger] entries[i]).contains('\r') && !entries[i].contains(
                '\n',
            ),
    ensures
        lines_sorted(ei_lines(lines(apply_entries_spec(content, entries, detect_spec(content))))),
{
    let style = detect_spec(content);
    let adds = additions(ei_paths(lines(content)), entries, style.align_col as nat);
    if adds.len() > 0 {
        sorted_style_stays_sorted(content, entries, style);
    } else {
        let result = apply_entries_spec(content, entries, style);
        assert(join_nl(adds) =~= Seq::<char>::empty());
        assert(result =~= with_final_nl(content));
        if content.len() > 0 && content.last() != '\n' {
            lemma_lines_push_nl(content);
        }
        let ei = ei_lines(lines(content));
        let keys = ei.map_values(|l: Seq<char>| sort_key(l));
        assert forall|i: int, j: int| 0 <= i < j < ei.len() implies lex_le(sort_key(#[trigger] ei[i]), sort_key(#[trigger] ei[j])) by {
            assert(keys[i] == sort_key(ei[i]) && keys[j] == sort_key(ei[j]));
        }
    }
}

proof fn lemma_spaces_bytes(n: nat)
    ensures
        byte_len(spaces(n)) == n,
    decreases n,
{
    if n > 0 {
        lemma_spaces_bytes((n - 1) as nat);
        assert(spaces(n).drop_last() =~= spaces((n - 1) as nat));
        assert(spaces(n).last() == ' ');
        assert((' ' as u32) < 0x80);
    }
}

/// With an aligned style, an appended line is its path, spaces, then
/// `export-ignore`, which starts at the alignment column (a byte offset),
/// or one space after a path that reaches that column.
pub proof fn aligned_entry_column(e: Seq<char>, align: nat)
    requires
        align > 0,
    ensures
        ({
            let key = first_token(e);
            let f = format_entry(e, align);
            let n = (key.len() + pad_width(key, align)) as int;
            &&& f.take(n) == key + spaces(pad_width(key, align))
            &&& f.skip(n) == ei_word()
            &&& byte_len(f.take(n)) == if byte_len(key) < align {
                align
            } else {
                byte_len(key) + 1
            }
        }),
{
    let key = first_token(e);
    let sp = spaces(pad_width(key, align));
    let f = format_entry(e, align);
    let n = (key.len() + pad_width(key, align)) as int;
    assert(f.take(n) =~= key + sp);
    assert(f.skip(n) =~= ei_word());
    lemma_byte_len_concat(key, sp);
    lemma_spaces_bytes(pad_width(key, align));
}


proof fn lemma_ei_paths_concat(a: Seq<Seq<char>>, b: Seq<Seq<char>>)
    ensures
        ei_paths(a + b) == ei_paths(a) + ei_paths(b),
    decreases b.len(),
{
    if b.len() == 0 {
        assert(a + b =~= a);
        assert(ei_paths(a) + ei_paths(b) =~= ei_paths(a));
    } else {
        lemma_ei_paths_concat(a, b.drop_last());
        assert((a + b).drop_last() =~= a + b.drop_last());
        assert((a + b).last() == b.last());
        match ei_path(b.last()) {
            Some(c) => {
                assert(ei_paths(a) + ei_paths(b) =~= (ei_paths(a) + ei_paths(b.drop_last())).push(c));
            },
            None => {},
        }
    }
}

proof fn lemma_ei_paths_has(ls: Seq<Seq<char>>, k: int)
    requires
        0 <= k < ls.len(),
        ei_path(ls[k]) is Some,
    ensures
        ei_paths(ls).contains(ei_path(ls[k])->0),
    decreases ls.len(),
{
    let pre = ls.drop_last();
    if k == ls.len() - 1 {
        let ps = ei_paths(ls);
        assert(ps[ps.len() - 1] == ei_path(ls[k])->0);
    } else {
        assert(pre[k] == ls[k]);
        lemma_ei_paths_has(pre, k);
        let q = ei_paths(pre);
        let m = choose|m: int| 0 <= m < q.len() && q[m] == ei_path(ls[k])->0;
        match ei_path(ls.last()) {
            Some(c) => {
                assert(q.push(c)[m] == q[m]);
            },
            None => {},
        }
    }
}

proof fn lemma_sort_keeps(ls: Seq<Seq<char>>)
    ensures
        forall|k: int| 0 <= k < ls.len() ==> sort_by_key_spec(ls).contains(#[trigger] ls[k]),
    decreases ls.len(),
{
    if ls.len() > 0 {
        let pre = ls.drop_last();
        lemma_sort_keeps(pre);
        let t = sort_by_key_spec(pre);
        let p = insert_pos(t, sort_key(ls.last()), 0);
        lemma_insert_pos(t, sort_key(ls.last()), 0);
        let r = t.insert(p, ls.last());
        assert forall|k: int| 0 <= k < ls.len() implies sort_by_key_spec(ls).contains(#[trigger] ls[k]) by {
            if k == ls.len() - 1 {
                assert(r[p] == ls[k]);
            } else {
                assert(pre[k] == ls[k]);
                assert(t.contains(pre[k]));
                let m = choose|m: int| 0 <= m < t.len() && t[m] == pre[k];
                if m < p {
                    assert(r[m] == t[m]);
                } else {
                    assert(r[m + 1] == t[m]);
                }
            }
        }
    }
}

proof fn lemma_line_parts_cover(x: Seq<Seq<char>>)
    ensures
        forall|k: int| 0 <= k < x.len() ==> ei_lines(x).contains(#[trigger] x[k]) || other_lines(x).contains(x[k]),
    decreases x.len(),
{
    if x.len() > 0 {
        let pre = x.drop_last();
        lemma_line_parts_cover(pre);
        assert forall|k: int| 0 <= k < x.len() implies ei_lines(x).contains(#[trigger] x[k]) || other_lines(x).contains(x[k]) by {
            if k == x.len() - 1 {
                if is_ei_line(x.last()) {
                    assert(ei_lines(x)[ei_lines(x).len() - 1] == x[k]);
                } else {
                    assert(other_lines(x)[other_lines(x).len() - 1] == x[k]);
                }
            } else {
                assert(pre[k] == x[k]);
                if ei_lines(pre).contains(pre[k]) {
                    let m = choose|m: int| 0 <= m < ei_lines(pre).len() && ei_lines(pre)[m] == pre[k];
                    assert(ei_lines(x)[m] == ei_lines(pre)[m]);
                } else {
                    let m = choose|m: int| 0 <= m < other_lines(pre).len() && other_lines(pre)[m] == pre[k];
                    assert(other_lines(x)[m] == other_lines(pre)[m]);
                }
            }
        }
    }
}

proof fn lemma_norms_covered(existing: Seq<Seq<char>>, entries: Seq<Seq<char>>)
    ensures
        forall|k: int|
            0 <= k < entries.len() ==> existing.contains(entry_norm(#[trigger] entries[k]))
                || exists|j: int| 0 <= j < chosen_entries(existing, entries).len()
                    && entry_norm(chosen_entries(existing, entries)[j]) == entry_norm(entries[k]),
    decreases entries.len(),
{
    if entries.len() > 0 {
        let pre = entries.drop_last();
        lemma_norms_covered(existing, pre);
        let c = chosen_entries(existing, pre);
        let e = entries.last();
        let pn = pre.map_values(|x: Seq<char>| entry_norm(x));
        assert forall|k: int| 0 <= k < entries.len() implies existing.contains(entry_norm(#[trigger] entries[k]))
            || exists|j: int| 0 <= j < chosen_entries(existing, entries).len()
                && entry_norm(chosen_entries(existing, entries)[j]) == entry_norm(entries[k]) by {
            let ce = chosen_entries(existing, entries);
            if k < entries.len() - 1 {
                assert(pre[k] == entries[k]);
                if !existing.contains(entry_norm(pre[k])) {
                    let j = choose|j: int| 0 <= j < c.len() && entry_norm(c[j]) == entry_norm(pre[k]);
                    if !(existing.contains(entry_norm(e)) || pn.contains(entry_norm(e))) {
                        assert(ce[j] == c[j]);
                    }
                }
            } else {
                if existing.contains(entry_norm(e)) {
                } else if pn.contains(entry_norm(e)) {
                    let m = choose|m: int| 0 <= m < pn.len() && pn[m] == entry_norm(e);
                    assert(pre[m] == entries[m]);
                    assert(entry_norm(pre[m]) == entry_norm(e));
                    if !existing.contains(entry_norm(pre[m])) {
                        let j = choose|j: int| 0 <= j < c.len() && entry_norm(c[j]) == entry_norm(pre[m]);
                        assert(ce[j] == c[j]);
                    }
                } else {
                    assert(ce[ce.len() - 1] == e);
                }
            }
        }
    }
}

proof fn lemma_no_additions(existing: Seq<Seq<char>>, entries: Seq<Seq<char>>, align: nat)
    requires
        forall|k: int| 0 <= k < entries.len() ==> existing.contains(entry_norm(#[trigger] entries[k])),
    ensures
        additions(existing, entries, align).len() == 0,
    decreases entries.len(),
{
    if entries.len() > 0 {
        let pre = entries.drop_last();
        assert forall|k: int| 0 <= k < pre.len() implies existing.contains(entry_norm(#[trigger] pre[k])) by {
            assert(pre[k] == entries[k]);
        }
        lemma_no_additions(existing, pre, align);
        assert(existing.contains(entry_norm(entries[entries.len() - 1])));
    }
}

/// A proposed entry whose written line reads back as an `export-ignore`
/// line for its own normalized path.
pub open spec fn entry_reads_back(e: Seq<char>, align: nat) -> bool {
    ei_path(format_entry(e, align)) == Some(entry_norm(e))
}

/// The lines of a content with lines appended: its own, then those.
proof fn lemma_body_lines(content: Seq<char>, adds: Seq<Seq<char>>)
    requires
        !content.contains('\r'),
        forall|i: int| 0 <= i < adds.len() ==> !(#[trigger] adds[i]).contains('\r') && !adds[i].contains('\n'),
    ensures
        lines(with_final_nl(content) + join_nl(adds)) == lines(content) + adds,
        !(with_final_nl(content) + join_nl(adds)).contains('\r'),
{
    let wf = with_final_nl(content);
    assert forall|i: int| 0 <= i < adds.len() implies plain_line(#[trigger] adds[i]) by {
        if adds[i].len() > 0 && adds[i].last() == '\r' {
            assert(adds[i].contains('\r'));
        }
    }
    assert(lines(wf) == lines(content)) by {
        if content.len() > 0 && content.last() != '\n' {
            lemma_lines_push_nl(content);
        }
    }
    lemma_lines_append(wf, join_nl(adds), 0);
    lemma_lines_join(adds);
    lemma_join_nl_without(adds, '\r');
    let body = wf + join_nl(adds);
    if body.contains('\r') {
        let q = choose|q: int| 0 <= q < body.len() && body[q] == '\r';
        if q < wf.len() {
            if q < content.len() {
                assert(content[q] == '\r');
                assert(content.contains('\r'));
            }
        } else {
            assert(join_nl(adds)[q - wf.len()] == '\r');
            assert(join_nl(adds).contains('\r'));
        }
    }
}

/// The lines of the re-sorted content: the other lines, then the sorted
/// `export-ignore` ones; every line of the content is among them.
proof fn lemma_resorted_lines(body: Seq<char>)
    requires
        !body.contains('\r'),
    ensures
        ({
            let bl = lines(body);
            let all = other_lines(bl) + sort_by_key_spec(ei_lines(bl));
            &&& lines(join_nl(all)) == all
            &&& forall|k: int| 0 <= k < bl.len() ==> all.contains(#[trigger] bl[k])
        }),
{
    let bl = lines(body);
    let ei = ei_lines(bl);
    let srt = sort_by_key_spec(ei);
    let oth = other_lines(bl);
    let all = oth + srt;
    lemma_lines_no_cr(body, 0);
    lemma_lines_no_newline(body, 0);
    lemma_line_parts_from(bl);
    lemma_sort_members(ei);
    assert forall|i: int| 0 <= i < all.len() implies plain_line(#[trigger] all[i]) by {
        let y = all[i];
        if i < oth.len() {
            assert(y == oth[i]);
        } else {
            assert(y == srt[i - oth.len()]);
            assert(ei.contains(y));
            let q = choose|q: int| 0 <= q < ei.len() && ei[q] == y;
            assert(bl.contains(ei[q]));
        }
        assert(bl.contains(y));
        let m = choose|m: int| 0 <= m < bl.len() && bl[m] == y;
        assert(!bl[m].contains('\r'));
        assert(!bl[m].contains('\n'));
        if y.len() > 0 && y.last() == '\r' {
            assert(y.contains('\r'));
        }
    }
    lemma_lines_join(all);
    lemma_line_parts_cover(bl);
    lemma_sort_keeps(ei);
    assert forall|k: int| 0 <= k < bl.len() implies all.contains(#[trigger] bl[k]) by {
        let x = bl[k];
        if ei.contains(x) {
            let q = choose|q: int| 0 <= q < ei.len() && ei[q] == x;
            assert(srt.contains(ei[q]));
            let r = choose|r: int| 0 <= r < srt.len() && srt[r] == x;
            assert(all[oth.len() + r] == x);
        } else {
            let r = choose|r: int| 0 <= r < oth.len() && oth[r] == x;
            assert(all[r] == x);
        }
    }
}

proof fn lemma_skip_ws_cr(m: Seq<char>, i: int)
    requires
        0 <= i <= m.len(),
    ensures
        skip_ws(m.push('\r'), i) == if skip_ws(m, i) < m.len() {
            skip_ws(m, i)
        } else {
            m.len() + 1int
        },
    decreases m.len() - i,
{
    let l = m.push('\r');
    if i < m.len() {
        assert(l[i] == m[i]);
        if is_ws(m[i]) {
            lemma_skip_ws_cr(m, i + 1);
        }
    } else {
        assert(l[i] == '\r');
        assert(skip_ws(l, i + 1) == l.len());
    }
}

proof fn lemma_skip_token_cr(m: Seq<char>, i: int)
    requires
        0 <= i <= m.len(),
    ensures
        skip_token(m.push('\r'), i) == skip_token(m, i),
    decreases m.len() - i,
{
    let l = m.push('\r');
    if i < m.len() {
        assert(l[i] == m[i]);
        if !is_ws(m[i]) {
            lemma_skip_token_cr(m, i + 1);
        }
    } else {
        assert(l[i] == '\r');
    }
}

proof fn lemma_occurs_cr(m: Seq<char>, c: int)
    ensures
        occurs_at(m.push('\r'), ei_word(), c) == occurs_at(m, ei_word(), c),
{
    let l = m.push('\r');
    let w = ei_word();
    if occurs_at(l, w, c) {
        if c + 13 == l.len() {
            assert(l.subrange(c, c + 13)[12] == l[m.len() as int]);
            assert(w[12] == 'e');
        }
        assert(l.subrange(c, c + 13) =~= m.subrange(c, c + 13));
    }
    if occurs_at(m, w, c) {
        assert(l.subrange(c, c + 13) =~= m.subrange(c, c + 13));
    }
}

/// A carriage return at the end of a line changes nothing in its path.
proof fn lemma_ei_path_cr(m: Seq<char>)
    ensures
        ei_path(m.push('\r')) == ei_path(m),
{
    let l = m.push('\r');
    let n = m.len() as int;
    lemma_skip_ws_cr(m, 0);
    lemma_skip_ws_bounds(m, 0);
    let a = skip_ws(m, 0);
    if a < n {
        lemma_skip_token_cr(m, a);
        lemma_skip_token_bounds(m, a);
        let b = skip_token(m, a);
        lemma_skip_ws_cr(m, b);
        lemma_skip_ws_bounds(m, b);
        let c = skip_ws(m, b);
        if c < n {
            lemma_occurs_cr(m, c);
            if occurs_at(m, ei_word(), c) {
                lemma_skip_ws_cr(m, c + 13);
                lemma_skip_ws_bounds(m, c + 13);
            }
            assert(l.subrange(a, b) =~= m.subrange(a, b));
        } else {
            assert(!occurs_at(l, ei_word(), n + 1));
            assert(!occurs_at(m, ei_word(), n));
        }
    } else {
        assert(skip_token(l, n + 1) == n + 1);
        lemma_skip_token_bounds(m, n);
    }
}

/// Dropping a final carriage return changes nothing in a line's path.
proof fn lemma_ei_path_strip_cr(l: Seq<char>)
    ensures
        ei_path(strip_cr(l)) == ei_path(l),
{
    if l.len() > 0 && l.last() == '\r' {
        assert(l.drop_last().push('\r') =~= l);
        lemma_ei_path_cr(l.drop_last());
    }
}

/// Lines with the same paths, one by one, exclude the same paths.
proof fn lemma_same_paths(a: Seq<Seq<char>>, b: Seq<Seq<char>>)
    requires
        a.len() == b.len(),
        forall|i: int| 0 <= i < a.len() ==> ei_path(#[trigger] a[i]) == ei_path(b[i]),
    ensures
        ei_paths(a) == ei_paths(b),
    decreases a.len(),
{
    if a.len() > 0 {
        assert forall|i: int| 0 <= i < a.drop_last().len() implies ei_path(#[trigger] a.drop_last()[i]) == ei_path(b.drop_last()[i]) by {
            assert(a.drop_last()[i] == a[i] && b.drop_last()[i] == b[i]);
        }
        lemma_same_paths(a.drop_last(), b.drop_last());
        assert(ei_path(a[a.len() - 1]) == ei_path(b[b.len() - 1]));
    }
}

/// Every line of a re-sorted content is among its lines.
proof fn lemma_resorted_keeps(bl: Seq<Seq<char>>)
    ensures
        forall|k: int| 0 <= k < bl.len() ==> (other_lines(bl) + sort_by_key_spec(ei_lines(bl))).contains(#[trigger] bl[k]),
{
    let ei = ei_lines(bl);
    let srt = sort_by_key_spec(ei);
    let oth = other_lines(bl);
    let all = oth + srt;
    lemma_line_parts_cover(bl);
    lemma_sort_keeps(ei);
    assert forall|k: int| 0 <= k < bl.len() implies all.contains(#[trigger] bl[k]) by {
        let x = bl[k];
        if ei.contains(x) {
            let q = choose|q: int| 0 <= q < ei.len() && ei[q] == x;
            assert(srt.contains(ei[q]));
            let r = choose|r: int| 0 <= r < srt.len() && srt[r] == x;
            assert(all[oth.len() + r] == x);
        } else {
            let r = choose|r: int| 0 <= r < oth.len() && oth[r] == x;
            assert(all[r] == x);
        }
    }
}

/// Ending a content by a newline changes none of the paths it excludes.
proof fn lemma_final_nl_paths(content: Seq<char>)
    ensures
        ei_paths(lines(with_final_nl(content))) == ei_paths(lines(content)),
{
    if content.len() > 0 && content.last() != '\n' {
        let lw = lines(with_final_nl(content));
        let lc = lines(content);
        lemma_lines_push_nl_any(content);
        assert forall|i: int| 0 <= i < lw.len() implies ei_path(#[trigger] lw[i]) == ei_path(lc[i]) by {
            if i < lw.len() - 1 {
                assert(lw[i] == lw.drop_last()[i]);
                assert(lc[i] == lc.drop_last()[i]);
            } else {
                lemma_ei_path_strip_cr(lc[i]);
            }
        }
        lemma_same_paths(lw, lc);
    }
}

/// Re-sorting a content keeps every path it excludes.
proof fn lemma_resorted_paths(body: Seq<char>)
    ensures
        ({
            let bl = lines(body);
            let all = other_lines(bl) + sort_by_key_spec(ei_lines(bl));
            forall|k: int|
                0 <= k < bl.len() && ei_path(#[trigger] bl[k]) is Some ==> ei_paths(lines(join_nl(all))).contains(
                    ei_path(bl[k])->0,
                )
        }),
{
    let bl = lines(body);
    let ei = ei_lines(bl);
    let oth = other_lines(bl);
    let srt = sort_by_key_spec(ei);
    let all = oth + srt;
    lemma_lines_no_newline(body, 0);
    lemma_line_parts_from(bl);
    lemma_sort_members(ei);
    assert forall|i: int| 0 <= i < all.len() implies !(#[trigger] all[i]).contains('\n') by {
        let y = all[i];
        if i < oth.len() {
            assert(y == oth[i]);
        } else {
            assert(y == srt[i - oth.len()]);
            assert(ei.contains(y));
            let q = choose|q: int| 0 <= q < ei.len() && ei[q] == y;
            assert(bl.contains(ei[q]));
        }
        assert(bl.contains(y));
        let m = choose|m: int| 0 <= m < bl.len() && bl[m] == y;
        assert(!bl[m].contains('\n'));
    }
    lemma_lines_join_cr(all);
    lemma_resorted_keeps(bl);
    let mapped = all.map_values(|l: Seq<char>| strip_cr(l));
    assert forall|k: int| 0 <= k < bl.len() && ei_path(#[trigger] bl[k]) is Some implies ei_paths(
        lines(join_nl(all)),
    ).contains(ei_path(bl[k])->0) by {
        assert(all.contains(bl[k]));
        let r = choose|r: int| 0 <= r < all.len() && all[r] == bl[k];
        lemma_ei_path_strip_cr(bl[k]);
        assert(mapped[r] == strip_cr(bl[k]));
        lemma_ei_paths_has(mapped, r);
    }
}

/// After appending, the file excludes the path of every entry (whether it
/// was already excluded or has just been added). Stated for entries whose
/// written line reads back as their own path and that hold no carriage
/// return or newline; any content.
pub proof fn appended_paths_are_excluded(content: Seq<char>, entries: Seq<Seq<char>>, style: Style)
    requires
        forall|i: int|
            0 <= i < entries.len() ==> !(#[trigger] entries[i]).contains('\r') && !entries[i].contains(
                '\n',
            ) && entry_reads_back(entries[i], style.align_col as nat),
    ensures
        forall|k: int|
            0 <= k < entries.len() ==> ei_paths(lines(apply_entries_spec(content, entries, style))).contains(
                entry_norm(#[trigger] entries[k]),
            ),
{
    let align = style.align_col as nat;
    let existing = ei_paths(lines(content));
    let adds = additions(existing, entries, align);
    let body = with_final_nl(content) + join_nl(adds);
    let c1 = apply_entries_spec(content, entries, style);
    appended_paths_are_new(existing, entries, align);
    lemma_chosen_from(existing, entries);
    let chosen = chosen_entries(existing, entries);
    assert forall|i: int| 0 <= i < adds.len() implies !(#[trigger] adds[i]).contains('\r') && !adds[i].contains('\n') by {
        assert(adds[i] == format_entry(chosen[i], align));
        assert(chosen.contains(chosen[i]));
        let m = choose|m: int| 0 <= m < entries.len() && entries[m] == chosen[i];
        lemma_format_entry_plain(entries[m], align);
    }
    let wf = with_final_nl(content);
    let lc = lines(content);
    let lw = lines(wf);
    let bl = lines(body);
    // The lines of the body: those of the content ended by a newline, then
    // the added ones; the former exclude what the content excludes.
    assert forall|i: int| 0 <= i < adds.len() implies plain_line(#[trigger] adds[i]) by {
        if adds[i].len() > 0 && adds[i].last() == '\r' {
            assert(adds[i].contains('\r'));
        }
    }
    lemma_join_nl_ends(Seq::<Seq<char>>::empty());
    lemma_lines_append(wf, join_nl(adds), 0);
    lemma_lines_join(adds);
    assert(bl == lw + adds);
    lemma_final_nl_paths(content);
    let existing2 = ei_paths(lines(c1));
    assert forall|k: int| 0 <= k < bl.len() && ei_path(#[trigger] bl[k]) is Some implies existing2.contains(ei_path(bl[k])->0) by {
        if style.sorted && adds.len() > 0 {
            lemma_resorted_paths(body);
        } else {
            lemma_ei_paths_has(bl, k);
        }
    }
    lemma_norms_covered(existing, entries);
    assert forall|k: int| 0 <= k < entries.len() implies existing2.contains(entry_norm(#[trigger] entries[k])) by {
        let n = entry_norm(entries[k]);
        if existing.contains(n) {
            let m = choose|m: int| 0 <= m < existing.len() && existing[m] == n;
            lemma_ei_paths_origin(lw, m);
            let q = choose|q: int| 0 <= q < lw.len() && ei_path(lw[q]) == Some(n);
            assert(bl[q] == lw[q]);
        } else {
            let j = choose|j: int| 0 <= j < chosen.len() && entry_norm(chosen[j]) == n;
            assert(chosen.contains(chosen[j]));
            let m = choose|m: int| 0 <= m < entries.len() && entries[m] == chosen[j];
            assert(entry_reads_back(entries[m], align));
            assert(adds[j] == format_entry(chosen[j], align));
            assert(bl[lw.len() + j] == adds[j]);
        }
    }
}

/// Appending is idempotent: appending the same entries to the result
/// changes nothing more (so a second run finds no diff). Stated for
/// entries whose written line reads back as their own path and that hold
/// no carriage return or newline; any content.
pub proof fn appending_twice_changes_nothing(content: Seq<char>, entries: Seq<Seq<char>>, style: Style)
    requires
        forall|i: int|
            0 <= i < entries.len() ==> !(#[trigger] entries[i]).contains('\r') && !entries[i].contains(
                '\n',
            ) && entry_reads_back(entries[i], style.align_col as nat),
    ensures
        apply_entries_spec(apply_entries_spec(content, entries, style), entries, style)
            == apply_entries_spec(content, entries, style),
{
    let align = style.align_col as nat;
    let existing = ei_paths(lines(content));
    let adds = additions(existing, entries, align);
    let wf = with_final_nl(content);
    let body = wf + join_nl(adds);
    let c1 = apply_entries_spec(content, entries, style);
    appended_paths_are_excluded(content, entries, style);
    let existing2 = ei_paths(lines(c1));
    lemma_no_additions(existing2, entries, align);
    assert(c1.len() == 0 || c1.last() == '\n') by {
        if style.sorted && adds.len() > 0 {
            lemma_join_nl_ends(other_lines(lines(body)) + sort_by_key_spec(ei_lines(lines(body))));
        } else {
            lemma_join_nl_ends(adds);
            if adds.len() == 0 {
                assert(body =~= wf);
            } else {
                assert(body.last() == join_nl(adds).last());
            }
        }
    }
    assert(join_nl(Seq::<Seq<char>>::empty()) =~= Seq::<char>::empty());
    assert(with_final_nl(c1) + join_nl(additions(existing2, entries, align)) =~= c1);
}

proof fn lemma_join_nl_ends(ls: Seq<Seq<char>>)
    ensures
        join_nl(ls).len() == 0 || join_nl(ls).last() == '\n',
        ls.len() > 0 ==> join_nl(ls).len() > 0,
{
}

proof fn lemma_ei_paths_origin(ls: Seq<Seq<char>>, m: int)
    requires
        0 <= m < ei_paths(ls).len(),
    ensures
        exists|q: int| 0 <= q < ls.len() && ei_path(ls[q]) == Some(ei_paths(ls)[m]),
    decreases ls.len(),
{
    let pre = ls.drop_last();
    match ei_path(ls.last()) {
        Some(c) => {
            if m == ei_paths(pre).len() {
                assert(ei_path(ls[ls.len() - 1]) == Some(ei_paths(ls)[m]));
            } else {
                lemma_ei_paths_origin(pre, m);
                let q = choose|q: int| 0 <= q < pre.len() && ei_path(pre[q]) == Some(ei_paths(pre)[m]);
                assert(ls[q] == pre[q]);
            }
        },
        None => {
            lemma_ei_paths_origin(pre, m);
            let q = choose|q: int| 0 <= q < pre.len() && ei_path(pre[q]) == Some(ei_paths(pre)[m]);
            assert(ls[q] == pre[q]);
        },
    }
}


proof fn lemma_kept_lines_from(ls: Seq<Seq<char>>, norms: Seq<Seq<char>>)
    ensures
        forall|k: int|
            0 <= k < kept_lines(ls, norms).len() ==> ls.contains(#[trigger] kept_lines(ls, norms)[k])
                && !is_removed(kept_lines(ls, norms)[k], norms),
    decreases ls.len(),
{
    if ls.len() > 0 {
        let pre = ls.drop_last();
        lemma_kept_lines_from(pre, norms);
        let kp = kept_lines(pre, norms);
        assert forall|k: int| 0 <= k < kept_lines(ls, norms).len() implies ls.contains(
            #[trigger] kept_lines(ls, norms)[k],
        ) && !is_removed(kept_lines(ls, norms)[k], norms) by {
            let x = kept_lines(ls, norms)[k];
            if k < kp.len() {
                assert(x == kp[k]);
                let m = choose|m: int| 0 <= m < pre.len() && pre[m] == x;
                assert(ls[m] == x);
            } else {
                assert(x == ls[ls.len() - 1]);
            }
        }
    }
}

/// The lines of joined lines without their final newline: the lines
/// themselves, except a final empty one.
proof fn lemma_lines_join_open(ls: Seq<Seq<char>>)
    requires
        ls.len() > 0,
        forall|i: int| 0 <= i < ls.len() ==> plain_line(#[trigger] ls[i]),
    ensures
        forall|k: int| 0 <= k < lines(join_nl(ls).drop_last()).len() ==> ls.contains(
            #[trigger] lines(join_nl(ls).drop_last())[k],
        ),
{
    let pre = ls.drop_last();
    let l = ls.last();
    assert forall|i: int| 0 <= i < pre.len() implies plain_line(#[trigger] pre[i]) by {
        assert(pre[i] == ls[i]);
    }
    assert(join_nl(ls).drop_last() =~= join_nl(pre) + l);
    lemma_join_nl_ends(pre);
    lemma_lines_join(pre);
    lemma_lines_append(join_nl(pre), l, 0);
    assert(plain_line(ls[ls.len() - 1]));
    assert(lines(l).len() <= 1 && (lines(l).len() == 1 ==> lines(l)[0] == l)) by {
        if l.len() > 0 {
            assert forall|k: int| 0 <= k < l.len() implies l[k] != '\n' by {
                if l[k] == '\n' {
                    assert(l.contains('\n'));
                }
            }
            crate::text::lemma_next_nl_clear(l, 0);
            crate::text::lemma_next_nl_bounds(l, 0);
            lemma_next_nl_reaches_end(l);
            assert(l.subrange(0, l.len() as int) =~= l);
        }
    }
    assert forall|k: int| 0 <= k < lines(join_nl(ls).drop_last()).len() implies ls.contains(
        #[trigger] lines(join_nl(ls).drop_last())[k],
    ) by {
        let x = lines(join_nl(ls).drop_last())[k];
        if k < pre.len() {
            assert(x == pre[k]);
            assert(ls[k] == pre[k]);
        } else {
            assert(x == lines(l)[k - pre.len()]);
            assert(ls[ls.len() - 1] == x);
        }
    }
}

proof fn lemma_next_nl_reaches_end(l: Seq<char>)
    requires
        !l.contains('\n'),
    ensures
        next_nl(l, 0) == l.len(),
{
    crate::text::lemma_next_nl_bounds(l, 0);
    if next_nl(l, 0) < l.len() {
        assert(l[next_nl(l, 0)] == '\n');
        assert(l.contains('\n'));
    }
}

/// After removing, the file excludes none of the named paths (compared
/// without leading and trailing slashes). Stated for contents without
/// carriage returns.
pub proof fn removed_paths_are_gone(content: Seq<char>, paths: Seq<Seq<char>>)
    requires
        paths.len() > 0,
        !content.contains('\r'),
    ensures
        forall|k: int|
            0 <= k < ei_paths(lines(apply_removals_spec(content, paths))).len() ==> !removal_norms(
                paths,
            ).contains(#[trigger] ei_paths(lines(apply_removals_spec(content, paths)))[k]),
{
    let norms = removal_norms(paths);
    let lc = lines(content);
    let kept = kept_lines(lc, norms);
    let out = join_nl(kept);
    let result = apply_removals_spec(content, paths);
    lemma_kept_lines_from(lc, norms);
    lemma_lines_no_cr(content, 0);
    lemma_lines_no_newline(content, 0);
    assert forall|i: int| 0 <= i < kept.len() implies plain_line(#[trigger] kept[i]) by {
        let x = kept[i];
        assert(lc.contains(x));
        let m = choose|m: int| 0 <= m < lc.len() && lc[m] == x;
        assert(!lc[m].contains('\r'));
        assert(!lc[m].contains('\n'));
        if x.len() > 0 && x.last() == '\r' {
            assert(x.contains('\r'));
        }
    }
    let rl = lines(result);
    assert(forall|k: int| 0 <= k < rl.len() ==> kept.contains(#[trigger] rl[k])) by {
        if result == out {
            lemma_lines_join(kept);
            assert forall|k: int| 0 <= k < rl.len() implies kept.contains(#[trigger] rl[k]) by {
                assert(rl[k] == kept[k]);
            }
        } else {
            assert(result == out.drop_last());
            assert(kept.len() > 0);
            lemma_lines_join_open(kept);
        }
    }
    assert forall|k: int| 0 <= k < ei_paths(rl).len() implies !norms.contains(#[trigger] ei_paths(rl)[k]) by {
        lemma_ei_paths_origin(rl, k);
        let q = choose|q: int| 0 <= q < rl.len() && ei_path(rl[q]) == Some(ei_paths(rl)[k]);
        assert(kept.contains(rl[q]));
        let m = choose|m: int| 0 <= m < kept.len() && kept[m] == rl[q];
        assert(!is_removed(kept[m], norms));
    }
}


/// Appending excludes nothing new but the entries' paths: every path the
/// result excludes was excluded before or is the path of an entry. Stated
/// for entries whose written line reads back as their own path, and for
/// contents and entries without carriage returns and entries without
/// newlines.
pub proof fn appending_adds_only_entries(content: Seq<char>, entries: Seq<Seq<char>>, style: Style)
    requires
        !content.contains('\r'),
        forall|i: int|
            0 <= i < entries.len() ==> !(#[trigger] entries[i]).contains('\r') && !entries[i].contains(
                '\n',
            ) && entry_reads_back(entries[i], style.align_col as nat),
    ensures
        forall|k: int|
            0 <= k < ei_paths(lines(apply_entries_spec(content, entries, style))).len() ==> {
                let p = #[trigger] ei_paths(lines(apply_entries_spec(content, entries, style)))[k];
                ei_paths(lines(content)).contains(p) || entries.map_values(|e: Seq<char>| entry_norm(e)).contains(p)
            },
{
    let align = style.align_col as nat;
    let existing = ei_paths(lines(content));
    let adds = additions(existing, entries, align);
    let body = with_final_nl(content) + join_nl(adds);
    let result = apply_entries_spec(content, entries, style);
    appended_paths_are_new(existing, entries, align);
    lemma_chosen_from(existing, entries);
    let chosen = chosen_entries(existing, entries);
    assert forall|i: int| 0 <= i < adds.len() implies !(#[trigger] adds[i]).contains('\r') && !adds[i].contains('\n') by {
        assert(adds[i] == format_entry(chosen[i], align));
        assert(chosen.contains(chosen[i]));
        let m = choose|m: int| 0 <= m < entries.len() && entries[m] == chosen[i];
        lemma_format_entry_plain(entries[m], align);
    }
    lemma_body_lines(content, adds);
    let lc = lines(content);
    let bl = lines(body);
    let rl = lines(result);
    assert(forall|q: int| 0 <= q < rl.len() ==> bl.contains(#[trigger] rl[q])) by {
        if style.sorted && adds.len() > 0 {
            lemma_resorted_lines(body);
            let ei = ei_lines(bl);
            let srt = sort_by_key_spec(ei);
            let oth = other_lines(bl);
            lemma_line_parts_from(bl);
            lemma_sort_members(ei);
            assert forall|q: int| 0 <= q < rl.len() implies bl.contains(#[trigger] rl[q]) by {
                if q < oth.len() {
                    assert(rl[q] == oth[q]);
                } else {
                    assert(rl[q] == srt[q - oth.len()]);
                    assert(ei.contains(rl[q]));
                    let m = choose|m: int| 0 <= m < ei.len() && ei[m] == rl[q];
                    assert(bl.contains(ei[m]));
                }
            }
        } else {
            assert forall|q: int| 0 <= q < rl.len() implies bl.contains(#[trigger] rl[q]) by {
                assert(bl[q] == rl[q]);
            }
        }
    }
    let en = entries.map_values(|e: Seq<char>| entry_norm(e));
    assert forall|k: int| 0 <= k < ei_paths(rl).len() implies {
        let p = #[trigger] ei_paths(rl)[k];
        existing.contains(p) || en.contains(p)
    } by {
        let p = ei_paths(rl)[k];
        lemma_ei_paths_origin(rl, k);
        let q = choose|q: int| 0 <= q < rl.len() && ei_path(rl[q]) == Some(p);
        assert(bl.contains(rl[q]));
        let b = choose|b: int| 0 <= b < bl.len() && bl[b] == rl[q];
        if b < lc.len() {
            assert(lc[b] == bl[b]);
            lemma_ei_paths_has(lc, b);
        } else {
            let j = b - lc.len();
            assert(bl[b] == adds[j]);
            assert(adds[j] == format_entry(chosen[j], align));
            assert(chosen.contains(chosen[j]));
            let m = choose|m: int| 0 <= m < entries.len() && entries[m] == chosen[j];
            assert(entry_reads_back(entries[m], align));
            assert(en[m] == p);
        }
    }
}

/// Removing keeps a text free of carriage returns.
pub proof fn removal_adds_no_cr(content: Seq<char>, paths: Seq<Seq<char>>)
    requires
        !content.contains('\r'),
    ensures
        !apply_removals_spec(content, paths).contains('\r'),
{
    if paths.len() > 0 {
        let norms = removal_norms(paths);
        let lc = lines(content);
        let kept = kept_lines(lc, norms);
        lemma_kept_lines_from(lc, norms);
        lemma_lines_no_cr(content, 0);
        assert forall|i: int| 0 <= i < kept.len() implies !(#[trigger] kept[i]).contains('\r') by {
            assert(lc.contains(kept[i]));
            let m = choose|m: int| 0 <= m < lc.len() && lc[m] == kept[i];
            assert(!lc[m].contains('\r'));
        }
        lemma_join_nl_without(kept, '\r');
        let out = join_nl(kept);
        let r = apply_removals_spec(content, paths);
        if r.contains('\r') {
            let q = choose|q: int| 0 <= q < r.len() && r[q] == '\r';
            assert(out[q] == '\r');
            assert(out.contains('\r'));
        }
    }
}


proof fn lemma_kept_all(ls: Seq<Seq<char>>, norms: Seq<Seq<char>>)
    requires
        forall|k: int| 0 <= k < ls.len() ==> !is_removed(#[trigger] ls[k], norms),
    ensures
        kept_lines(ls, norms) == ls,
    decreases ls.len(),
{
    if ls.len() > 0 {
        assert forall|k: int| 0 <= k < ls.drop_last().len() implies !is_removed(#[trigger] ls.drop_last()[k], norms) by {
            assert(ls.drop_last()[k] == ls[k]);
        }
        lemma_kept_all(ls.drop_last(), norms);
        assert(!is_removed(ls[ls.len() - 1], norms));
        assert(ls.drop_last().push(ls.last()) =~= ls);
    }
}

/// The entry line `/P export-ignore` of a plain path `P` reads back as
/// `P`, and so does its normalized path.
proof fn lemma_entry_line_path(p: Seq<char>)
    requires
        p.len() > 0,
        forall|k: int| 0 <= k < p.len() ==> !is_ws(#[trigger] p[k]),
        p[0] != '/',
        p.last() != '/',
    ensures
        ({
            let e = "/"@ + p + " export-ignore"@;
            &&& ei_path(e) == Some(p)
            &&& entry_norm(e) == p
            &&& strip_slashes_spec("/"@ + p) == p
            &&& !e.contains('\n')
            &&& !e.contains('\r')
        }),
{
    reveal_strlit("/");
    reveal_strlit(" export-ignore");
    let e = "/"@ + p + " export-ignore"@;
    let n = p.len() as int;
    assert(e.len() == n + 15);
    assert forall|k: int| 0 <= k < n + 1 implies !is_ws(#[trigger] e[k]) by {
        if k > 0 {
            assert(e[k] == p[k - 1]);
        }
    }
    assert(e[n + 1] == ' ');
    assert(e[n + 2] == 'e');
    lemma_skip_ws_bounds(e, 0);
    assert(skip_ws(e, 0) == 0);
    lemma_skip_token_bounds(e, 0);
    let b = skip_token(e, 0);
    if b > n + 1 {
        assert(!is_ws(e[n + 1]));
    }
    assert(b == n + 1);
    lemma_skip_ws_bounds(e, n + 1);
    let c = skip_ws(e, n + 1);
    if c > n + 2 {
        assert(is_ws(e[n + 2]));
    }
    assert(c == n + 2);
    assert(e.subrange(n + 2, n + 15) =~= ei_word());
    assert(occurs_at(e, ei_word(), c));
    assert(skip_ws(e, n + 15) == e.len());
    let tok = e.subrange(0, n + 1);
    assert(tok.drop_first() =~= p);
    assert(tok =~= "/"@ + p);
    assert(strip_one_slash(tok) == p);
    assert(first_token(e) == tok);
    assert(trim_start_slash(p) == p);
    assert(trim_start_slash(tok) == trim_start_slash(tok.drop_first()));
    assert(trim_end_slash(p) == p);
    assert forall|k: int| 0 <= k < e.len() implies e[k] != '\n' && e[k] != '\r' by {
        if 0 < k < n + 1 {
            assert(e[k] == p[k - 1]);
            assert(!is_ws(p[k - 1]));
        }
    }
}

/// Removing a path undoes appending its entry: appending `/P export-ignore`
/// to a file that does not exclude `P`, then removing `/P`, gives the file
/// back. Stated for a path that is non-empty, holds no whitespace and
/// neither starts nor ends with `/`, and a file that is empty or ends with a
/// newline and holds no carriage return.
pub proof fn removing_undoes_appending(content: Seq<char>, p: Seq<char>)
    requires
        content.len() == 0 || content.last() == '\n',
        !content.contains('\r'),
        p.len() > 0,
        forall|k: int| 0 <= k < p.len() ==> !is_ws(#[trigger] p[k]),
        p[0] != '/',
        p.last() != '/',
        !ei_paths(lines(content)).contains(p),
    ensures
        apply_removals_spec(
            apply_entries_spec(
                content,
                seq!["/"@ + p + " export-ignore"@],
                Style { sorted: false, align_col: 0 },
            ),
            seq!["/"@ + p],
        ) == content,
{
    reveal_strlit("/");
    let e = "/"@ + p + " export-ignore"@;
    let es = seq![e];
    let style = Style { sorted: false, align_col: 0 };
    let lc = lines(content);
    let existing = ei_paths(lc);
    lemma_entry_line_path(p);
    // The entry is added as it is.
    assert(es.drop_last() =~= Seq::<Seq<char>>::empty());
    assert(es.last() == e);
    assert(additions(existing, es.drop_last(), 0) =~= Seq::<Seq<char>>::empty());
    assert(!es.drop_last().map_values(|x: Seq<char>| entry_norm(x)).contains(entry_norm(e)));
    let adds = additions(existing, es, 0);
    assert(adds =~= seq![e]);
    assert(with_final_nl(content) == content);
    let c1 = apply_entries_spec(content, es, style);
    assert(c1 == content + join_nl(seq![e]));
    // Its lines: the old ones, then the entry.
    assert(plain_line(e)) by {
        if e.len() > 0 && e.last() == '\r' {
            assert(e.contains('\r'));
        }
    }
    assert forall|i: int| 0 <= i < seq![e].len() implies plain_line(#[trigger] seq![e][i]) by {
        assert(seq![e][i] == e);
    }
    lemma_lines_append(content, join_nl(seq![e]), 0);
    lemma_lines_join(seq![e]);
    assert(lines(c1) == lc + seq![e]);
    // Removing `/P` drops the entry and nothing else.
    let paths = seq!["/"@ + p];
    let norms = removal_norms(paths);
    assert(norms[0] == strip_slashes_spec("/"@ + p));
    assert(norms =~= seq![p]);
    assert(is_removed(e, norms));
    assert((lc + seq![e]).drop_last() =~= lc);
    assert((lc + seq![e]).last() == e);
    assert forall|k: int| 0 <= k < lc.len() implies !is_removed(#[trigger] lc[k], norms) by {
        if is_removed(lc[k], norms) {
            assert(ei_path(lc[k]) == Some(p));
            lemma_ei_paths_has(lc, k);
        }
    }
    lemma_kept_all(lc, norms);
    assert(kept_lines(lc + seq![e], norms) == lc);
    lemma_join_lines(content);
    lemma_join_nl_ends(seq![e]);
    assert(c1.len() > 0 && c1.last() == '\n');
}


proof fn lemma_chain(ks: Seq<Seq<char>>, i: int, j: int)
    requires
        0 <= i <= j < ks.len(),
        forall|k: int| 0 <= k < ks.len() - 1 ==> lex_le(#[trigger] ks[k], ks[k + 1]),
    ensures
        lex_le(ks[i], ks[j]),
    decreases j - i,
{
    if i == j {
        lemma_lex_lt_irrefl(ks[i]);
    } else {
        lemma_chain(ks, i, j - 1);
        assert(lex_le(ks[j - 1], ks[j]));
        lemma_lex_le_trans(ks[i], ks[j - 1], ks[j]);
    }
}

/// `detect` reports a sorted style exactly when the file has
/// `export-ignore` lines and each one's key (its path without leading and
/// trailing slashes) is no smaller than the one before; other lines play
/// no part.
pub proof fn detect_sorted_iff_neighbours_ascend(content: Seq<char>)
    ensures
        ({
            let ks = ei_lines(lines(content)).map_values(|l: Seq<char>| sort_key(l));
            detect_spec(content).sorted == (ks.len() > 0 && forall|i: int|
                0 <= i < ks.len() - 1 ==> lex_le(#[trigger] ks[i], ks[i + 1]))
        }),
{
    let ks = ei_lines(lines(content)).map_values(|l: Seq<char>| sort_key(l));
    if ks.len() > 0 {
        if forall|i: int| 0 <= i < ks.len() - 1 ==> lex_le(#[trigger] ks[i], ks[i + 1]) {
            assert forall|i: int, j: int| 0 <= i < j < ks.len() implies lex_le(#[trigger] ks[i], #[trigger] ks[j]) by {
                lemma_chain(ks, i, j);
            }
        }
        if keys_sorted(ks) {
            assert forall|i: int| 0 <= i < ks.len() - 1 implies lex_le(#[trigger] ks[i], ks[i + 1]) by {
                assert(lex_le(ks[i], ks[i + 1]));
            }
        }
    }
}


/// Among the first `n` columns, the first of the most frequent ones
/// (counted over all columns).
proof fn lemma_best_prefix(cols: Seq<int>, n: int) -> (b: int)
    requires
        0 < n <= cols.len(),
    ensures
        0 <= b < n,
        forall|j: int| 0 <= j < n ==> col_count(cols, #[trigger] cols[j]) <= col_count(cols, cols[b]),
        forall|j: int| 0 <= j < b ==> col_count(cols, #[trigger] cols[j]) < col_count(cols, cols[b]),
    decreases n,
{
    if n == 1 {
        0
    } else {
        let b0 = lemma_best_prefix(cols, n - 1);
        if col_count(cols, cols[n - 1]) > col_count(cols, cols[b0]) {
            n - 1
        } else {
            b0
        }
    }
}

/// The alignment `detect` reports: 0 without `export-ignore` lines;
/// otherwise a most frequent `export-ignore` column (the first met among
/// equally frequent ones) when at least two lines share it and the paths
/// are not all of one length, and 0 when not.
pub proof fn detect_align_is_most_frequent(content: Seq<char>)
    ensures
        ({
            let ei = ei_lines(lines(content));
            let cols = ei.map_values(|l: Seq<char>| ei_col(l));
            let a = detect_spec(content).align_col;
            &&& ei.len() == 0 ==> a == 0
            &&& ei.len() > 0 ==> exists|i: int|
                #[trigger] is_first_top(cols, i) && (forall|j: int|
                    0 <= j < cols.len() ==> col_count(cols, #[trigger] cols[j]) <= col_count(cols, cols[i]))
                    && if col_count(cols, cols[i]) >= 2 && token_lens_differ(ei) {
                    a == cols[i] as usize
                } else {
                    a == 0
                }
        }),
{
    let ei = ei_lines(lines(content));
    let cols = ei.map_values(|l: Seq<char>| ei_col(l));
    if ei.len() > 0 {
        let b = lemma_best_prefix(cols, cols.len() as int);
        assert(is_first_top(cols, b));
        lemma_first_top_unique(cols, b);
    }
}


proof fn lemma_col_count_filter(cols: Seq<int>, c: int)
    ensures
        col_count(cols, c) == cols.filter(|x: int| x == c).len(),
    decreases cols.len(),
{
    reveal(Seq::filter);
    if cols.len() > 0 {
        lemma_col_count_filter(cols.drop_last(), c);
    }
}

/// `detect` aligns whenever two `export-ignore` lines (any two) have paths
/// of different byte lengths and some `export-ignore` column is shared by
/// at least two lines: the column it reports is one of the lines' columns,
/// shared by at least two lines and by no fewer lines than any other.
pub proof fn detect_aligns_when_paths_differ(content: Seq<char>, i: int, j: int, m: int)
    requires
        0 <= i < ei_lines(lines(content)).len(),
        0 <= j < ei_lines(lines(content)).len(),
        0 <= m < ei_lines(lines(content)).len(),
        byte_len(first_token(ei_lines(lines(content))[i])) != byte_len(
            first_token(ei_lines(lines(content))[j]),
        ),
        ei_lines(lines(content)).map_values(|l: Seq<char>| ei_col(l)).filter(
            |x: int| x == ei_col(ei_lines(lines(content))[m]),
        ).len() >= 2,
    ensures
        exists|b: int|
            0 <= b < ei_lines(lines(content)).len() && detect_spec(content).align_col == ei_col(
                #[trigger] ei_lines(lines(content))[b],
            ) as usize && ei_lines(lines(content)).map_values(|l: Seq<char>| ei_col(l)).filter(
                |x: int| x == ei_col(ei_lines(lines(content))[b]),
            ).len() >= 2 && forall|q: int|
                0 <= q < ei_lines(lines(content)).len() ==> ei_lines(lines(content)).map_values(
                    |l: Seq<char>| ei_col(l),
                ).filter(|x: int| x == ei_col(#[trigger] ei_lines(lines(content))[q])).len()
                    <= ei_lines(lines(content)).map_values(|l: Seq<char>| ei_col(l)).filter(
                    |x: int| x == ei_col(ei_lines(lines(content))[b]),
                ).len(),
{
    let ei = ei_lines(lines(content));
    let cols = ei.map_values(|l: Seq<char>| ei_col(l));
    let b = lemma_best_prefix(cols, cols.len() as int);
    assert(is_first_top(cols, b));
    lemma_first_top_unique(cols, b);
    assert(token_lens_differ(ei));
    lemma_col_count_filter(cols, cols[m]);
    lemma_col_count_filter(cols, cols[b]);
    assert(cols[m] == ei_col(ei[m]));
    assert(col_count(cols, cols[m]) <= col_count(cols, cols[b]));
    assert forall|q: int| 0 <= q < ei.len() implies cols.filter(|x: int| x == ei_col(#[trigger] ei[q])).len()
        <= cols.filter(|x: int| x == ei_col(ei[b])).len() by {
        lemma_col_count_filter(cols, cols[q]);
        assert(cols[q] == ei_col(ei[q]));
        assert(col_count(cols, cols[q]) <= col_count(cols, cols[b]));
    }
    assert(detect_spec(content).align_col == cols[b] as usize);
}

/// `detect` does not align when all `export-ignore` paths have one byte
/// length, nor when no `export-ignore` column is shared by two lines.
pub proof fn detect_no_align_without_reason(content: Seq<char>)
    requires
        (forall|i: int, j: int|
            0 <= i < ei_lines(lines(content)).len() && 0 <= j < ei_lines(lines(content)).len()
                ==> byte_len(first_token(#[trigger] ei_lines(lines(content))[i])) == byte_len(
                first_token(#[trigger] ei_lines(lines(content))[j]),
            )) || (forall|m: int|
            0 <= m < ei_lines(lines(content)).len() ==> ei_lines(lines(content)).map_values(
                |l: Seq<char>| ei_col(l),
            ).filter(|x: int| x == ei_col(#[trigger] ei_lines(lines(content))[m])).len() < 2),
    ensures
        detect_spec(content).align_col == 0,
{
    let ei = ei_lines(lines(content));
    let cols = ei.map_values(|l: Seq<char>| ei_col(l));
    if ei.len() > 0 {
        let b = lemma_best_prefix(cols, cols.len() as int);
        assert(is_first_top(cols, b));
        lemma_first_top_unique(cols, b);
        lemma_col_count_filter(cols, cols[b]);
        assert(cols[b] == ei_col(ei[b]));
        if token_lens_differ(ei) {
            let (x, y) = choose|x: int, y: int|
                0 <= x < ei.len() && 0 <= y < ei.len() && byte_len(first_token(#[trigger] ei[x]))
                    != byte_len(first_token(#[trigger] ei[y]));
            assert(ei.map_values(|l: Seq<char>| ei_col(l)).filter(|z: int| z == ei_col(ei[b])).len() < 2);
        }
    }
}

} // verus!
