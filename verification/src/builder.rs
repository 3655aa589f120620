//! The `build` subcommand's logic: recognising GitHub repositories, reading
//! what an upstream `.gitattributes` already excludes, finding stale
//! entries, decoding the contents API's base64 and assembling targets.
use vstd::prelude::*;
use vstd::string::StringSliceAdditionalSpecFns;

use crate::config::{Defaults, Entry, RemoveEntry, Target};
use crate::outside::{pr_ref_capture, pr_ref_number, utf8_string};
use crate::style::{ei_path, ei_path_exec};
use crate::style::strip_slashes;
use crate::text::{
    append_chars, chars_eq, first_token, first_token_exec, from_chars, lemma_lex_lt_irrefl,
    lemma_lex_lt_trans, lemma_lex_total, lex_lt, lex_lt_exec, lines, occurs_at, split_lines, str_eq,
    strings, strip_slashes_chars, strip_slashes_spec, subrange_chars, to_chars, views,
};

verus! {

// ---------------------------------------------------------------------------
// Base64
// ---------------------------------------------------------------------------

/// Value of a byte in the standard base64 alphabet.
pub open spec fn sextet(b: u8) -> Option<u8> {
    if 65 <= b <= 90 {
        Some((b - 65) as u8)
    } else if 97 <= b <= 122 {
        Some((b - 71) as u8)
    } else if 48 <= b <= 57 {
        Some((b + 4) as u8)
    } else if b == 43 {
        Some(62u8)
    } else if b == 47 {
        Some(63u8)
    } else {
        None
    }
}

/// `u8::is_ascii_whitespace`: space, tab, line feed, form feed, carriage
/// return.
pub open spec fn is_ascii_ws(b: u8) -> bool {
    b == 32 || b == 9 || b == 10 || b == 12 || b == 13
}

/// The bytes without their trailing `=` padding.
pub open spec fn trim_padding(bs: Seq<u8>) -> Seq<u8>
    decreases bs.len(),
{
    if bs.len() > 0 && bs.last() == 61 {
        trim_padding(bs.drop_last())
    } else {
        bs
    }
}

/// The sextets of the input with ASCII whitespace skipped, or the first
/// byte that is neither.
pub open spec fn sextets(bs: Seq<u8>) -> Result<Seq<u8>, u8>
    decreases bs.len(),
{
    if bs.len() == 0 {
        Ok(seq![])
    } else {
        match sextets(bs.drop_last()) {
            Err(e) => Err(e),
            Ok(v) => if is_ascii_ws(bs.last()) {
                Ok(v)
            } else {
                match sextet(bs.last()) {
                    Some(x) => Ok(v.push(x)),
                    None => Err(bs.last()),
                }
            },
        }
    }
}

pub open spec fn byte0(a: u8, b: u8) -> u8 {
    ((a << 2u8) | (b >> 4u8)) as u8
}

pub open spec fn byte1(b: u8, c: u8) -> u8 {
    (((b & 15u8) << 4u8) | (c >> 2u8)) as u8
}

pub open spec fn byte2(c: u8, d: u8) -> u8 {
    (((c & 3u8) << 6u8) | d) as u8
}

/// Bytes of a run of sextets: every four give three bytes; a final two
/// give one and a final three give two; a lone final sextet gives none.
pub open spec fn decode_sextets(v: Seq<u8>) -> Seq<u8>
    decreases v.len(),
{
    if v.len() < 2 {
        seq![]
    } else if v.len() == 2 {
        seq![byte0(v[0], v[1])]
    } else if v.len() == 3 {
        seq![byte0(v[0], v[1]), byte1(v[1], v[2])]
    } else {
        seq![byte0(v[0], v[1]), byte1(v[1], v[2]), byte2(v[2], v[3])] + decode_sextets(v.skip(4))
    }
}

/// Why base64 input was refused.
#[derive(Debug, Clone, Copy, PartialEq, Eq, Structural)]
pub enum Base64Error {
    /// A byte outside the alphabet that is not whitespace.
    InvalidChar(u8),
}

fn sextet_exec(b: u8) -> (r: Option<u8>)
    ensures
        r == sextet(b),
{
    if 65 <= b && b <= 90 {
        Some(b - 65)
    } else if 97 <= b && b <= 122 {
        Some(b - 71)
    } else if 48 <= b && b <= 57 {
        Some(b + 4)
    } else if b == 43 {
        Some(62)
    } else if b == 47 {
        Some(63)
    } else {
        None
    }
}

proof fn lemma_decode_concat(a: Seq<u8>, b: Seq<u8>)
    requires
        a.len() % 4 == 0,
    ensures
        decode_sextets(a + b) == decode_sextets(a) + decode_sextets(b),
    decreases a.len(),
{
    if a.len() == 0 {
        assert(a + b == b);
        assert(decode_sextets(a) == Seq::<u8>::empty());
    } else {
        assert((a + b).skip(4) == a.skip(4) + b);
        lemma_decode_concat(a.skip(4), b);
        assert((a + b)[0] == a[0] && (a + b)[1] == a[1] && (a + b)[2] == a[2] && (a + b)[3] == a[3]);
    }
}

proof fn lemma_decode_group(v: Seq<u8>, g: int)
    requires
        0 <= g,
        4 * g + 4 <= v.len(),
    ensures
        decode_sextets(v.take(4 * g + 4)) == decode_sextets(v.take(4 * g)) + seq![
            byte0(v[4 * g], v[4 * g + 1]),
            byte1(v[4 * g + 1], v[4 * g + 2]),
            byte2(v[4 * g + 2], v[4 * g + 3]),
        ],
{
    let grp = v.subrange(4 * g, 4 * g + 4);
    assert(v.take(4 * g + 4) == v.take(4 * g) + grp);
    lemma_decode_concat(v.take(4 * g), grp);
    assert(grp.skip(4) == Seq::<u8>::empty());
    assert(decode_sextets(Seq::<u8>::empty()) == Seq::<u8>::empty());
    assert(grp[0] == v[4 * g] && grp[1] == v[4 * g + 1] && grp[2] == v[4 * g + 2] && grp[3] == v[4 * g + 3]);
}

/// Decodes standard base64 (the contents API's encoding): trailing `=` are
/// dropped, ASCII whitespace is skipped, any other byte outside the alphabet
/// is an error.
pub fn base64_decode(s: &str) -> (r: Result<Vec<u8>, Base64Error>)
    ensures
        match sextets(trim_padding(s.spec_bytes())) {
            Ok(v) => r matches Ok(out) && out@ == decode_sextets(v),
            Err(b) => r == Err::<Vec<u8>, Base64Error>(Base64Error::InvalidChar(b)),
        },
{
    let bytes = s.as_bytes();
    let mut end: usize = bytes.len();
    assert(bytes@.subrange(0, bytes@.len() as int) == bytes@);
    while end > 0 && bytes[end - 1] == 61
        invariant
            end <= bytes.len(),
            trim_padding(bytes@) == trim_padding(bytes@.subrange(0, end as int)),
        decreases end,
    {
        assert(bytes@.subrange(0, end as int).drop_last() == bytes@.subrange(0, end - 1));
        end = end - 1;
    }
    let ghost t = bytes@.subrange(0, end as int);
    assert(trim_padding(t) == t);
    let mut sx: Vec<u8> = Vec::new();
    let mut i: usize = 0;
    while i < end
        invariant
            i <= end <= bytes.len(),
            t == bytes@.subrange(0, end as int),
            bytes@ == s.spec_bytes(),
            trim_padding(bytes@) == t,
            sextets(t.take(i as int)) == Ok::<Seq<u8>, u8>(sx@),
            forall|k: int| 0 <= k < sx.len() ==> #[trigger] sx@[k] < 64,
        decreases end - i,
    {
        let b = bytes[i];
        assert(t.take(i + 1).drop_last() == t.take(i as int));
        assert(t.take(i + 1).last() == b);
        if b == 32 || b == 9 || b == 10 || b == 12 || b == 13 {
        } else {
            match sextet_exec(b) {
                Some(x) => {
                    sx.push(x);
                },
                None => {
                    assert(sextets(t.take(i + 1)) == Err::<Seq<u8>, u8>(b));
                    proof {
                        lemma_sextets_err_stays(t, i as int + 1);
                    }
                    return Err(Base64Error::InvalidChar(b));
                },
            }
        }
        i = i + 1;
    }
    assert(t.take(end as int) == t);
    let mut out: Vec<u8> = Vec::new();
    let n = sx.len();
    let mut g: usize = 0;
    while g < n / 4
        invariant
            g <= n / 4,
            n == sx.len(),
            forall|k: int| 0 <= k < sx.len() ==> #[trigger] sx@[k] < 64,
            out@ == decode_sextets(sx@.take(4 * g as int)),
        decreases n / 4 - g,
    {
        let a = sx[4 * g];
        let b = sx[4 * g + 1];
        let c = sx[4 * g + 2];
        let d = sx[4 * g + 3];
        out.push((a << 2) | (b >> 4));
        out.push(((b & 15) << 4) | (c >> 2));
        out.push(((c & 3) << 6) | d);
        proof {
            lemma_decode_group(sx@, g as int);
        }
        g = g + 1;
    }
    let rest = n - 4 * g;
    let full = 4 * g;
    let ghost tail = sx@.skip(full as int);
    assert(sx@ == sx@.take(full as int) + tail);
    proof {
        lemma_decode_concat(sx@.take(full as int), tail);
    }
    if rest == 2 {
        out.push((sx[full] << 2) | (sx[full + 1] >> 4));
        assert(tail[0] == sx@[full as int] && tail[1] == sx@[full + 1]);
    } else if rest == 3 {
        out.push((sx[full] << 2) | (sx[full + 1] >> 4));
        out.push(((sx[full + 1] & 15) << 4) | (sx[full + 2] >> 2));
        assert(tail[0] == sx@[full as int] && tail[1] == sx@[full + 1] && tail[2] == sx@[full + 2]);
    }
    Ok(out)
}

proof fn lemma_sextets_err_stays(t: Seq<u8>, i: int)
    requires
        0 < i <= t.len(),
        sextets(t.take(i)) is Err,
    ensures
        sextets(t) == sextets(t.take(i)),
    decreases t.len() - i,
{
    if i < t.len() {
        assert(t.take(i + 1).drop_last() == t.take(i));
        lemma_sextets_err_stays(t, i + 1);
    } else {
        assert(t.take(i) == t);
    }
}


// ---------------------------------------------------------------------------
// Sets of paths
// ---------------------------------------------------------------------------

/// A set of normalized paths, kept in insertion order.
#[derive(Debug)]
pub struct PathSet {
    items: Vec<String>,
}

impl View for PathSet {
    type V = Seq<Seq<char>>;

    closed spec fn view(&self) -> Seq<Seq<char>> {
        self.items@.map_values(|s: String| s@)
    }
}

impl PathSet {
    #[verifier::type_invariant]
    closed spec fn no_duplicates(self) -> bool {
        self@.no_duplicates()
    }

    pub fn new() -> (r: PathSet)
        ensures
            r@ == Seq::<Seq<char>>::empty(),
    {
        let r = PathSet { items: Vec::new() };
        assert(r@ =~= Seq::<Seq<char>>::empty());
        r
    }

    pub fn len(&self) -> (n: usize)
        ensures
            n == self@.len(),
    {
        self.items.len()
    }

    /// The `i`-th path in insertion order.
    pub fn get(&self, i: usize) -> (p: &String)
        requires
            i < self@.len(),
        ensures
            p@ == self@[i as int],
    {
        &self.items[i]
    }

    pub fn contains(&self, p: &str) -> (r: bool)
        ensures
            r == self@.contains(p@),
    {
        let mut i: usize = 0;
        while i < self.items.len()
            invariant
                i <= self.items.len(),
                self@ == self.items@.map_values(|s: String| s@),
                forall|j: int| 0 <= j < i ==> self@[j] != p@,
            decreases self.items.len() - i,
        {
            if str_eq(self.items[i].as_str(), p) {
                assert(self@[i as int] == p@);
                return true;
            }
            i = i + 1;
        }
        false
    }

    /// Adds `p` unless present; tells whether it was added.
    pub fn insert(&mut self, p: String) -> (added: bool)
        ensures
            added == !old(self)@.contains(p@),
            added ==> final(self)@ == old(self)@.push(p@),
            !added ==> final(self)@ == old(self)@,
    {
        proof {
            use_type_invariant(&*self);
        }
        if self.contains(p.as_str()) {
            return false;
        }
        let ghost before = self@;
        let mut items: Vec<String> = Vec::new();
        std::mem::swap(&mut items, &mut self.items);
        assert(items@.map_values(|s: String| s@) == before);
        items.push(p);
        assert(items@.map_values(|s: String| s@) =~= before.push(p@));
        proof {
            assert(before.push(p@).no_duplicates()) by {
                assert forall|a: int, b: int| 0 <= a < b < before.push(p@).len() implies before.push(p@)[a] != before.push(p@)[b] by {
                    if b == before.len() {
                        assert(before.contains(before[a]));
                    }
                }
            }
        }
        self.items = items;
        true
    }
}

/// Parse an upstream `.gitattributes` content and return the set of
/// paths (normalized: no leading `/`, no trailing `/`) that are already
/// `export-ignore`d.
pub open spec fn excluded_paths_spec(ls: Seq<Seq<char>>) -> Seq<Seq<char>>
    decreases ls.len(),
{
    if ls.len() == 0 {
        seq![]
    } else {
        let pre = excluded_paths_spec(ls.drop_last());
        match ei_path(ls.last()) {
            Some(c) => if pre.contains(c) {
                pre
            } else {
                pre.push(c)
            },
            None => pre,
        }
    }
}

/// The paths that `export-ignore` lines of `text` name, each once, in the
/// order of their first line.
pub fn parsed_excluded_paths_from_gitattributes(text: &str) -> (r: PathSet)
    ensures
        r@ == excluded_paths_spec(lines(text@)),
{
    let cv = to_chars(text);
    let ls = split_lines(&cv);
    let ghost dl = views(ls@);
    let mut out = PathSet::new();
    let mut i: usize = 0;
    while i < ls.len()
        invariant
            i <= ls.len(),
            dl == views(ls@),
            dl == lines(text@),
            out@ == excluded_paths_spec(dl.take(i as int)),
        decreases ls.len() - i,
    {
        assert(dl.take(i + 1).drop_last() == dl.take(i as int));
        assert(dl.take(i + 1).last() == ls@[i as int]@);
        match ei_path_exec(&ls[i]) {
            Some(c) => {
                out.insert(from_chars(&c));
            },
            None => {},
        }
        i = i + 1;
    }
    assert(dl.take(ls.len() as int) == dl);
    out
}

// ---------------------------------------------------------------------------
// Stale entries and the Travis -> GitHub Actions migration
// ---------------------------------------------------------------------------

/// Paths that historically signal a Travis CI configuration.
pub open spec fn is_travis_file(p: Seq<char>) -> bool {
    p == ".travis.yml"@ || p == ".travis-ci.yml"@
}

pub open spec fn travis_reason() -> Seq<char> {
    "Travis CI config no longer exists upstream (project migrated to GitHub Actions)."@
}

/// The removal proposed for a path that no longer exists upstream.
pub open spec fn stale_entry(norm: Seq<char>) -> (Seq<char>, Seq<char>) {
    (
        "/"@ + norm + " export-ignore"@,
        if is_travis_file(norm) {
            travis_reason()
        } else {
            "`"@ + norm + "` no longer exists in upstream HEAD."@
        },
    )
}

/// Removals for the paths whose upstream check answered `false`, in order.
pub open spec fn stale_list(paths: Seq<Seq<char>>, exists: Seq<bool>) -> Seq<(Seq<char>, Seq<char>)>
    decreases paths.len(),
{
    if paths.len() == 0 {
        seq![]
    } else {
        let i = paths.len() - 1;
        let pre = stale_list(paths.drop_last(), exists);
        if exists[i] {
            pre
        } else {
            pre.push(stale_entry(paths[i]))
        }
    }
}

/// One removal per path whose upstream check answered `false`, and no
/// other: as many removals as `false` answers; for each missing path a
/// removal of its line `/<path> export-ignore`; every removal is the line
/// of a missing path.
pub proof fn stale_removals_are_the_missing_paths(paths: Seq<Seq<char>>, exists: Seq<bool>)
    requires
        exists.len() == paths.len(),
    ensures
        stale_list(paths, exists).len() == exists.filter(|b: bool| !b).len(),
        forall|k: int|
            0 <= k < paths.len() && !exists[k] ==> exists|m: int|
                0 <= m < stale_list(paths, exists).len() && (#[trigger] stale_list(paths, exists)[m]).0
                    == "/"@ + paths[k] + " export-ignore"@,
        forall|m: int|
            0 <= m < stale_list(paths, exists).len() ==> exists|k: int|
                0 <= k < paths.len() && !exists[k] && (#[trigger] stale_list(paths, exists)[m]).0
                    == "/"@ + paths[k] + " export-ignore"@,
    decreases paths.len(),
{
    reveal(Seq::filter);
    if paths.len() > 0 {
        let n = paths.len() - 1;
        let pp = paths.drop_last();
        let pe = exists.drop_last();
        stale_removals_are_the_missing_paths(pp, pe);
        lemma_stale_list_prefix(pp, pe, exists);
        let pre = stale_list(pp, exists);
        let st = stale_list(paths, exists);
        assert(exists.filter(|b: bool| !b) == if !exists.last() {
            pe.filter(|b: bool| !b).push(exists.last())
        } else {
            pe.filter(|b: bool| !b)
        });
        assert forall|k: int| 0 <= k < paths.len() && !exists[k] implies exists|m: int|
            0 <= m < st.len() && (#[trigger] st[m]).0 == "/"@ + paths[k] + " export-ignore"@ by {
            if k < n {
                assert(pp[k] == paths[k] && pe[k] == exists[k]);
                let m = choose|m: int| 0 <= m < pre.len() && (#[trigger] pre[m]).0 == "/"@ + pp[k] + " export-ignore"@;
                assert(st[m] == pre[m]);
            } else {
                assert(st[pre.len() as int] == stale_entry(paths[n]));
            }
        }
        assert forall|m: int| 0 <= m < st.len() implies exists|k: int|
            0 <= k < paths.len() && !exists[k] && (#[trigger] st[m]).0 == "/"@ + paths[k] + " export-ignore"@ by {
            if m < pre.len() {
                assert(st[m] == pre[m]);
                let k = choose|k: int| 0 <= k < pp.len() && !pe[k] && (#[trigger] pre[m]).0 == "/"@ + pp[k] + " export-ignore"@;
                assert(pp[k] == paths[k] && pe[k] == exists[k]);
            } else {
                assert(st[m] == stale_entry(paths[n]));
                assert(!exists[n]);
            }
        }
    }
}

/// `idx` picks, in ascending order, the missing paths whose lines the
/// removals are: the `m`-th removal is the line of path `idx[m]`.
pub open spec fn picks_missing_in_order(
    paths: Seq<Seq<char>>,
    exists: Seq<bool>,
    removals: Seq<(Seq<char>, Seq<char>)>,
    idx: Seq<int>,
) -> bool {
    &&& idx.len() == removals.len()
    &&& forall|a: int, b: int| 0 <= a < b < idx.len() ==> #[trigger] idx[a] < #[trigger] idx[b]
    &&& forall|m: int|
        0 <= m < idx.len() ==> 0 <= #[trigger] idx[m] < paths.len() && !exists[idx[m]] && removals[m].0
            == "/"@ + paths[idx[m]] + " export-ignore"@
}

/// The removals come in the order of their paths: each is the line of a
/// missing path, and later removals belong to later paths.
pub proof fn stale_removals_keep_path_order(paths: Seq<Seq<char>>, exists: Seq<bool>)
    requires
        exists.len() == paths.len(),
    ensures
        exists|idx: Seq<int>| #[trigger] picks_missing_in_order(paths, exists, stale_list(paths, exists), idx),
    decreases paths.len(),
{
    if paths.len() > 0 {
        let n = paths.len() - 1;
        let pp = paths.drop_last();
        let pe = exists.drop_last();
        stale_removals_keep_path_order(pp, pe);
        lemma_stale_list_prefix(pp, pe, exists);
        let pre = stale_list(pp, exists);
        let st = stale_list(paths, exists);
        let pidx = choose|idx: Seq<int>| #[trigger] picks_missing_in_order(pp, pe, stale_list(pp, pe), idx);
        let idx = if exists[n] {
            pidx
        } else {
            pidx.push(n)
        };
        assert forall|m: int| 0 <= m < idx.len() implies 0 <= #[trigger] idx[m] < paths.len() && !exists[idx[m]]
            && st[m].0 == "/"@ + paths[idx[m]] + " export-ignore"@ by {
            if m < pidx.len() {
                assert(idx[m] == pidx[m]);
                assert(st[m] == pre[m]);
                assert(pp[pidx[m]] == paths[pidx[m]] && pe[pidx[m]] == exists[pidx[m]]);
            } else {
                assert(st[m] == stale_entry(paths[n]));
            }
        }
        assert forall|a: int, b: int| 0 <= a < b < idx.len() implies #[trigger] idx[a] < #[trigger] idx[b] by {
            if b < pidx.len() {
                assert(idx[a] == pidx[a] && idx[b] == pidx[b]);
            } else {
                assert(idx[a] == pidx[a]);
                assert(0 <= pidx[a] < pp.len());
            }
        }
        assert(picks_missing_in_order(paths, exists, st, idx));
    } else {
        assert(picks_missing_in_order(paths, exists, stale_list(paths, exists), Seq::<int>::empty()));
    }
}

/// Calling `f` on a string with the characters `s` gave `b`.
pub open spec fn answered<F: Fn(&str) -> bool>(f: F, s: Seq<char>, b: bool) -> bool {
    exists|p: &str| p@ == s && call_ensures(f, (p,), b)
}

/// The two sequences hold the same elements.
pub open spec fn same_elems(a: Seq<Seq<char>>, b: Seq<Seq<char>>) -> bool {
    forall|y: Seq<char>| a.contains(y) <==> b.contains(y)
}

/// Strictly ascending in code-point order.
pub open spec fn ascending(s: Seq<Seq<char>>) -> bool {
    forall|i: int, j: int| 0 <= i < j < s.len() ==> lex_lt(#[trigger] s[i], #[trigger] s[j])
}

pub open spec fn removal_views(v: Seq<RemoveEntry>) -> Seq<(Seq<char>, Seq<char>)> {
    v.map_values(|r: RemoveEntry| (r.line@, r.reason@))
}

/// Sorts distinct strings in ascending code-point order.
fn sort_distinct(items: &PathSet) -> (r: Vec<String>)
    ensures
        same_elems(r@.map_values(|s: String| s@), items@),
        r@.len() == items@.len(),
        ascending(r@.map_values(|s: String| s@)),
{
    proof {
        use_type_invariant(items);
    }
    let mut res: Vec<String> = Vec::new();
    let mut i: usize = 0;
    while i < items.len()
        invariant
            i <= items@.len(),
            items@.no_duplicates(),
            res@.len() == i,
            same_elems(res@.map_values(|s: String| s@), items@.take(i as int)),
            ascending(res@.map_values(|s: String| s@)),
        decreases items@.len() - i,
    {
        let x = items.get(i).clone();
        let xv = to_chars(x.as_str());
        let ghost rv = res@.map_values(|s: String| s@);
        let mut p: usize = 0;
        while p < res.len() && !lex_lt_exec(&xv, &to_chars(res[p].as_str()))
            invariant
                p <= res.len(),
                rv == res@.map_values(|s: String| s@),
                forall|m: int| 0 <= m < p ==> !lex_lt(xv@, #[trigger] rv[m]),
            decreases res.len() - p,
        {
            p = p + 1;
        }
        proof {
            assert(!items@.take(i as int).contains(xv@)) by {
                if items@.take(i as int).contains(xv@) {
                    let k = choose|k: int| 0 <= k < i && #[trigger] items@.take(i as int)[k] == xv@;
                    assert(items@[k] == items@[i as int]);
                }
            }
            assert(!rv.contains(xv@)) by {
                if rv.contains(xv@) {
                    let k = choose|k: int| 0 <= k < rv.len() && rv[k] == xv@;
                    assert(items@.take(i as int).contains(xv@));
                }
            }
        }
        res.insert(p, x);
        let ghost nv = res@.map_values(|s: String| s@);
        assert(nv =~= rv.insert(p as int, xv@));
        assert(items@.take(i + 1) == items@.take(i as int).push(xv@));
        assert(same_elems(nv, items@.take(i + 1))) by {
            assert forall|y: Seq<char>| nv.contains(y) <==> items@.take(i + 1).contains(y) by {
                if nv.contains(y) {
                    let k = choose|k: int| 0 <= k < nv.len() && nv[k] == y;
                    if k < p {
                        assert(rv[k] == y);
                        assert(rv.contains(y));
                    } else if k > p {
                        assert(rv[k - 1] == y);
                        assert(rv.contains(y));
                    } else {
                        assert(items@.take(i + 1)[i as int] == y);
                    }
                }
                if items@.take(i + 1).contains(y) {
                    let k = choose|k: int| 0 <= k < i + 1 && #[trigger] items@.take(i + 1)[k] == y;
                    if k < i {
                        assert(items@.take(i as int)[k] == y);
                        assert(items@.take(i as int).contains(y));
                        assert(rv.contains(y));
                        let m = choose|m: int| 0 <= m < rv.len() && rv[m] == y;
                        if m < p {
                            assert(nv[m] == y);
                        } else {
                            assert(nv[m + 1] == y);
                        }
                    } else {
                        assert(nv[p as int] == y);
                    }
                }
            }
        }
        assert forall|a: int, b: int| 0 <= a < b < nv.len() implies lex_lt(#[trigger] nv[a], #[trigger] nv[b]) by {
            if b < p {
                assert(nv[a] == rv[a] && nv[b] == rv[b]);
            } else if b == p {
                assert(nv[a] == rv[a]);
                lemma_lex_total(xv@, rv[a]);
                if rv[a] == xv@ {
                    assert(rv.contains(xv@));
                }
            } else if a == p {
                assert(nv[b] == rv[b - 1]);
                if b - 1 == p {
                } else {
                    lemma_lex_lt_trans(xv@, rv[p as int], rv[b - 1]);
                }
            } else if a < p {
                assert(nv[a] == rv[a] && nv[b] == rv[b - 1]);
            } else {
                assert(nv[a] == rv[a - 1] && nv[b] == rv[b - 1]);
            }
        }
        i = i + 1;
    }
    assert(items@.take(items@.len() as int) == items@);
    res
}

/// Detect stale `export-ignore` entries in upstream `.gitattributes`:
/// every excluded path, in ascending order, for which `path_exists` says
/// the path is gone upstream, becomes a removal with a short reason.
pub fn detect_stale_entries<F: Fn(&str) -> bool>(excluded_paths: &PathSet, path_exists: F) -> (r: Vec<RemoveEntry>)
    requires
        forall|p: &str| call_requires(path_exists, (p,)),
    ensures
        exists|sorted: Seq<Seq<char>>, answers: Seq<bool>|
            {
                &&& sorted.len() == excluded_paths@.len()
                &&& same_elems(sorted, excluded_paths@)
                &&& ascending(sorted)
                &&& answers.len() == sorted.len()
                &&& forall|i: int| 0 <= i < sorted.len() ==> answered(path_exists, sorted[i], #[trigger] answers[i])
                &&& removal_views(r@) == stale_list(sorted, answers)
                &&& r.len() == answers.filter(|b: bool| !b).len()
                &&& forall|k: int|
                    0 <= k < sorted.len() && !answers[k] ==> exists|m: int|
                        0 <= m < r.len() && (#[trigger] r@[m]).line@ == "/"@ + sorted[k] + " export-ignore"@
            },
{
    let sorted = sort_distinct(excluded_paths);
    let ghost sv = sorted@.map_values(|s: String| s@);
    let ghost mut answers: Seq<bool> = Seq::empty();
    let mut out: Vec<RemoveEntry> = Vec::new();
    let mut i: usize = 0;
    while i < sorted.len()
        invariant
            i <= sorted.len(),
            sv == sorted@.map_values(|s: String| s@),
            answers.len() == i,
            forall|p: &str| call_requires(path_exists, (p,)),
            forall|k: int| 0 <= k < i ==> answered(path_exists, sv[k], #[trigger] answers[k]),
            removal_views(out@) == stale_list(sv.take(i as int), answers),
        decreases sorted.len() - i,
    {
        let norm = sorted[i].as_str();
        let exists = path_exists(norm);
        let ghost old_answers = answers;
        proof {
            answers = answers.push(exists);
            assert forall|k: int| 0 <= k < i + 1 implies answered(path_exists, sv[k], #[trigger] answers[k]) by {
                if k < i {
                    assert(answered(path_exists, sv[k], old_answers[k]));
                    assert(answers[k] == old_answers[k]);
                } else {
                    assert(norm@ == sv[k]);
                    assert(call_ensures(path_exists, (norm,), answers[k]));
                }
            }
        }
        assert(sv.take(i + 1).drop_last() == sv.take(i as int));
        assert(sv.take(i + 1)[i as int] == norm@);
        assert(stale_list(sv.take(i as int), answers) == stale_list(sv.take(i as int), old_answers)) by {
            lemma_stale_list_prefix(sv.take(i as int), old_answers, answers);
        }
        if !exists {
            let nv = to_chars(norm);
            let mut line: Vec<char> = vec!['/'];
            append_chars(&mut line, &nv);
            append_chars(&mut line, &to_chars(" export-ignore"));
            let travis = str_eq(norm, ".travis.yml") || str_eq(norm, ".travis-ci.yml");
            let reason = if travis {
                String::from_str("Travis CI config no longer exists upstream (project migrated to GitHub Actions).")
            } else {
                let mut rv: Vec<char> = vec!['`'];
                append_chars(&mut rv, &nv);
                append_chars(&mut rv, &to_chars("` no longer exists in upstream HEAD."));
                proof {
                    reveal_strlit("`");
                    assert(seq!['`'] == "`"@);
                }
                from_chars(&rv)
            };
            proof {
                reveal_strlit("/");
                assert(seq!['/'] == "/"@);
            }
            let ghost ov = removal_views(out@);
            let entry = RemoveEntry { line: from_chars(&line), reason };
            assert(entry.line@ == stale_entry(norm@).0);
            assert(entry.reason@ == stale_entry(norm@).1);
            out.push(entry);
            assert(removal_views(out@) =~= ov.push(stale_entry(norm@)));
        }
        i = i + 1;
    }
    assert(sv.take(sorted.len() as int) == sv);
    assert({
        &&& sv.len() == excluded_paths@.len()
        &&& same_elems(sv, excluded_paths@)
        &&& ascending(sv)
        &&& answers.len() == sv.len()
        &&& forall|i: int| 0 <= i < sv.len() ==> answered(path_exists, sv[i], #[trigger] answers[i])
        &&& removal_views(out@) == stale_list(sv, answers)
    });
    proof {
        stale_removals_are_the_missing_paths(sv, answers);
        let st = stale_list(sv, answers);
        assert(removal_views(out@).len() == out@.len());
        assert forall|k: int| 0 <= k < sv.len() && !answers[k] implies exists|m: int|
            0 <= m < out.len() && (#[trigger] out@[m]).line@ == "/"@ + sv[k] + " export-ignore"@ by {
            let m = choose|m: int| 0 <= m < st.len() && (#[trigger] st[m]).0 == "/"@ + sv[k] + " export-ignore"@;
            assert(removal_views(out@)[m] == (out@[m].line@, out@[m].reason@));
        }
    }
    out
}

proof fn lemma_stale_list_prefix(paths: Seq<Seq<char>>, a: Seq<bool>, b: Seq<bool>)
    requires
        paths.len() <= a.len(),
        paths.len() <= b.len(),
        forall|k: int| 0 <= k < paths.len() ==> a[k] == b[k],
    ensures
        stale_list(paths, a) == stale_list(paths, b),
    decreases paths.len(),
{
    if paths.len() > 0 {
        lemma_stale_list_prefix(paths.drop_last(), a, b);
    }
}

/// Some removal names a Travis CI file.
pub open spec fn has_travis_removal(removals: Seq<(Seq<char>, Seq<char>)>) -> bool {
    exists|i: int| 0 <= i < removals.len() && is_travis_file(strip_slashes_spec(first_token(#[trigger] removals[i].0)))
}

pub open spec fn github_reason() -> Seq<char> {
    "Added alongside the Travis cleanup since CI lives under .github/workflows/ now."@
}

/// When a removal list contains a Travis file, and `.github` exists
/// upstream and isn't already excluded, return Some(github_addition).
/// Used by the builder to surface the Travis -> GitHub Actions
/// migration in a single PR. `path_exists` is asked about `.github` only
/// when the first two conditions hold.
pub fn github_addition_for_travis_removal<F: Fn(&str) -> bool>(
    removals: &[RemoveEntry],
    excluded_paths: &PathSet,
    path_exists: F,
) -> (r: Option<(&'static str, &'static str)>)
    requires
        forall|p: &str| call_requires(path_exists, (p,)),
    ensures
        r matches Some(x) ==> x.0@ == ".github/"@ && x.1@ == github_reason(),
        r is Some ==> {
            &&& has_travis_removal(removal_views(removals@))
            &&& !excluded_paths@.contains(".github"@)
            &&& answered(path_exists, ".github"@, true)
        },
        r is None ==> {
            ||| !has_travis_removal(removal_views(removals@))
            ||| excluded_paths@.contains(".github"@)
            ||| answered(path_exists, ".github"@, false)
        },
{
    let ghost rv = removal_views(removals@);
    let mut found = false;
    let mut i: usize = 0;
    while i < removals.len()
        invariant
            i <= removals.len(),
            rv == removal_views(removals@),
            found == exists|k: int| 0 <= k < i && is_travis_file(strip_slashes_spec(first_token(#[trigger] rv[k].0))),
        decreases removals.len() - i,
    {
        let tok = first_token_exec(&to_chars(removals[i].line.as_str()));
        let norm = strip_slashes_chars(&tok);
        let t1 = to_chars(".travis.yml");
        let t2 = to_chars(".travis-ci.yml");
        assert(rv[i as int].0 == removals@[i as int].line@);
        if chars_eq(&norm, &t1) || chars_eq(&norm, &t2) {
            found = true;
        }
        i = i + 1;
    }
    if !found {
        return None;
    }
    if excluded_paths.contains(".github") {
        return None;
    }
    let gh = ".github";
    if !path_exists(gh) {
        return None;
    }
    Some((".github/", "Added alongside the Travis cleanup since CI lives under .github/workflows/ now."))
}


// ---------------------------------------------------------------------------
// GitHub repositories in URLs
// ---------------------------------------------------------------------------

/// Characters of an owner or repository name: `[A-Za-z0-9_.-]`.
pub open spec fn is_slug_char(c: char) -> bool {
    ('A' <= c && c <= 'Z') || ('a' <= c && c <= 'z') || ('0' <= c && c <= '9') || c == '_' || c
        == '.' || c == '-'
}

fn is_slug_char_exec(c: char) -> (r: bool)
    ensures
        r == is_slug_char(c),
{
    ('A' <= c && c <= 'Z') || ('a' <= c && c <= 'z') || ('0' <= c && c <= '9') || c == '_' || c
        == '.' || c == '-'
}

/// End of the run of name characters starting at `i`.
pub open spec fn name_end(s: Seq<char>, i: int) -> int
    decreases s.len() - i,
{
    if i < 0 || i >= s.len() {
        s.len() as int
    } else if is_slug_char(s[i]) {
        name_end(s, i + 1)
    } else {
        i
    }
}

/// A repository name may stop at `j`: `.git`, `/` or the end follows.
pub open spec fn repo_stop(s: Seq<char>, j: int) -> bool {
    occurs_at(s, ".git"@, j) || (0 <= j < s.len() && s[j] == '/') || j == s.len()
}

/// Length of the shortest repository name of at least `k` characters
/// starting at `r` and ending within the name run that ends at `f`.
pub open spec fn repo_len(s: Seq<char>, r: int, k: int, f: int) -> Option<int>
    decreases f - r - k + 1,
{
    if k < 1 || r + k > f {
        None
    } else if repo_stop(s, r + k) {
        Some(k)
    } else {
        repo_len(s, r, k + 1, f)
    }
}

/// The owner and repository matched at `i` by
/// `github\.com[:/]([A-Za-z0-9_.-]+)/([A-Za-z0-9_.-]+?)(\.git|/|$)`: the
/// whole owner run, then the shortest repository name followed by `.git`,
/// `/` or the end of the text.
pub open spec fn slug_at(s: Seq<char>, i: int) -> Option<(Seq<char>, Seq<char>)> {
    if occurs_at(s, "github.com"@, i) && i + 10 < s.len() && (s[i + 10] == ':' || s[i + 10] == '/') {
        let o = i + 11;
        let e = name_end(s, o);
        if e > o && e < s.len() && s[e] == '/' {
            let r = e + 1;
            match repo_len(s, r, 1, name_end(s, r)) {
                Some(k) => Some((s.subrange(o, e), s.subrange(r, r + k))),
                None => None,
            }
        } else {
            None
        }
    } else {
        None
    }
}

/// The leftmost match at or after `i`.
pub open spec fn slug_from(s: Seq<char>, i: int) -> Option<(Seq<char>, Seq<char>)>
    decreases s.len() + 1 - i,
{
    if i < 0 || i > s.len() {
        None
    } else {
        match slug_at(s, i) {
            Some(x) => Some(x),
            None => slug_from(s, i + 1),
        }
    }
}

/// `trim_end_matches(".git")`.
pub open spec fn trim_git(s: Seq<char>) -> Seq<char>
    decreases s.len(),
{
    if s.len() >= 4 && s.subrange(s.len() - 4, s.len() as int) == ".git"@ {
        trim_git(s.subrange(0, s.len() - 4))
    } else {
        s
    }
}

/// `OWNER/REPO` of the first GitHub URL in `url`.
pub open spec fn github_slug(url: Seq<char>) -> Option<Seq<char>> {
    match slug_from(url, 0) {
        Some((o, r)) => Some(o + "/"@ + trim_git(r)),
        None => None,
    }
}

proof fn lemma_name_end_bounds(s: Seq<char>, i: int)
    requires
        0 <= i <= s.len(),
    ensures
        i <= name_end(s, i) <= s.len(),
        forall|j: int| i <= j < name_end(s, i) ==> is_slug_char(#[trigger] s[j]),
        name_end(s, i) < s.len() ==> !is_slug_char(s[name_end(s, i)]),
    decreases s.len() - i,
{
    if i < s.len() && is_slug_char(s[i]) {
        lemma_name_end_bounds(s, i + 1);
    }
}

/// Every character of `s` is an ASCII letter, an ASCII digit, `_`, `.` or `-`.
pub open spec fn ascii_name(s: Seq<char>) -> bool {
    forall|j: int|
        0 <= j < s.len() ==> ('A' <= #[trigger] s[j] && s[j] <= 'Z') || ('a' <= s[j] && s[j] <= 'z') || (
        '0' <= s[j] && s[j] <= '9') || s[j] == '_' || s[j] == '.' || s[j] == '-'
}

proof fn lemma_name_end_at(s: Seq<char>, i: int, e: int)
    requires
        0 <= i <= e <= s.len(),
        forall|j: int| i <= j < e ==> is_slug_char(#[trigger] s[j]),
        e == s.len() || !is_slug_char(s[e]),
    ensures
        name_end(s, i) == e,
    decreases e - i,
{
    if i < e {
        lemma_name_end_at(s, i + 1, e);
    }
}

proof fn lemma_repo_len_stops(s: Seq<char>, r: int, k: int, n: int, f: int)
    requires
        1 <= k <= n,
        0 <= r,
        r + n <= f,
        repo_stop(s, r + n),
        forall|m: int| k <= m < n ==> !repo_stop(s, #[trigger] (r + m)),
    ensures
        repo_len(s, r, k, f) == Some(n),
    decreases n - k,
{
    if k < n {
        lemma_repo_len_stops(s, r, k + 1, n, f);
    }
}

proof fn lemma_slug_from_skip(s: Seq<char>, i: int, m: int)
    requires
        0 <= i <= m <= s.len(),
        forall|j: int| i <= j < m ==> #[trigger] slug_at(s, j) is None,
    ensures
        slug_from(s, i) == slug_from(s, m),
    decreases m - i,
{
    if i < m {
        lemma_slug_from_skip(s, i + 1, m);
    }
}

/// In `https://github.com/OWNER/TAIL`, with names of ASCII letters, digits,
/// `_`, `.` and `-`, the repository is the first `n` characters of the
/// tail when `n` is the first place past the tail's start where `.git`
/// begins or the tail ends.
proof fn lemma_github_url_parts(o: Seq<char>, t: Seq<char>, n: int)
    requires
        o.len() > 0,
        ascii_name(o),
        ascii_name(t),
        1 <= n <= t.len(),
        n == t.len() || occurs_at(t, ".git"@, n),
        forall|m: int| 1 <= m < n ==> !occurs_at(t, ".git"@, m),
    ensures
        slug_from("https://github.com/"@ + o + "/"@ + t, 0) == Some((o, t.subrange(0, n))),
{
    reveal_strlit("https://github.com/");
    reveal_strlit("github.com");
    reveal_strlit("/");
    reveal_strlit(".git");
    let p = "https://github.com/"@;
    let s = p + o + "/"@ + t;
    let e: int = 19 + o.len() as int;
    let r0: int = e + 1;
    assert(s.len() == r0 + t.len());
    assert forall|j: int| 0 <= j < 19 implies s[j] == p[j] by {}
    assert forall|j: int| 0 <= j < o.len() implies s[19 + j] == o[j] by {}
    assert forall|j: int| 0 <= j < t.len() implies s[r0 + j] == t[j] by {}
    assert(s[e] == '/');
    assert forall|j: int| 0 <= j < 8 implies #[trigger] slug_at(s, j) is None by {
        if occurs_at(s, "github.com"@, j) {
            assert(s.subrange(j, j + 10)[0] == s[j]);
        }
    }
    lemma_slug_from_skip(s, 0, 8);
    assert(s.subrange(8, 18) =~= "github.com"@);
    assert(occurs_at(s, "github.com"@, 8));
    assert forall|j: int| 19 <= j < e implies is_slug_char(#[trigger] s[j]) by {
        assert(s[j] == o[j - 19]);
    }
    lemma_name_end_at(s, 19, e);
    assert forall|j: int| r0 <= j < s.len() implies is_slug_char(#[trigger] s[j]) by {
        assert(s[j] == t[j - r0]);
    }
    lemma_name_end_at(s, r0, s.len() as int);
    assert forall|m: int| 1 <= m < n implies !repo_stop(s, #[trigger] (r0 + m)) by {
        assert(s[r0 + m] == t[m]);
        if occurs_at(s, ".git"@, r0 + m) {
            assert(t.subrange(m, m + 4) =~= s.subrange(r0 + m, r0 + m + 4));
            assert(occurs_at(t, ".git"@, m));
        }
    }
    if n < t.len() {
        assert(t.subrange(n, n + 4) =~= s.subrange(r0 + n, r0 + n + 4));
        assert(occurs_at(s, ".git"@, r0 + n));
    }
    assert(repo_stop(s, r0 + n));
    lemma_repo_len_stops(s, r0, 1, n, s.len() as int);
    assert(s.subrange(19, e) =~= o);
    assert(s.subrange(r0, r0 + n) =~= t.subrange(0, n));
    assert(slug_at(s, 8) == Some((o, t.subrange(0, n))));
}

/// A GitHub URL `https://github.com/OWNER/REPO` names `OWNER/REPO`, for
/// every non-empty owner and repository spelt with ASCII letters (upper or
/// lower case), digits, `_`, `.` and `-`, the repository holding no `.git`.
pub proof fn github_url_gives_owner_and_repo(o: Seq<char>, r: Seq<char>)
    requires
        o.len() > 0,
        r.len() > 0,
        ascii_name(o),
        ascii_name(r),
        forall|j: int| !occurs_at(r, ".git"@, j),
    ensures
        github_slug("https://github.com/"@ + o + "/"@ + r) == Some(o + "/"@ + r),
{
    reveal_strlit(".git");
    lemma_github_url_parts(o, r, r.len() as int);
    assert(r.subrange(0, r.len() as int) =~= r);
    if r.len() >= 4 && r.subrange(r.len() - 4, r.len() as int) == ".git"@ {
        assert(occurs_at(r, ".git"@, r.len() - 4));
    }
    assert(trim_git(r) == r);
}

/// The same URL with `.git` after the repository names the same
/// `OWNER/REPO`: `https://github.com/OWNER/REPO.git` gives `OWNER/REPO`.
pub proof fn github_url_drops_dot_git(o: Seq<char>, r: Seq<char>)
    requires
        o.len() > 0,
        r.len() > 0,
        ascii_name(o),
        ascii_name(r),
        forall|j: int| !occurs_at(r, ".git"@, j),
    ensures
        github_slug("https://github.com/"@ + o + "/"@ + r + ".git"@) == Some(o + "/"@ + r),
{
    reveal_strlit(".git");
    let g = ".git"@;
    let t = r + g;
    let n: int = r.len() as int;
    assert(t[n] == '.' && t[n + 1] == 'g' && t[n + 2] == 'i' && t[n + 3] == 't');
    assert forall|j: int| 0 <= j < t.len() implies ('A' <= #[trigger] t[j] && t[j] <= 'Z') || ('a' <= t[j] && t[j]
        <= 'z') || ('0' <= t[j] && t[j] <= '9') || t[j] == '_' || t[j] == '.' || t[j] == '-' by {
        if j < n {
            assert(t[j] == r[j]);
        }
    }
    assert(t.subrange(n, n + 4) =~= g);
    assert forall|m: int| 1 <= m < n implies !occurs_at(t, ".git"@, m) by {
        if occurs_at(t, ".git"@, m) {
            let w = t.subrange(m, m + 4);
            assert(w[0] == t[m] && w[1] == t[m + 1] && w[2] == t[m + 2] && w[3] == t[m + 3]);
            if m + 4 <= n {
                assert(r.subrange(m, m + 4) =~= w);
                assert(occurs_at(r, ".git"@, m));
            }
        }
    }
    lemma_github_url_parts(o, t, n);
    assert(t.subrange(0, n) =~= r);
    assert("https://github.com/"@ + o + "/"@ + r + g =~= "https://github.com/"@ + o + "/"@ + t);
    if r.len() >= 4 && r.subrange(r.len() - 4, r.len() as int) == ".git"@ {
        assert(occurs_at(r, ".git"@, r.len() - 4));
    }
    assert(trim_git(r) == r);
}

fn name_end_exec(s: &Vec<char>, i: usize) -> (r: usize)
    requires
        i <= s.len(),
    ensures
        r == name_end(s@, i as int),
{
    let mut k = i;
    while k < s.len() && is_slug_char_exec(s[k])
        invariant
            i <= k <= s.len(),
            name_end(s@, i as int) == name_end(s@, k as int),
        decreases s.len() - k,
    {
        k = k + 1;
    }
    k
}

fn slug_at_exec(s: &Vec<char>, i: usize) -> (r: Option<(Vec<char>, Vec<char>)>)
    requires
        i <= s.len(),
    ensures
        r matches Some(x) ==> slug_at(s@, i as int) == Some((x.0@, x.1@)),
        r is None ==> slug_at(s@, i as int) is None,
{
    let gh = to_chars("github.com");
    proof {
        reveal_strlit("github.com");
    }
    if !crate::text::occurs_at_exec(s, &gh, i) {
        return None;
    }
    if !(i + 10 < s.len() && (s[i + 10] == ':' || s[i + 10] == '/')) {
        return None;
    }
    let o = i + 11;
    let e = name_end_exec(s, o);
    proof {
        lemma_name_end_bounds(s@, o as int);
    }
    if !(e > o && e < s.len() && s[e] == '/') {
        return None;
    }
    let r = e + 1;
    let f = name_end_exec(s, r);
    proof {
        lemma_name_end_bounds(s@, r as int);
    }
    let owner = crate::text::subrange_chars(s, o, e);
    let dot_git = to_chars(".git");
    let ghost want = slug_at(s@, i as int);
    assert(want == match repo_len(s@, r as int, 1, f as int) {
        Some(k) => Some((owner@, s@.subrange(r as int, r + k))),
        None => None,
    });
    let mut k: usize = 1;
    while k <= f - r
        invariant
            1 <= k,
            r <= f <= s.len(),
            f == name_end(s@, r as int),
            dot_git@ == ".git"@,
            repo_len(s@, r as int, 1, f as int) == repo_len(s@, r as int, k as int, f as int),
            want == slug_at(s@, i as int),
            want == match repo_len(s@, r as int, 1, f as int) {
                Some(k) => Some((owner@, s@.subrange(r as int, r + k))),
                None => None,
            },
        decreases f - r - k + 1,
    {
        let j = r + k;
        if crate::text::occurs_at_exec(s, &dot_git, j) || (j < s.len() && s[j] == '/') || j == s.len() {
            assert(repo_stop(s@, j as int));
            assert(repo_len(s@, r as int, k as int, f as int) == Some(k as int));
            let repo = crate::text::subrange_chars(s, r, j);
            return Some((owner, repo));
        }
        k = k + 1;
    }
    None
}

fn trim_git_exec(v: &Vec<char>) -> (r: Vec<char>)
    ensures
        r@ == trim_git(v@),
{
    let dot_git = to_chars(".git");
    proof {
        reveal_strlit(".git");
    }
    let mut n: usize = v.len();
    assert(v@.subrange(0, v@.len() as int) == v@);
    while n >= 4 && crate::text::occurs_at_exec(v, &dot_git, n - 4)
        invariant
            n <= v.len(),
            dot_git@ == ".git"@,
            trim_git(v@) == trim_git(v@.subrange(0, n as int)),
        decreases n,
    {
        proof {
            reveal_strlit(".git");
        }
        assert(v@.subrange(0, n as int).subrange(n - 4, n as int) == v@.subrange(n - 4, n as int));
        assert(v@.subrange(0, n as int).subrange(0, n - 4) == v@.subrange(0, n - 4));
        n = n - 4;
    }
    proof {
        if n >= 4 {
            assert(v@.subrange(0, n as int).subrange(n - 4, n as int) == v@.subrange(n - 4, n as int));
        }
    }
    crate::text::subrange_chars(v, 0, n)
}

/// Extract `OWNER/REPO` from a github URL string.
pub fn extract_github_slug(url: &str) -> (r: Option<String>)
    ensures
        r matches Some(x) ==> github_slug(url@) == Some(x@),
        r is None ==> github_slug(url@) is None,
{
    let s = to_chars(url);
    let mut i: usize = 0;
    loop
        invariant
            i <= s.len(),
            s@ == url@,
            slug_from(s@, 0) == slug_from(s@, i as int),
        decreases s.len() - i,
    {
        match slug_at_exec(&s, i) {
            Some((owner, repo)) => {
                let mut out = owner;
                out.push('/');
                append_chars(&mut out, &trim_git_exec(&repo));
                proof {
                    reveal_strlit("/");
                    assert(seq!['/'] == "/"@);
                }
                return Some(from_chars(&out));
            },
            None => {},
        }
        if i == s.len() {
            assert(slug_from(s@, i + 1) is None);
            return None;
        }
        i = i + 1;
    }
}

/// Where a `composer.json` points for a package's source.
#[derive(Debug, Clone)]
pub struct ComposerSource {
    pub support_source: Option<String>,
    pub homepage: Option<String>,
    pub support_issues: Option<String>,
}

/// The first of `support.source`, `homepage`, `support.issues` that holds a
/// GitHub URL gives the slug.
pub open spec fn composer_slug(c: ComposerSource) -> Option<Seq<char>> {
    let a = match c.support_source {
        Some(u) => github_slug(u@),
        None => None,
    };
    let b = match c.homepage {
        Some(u) => github_slug(u@),
        None => None,
    };
    let d = match c.support_issues {
        Some(u) => github_slug(u@),
        None => None,
    };
    if a is Some {
        a
    } else if b is Some {
        b
    } else {
        d
    }
}

fn slug_of(u: &Option<String>) -> (r: Option<String>)
    ensures
        r matches Some(x) ==> (match *u {
            Some(v) => github_slug(v@),
            None => None,
        }) == Some(x@),
        r is None ==> (match *u {
            Some(v) => github_slug(v@),
            None => None,
        }) is None,
{
    match u {
        Some(v) => extract_github_slug(v.as_str()),
        None => None,
    }
}

/// Resolve the GitHub OWNER/REPO from a parsed `composer.json`.
/// Tries `support.source`, then `homepage`, then `support.issues`.
/// Returns None when none is a github.com URL.
pub fn parse_composer_source(composer: &ComposerSource) -> (r: Option<String>)
    ensures
        r matches Some(x) ==> composer_slug(*composer) == Some(x@),
        r is None ==> composer_slug(*composer) is None,
{
    let a = slug_of(&composer.support_source);
    if a.is_some() {
        return a;
    }
    let b = slug_of(&composer.homepage);
    if b.is_some() {
        return b;
    }
    slug_of(&composer.support_issues)
}


// ---------------------------------------------------------------------------
// Commit summaries
// ---------------------------------------------------------------------------

/// What the `/commits` API says of a commit.
#[derive(Debug, Clone)]
pub struct CommitInfo {
    pub sha: Option<String>,
    pub date: Option<String>,
    pub message: Option<String>,
}

/// First line of a text (empty when there is none).
pub open spec fn first_line(s: Seq<char>) -> Seq<char> {
    if lines(s).len() > 0 {
        lines(s)[0]
    } else {
        Seq::<char>::empty()
    }
}

/// Bytes of the sha kept: seven, or all of a shorter one.
pub open spec fn sha_cut(sha: Seq<char>) -> int {
    if crate::text::byte_len(sha) < 7 {
        crate::text::byte_len(sha) as int
    } else {
        7
    }
}

/// `<sha prefix> <date> (#<n>)`, the last part only with a PR number.
pub open spec fn commit_summary_spec(sha: Seq<char>, date: Seq<char>, pr: Option<Seq<char>>) -> Seq<char> {
    let k = choose|k: int| crate::text::is_byte_prefix(sha, k, sha_cut(sha));
    let d = if date.len() < 10 {
        date
    } else {
        date.take(10)
    };
    sha.take(k) + " "@ + d + match pr {
        Some(n) => " (#"@ + n + ")"@,
        None => Seq::<char>::empty(),
    }
}

/// Builds a short "sha1234 YYYY-MM-DD (#NNN)" string from a commit's sha,
/// date and the PR number found in its subject.
pub fn commit_summary_with(sha: &str, date: &str, pr_number: Option<&str>) -> (r: String)
    requires
        crate::text::is_boundary(sha@, sha_cut(sha@)),
    ensures
        r@ == commit_summary_spec(
            sha@,
            date@,
            match pr_number {
                Some(n) => Some(n@),
                None => None,
            },
        ),
{
    let sv = to_chars(sha);
    let bl = match crate::text::byte_len_prefix(&sv, sv.len()) {
        Some(b) => b,
        None => 7,
    };
    assert(sv@.take(sv.len() as int) == sv@);
    let cut: usize = if bl < 7 {
        bl
    } else {
        7
    };
    let k = match crate::text::byte_prefix_len(&sv, cut) {
        Some(k) => k,
        None => 0,
    };
    proof {
        let kk = choose|kk: int| crate::text::is_byte_prefix(sv@, kk, cut as int);
        crate::text::lemma_byte_prefix_unique(sv@, k as int, kk, cut as int);
    }
    let mut out = crate::text::subrange_chars(&sv, 0, k);
    assert(out@ == sv@.take(k as int));
    out.push(' ');
    let dv = to_chars(date);
    let dn: usize = if dv.len() < 10 {
        dv.len()
    } else {
        10
    };
    let dpart = crate::text::subrange_chars(&dv, 0, dn);
    assert(dv@.len() < 10 ==> dpart@ == dv@);
    assert(dv@.len() >= 10 ==> dpart@ == dv@.take(10));
    append_chars(&mut out, &dpart);
    let ghost before = out@;
    match pr_number {
        Some(n) => {
            append_chars(&mut out, &to_chars(" (#"));
            append_chars(&mut out, &to_chars(n));
            out.push(')');
            proof {
                reveal_strlit(")");
                assert(seq![')'] == ")"@);
            }
        },
        None => {},
    }
    proof {
        reveal_strlit(" ");
        assert(seq![' '] == " "@);
    }
    from_chars(&out)
}

/// Summary of the first commit of a `/commits` answer; `None` without a
/// commit, a sha or a date.
pub open spec fn commit_summary_first_spec(commits: Seq<CommitInfo>) -> Option<Seq<char>> {
    if commits.len() == 0 || commits[0].sha is None || commits[0].date is None {
        None
    } else {
        let c = commits[0];
        Some(commit_summary_spec(
            crate::text::opt_chars(c.sha),
            crate::text::opt_chars(c.date),
            pr_ref_capture(first_line(crate::text::opt_chars(c.message))),
        ))
    }
}

/// Build a short "sha1234 YYYY-MM-DD (#NNN)" string from the first
/// entry of a GitHub /commits response. Returns None when missing.
pub fn commit_summary_first(commits: &[CommitInfo]) -> (r: Option<String>)
    requires
        commits.len() > 0 && commits@[0].sha is Some ==> crate::text::is_boundary(
            crate::text::opt_chars(commits@[0].sha),
            sha_cut(crate::text::opt_chars(commits@[0].sha)),
        ),
    ensures
        r matches Some(s) ==> commit_summary_first_spec(commits@) == Some(s@),
        r is None ==> commit_summary_first_spec(commits@) is None,
{
    if commits.len() == 0 {
        return None;
    }
    let first = &commits[0];
    let sha = match &first.sha {
        Some(s) => s,
        None => {
            return None;
        },
    };
    let date = match &first.date {
        Some(d) => d,
        None => {
            return None;
        },
    };
    let mv = crate::text::opt_to_chars(&first.message);
    let ls = split_lines(&mv);
    let subject: Vec<char> = if ls.len() > 0 {
        ls[0].clone()
    } else {
        Vec::new()
    };
    assert(subject@ == first_line(mv@));
    let subject_s = from_chars(&subject);
    let pr = pr_ref_number(subject_s.as_str());
    let pr_str: Option<&str> = match &pr {
        Some(p) => Some(p.as_str()),
        None => None,
    };
    Some(commit_summary_with(sha.as_str(), date.as_str(), pr_str))
}

// ---------------------------------------------------------------------------
// Upstream `.gitattributes` from the contents API
// ---------------------------------------------------------------------------

/// The characters that are not whitespace, in order.
pub open spec fn without_ws(s: Seq<char>) -> Seq<char>
    decreases s.len(),
{
    if s.len() == 0 {
        seq![]
    } else if crate::text::is_ws(s.last()) {
        without_ws(s.drop_last())
    } else {
        without_ws(s.drop_last()).push(s.last())
    }
}

/// The paths an upstream `.gitattributes` excludes, given the contents
/// API's base64 `content` (whitespace removed first); none when it does not
/// decode to UTF-8 text.
pub open spec fn contents_excluded(b64: Seq<char>) -> Seq<Seq<char>> {
    match sextets(trim_padding(vstd::utf8::encode_utf8(without_ws(b64)))) {
        Ok(v) => {
            let bytes = decode_sextets(v);
            if vstd::utf8::valid_utf8(bytes) {
                excluded_paths_spec(lines(vstd::utf8::decode_utf8(bytes)))
            } else {
                Seq::<Seq<char>>::empty()
            }
        },
        Err(_) => Seq::<Seq<char>>::empty(),
    }
}

pub fn excluded_from_contents(b64: &str) -> (r: PathSet)
    ensures
        r@ == contents_excluded(b64@),
{
    let v = to_chars(b64);
    let mut kept: Vec<char> = Vec::new();
    let mut i: usize = 0;
    while i < v.len()
        invariant
            i <= v.len(),
            kept@ == without_ws(v@.take(i as int)),
        decreases v.len() - i,
    {
        assert(v@.take(i + 1).drop_last() == v@.take(i as int));
        assert(v@.take(i + 1).last() == v@[i as int]);
        if !crate::text::is_ws_char(v[i]) {
            kept.push(v[i]);
        }
        i = i + 1;
    }
    assert(v@.take(v.len() as int) == v@);
    let cleaned = from_chars(&kept);
    match base64_decode(cleaned.as_str()) {
        Ok(bytes) => match utf8_string(bytes) {
            Some(text) => parsed_excluded_paths_from_gitattributes(text.as_str()),
            None => PathSet::new(),
        },
        Err(_) => PathSet::new(),
    }
}


// ---------------------------------------------------------------------------
// Assembling targets
// ---------------------------------------------------------------------------

/// Default candidates considered as dev/tooling files that don't belong
/// in a composer dist. Used when scanning by repo name only (no
/// vendor/ tree to inspect). Order matters and is kept stable.
pub const DEFAULT_DEV_CANDIDATES: [&'static str; 36] = [
    // folders
    "tests",
    "Tests",
    "test",
    "examples",
    "docs",
    "doc",
    "benchmark",
    "benchmarks",
    ".github",
    ".phpdoc",
    "guides",
    // files
    "phpunit.xml",
    "phpunit.xml.dist",
    "psalm.xml",
    "psalm.xml.dist",
    "phpcs.xml",
    "phpcs.xml.dist",
    "phpstan.neon",
    "phpstan.neon.dist",
    "phpstan-baseline.neon",
    ".php-cs-fixer.php",
    ".php-cs-fixer.dist.php",
    ".php_cs",
    ".php_cs.dist",
    "infection.json.dist",
    ".editorconfig",
    ".scrutinizer.yml",
    ".travis.yml",
    "appveyor.yml",
    ".gitlab-ci.yml",
    "codecov.yml",
    "Makefile",
    "CONTRIBUTING.md",
    "AGENTS.md",
    ".phpstorm.meta.php",
    "splitsh.json",
];

/// The default candidates as owned strings, in their order.
pub fn default_candidates() -> (r: Vec<String>)
    ensures
        r.len() == DEFAULT_DEV_CANDIDATES.len(),
        forall|i: int| 0 <= i < r.len() ==> #[trigger] r@[i]@ == DEFAULT_DEV_CANDIDATES@[i]@,
{
    let mut r: Vec<String> = Vec::new();
    let mut i: usize = 0;
    while i < DEFAULT_DEV_CANDIDATES.len()
        invariant
            i <= DEFAULT_DEV_CANDIDATES.len(),
            r.len() == i,
            forall|k: int| 0 <= k < i ==> #[trigger] r@[k]@ == DEFAULT_DEV_CANDIDATES@[k]@,
        decreases DEFAULT_DEV_CANDIDATES.len() - i,
    {
        r.push(String::from_str(DEFAULT_DEV_CANDIDATES[i]));
        i = i + 1;
    }
    r
}

/// The normalized candidates not yet excluded upstream, in order.
pub open spec fn unexcluded(candidates: Seq<Seq<char>>, excluded: Seq<Seq<char>>) -> Seq<Seq<char>>
    decreases candidates.len(),
{
    if candidates.len() == 0 {
        seq![]
    } else {
        let pre = unexcluded(candidates.drop_last(), excluded);
        let norm = strip_slashes_spec(candidates.last());
        if excluded.contains(norm) {
            pre
        } else {
            pre.push(norm)
        }
    }
}

/// Each candidate without leading and trailing slashes, unless upstream
/// already excludes it: the paths still to look up.
pub fn unexcluded_candidates(candidates: &[String], excluded: &PathSet) -> (r: Vec<String>)
    ensures
        strings(r@) == unexcluded(strings(candidates@), excluded@),
{
    let ghost cv = strings(candidates@);
    let mut out: Vec<String> = Vec::new();
    let mut i: usize = 0;
    while i < candidates.len()
        invariant
            i <= candidates.len(),
            cv == strings(candidates@),
            strings(out@) == unexcluded(cv.take(i as int), excluded@),
        decreases candidates.len() - i,
    {
        assert(cv.take(i + 1).drop_last() == cv.take(i as int));
        assert(cv.take(i + 1).last() == candidates@[i as int]@);
        let norm = strip_slashes(candidates[i].as_str());
        if !excluded.contains(norm.as_str()) {
            let ghost before = strings(out@);
            out.push(norm);
            assert(strings(out@) =~= before.push(strip_slashes_spec(cv[i as int])));
        }
        i = i + 1;
    }
    assert(cv.take(candidates.len() as int) == cv);
    out
}

/// The entry proposed for a path found upstream: directories get a
/// trailing slash for readability; the citation is the last commit that
/// touched the path, or `unknown`.
pub fn candidate_entry(norm: &str, is_dir: bool, last_touch: Option<String>) -> (e: Entry)
    ensures
        e.line@ == "/"@ + norm@ + (if is_dir {
            "/"@
        } else {
            ""@
        }) + " export-ignore"@,
        e.reference@ == match last_touch {
            Some(r) => r@,
            None => "unknown"@,
        },
{
    let mut line = String::from_str("/");
    line.append(norm);
    if is_dir {
        line.append("/");
    }
    line.append(" export-ignore");
    proof {
        reveal_strlit("");
        assert(line@ == "/"@ + norm@ + (if is_dir {
            "/"@
        } else {
            ""@
        }) + " export-ignore"@);
    }
    let reference = match last_touch {
        Some(r) => r,
        None => String::from_str("unknown"),
    };
    Entry { line, reference }
}

pub open spec fn entry_views(es: Seq<Entry>) -> Seq<(Seq<char>, Seq<char>)> {
    es.map_values(|e: Entry| (e.line@, e.reference@))
}

/// The entries of a target: the found ones, then either the housekeeping
/// lines for a new `.gitattributes`, or the `.github` line that comes with
/// a Travis cleanup.
pub open spec fn target_entries(
    found: Seq<(Seq<char>, Seq<char>)>,
    create: bool,
    github_addition: Option<(Seq<char>, Seq<char>)>,
) -> Seq<(Seq<char>, Seq<char>)> {
    if create {
        found.push(("/.gitattributes export-ignore"@, "new"@)).push(
            ("/.gitignore export-ignore"@, "new"@),
        )
    } else {
        match github_addition {
            Some(g) => found.push(("/"@ + g.0 + " export-ignore"@, g.1)),
            None => found,
        }
    }
}

/// The target for `slug`: `found` are the entries for candidate paths,
/// `stale` and `github_addition` the outcome of the stale-entry check
/// (used only when `.gitattributes` exists upstream, that is `!create`).
/// `None` when there is nothing to add and nothing to remove.
pub fn finish_target(
    slug: String,
    branch: String,
    create: bool,
    last_ga: Option<String>,
    found: Vec<Entry>,
    stale: Vec<RemoveEntry>,
    github_addition: Option<(&str, &str)>,
) -> (r: Option<Target>)
    ensures
        ({
            let gh = match github_addition {
                Some(g) => Some((g.0@, g.1@)),
                None => None,
            };
            let es = target_entries(entry_views(found@), create, gh);
            let rs = if create {
                Seq::<(Seq<char>, Seq<char>)>::empty()
            } else {
                removal_views(stale@)
            };
            &&& r is None <==> (es.len() == 0 && rs.len() == 0)
            &&& r matches Some(t) ==> {
                &&& t.repo == slug
                &&& t.branch == branch
                &&& t.create == create
                &&& t.last_gitattributes_ref == last_ga
                &&& entry_views(t.entries@) == es
                &&& removal_views(t.remove@) == rs
            }
        }),
{
    let ghost fv = entry_views(found@);
    let mut entries = found;
    let mut removals: Vec<RemoveEntry> = Vec::new();
    if create {
        entries.push(Entry {
            line: String::from_str("/.gitattributes export-ignore"),
            reference: String::from_str("new"),
        });
        entries.push(Entry {
            line: String::from_str("/.gitignore export-ignore"),
            reference: String::from_str("new"),
        });
        assert(entry_views(entries@) =~= fv.push(("/.gitattributes export-ignore"@, "new"@)).push(
            ("/.gitignore export-ignore"@, "new"@),
        ));
    } else {
        match github_addition {
            Some((path, reason)) => {
                let mut line = String::from_str("/");
                line.append(path);
                line.append(" export-ignore");
                entries.push(Entry { line, reference: String::from_str(reason) });
                assert(entry_views(entries@) =~= fv.push(("/"@ + path@ + " export-ignore"@, reason@)));
            },
            None => {},
        }
        removals = stale;
    }
    assert(removal_views(Seq::<RemoveEntry>::empty()) =~= Seq::<(Seq<char>, Seq<char>)>::empty());
    if entries.len() == 0 && removals.len() == 0 {
        return None;
    }
    Some(Target {
        repo: slug,
        branch,
        create,
        last_gitattributes_ref: last_ga,
        entries,
        remove: removals,
    })
}

/// The first index of `c` in `s`, or its length when there is none.
pub open spec fn first_index_of(s: Seq<char>, c: char) -> int {
    if exists|i: int| 0 <= i < s.len() && s[i] == c {
        choose|i: int| 0 <= i < s.len() && s[i] == c && forall|j: int| 0 <= j < i ==> s[j] != c
    } else {
        s.len() as int
    }
}

/// `OWNER/REPO` of an `OWNER/REPO[:BRANCH]` argument.
pub fn repo_slug(raw: &str) -> (r: String)
    ensures
        r@ == raw@.take(first_index_of(raw@, ':')),
{
    let v = to_chars(raw);
    let mut i: usize = 0;
    while i < v.len() && v[i] != ':'
        invariant
            i <= v.len(),
            v@ == raw@,
            forall|j: int| 0 <= j < i ==> v@[j] != ':',
        decreases v.len() - i,
    {
        i = i + 1;
    }
    proof {
        if i < v.len() {
            let k = choose|k: int| 0 <= k < v@.len() && v@[k] == ':' && forall|j: int| 0 <= j < k ==> v@[j] != ':';
            if k < i {
            } else if k > i {
                assert(v@[i as int] == ':');
            }
        }
    }
    from_chars(&subrange_chars(&v, 0, i))
}

/// Vendor directories that hold no packages: `bin`, `composer` and hidden
/// ones.
pub fn is_skipped_vendor_dir(name: &str) -> (r: bool)
    ensures
        r == (name@ == "bin"@ || name@ == "composer"@ || (name@.len() > 0 && name@[0] == '.')),
{
    if str_eq(name, "bin") || str_eq(name, "composer") {
        return true;
    }
    let v = to_chars(name);
    v.len() > 0 && v[0] == '.'
}

/// What `build` is asked to do.
#[derive(Debug, Clone)]
pub struct BuildArgs {
    pub vendor: Option<String>,
    pub repos: Vec<String>,
    pub user_login: String,
    pub fork_dir: Option<String>,
    pub output: String,
}

#[derive(Debug, Clone, Copy, PartialEq, Eq, Structural)]
pub enum BuildError {
    /// Neither a vendor directory nor a repository was given.
    NoSource,
}

impl BuildArgs {
    /// Refuses a request with neither `--vendor` nor `--repos`.
    pub fn check(&self) -> (r: Result<(), BuildError>)
        ensures
            r is Err <==> (self.vendor is None && self.repos.len() == 0),
    {
        if self.vendor.is_none() && self.repos.len() == 0 {
            Err(BuildError::NoSource)
        } else {
            Ok(())
        }
    }
}

/// The defaults written into a generated campaign file.
pub fn build_defaults(user_login: &str, fork_dir: Option<String>) -> (d: Defaults)
    ensures
        d.fork_dir@ == match fork_dir {
            Some(f) => f@,
            None => "/path/to/your/forks"@,
        },
        d.user_login@ == user_login@,
        d.branch@ == user_login@ + "/gitattributes-export-ignore"@,
        d.pr_title@ == "Update .gitattributes to exclude dev files from composer dist"@,
        d.sleep_min == 10,
        d.sleep_max == 20,
        d.plain_trailer@.len() == 0,
        d.coauthor_trailer@.len() == 0,
{
    let fork_dir = match fork_dir {
        Some(f) => f,
        None => String::from_str("/path/to/your/forks"),
    };
    let mut branch = String::from_str(user_login);
    branch.append("/gitattributes-export-ignore");
    Defaults {
        fork_dir,
        user_login: String::from_str(user_login),
        branch,
        pr_title: String::from_str("Update .gitattributes to exclude dev files from composer dist"),
        sleep_min: 10,
        sleep_max: 20,
        plain_trailer: String::new(),
        coauthor_trailer: String::new(),
    }
}


pub open spec fn plan_views(v: Seq<(String, Vec<String>)>) -> Seq<(Seq<char>, Seq<Seq<char>>)> {
    v.map_values(|p: (String, Vec<String>)| (p.0@, strings(p.1@)))
}

pub open spec fn plan_slugs(v: Seq<(Seq<char>, Seq<Seq<char>>)>) -> Seq<Seq<char>> {
    v.map_values(|p: (Seq<char>, Seq<Seq<char>>)| p.0)
}

/// Pair `k` is the first one with its repository.
pub open spec fn first_of_slug(ps: Seq<(Seq<char>, Seq<Seq<char>>)>, k: int) -> bool {
    &&& 0 <= k < ps.len()
    &&& forall|m: int| 0 <= m < k ==> #[trigger] ps[m].0 != ps[k].0
}

/// The first pair with repository `slug`.
pub open spec fn first_pair_of(ps: Seq<(Seq<char>, Seq<Seq<char>>)>, slug: Seq<char>) -> int {
    choose|k: int| first_of_slug(ps, k) && ps[k].0 == slug
}

/// The repositories strictly ascend (so none occurs twice).
pub open spec fn slugs_ascending(v: Seq<(Seq<char>, Seq<Seq<char>>)>) -> bool {
    forall|i: int, j: int| 0 <= i < j < v.len() ==> lex_lt(#[trigger] v[i].0, #[trigger] v[j].0)
}

proof fn lemma_plan_insert(ov: Seq<(Seq<char>, Seq<Seq<char>>)>, q: int, e: (Seq<char>, Seq<Seq<char>>))
    requires
        0 <= q <= ov.len(),
        slugs_ascending(ov),
        forall|i: int| 0 <= i < q ==> lex_lt(#[trigger] ov[i].0, e.0),
        q < ov.len() ==> lex_lt(e.0, ov[q].0),
    ensures
        slugs_ascending(ov.insert(q, e)),
        !plan_slugs(ov).contains(e.0),
        forall|x: Seq<char>| plan_slugs(ov).contains(x) ==> #[trigger] plan_slugs(ov.insert(q, e)).contains(x),
        plan_slugs(ov.insert(q, e)).contains(e.0),
{
    let nv = ov.insert(q, e);
    assert forall|i: int, j: int| 0 <= i < j < nv.len() implies lex_lt(#[trigger] nv[i].0, #[trigger] nv[j].0) by {
        if j < q {
            assert(nv[i] == ov[i] && nv[j] == ov[j]);
        } else if j == q {
            assert(nv[i] == ov[i]);
        } else if i < q {
            assert(nv[i] == ov[i] && nv[j] == ov[j - 1]);
            assert(lex_lt(e.0, ov[q].0));
            if j - 1 > q {
                lemma_lex_lt_trans(e.0, ov[q].0, ov[j - 1].0);
            }
            lemma_lex_lt_trans(ov[i].0, e.0, ov[j - 1].0);
        } else if i == q {
            assert(nv[j] == ov[j - 1]);
            if j - 1 > q {
                lemma_lex_lt_trans(e.0, ov[q].0, ov[j - 1].0);
            }
        } else {
            assert(nv[i] == ov[i - 1] && nv[j] == ov[j - 1]);
        }
    }
    assert forall|i: int| 0 <= i < ov.len() implies #[trigger] plan_slugs(ov)[i] != e.0 by {
        lemma_lex_lt_irrefl(e.0);
        if i < q {
            assert(lex_lt(ov[i].0, e.0));
        } else {
            if i > q {
                lemma_lex_lt_trans(e.0, ov[q].0, ov[i].0);
            }
            assert(lex_lt(e.0, ov[i].0));
        }
    }
    assert forall|x: Seq<char>| plan_slugs(ov).contains(x) implies #[trigger] plan_slugs(nv).contains(x) by {
        let i = choose|i: int| 0 <= i < plan_slugs(ov).len() && plan_slugs(ov)[i] == x;
        if i < q {
            assert(plan_slugs(nv)[i] == x);
        } else {
            assert(plan_slugs(nv)[i + 1] == x);
        }
    }
    assert(plan_slugs(nv)[q] == e.0);
}

/// The (repository, candidates) pairs to work on: ordered by repository,
/// each repository once, with the candidates of its first pair (a
/// stable sort by repository followed by dropping repeats).
pub fn plan_build(pairs: Vec<(String, Vec<String>)>) -> (r: Vec<(String, Vec<String>)>)
    ensures
        slugs_ascending(plan_views(r@)),
        forall|i: int|
            0 <= i < r.len() ==> {
                let k = first_pair_of(plan_views(pairs@), #[trigger] plan_views(r@)[i].0);
                first_of_slug(plan_views(pairs@), k) && plan_views(r@)[i] == plan_views(pairs@)[k]
            },
        forall|k: int|
            0 <= k < pairs.len() ==> plan_slugs(plan_views(r@)).contains(
                #[trigger] plan_views(pairs@)[k].0,
            ),
{
    let ghost pv = plan_views(pairs@);
    let mut rest = pairs;
    let mut out: Vec<(String, Vec<String>)> = Vec::new();
    let ghost mut src: Seq<int> = Seq::empty();
    let ghost mut k: int = 0;
    while rest.len() > 0
        invariant
            0 <= k <= pv.len(),
            plan_views(rest@) == pv.skip(k),
            src.len() == out.len(),
            slugs_ascending(plan_views(out@)),
            forall|i: int|
                0 <= i < out.len() ==> 0 <= #[trigger] src[i] < k && first_of_slug(pv, src[i])
                    && plan_views(out@)[i] == pv[src[i]],
            forall|m: int| 0 <= m < k ==> plan_slugs(plan_views(out@)).contains(#[trigger] pv[m].0),
        decreases rest.len(),
    {
        let ghost rv = plan_views(rest@);
        assert(rv.len() == rest@.len());
        assert(k < pv.len());
        assert(rv[0] == pv[k]) by {
            assert(rv[0] == pv.skip(k)[0]);
        }
        let p = rest.remove(0);
        assert(plan_views(rest@) =~= pv.skip(k + 1)) by {
            assert forall|i: int| 0 <= i < plan_views(rest@).len() implies plan_views(rest@)[i] == pv.skip(k + 1)[i] by {
                assert(plan_views(rest@)[i] == rv[i + 1]);
                assert(rv[i + 1] == pv.skip(k)[i + 1]);
            }
        }
        assert((p.0@, strings(p.1@)) == pv[k]);
        let ghost ov = plan_views(out@);
        let slug = to_chars(p.0.as_str());
        let mut q: usize = 0;
        let mut scanning = true;
        while scanning
            invariant
                q <= out.len(),
                ov == plan_views(out@),
                forall|i: int| 0 <= i < q ==> lex_lt(#[trigger] ov[i].0, slug@),
                !scanning ==> (q == out.len() || !lex_lt(ov[q as int].0, slug@)),
            decreases out.len() - q + (if scanning { 1int } else { 0int }),
        {
            if q < out.len() && lex_lt_exec(&to_chars(out[q].0.as_str()), &slug) {
                q = q + 1;
            } else {
                scanning = false;
            }
        }
        if q < out.len() && str_eq(out[q].0.as_str(), p.0.as_str()) {
            assert(plan_slugs(ov)[q as int] == pv[k].0);
            assert forall|m: int| 0 <= m < k + 1 implies plan_slugs(plan_views(out@)).contains(#[trigger] pv[m].0) by {
                if m == k {
                    assert(plan_slugs(ov)[q as int] == pv[m].0);
                }
            }
        } else {
            proof {
                if q < out.len() {
                    lemma_lex_total(ov[q as int].0, slug@);
                }
                lemma_plan_insert(ov, q as int, pv[k]);
                assert forall|m: int| 0 <= m < k implies #[trigger] pv[m].0 != pv[k].0 by {
                    assert(plan_slugs(ov).contains(pv[m].0));
                }
                assert(first_of_slug(pv, k));
            }
            let ghost osrc = src;
            out.insert(q, p);
            proof {
                src = src.insert(q as int, k);
                assert(plan_views(out@) =~= ov.insert(q as int, pv[k]));
                let nv = plan_views(out@);
                assert forall|i: int| 0 <= i < out.len() implies 0 <= #[trigger] src[i] < k + 1
                    && first_of_slug(pv, src[i]) && plan_views(out@)[i] == pv[src[i]] by {
                    if i < q {
                        assert(src[i] == osrc[i] && nv[i] == ov[i]);
                    } else if i == q {
                    } else {
                        assert(src[i] == osrc[i - 1] && nv[i] == ov[i - 1]);
                    }
                }
                assert forall|m: int| 0 <= m < k + 1 implies plan_slugs(plan_views(out@)).contains(#[trigger] pv[m].0) by {
                    if m < k {
                        assert(plan_slugs(ov).contains(pv[m].0));
                    }
                }
            }
        }
        proof {
            k = k + 1;
        }
    }
    proof {
        assert(k == pv.len()) by {
            assert(pv.skip(k).len() == 0);
        }
        assert forall|i: int| 0 <= i < out.len() implies {
            let k2 = first_pair_of(pv, #[trigger] plan_views(out@)[i].0);
            first_of_slug(pv, k2) && plan_views(out@)[i] == pv[k2]
        } by {
            let w = src[i];
            assert(first_of_slug(pv, w) && pv[w].0 == plan_views(out@)[i].0);
            let c = first_pair_of(pv, plan_views(out@)[i].0);
            if c < w {
                assert(pv[c].0 != pv[w].0);
            } else if c > w {
                assert(pv[w].0 != pv[c].0);
            }
        }
    }
    out
}

} // verus!
