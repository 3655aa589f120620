//! Character-level model of the text operations the tool relies on:
//! Unicode whitespace, `str::lines`, `split_whitespace().next()`, slash
//! trimming, UTF-8 byte lengths and the code-point order that `String`'s
//! `Ord` uses.
use vstd::prelude::*;

use crate::outside::push_char;

verus! {

/// Unicode `White_Space`, the class behind `char::is_whitespace`,
/// `str::split_whitespace` and the regex class `\s`.
pub open spec fn is_ws(c: char) -> bool {
    ||| c == '\t'
    ||| c == '\n'
    ||| c == '\x0B'
    ||| c == '\x0C'
    ||| c == '\r'
    ||| c == ' '
    ||| c == '\u{85}'
    ||| c == '\u{A0}'
    ||| c == '\u{1680}'
    ||| ('\u{2000}' <= c && c <= '\u{200A}')
    ||| c == '\u{2028}'
    ||| c == '\u{2029}'
    ||| c == '\u{202F}'
    ||| c == '\u{205F}'
    ||| c == '\u{3000}'
}

pub fn is_ws_char(c: char) -> (r: bool)
    ensures
        r == is_ws(c),
{
    c == '\t' || c == '\n' || c == '\x0B' || c == '\x0C' || c == '\r' || c == ' ' || c == '\u{85}'
        || c == '\u{A0}' || c == '\u{1680}' || ('\u{2000}' <= c && c <= '\u{200A}') || c
        == '\u{2028}' || c == '\u{2029}' || c == '\u{202F}' || c == '\u{205F}' || c == '\u{3000}'
}

// ---------------------------------------------------------------------------
// Conversions between `str`/`String` and `Vec<char>`
// ---------------------------------------------------------------------------

pub fn to_chars(s: &str) -> (v: Vec<char>)
    ensures
        v@ == s@,
{
    let mut v: Vec<char> = Vec::new();
    for c in it: s.chars()
        invariant
            v@ == it.seq().take(it.index() as int),
            it.seq() == s@,
    {
        v.push(c);
    }
    v
}

pub fn from_chars(v: &Vec<char>) -> (s: String)
    ensures
        s@ == v@,
{
    let mut s = String::new();
    let mut i: usize = 0;
    while i < v.len()
        invariant
            i <= v.len(),
            s@ == v@.take(i as int),
        decreases v.len() - i,
    {
        push_char(&mut s, v[i]);
        assert(v@.take(i + 1) == v@.take(i as int).push(v@[i as int]));
        i = i + 1;
    }
    assert(v@.take(v.len() as int) == v@);
    s
}

pub fn chars_eq(a: &Vec<char>, b: &Vec<char>) -> (r: bool)
    ensures
        r == (a@ == b@),
{
    if a.len() != b.len() {
        return false;
    }
    let mut i: usize = 0;
    while i < a.len()
        invariant
            i <= a.len(),
            a.len() == b.len(),
            a@.take(i as int) == b@.take(i as int),
        decreases a.len() - i,
    {
        if a[i] != b[i] {
            assert(a@.take(i + 1)[i as int] != b@.take(i + 1)[i as int]);
            proof {
                if a@ == b@ {
                    assert(a@[i as int] == b@[i as int]);
                }
            }
            return false;
        }
        assert(a@.take(i + 1) == a@.take(i as int).push(a@[i as int]));
        assert(b@.take(i + 1) == b@.take(i as int).push(b@[i as int]));
        i = i + 1;
    }
    assert(a@.take(a.len() as int) == a@);
    assert(b@.take(b.len() as int) == b@);
    true
}

/// Membership of a character sequence in a vector of character vectors.
pub fn contains_chars(v: &Vec<Vec<char>>, x: &Vec<char>) -> (r: bool)
    ensures
        r == views(v@).contains(x@),
{
    let ghost dv = views(v@);
    let mut i: usize = 0;
    while i < v.len()
        invariant
            i <= v.len(),
            dv == views(v@),
            forall|j: int| 0 <= j < i ==> dv[j] != x@,
        decreases v.len() - i,
    {
        assert(dv[i as int] == v@[i as int]@);
        if chars_eq(&v[i], x) {
            return true;
        }
        i = i + 1;
    }
    false
}

pub fn clone_chars(v: &Vec<char>) -> (r: Vec<char>)
    ensures
        r@ == v@,
{
    let mut r: Vec<char> = Vec::new();
    let mut i: usize = 0;
    while i < v.len()
        invariant
            i <= v.len(),
            r@ == v@.take(i as int),
        decreases v.len() - i,
    {
        r.push(v[i]);
        assert(v@.take(i + 1) == v@.take(i as int).push(v@[i as int]));
        i = i + 1;
    }
    assert(v@.take(v.len() as int) == v@);
    r
}

pub fn append_chars(dst: &mut Vec<char>, src: &Vec<char>)
    ensures
        final(dst)@ == old(dst)@ + src@,
{
    let ghost start = dst@;
    let mut i: usize = 0;
    while i < src.len()
        invariant
            i <= src.len(),
            dst@ == start + src@.take(i as int),
        decreases src.len() - i,
    {
        dst.push(src[i]);
        assert(src@.take(i + 1) == src@.take(i as int).push(src@[i as int]));
        i = i + 1;
    }
    assert(src@.take(src.len() as int) == src@);
}

// ---------------------------------------------------------------------------
// `str::lines`
// ---------------------------------------------------------------------------

/// Index of the first `'\n'` at or after `i`, or `s.len()`.
pub open spec fn next_nl(s: Seq<char>, i: int) -> int
    decreases s.len() - i,
{
    if i < 0 || i >= s.len() {
        s.len() as int
    } else if s[i] == '\n' {
        i
    } else {
        next_nl(s, i + 1)
    }
}

/// Drops one trailing carriage return.
pub open spec fn strip_cr(l: Seq<char>) -> Seq<char> {
    if l.len() > 0 && l.last() == '\r' {
        l.drop_last()
    } else {
        l
    }
}

/// The lines of `s` from index `i` on, as `str::lines` yields them: split at
/// `'\n'`, a `'\r'` right before a `'\n'` dropped, no empty line after a
/// final `'\n'`.
pub open spec fn lines_from(s: Seq<char>, i: int) -> Seq<Seq<char>>
    decreases s.len() - i,
{
    if i < 0 || i >= s.len() {
        seq![]
    } else {
        let e = next_nl(s, i);
        proof {
            lemma_next_nl_bounds(s, i);
        }
        if e < s.len() {
            seq![strip_cr(s.subrange(i, e))] + lines_from(s, e + 1)
        } else {
            seq![s.subrange(i, s.len() as int)]
        }
    }
}

pub open spec fn lines(s: Seq<char>) -> Seq<Seq<char>> {
    lines_from(s, 0)
}

/// The character sequences held by a vector of character vectors.
pub open spec fn views(v: Seq<Vec<char>>) -> Seq<Seq<char>> {
    v.map_values(|x: Vec<char>| x@)
}

pub proof fn lemma_next_nl_bounds(s: Seq<char>, i: int)
    requires
        0 <= i,
    ensures
        i <= s.len() ==> i <= next_nl(s, i) <= s.len(),
        i <= next_nl(s, i) || i > s.len(),
        next_nl(s, i) < s.len() ==> s[next_nl(s, i)] == '\n',
    decreases s.len() - i,
{
    if i < s.len() && s[i] != '\n' {
        lemma_next_nl_bounds(s, i + 1);
    }
}

proof fn lemma_next_nl_skip(s: Seq<char>, i: int, k: int)
    requires
        0 <= i <= k <= s.len(),
        forall|j: int| i <= j < k ==> s[j] != '\n',
    ensures
        next_nl(s, i) == next_nl(s, k),
    decreases k - i,
{
    if i < k {
        lemma_next_nl_skip(s, i + 1, k);
    }
}

/// No `'\n'` lies between `i` and the next newline.
pub proof fn lemma_next_nl_clear(s: Seq<char>, i: int)
    requires
        0 <= i <= s.len(),
    ensures
        forall|k: int| i <= k < next_nl(s, i) ==> s[k] != '\n',
    decreases s.len() - i,
{
    if i < s.len() && s[i] != '\n' {
        lemma_next_nl_clear(s, i + 1);
    }
}

proof fn lemma_next_nl_shift(s: Seq<char>, t: Seq<char>, j: int)
    requires
        0 <= j,
    ensures
        next_nl(s + t, s.len() + j) == s.len() + next_nl(t, j),
    decreases t.len() - j,
{
    if j < t.len() && t[j] != '\n' {
        lemma_next_nl_shift(s, t, j + 1);
    }
}

proof fn lemma_lines_from_shift(s: Seq<char>, t: Seq<char>, j: int)
    requires
        0 <= j,
    ensures
        lines_from(s + t, s.len() + j) == lines_from(t, j),
    decreases t.len() - j,
{
    if j < t.len() {
        lemma_next_nl_shift(s, t, j);
        let e = next_nl(t, j);
        lemma_next_nl_bounds(t, j);
        assert((s + t).subrange(s.len() + j, s.len() + e) =~= t.subrange(j, e));
        if e < t.len() {
            lemma_lines_from_shift(s, t, e + 1);
        } else {
            assert((s + t).subrange(s.len() + j, (s + t).len() as int) =~= t.subrange(j, t.len() as int));
        }
    }
}

proof fn lemma_next_nl_prefix(s: Seq<char>, t: Seq<char>, i: int)
    requires
        0 <= i < s.len(),
        s.last() == '\n',
    ensures
        next_nl(s + t, i) == next_nl(s, i),
        next_nl(s, i) < s.len(),
    decreases s.len() - i,
{
    if s[i] != '\n' {
        lemma_next_nl_prefix(s, t, i + 1);
    }
}

/// The lines of `s + t` from `i` on, where `s` is empty or ends with a
/// newline: those of `s` from `i`, then those of `t`.
pub proof fn lemma_lines_append(s: Seq<char>, t: Seq<char>, i: int)
    requires
        0 <= i <= s.len(),
        s.len() == 0 || s.last() == '\n',
    ensures
        lines_from(s + t, i) == lines_from(s, i) + lines(t),
    decreases s.len() - i,
{
    if i == s.len() {
        lemma_lines_from_shift(s, t, 0);
        assert(lines_from(s, i) =~= Seq::<Seq<char>>::empty());
        assert(lines_from(s, i) + lines(t) =~= lines(t));
    } else {
        lemma_next_nl_prefix(s, t, i);
        let e = next_nl(s, i);
        lemma_next_nl_bounds(s, i);
        assert((s + t).subrange(i, e) =~= s.subrange(i, e));
        lemma_lines_append(s, t, e + 1);
        assert(lines_from(s + t, i) == seq![strip_cr(s.subrange(i, e))] + lines_from(s + t, e + 1));
        assert(lines_from(s, i) == seq![strip_cr(s.subrange(i, e))] + lines_from(s, e + 1));
        assert(lines_from(s + t, i) =~= lines_from(s, i) + lines(t));
    }
}

/// A line as `lines` yields it: no newline in it.
pub open spec fn plain_line(l: Seq<char>) -> bool {
    &&& !l.contains('\n')
    &&& !(l.len() > 0 && l.last() == '\r')
}

proof fn lemma_join_nl_shape(ls: Seq<Seq<char>>)
    ensures
        join_nl(ls).len() == 0 || join_nl(ls).last() == '\n',
    decreases ls.len(),
{
}

/// Joining lines with newlines and splitting them again gives them back.
pub proof fn lemma_lines_join(ls: Seq<Seq<char>>)
    requires
        forall|i: int| 0 <= i < ls.len() ==> plain_line(#[trigger] ls[i]),
    ensures
        lines(join_nl(ls)) == ls,
    decreases ls.len(),
{
    if ls.len() == 0 {
        assert(lines(join_nl(ls)) =~= ls);
    } else {
        let pre = ls.drop_last();
        let l = ls.last();
        lemma_lines_join(pre);
        lemma_join_nl_shape(pre);
        let t = l + seq!['\n'];
        assert(join_nl(ls) == join_nl(pre) + t) by {
            assert(join_nl(pre) + l + seq!['\n'] =~= join_nl(pre) + t);
        }
        lemma_lines_append(join_nl(pre), t, 0);
        assert(plain_line(ls[ls.len() - 1]));
        assert forall|k: int| 0 <= k < l.len() implies t[k] != '\n' by {
            if t[k] == '\n' {
                assert(l[k] == '\n');
                assert(l.contains('\n'));
            }
        }
        lemma_next_nl_skip(t, 0, l.len() as int);
        assert(next_nl(t, 0) == l.len());
        assert(t.subrange(0, l.len() as int) =~= l);
        assert(strip_cr(l) == l);
        assert(lines_from(t, l.len() + 1int) =~= Seq::<Seq<char>>::empty());
        assert(lines(t) =~= seq![l]);
        assert(lines(join_nl(ls)) =~= pre.push(l));
    }
}

/// A character other than the newline occurs in joined lines only where
/// it occurs in a line.
pub proof fn lemma_join_nl_without(ls: Seq<Seq<char>>, c: char)
    requires
        c != '\n',
        forall|i: int| 0 <= i < ls.len() ==> !(#[trigger] ls[i]).contains(c),
    ensures
        !join_nl(ls).contains(c),
    decreases ls.len(),
{
    if ls.len() > 0 {
        let pre = ls.drop_last();
        assert forall|i: int| 0 <= i < pre.len() implies !(#[trigger] pre[i]).contains(c) by {
            assert(pre[i] == ls[i]);
        }
        lemma_join_nl_without(pre, c);
        let j = join_nl(ls);
        assert(!ls[ls.len() - 1].contains(c));
        if j.contains(c) {
            let k = choose|k: int| 0 <= k < j.len() && j[k] == c;
            let a = join_nl(pre);
            let l = ls.last();
            if k < a.len() {
                assert(a[k] == c);
                assert(a.contains(c));
            } else if k < a.len() + l.len() {
                assert(l[k - a.len()] == c);
                assert(l.contains(c));
            }
        }
    }
}

proof fn lemma_next_nl_concat(s: Seq<char>, t: Seq<char>, i: int)
    requires
        0 <= i <= s.len(),
    ensures
        next_nl(s + t, i) == if next_nl(s, i) < s.len() {
            next_nl(s, i)
        } else {
            s.len() + next_nl(t, 0)
        },
    decreases s.len() - i,
{
    if i == s.len() {
        lemma_next_nl_shift(s, t, 0);
    } else if s[i] != '\n' {
        lemma_next_nl_concat(s, t, i + 1);
    }
}

proof fn lemma_lines_from_push_nl(c: Seq<char>, i: int)
    requires
        0 <= i < c.len(),
        c.last() != '\n',
        !c.contains('\r'),
    ensures
        lines_from(c.push('\n'), i) == lines_from(c, i),
    decreases c.len() - i,
{
    let d = c.push('\n');
    assert(d =~= c + seq!['\n']);
    lemma_next_nl_concat(c, seq!['\n'], i);
    lemma_next_nl_bounds(c, i);
    let e = next_nl(c, i);
    if e < c.len() {
        assert(e != c.len() - 1);
        assert(d.subrange(i, e) =~= c.subrange(i, e));
        lemma_next_nl_bounds(c, e + 1);
        lemma_lines_from_push_nl(c, e + 1);
    } else {
        assert(next_nl(seq!['\n'], 0) == 0);
        assert(d.subrange(i, c.len() as int) =~= c.subrange(i, c.len() as int));
        let l = c.subrange(i, c.len() as int);
        if l.len() > 0 && l.last() == '\r' {
            assert(c[c.len() - 1] == '\r');
            assert(c.contains('\r'));
        }
        assert(lines_from(d, c.len() + 1int) =~= Seq::<Seq<char>>::empty());
        assert(lines_from(d, i) =~= seq![l]);
    }
}

proof fn lemma_lines_from_push_nl_any(c: Seq<char>, i: int)
    requires
        0 <= i < c.len(),
        c.last() != '\n',
    ensures
        ({
            let a = lines_from(c.push('\n'), i);
            let b = lines_from(c, i);
            &&& a.len() == b.len()
            &&& b.len() > 0
            &&& a.drop_last() == b.drop_last()
            &&& a.last() == strip_cr(b.last())
        }),
    decreases c.len() - i,
{
    let d = c.push('\n');
    assert(d =~= c + seq!['\n']);
    lemma_next_nl_concat(c, seq!['\n'], i);
    lemma_next_nl_bounds(c, i);
    let e = next_nl(c, i);
    if e < c.len() {
        assert(e != c.len() - 1);
        assert(d.subrange(i, e) =~= c.subrange(i, e));
        lemma_next_nl_bounds(c, e + 1);
        lemma_lines_from_push_nl_any(c, e + 1);
        let s0 = strip_cr(c.subrange(i, e));
        let a1 = lines_from(d, e + 1);
        let b1 = lines_from(c, e + 1);
        assert(lines_from(d, i) == seq![s0] + a1);
        assert(lines_from(c, i) == seq![s0] + b1);
        assert((seq![s0] + a1).drop_last() =~= seq![s0] + a1.drop_last());
        assert((seq![s0] + b1).drop_last() =~= seq![s0] + b1.drop_last());
    } else {
        assert(next_nl(seq!['\n'], 0) == 0);
        assert(d.subrange(i, c.len() as int) =~= c.subrange(i, c.len() as int));
        let l = c.subrange(i, c.len() as int);
        assert(lines_from(d, c.len() + 1int) =~= Seq::<Seq<char>>::empty());
        assert(lines_from(d, i) =~= seq![strip_cr(l)]);
        assert(lines_from(c, i) =~= seq![l]);
    }
}

/// Ending a text by a newline changes its lines only by dropping a
/// carriage return at the end of the last one.
pub proof fn lemma_lines_push_nl_any(c: Seq<char>)
    requires
        c.len() > 0,
        c.last() != '\n',
    ensures
        lines(c.push('\n')).len() == lines(c).len(),
        lines(c).len() > 0,
        lines(c.push('\n')).drop_last() == lines(c).drop_last(),
        lines(c.push('\n')).last() == strip_cr(lines(c).last()),
{
    lemma_lines_from_push_nl_any(c, 0);
}

/// Joining lines that hold no newline and splitting them again gives
/// them back, each without a final carriage return.
pub proof fn lemma_lines_join_cr(ls: Seq<Seq<char>>)
    requires
        forall|i: int| 0 <= i < ls.len() ==> !(#[trigger] ls[i]).contains('\n'),
    ensures
        lines(join_nl(ls)) == ls.map_values(|l: Seq<char>| strip_cr(l)),
    decreases ls.len(),
{
    if ls.len() == 0 {
        assert(lines(join_nl(ls)) =~= ls.map_values(|l: Seq<char>| strip_cr(l)));
    } else {
        let pre = ls.drop_last();
        let l = ls.last();
        assert forall|i: int| 0 <= i < pre.len() implies !(#[trigger] pre[i]).contains('\n') by {
            assert(pre[i] == ls[i]);
        }
        lemma_lines_join_cr(pre);
        lemma_join_nl_shape(pre);
        let t = l + seq!['\n'];
        assert(join_nl(ls) == join_nl(pre) + t) by {
            assert(join_nl(pre) + l + seq!['\n'] =~= join_nl(pre) + t);
        }
        lemma_lines_append(join_nl(pre), t, 0);
        assert(!ls[ls.len() - 1].contains('\n'));
        assert forall|k: int| 0 <= k < l.len() implies t[k] != '\n' by {
            if t[k] == '\n' {
                assert(l[k] == '\n');
                assert(l.contains('\n'));
            }
        }
        lemma_next_nl_skip(t, 0, l.len() as int);
        assert(next_nl(t, 0) == l.len());
        assert(t.subrange(0, l.len() as int) =~= l);
        assert(lines_from(t, l.len() + 1int) =~= Seq::<Seq<char>>::empty());
        assert(lines(t) =~= seq![strip_cr(l)]);
        assert(lines(join_nl(ls)) =~= ls.map_values(|l: Seq<char>| strip_cr(l)));
    }
}

proof fn lemma_join_nl_prepend(x: Seq<char>, rest: Seq<Seq<char>>)
    ensures
        join_nl(seq![x] + rest) == x + seq!['\n'] + join_nl(rest),
    decreases rest.len(),
{
    if rest.len() == 0 {
        assert(seq![x] + rest =~= seq![x]);
        assert(seq![x].drop_last() =~= Seq::<Seq<char>>::empty());
        assert(join_nl(Seq::<Seq<char>>::empty()) =~= Seq::<char>::empty());
        assert(rest =~= Seq::<Seq<char>>::empty());
        assert(seq![x].last() == x);
        assert(join_nl(seq![x]) == join_nl(seq![x].drop_last()) + x + seq!['\n']);
        assert(join_nl(seq![x]) =~= x + seq!['\n'] + join_nl(rest));
    } else {
        lemma_join_nl_prepend(x, rest.drop_last());
        assert((seq![x] + rest).drop_last() =~= seq![x] + rest.drop_last());
        assert((seq![x] + rest).last() == rest.last());
        assert(join_nl(seq![x] + rest) =~= x + seq!['\n'] + join_nl(rest));
    }
}

proof fn lemma_join_lines_from(c: Seq<char>, i: int)
    requires
        0 <= i <= c.len(),
        c.len() == 0 || c.last() == '\n',
        !c.contains('\r'),
    ensures
        join_nl(lines_from(c, i)) == c.skip(i),
    decreases c.len() - i,
{
    if i == c.len() {
        assert(c.skip(i) =~= Seq::<char>::empty());
    } else {
        lemma_next_nl_bounds(c, i);
        let e = next_nl(c, i);
        if e == c.len() {
            assert(c[c.len() - 1] != '\n') by {
                lemma_next_nl_clear(c, i);
            }
        }
        assert(e < c.len());
        let l = c.subrange(i, e);
        assert(strip_cr(l) == l) by {
            if l.len() > 0 && l.last() == '\r' {
                assert(c[e - 1] == '\r');
                assert(c.contains('\r'));
            }
        }
        lemma_join_lines_from(c, e + 1);
        lemma_join_nl_prepend(l, lines_from(c, e + 1));
        assert(c.skip(i) =~= l + seq!['\n'] + c.skip(e + 1));
    }
}

/// Joining the lines of a text that is empty or ends with a newline, and
/// holds no carriage return, gives the text back.
pub proof fn lemma_join_lines(c: Seq<char>)
    requires
        c.len() == 0 || c.last() == '\n',
        !c.contains('\r'),
    ensures
        join_nl(lines(c)) == c,
{
    lemma_join_lines_from(c, 0);
    assert(c.skip(0) =~= c);
}

/// Ending a text without carriage returns by a newline changes none of
/// its lines.
pub proof fn lemma_lines_push_nl(c: Seq<char>)
    requires
        c.len() > 0,
        c.last() != '\n',
        !c.contains('\r'),
    ensures
        lines(c.push('\n')) == lines(c),
{
    lemma_lines_from_push_nl(c, 0);
}

/// Every line of a text holds no newline.
pub proof fn lemma_lines_no_newline(s: Seq<char>, i: int)
    requires
        0 <= i,
    ensures
        forall|k: int| 0 <= k < lines_from(s, i).len() ==> !(#[trigger] lines_from(s, i)[k]).contains('\n'),
    decreases s.len() - i,
{
    if i < s.len() {
        let e = next_nl(s, i);
        lemma_next_nl_bounds(s, i);
        lemma_next_nl_clear(s, i);
        let l = s.subrange(i, e);
        assert(!l.contains('\n')) by {
            if l.contains('\n') {
                let k = choose|k: int| 0 <= k < l.len() && l[k] == '\n';
                assert(s[i + k] == '\n');
            }
        }
        assert(!strip_cr(l).contains('\n')) by {
            if strip_cr(l).contains('\n') {
                let k = choose|k: int| 0 <= k < strip_cr(l).len() && strip_cr(l)[k] == '\n';
                assert(l[k] == '\n');
            }
        }
        if e < s.len() {
            lemma_lines_no_newline(s, e + 1);
            assert forall|k: int| 0 <= k < lines_from(s, i).len() implies !(#[trigger] lines_from(s, i)[k]).contains('\n') by {
                if k > 0 {
                    assert(lines_from(s, i)[k] == lines_from(s, e + 1)[k - 1]);
                }
            }
        } else {
            assert(e == s.len());
        }
    }
}

/// The lines of a text without carriage returns hold none either.
pub proof fn lemma_lines_no_cr(s: Seq<char>, i: int)
    requires
        0 <= i,
        !s.contains('\r'),
    ensures
        forall|k: int| 0 <= k < lines_from(s, i).len() ==> !(#[trigger] lines_from(s, i)[k]).contains('\r'),
    decreases s.len() - i,
{
    if i < s.len() {
        let e = next_nl(s, i);
        lemma_next_nl_bounds(s, i);
        let l = s.subrange(i, e);
        assert(!l.contains('\r')) by {
            if l.contains('\r') {
                let k = choose|k: int| 0 <= k < l.len() && l[k] == '\r';
                assert(s[i + k] == '\r');
                assert(s.contains('\r'));
            }
        }
        assert(!strip_cr(l).contains('\r')) by {
            if strip_cr(l).contains('\r') {
                let k = choose|k: int| 0 <= k < strip_cr(l).len() && strip_cr(l)[k] == '\r';
                assert(l[k] == '\r');
            }
        }
        if e < s.len() {
            lemma_lines_no_cr(s, e + 1);
            assert forall|k: int| 0 <= k < lines_from(s, i).len() implies !(#[trigger] lines_from(s, i)[k]).contains('\r') by {
                if k > 0 {
                    assert(lines_from(s, i)[k] == lines_from(s, e + 1)[k - 1]);
                }
            }
        }
    }
}

pub fn split_lines(s: &Vec<char>) -> (r: Vec<Vec<char>>)
    ensures
        views(r@) == lines(s@),
{
    let mut r: Vec<Vec<char>> = Vec::new();
    let mut cur: Vec<char> = Vec::new();
    let mut ls: usize = 0;
    let mut k: usize = 0;
    while k < s.len()
        invariant
            ls <= k <= s.len(),
            cur@ == s@.subrange(ls as int, k as int),
            forall|j: int| ls <= j < k ==> s@[j] != '\n',
            lines(s@) == views(r@) + lines_from(s@, ls as int),
        decreases s.len() - k,
    {
        let c = s[k];
        if c == '\n' {
            proof {
                lemma_next_nl_skip(s@, ls as int, k as int);
            }
            let ghost rv = views(r@);
            let line = strip_cr_vec(cur);
            r.push(line);
            assert(views(r@) =~= rv.push(strip_cr(s@.subrange(ls as int, k as int))));
            cur = Vec::new();
            ls = k + 1;
        } else {
            cur.push(c);
        }
        k = k + 1;
    }
    proof {
        lemma_next_nl_skip(s@, ls as int, k as int);
    }
    if ls < s.len() {
        let ghost rv = views(r@);
        r.push(cur);
        assert(views(r@) =~= rv.push(s@.subrange(ls as int, s@.len() as int)));
    }
    r
}

fn strip_cr_vec(v: Vec<char>) -> (r: Vec<char>)
    ensures
        r@ == strip_cr(v@),
{
    let mut v = v;
    if v.len() > 0 && v[v.len() - 1] == '\r' {
        v.pop();
    }
    v
}

/// Concatenation of every line followed by `'\n'`.
pub open spec fn join_nl(ls: Seq<Seq<char>>) -> Seq<char>
    decreases ls.len(),
{
    if ls.len() == 0 {
        seq![]
    } else {
        join_nl(ls.drop_last()) + ls.last() + seq!['\n']
    }
}

pub fn join_lines_nl(ls: &Vec<Vec<char>>) -> (r: Vec<char>)
    ensures
        r@ == join_nl(views(ls@)),
{
    let ghost dv = views(ls@);
    let mut r: Vec<char> = Vec::new();
    let mut i: usize = 0;
    while i < ls.len()
        invariant
            i <= ls.len(),
            dv == views(ls@),
            r@ == join_nl(dv.take(i as int)),
        decreases ls.len() - i,
    {
        append_chars(&mut r, &ls[i]);
        r.push('\n');
        assert(dv.take(i + 1).drop_last() == dv.take(i as int));
        i = i + 1;
    }
    assert(dv.take(ls.len() as int) == dv);
    r
}

// ---------------------------------------------------------------------------
// Whitespace-delimited tokens
// ---------------------------------------------------------------------------

/// First index at or after `i` that is not whitespace (or `s.len()`).
pub open spec fn skip_ws(s: Seq<char>, i: int) -> int
    decreases s.len() - i,
{
    if i < 0 || i >= s.len() {
        s.len() as int
    } else if is_ws(s[i]) {
        skip_ws(s, i + 1)
    } else {
        i
    }
}

/// First index at or after `i` that is whitespace (or `s.len()`).
pub open spec fn skip_token(s: Seq<char>, i: int) -> int
    decreases s.len() - i,
{
    if i < 0 || i >= s.len() {
        s.len() as int
    } else if is_ws(s[i]) {
        i
    } else {
        skip_token(s, i + 1)
    }
}

/// `s.split_whitespace().next().unwrap_or("")`.
pub open spec fn first_token(s: Seq<char>) -> Seq<char> {
    let a = skip_ws(s, 0);
    s.subrange(a, skip_token(s, a))
}

pub proof fn lemma_skip_ws_bounds(s: Seq<char>, i: int)
    requires
        0 <= i <= s.len(),
    ensures
        i <= skip_ws(s, i) <= s.len(),
        forall|j: int| i <= j < skip_ws(s, i) ==> is_ws(#[trigger] s[j]),
        skip_ws(s, i) < s.len() ==> !is_ws(s[skip_ws(s, i)]),
    decreases s.len() - i,
{
    if i < s.len() && is_ws(s[i]) {
        lemma_skip_ws_bounds(s, i + 1);
    }
}

pub proof fn lemma_skip_token_bounds(s: Seq<char>, i: int)
    requires
        0 <= i <= s.len(),
    ensures
        i <= skip_token(s, i) <= s.len(),
        forall|j: int| i <= j < skip_token(s, i) ==> !is_ws(#[trigger] s[j]),
        skip_token(s, i) < s.len() ==> is_ws(s[skip_token(s, i)]),
    decreases s.len() - i,
{
    if i < s.len() && !is_ws(s[i]) {
        lemma_skip_token_bounds(s, i + 1);
    }
}

pub fn skip_ws_exec(s: &Vec<char>, i: usize) -> (r: usize)
    requires
        i <= s.len(),
    ensures
        r == skip_ws(s@, i as int),
{
    let mut k = i;
    while k < s.len() && is_ws_char(s[k])
        invariant
            i <= k <= s.len(),
            skip_ws(s@, i as int) == skip_ws(s@, k as int),
        decreases s.len() - k,
    {
        k = k + 1;
    }
    k
}

pub fn skip_token_exec(s: &Vec<char>, i: usize) -> (r: usize)
    requires
        i <= s.len(),
    ensures
        r == skip_token(s@, i as int),
{
    let mut k = i;
    while k < s.len() && !is_ws_char(s[k])
        invariant
            i <= k <= s.len(),
            skip_token(s@, i as int) == skip_token(s@, k as int),
        decreases s.len() - k,
    {
        k = k + 1;
    }
    k
}

pub fn subrange_chars(s: &Vec<char>, a: usize, b: usize) -> (r: Vec<char>)
    requires
        a <= b <= s.len(),
    ensures
        r@ == s@.subrange(a as int, b as int),
{
    let mut r: Vec<char> = Vec::new();
    let mut k = a;
    while k < b
        invariant
            a <= k <= b <= s.len(),
            r@ == s@.subrange(a as int, k as int),
        decreases b - k,
    {
        r.push(s[k]);
        assert(s@.subrange(a as int, k + 1) == s@.subrange(a as int, k as int).push(s@[k as int]));
        k = k + 1;
    }
    r
}

pub fn first_token_exec(s: &Vec<char>) -> (r: Vec<char>)
    ensures
        r@ == first_token(s@),
{
    let a = skip_ws_exec(s, 0);
    proof {
        lemma_skip_ws_bounds(s@, 0);
    }
    let b = skip_token_exec(s, a);
    proof {
        lemma_skip_token_bounds(s@, a as int);
    }
    subrange_chars(s, a, b)
}

// ---------------------------------------------------------------------------
// Slash and whitespace trimming
// ---------------------------------------------------------------------------

/// `trim_start_matches('/')`.
pub open spec fn trim_start_slash(s: Seq<char>) -> Seq<char>
    decreases s.len(),
{
    if s.len() > 0 && s[0] == '/' {
        trim_start_slash(s.drop_first())
    } else {
        s
    }
}

/// `trim_end_matches('/')`.
pub open spec fn trim_end_slash(s: Seq<char>) -> Seq<char>
    decreases s.len(),
{
    if s.len() > 0 && s.last() == '/' {
        trim_end_slash(s.drop_last())
    } else {
        s
    }
}

/// Every leading and every trailing `/` removed.
pub open spec fn strip_slashes_spec(s: Seq<char>) -> Seq<char> {
    trim_end_slash(trim_start_slash(s))
}

/// `trim_end()` with Unicode whitespace.
pub open spec fn trim_end_ws(s: Seq<char>) -> Seq<char>
    decreases s.len(),
{
    if s.len() > 0 && is_ws(s.last()) {
        trim_end_ws(s.drop_last())
    } else {
        s
    }
}

/// `str::trim`: leading and trailing Unicode whitespace removed.
pub open spec fn trim_ws(s: Seq<char>) -> Seq<char> {
    let t = trim_end_ws(s);
    t.skip(skip_ws(t, 0))
}

pub fn trim_ws_chars(s: &Vec<char>) -> (r: Vec<char>)
    ensures
        r@ == trim_ws(s@),
{
    let b = trim_end_ws_len(s);
    let t = subrange_chars(s, 0, b);
    let a = skip_ws_exec(&t, 0);
    proof {
        lemma_skip_ws_bounds(t@, 0);
    }
    let r = subrange_chars(&t, a, t.len());
    assert(r@ =~= t@.skip(a as int));
    r
}

pub fn strip_slashes_chars(s: &Vec<char>) -> (r: Vec<char>)
    ensures
        r@ == strip_slashes_spec(s@),
{
    let mut a: usize = 0;
    assert(s@.subrange(0, s@.len() as int) == s@);
    while a < s.len() && s[a] == '/'
        invariant
            a <= s.len(),
            trim_start_slash(s@) == trim_start_slash(s@.subrange(a as int, s@.len() as int)),
        decreases s.len() - a,
    {
        assert(s@.subrange(a as int, s@.len() as int).drop_first() == s@.subrange(
            a + 1,
            s@.len() as int,
        ));
        a = a + 1;
    }
    let mut b: usize = s.len();
    while b > a && s[b - 1] == '/'
        invariant
            a <= b <= s.len(),
            trim_start_slash(s@) == s@.subrange(a as int, s@.len() as int),
            trim_end_slash(s@.subrange(a as int, s@.len() as int)) == trim_end_slash(
                s@.subrange(a as int, b as int),
            ),
        decreases b - a,
    {
        assert(s@.subrange(a as int, b as int).drop_last() == s@.subrange(a as int, b - 1));
        b = b - 1;
    }
    subrange_chars(s, a, b)
}

pub fn trim_end_ws_len(s: &Vec<char>) -> (r: usize)
    ensures
        r <= s.len(),
        trim_end_ws(s@) == s@.subrange(0, r as int),
{
    let mut b: usize = s.len();
    assert(s@.subrange(0, s@.len() as int) == s@);
    while b > 0 && is_ws_char(s[b - 1])
        invariant
            b <= s.len(),
            trim_end_ws(s@) == trim_end_ws(s@.subrange(0, b as int)),
        decreases b,
    {
        assert(s@.subrange(0, b as int).drop_last() == s@.subrange(0, b - 1));
        b = b - 1;
    }
    assert(s@.subrange(0, b as int).len() == 0 || !is_ws(s@.subrange(0, b as int).last()));
    b
}

// ---------------------------------------------------------------------------
// UTF-8 byte lengths
// ---------------------------------------------------------------------------

/// Number of bytes of `c` in UTF-8 (`char::len_utf8`).
pub open spec fn char_byte_len(c: char) -> nat {
    if (c as u32) < 0x80 {
        1
    } else if (c as u32) < 0x800 {
        2
    } else if (c as u32) < 0x10000 {
        3
    } else {
        4
    }
}

/// Number of bytes of `s` in UTF-8 (`str::len`).
pub open spec fn byte_len(s: Seq<char>) -> nat
    decreases s.len(),
{
    if s.len() == 0 {
        0
    } else {
        byte_len(s.drop_last()) + char_byte_len(s.last())
    }
}

pub proof fn lemma_byte_len_prepend(c: char, s: Seq<char>)
    ensures
        byte_len(seq![c] + s) == char_byte_len(c) + byte_len(s),
{
    lemma_byte_len_concat(seq![c], s);
    assert(seq![c].drop_last() == Seq::<char>::empty());
    assert(byte_len(Seq::<char>::empty()) == 0);
    assert(seq![c].last() == c);
    assert(byte_len(seq![c]) == byte_len(seq![c].drop_last()) + char_byte_len(c));
}

pub proof fn lemma_byte_len_subrange(s: Seq<char>, a: int, b: int)
    requires
        0 <= a <= b <= s.len(),
    ensures
        byte_len(s.subrange(a, b)) <= byte_len(s),
{
    lemma_byte_len_concat(s.subrange(0, a), s.subrange(a, b));
    lemma_byte_len_concat(s.subrange(0, b), s.subrange(b, s.len() as int));
    assert(s.subrange(0, a) + s.subrange(a, b) == s.subrange(0, b));
    assert(s.subrange(0, b) + s.subrange(b, s.len() as int) == s);
}

/// `byte_len` is the length of the UTF-8 encoding that `str::len` reports.
pub proof fn lemma_byte_len_encode(s: Seq<char>)
    ensures
        byte_len(s) == vstd::utf8::encode_utf8(s).len(),
    decreases s.len(),
{
    if s.len() > 0 {
        lemma_byte_len_encode(s.drop_first());
        lemma_byte_len_prepend(s[0], s.drop_first());
        assert(seq![s[0]] + s.drop_first() == s);
        let u = s[0] as u32;
        assert(vstd::utf8::is_scalar(u)) by {
            vstd::utf8::char_is_scalar(s[0]);
        }
    }
}

pub fn char_byte_len_exec(c: char) -> (r: usize)
    ensures
        r == char_byte_len(c),
{
    let u = c as u32;
    if u < 0x80 {
        1
    } else if u < 0x800 {
        2
    } else if u < 0x10000 {
        3
    } else {
        4
    }
}

pub proof fn lemma_byte_len_bounds(s: Seq<char>)
    ensures
        s.len() <= byte_len(s) <= 4 * s.len(),
    decreases s.len(),
{
    if s.len() > 0 {
        lemma_byte_len_bounds(s.drop_last());
    }
}

pub proof fn lemma_byte_len_concat(a: Seq<char>, b: Seq<char>)
    ensures
        byte_len(a + b) == byte_len(a) + byte_len(b),
    decreases b.len(),
{
    if b.len() == 0 {
        assert(a + b == a);
    } else {
        lemma_byte_len_concat(a, b.drop_last());
        assert((a + b).drop_last() == a + b.drop_last());
    }
}

/// Byte length of the first `n` characters; `None` when it does not fit in
/// a `usize`.
pub fn byte_len_prefix(s: &Vec<char>, n: usize) -> (r: Option<usize>)
    requires
        n <= s.len(),
    ensures
        r matches Some(b) ==> b == byte_len(s@.take(n as int)),
        r is None ==> byte_len(s@.take(n as int)) > usize::MAX,
{
    let mut total: usize = 0;
    let mut i: usize = 0;
    while i < n
        invariant
            i <= n <= s.len(),
            total == byte_len(s@.take(i as int)),
        decreases n - i,
    {
        let w = char_byte_len_exec(s[i]);
        assert(s@.take(i + 1).drop_last() == s@.take(i as int));
        if total > usize::MAX - w {
            proof {
                lemma_byte_len_concat(s@.take(i + 1), s@.subrange(i + 1, n as int));
                assert(s@.take(i + 1) + s@.subrange(i + 1, n as int) == s@.take(n as int));
            }
            return None;
        }
        total = total + w;
        i = i + 1;
    }
    Some(total)
}

// ---------------------------------------------------------------------------
// Code-point order (the order of `String`'s `Ord`, since UTF-8 preserves it)
// ---------------------------------------------------------------------------

/// `a < b` lexicographically by code point.
pub open spec fn lex_lt(a: Seq<char>, b: Seq<char>) -> bool
    decreases a.len(),
{
    if a.len() == 0 {
        b.len() > 0
    } else if b.len() == 0 {
        false
    } else if a[0] < b[0] {
        true
    } else if a[0] > b[0] {
        false
    } else {
        lex_lt(a.drop_first(), b.drop_first())
    }
}

pub open spec fn lex_le(a: Seq<char>, b: Seq<char>) -> bool {
    !lex_lt(b, a)
}

pub proof fn lemma_lex_lt_irrefl(a: Seq<char>)
    ensures
        !lex_lt(a, a),
    decreases a.len(),
{
    if a.len() > 0 {
        lemma_lex_lt_irrefl(a.drop_first());
    }
}

pub proof fn lemma_lex_lt_trans(a: Seq<char>, b: Seq<char>, c: Seq<char>)
    requires
        lex_lt(a, b),
        lex_lt(b, c),
    ensures
        lex_lt(a, c),
    decreases a.len(),
{
    if a.len() == 0 {
        assert(b.len() > 0);
        assert(c.len() > 0);
    } else {
        assert(b.len() > 0);
        assert(c.len() > 0);
        if a[0] == b[0] && b[0] == c[0] {
            lemma_lex_lt_trans(a.drop_first(), b.drop_first(), c.drop_first());
        }
    }
}

/// Trichotomy: either `a < b`, `b < a`, or the two are equal.
pub proof fn lemma_lex_total(a: Seq<char>, b: Seq<char>)
    ensures
        lex_lt(a, b) || lex_lt(b, a) || a == b,
    decreases a.len(),
{
    if a.len() > 0 && b.len() > 0 {
        if a[0] == b[0] {
            lemma_lex_total(a.drop_first(), b.drop_first());
            if a.drop_first() == b.drop_first() {
                assert(a == seq![a[0]] + a.drop_first());
                assert(b == seq![b[0]] + b.drop_first());
            }
        }
    } else if a.len() == 0 && b.len() == 0 {
        assert(a == b);
    }
}

pub proof fn lemma_lex_lt_le(a: Seq<char>, b: Seq<char>)
    requires
        lex_lt(a, b),
    ensures
        lex_le(a, b),
{
    if lex_lt(b, a) {
        lemma_lex_lt_trans(a, b, a);
        lemma_lex_lt_irrefl(a);
    }
}

pub proof fn lemma_lex_le_trans(a: Seq<char>, b: Seq<char>, c: Seq<char>)
    requires
        lex_le(a, b),
        lex_le(b, c),
    ensures
        lex_le(a, c),
{
    lemma_lex_total(a, b);
    lemma_lex_total(b, c);
    if lex_lt(c, a) {
        if lex_lt(a, b) {
            lemma_lex_lt_trans(c, a, b);
        } else {
            assert(a == b);
        }
    }
}

pub fn lex_lt_exec(a: &Vec<char>, b: &Vec<char>) -> (r: bool)
    ensures
        r == lex_lt(a@, b@),
{
    let mut i: usize = 0;
    assert(a@.subrange(0, a@.len() as int) == a@);
    assert(b@.subrange(0, b@.len() as int) == b@);
    while i < a.len() && i < b.len() && a[i] == b[i]
        invariant
            i <= a.len(),
            i <= b.len(),
            lex_lt(a@, b@) == lex_lt(
                a@.subrange(i as int, a@.len() as int),
                b@.subrange(i as int, b@.len() as int),
            ),
        decreases a.len() - i,
    {
        assert(a@.subrange(i as int, a@.len() as int).drop_first() == a@.subrange(
            i + 1,
            a@.len() as int,
        ));
        assert(b@.subrange(i as int, b@.len() as int).drop_first() == b@.subrange(
            i + 1,
            b@.len() as int,
        ));
        i = i + 1;
    }
    if i == a.len() {
        i < b.len()
    } else if i == b.len() {
        false
    } else {
        a[i] < b[i]
    }
}

// ---------------------------------------------------------------------------
// Literal words
// ---------------------------------------------------------------------------

/// Does `word` occur in `s` at index `i`?
pub open spec fn occurs_at(s: Seq<char>, word: Seq<char>, i: int) -> bool {
    0 <= i && i + word.len() <= s.len() && s.subrange(i, i + word.len()) == word
}

pub fn occurs_at_exec(s: &Vec<char>, word: &Vec<char>, i: usize) -> (r: bool)
    ensures
        r == occurs_at(s@, word@, i as int),
{
    if i > s.len() || word.len() > s.len() - i {
        return false;
    }
    let mut k: usize = 0;
    while k < word.len()
        invariant
            k <= word.len(),
            i + word.len() <= s.len(),
            s@.subrange(i as int, i + k) == word@.take(k as int),
        decreases word.len() - k,
    {
        if s[i + k] != word[k] {
            proof {
                if s@.subrange(i as int, i + word.len()) == word@ {
                    assert(s@.subrange(i as int, i + word.len())[k as int] == s@[i + k]);
                }
            }
            return false;
        }
        assert(s@.subrange(i as int, i + k + 1) == s@.subrange(i as int, i + k).push(s@[i + k]));
        assert(word@.take(k + 1) == word@.take(k as int).push(word@[k as int]));
        k = k + 1;
    }
    assert(word@.take(word.len() as int) == word@);
    true
}

/// Index of the first occurrence of a non-empty `word` in `s`.
pub open spec fn first_occurrence(s: Seq<char>, word: Seq<char>) -> Option<int> {
    if exists|i: int| occurs_at(s, word, i) {
        Some(choose|i: int| occurs_at(s, word, i) && forall|j: int| 0 <= j < i ==> !occurs_at(s, word, j))
    } else {
        None
    }
}

pub fn find_word(s: &Vec<char>, word: &Vec<char>) -> (r: Option<usize>)
    ensures
        r matches Some(i) ==> occurs_at(s@, word@, i as int) && forall|j: int|
            0 <= j < i ==> !occurs_at(s@, word@, j),
        r is None ==> forall|j: int| !occurs_at(s@, word@, j),
        r matches Some(i) ==> first_occurrence(s@, word@) == Some(i as int),
        r is None ==> first_occurrence(s@, word@) is None,
{
    let mut i: usize = 0;
    loop
        invariant
            i <= s.len(),
            forall|j: int| 0 <= j < i ==> !occurs_at(s@, word@, j),
        decreases s.len() - i,
    {
        if occurs_at_exec(s, word, i) {
            proof {
                let k = choose|k: int|
                    occurs_at(s@, word@, k) && forall|j: int| 0 <= j < k ==> !occurs_at(s@, word@, j);
                assert(occurs_at(s@, word@, k));
                if k < i {
                } else if k > i {
                    assert(!occurs_at(s@, word@, i as int));
                }
            }
            return Some(i);
        }
        if i == s.len() {
            assert forall|j: int| !occurs_at(s@, word@, j) by {
                if 0 <= j <= i {
                }
            }
            return None;
        }
        i = i + 1;
    }
}


// ---------------------------------------------------------------------------
// Paths and string helpers
// ---------------------------------------------------------------------------

/// `PathBuf::join` of a relative component: a `/` goes between the two
/// unless `base` is empty or already ends with one.
pub open spec fn path_join(base: Seq<char>, rel: Seq<char>) -> Seq<char> {
    if base.len() == 0 {
        rel
    } else if base.last() == '/' {
        base + rel
    } else {
        base + seq!['/'] + rel
    }
}

pub fn join_path(base: &str, rel: &str) -> (r: String)
    ensures
        r@ == path_join(base@, rel@),
{
    let bv = to_chars(base);
    let rv = to_chars(rel);
    let mut out = clone_chars(&bv);
    if bv.len() > 0 && bv[bv.len() - 1] != '/' {
        out.push('/');
    }
    append_chars(&mut out, &rv);
    from_chars(&out)
}

pub fn str_eq(a: &str, b: &str) -> (r: bool)
    ensures
        r == (a@ == b@),
{
    let av = to_chars(a);
    let bv = to_chars(b);
    chars_eq(&av, &bv)
}

/// ASCII letters lowered, every other character kept
/// (`to_ascii_lowercase`).
pub open spec fn lower_char(c: char) -> char {
    if 'A' <= c && c <= 'Z' {
        ((c as u32) + 32) as char
    } else {
        c
    }
}

pub open spec fn ascii_lower(s: Seq<char>) -> Seq<char> {
    s.map_values(|c: char| lower_char(c))
}

pub fn lower_char_exec(c: char) -> (r: char)
    ensures
        r == lower_char(c),
{
    if 'A' <= c && c <= 'Z' {
        let u: u8 = (c as u32 + 32) as u8;
        u as char
    } else {
        c
    }
}

pub fn ascii_lower_chars(s: &Vec<char>) -> (r: Vec<char>)
    ensures
        r@ == ascii_lower(s@),
{
    let mut r: Vec<char> = Vec::new();
    let mut i: usize = 0;
    while i < s.len()
        invariant
            i <= s.len(),
            r@ == ascii_lower(s@.take(i as int)),
        decreases s.len() - i,
    {
        r.push(lower_char_exec(s[i]));
        assert(ascii_lower(s@.take(i + 1)) =~= ascii_lower(s@.take(i as int)).push(lower_char(s@[i as int])));
        i = i + 1;
    }
    assert(s@.take(s.len() as int) == s@);
    r
}


// ---------------------------------------------------------------------------
// Byte prefixes, decimal numbers
// ---------------------------------------------------------------------------

/// `k` characters of `s` make exactly `n` bytes: byte `n` is a character
/// boundary, so `&s[..n]` is the first `k` characters.
pub open spec fn is_byte_prefix(s: Seq<char>, k: int, n: int) -> bool {
    0 <= k <= s.len() && byte_len(s.take(k)) == n
}

/// Byte index `n` falls on a character boundary of `s`.
pub open spec fn is_boundary(s: Seq<char>, n: int) -> bool {
    exists|k: int| is_byte_prefix(s, k, n)
}

pub proof fn lemma_byte_len_take_mono(s: Seq<char>, a: int, b: int)
    requires
        0 <= a < b <= s.len(),
    ensures
        byte_len(s.take(a)) < byte_len(s.take(b)),
    decreases b - a,
{
    assert(s.take(b).drop_last() == s.take(b - 1));
    if a < b - 1 {
        lemma_byte_len_take_mono(s, a, b - 1);
    }
}

pub proof fn lemma_byte_prefix_unique(s: Seq<char>, k1: int, k2: int, n: int)
    requires
        is_byte_prefix(s, k1, n),
        is_byte_prefix(s, k2, n),
    ensures
        k1 == k2,
{
    if k1 < k2 {
        lemma_byte_len_take_mono(s, k1, k2);
    } else if k2 < k1 {
        lemma_byte_len_take_mono(s, k2, k1);
    }
}

/// Number of characters making the first `n` bytes, when byte `n` is a
/// character boundary.
pub fn byte_prefix_len(s: &Vec<char>, n: usize) -> (r: Option<usize>)
    ensures
        r matches Some(k) ==> is_byte_prefix(s@, k as int, n as int),
        r is None ==> !is_boundary(s@, n as int),
{
    let mut total: usize = 0;
    let mut k: usize = 0;
    while k < s.len() && total < n
        invariant
            k <= s.len(),
            total == byte_len(s@.take(k as int)),
            total <= n || k == 0,
            forall|j: int| 0 <= j < k ==> byte_len(s@.take(j)) < n,
        decreases s.len() - k,
    {
        let w = char_byte_len_exec(s[k]);
        assert(s@.take(k + 1).drop_last() == s@.take(k as int));
        if w > n - total {
            proof {
                assert(byte_len(s@.take(k + 1)) > n);
                assert forall|j: int| is_byte_prefix(s@, j, n as int) implies false by {
                    if j > k {
                        if j > k + 1 {
                            lemma_byte_len_take_mono(s@, k + 1, j);
                        }
                    }
                }
            }
            return None;
        }
        total = total + w;
        k = k + 1;
    }
    if total == n {
        Some(k)
    } else {
        proof {
            assert forall|j: int| is_byte_prefix(s@, j, n as int) implies false by {
                if j > k {
                    lemma_byte_len_take_mono(s@, k as int, j);
                }
            }
        }
        None
    }
}

pub open spec fn digit_char(d: int) -> char {
    ((d + 48) as u32) as char
}

/// Decimal representation of `n`, without leading zeros.
pub open spec fn decimal(n: nat) -> Seq<char>
    decreases n,
{
    if n < 10 {
        seq![digit_char(n as int)]
    } else {
        decimal(n / 10).push(digit_char((n % 10) as int))
    }
}

pub fn u64_to_decimal(n: u64) -> (r: Vec<char>)
    ensures
        r@ == decimal(n as nat),
    decreases n,
{
    if n < 10 {
        let c: char = ((n as u8) + 48) as char;
        let v = vec![c];
        assert(v@ == seq![c]);
        v
    } else {
        let mut v = u64_to_decimal(n / 10);
        let c: char = (((n % 10) as u8) + 48) as char;
        v.push(c);
        v
    }
}

pub open spec fn is_digit(c: char) -> bool {
    '0' <= c && c <= '9'
}

/// Value of a run of ASCII digits.
pub open spec fn digits_value(s: Seq<char>) -> int
    decreases s.len(),
{
    if s.len() == 0 {
        0
    } else {
        digits_value(s.drop_last()) * 10 + ((s.last() as u32) - 48)
    }
}

pub open spec fn all_digits(b: Seq<char>) -> bool {
    forall|i: int| 0 <= i < b.len() ==> is_digit(#[trigger] b[i])
}

/// The characters after an optional leading `+` or `-`.
pub open spec fn unsigned_part(s: Seq<char>) -> Seq<char> {
    if s.len() > 0 && (s[0] == '+' || s[0] == '-') {
        s.drop_first()
    } else {
        s
    }
}

/// `str::parse::<i32>()` on a short string: an optional `+` or `-`
/// followed by at least one ASCII digit; `None` otherwise.
pub open spec fn parse_int(s: Seq<char>) -> Option<int> {
    let body = unsigned_part(s);
    if body.len() > 0 && all_digits(body) {
        if s[0] == '-' {
            Some(-digits_value(body))
        } else {
            Some(digits_value(body))
        }
    } else {
        None
    }
}

proof fn lemma_parse_int_none(s: Seq<char>, k: int)
    requires
        0 <= k < unsigned_part(s).len(),
        !is_digit(unsigned_part(s)[k]),
    ensures
        parse_int(s) is None,
{
}

proof fn lemma_digits_value_bound(s: Seq<char>)
    requires
        forall|i: int| 0 <= i < s.len() ==> is_digit(#[trigger] s[i]),
    ensures
        0 <= digits_value(s),
        s.len() <= 4 ==> digits_value(s) < 10000,
        s.len() <= 3 ==> digits_value(s) < 1000,
        s.len() <= 2 ==> digits_value(s) < 100,
        s.len() <= 1 ==> digits_value(s) < 10,
    decreases s.len(),
{
    if s.len() > 0 {
        lemma_digits_value_bound(s.drop_last());
        assert(is_digit(s[s.len() - 1]));
    }
}

/// Parses a string of at most four characters as an `i32`.
pub fn parse_short_int(s: &Vec<char>) -> (r: Option<i32>)
    requires
        s.len() <= 4,
    ensures
        r matches Some(v) ==> parse_int(s@) == Some(v as int),
        r is None ==> parse_int(s@) is None,
{
    let signed = s.len() > 0 && (s[0] == '+' || s[0] == '-');
    let start: usize = if signed {
        1
    } else {
        0
    };
    let ghost body = if signed {
        s@.drop_first()
    } else {
        s@
    };
    assert(body == s@.subrange(start as int, s@.len() as int));
    if start >= s.len() {
        return None;
    }
    let mut v: i32 = 0;
    let mut i: usize = start;
    while i < s.len()
        invariant
            start <= i <= s.len() <= 4,
            body == s@.subrange(start as int, s@.len() as int),
            start == (if signed { 1usize } else { 0usize }),
            signed == (s@.len() > 0 && (s@[0] == '+' || s@[0] == '-')),
            forall|j: int| start <= j < i ==> is_digit(#[trigger] s@[j]),
            v as int == digits_value(s@.subrange(start as int, i as int)),
            0 <= v < 10000,
        decreases s.len() - i,
    {
        let c = s[i];
        if !('0' <= c && c <= '9') {
            assert(body[i - start] == s@[i as int]);
            assert(!is_digit(body[i - start]));
            proof {
                if signed {
                    assert(s@.drop_first() =~= s@.subrange(1, s@.len() as int));
                } else {
                    assert(s@ =~= s@.subrange(0, s@.len() as int));
                }
                lemma_parse_int_none(s@, i - start);
            }
            return None;
        }
        assert(s@.subrange(start as int, i + 1).drop_last() == s@.subrange(start as int, i as int));
        proof {
            lemma_digits_value_bound(s@.subrange(start as int, i + 1));
        }
        v = v * 10 + ((c as u32) - 48) as i32;
        i = i + 1;
    }
    assert forall|j: int| 0 <= j < body.len() implies is_digit(#[trigger] body[j]) by {
        assert(body[j] == s@[start + j]);
    }
    proof {
        if signed {
            assert(s@.drop_first() =~= s@.subrange(1, s@.len() as int));
        } else {
            assert(s@ =~= s@.subrange(0, s@.len() as int));
        }
        assert(unsigned_part(s@) == body);
        assert(all_digits(body));
    }
    if signed && s[0] == '-' {
        Some(-v)
    } else {
        Some(v)
    }
}


/// The characters of each string.
pub open spec fn strings(v: Seq<String>) -> Seq<Seq<char>> {
    v.map_values(|s: String| s@)
}

/// The characters of an optional string, empty when absent.
pub open spec fn opt_chars(o: Option<String>) -> Seq<char> {
    match o {
        Some(s) => s@,
        None => Seq::<char>::empty(),
    }
}

pub fn opt_to_chars(o: &Option<String>) -> (r: Vec<char>)
    ensures
        r@ == opt_chars(*o),
{
    match o {
        Some(s) => to_chars(s.as_str()),
        None => Vec::new(),
    }
}

/// `s` starts with `p`.
pub open spec fn starts_with(s: Seq<char>, p: Seq<char>) -> bool {
    p.len() <= s.len() && s.take(p.len() as int) == p
}

pub fn starts_with_exec(s: &Vec<char>, p: &Vec<char>) -> (r: bool)
    ensures
        r == starts_with(s@, p@),
{
    let hit = occurs_at_exec(s, p, 0);
    assert(hit ==> s@.subrange(0, p@.len() as int) == s@.take(p@.len() as int));
    proof {
        if starts_with(s@, p@) {
            assert(s@.subrange(0, p@.len() as int) == s@.take(p@.len() as int));
        }
    }
    hit
}

pub fn strings_from_chars(v: &Vec<Vec<char>>) -> (r: Vec<String>)
    ensures
        strings(r@) == views(v@),
{
    let mut r: Vec<String> = Vec::new();
    let mut i: usize = 0;
    while i < v.len()
        invariant
            i <= v.len(),
            strings(r@) == views(v@).take(i as int),
        decreases v.len() - i,
    {
        let ghost old_r = strings(r@);
        r.push(from_chars(&v[i]));
        assert(strings(r@) =~= old_r.push(v@[i as int]@));
        assert(views(v@).take(i + 1) =~= views(v@).take(i as int).push(v@[i as int]@));
        i = i + 1;
    }
    assert(views(v@).take(v.len() as int) =~= views(v@));
    r
}

} // verus!
