//! What the tool reads out of GitHub's answers.
use vstd::prelude::*;

use crate::text::{
    all_digits, chars_eq, clone_chars, digits_value, find_word, is_digit, lines, occurs_at,
    opt_chars, opt_to_chars, split_lines, to_chars, trim_ws, trim_ws_chars, views,
};

verus! {

/// An event of a PR's timeline.
#[derive(Debug, Clone)]
pub struct TimelineEvent {
    pub event: Option<String>,
    pub actor_login: Option<String>,
}

/// The actor of the last `closed` event that names one.
pub open spec fn closer_of(es: Seq<TimelineEvent>) -> Option<Seq<char>>
    decreases es.len(),
{
    if es.len() == 0 {
        None
    } else if es.last().event is Some && opt_chars(es.last().event) == "closed"@ && es.last().actor_login is Some {
        Some(opt_chars(es.last().actor_login))
    } else {
        closer_of(es.drop_last())
    }
}

/// Login of the actor who fired the most recent `closed` event on a PR.
pub fn pr_closer_login(timeline: &[TimelineEvent]) -> (r: Option<String>)
    ensures
        r matches Some(s) ==> closer_of(timeline@) == Some(s@),
        r is None ==> closer_of(timeline@) is None,
{
    let closed = to_chars("closed");
    let mut i: usize = timeline.len();
    assert(timeline@.take(i as int) == timeline@);
    while i > 0
        invariant
            i <= timeline.len(),
            closed@ == "closed"@,
            closer_of(timeline@) == closer_of(timeline@.take(i as int)),
        decreases i,
    {
        let ev = &timeline[i - 1];
        assert(timeline@.take(i as int).last() == *ev);
        assert(timeline@.take(i as int).drop_last() == timeline@.take(i - 1));
        if ev.event.is_some() && chars_eq(&opt_to_chars(&ev.event), &closed) {
            match &ev.actor_login {
                Some(login) => {
                    return Some(login.clone());
                },
                None => {},
            }
        }
        i = i - 1;
    }
    None
}


// ---------------------------------------------------------------------------
// What `gh` prints
// ---------------------------------------------------------------------------

/// `gh api -i` answered with a success: its first output line holds
/// `200 OK`.
pub open spec fn status_ok_spec(out: Seq<char>) -> bool {
    exists|i: int| occurs_at(first_line_of(out), "200 OK"@, i)
}

/// The first line of an output, empty when there is none.
pub open spec fn first_line_of(out: Seq<char>) -> Seq<char> {
    if lines(out).len() > 0 {
        lines(out)[0]
    } else {
        Seq::<char>::empty()
    }
}

pub fn status_ok(out: &str) -> (r: bool)
    ensures
        r == status_ok_spec(out@),
{
    let ls = split_lines(&to_chars(out));
    let first: Vec<char> = if ls.len() > 0 {
        clone_chars(&ls[0])
    } else {
        Vec::new()
    };
    proof {
        if ls.len() > 0 {
            assert(views(ls@)[0] == ls@[0]@);
        }
    }
    assert(first@ == first_line_of(out@));
    find_word(&first, &to_chars("200 OK")).is_some()
}

/// `trim() == "true"`: the jq answer `true`.
pub fn is_true_output(out: &str) -> (r: bool)
    ensures
        r == (trim_ws(out@) == "true"@),
{
    let t = trim_ws_chars(&to_chars(out));
    chars_eq(&t, &to_chars("true"))
}

/// The digits of a count: an optional `+` then the rest.
pub open spec fn count_digits(t: Seq<char>) -> Seq<char> {
    if t.len() > 0 && t[0] == '+' {
        t.drop_first()
    } else {
        t
    }
}

/// `out.trim().parse::<usize>().unwrap_or(0)`: the count `gh` printed, 0
/// when it is not a number that fits.
pub open spec fn count_spec(out: Seq<char>) -> int {
    let d = count_digits(trim_ws(out));
    if d.len() > 0 && all_digits(d) && digits_value(d) <= usize::MAX {
        digits_value(d)
    } else {
        0
    }
}

proof fn lemma_digits_value_grows(s: Seq<char>, k: int)
    requires
        0 <= k <= s.len(),
        all_digits(s),
    ensures
        0 <= digits_value(s.take(k)) <= digits_value(s),
    decreases s.len() - k,
{
    if k < s.len() {
        lemma_digits_value_grows(s, k + 1);
        assert(s.take(k + 1).drop_last() =~= s.take(k));
        assert(is_digit(s[k]));
    } else {
        assert(s.take(k) =~= s);
    }
    lemma_digits_value_nonneg(s.take(k));
}

proof fn lemma_digits_value_nonneg(s: Seq<char>)
    requires
        all_digits(s),
    ensures
        0 <= digits_value(s),
    decreases s.len(),
{
    if s.len() > 0 {
        assert(all_digits(s.drop_last())) by {
            assert forall|i: int| 0 <= i < s.drop_last().len() implies is_digit(#[trigger] s.drop_last()[i]) by {
                assert(s.drop_last()[i] == s[i]);
            }
        }
        lemma_digits_value_nonneg(s.drop_last());
        assert(is_digit(s[s.len() - 1]));
    }
}

pub fn parse_count(out: &str) -> (r: usize)
    ensures
        r == count_spec(out@),
{
    let t = trim_ws_chars(&to_chars(out));
    let start: usize = if t.len() > 0 && t[0] == '+' {
        1
    } else {
        0
    };
    let ghost d = count_digits(t@);
    assert(d =~= t@.skip(start as int));
    if start >= t.len() {
        return 0;
    }
    let mut v: usize = 0;
    let mut i: usize = start;
    while i < t.len()
        invariant
            start <= i <= t.len(),
            start < t.len(),
            d == t@.skip(start as int),
            d == count_digits(trim_ws(out@)),
            forall|j: int| 0 <= j < i - start ==> is_digit(#[trigger] d[j]),
            v as int == digits_value(d.take(i - start)),
        decreases t.len() - i,
    {
        let c = t[i];
        if !('0' <= c && c <= '9') {
            assert(!is_digit(d[i - start]));
            assert(!all_digits(d));
            return 0;
        }
        assert(d.take(i + 1 - start).drop_last() =~= d.take(i - start));
        assert(d.take(i + 1 - start).last() == c);
        let digit = ((c as u32) - 48) as usize;
        match v.checked_mul(10) {
            Some(m) => match m.checked_add(digit) {
                Some(n) => {
                    v = n;
                },
                None => {
                    proof {
                        assert forall|j: int| 0 <= j < i + 1 - start implies is_digit(#[trigger] d[j]) by {
                            if j == i - start {
                                assert(d[j] == c);
                            }
                        }
                        reject_big(d, i + 1 - start);
                    }
                    return 0;
                },
            },
            None => {
                proof {
                    assert forall|j: int| 0 <= j < i + 1 - start implies is_digit(#[trigger] d[j]) by {
                        if j == i - start {
                            assert(d[j] == c);
                        }
                    }
                    reject_big(d, i + 1 - start);
                }
                return 0;
            },
        }
        i = i + 1;
    }
    assert(d.take(i - start) =~= d);
    assert(all_digits(d));
    v
}

/// A prefix of digits worth more than `usize::MAX` makes the whole count
/// too big or not a number.
proof fn reject_big(d: Seq<char>, k: int)
    requires
        0 < k <= d.len(),
        forall|j: int| 0 <= j < k ==> is_digit(#[trigger] d[j]),
        digits_value(d.take(k)) > usize::MAX,
    ensures
        !(all_digits(d) && digits_value(d) <= usize::MAX),
{
    if all_digits(d) {
        lemma_digits_value_grows(d, k);
    }
}

} // verus!
