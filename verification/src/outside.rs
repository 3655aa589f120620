//! Trusted items: the calls into std and into outside crates that Verus
//! cannot read, each with the contract the library relies on.
use rand::rngs::{OsRng, StdRng};
use rand::{Rng, SeedableRng};
use vstd::prelude::*;
use vstd::utf8::{decode_utf8, valid_utf8};

verus! {

/// `String::push`: appends one character at the end.
#[verifier::external_body]
pub(crate) fn push_char(s: &mut String, c: char)
    ensures
        final(s)@ == old(s)@.push(c),
{
    s.push(c)
}

/// `rand::rngs::StdRng`, the seeded generator the pauses are drawn from.
#[verifier::external_type_specification]
#[verifier::external_body]
pub struct ExStdRng(StdRng);

/// `StdRng::from_rng(OsRng)`: a generator seeded from the operating
/// system's entropy source; `None` when that source fails. Which seed it
/// gets is chance, so nothing more is stated.
#[verifier::external_body]
pub(crate) fn seeded_rng() -> (r: Option<StdRng>) {
    StdRng::from_rng(OsRng).ok()
}

/// `Rng::gen_range(min..=max)` on a seeded generator: a random number in
/// the inclusive range; `gen_range` panics on an empty range, which
/// `requires` leaves out. Which number comes back is chance, so only the
/// range is stated.
#[verifier::external_body]
pub(crate) fn random_in_range(rng: &mut StdRng, min: u64, max: u64) -> (r: u64)
    requires
        min <= max,
    ensures
        min <= r <= max,
{
    rng.gen_range(min..=max)
}

/// The digits of the first `(#<digits>)` in a commit subject, as the regex
/// crate finds them: the capture group of `\(#(\d+)\)`, where `\d` is
/// any Unicode decimal digit. The pattern is fixed, so the result depends
/// on the subject alone; it is named, not spelled out.
pub uninterp spec fn pr_ref_capture(subject: Seq<char>) -> Option<Seq<char>>;

/// `Regex::new(r"\(#(\d+)\)")` and `Regex::captures` on `subject`, group 1.
#[verifier::external_body]
pub(crate) fn pr_ref_number(subject: &str) -> (r: Option<String>)
    ensures
        r matches Some(d) ==> pr_ref_capture(subject@) == Some(d@),
        r is None ==> pr_ref_capture(subject@) is None,
{
    regex::Regex::new(r"\(#(\d+)\)").unwrap().captures(subject).map(|c| c[1].to_string())
}

/// `String::from_utf8`: `Ok` exactly when the bytes are valid UTF-8, and
/// then the string holds the characters they encode.
#[verifier::external_body]
pub(crate) fn utf8_string(bytes: Vec<u8>) -> (r: Option<String>)
    ensures
        r is Some <==> valid_utf8(bytes@),
        r matches Some(s) ==> s@ == decode_utf8(bytes@),
{
    String::from_utf8(bytes).ok()
}

} // verus!
