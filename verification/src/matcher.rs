//! Answer matching: a submitted answer counts as correct when it equals the
//! expected answer after trimming surrounding whitespace from both sides and
//! comparing case-insensitively. Internal whitespace is kept as written.

use vstd::prelude::*;

verus! {

/// What `str::trim` returns for a given character sequence.
pub uninterp spec fn trim_of(s: Seq<char>) -> Seq<char>;

/// What `str::to_lowercase` returns for a given character sequence.
pub uninterp spec fn lower_of(s: Seq<char>) -> Seq<char>;

/// The normal form under which two answers are compared: surrounding
/// whitespace removed, then lowercased.
pub open spec fn norm_of(s: Seq<char>) -> Seq<char> {
    lower_of(trim_of(s))
}

/// Two answers match exactly when their normal forms are equal.
pub open spec fn answer_matches(expected: Seq<char>, submitted: Seq<char>) -> bool {
    norm_of(expected) == norm_of(submitted)
}

/// Relies on str::trim: removes leading and trailing whitespace; the result
/// depends on the characters alone.
#[verifier::external_body]
fn trimmed(s: &str) -> (r: String)
    ensures
        r@ == trim_of(s@),
{
    s.trim().to_string()
}

/// Relies on str::to_lowercase: the result depends on the characters alone.
#[verifier::external_body]
fn lowercased(s: &str) -> (r: String)
    ensures
        r@ == lower_of(s@),
{
    s.to_lowercase()
}

/// Compares a submitted answer against the expected one: both sides are
/// trimmed, then compared case-insensitively. Total; never fails.
pub fn matches(expected: &str, submitted: &str) -> (r: bool)
    ensures
        r == answer_matches(expected@, submitted@),
{
    let e = lowercased(trimmed(expected).as_str());
    let s = lowercased(trimmed(submitted).as_str());
    e == s
}

} // verus!
