use vstd::prelude::*;
use vstd::string::StrSliceExecFns;

verus! {

/// Whether std counts `c` as alphabetic.
pub uninterp spec fn alphabetic_char(c: char) -> bool;

/// Whether std counts `c` as white space.
pub uninterp spec fn whitespace_char(c: char) -> bool;

/// Relies on `char::is_alphabetic`: the Unicode `Alphabetic` property of `c`.
#[verifier::external_body]
fn is_alphabetic(c: char) -> (r: bool)
    ensures
        r == alphabetic_char(c),
{
    c.is_alphabetic()
}

/// Relies on `char::is_whitespace`: the Unicode `White_Space` property of `c`.
#[verifier::external_body]
fn is_whitespace(c: char) -> (r: bool)
    ensures
        r == whitespace_char(c),
{
    c.is_whitespace()
}

/// A forename is kept when every character is alphabetic.
pub open spec fn is_clean_name(s: Seq<char>) -> bool {
    forall|i: int| 0 <= i < s.len() ==> alphabetic_char(#[trigger] s[i])
}

/// A town or saint is written in letters and spaces only.
pub open spec fn is_clean_phrase(s: Seq<char>) -> bool {
    forall|i: int| 0 <= i < s.len() ==> alphabetic_char(#[trigger] s[i]) || whitespace_char(s[i])
}

/// A town is kept when it is written in letters and spaces and is not blank.
pub open spec fn is_clean_town(s: Seq<char>) -> bool {
    is_clean_phrase(s) && exists|i: int| 0 <= i < s.len() && !whitespace_char(#[trigger] s[i])
}

/// Whether a forename read from the source records is kept.
pub fn keep_name(s: &str) -> (r: bool)
    ensures
        r == is_clean_name(s@),
{
    let n = s.unicode_len();
    let mut i: usize = 0;
    while i < n
        invariant
            n == s@.len(),
            i <= n,
            forall|j: int| 0 <= j < i ==> alphabetic_char(#[trigger] s@[j]),
        decreases n - i,
    {
        if !is_alphabetic(s.get_char(i)) {
            return false;
        }
        i = i + 1;
    }
    true
}

/// Whether a saint's name read from the source records is kept.
pub fn keep_saint(s: &str) -> (r: bool)
    ensures
        r == is_clean_phrase(s@),
{
    let n = s.unicode_len();
    let mut i: usize = 0;
    while i < n
        invariant
            n == s@.len(),
            i <= n,
            forall|j: int| 0 <= j < i ==> alphabetic_char(#[trigger] s@[j]) || whitespace_char(s@[j]),
        decreases n - i,
    {
        let c = s.get_char(i);
        if !is_alphabetic(c) && !is_whitespace(c) {
            return false;
        }
        i = i + 1;
    }
    true
}

/// Whether a town read from the source records is kept.
pub fn keep_town(s: &str) -> (r: bool)
    ensures
        r == is_clean_town(s@),
{
    if !keep_saint(s) {
        return false;
    }
    let n = s.unicode_len();
    let mut i: usize = 0;
    while i < n
        invariant
            n == s@.len(),
            i <= n,
            is_clean_phrase(s@),
            forall|j: int| 0 <= j < i ==> whitespace_char(#[trigger] s@[j]),
        decreases n - i,
    {
        let c = s.get_char(i);
        if !is_whitespace(c) {
            assert(!whitespace_char(s@[i as int]));
            return true;
        }
        i = i + 1;
    }
    false
}

} // verus!
