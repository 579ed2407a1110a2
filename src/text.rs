//! Text operations of std that the library relies on, with what their
//! documentation states.
use vstd::prelude::*;

verus! {

/// `needle` occurs in `hay` as a contiguous run.
pub open spec fn has_substring(hay: Seq<char>, needle: Seq<char>) -> bool {
    exists|i: int| 0 <= i <= hay.len() - needle.len() && #[trigger] hay.subrange(i, i + needle.len()) == needle
}

/// Lexicographic order of texts by code point; a proper prefix comes first.
pub open spec fn text_cmp(a: Seq<char>, b: Seq<char>) -> std::cmp::Ordering
    decreases a.len(),
{
    if a.len() == 0 {
        if b.len() == 0 {
            std::cmp::Ordering::Equal
        } else {
            std::cmp::Ordering::Less
        }
    } else if b.len() == 0 {
        std::cmp::Ordering::Greater
    } else if (a[0] as u32) < (b[0] as u32) {
        std::cmp::Ordering::Less
    } else if (a[0] as u32) > (b[0] as u32) {
        std::cmp::Ordering::Greater
    } else {
        text_cmp(a.drop_first(), b.drop_first())
    }
}

/// Relies on `String::push_str`: appends `t` to `s`.
#[verifier::external_body]
pub(crate) fn push_text(s: &mut String, t: &str)
    ensures
        final(s)@ == old(s)@ + t@,
{
    s.push_str(t)
}

/// Relies on `str::contains` with a `&str` pattern: whether `needle` occurs
/// in `hay`.
#[verifier::external_body]
pub(crate) fn text_contains(hay: &str, needle: &str) -> (r: bool)
    ensures
        r == has_substring(hay@, needle@),
{
    hay.contains(needle)
}

/// Relies on `Ord for str`: texts compare lexicographically by byte, which
/// for UTF-8 is the order of code points.
#[verifier::external_body]
pub(crate) fn compare_text(a: &str, b: &str) -> (r: std::cmp::Ordering)
    ensures
        r == text_cmp(a@, b@),
{
    a.cmp(b)
}

} // verus!
