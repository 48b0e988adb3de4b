use vstd::prelude::*;
use crate::utf8_offsets::{byte_offset, is_char_boundary};

verus! {

/// Byte spans `[start, end)` of the successive non-overlapping matches of
/// `pattern` in `text`, or `None` where the pattern does not compile.
pub uninterp spec fn regex_matches(pattern: Seq<char>, text: Seq<char>) -> Option<
    Seq<(usize, usize)>,
>;

/// Spans lie inside the encoding of `t`, start and end on character
/// boundaries, and come in order without overlapping.
pub open spec fn spans_ordered(t: Seq<char>, v: Seq<(usize, usize)>) -> bool {
    &&& forall|i: int|
        0 <= i < v.len() ==> {
            &&& (#[trigger] v[i]).0 <= v[i].1 <= byte_offset(t, t.len() as int)
            &&& is_char_boundary(t, v[i].0 as int)
            &&& is_char_boundary(t, v[i].1 as int)
        }
    &&& forall|i: int, j: int| 0 <= i < j < v.len() ==> (#[trigger] v[i]).1 <= (#[trigger] v[j]).0
}

/// The matches of `pattern` in `text`, or no match at all where the pattern
/// does not compile.
pub open spec fn found_spans(pattern: Seq<char>, text: Seq<char>) -> Seq<(usize, usize)> {
    match regex_matches(pattern, text) {
        Some(v) => v,
        None => Seq::empty(),
    }
}

/// Relies on regex::Regex::new, which compiles the pattern or refuses it,
/// and on regex::Regex::find_iter, which yields successive non-overlapping
/// matches whose byte offsets fall on UTF-8 character boundaries.
#[verifier::external_body]
fn regex_spans(pattern: &str, text: &str) -> (r: Option<Vec<(usize, usize)>>)
    ensures
        r is None ==> regex_matches(pattern@, text@) is None,
        r matches Some(v) ==> regex_matches(pattern@, text@) == Some(v@),
        r matches Some(v) ==> spans_ordered(text@, v@),
{
    match regex::Regex::new(pattern) {
        Ok(re) => Some(re.find_iter(text).map(|m| (m.start(), m.end())).collect()),
        Err(_) => None,
    }
}

/// Byte spans of the matches of `pattern` in `text`.
pub fn find_spans(pattern: &str, text: &str) -> (r: Vec<(usize, usize)>)
    ensures
        r@ == found_spans(pattern@, text@),
        spans_ordered(text@, r@),
{
    match regex_spans(pattern, text) {
        Some(v) => v,
        None => Vec::new(),
    }
}

} // verus!
