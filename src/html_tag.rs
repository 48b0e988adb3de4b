use vstd::prelude::*;
use crate::pattern::{find_spans, found_spans, spans_ordered};

verus! {

/// An HTML comment, or a tag with no `<` or `>` inside it; a stray `<`
/// starts no tag and stays ordinary text.
pub const MARKUP_PATTERN: &'static str = r"(<!--[\s\S]*?-->)|(<[^<>]*>)";

/// Whether byte offset `s` lies inside markup: the last span that starts
/// before `s` must still be open at `s`, strictly before its final byte.
pub open spec fn inside_markup(spans: Seq<(usize, usize)>, s: int) -> bool
    decreases spans.len(),
{
    if spans.len() == 0 {
        false
    } else if (spans.last().0 as int) < s {
        s < spans.last().1 as int - 1
    } else {
        inside_markup(spans.drop_last(), s)
    }
}

/// Markup spans of one text, queried by the start of a word.
pub struct HtmlChecker {
    spans: Vec<(usize, usize)>,
}

impl HtmlChecker {
    pub closed spec fn spans(&self) -> Seq<(usize, usize)> {
        self.spans@
    }

    /// A checker over the given byte spans, in text order.
    pub fn from_spans(spans: Vec<(usize, usize)>) -> (r: HtmlChecker)
        ensures
            r.spans() == spans@,
    {
        HtmlChecker { spans }
    }

    /// Whether a word starting at byte offset `start` is inside markup.
    pub fn is_html(&self, start: usize) -> (r: bool)
        ensures
            r == inside_markup(self.spans(), start as int),
    {
        let mut i: usize = self.spans.len();
        assert(self.spans@.subrange(0, i as int) =~= self.spans@);
        while i > 0
            invariant
                i <= self.spans@.len(),
                inside_markup(self.spans@, start as int) == inside_markup(
                    self.spans@.subrange(0, i as int),
                    start as int,
                ),
            decreases i,
        {
            let ghost prefix = self.spans@.subrange(0, i as int);
            assert(prefix.drop_last() =~= self.spans@.subrange(0, i - 1));
            let (range_start, range_end) = self.spans[i - 1];
            if range_start < start {
                return range_end > 0 && start < range_end - 1;
            }
            i = i - 1;
        }
        false
    }
}

/// The checker for the markup of `text`.
pub fn build_is_html_checker(text: &str) -> (r: HtmlChecker)
    ensures
        r.spans() == found_spans(MARKUP_PATTERN@, text@),
        spans_ordered(text@, r.spans()),
{
    HtmlChecker::from_spans(find_spans(MARKUP_PATTERN, text))
}

} // verus!
