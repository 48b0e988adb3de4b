//! Bionic reading: the leading characters of each word are wrapped in
//! `<b>`/`</b>`, while text inside HTML tags and comments is left alone.
use vstd::prelude::*;

pub mod fixation;
pub mod html_tag;
pub mod pattern;
pub mod theorems;
pub mod utf8_offsets;

use crate::fixation::{fixation_length, get_fixation, FixationCache};
use crate::html_tag::{build_is_html_checker, inside_markup, HtmlChecker, MARKUP_PATTERN};
use crate::pattern::{find_spans, found_spans, spans_ordered};
use crate::theorems::{has_marker, lemma_content_preserved, lemma_cut_on_boundary, strip_markers};
use crate::utf8_offsets::{
    byte_offset, char_index, char_offsets, index_of_offset, is_char_boundary,
    lemma_char_index_unique, lemma_offset_strict,
};

verus! {

/// A run of letters and decimal digits holding at least one letter.
pub const WORD_PATTERN: &'static str = r"(\p{L}|\p{Nd})*\p{L}(\p{L}|\p{Nd})*";

/// `p` wrapped in emphasis markers, or nothing when `p` is empty.
pub open spec fn emphasized(p: Seq<char>) -> Seq<char> {
    if p.len() == 0 {
        Seq::empty()
    } else {
        seq!['<', 'b', '>'] + p + seq!['<', '/', 'b', '>']
    }
}

/// The fixation length used for word `w`: the cached one if any, otherwise
/// the one computed under `fixation_point`.
pub open spec fn fixation_of(cache: Map<Seq<char>, nat>, fixation_point: nat, w: Seq<char>) -> nat {
    if cache.contains_key(w) {
        cache[w]
    } else {
        fixation_length(w.len(), fixation_point)
    }
}

/// The output for the words `words` (byte spans, in order) of `t`, copying
/// the text from character index `cursor` on.
pub open spec fn render(
    t: Seq<char>,
    words: Seq<(usize, usize)>,
    markup: Seq<(usize, usize)>,
    cache: Map<Seq<char>, nat>,
    fixation_point: nat,
    cursor: int,
) -> Seq<char>
    decreases words.len(),
{
    if words.len() == 0 {
        t.subrange(cursor, t.len() as int)
    } else if inside_markup(markup, words[0].0 as int) {
        render(t, words.drop_first(), markup, cache, fixation_point, cursor)
    } else {
        let s = char_index(t, words[0].0 as int);
        let e = char_index(t, words[0].1 as int);
        let f = fixation_of(cache, fixation_point, t.subrange(s, e)) as int;
        t.subrange(cursor, s) + emphasized(t.subrange(s, s + f)) + render(
            t,
            words.drop_first(),
            markup,
            cache,
            fixation_point,
            s + f,
        )
    }
}

/// The bionic form of `t`.
pub open spec fn bionified(t: Seq<char>, fixation_point: nat, cache: Map<Seq<char>, nat>) -> Seq<
    char,
> {
    render(
        t,
        found_spans(WORD_PATTERN@, t),
        found_spans(MARKUP_PATTERN@, t),
        cache,
        fixation_point,
        0,
    )
}

/// The emphasis of word `span` (a byte span of `t`) covers no more than
/// the word and closes on a character boundary inside it.
pub open spec fn cut_on_boundary(
    t: Seq<char>,
    span: (usize, usize),
    cache: Map<Seq<char>, nat>,
    fixation_point: nat,
) -> bool {
    let s = char_index(t, span.0 as int);
    let e = char_index(t, span.1 as int);
    let f = fixation_of(cache, fixation_point, t.subrange(s, e));
    &&& s + f <= e
    &&& is_char_boundary(t, byte_offset(t, s + f))
    &&& span.0 <= byte_offset(t, s + f) <= span.1
}

/// No word of `t` has its emphasis cut inside a character.
pub open spec fn cuts_on_boundaries(
    t: Seq<char>,
    fixation_point: nat,
    cache: Map<Seq<char>, nat>,
) -> bool {
    let words = found_spans(WORD_PATTERN@, t);
    forall|i: int|
        0 <= i < words.len() ==> #[trigger] cut_on_boundary(t, words[i], cache, fixation_point)
}

/// The cache `after` answers every word as `before` does.
pub open spec fn same_answers(
    before: Map<Seq<char>, nat>,
    after: Map<Seq<char>, nat>,
    fixation_point: nat,
) -> bool {
    &&& before.submap_of(after)
    &&& forall|k: Seq<char>|
        #[trigger] after.contains_key(k) && !before.contains_key(k) ==> after[k]
            == fixation_length(k.len(), fixation_point)
}

proof fn lemma_same_answers(
    before: Map<Seq<char>, nat>,
    after: Map<Seq<char>, nat>,
    fixation_point: nat,
    w: Seq<char>,
)
    requires
        same_answers(before, after, fixation_point),
    ensures
        fixation_of(after, fixation_point, w) == fixation_of(before, fixation_point, w),
{
    if before.contains_key(w) {
        assert(after.contains_key(w));
    }
}

/// Emphasizes the words `words` of `text` that `checker` does not place
/// inside markup.
pub fn bionify_spans(
    text: &str,
    words: &Vec<(usize, usize)>,
    checker: &HtmlChecker,
    fixation_point: usize,
    cache: &mut FixationCache,
) -> (r: String)
    requires
        old(cache).wf(),
        spans_ordered(text@, words@),
    ensures
        final(cache).wf(),
        same_answers(old(cache)@, final(cache)@, fixation_point as nat),
        r@ == render(text@, words@, checker.spans(), old(cache)@, fixation_point as nat, 0),
{
    let ghost t = text@;
    let ghost w = words@;
    let ghost m = checker.spans();
    let ghost init = cache@;
    let ghost fp = fixation_point as nat;
    let offs = char_offsets(text);
    let n = text.unicode_len();
    let mut result = String::new();
    let mut cursor: usize = 0;
    let mut i: usize = 0;
    proof {
        assert(w.skip(0) =~= w);
        assert(result@ =~= Seq::<char>::empty());
    }
    while i < words.len()
        invariant
            t == text@,
            w == words@,
            m == checker.spans(),
            fp == fixation_point as nat,
            n == t.len(),
            spans_ordered(t, w),
            offs@.len() == n + 1,
            forall|k: int| 0 <= k <= n ==> #[trigger] offs@[k] == byte_offset(t, k),
            cache.wf(),
            same_answers(init, cache@, fp),
            i <= w.len(),
            cursor <= n,
            forall|j: int| i <= j < w.len() ==> byte_offset(t, cursor as int) <= (#[trigger] w[j]).0,
            result@ + render(t, w.skip(i as int), m, init, fp, cursor as int) == render(
                t,
                w,
                m,
                init,
                fp,
                0,
            ),
        decreases w.len() - i,
    {
        let (start, end) = words[i];
        proof {
            assert(w.skip(i as int).drop_first() =~= w.skip(i + 1));
            assert(w.skip(i as int)[0] == w[i as int]);
        }
        if checker.is_html(start) {
            i = i + 1;
        } else {
            let ghost sc = char_index(t, start as int);
            let ghost ec = char_index(t, end as int);
            proof {
                assert(w[i as int].0 <= w[i as int].1);
                lemma_char_index_unique(t, sc);
                lemma_char_index_unique(t, ec);
            }
            // Span ends lie on character boundaries, so both lookups succeed.
            let s = match index_of_offset(&offs, start) {
                Some(k) => k,
                None => {
                    proof {
                        assert(offs@[sc] == start);
                    }
                    0
                },
            };
            let e = match index_of_offset(&offs, end) {
                Some(k) => k,
                None => {
                    proof {
                        assert(offs@[ec] == end);
                    }
                    0
                },
            };
            proof {
                lemma_char_index_unique(t, s as int);
                lemma_char_index_unique(t, e as int);
                if e < s {
                    lemma_offset_strict(t, e as int, s as int);
                }
                if s < cursor {
                    lemma_offset_strict(t, s as int, cursor as int);
                }
            }
            let word = text.substring_char(s, e);
            let ghost before = cache@;
            let fixation = get_fixation(cache, word, fixation_point);
            proof {
                lemma_same_answers(init, before, fp, word@);
                assert(fixation == fixation_of(init, fp, word@));
                assert forall|k: Seq<char>|
                    #[trigger] cache@.contains_key(k) && !init.contains_key(k) implies cache@[k]
                    == fixation_length(k.len(), fp) by {
                    if k != word@ {
                        assert(before.contains_key(k));
                    }
                }
            }
            let ghost old_result = result@;
            result.append(text.substring_char(cursor, s));
            if fixation > 0 {
                result.append("<b>");
                result.append(text.substring_char(s, s + fixation));
                result.append("</b>");
                proof {
                    reveal_strlit("<b>");
                    reveal_strlit("</b>");
                }
            }
            proof {
                let p = t.subrange(s as int, s + fixation);
                assert(result@ =~= old_result + t.subrange(cursor as int, s as int) + emphasized(
                    p,
                ));
                assert forall|j: int| i + 1 <= j < w.len() implies byte_offset(
                    t,
                    s + fixation,
                ) <= (#[trigger] w[j]).0 by {
                    assert(w[i as int].1 <= w[j].0);
                    if s + fixation < e {
                        lemma_offset_strict(t, s + fixation, e as int);
                    }
                }
            }
            cursor = s + fixation;
            i = i + 1;
        }
    }
    proof {
        assert(w.skip(i as int) =~= Seq::<(usize, usize)>::empty());
    }
    result.append(text.substring_char(cursor, n));
    result
}

/// The bionic form of `text` under `fixation_point`, with fixation lengths
/// memoized in `cache`.
pub fn bionify_with_cache(text: &str, fixation_point: usize, cache: &mut FixationCache) -> (r:
    String)
    requires
        old(cache).wf(),
    ensures
        final(cache).wf(),
        same_answers(old(cache)@, final(cache)@, fixation_point as nat),
        r@ == bionified(text@, fixation_point as nat, old(cache)@),
        !has_marker(text@) ==> strip_markers(r@) == text@,
        cuts_on_boundaries(text@, fixation_point as nat, old(cache)@),
{
    let checker = build_is_html_checker(text);
    let words = find_spans(WORD_PATTERN, text);
    proof {
        cache.lemma_bounded();
        assert forall|i: int| 0 <= i < words@.len() implies #[trigger] cut_on_boundary(
            text@,
            words@[i],
            cache@,
            fixation_point as nat,
        ) by {
            lemma_cut_on_boundary(text@, words@[i], cache@, fixation_point as nat);
        }
        if !has_marker(text@) {
            lemma_content_preserved(
                text@,
                words@,
                checker.spans(),
                cache@,
                fixation_point as nat,
            );
        }
    }
    bionify_spans(text, &words, &checker, fixation_point, cache)
}

/// Converts a text into its bionic reading form.
pub trait Bionify {
    /// The characters of the text.
    spec fn text_view(&self) -> Seq<char>;

    /// Emphasizes the leading characters of each word outside markup.
    fn bionify(&self) -> (r: String)
        ensures
            r@ == bionified(self.text_view(), 0, Map::empty()),
            !has_marker(self.text_view()) ==> strip_markers(r@) == self.text_view(),
            cuts_on_boundaries(self.text_view(), 0, Map::empty()),
    ;
}

impl Bionify for String {
    open spec fn text_view(&self) -> Seq<char> {
        self@
    }

    fn bionify(&self) -> (r: String) {
        bionify(self.as_str())
    }
}

impl Bionify for str {
    open spec fn text_view(&self) -> Seq<char> {
        self@
    }

    fn bionify(&self) -> (r: String) {
        bionify(self)
    }
}

/// The bionic form of `text` under the default profile.
pub fn bionify(text: &str) -> (r: String)
    ensures
        r@ == bionified(text@, 0, Map::empty()),
        !has_marker(text@) ==> strip_markers(r@) == text@,
        cuts_on_boundaries(text@, 0, Map::empty()),
{
    let mut cache = FixationCache::new();
    bionify_with_cache(text, 0, &mut cache)
}

} // verus!
