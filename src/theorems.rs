use vstd::prelude::*;
use vstd::utf8::encode_utf8;
use crate::html_tag::inside_markup;
use crate::utf8_offsets::{
    byte_offset, char_index, is_char_boundary, lemma_char_index_unique, lemma_offset_strict,
};
use crate::pattern::spans_ordered;
use crate::{bionified, fixation_of, render, same_answers};

verus! {

proof fn lemma_render_same_answers(
    t: Seq<char>,
    words: Seq<(usize, usize)>,
    markup: Seq<(usize, usize)>,
    before: Map<Seq<char>, nat>,
    after: Map<Seq<char>, nat>,
    fixation_point: nat,
    cursor: int,
)
    requires
        same_answers(before, after, fixation_point),
    ensures
        render(t, words, markup, before, fixation_point, cursor) == render(
            t,
            words,
            markup,
            after,
            fixation_point,
            cursor,
        ),
    decreases words.len(),
{
    if words.len() > 0 {
        let s = crate::utf8_offsets::char_index(t, words[0].0 as int);
        let e = crate::utf8_offsets::char_index(t, words[0].1 as int);
        crate::lemma_same_answers(before, after, fixation_point, t.subrange(s, e));
        let f = fixation_of(before, fixation_point, t.subrange(s, e)) as int;
        lemma_render_same_answers(
            t,
            words.drop_first(),
            markup,
            before,
            after,
            fixation_point,
            cursor,
        );
        lemma_render_same_answers(
            t,
            words.drop_first(),
            markup,
            before,
            after,
            fixation_point,
            s + f,
        );
    }
}

/// Converting a text again, with the cache that earlier conversions
/// filled, gives the same output as the first conversion.
pub proof fn lemma_conversion_repeatable(
    t: Seq<char>,
    fixation_point: nat,
    before: Map<Seq<char>, nat>,
    after: Map<Seq<char>, nat>,
)
    requires
        same_answers(before, after, fixation_point),
    ensures
        bionified(t, fixation_point, after) == bionified(t, fixation_point, before),
{
    lemma_render_same_answers(
        t,
        crate::pattern::found_spans(crate::WORD_PATTERN@, t),
        crate::pattern::found_spans(crate::html_tag::MARKUP_PATTERN@, t),
        before,
        after,
        fixation_point,
        0,
    );
}

proof fn lemma_render_all_inside(
    t: Seq<char>,
    words: Seq<(usize, usize)>,
    markup: Seq<(usize, usize)>,
    cache: Map<Seq<char>, nat>,
    fixation_point: nat,
    cursor: int,
)
    requires
        forall|i: int| 0 <= i < words.len() ==> inside_markup(markup, (#[trigger] words[i]).0 as int),
    ensures
        render(t, words, markup, cache, fixation_point, cursor) == t.subrange(cursor, t.len() as int),
    decreases words.len(),
{
    if words.len() > 0 {
        assert(inside_markup(markup, words[0].0 as int));
        assert forall|i: int| 0 <= i < words.drop_first().len() implies inside_markup(
            markup,
            (#[trigger] words.drop_first()[i]).0 as int,
        ) by {
            assert(words.drop_first()[i] == words[i + 1]);
        }
        lemma_render_all_inside(t, words.drop_first(), markup, cache, fixation_point, cursor);
    }
}

/// A text that is one tag spanning all of its `len` bytes comes out
/// unchanged: every word that starts strictly inside the tag, before its
/// closing byte, is left without markers.
pub proof fn lemma_single_tag_unchanged(
    t: Seq<char>,
    len: usize,
    words: Seq<(usize, usize)>,
    cache: Map<Seq<char>, nat>,
    fixation_point: nat,
)
    requires
        len == byte_offset(t, t.len() as int),
        forall|i: int| 0 <= i < words.len() ==> 0 < (#[trigger] words[i]).0 < len - 1,
    ensures
        render(t, words, seq![(0usize, len)], cache, fixation_point, 0) == t,
{
    let markup = seq![(0usize, len)];
    assert forall|i: int| 0 <= i < words.len() implies inside_markup(
        markup,
        (#[trigger] words[i]).0 as int,
    ) by {
        assert(markup.last() == (0usize, len));
        assert(markup.drop_last().len() == 0);
    }
    lemma_render_all_inside(t, words, markup, cache, fixation_point, 0);
    assert(t.subrange(0, t.len() as int) =~= t);
}

pub open spec fn open_marker() -> Seq<char> {
    seq!['<', 'b', '>']
}

pub open spec fn close_marker() -> Seq<char> {
    seq!['<', '/', 'b', '>']
}

pub open spec fn starts_with(s: Seq<char>, p: Seq<char>) -> bool {
    p.len() <= s.len() && s.subrange(0, p.len() as int) == p
}

/// Whether a marker begins at character index `j` of `s`.
pub open spec fn marker_at(s: Seq<char>, j: int) -> bool {
    starts_with(s.subrange(j, s.len() as int), open_marker()) || starts_with(
        s.subrange(j, s.len() as int),
        close_marker(),
    )
}

/// Whether `s` holds an emphasis marker anywhere.
pub open spec fn has_marker(s: Seq<char>) -> bool {
    exists|j: int| 0 <= j < s.len() && #[trigger] marker_at(s, j)
}

/// `s` with every emphasis marker removed, scanning from the left.
pub open spec fn strip_markers(s: Seq<char>) -> Seq<char>
    decreases s.len(),
{
    if s.len() == 0 {
        s
    } else if starts_with(s, open_marker()) {
        strip_markers(s.subrange(3, s.len() as int))
    } else if starts_with(s, close_marker()) {
        strip_markers(s.subrange(4, s.len() as int))
    } else {
        seq![s[0]] + strip_markers(s.subrange(1, s.len() as int))
    }
}

proof fn lemma_no_marker_sub(t: Seq<char>, a: int, b: int)
    requires
        0 <= a <= b <= t.len(),
        !has_marker(t),
    ensures
        !has_marker(t.subrange(a, b)),
{
    let u = t.subrange(a, b);
    if has_marker(u) {
        let j = choose|j: int| 0 <= j < u.len() && #[trigger] marker_at(u, j);
        let v = u.subrange(j, u.len() as int);
        let w = t.subrange(a + j, t.len() as int);
        if starts_with(v, open_marker()) {
            assert(v.subrange(0, 3) =~= w.subrange(0, 3));
        } else {
            assert(v.subrange(0, 4) =~= w.subrange(0, 4));
        }
        assert(marker_at(t, a + j));
    }
}

proof fn lemma_strip_plain(x: Seq<char>)
    requires
        !has_marker(x),
    ensures
        strip_markers(x) == x,
    decreases x.len(),
{
    if x.len() > 0 {
        assert(x.subrange(0, x.len() as int) =~= x);
        assert(!marker_at(x, 0));
        lemma_no_marker_sub(x, 1, x.len() as int);
        lemma_strip_plain(x.subrange(1, x.len() as int));
        assert(seq![x[0]] + x.subrange(1, x.len() as int) =~= x);
    }
}

proof fn lemma_strip_before_marker(a: Seq<char>, x: Seq<char>)
    requires
        !has_marker(a),
        x.len() > 0,
        x[0] == '<',
    ensures
        strip_markers(a + x) == a + strip_markers(x),
    decreases a.len(),
{
    let s = a + x;
    if a.len() == 0 {
        assert(s =~= x);
        assert(a + strip_markers(x) =~= strip_markers(x));
    } else {
        assert(a.subrange(0, a.len() as int) =~= a);
        assert(!marker_at(a, 0));
        if starts_with(s, open_marker()) {
            if a.len() >= 3 {
                assert(a.subrange(0, 3) =~= s.subrange(0, 3));
            } else {
                assert(s.subrange(0, 3)[a.len() as int] == x[0]);
            }
        }
        if starts_with(s, close_marker()) {
            if a.len() >= 4 {
                assert(a.subrange(0, 4) =~= s.subrange(0, 4));
            } else {
                assert(s.subrange(0, 4)[a.len() as int] == x[0]);
            }
        }
        let rest = a.subrange(1, a.len() as int);
        assert(s.subrange(1, s.len() as int) =~= rest + x);
        lemma_no_marker_sub(a, 1, a.len() as int);
        lemma_strip_before_marker(rest, x);
        assert(seq![a[0]] + (rest + strip_markers(x)) =~= a + strip_markers(x));
    }
}

proof fn lemma_strip_open(y: Seq<char>)
    ensures
        strip_markers(open_marker() + y) == strip_markers(y),
{
    let s = open_marker() + y;
    assert(s.subrange(0, 3) =~= open_marker());
    assert(s.subrange(3, s.len() as int) =~= y);
}

proof fn lemma_strip_close(y: Seq<char>)
    ensures
        strip_markers(close_marker() + y) == strip_markers(y),
{
    let s = close_marker() + y;
    assert(s.subrange(0, 3)[1] == '/');
    assert(s.subrange(0, 4) =~= close_marker());
    assert(s.subrange(4, s.len() as int) =~= y);
}

/// No stored fixation length exceeds the length of its word.
pub open spec fn cache_bounded(cache: Map<Seq<char>, nat>) -> bool {
    forall|k: Seq<char>| #[trigger] cache.contains_key(k) ==> cache[k] <= k.len()
}

proof fn lemma_render_strips_to_text(
    t: Seq<char>,
    words: Seq<(usize, usize)>,
    markup: Seq<(usize, usize)>,
    cache: Map<Seq<char>, nat>,
    fixation_point: nat,
    c0: int,
    c: int,
)
    requires
        !has_marker(t),
        spans_ordered(t, words),
        cache_bounded(cache),
        0 <= c0 <= c <= t.len(),
        forall|j: int| 0 <= j < words.len() ==> byte_offset(t, c) <= (#[trigger] words[j]).0,
    ensures
        strip_markers(t.subrange(c0, c) + render(t, words, markup, cache, fixation_point, c))
            == t.subrange(c0, t.len() as int),
    decreases words.len(),
{
    let n = t.len() as int;
    if words.len() == 0 {
        assert(t.subrange(c0, c) + t.subrange(c, n) =~= t.subrange(c0, n));
        lemma_no_marker_sub(t, c0, n);
        lemma_strip_plain(t.subrange(c0, n));
    } else {
        let rest = words.drop_first();
        assert forall|i: int, j: int| 0 <= i < j < rest.len() implies (#[trigger] rest[i]).1 <= (
        #[trigger] rest[j]).0 by {
            assert(rest[i] == words[i + 1] && rest[j] == words[j + 1]);
        }
        assert forall|i: int| 0 <= i < rest.len() implies {
            &&& (#[trigger] rest[i]).0 <= rest[i].1 <= byte_offset(t, n)
            &&& is_char_boundary(t, rest[i].0 as int)
            &&& is_char_boundary(t, rest[i].1 as int)
        } by {
            assert(rest[i] == words[i + 1]);
        }
        if inside_markup(markup, words[0].0 as int) {
            assert forall|j: int| 0 <= j < rest.len() implies byte_offset(t, c) <= (
            #[trigger] rest[j]).0 by {
                assert(rest[j] == words[j + 1]);
            }
            lemma_render_strips_to_text(t, rest, markup, cache, fixation_point, c0, c);
        } else {
            let s = char_index(t, words[0].0 as int);
            let e = char_index(t, words[0].1 as int);
            assert(words[0].0 <= words[0].1);
            assert(is_char_boundary(t, words[0].0 as int));
            assert(is_char_boundary(t, words[0].1 as int));
            let ks = choose|k: int| 0 <= k <= t.len() && #[trigger] byte_offset(t, k) == words[0].0;
            let ke = choose|k: int| 0 <= k <= t.len() && #[trigger] byte_offset(t, k) == words[0].1;
            lemma_char_index_unique(t, ks);
            lemma_char_index_unique(t, ke);
            if e < s {
                lemma_offset_strict(t, e, s);
            }
            if s < c {
                lemma_offset_strict(t, s, c);
            }
            let w = t.subrange(s, e);
            let f = fixation_of(cache, fixation_point, w) as int;
            crate::fixation::lemma_fixation_bounded(w.len(), fixation_point);
            let c1 = s + f;
            assert forall|j: int| 0 <= j < rest.len() implies byte_offset(t, c1) <= (
            #[trigger] rest[j]).0 by {
                assert(rest[j] == words[j + 1]);
                assert(words[0].1 <= words[j + 1].0);
                if c1 < e {
                    lemma_offset_strict(t, c1, e);
                }
            }
            let r = render(t, rest, markup, cache, fixation_point, c1);
            lemma_render_strips_to_text(t, rest, markup, cache, fixation_point, c1, c1);
            assert(t.subrange(c1, c1) + r =~= r);
            let p = t.subrange(s, c1);
            if f == 0 {
                lemma_render_strips_to_text(t, rest, markup, cache, fixation_point, c0, c1);
                assert(t.subrange(c0, c) + (t.subrange(c, s) + crate::emphasized(p) + r)
                    =~= t.subrange(c0, s) + r);
            } else {
                let z = p + (close_marker() + r);
                assert(t.subrange(c0, c) + (t.subrange(c, s) + crate::emphasized(p) + r)
                    =~= t.subrange(c0, s) + (open_marker() + z));
                lemma_no_marker_sub(t, c0, s);
                lemma_strip_before_marker(t.subrange(c0, s), open_marker() + z);
                lemma_strip_open(z);
                lemma_no_marker_sub(t, s, c1);
                lemma_strip_before_marker(p, close_marker() + r);
                lemma_strip_close(r);
                assert(t.subrange(c0, s) + (p + t.subrange(c1, n)) =~= t.subrange(c0, n));
            }
        }
    }
}

/// Removing the emphasis markers from the output for any words of `t`
/// (byte spans in order, on character boundaries) gives back `t`, where `t`
/// holds no marker of its own.
pub proof fn lemma_content_preserved(
    t: Seq<char>,
    words: Seq<(usize, usize)>,
    markup: Seq<(usize, usize)>,
    cache: Map<Seq<char>, nat>,
    fixation_point: nat,
)
    requires
        !has_marker(t),
        spans_ordered(t, words),
        cache_bounded(cache),
    ensures
        strip_markers(render(t, words, markup, cache, fixation_point, 0)) == t,
{
    assert forall|j: int| 0 <= j < words.len() implies byte_offset(t, 0) <= (
    #[trigger] words[j]).0 by {
        assert(t.subrange(0, 0) =~= Seq::<char>::empty());
        assert(encode_utf8(Seq::<char>::empty()) =~= Seq::<u8>::empty());
    }
    lemma_render_strips_to_text(t, words, markup, cache, fixation_point, 0, 0);
    assert(t.subrange(0, 0) + render(t, words, markup, cache, fixation_point, 0) =~= render(
        t,
        words,
        markup,
        cache,
        fixation_point,
        0,
    ));
    assert(t.subrange(0, t.len() as int) =~= t);
}

/// The emphasis of a word that spans bytes `[start, end)` of `t` closes on
/// a character boundary between `start` and `end`, whatever number of its
/// characters is emphasized: no multi-byte character is split.
pub proof fn lemma_prefix_on_boundary(t: Seq<char>, start: int, end: int, f: nat)
    requires
        is_char_boundary(t, start),
        is_char_boundary(t, end),
        start <= end,
        f <= char_index(t, end) - char_index(t, start),
    ensures
        is_char_boundary(t, byte_offset(t, char_index(t, start) + f)),
        start <= byte_offset(t, char_index(t, start) + f) <= end,
{
    let ks = choose|k: int| 0 <= k <= t.len() && #[trigger] byte_offset(t, k) == start;
    let ke = choose|k: int| 0 <= k <= t.len() && #[trigger] byte_offset(t, k) == end;
    lemma_char_index_unique(t, ks);
    lemma_char_index_unique(t, ke);
    let c = ks + f;
    lemma_char_index_unique(t, c);
    if ks < c {
        lemma_offset_strict(t, ks, c);
    }
    if c < ke {
        lemma_offset_strict(t, c, ke);
    }
}

/// Each word span of `t` has its emphasis cut on a character boundary
/// inside the word.
pub proof fn lemma_cut_on_boundary(
    t: Seq<char>,
    span: (usize, usize),
    cache: Map<Seq<char>, nat>,
    fixation_point: nat,
)
    requires
        is_char_boundary(t, span.0 as int),
        is_char_boundary(t, span.1 as int),
        span.0 <= span.1,
        cache_bounded(cache),
    ensures
        crate::cut_on_boundary(t, span, cache, fixation_point),
{
    let ks = choose|k: int| 0 <= k <= t.len() && #[trigger] byte_offset(t, k) == span.0;
    let ke = choose|k: int| 0 <= k <= t.len() && #[trigger] byte_offset(t, k) == span.1;
    lemma_char_index_unique(t, ks);
    lemma_char_index_unique(t, ke);
    if ke < ks {
        lemma_offset_strict(t, ke, ks);
    }
    let w = t.subrange(ks, ke);
    crate::fixation::lemma_fixation_bounded(w.len(), fixation_point);
    let f = fixation_of(cache, fixation_point, w);
    lemma_prefix_on_boundary(t, span.0 as int, span.1 as int, f);
}

} // verus!
