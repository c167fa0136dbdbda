//! Words as stretches of the token: every word is what one unbroken stretch
//! of kept characters writes, and the stretches follow one another in order.

use vstd::prelude::*;
use crate::charset::{digit_name, is_digit};
use crate::config::Configuration;
use crate::laws::{boundaries, lemma_output_text_words, lemma_words_count, text_words};
use crate::words::{kept, limited, opens_word, rendering, split_text, words};

verus! {

/// The text that the characters of `x` write, one after another.
pub open spec fn rendered(x: Seq<char>, cfg: Configuration) -> Seq<char>
    decreases x.len(),
{
    if x.len() == 0 {
        Seq::empty()
    } else {
        rendered(x.drop_last(), cfg) + rendering(x.last(), cfg)
    }
}

/// Whether `s[i..j]` holds kept characters only, with a word beginning at
/// `i` and at no place after it before `j`.
pub open spec fn is_stretch(s: Seq<char>, cfg: Configuration, i: int, j: int) -> bool {
    &&& 0 <= i < j <= s.len()
    &&& forall|k: int| i <= k < j ==> kept(#[trigger] s[k], cfg)
    &&& opens_word(s, i, cfg)
    &&& forall|k: int| i < k < j ==> !#[trigger] opens_word(s, k, cfg)
}

/// Whether `s[i..j]` is the stretch of one whole word: a stretch that cannot
/// be continued at `j`.
pub open spec fn is_span(s: Seq<char>, cfg: Configuration, i: int, j: int) -> bool {
    &&& is_stretch(s, cfg, i, j)
    &&& j < s.len() ==> !kept(s[j], cfg) || opens_word(s, j, cfg)
}

/// What the stretches found in a prefix of the scan have in common: each is
/// closed but the last, after which nothing has been kept so far.
spec fn span_fits(s: Seq<char>, cfg: Configuration, spans: Seq<(int, int)>, w: int) -> bool {
    let i = spans[w].0;
    let j = spans[w].1;
    &&& is_stretch(s, cfg, i, j)
    &&& words(s, cfg)[w] == rendered(s.subrange(i, j), cfg)
    &&& boundaries(s.take(i + 1), cfg) == w
    &&& if w + 1 < spans.len() {
        j <= spans[w + 1].0 && j < s.len() && (!kept(s[j], cfg) || opens_word(s, j, cfg))
    } else {
        forall|k: int| j <= k < s.len() ==> !kept(#[trigger] s[k], cfg)
    }
}

/// Whether position `k` lies in one of the stretches.
pub open spec fn covered(spans: Seq<(int, int)>, k: int) -> bool {
    exists|w: int| 0 <= w < spans.len() && (#[trigger] spans[w]).0 <= k < spans[w].1
}

/// There is one fitting stretch for each word, and every kept character
/// lies in one of them.
spec fn all_fit(s: Seq<char>, cfg: Configuration, spans: Seq<(int, int)>) -> bool {
    &&& spans.len() == words(s, cfg).len()
    &&& forall|w: int| 0 <= w < spans.len() ==> span_fits(s, cfg, spans, w)
    &&& forall|k: int| 0 <= k < s.len() && kept(#[trigger] s[k], cfg) ==> covered(spans, k)
}

/// What is covered stays covered when the stretches keep their first
/// characters and do not shrink.
proof fn lemma_covered_carried(inner: Seq<(int, int)>, spans: Seq<(int, int)>, k: int)
    requires
        covered(inner, k),
        spans.len() >= inner.len(),
        forall|w: int|
            0 <= w < inner.len() ==> (#[trigger] spans[w]).0 == inner[w].0 && inner[w].1
                <= spans[w].1,
    ensures
        covered(spans, k),
{
    let w = choose|w: int| 0 <= w < inner.len() && (#[trigger] inner[w]).0 <= k < inner[w].1;
    assert(spans[w].0 <= k < spans[w].1);
}

/// A stretch of a token is a stretch of the token read one character further,
/// writes the same there, and has as many boundaries before it.
proof fn lemma_stretch_extends(s: Seq<char>, cfg: Configuration, i: int, j: int)
    requires
        s.len() > 0,
        is_stretch(s.drop_last(), cfg, i, j),
    ensures
        is_stretch(s, cfg, i, j),
        s.drop_last().subrange(i, j) == s.subrange(i, j),
        s.drop_last().take(i + 1) == s.take(i + 1),
{
    let t = s.drop_last();
    assert forall|k: int| i <= k < j implies kept(#[trigger] s[k], cfg) by {
        assert(kept(t[k], cfg));
    }
    assert forall|k: int| i < k < j implies !#[trigger] opens_word(s, k, cfg) by {
        assert(!opens_word(t, k, cfg));
    }
}

/// The first kept character of a token begins a word, whatever it is.
proof fn lemma_first_kept_opens(s: Seq<char>, cfg: Configuration, i: int)
    requires
        0 <= i < s.len(),
        kept(s[i], cfg),
        i > 0 ==> !kept(s[i - 1], cfg),
    ensures
        opens_word(s, i, cfg),
{
}

/// A stretch that is closed stays as it is when the token is read further.
proof fn lemma_closed_span_carried(
    s: Seq<char>,
    cfg: Configuration,
    inner: Seq<(int, int)>,
    spans: Seq<(int, int)>,
    w: int,
)
    requires
        s.len() > 0,
        0 <= w,
        w + 1 < inner.len(),
        w + 1 < spans.len(),
        span_fits(s.drop_last(), cfg, inner, w),
        is_stretch(s.drop_last(), cfg, inner[w + 1].0, inner[w + 1].1),
        spans[w] == inner[w],
        spans[w + 1].0 == inner[w + 1].0,
        words(s, cfg)[w] == words(s.drop_last(), cfg)[w],
    ensures
        span_fits(s, cfg, spans, w),
{
    lemma_stretch_extends(s, cfg, inner[w].0, inner[w].1);
}

/// A character that is not kept changes no stretch.
proof fn lemma_step_skip(s: Seq<char>, cfg: Configuration, inner: Seq<(int, int)>)
    requires
        s.len() > 0,
        !kept(s.last(), cfg),
        all_fit(s.drop_last(), cfg, inner),
    ensures
        all_fit(s, cfg, inner),
{
    let t = s.drop_last();
    let n = s.len() - 1;
    assert forall|w: int| 0 <= w < inner.len() implies span_fits(s, cfg, inner, w) by {
        assert(span_fits(t, cfg, inner, w));
        if w + 1 < inner.len() {
            assert(span_fits(t, cfg, inner, w + 1));
            lemma_closed_span_carried(s, cfg, inner, inner, w);
        } else {
            let j = inner[w].1;
            lemma_stretch_extends(s, cfg, inner[w].0, j);
            assert forall|k: int| j <= k < s.len() implies !kept(#[trigger] s[k], cfg) by {
                if k < n {
                    assert(!kept(t[k], cfg));
                }
            }
        }
    }
    assert forall|k: int| 0 <= k < s.len() && kept(#[trigger] s[k], cfg) implies covered(
        inner,
        k,
    ) by {
        assert(kept(t[k], cfg));
    }
}

/// A character that begins a word adds a stretch of its own and closes the
/// one before it.
proof fn lemma_step_open(s: Seq<char>, cfg: Configuration, inner: Seq<(int, int)>)
    requires
        s.len() > 0,
        kept(s.last(), cfg),
        words(s.drop_last(), cfg).len() == 0 || opens_word(s, s.len() - 1, cfg),
        all_fit(s.drop_last(), cfg, inner),
    ensures
        all_fit(s, cfg, inner.push((s.len() - 1, s.len() as int))),
{
    let t = s.drop_last();
    let n = s.len() - 1;
    let spans = inner.push((n, n + 1));
    lemma_words_count(t, cfg);
    lemma_words_count(s, cfg);
    assert(s.take(n + 1) =~= s);
    if inner.len() == 0 {
        lemma_first_kept_opens(s, cfg, n);
    }
    assert forall|w: int| 0 <= w < spans.len() implies span_fits(s, cfg, spans, w) by {
        if w + 1 < inner.len() {
            assert(span_fits(t, cfg, inner, w + 1));
            lemma_closed_span_carried(s, cfg, inner, spans, w);
        } else if w < inner.len() {
            assert(span_fits(t, cfg, inner, w));
            lemma_stretch_extends(s, cfg, inner[w].0, inner[w].1);
        } else {
            let x = s.subrange(n, n + 1);
            assert(rendered(x.drop_last(), cfg) =~= Seq::<char>::empty());
        }
    }
    assert forall|k: int| 0 <= k < s.len() && kept(#[trigger] s[k], cfg) implies covered(
        spans,
        k,
    ) by {
        if k < n {
            lemma_covered_carried(inner, spans, k);
        } else {
            assert(spans[inner.len() as int].0 <= k < spans[inner.len() as int].1);
        }
    }
}

/// A character that begins no word lengthens the last stretch by itself.
proof fn lemma_step_grow(s: Seq<char>, cfg: Configuration, inner: Seq<(int, int)>)
    requires
        s.len() > 0,
        kept(s.last(), cfg),
        words(s.drop_last(), cfg).len() > 0,
        !opens_word(s, s.len() - 1, cfg),
        all_fit(s.drop_last(), cfg, inner),
    ensures
        all_fit(s, cfg, inner.drop_last().push((inner.last().0, s.len() as int))),
{
    let t = s.drop_last();
    let n = s.len() - 1;
    let last = inner.len() - 1;
    let i = inner[last].0;
    let j = inner[last].1;
    let spans = inner.drop_last().push((i, n + 1));
    assert(span_fits(t, cfg, inner, last));
    assert forall|w: int| 0 <= w < spans.len() implies span_fits(s, cfg, spans, w) by {
        if w < last {
            assert(span_fits(t, cfg, inner, w + 1));
            lemma_closed_span_carried(s, cfg, inner, spans, w);
        } else {
            lemma_stretch_extends(s, cfg, i, j);
            let x = s.subrange(i, n + 1);
            assert(x.drop_last() =~= t.subrange(i, j));
        }
    }
    assert forall|k: int| 0 <= k < s.len() && kept(#[trigger] s[k], cfg) implies covered(
        spans,
        k,
    ) by {
        if k < n {
            assert(kept(t[k], cfg));
            lemma_covered_carried(inner, spans, k);
        } else {
            assert(spans[last].0 <= k < spans[last].1);
        }
    }
}

/// The stretches of a token, one for each of its words.
proof fn lemma_spans_grow(s: Seq<char>, cfg: Configuration) -> (spans: Seq<(int, int)>)
    ensures
        all_fit(s, cfg, spans),
    decreases s.len(),
{
    if s.len() == 0 {
        Seq::empty()
    } else {
        let inner = lemma_spans_grow(s.drop_last(), cfg);
        if !kept(s.last(), cfg) {
            lemma_step_skip(s, cfg, inner);
            inner
        } else if words(s.drop_last(), cfg).len() == 0 || opens_word(s, s.len() - 1, cfg) {
            lemma_step_open(s, cfg, inner);
            inner.push((s.len() - 1, s.len() as int))
        } else {
            lemma_step_grow(s, cfg, inner);
            inner.drop_last().push((inner.last().0, s.len() as int))
        }
    }
}

/// Characters that are not spoken write themselves.
pub proof fn lemma_rendered_plain(x: Seq<char>, cfg: Configuration)
    requires
        forall|k: int| 0 <= k < x.len() ==> !(is_digit(#[trigger] x[k]) && cfg.spell_digits),
    ensures
        rendered(x, cfg) == x,
    decreases x.len(),
{
    if x.len() > 0 {
        let y = x.drop_last();
        lemma_rendered_plain(y, cfg);
    }
}

/// Every word of a token is what one stretch of the token writes. The
/// stretches are whole, follow one another without overlap, and hold every
/// kept character between them; the stretch of the word with index `w` has
/// `w` boundaries up to its first character.
pub proof fn lemma_words_are_spans(s: Seq<char>, cfg: Configuration) -> (spans: Seq<(int, int)>)
    ensures
        spans.len() == words(s, cfg).len(),
        forall|w: int|
            0 <= w < spans.len() ==> {
                &&& is_span(s, cfg, (#[trigger] spans[w]).0, spans[w].1)
                &&& words(s, cfg)[w] == rendered(s.subrange(spans[w].0, spans[w].1), cfg)
                &&& boundaries(s.take(spans[w].0 + 1), cfg) == w
            },
        forall|w: int| 0 <= w < spans.len() - 1 ==> (#[trigger] spans[w]).1 <= spans[w + 1].0,
        forall|k: int| 0 <= k < s.len() && kept(#[trigger] s[k], cfg) ==> covered(spans, k),
{
    let spans = lemma_spans_grow(s, cfg);
    assert forall|w: int| 0 <= w < spans.len() implies {
        &&& is_span(s, cfg, (#[trigger] spans[w]).0, spans[w].1)
        &&& words(s, cfg)[w] == rendered(s.subrange(spans[w].0, spans[w].1), cfg)
        &&& boundaries(s.take(spans[w].0 + 1), cfg) == w
        &&& w + 1 < spans.len() ==> spans[w].1 <= spans[w + 1].0
    } by {
        assert(span_fits(s, cfg, spans, w));
    }
    spans
}

/// Every whole stretch of a token is the stretch of one of its words: the
/// word whose index is the number of boundaries up to the first character.
pub proof fn lemma_span_is_word(s: Seq<char>, cfg: Configuration, i: int, j: int) -> (w: int)
    requires
        is_span(s, cfg, i, j),
    ensures
        0 <= w < words(s, cfg).len(),
        w == boundaries(s.take(i + 1), cfg),
        words(s, cfg)[w] == rendered(s.subrange(i, j), cfg),
{
    let spans = lemma_words_are_spans(s, cfg);
    // The stretch that holds `i` begins at `i`, where a word begins, and ends
    // at `j`, where neither stretch can be continued.
    choose|w: int| 0 <= w < spans.len() && (#[trigger] spans[w]).0 <= i < spans[w].1
}

/// Whether a text is the English name of a digit.
pub open spec fn is_digit_name(w: Seq<char>) -> bool {
    exists|d: int| 0 <= d <= 9 && w == #[trigger] digit_name(d)
}

/// Whether the word that begins at position `i` of the token is within the
/// limit on the number of words.
pub open spec fn within_limit(s: Seq<char>, cfg: Configuration, i: int) -> bool {
    cfg.max_words == 0 || boundaries(s.take(i + 1), cfg) < cfg.max_words
}

/// Where digits are left out, no word of the output is the name of a digit,
/// but for the tokens that spell such a name in letters, as a whole word
/// within the limit.
pub proof fn lemma_output_without_digit_names(s: Seq<char>, cfg: Configuration)
    requires
        !cfg.include_digits,
        forall|i: int, j: int|
            #[trigger] is_span(s, cfg, i, j) && within_limit(s, cfg, i) ==> !is_digit_name(
                s.subrange(i, j),
            ),
    ensures
        forall|w: int|
            0 <= w < text_words(split_text(s, cfg)).len() ==> !is_digit_name(
                #[trigger] text_words(split_text(s, cfg))[w],
            ),
{
    lemma_output_text_words(s, cfg);
    let spans = lemma_words_are_spans(s, cfg);
    let out = limited(words(s, cfg), cfg.max_words);
    assert forall|w: int| 0 <= w < out.len() implies !is_digit_name(#[trigger] out[w]) by {
        let i = spans[w].0;
        let j = spans[w].1;
        let x = s.subrange(i, j);
        lemma_rendered_plain(x, cfg);
    }
}

/// The tokens that spell the name of a digit in letters, as a whole word
/// within the limit, have that name as a word of their output.
pub proof fn lemma_output_with_digit_name(s: Seq<char>, cfg: Configuration, i: int, j: int)
    requires
        !cfg.include_digits,
        is_span(s, cfg, i, j),
        within_limit(s, cfg, i),
        is_digit_name(s.subrange(i, j)),
    ensures
        exists|w: int|
            0 <= w < text_words(split_text(s, cfg)).len() && is_digit_name(
                #[trigger] text_words(split_text(s, cfg))[w],
            ),
{
    lemma_output_text_words(s, cfg);
    let w = lemma_span_is_word(s, cfg, i, j);
    let x = s.subrange(i, j);
    lemma_rendered_plain(x, cfg);
    assert(is_digit_name(text_words(split_text(s, cfg))[w]));
}

} // verus!
