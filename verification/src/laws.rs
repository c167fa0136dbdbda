//! What holds of every split: the shape of the output text, the number of its
//! words, and what becomes of digits.

use vstd::prelude::*;
use crate::charset::{digit_value, is_digit, is_letter, is_separator, lemma_digit_name_lower};
use crate::config::Configuration;
use crate::words::{joined, kept, limited, opens_word, rendering, split_text, words};

verus! {

/// A text without a space at either end and without two spaces in a row.
pub open spec fn well_spaced(t: Seq<char>) -> bool {
    &&& t.len() > 0 ==> t[0] != ' ' && t[t.len() - 1] != ' '
    &&& forall|i: int| 0 <= i < t.len() - 1 ==> !(t[i] == ' ' && #[trigger] t[i + 1] == ' ')
}

/// The maximal runs of letters and digits in a text: what is left when the
/// text is cut at its separators, and at nothing else.
pub open spec fn text_words(t: Seq<char>) -> Seq<Seq<char>>
    decreases t.len(),
{
    if t.len() == 0 {
        Seq::empty()
    } else {
        let c = t.last();
        let before = text_words(t.drop_last());
        if is_separator(c) {
            before
        } else if t.len() == 1 || is_separator(t[t.len() - 2]) {
            before.push(seq![c])
        } else {
            before.drop_last().push(before.last() + seq![c])
        }
    }
}

/// The number of words in a text.
pub open spec fn word_count(t: Seq<char>) -> nat {
    text_words(t).len()
}

/// Whether any character of the text is kept.
pub open spec fn has_kept(s: Seq<char>, cfg: Configuration) -> bool {
    exists|j: int| 0 <= j < s.len() && kept(#[trigger] s[j], cfg)
}

/// Whether the scan of `s` puts a space in front of the character at `i`: the
/// character is kept, begins a word, and is not the first one kept.
pub open spec fn writes_space(s: Seq<char>, i: int, cfg: Configuration) -> bool
    recommends
        0 <= i < s.len(),
{
    kept(s[i], cfg) && opens_word(s, i, cfg) && has_kept(s.take(i), cfg)
}

/// The number of boundaries in a token: the positions in front of which the
/// scan puts a space.
pub open spec fn boundaries(s: Seq<char>, cfg: Configuration) -> nat
    decreases s.len(),
{
    if s.len() == 0 {
        0
    } else {
        let inner = boundaries(s.drop_last(), cfg);
        if writes_space(s, s.len() - 1, cfg) {
            inner + 1
        } else {
            inner
        }
    }
}

/// What a split can write into a word: a letter, or a digit where digits are
/// included and not spoken.
pub open spec fn writable(c: char, cfg: Configuration) -> bool {
    is_letter(c) || (is_digit(c) && cfg.include_digits && !cfg.spell_digits)
}

/// A word as a split produces it: not empty, and made of writable characters.
pub open spec fn is_word(w: Seq<char>, cfg: Configuration) -> bool {
    &&& w.len() > 0
    &&& forall|j: int| 0 <= j < w.len() ==> writable(#[trigger] w[j], cfg)
}

/// Every word in the list is one.
pub open spec fn all_words(ws: Seq<Seq<char>>, cfg: Configuration) -> bool {
    forall|k: int| 0 <= k < ws.len() ==> is_word(#[trigger] ws[k], cfg)
}

/// What a kept character writes is a word.
pub proof fn lemma_rendering_is_word(c: char, cfg: Configuration)
    requires
        kept(c, cfg),
    ensures
        is_word(rendering(c, cfg), cfg),
{
    if is_digit(c) && cfg.spell_digits {
        lemma_digit_name_lower(digit_value(c));
    }
}

/// Every word of a token is not empty and holds writable characters only.
pub proof fn lemma_words_are_words(s: Seq<char>, cfg: Configuration)
    ensures
        all_words(words(s, cfg), cfg),
    decreases s.len(),
{
    if s.len() > 0 {
        lemma_words_are_words(s.drop_last(), cfg);
        if kept(s.last(), cfg) {
            lemma_rendering_is_word(s.last(), cfg);
        }
    }
}

/// A limit keeps words words.
pub proof fn lemma_limited_words(ws: Seq<Seq<char>>, cfg: Configuration, max_words: usize)
    requires
        all_words(ws, cfg),
    ensures
        all_words(limited(ws, max_words), cfg),
        limited(ws, max_words).len() <= ws.len(),
        max_words > 0 ==> limited(ws, max_words).len() <= max_words,
{
}

/// The text joined from words is empty only for no words, holds nothing but
/// their characters and single spaces, and is well spaced.
pub proof fn lemma_joined_shape(ws: Seq<Seq<char>>, cfg: Configuration)
    requires
        all_words(ws, cfg),
    ensures
        (joined(ws).len() > 0) == (ws.len() > 0),
        forall|i: int|
            0 <= i < joined(ws).len() ==> #[trigger] joined(ws)[i] == ' ' || writable(
                joined(ws)[i],
                cfg,
            ),
        well_spaced(joined(ws)),
    decreases ws.len(),
{
    if ws.len() > 1 {
        lemma_joined_shape(ws.drop_last(), cfg);
    }
}

/// Cutting a text at its separators: a separator at the end adds nothing.
proof fn lemma_text_words_after_separator(t: Seq<char>, c: char)
    requires
        is_separator(c),
    ensures
        text_words(t.push(c)) == text_words(t),
{
    assert(t.push(c).drop_last() =~= t);
}

/// Cutting a text at its separators: a word written behind a separator, or at
/// the start, is found again as the last token.
proof fn lemma_text_words_after_word(t: Seq<char>, w: Seq<char>, cfg: Configuration)
    requires
        is_word(w, cfg),
        t.len() == 0 || is_separator(t.last()),
    ensures
        text_words(t + w) == text_words(t).push(w),
    decreases w.len(),
{
    let c = w.last();
    let v = w.drop_last();
    assert((t + w).drop_last() =~= t + v);
    if v.len() == 0 {
        assert(w =~= seq![c]);
    } else {
        lemma_text_words_after_word(t, v, cfg);
        assert(v + seq![c] =~= w);
    }
}

/// Cutting the joined text at its separators gives the words back.
pub proof fn lemma_text_words_of_joined(ws: Seq<Seq<char>>, cfg: Configuration)
    requires
        all_words(ws, cfg),
    ensures
        text_words(joined(ws)) == ws,
    decreases ws.len(),
{
    if ws.len() == 1 {
        lemma_text_words_after_word(Seq::empty(), ws[0], cfg);
    } else if ws.len() > 1 {
        let head = ws.drop_last();
        lemma_text_words_of_joined(head, cfg);
        let spaced = joined(head).push(' ');
        assert(spaced =~= joined(head) + seq![' ']);
        lemma_text_words_after_separator(joined(head), ' ');
        lemma_text_words_after_word(spaced, ws.last(), cfg);
    }
}

/// A token has one word more than it has boundaries, unless nothing of it is kept.
pub proof fn lemma_words_count(s: Seq<char>, cfg: Configuration)
    ensures
        has_kept(s, cfg) ==> words(s, cfg).len() == boundaries(s, cfg) + 1,
        !has_kept(s, cfg) ==> words(s, cfg).len() == 0 && boundaries(s, cfg) == 0,
    decreases s.len(),
{
    if s.len() > 0 {
        let i = s.len() - 1;
        let t = s.drop_last();
        lemma_words_count(t, cfg);
        if has_kept(t, cfg) {
            let j = choose|j: int| 0 <= j < t.len() && kept(#[trigger] t[j], cfg);
        }
        if kept(s[i], cfg) {
        } else if has_kept(s, cfg) {
            let j = choose|j: int| 0 <= j < s.len() && kept(#[trigger] s[j], cfg);
            assert(kept(t[j], cfg));
        }
    }
}

/// The output has no space at either end and no two spaces in a row.
pub proof fn lemma_output_well_spaced(s: Seq<char>, cfg: Configuration)
    ensures
        well_spaced(split_text(s, cfg)),
{
    lemma_words_are_words(s, cfg);
    lemma_limited_words(words(s, cfg), cfg, cfg.max_words);
    lemma_joined_shape(limited(words(s, cfg), cfg.max_words), cfg);
}

/// Cutting the output at its separators, and nowhere else, gives back the
/// very words that the split produced.
pub proof fn lemma_output_text_words(s: Seq<char>, cfg: Configuration)
    ensures
        text_words(split_text(s, cfg)) == limited(words(s, cfg), cfg.max_words),
{
    lemma_words_are_words(s, cfg);
    lemma_limited_words(words(s, cfg), cfg, cfg.max_words);
    lemma_text_words_of_joined(limited(words(s, cfg), cfg.max_words), cfg);
}

/// Without a limit, the output has one word more than the token has
/// boundaries, and none where the output is empty.
pub proof fn lemma_output_word_count(s: Seq<char>, cfg: Configuration)
    requires
        cfg.max_words == 0,
    ensures
        word_count(split_text(s, cfg)) == if split_text(s, cfg).len() > 0 {
            boundaries(s, cfg) + 1
        } else {
            0
        },
{
    lemma_output_text_words(s, cfg);
    lemma_words_are_words(s, cfg);
    lemma_joined_shape(words(s, cfg), cfg);
    lemma_words_count(s, cfg);
}

/// With a limit, the output has no more words than the limit.
pub proof fn lemma_output_word_limit(s: Seq<char>, cfg: Configuration)
    requires
        cfg.max_words > 0,
    ensures
        word_count(split_text(s, cfg)) <= cfg.max_words,
{
    lemma_output_text_words(s, cfg);
    lemma_words_are_words(s, cfg);
    lemma_limited_words(words(s, cfg), cfg, cfg.max_words);
}

/// The output holds spaces and writable characters only: no digit where
/// digits are left out or spoken.
pub proof fn lemma_output_characters(s: Seq<char>, cfg: Configuration)
    ensures
        forall|i: int|
            0 <= i < split_text(s, cfg).len() ==> #[trigger] split_text(s, cfg)[i] == ' '
                || writable(split_text(s, cfg)[i], cfg),
        !cfg.include_digits || cfg.spell_digits ==> forall|i: int|
            0 <= i < split_text(s, cfg).len() ==> !is_digit(#[trigger] split_text(s, cfg)[i]),
{
    lemma_words_are_words(s, cfg);
    lemma_limited_words(words(s, cfg), cfg, cfg.max_words);
    lemma_joined_shape(limited(words(s, cfg), cfg.max_words), cfg);
}

/// The token with a separator in the place of each digit.
pub open spec fn without_digits(s: Seq<char>) -> Seq<char> {
    s.map_values(|c: char| if is_digit(c) { '_' } else { c })
}

/// Where digits are left out, a digit does what a separator does: the words
/// are those of the token with a separator in the place of each digit,
/// whatever is then said of digits.
pub proof fn lemma_words_without_digits(s: Seq<char>, cfg: Configuration, other: Configuration)
    requires
        !cfg.include_digits,
    ensures
        words(s, cfg) == words(without_digits(s), other),
    decreases s.len(),
{
    if s.len() > 0 {
        let t = s.drop_last();
        lemma_words_without_digits(t, cfg, other);
        assert(without_digits(s).drop_last() =~= without_digits(t));
    }
}

/// Where digits are left out, the output is that of the token with a
/// separator in the place of each digit, under any configuration with the
/// same limit.
pub proof fn lemma_output_without_digits(s: Seq<char>, cfg: Configuration, other: Configuration)
    requires
        !cfg.include_digits,
        other.max_words == cfg.max_words,
    ensures
        split_text(s, cfg) == split_text(without_digits(s), other),
{
    lemma_words_without_digits(s, cfg, other);
}

/// Everything that holds of the output of every split, in one place.
pub proof fn lemma_output(s: Seq<char>, cfg: Configuration)
    ensures
        well_spaced(split_text(s, cfg)),
        text_words(split_text(s, cfg)) == limited(words(s, cfg), cfg.max_words),
        cfg.max_words == 0 ==> word_count(split_text(s, cfg)) == if split_text(s, cfg).len() > 0 {
            boundaries(s, cfg) + 1
        } else {
            0
        },
        cfg.max_words > 0 ==> word_count(split_text(s, cfg)) <= cfg.max_words,
        !cfg.include_digits ==> forall|i: int|
            0 <= i < split_text(s, cfg).len() ==> !is_digit(#[trigger] split_text(s, cfg)[i]),
{
    lemma_output_well_spaced(s, cfg);
    lemma_output_text_words(s, cfg);
    if cfg.max_words == 0 {
        lemma_output_word_count(s, cfg);
    } else {
        lemma_output_word_limit(s, cfg);
    }
    lemma_output_characters(s, cfg);
}

} // verus!
