//! The mathematical model of a split: which characters are kept, where words
//! begin, and how the words are joined into the output text.

use vstd::prelude::*;
use crate::charset::{digit_name, digit_value, is_digit, is_letter, is_upper};
use crate::config::Configuration;

verus! {

/// Whether a character contributes to the output: letters always, digits when
/// they are included, separators never.
pub open spec fn kept(c: char, cfg: Configuration) -> bool {
    is_letter(c) || (is_digit(c) && cfg.include_digits)
}

/// Whether the kept character at position `i` begins a new word, judged
/// against the character just before it.
///
/// A letter begins a word when it is a capital or when it does not follow a
/// letter. A digit begins a word when digits are spoken, or when it does not
/// follow a digit.
pub open spec fn opens_word(s: Seq<char>, i: int, cfg: Configuration) -> bool
    recommends
        0 <= i < s.len(),
{
    if is_digit(s[i]) {
        cfg.spell_digits || i == 0 || !is_digit(s[i - 1])
    } else {
        i == 0 || !is_letter(s[i - 1]) || is_upper(s[i])
    }
}

/// What a kept character writes into its word.
pub open spec fn rendering(c: char, cfg: Configuration) -> Seq<char> {
    if is_digit(c) && cfg.spell_digits {
        digit_name(digit_value(c))
    } else {
        seq![c]
    }
}

/// The words of a token, before any limit is applied.
pub open spec fn words(s: Seq<char>, cfg: Configuration) -> Seq<Seq<char>>
    decreases s.len(),
{
    if s.len() == 0 {
        Seq::empty()
    } else {
        let i = s.len() - 1;
        let before = words(s.drop_last(), cfg);
        if !kept(s[i], cfg) {
            before
        } else if before.len() == 0 || opens_word(s, i, cfg) {
            before.push(rendering(s[i], cfg))
        } else {
            before.drop_last().push(before.last() + rendering(s[i], cfg))
        }
    }
}

/// The first `max_words` words, or all of them when `max_words` is zero.
pub open spec fn limited(ws: Seq<Seq<char>>, max_words: usize) -> Seq<Seq<char>> {
    if max_words == 0 || ws.len() <= max_words {
        ws
    } else {
        ws.take(max_words as int)
    }
}

/// The words written one after another with a single space between neighbours.
pub open spec fn joined(ws: Seq<Seq<char>>) -> Seq<char>
    decreases ws.len(),
{
    if ws.len() == 0 {
        Seq::empty()
    } else if ws.len() == 1 {
        ws[0]
    } else {
        joined(ws.drop_last()) + seq![' '] + ws.last()
    }
}

/// The output text of a split.
pub open spec fn split_text(s: Seq<char>, cfg: Configuration) -> Seq<char> {
    joined(limited(words(s, cfg), cfg.max_words))
}

/// Reading one more character of `s` changes the words of the prefix read so
/// far by at most its last word.
pub proof fn lemma_words_step(s: Seq<char>, cfg: Configuration, n: int)
    requires
        0 <= n < s.len(),
    ensures
        words(s.take(n + 1), cfg) == ({
            let before = words(s.take(n), cfg);
            if !kept(s[n], cfg) {
                before
            } else if before.len() == 0 || opens_word(s, n, cfg) {
                before.push(rendering(s[n], cfg))
            } else {
                before.drop_last().push(before.last() + rendering(s[n], cfg))
            }
        }),
{
    assert(s.take(n + 1).drop_last() =~= s.take(n));
}

/// The words of a prefix, but for the last of them, are words of the whole.
pub proof fn lemma_words_prefix(s: Seq<char>, cfg: Configuration, n: int)
    requires
        0 <= n <= s.len(),
    ensures
        words(s.take(n), cfg).len() <= words(s, cfg).len(),
        forall|k: int|
            0 <= k < words(s.take(n), cfg).len() ==> words(s, cfg).take(k) == words(
                s.take(n),
                cfg,
            ).take(k),
    decreases s.len(),
{
    if n == s.len() {
        assert(s.take(n) =~= s);
    } else {
        let t = s.drop_last();
        lemma_words_prefix(t, cfg, n);
        assert(t.take(n) =~= s.take(n));
        let before = words(t, cfg);
        assert forall|k: int| 0 <= k < words(s.take(n), cfg).len() implies words(s, cfg).take(k)
            == words(s.take(n), cfg).take(k) by {
            assert(words(s, cfg).take(k) =~= before.take(k));
        }
    }
}

/// Joining after a further word is appended.
pub proof fn lemma_joined_push(ws: Seq<Seq<char>>, w: Seq<char>)
    ensures
        joined(ws.push(w)) == if ws.len() == 0 {
            w
        } else {
            joined(ws) + seq![' '] + w
        },
{
    assert(ws.push(w).drop_last() =~= ws);
}

/// Joining after the last word has grown by `tail`.
pub proof fn lemma_joined_grow_last(ws: Seq<Seq<char>>, tail: Seq<char>)
    requires
        ws.len() > 0,
    ensures
        joined(ws.drop_last().push(ws.last() + tail)) == joined(ws) + tail,
{
    let grown = ws.drop_last().push(ws.last() + tail);
    assert(grown.drop_last() =~= ws.drop_last());
}

} // verus!
