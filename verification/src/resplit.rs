//! Splitting what a split has written: the output is a token that splits
//! into itself.

use vstd::prelude::*;
use crate::charset::{digit_value, is_digit, is_separator, lemma_digit_name_lower};
use crate::config::Configuration;
use crate::laws::{is_word, writable};
use crate::words::{joined, kept, limited, opens_word, rendering, split_text, words};

verus! {

/// A word in which no further word begins when it is scanned by itself.
pub open spec fn is_tight(w: Seq<char>, cfg: Configuration) -> bool {
    &&& is_word(w, cfg)
    &&& forall|k: int| 0 < k < w.len() ==> !#[trigger] opens_word(w, k, cfg)
}

/// Every word in the list is tight.
pub open spec fn all_tight(ws: Seq<Seq<char>>, cfg: Configuration) -> bool {
    forall|k: int| 0 <= k < ws.len() ==> is_tight(#[trigger] ws[k], cfg)
}

/// What a kept character writes is a tight word.
proof fn lemma_rendering_is_tight(c: char, cfg: Configuration)
    requires
        kept(c, cfg),
    ensures
        is_tight(rendering(c, cfg), cfg),
        writable(c, cfg) ==> rendering(c, cfg) == seq![c],
{
    if is_digit(c) && cfg.spell_digits {
        lemma_digit_name_lower(digit_value(c));
    }
}

/// Every word of a token is tight, and ends in the last character of the
/// token where that character writes itself.
proof fn lemma_words_are_tight(s: Seq<char>, cfg: Configuration)
    ensures
        all_tight(words(s, cfg), cfg),
        s.len() > 0 && writable(s.last(), cfg) ==> words(s, cfg).len() > 0 && words(
            s,
            cfg,
        ).last().last() == s.last(),
    decreases s.len(),
{
    if s.len() > 0 {
        let n = s.len() - 1;
        let c = s[n];
        let t = s.drop_last();
        let before = words(t, cfg);
        lemma_words_are_tight(t, cfg);
        if kept(c, cfg) {
            lemma_rendering_is_tight(c, cfg);
            if before.len() > 0 && !opens_word(s, n, cfg) {
                // The last word ends in the character before `c`, so that no
                // word begins where `c` is added to it.
                let w = before.last();
                let grown = w + seq![c];
                assert forall|k: int| 0 < k < grown.len() implies !#[trigger] opens_word(
                    grown,
                    k,
                    cfg,
                ) by {
                    if k < w.len() {
                        assert(!opens_word(w, k, cfg));
                    }
                }
            }
        }
    }
}

/// A separator at the end of a token adds nothing to its words.
proof fn lemma_words_after_separator(t: Seq<char>, c: char, cfg: Configuration)
    requires
        is_separator(c),
    ensures
        words(t.push(c), cfg) == words(t, cfg),
{
    assert(t.push(c).drop_last() =~= t);
}

/// A tight word written behind a separator, or at the start, is the last
/// word of the token.
proof fn lemma_words_after_tight(t: Seq<char>, w: Seq<char>, cfg: Configuration)
    requires
        is_tight(w, cfg),
        t.len() == 0 || is_separator(t.last()),
    ensures
        words(t + w, cfg) == words(t, cfg).push(w),
    decreases w.len(),
{
    let c = w.last();
    let v = w.drop_last();
    assert((t + w).drop_last() =~= t + v);
    if v.len() == 0 {
        assert(w =~= seq![c]);
    } else {
        assert(is_tight(v, cfg)) by {
            assert forall|k: int| 0 < k < v.len() implies !#[trigger] opens_word(v, k, cfg) by {
                assert(!opens_word(w, k, cfg));
            }
        }
        lemma_words_after_tight(t, v, cfg);
        assert(!opens_word(w, v.len() as int, cfg));
        assert(v + seq![c] =~= w);
    }
}

/// The joined text of tight words splits into those words.
proof fn lemma_words_of_joined(ws: Seq<Seq<char>>, cfg: Configuration)
    requires
        all_tight(ws, cfg),
    ensures
        words(joined(ws), cfg) == ws,
    decreases ws.len(),
{
    if ws.len() == 1 {
        lemma_words_after_tight(Seq::empty(), ws[0], cfg);
    } else if ws.len() > 1 {
        let head = ws.drop_last();
        lemma_words_of_joined(head, cfg);
        let spaced = joined(head).push(' ');
        assert(spaced =~= joined(head) + seq![' ']);
        lemma_words_after_separator(joined(head), ' ', cfg);
        lemma_words_after_tight(spaced, ws.last(), cfg);
    }
}

/// Splitting the output of a split once more, with the same configuration,
/// finds the same words and writes the same text.
pub proof fn lemma_split_idempotent(s: Seq<char>, cfg: Configuration)
    ensures
        words(split_text(s, cfg), cfg) == limited(words(s, cfg), cfg.max_words),
        split_text(split_text(s, cfg), cfg) == split_text(s, cfg),
{
    lemma_words_are_tight(s, cfg);
    lemma_words_of_joined(limited(words(s, cfg), cfg.max_words), cfg);
}

} // verus!
