//! The scanner that splits one token, and its element-wise application to many.

use vstd::prelude::*;
use crate::charset::{char_is_digit, char_is_letter, char_is_upper, spoken_number};
use crate::charset::{is_digit, is_separator};
use crate::config::Configuration;
use crate::laws::{boundaries, lemma_output, text_words, well_spaced, word_count};
use crate::words::{joined, kept, limited, rendering, split_text, words};
use crate::words::{lemma_joined_grow_last, lemma_joined_push, lemma_words_prefix, lemma_words_step};

verus! {

/// `String::push` appends the given character to the end of the string.
pub assume_specification[ String::push ](s: &mut String, ch: char)
    ensures
        final(s)@ == old(s)@.push(ch),
;

/// Splits one token into words joined by single spaces.
///
/// The token is read once, from left to right. Letters are copied; digits
/// are copied, spoken or left out, as the configuration says; everything
/// else separates words. The scan ends early where one more word would
/// exceed the limit.
pub fn split(token: &str, config: &Configuration) -> (out: String)
    ensures
        out@ == split_text(token@, *config),
        well_spaced(out@),
        text_words(out@) == limited(words(token@, *config), config.max_words),
        config.max_words == 0 ==> word_count(out@) == if out@.len() > 0 {
            boundaries(token@, *config) + 1
        } else {
            0
        },
        config.max_words > 0 ==> word_count(out@) <= config.max_words,
        !config.include_digits ==> forall|i: int|
            0 <= i < out@.len() ==> !is_digit(#[trigger] out@[i]),
{
    let bounded = config.max_words != 0;
    let mut out = String::new();
    // Whether a word has been begun, and how many more may be, if bounded.
    let mut started = false;
    let mut remaining: usize = config.max_words;
    // Whether a separator was passed since the last character written.
    let mut pending = false;
    let mut prev_numeric = false;
    let ghost s = token@;
    let ghost cfg = *config;
    let ghost mut n: int = 0;
    for c in it: token.chars()
        invariant
            it.seq() == s,
            s == token@,
            cfg == *config,
            bounded == (cfg.max_words != 0),
            n == it.index(),
            0 <= n <= s.len(),
            out@ == joined(words(s.take(n), cfg)),
            started == (words(s.take(n), cfg).len() > 0),
            bounded ==> remaining + words(s.take(n), cfg).len() == cfg.max_words,
            prev_numeric == (n > 0 && is_digit(s[n - 1])),
            pending ==> n > 0 && !kept(s[n - 1], cfg),
            n > 0 && is_separator(s[n - 1]) ==> pending,
    {
        let ghost before = words(s.take(n), cfg);
        proof {
            lemma_words_step(s, cfg, n);
        }
        let digit = char_is_digit(c);
        if char_is_letter(c) || (digit && config.include_digits) {
            let boundary = if digit {
                pending || config.spell_digits || !prev_numeric
            } else {
                pending || prev_numeric || char_is_upper(c)
            };
            if !started {
                started = true;
                if bounded {
                    remaining = remaining - 1;
                }
                proof {
                    lemma_joined_push(before, Seq::empty());
                }
            } else if boundary {
                if bounded {
                    if remaining == 0 {
                        proof {
                            lemma_words_prefix(s, cfg, n + 1);
                            assert(words(s.take(n + 1), cfg).take(cfg.max_words as int) =~= before);
                            lemma_output(s, cfg);
                        }
                        return out;
                    }
                    remaining = remaining - 1;
                }
                out.push(' ');
            }
            if digit && config.spell_digits {
                out.append(spoken_number(c));
            } else {
                out.push(c);
            }
            proof {
                let r = rendering(c, cfg);
                lemma_joined_push(before, r);
                if before.len() > 0 {
                    lemma_joined_grow_last(before, r);
                }
            }
            pending = false;
        } else if !digit {
            pending = true;
        }
        prev_numeric = digit;
        proof {
            n = n + 1;
        }
    }
    proof {
        assert(s.take(n) =~= s);
        lemma_output(s, cfg);
    }
    out
}

/// Splits every token of a list, each by itself and in the order given.
pub fn split_all(tokens: &[&str], config: &Configuration) -> (out: Vec<String>)
    ensures
        out.len() == tokens.len(),
        forall|i: int| 0 <= i < tokens.len() ==> (#[trigger] out[i])@ == split_text(tokens[i]@, *config),
{
    let mut out: Vec<String> = Vec::new();
    let mut i: usize = 0;
    while i < tokens.len()
        invariant
            i <= tokens.len(),
            out.len() == i,
            forall|j: int| 0 <= j < i ==> (#[trigger] out[j])@ == split_text(tokens[j]@, *config),
        decreases tokens.len() - i,
    {
        out.push(split(tokens[i], config));
        i += 1;
    }
    out
}

/// Splits one symbol, with the options given one by one.
pub fn split_symbol(symbol: &str, include_digits: bool, spell_digits: bool, max_words: usize) -> (out:
    String)
    ensures
        out@ == split_text(symbol@, (Configuration { include_digits, spell_digits, max_words })),
{
    split(symbol, &Configuration { include_digits, spell_digits, max_words })
}

/// Splits every symbol of a list, with the options given one by one.
pub fn split_symbols(
    symbols: Vec<&str>,
    include_digits: bool,
    spell_digits: bool,
    max_words: usize,
) -> (out: Vec<String>)
    ensures
        out.len() == symbols.len(),
        forall|i: int|
            0 <= i < symbols.len() ==> (#[trigger] out[i])@ == split_text(
                symbols[i]@,
                (Configuration { include_digits, spell_digits, max_words }),
            ),
{
    split_all(symbols.as_slice(), &Configuration { include_digits, spell_digits, max_words })
}

/// Splits one symbol and speaks its digits: `numbers` says whether digits
/// are kept, `max_len` limits the number of words unless it is zero.
pub fn _split_symbol(symbol: &str, numbers: bool, max_len: usize) -> (out: String)
    ensures
        out@ == split_text(
            symbol@,
            (Configuration { include_digits: numbers, spell_digits: true, max_words: max_len }),
        ),
{
    split_symbol(symbol, numbers, true, max_len)
}

/// Splits every symbol of a list and speaks their digits.
pub fn _split_list(symbols: Vec<&str>, numbers: bool, max_len: usize) -> (out: Vec<String>)
    ensures
        out.len() == symbols.len(),
        forall|i: int|
            0 <= i < symbols.len() ==> (#[trigger] out[i])@ == split_text(
                symbols[i]@,
                (Configuration { include_digits: numbers, spell_digits: true, max_words: max_len }),
            ),
{
    split_symbols(symbols, numbers, true, max_len)
}

} // verus!
