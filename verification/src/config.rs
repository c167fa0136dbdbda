//! The options that steer a split.

use vstd::prelude::*;

verus! {

/// How digits are treated and how many words a split may produce.
#[derive(Clone, Copy, Debug, PartialEq, Eq)]
pub struct Configuration {
    /// Whether digits contribute to the output at all.
    pub include_digits: bool,
    /// Whether an included digit is written as its English name rather than as itself.
    pub spell_digits: bool,
    /// The largest number of words in the output; zero means no limit.
    pub max_words: usize,
}

impl Configuration {
    /// A configuration with the three options as given.
    pub fn new(include_digits: bool, spell_digits: bool, max_words: usize) -> (cfg: Self)
        ensures
            cfg == (Configuration { include_digits, spell_digits, max_words }),
    {
        Configuration { include_digits, spell_digits, max_words }
    }
}

impl Default for Configuration {
    /// Digits are kept and spoken, and the number of words is not limited.
    fn default() -> (cfg: Self)
        ensures
            cfg == (Configuration { include_digits: true, spell_digits: true, max_words: 0 }),
    {
        Configuration { include_digits: true, spell_digits: true, max_words: 0 }
    }
}

} // verus!
