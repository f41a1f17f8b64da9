//! Patterns as they come out of state elimination, and what they mean.
//!
//! A pattern is built from symbols by alternation and by bypassing a state:
//! entering it, going round its loop any number of times, and leaving it. Each
//! pattern has a text, which is what is written down, and a language, which is
//! the set of the words that it matches.
use vstd::prelude::*;
use crate::to_regex::{symbol_text, either, bypass};

verus! {

/// A pattern, as state elimination builds it.
pub enum Pattern {
    /// Matches the empty word only.
    Blank,
    /// Matches the one symbol.
    Symbol(u8),
    /// Matches what either of the two matches.
    Either(Box<Pattern>, Box<Pattern>),
    /// Matches a word of the first followed by a word of the second.
    Through(Box<Pattern>, Box<Pattern>),
    /// Matches a word of the first, then any number of words of the second,
    /// then a word of the third.
    Around(Box<Pattern>, Box<Pattern>, Box<Pattern>),
}

/// The text of a pattern.
pub open spec fn written(e: Pattern) -> Seq<char>
    decreases e,
{
    match e {
        Pattern::Blank => Seq::empty(),
        Pattern::Symbol(c) => symbol_text(c),
        Pattern::Either(a, b) => either(written(*a), written(*b)),
        Pattern::Through(a, b) => bypass(written(*a), None, written(*b)),
        Pattern::Around(a, l, b) => bypass(written(*a), Some(written(*l)), written(*b)),
    }
}

/// Whether the pattern `e` matches the word `w`.
pub open spec fn matched(e: Pattern, w: Seq<u8>) -> bool
    decreases e, 0nat, w.len(),
{
    match e {
        Pattern::Blank => w.len() == 0,
        Pattern::Symbol(c) => w == seq![c],
        Pattern::Either(a, b) => matched(*a, w) || matched(*b, w),
        Pattern::Through(a, b) => exists|i: int|
            0 <= i <= w.len() && matched(*a, w.take(i)) && matched(*b, #[trigger] w.skip(i)),
        Pattern::Around(a, l, b) => exists|i: int, j: int|
            0 <= i <= j <= w.len() && matched(*a, w.take(i)) && repeated(
                *l,
                #[trigger] w.subrange(i, j),
            ) && matched(*b, w.skip(j)),
    }
}

/// Whether `w` consists of any number of words that `e` matches.
pub open spec fn repeated(e: Pattern, w: Seq<u8>) -> bool
    decreases e, 1nat, w.len(),
{
    w.len() == 0 || exists|k: int|
        0 < k <= w.len() && matched(e, #[trigger] w.take(k)) && repeated(e, w.skip(k))
}

} // verus!
