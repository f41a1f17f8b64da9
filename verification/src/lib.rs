//! Deterministic finite automata for regular expressions with anchors and
//! lookaround, built from combinators and verified with Verus.
//!
//! A pattern is a tree of the combinators of [`regex`]. A tree without anchors
//! and lookaround is a deterministic automaton as it stands ([`Dfa`]); any
//! tree is a three-phase automaton ([`ThreeFA`]), which [`ToDfa`] runs as a
//! deterministic one. On a deterministic automaton one can
//!
//! - run an input: [`matches::matches`];
//! - decide whether it accepts nothing, or the same as another: [`is_empty`], [`equal`];
//! - bake it into a transition table: [`bake_dfa`];
//! - write it down as a pattern: [`to_regex`], [`try_to_regex`].
//!
//! What the automata accept is stated in [`algebra`], for the deterministic
//! combinators, and in [`spans`], for the three-phase ones.
pub mod finite;
pub mod sorted;
pub mod ordset;
pub mod ordmap;
pub mod regex;
pub mod dfa;
pub mod threefa;
pub mod matches;
pub mod algebra;
pub mod spans;
pub mod equal;
pub mod to_regex;
pub mod pattern;
pub mod elimination;
pub mod bake_dfa;

pub use finite::{Finite, Order};
pub use ordset::OrdSet;
pub use ordmap::OrdMap;
pub use regex::{
    And,
    Anything,
    Concat,
    Dot,
    Empty,
    End,
    FromDfa,
    Iff,
    LookAhead,
    LookBehind,
    Not,
    Or,
    Plus,
    Start,
    ToDfa,
};
pub use dfa::Dfa;
pub use threefa::ThreeFA;
pub use bake_dfa::{BakedDfa, bake_dfa};
pub use to_regex::{to_regex, try_to_regex};
pub use equal::{equal, is_empty};
