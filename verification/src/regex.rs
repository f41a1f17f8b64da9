//! The combinators from which patterns are built.
//!
//! Each combinator is a plain value that owns its operands. What it means as an
//! automaton is given by its implementations of [`crate::Dfa`] and
//! [`crate::ThreeFA`].
use vstd::prelude::*;

verus! {

/// Complement.
#[derive(Debug, Clone, Copy)]
pub struct Not<A>(pub A);

/// Alternation.
#[derive(Debug, Clone, Copy)]
pub struct Or<A, B>(pub A, pub B);

/// Intersection.
#[derive(Debug, Clone, Copy)]
pub struct And<A, B>(pub A, pub B);

/// Biconditional: accepts where both operands agree.
#[derive(Debug, Clone, Copy)]
pub struct Iff<A, B>(pub A, pub B);

/// Concatenation.
#[derive(Debug, Clone, Copy)]
pub struct Concat<A, B>(pub A, pub B);

/// The empty word and nothing else.
#[derive(Debug, Clone, Copy)]
pub struct Empty;

/// Every word.
#[derive(Debug, Clone, Copy)]
pub struct Anything;

/// Any single symbol.
#[derive(Debug, Clone, Copy)]
pub struct Dot;

/// One or more repetitions.
#[derive(Debug, Clone, Copy)]
pub struct Plus<A>(pub A);

/// Anchor: the match begins where the input begins.
#[derive(Debug, Clone, Copy)]
pub struct Start;

/// Anchor: the match ends where the input ends.
#[derive(Debug, Clone, Copy)]
pub struct End;

/// Zero-width assertion on what follows the match position.
#[derive(Debug, Clone, Copy)]
pub struct LookAhead<A>(pub A);

/// Runs a three-phase automaton as a deterministic one.
#[derive(Debug, Clone, Copy)]
pub struct ToDfa<A>(pub A);

/// Zero-width assertion on what precedes the match position.
#[derive(Debug, Clone, Copy)]
pub struct LookBehind<A>(pub A);

/// Lifts a deterministic automaton into a three-phase one.
#[derive(Debug, Clone, Copy)]
pub struct FromDfa<A>(pub A);

} // verus!
