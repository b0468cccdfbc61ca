//! Stack effects as graphs of elements that unification rewrites in place:
//! an element that is found to stand for a more specific one becomes a
//! sequence holding that one. Effects may refer to themselves, as in
//! `(..a f(..a f -- ) -- )`.
pub mod element;
pub mod scratchpad;
pub mod sequence;
pub mod effect;
pub mod parser;
pub mod astack;
pub mod display;
