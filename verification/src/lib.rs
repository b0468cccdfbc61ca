//! A small Forth-like stack language with stack-effect inference.
//!
//! The crate provides a tokenizer, a stack-effect calculus (parsing,
//! equivalence and chaining of effects by unification on an abstract stack),
//! an interpreter with modules, compile mode and user-defined words, and a
//! standard library of words.

pub mod errors;
pub mod error;
pub mod text;

pub mod parsing;

pub mod stack_effect;
pub mod abstract_stack;
pub mod stack_effects;
pub mod effect_names;
pub mod chaining;
pub mod effect_eq;
pub mod effect_text;
pub mod objects;
pub mod dictionary;
pub mod module;
pub mod scope;
pub mod object_factory;
pub mod state;
pub mod vm;
pub mod builtins;
pub mod interp;
pub mod words;
pub mod testing;
pub mod timing;
