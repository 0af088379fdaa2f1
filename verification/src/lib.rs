//! A small language for computing with discrete probability distributions,
//! made for the arithmetic of dice: `2d6 + 3` is the distribution of two
//! six-sided dice and three more.
//!
//! A source line is cut into tokens ([`ptokens`]), its brackets are resolved
//! and what is left is parsed into a syntax tree ([`parse`], [`symbols`]).
//! The tree is checked against a structural type system ([`type_info`],
//! [`typing`]) and evaluated in an environment of bindings ([`eval`],
//! [`env`]), where function values point to native operations
//! ([`operations`], [`std_imports`]) on distributions ([`distr`]).
//! [`session`] takes one line all the way. Failures of every step are values
//! of one type ([`error`]).
//!
//! Every executable function is proved to do what its contract says, and the
//! contracts are stated over mathematical models of the data: a distribution
//! is a sequence of outcomes with exact weights, a syntax tree a tree of
//! sequences, an environment a map.

pub mod distr;
pub mod env;
pub mod error;
pub mod eval;
pub mod operations;
pub mod parse;
pub mod ptokens;
pub mod session;
pub mod std_imports;
pub mod symbols;
pub mod text;
pub mod type_info;
pub mod typing;
pub mod util;
pub mod walk;

pub use session::parse_analyze_evaluate;
