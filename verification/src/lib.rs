//! Small verified interpreters for a family of lambda-calculus-based
//! languages: boolean/numeric arithmetic terms, an untyped variant of the
//! same, and a simply-typed lambda calculus with booleans, conditionals,
//! ascription, let-binding, tuples and records.
//!
//! Terms are immutable trees; evaluation never mutates a term, it builds new
//! trees that share nothing with the input. Variables of the typed calculus
//! are de Bruijn indices; substitution under binders goes through the usual
//! shift / substitute / shift sequence, and its correctness properties are
//! proved here rather than assumed.
pub mod arith;
pub mod basics;
pub mod meta;
pub mod named;
pub mod sem;
pub mod term;
pub mod ty;
pub mod untyped;
