//! A reducer for combinatory logic: the `I`, `K`, `S` calculus with free
//! variables and bracket abstraction, reduced outermost-leftmost over a
//! hash-consed term store.
//!
//! `expr` states the calculus on terms as trees; everything else is held to
//! it. `store` keeps one entry for each term that occurs, `classify` tells
//! whether a term can be rewritten, `reduce` rewrites, `collect` removes what
//! is no longer reached, `parse` and `render` go between terms and text, and
//! `session` carries out the commands of the line protocol.

pub mod expr;
pub mod term;
pub mod arena;
pub mod tables;
pub mod store;
pub mod classify;
pub mod reach;
pub mod reduce;
pub mod collect;
pub mod parse;
pub mod render;
pub mod position;
pub mod session;
