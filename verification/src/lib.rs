//! Rich-text paragraph layout, verified.
//!
//! The crate turns styled text into a paragraph of lines. Its three parts:
//!
//! - Style resolution ([`resolve`]): properties that are pushed over byte
//!   ranges of the text ([`resolve::range`]) or as a tree of spans
//!   ([`resolve::tree`]) are flattened to a sequence of ranged styles that
//!   covers the text.
//! - Line breaking ([`layout::line::greedy`]): a greedy breaker walks the
//!   shaped runs and clusters and commits line after line; the last line can
//!   be reverted. What a call does is said in [`layout::line::step`], what
//!   holds between calls in [`layout::line::consistency`] (and is tested by
//!   [`layout::line::validity`]), and what follows in
//!   [`layout::line::laws`].
//! - Line finalization ([`layout::line::finalize`]): whitespace, metrics,
//!   visual order ([`layout::line::reorder`]), alignment and justification
//!   ([`layout::line::justify`]).
//!
//! Text analysis and shaping are the caller's: [`builder`] prepares a layout
//! for the shaper and completes it behind the shaper.
//!
//! All coordinates are in fixed-point layout units; see [`units`].

pub mod builder;
pub mod context;
pub mod font;
pub mod layout;
pub mod resolve;
pub mod span;
pub mod style;
pub mod units;
