//! A static full-text search library over JSON-shaped documents.
//!
//! - `normalize`: the normalized form in which values are indexed and terms
//!   are looked up.
//! - `parser` and `query`: the query grammar, its trees, their text and the
//!   `simplify` pass.
//! - `util` and `tree`: attribute paths, their levels and their tree.
//! - `walk` and `index`: documents as values, the walk of a path through
//!   them, and the full-text and boost indices built from it.
//! - `dictionary`: the term dictionary (a finite-state transducer) and its
//!   exact, fuzzy and prefix searches.
//! - `columns`, `codec` and `create`: id-to-parent join columns, their byte
//!   form, and the edges they are built from.
//! - `search`: the score-free parts of a search.
//! - `bits`: single-bit helpers.

pub mod bits;
pub mod text;
pub mod util;
pub mod codec;
pub mod columns;
pub mod packed;
pub mod create;
pub mod query;
pub mod parser;
pub mod normalize;
pub mod dictionary;
pub mod search;
pub mod tree;
pub mod walk;
pub mod index;
