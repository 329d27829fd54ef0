//! Extraction of structured lexical entries from the result page of a
//! dictionary website.
//!
//! The core is a stateful classifier: given a plain-data model of the
//! page's results container, it decides between the found, not-found and
//! ambiguous outcomes and, on the found path, folds the entry blocks
//! paragraph by paragraph into a nested, lexicographically ordered map.

pub mod builder;
pub mod classify;
pub mod codec;
pub mod dict;
pub mod laws;
pub mod model;
pub mod page;
pub mod search;
pub mod text;
