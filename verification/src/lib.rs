//! Spell checking built around approximate string matching.
//!
//! A [`dictionary::Dictionary`] holds the known words in sorted order. The
//! [`matcher`] cuts a line of text into tokens, looks each one up, and for
//! every unknown token proposes the nearest known word under the
//! Levenshtein distance. [`command`] recognises the session commands of an
//! interactive front end.
pub mod command;
pub mod dictionary;
pub mod distance;
pub mod matcher;
pub mod order;
pub mod report;
pub mod trim;
pub mod unicode;
