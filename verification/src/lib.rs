//! Counts the frequencies of words read from a text stream and renders a
//! sorted frequency table.
//!
//! A line of text is split into candidate substrings at every character
//! that is neither alphabetic nor an apostrophe. Each candidate is then
//! cleaned: single letters survive only as `a` or `i`, apostrophes are
//! legal only leading, trailing, or at the second-to-last position, and
//! the surviving word is folded to lowercase before it is counted. The
//! table is rendered ordered by descending count, ties broken by
//! ascending word.

pub mod clean;
pub mod lex;
pub mod report;
pub mod table;
pub mod unicode;
pub mod words;
