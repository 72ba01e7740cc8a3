//! Big Bag Of Words: a text reduced to its words, each with the number of
//! times it occurs.
//!
//! Words are separated by Unicode whitespace. Leading and trailing characters
//! that are not alphabetic are removed from each whitespace-delimited
//! fragment; what remains is a word when it is non-empty and entirely
//! alphabetic. Words holding an uppercase letter are stored lowercased.
//!
//! `text` states these rules as spec functions, `bag` holds the counts and
//! proves its operations against them, and `laws` proves what follows of
//! ingestion and queries taken together.
pub mod text;
pub mod order;
pub mod entries;
pub mod bag;
pub mod laws;

pub use bag::Bbow;
