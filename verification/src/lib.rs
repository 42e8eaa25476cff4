//! Find a Unicode character by a query over its symbolic name, convert
//! between characters and their hexadecimal code points, and keep user-chosen
//! aliases for characters.
//!
//! The searchable index is an immutable finite-state-transducer artifact:
//! `table` sorts and deduplicates the raw (name, code point) pairs, `index`
//! serializes them and evaluates compiled queries against the artifact,
//! `session` steps the interactive selection loop one event at a time, and
//! `store` holds the saved aliases. `codec` converts code points, `query`
//! shapes the patterns and says what a result set is, and `order` defines the
//! byte-lexicographic key order everything is sorted in.

pub mod codec;
pub mod index;
pub mod order;
pub mod query;
pub mod session;
pub mod store;
pub mod table;
