//! Verified building blocks: a double-ended flattening cursor, a string
//! splitter, a channel state machine, a lock, a reference-counted pointer and
//! a few small helpers.

pub mod cursor;
pub mod flatten;
pub mod str_split;
pub mod char_search;
pub mod channel;
pub mod mutex;
pub mod rc;
pub mod avec;
pub mod error;
pub mod fns;
