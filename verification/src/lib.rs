//! Splitting of multi-statement SQL text and encoding of typed row values
//! as SQL literals, for lossless database dump and restore.
//!
//! The two halves are independent and meet only in the dump/restore round
//! trip: `splitter` cuts a script into executable statements without ever
//! splitting inside quotes or comments, and `codec` turns one typed value
//! into a literal that a standards-conforming SQL reader parses back to
//! the same value. `dump` layers the dump file's formatting on top of the
//! codec; `numeral` carries the decimal renderings both rely on;
//! `pagination` and `config` hold the result-grid page arithmetic and the
//! persisted configuration records of the surrounding application.

pub mod codec;
pub mod config;
pub mod dump;
pub mod numeral;
pub mod pagination;
pub mod splitter;
pub mod value;
