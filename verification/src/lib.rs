//! Reader for ArduPilot DataFlash binary logs (`.bin` files).
//!
//! A log is a stream of records. Each record starts with the two header
//! bytes `0xA3 0x95` and a message type. Records of type `0x80` (FMT)
//! describe the layout of every other message type: a 4-character name,
//! a format string with one character per field, and comma-separated
//! field labels. The reader collects those formats and, for every type
//! that has one, the decoded rows of fields.

pub mod field;
pub mod text;
pub mod format;
pub mod log;
pub mod log_laws;
pub mod catalog;
