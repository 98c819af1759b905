//! A compact, self-describing binary format for documents of named rows of
//! named, typed values, with its encoder and decoder proved against a grammar.
//!
//! - `header` and `length`: the header byte and the big-endian count fields.
//! - `grammar`: what values mean, how they are encoded, and how bytes decode.
//! - `value`, `key`, `row`, `document`: the data model and its codecs.
//! - `segment`: splitting a buffer on start and end marker bytes.

pub mod bytes;
pub mod document;
pub mod error;
pub mod grammar;
pub mod header;
pub mod key;
pub mod length;
pub mod row;
pub mod segment;
pub mod table;
pub mod truncation;
pub mod value;

pub use document::{deserialize, serialize, Version, YAD};
