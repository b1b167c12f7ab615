//! rustruct: parsing and building binary wire formats from a compiled schema.
//!
//! A schema (`schema::FieldIn`) is compiled once into a `program::Program`;
//! `unpack` decodes bytes against it into a `value::Value` tree and `pack`
//! builds bytes from one. `decoding` and `encoding` say, as functions of the
//! program and their input, what the two return; `streaming` and `restore`
//! prove what holds across calls: a prefix of a buffer asks for more bytes
//! or decodes alike, and packing what was unpacked gives the bytes back.

pub mod error;
pub mod text;
pub mod digest;
pub mod expr;
pub mod program;
pub mod schema;
pub mod codec;
pub mod floats;
pub mod names;
pub mod value;
pub mod unpack;
pub mod decoding;
pub mod streaming;
pub mod restore;
pub mod pack;
pub mod encoding;
pub mod compile;
pub mod options;
pub mod fixed;
pub mod sizes;
pub mod keys;
pub mod form;
pub mod parse;
pub mod flags;
