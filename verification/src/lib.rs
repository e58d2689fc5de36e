//! The `blue.Marshal` binary object format used by EVE Online, and a
//! JSON encoding of the decoded values that gives them back (see below).
//!
//! Decoding resolves `TY_REFERENCE` by inlining a copy of the referenced
//! value, so the returned `Value` tree holds no references; encoding never
//! emits shared references and writes every occurrence in full.
//!
//! Decoding what `encode` wrote gives the value back, with `-0.0` read as
//! `0.0`, for any value with no length beyond `i32::MAX`, a `None` callable
//! wherever a reduce is a `TY_NEWOBJ` (whose callable is implicit), and a
//! depth that leaves one level for the checksum header when one is written.
//! Decoding the JSON form gives the value back, with every NaN read as the
//! canonical NaN, for any value whose dicts hold no two keys that are equal
//! up to NaN payloads (a JSON object holds a key once).
//!
//! `TY_DBROW`, `TY_WSTREAM`, `TY_PICKLE` and `TY_PICKLER` are not
//! implemented: decoding a stream that holds one returns
//! `Error::Unsupported`, and the encoder never writes them.

mod adler32;
mod base64;
mod error;
mod format;
mod json;
mod json_model;
mod json_roundtrip;
mod json_spec;
mod long;
mod parse;
mod reader;
mod roundtrip;
mod strtable;
mod tags;
mod text;
mod value;
mod writer;

pub use adler32::adler32;
pub use error::{Error, Result};
pub use json::{from_json, to_json};
pub use json_model::{Json, JsonStr};
pub use long::LongInt;
pub use reader::{decode, Decoded};
pub use tags::tag_name;
pub use value::Value;
pub use writer::{encode, EncodeOptions};
