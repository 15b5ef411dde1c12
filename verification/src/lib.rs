//! A JSON library: parsing into a flat index of values, navigation, and formatting.
//!
//! The modules `grammar`, `structure`, `comments` and `spans` state what a parse
//! accepts and records, and `parse_errors` where its errors point; `jsonc_layout`
//! states the layout of the JSONC formatter and `jsonc_line_ends`, `jsonc_lexemes` and
//! `jsonc_comments` what becomes of carriage returns, scalar lexemes and comments in
//! it, and `trailing_commas` what the trailing-comma settings leave after the last
//! element; `string_escapes` ties strings to RFC 8259's escapes; `roundtrip` proves
//! that what the formatter writes reads back.
mod kind;
pub mod grammar;
pub mod parse_errors;
mod scan;
mod values;
mod error;
mod parse;
pub mod structure;
pub mod comments;
pub mod comment_spans;
mod slices;
mod raw;
mod jsonc_format;
pub mod jsonc_layout;
pub mod jsonc_line_ends;
pub mod jsonc_lexemes;
pub mod jsonc_comments;
pub mod trailing_commas;
pub mod string_escapes;
mod format;
mod strings;
mod convert;
pub mod roundtrip;
pub mod spans;

pub use kind::JsonValueKind;
pub use grammar::MAX_NESTING_DEPTH;
pub use scan::{skip_plain_ascii_bytes, skip_non_ascii_bytes};
pub use error::JsonParseError;
pub use parse::{Extensions, Jsonc, Plain};
pub use raw::{RawJson, RawJsonMember, RawJsonOwned, RawJsonValue};
pub use jsonc_format::{JsoncFormatter, JsoncLineBreaks, JsoncTrailingCommas};
pub use format::{
    DisplayJson, InplaceJson, Json, JsonArrayFormatter, JsonFormatter, JsonObjectFormatter, json,
};
