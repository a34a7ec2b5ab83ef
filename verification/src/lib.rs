//! A self-contained JSON text parser.
//!
//! The library turns a UTF-8 byte slice into a structured value tree
//! (per RFC 8259), or reports the first lexical or syntactic error with
//! the byte span of the offending token.  It is organised as a two-stage
//! front end: a lexical scanner (`lex`) that turns bytes into tokens, and
//! a recursive-descent parser (`parser`) that consumes those tokens and
//! builds a `json::JsonValue` tree.
//!
//! Numbers are kept in decoded literal form: a sign, a decimal mantissa
//! and a decimal exponent.  Turning that triple into a machine float is a
//! lossy step that is left to the caller.

pub mod json;
pub mod lex;
pub mod parse_error;
pub mod parser;
