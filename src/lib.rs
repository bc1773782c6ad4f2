//! Lexical primitives of an SMTP-style text protocol: byte classes, a
//! streaming recursive-descent parser for atoms, quoted strings, domains,
//! base64 tokens and numbers, and the escaping of quoted-string content.
#![allow(non_snake_case)]

pub mod classes;
pub mod parse;
pub mod quoted;
pub mod types;
