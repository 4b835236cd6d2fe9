//! Lexical front end for a text-templating language.
//!
//! A [`lexer::Lexer`] scans a template source string left to right and emits
//! one [`token::Token`] per call: either a maximal run of literal text
//! (`Raw`) or a single two-byte delimiter marker (`{{`, `}}`, `{%`, `%}`,
//! `{#`, `#}`). Spans are byte offsets into the UTF-8 source, exclusive at
//! the end, and never cut a multi-byte code point in half.

pub mod lexer;
pub mod token;
