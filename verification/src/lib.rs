//! A two-stage lexical analyzer for a small C-like scripting language.
//!
//! The raw scanner ([`lexer`]) walks the input character by character and
//! classifies each step into a primitive token of a definite length; the
//! gluing stage ([`glue`]) merges adjacent primitive tokens into compound
//! operators and resolves identifiers into reserved keywords ([`ast`]).
//! A separate escape decoder turns the text of an already-recognized
//! character or string literal into decoded characters or precise error
//! codes.

pub mod ast;
pub mod glue;
pub mod lexer;
pub mod unescape;
