//! Front end for a minimal arithmetic language: a tokenizer that turns a
//! source string into a sequence of classified, span-carrying tokens, and an
//! arena-based recursive-descent parser with precedence climbing that turns
//! that sequence into a flat pool of expression nodes referenced by index.

/// Proved laws of the tokenizer.
pub mod laws;
/// Tokenizer: kinds, span tokens, and the cursor-based lexer.
pub mod lex;
/// Parser: the expression arena and precedence-climbing descent.
pub mod parse;
