//! The lexical front end of a compiler for a small functional language in
//! which indentation marks the blocks.
//!
//! A grammar cuts the source text into lines, and each line into whitespace
//! runs, atoms, a comment and the line terminator ([`unit`]). The [`lexer`]
//! turns those lines into one flat stream of tokens ([`token`]) and puts the
//! markers of block structure among them: `Indent`, `Dedent` and, at the
//! end, `EndOfInput`. On its way it hands names and strings to the
//! [`interner`], which gives each distinct string one dense symbol.
//!
//! Around that stand the [`span`]s, [`source`]s and [`line_map`]s that lead
//! from a byte offset back to a line and a column, and the look-back buffers
//! ([`buffered_iter`], [`parser`]) that a parser reads tokens through.
//!
//! Every executable function states what it returns in terms of a
//! mathematical model, and Verus proves that it does.

pub mod buffered_iter;
pub mod context;
pub mod delimiter;
pub mod diagnostic;
pub mod error;
pub mod indent_stack;
pub mod interner;
pub mod keyword;
pub mod lexer;
pub mod line_map;
pub mod line_tokenizer;
pub mod literal;
pub mod location;
pub mod normalize;
pub mod operator;
pub mod parser;
pub mod source;
pub mod span;
pub mod text;
pub mod token;
pub mod token_stream;
pub mod unit;

pub use crate::lexer::Lexer;
pub use crate::source::SourceMap;
pub use crate::token_stream::TokenStream;
