//! A table-driven (LL(1)) parser for a JSON-like grammar.
//!
//! The library turns raw bytes into a [`value::Value`] tree: a
//! [`lexer::Lexer`] yields tokens with one-token pushback, the predictive
//! table in [`grammar`] chooses a production for every nonterminal and
//! lookahead, and the stack-machine engine in [`table_driven_parser`] walks
//! the table without recursion, as the operational model in [`machine`]
//! says. The grammar's meaning stands in [`syntax`] as six recursive parse
//! functions, one per nonterminal; the two recursive-descent parsers,
//! [`definite_parser::DefiniteParser`] and
//! [`indefinite_parser::IndefiniteParser`], are proved to return exactly
//! what those functions say, and [`bridge`] proves that the stack machine
//! returns the same, so all three parsers agree on every input. The laws
//! in [`laws`] state the round trip from rendering to parsing, the
//! pushback rewind, and the absence of internal-invariant failures.

pub mod bridge;
pub mod definite_parser;
pub mod errors;
pub mod grammar;
pub mod indefinite_parser;
pub mod laws;
pub mod lexer;
pub mod machine;
pub mod syntax;
pub mod table_driven_parser;
pub mod token;
pub mod value;
