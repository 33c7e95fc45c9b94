//! Front end of a toy compiler: comment stripping with position tracking, a
//! maximal-munch lexer and a table-driven LL(1) parser that records its trace.
//! Beside it, a matrix stored by rows; least upper and greatest lower bounds
//! in a relation given by such a matrix; the number of connected components
//! of a graph given by its adjacency matrix; and the inversion number of a
//! sequence.

pub mod grammar;
pub mod graph;
pub mod inversions;
pub mod lattice;
pub mod lexer;
pub mod matrix;
pub mod parser;
pub mod preprocess;
pub mod token;

pub use grammar::{LL1ParseTable, LL1Rule, Nonterminal, Term, Terminal};
pub use inversions::inv;
pub use lexer::{lex, LexError};
pub use matrix::Matrix;
pub use parser::{parse, ParseError, ParseTrace, ParseTraceRow, ParseTraceRowRule};
pub use preprocess::{preprocess, PositionedChar, PreprocessError};
pub use token::{Ident, Kw, LiteralInt, Op, Sym, Token, TokenValue};
