//! Operator-precedence parsing driven by a table of operators.
//!
//! A [`Grammar`] collects operators, each with a fixity, a precedence and an
//! associativity, and is frozen into a [`Parser`]. Parsing turns the lexemes
//! of a source text into parse trees in four steps:
//!
//! - [`resolve`] reads each token in the role that its place calls for, and
//!   fills in a blank wherever an argument is absent and an invisible
//!   juxtaposition wherever an operator is absent;
//! - [`simple_shunter`] brings the lexemes into postfix order, by left and
//!   right precedences alone;
//! - [`parse`] turns each operator, with its followers, into one node;
//! - [`rpn`] reads the nodes as trees.
//!
//! Matching regular expressions is not part of this library. The builder
//! takes the lexer's answer on each pattern that it registers, a [`Parser`]
//! hands out the patterns of its tokens, and [`lexer`] makes the lexer's
//! choice from how far each pattern matches at a place.
//! [`theorems`] states what holds of every grammar and every input.
use vstd::prelude::*;

pub mod grammar;
pub mod lexeme;
pub mod lexer;
pub mod message;
pub mod op;
pub mod parse;
pub mod resolve;
pub mod rpn;
pub mod simple_shunter;
pub mod theorems;

pub use crate::grammar::{
    Grammar, GrammarError, LexerAnswer, Parser, Pattern, PatternKind, TokenPattern,
};
pub use crate::lexeme::{Lexeme, Position};
pub use crate::op::{Assoc, Fixity, Op, Prec, PREC_MAX};
pub use crate::parse::{ParseError, Parsed, Visitor, VisitorIter};
pub use crate::rpn::{read_postfix, Node, ParseTree};
pub use crate::simple_shunter::{shunt, Shunter};

verus! {

/// Identifies a surface form that the lexer recognises.
pub type Token = usize;

/// Identifies one occurrence of a token in an operator role, and indexes the
/// precedence table.
pub type OpToken = usize;

/// The token of input that the lexer could not recognise.
pub const TOKEN_ERROR: Token = 0;

/// The token that stands for an absent argument.
pub const TOKEN_BLANK: Token = 1;

/// The token that stands for an absent operator between two arguments.
pub const TOKEN_JUXTAPOSE: Token = 2;

} // verus!
