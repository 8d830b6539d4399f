//! A small language pipeline: a lexer driven by a finite automaton, a
//! recursive-descent parser, and a tree-walking evaluator over integer
//! variables.
use vstd::prelude::*;
use crate::simple_lexer::SimpleToken;
use crate::simple_parser::SimpleASTNode;

pub mod simple_calculator;
pub mod simple_lexer;
pub mod simple_parser;
pub mod simple_printer;
pub mod simple_script;

verus! {

/// What a parser reads of a token.
pub trait Token {
    /// The token's kind.
    fn get_type(&self) -> TokenType;

    /// A copy of the token's lexeme.
    fn get_text(&self) -> String;
}

/// A cursor over tokens, with the moves that a backtracking parser needs.
pub trait TokenReader {
    /// Hands out the token at the cursor and moves on by one.
    fn read(&mut self) -> Option<SimpleToken>;

    /// Hands out a copy of the token at the cursor and stays.
    fn peek(&self) -> Option<SimpleToken>;

    /// Moves back by one.
    fn unread(&mut self);

    /// The index of the token at the cursor.
    fn get_position(&self) -> usize;

    /// Moves to the token at index `pos`.
    fn set_position(&mut self, pos: usize);
}

/// What an evaluator reads of a node of the syntax tree.
pub trait ASTNode {
    /// The node's children, in order.
    fn get_children(&self) -> &Vec<SimpleASTNode>;

    /// The node's kind.
    fn get_type(&self) -> ASTNodeType;

    /// A copy of the node's text.
    fn get_text(&self) -> String;
}

/// The kinds of lexeme that the language's vocabulary knows.
#[derive(Debug, Clone, Copy, PartialEq, Eq, Structural)]
pub enum TokenType {
    /// A character that starts no lexeme of the language.
    Unknown,
    Plus,
    Minus,
    Star,
    Slash,
    GE,
    GT,
    EQ,
    LE,
    LT,
    SemiColon,
    LeftParen,
    RightParen,
    Assignment,
    If,
    Else,
    Int,
    Identifier,
    IntLiteral,
    StringLiteral,
}

/// The kinds of node that a syntax tree can hold.
#[derive(Debug, Clone, Copy, PartialEq, Eq, Structural)]
pub enum ASTNodeType {
    Programm,
    IntDeclaration,
    ExpressionStmt,
    AssignmentStmt,
    Primary,
    Multiplicative,
    Additive,
    Identifier,
    IntLiteral,
}

} // verus!
