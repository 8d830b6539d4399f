//! A calculator over single expressions. Its operator chains nest to the
//! right, so `2 - 3 - 4` is read as `2 - (3 - 4)`: it shows what goes wrong
//! where a chain is parsed by plain recursion on its right operand.
use vstd::prelude::*;
use vstd::string::*;
use crate::{ASTNodeType, Token, TokenReader, TokenType};
use crate::simple_lexer::{lex, SimpleLexer, SimpleTokenReader, TokenView};
use crate::simple_parser::{
    agrees, binary, is_additive_op, is_multiplicative_op, kind_at, leaf, named, required,
    well_formed, Ast, Outcome, ParseError,
};
use crate::simple_script::{apply, literal_value, EvalError, SimpleScript};

pub use crate::simple_parser::SimpleASTNode;

verus! {

/// Why the calculator has no result: the text is no expression, or the
/// expression has no value.
#[derive(Debug, Clone, Copy, PartialEq, Eq, Structural)]
pub enum CalcError {
    Syntax(ParseError),
    Value(EvalError),
}

/// primary := identifier | intLiteral | "(" additive ")"
pub open spec fn nested_primary(ts: Seq<TokenView>, p: int) -> Outcome
    decreases ts.len() - p, 0nat,
{
    let k = kind_at(ts, p);
    if k == Some(TokenType::Identifier) {
        Outcome::Matched { tree: leaf(ASTNodeType::Identifier, ts[p].text), next: p + 1 }
    } else if k == Some(TokenType::IntLiteral) {
        Outcome::Matched { tree: leaf(ASTNodeType::IntLiteral, ts[p].text), next: p + 1 }
    } else if k == Some(TokenType::LeftParen) {
        match required(nested_additive(ts, p + 1)) {
            Outcome::Matched { tree, next } => if kind_at(ts, next) == Some(TokenType::RightParen) {
                Outcome::Matched { tree, next: next + 1 }
            } else {
                Outcome::Failed { error: ParseError::MissingCloseParen }
            },
            o => o,
        }
    } else {
        Outcome::Unmatched
    }
}

/// multiplicative := primary (("*" | "/") multiplicative)?
pub open spec fn nested_multiplicative(ts: Seq<TokenView>, p: int) -> Outcome
    decreases ts.len() - p, 1nat,
{
    match nested_primary(ts, p) {
        Outcome::Matched { tree, next } => if p < next && is_multiplicative_op(kind_at(ts, next)) {
            match required(nested_multiplicative(ts, next + 1)) {
                Outcome::Matched { tree: right, next: end } => Outcome::Matched {
                    tree: binary(ASTNodeType::Multiplicative, ts[next].text, tree, right),
                    next: end,
                },
                o => o,
            }
        } else {
            Outcome::Matched { tree, next }
        },
        o => o,
    }
}

/// additive := multiplicative (("+" | "-") additive)?
pub open spec fn nested_additive(ts: Seq<TokenView>, p: int) -> Outcome
    decreases ts.len() - p, 2nat,
{
    match nested_multiplicative(ts, p) {
        Outcome::Matched { tree, next } => if p < next && is_additive_op(kind_at(ts, next)) {
            match required(nested_additive(ts, next + 1)) {
                Outcome::Matched { tree: right, next: end } => Outcome::Matched {
                    tree: binary(ASTNodeType::Additive, ts[next].text, tree, right),
                    next: end,
                },
                o => o,
            }
        } else {
            Outcome::Matched { tree, next }
        },
        o => o,
    }
}

/// declaration := "int" identifier "=" additive
///
/// Anything else is no declaration to the calculator.
pub open spec fn nested_declaration(ts: Seq<TokenView>, p: int) -> Outcome {
    if kind_at(ts, p) == Some(TokenType::Int) && kind_at(ts, p + 1) == Some(TokenType::Identifier)
        && kind_at(ts, p + 2) == Some(TokenType::Assignment) {
        match nested_additive(ts, p + 3) {
            Outcome::Matched { tree, next } => Outcome::Matched {
                tree: named(ASTNodeType::IntDeclaration, ts[p + 1].text, seq![tree]),
                next,
            },
            o => o,
        }
    } else {
        Outcome::Unmatched
    }
}

/// The text that the root of the calculator's tree carries.
pub open spec fn calculator_text() -> Seq<char> {
    seq!['C', 'a', 'l', 'c', 'u', 'l', 'a', 't', 'o', 'r']
}

/// The calculator's tree: a root over the expression at position `p`, or
/// over nothing where no expression starts there.
pub open spec fn nested_tree(ts: Seq<TokenView>, p: int) -> Result<Ast, ParseError> {
    match nested_additive(ts, p) {
        Outcome::Matched { tree, next } => Ok(
            Ast { kind: ASTNodeType::Programm, text: calculator_text(), children: seq![tree] },
        ),
        Outcome::Unmatched => Ok(
            Ast { kind: ASTNodeType::Programm, text: calculator_text(), children: Seq::empty() },
        ),
        Outcome::Failed { error } => Err(error),
    }
}

/// The value of an expression without variables: a name counts as 0, and a
/// root has the value of its first child.
pub open spec fn plain_value(a: Ast) -> Result<i32, EvalError>
    recommends
        well_formed(a),
    decreases a,
{
    match a.kind {
        ASTNodeType::Programm => if a.children.len() > 0 {
            plain_value(a.children[0])
        } else {
            Ok(0)
        },
        ASTNodeType::Additive | ASTNodeType::Multiplicative => if a.children.len() == 2 {
            match plain_value(a.children[0]) {
                Err(e) => Err(e),
                Ok(x) => match plain_value(a.children[1]) {
                    Err(e) => Err(e),
                    Ok(y) => apply(a.kind, a.text, x, y),
                },
            }
        } else {
            Ok(0)
        },
        ASTNodeType::IntLiteral => match literal_value(a.text) {
            Some(v) => Ok(v),
            None => Err(EvalError::NotAnInteger),
        },
        _ => Ok(0),
    }
}

/// What the calculator makes of a token sequence.
pub open spec fn calculated(ts: Seq<TokenView>) -> Result<i32, CalcError> {
    match nested_tree(ts, 0) {
        Err(e) => Err(CalcError::Syntax(e)),
        Ok(tree) => match plain_value(tree) {
            Err(e) => Err(CalcError::Value(e)),
            Ok(v) => Ok(v),
        },
    }
}

/// The kind of the token at the cursor, where there is one.
fn next_kind(tokens: &SimpleTokenReader) -> (r: Option<TokenType>)
    requires
        tokens.wf(),
    ensures
        r == kind_at(tokens.tokens(), tokens.position()),
{
    match tokens.peek() {
        Some(token) => Some(token.get_type()),
        None => None,
    }
}

/// The calculator.
pub struct SimpleCalcultor;

impl SimpleCalcultor {
    /// Cuts `code` into tokens, parses the expression they start with and
    /// evaluates it.
    pub fn calculate(code: String) -> (r: Result<i32, CalcError>)
        ensures
            r == calculated(lex(code@)),
    {
        match Self::parse(code) {
            Err(e) => Err(CalcError::Syntax(e)),
            Ok(tree) => match Self::calc(&tree) {
                Err(e) => Err(CalcError::Value(e)),
                Ok(v) => Ok(v),
            },
        }
    }

    /// Cuts `code` into tokens and parses the expression they start with.
    pub fn parse(code: String) -> (r: Result<SimpleASTNode, ParseError>)
        ensures
            match nested_tree(lex(code@), 0) {
                Ok(tree) => r.is_ok() && r.unwrap()@ == tree && well_formed(tree),
                Err(e) => r.is_err() && r.unwrap_err() == e,
            },
    {
        let lexer = SimpleLexer::new();
        let mut tokens = lexer.tokenize(code);
        assert(tokens.tokens() =~= lex(code@));
        Self::init_tree(&mut tokens)
    }

    /// Evaluates a tree without variables.
    pub fn calc(node: &SimpleASTNode) -> (r: Result<i32, EvalError>)
        requires
            well_formed(node@),
        ensures
            r == plain_value(node@),
        decreases node,
    {
        match node.node_type {
            ASTNodeType::Programm => {
                if node.children.len() > 0 {
                    assert(node@.children[0] == node.children@[0]@);
                    Self::calc(&node.children[0])
                } else {
                    Ok(0)
                }
            },
            ASTNodeType::Additive | ASTNodeType::Multiplicative => {
                assert(node@.children[0] == node.children@[0]@);
                assert(node@.children[1] == node.children@[1]@);
                let x = match Self::calc(&node.children[0]) {
                    Ok(v) => v,
                    Err(e) => {
                        return Err(e);
                    },
                };
                let y = match Self::calc(&node.children[1]) {
                    Ok(v) => v,
                    Err(e) => {
                        return Err(e);
                    },
                };
                SimpleScript::apply_operator(node.node_type, &node.node_text, x, y)
            },
            ASTNodeType::IntLiteral => match SimpleScript::parse_literal(&node.node_text) {
                Some(v) => Ok(v),
                None => Err(EvalError::NotAnInteger),
            },
            _ => Ok(0),
        }
    }

    /// Parses `int`, a name, `=` and an expression at the cursor. Where they
    /// do not stand there, the cursor goes back to where it was.
    pub fn int_declare(tokens: &mut SimpleTokenReader) -> (r: Result<
        Option<SimpleASTNode>,
        ParseError,
    >)
        requires
            old(tokens).wf(),
        ensures
            final(tokens).wf(),
            final(tokens).tokens() == old(tokens).tokens(),
            agrees(
                r,
                final(tokens).position(),
                old(tokens).position(),
                nested_declaration(old(tokens).tokens(), old(tokens).position()),
            ),
    {
        let pos = tokens.get_position();
        if next_kind(tokens) != Some(TokenType::Int) {
            return Ok(None);
        }
        tokens.read();
        if next_kind(tokens) == Some(TokenType::Identifier) {
            match tokens.read() {
                Some(token) => {
                    if next_kind(tokens) == Some(TokenType::Assignment) {
                        tokens.read();
                        let mut node = SimpleASTNode::new(
                            ASTNodeType::IntDeclaration,
                            token.get_text(),
                        );
                        match Self::additive(tokens) {
                            Ok(Some(child)) => {
                                node.add_children(child);
                                assert(node@.children =~= seq![child@]);
                                return Ok(Some(node));
                            },
                            Ok(None) => {},
                            Err(e) => {
                                return Err(e);
                            },
                        }
                    }
                },
                None => {},
            }
        }
        tokens.set_position(pos);
        Ok(None)
    }

    /// Parses the expression at the cursor and hangs it under a root.
    pub fn init_tree(tokens: &mut SimpleTokenReader) -> (r: Result<SimpleASTNode, ParseError>)
        requires
            old(tokens).wf(),
        ensures
            final(tokens).wf(),
            final(tokens).tokens() == old(tokens).tokens(),
            match nested_tree(old(tokens).tokens(), old(tokens).position()) {
                Ok(tree) => r.is_ok() && r.unwrap()@ == tree && well_formed(tree),
                Err(e) => r.is_err() && r.unwrap_err() == e,
            },
    {
        let mut root = SimpleASTNode::new(ASTNodeType::Programm, "Calculator".to_owned());
        proof {
            reveal_strlit("Calculator");
            assert(root@.text =~= calculator_text());
        }
        match Self::additive(tokens) {
            Ok(Some(child)) => {
                root.add_children(child);
                assert(root@.children =~= seq![child@]);
                Ok(root)
            },
            Ok(None) => Ok(root),
            Err(e) => Err(e),
        }
    }

    /// Parses a chain of `+` and `-` at the cursor; what follows the first
    /// operator becomes its right operand as a whole.
    pub fn additive(tokens: &mut SimpleTokenReader) -> (r: Result<
        Option<SimpleASTNode>,
        ParseError,
    >)
        requires
            old(tokens).wf(),
        ensures
            final(tokens).wf(),
            final(tokens).tokens() == old(tokens).tokens(),
            agrees(
                r,
                final(tokens).position(),
                old(tokens).position(),
                nested_additive(old(tokens).tokens(), old(tokens).position()),
            ),
        decreases old(tokens).tokens().len() - old(tokens).position(), 2nat,
    {
        let child1 = match Self::multiplicative(tokens) {
            Ok(Some(first)) => first,
            Ok(None) => {
                return Ok(None);
            },
            Err(e) => {
                return Err(e);
            },
        };
        let kind = next_kind(tokens);
        if kind == Some(TokenType::Plus) || kind == Some(TokenType::Minus) {
            let text = match tokens.read() {
                Some(token) => token.get_text(),
                None => String::new(),
            };
            match Self::additive(tokens) {
                Ok(Some(child2)) => {
                    let mut node = SimpleASTNode::new(ASTNodeType::Additive, text);
                    node.add_children(child1);
                    node.add_children(child2);
                    assert(node@.children =~= seq![child1@, child2@]);
                    Ok(Some(node))
                },
                Ok(None) => Err(ParseError::MissingExpression),
                Err(e) => Err(e),
            }
        } else {
            Ok(Some(child1))
        }
    }

    /// Parses a chain of `*` and `/` at the cursor; what follows the first
    /// operator becomes its right operand as a whole.
    pub fn multiplicative(tokens: &mut SimpleTokenReader) -> (r: Result<
        Option<SimpleASTNode>,
        ParseError,
    >)
        requires
            old(tokens).wf(),
        ensures
            final(tokens).wf(),
            final(tokens).tokens() == old(tokens).tokens(),
            agrees(
                r,
                final(tokens).position(),
                old(tokens).position(),
                nested_multiplicative(old(tokens).tokens(), old(tokens).position()),
            ),
        decreases old(tokens).tokens().len() - old(tokens).position(), 1nat,
    {
        let child1 = match Self::primary(tokens) {
            Ok(Some(first)) => first,
            Ok(None) => {
                return Ok(None);
            },
            Err(e) => {
                return Err(e);
            },
        };
        let kind = next_kind(tokens);
        if kind == Some(TokenType::Star) || kind == Some(TokenType::Slash) {
            let text = match tokens.read() {
                Some(token) => token.get_text(),
                None => String::new(),
            };
            match Self::multiplicative(tokens) {
                Ok(Some(child2)) => {
                    let mut node = SimpleASTNode::new(ASTNodeType::Multiplicative, text);
                    node.add_children(child1);
                    node.add_children(child2);
                    assert(node@.children =~= seq![child1@, child2@]);
                    Ok(Some(node))
                },
                Ok(None) => Err(ParseError::MissingExpression),
                Err(e) => Err(e),
            }
        } else {
            Ok(Some(child1))
        }
    }

    /// Parses a name, a number or an expression in parentheses at the cursor.
    pub fn primary(tokens: &mut SimpleTokenReader) -> (r: Result<
        Option<SimpleASTNode>,
        ParseError,
    >)
        requires
            old(tokens).wf(),
        ensures
            final(tokens).wf(),
            final(tokens).tokens() == old(tokens).tokens(),
            agrees(
                r,
                final(tokens).position(),
                old(tokens).position(),
                nested_primary(old(tokens).tokens(), old(tokens).position()),
            ),
        decreases old(tokens).tokens().len() - old(tokens).position(), 0nat,
    {
        match tokens.peek() {
            Some(token) => {
                let kind = token.get_type();
                if kind == TokenType::Identifier {
                    tokens.read();
                    Ok(Some(SimpleASTNode::new(ASTNodeType::Identifier, token.get_text())))
                } else if kind == TokenType::IntLiteral {
                    tokens.read();
                    Ok(Some(SimpleASTNode::new(ASTNodeType::IntLiteral, token.get_text())))
                } else if kind == TokenType::LeftParen {
                    tokens.read();
                    match Self::additive(tokens) {
                        Ok(Some(node)) => {
                            if next_kind(tokens) == Some(TokenType::RightParen) {
                                tokens.read();
                                Ok(Some(node))
                            } else {
                                Err(ParseError::MissingCloseParen)
                            }
                        },
                        Ok(None) => Err(ParseError::MissingExpression),
                        Err(e) => Err(e),
                    }
                } else {
                    Ok(None)
                }
            },
            None => Ok(None),
        }
    }
}

} // verus!
