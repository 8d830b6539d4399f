//! The parser: recursive descent over a token cursor, with left-associative
//! operator chains and backtracking between the kinds of statement.
use vstd::prelude::*;
use vstd::string::*;
use crate::{ASTNode, ASTNodeType, Token, TokenReader, TokenType};
use crate::simple_lexer::{lex, SimpleLexer, SimpleTokenReader, TokenView};

verus! {

/// A syntax tree as contracts see it.
pub struct Ast {
    pub kind: ASTNodeType,
    pub text: Seq<char>,
    pub children: Seq<Ast>,
}

/// A node of the syntax tree. It owns its children.
#[derive(Debug)]
pub struct SimpleASTNode {
    pub children: Vec<SimpleASTNode>,
    pub node_type: ASTNodeType,
    pub node_text: String,
}

/// The tree that a node and the nodes below it make.
pub open spec fn tree_of(node: SimpleASTNode) -> Ast
    decreases node,
{
    Ast {
        kind: node.node_type,
        text: node.node_text@,
        children: Seq::new(
            node.children@.len(),
            |i: int|
                if 0 <= i < node.children@.len() {
                    tree_of(node.children@[i])
                } else {
                    arbitrary()
                },
        ),
    }
}

impl View for SimpleASTNode {
    type V = Ast;

    open spec fn view(&self) -> Ast {
        tree_of(*self)
    }
}

/// The tree keeps the shape that its kind asks for: a leaf has no child, an
/// operator two, an assignment one, a declaration at most one.
pub open spec fn well_formed(a: Ast) -> bool
    decreases a,
{
    match a.kind {
        ASTNodeType::Identifier | ASTNodeType::IntLiteral => a.children.len() == 0,
        ASTNodeType::Additive | ASTNodeType::Multiplicative => a.children.len() == 2
            && well_formed(a.children[0]) && well_formed(a.children[1]),
        ASTNodeType::IntDeclaration => a.children.len() <= 1 && (a.children.len() == 1
            ==> well_formed(a.children[0])),
        ASTNodeType::AssignmentStmt => a.children.len() == 1 && well_formed(a.children[0]),
        ASTNodeType::Programm => forall|i: int|
            0 <= i < a.children.len() ==> well_formed(#[trigger] a.children[i]),
        _ => true,
    }
}

impl SimpleASTNode {
    /// A node without children.
    pub fn new(node_type: ASTNodeType, node_text: String) -> (r: Self)
        ensures
            r@ == (Ast { kind: node_type, text: node_text@, children: Seq::empty() }),
    {
        let r = SimpleASTNode { children: Vec::new(), node_type, node_text };
        assert(r@.children =~= Seq::empty());
        r
    }

    /// Appends `child` behind the children that the node has.
    pub fn add_children(&mut self, child: SimpleASTNode)
        ensures
            final(self)@ == (Ast {
                kind: old(self)@.kind,
                text: old(self)@.text,
                children: old(self)@.children.push(child@),
            }),
    {
        self.children.push(child);
        proof {
            assert(self@.children =~= old(self)@.children.push(child@));
        }
    }

    /// Whether the node and every node below it has the children that its
    /// kind asks for.
    pub fn is_well_formed(&self) -> (r: bool)
        ensures
            r == well_formed(self@),
        decreases self,
    {
        let n = self.children.len();
        match self.node_type {
            ASTNodeType::Identifier | ASTNodeType::IntLiteral => n == 0,
            ASTNodeType::Additive | ASTNodeType::Multiplicative => {
                if n != 2 {
                    return false;
                }
                assert(self@.children[0] == self.children@[0]@);
                assert(self@.children[1] == self.children@[1]@);
                self.children[0].is_well_formed() && self.children[1].is_well_formed()
            },
            ASTNodeType::IntDeclaration => {
                if n == 0 {
                    return true;
                }
                assert(self@.children[0] == self.children@[0]@);
                n == 1 && self.children[0].is_well_formed()
            },
            ASTNodeType::AssignmentStmt => {
                if n != 1 {
                    return false;
                }
                assert(self@.children[0] == self.children@[0]@);
                self.children[0].is_well_formed()
            },
            ASTNodeType::Programm => {
                let mut i: usize = 0;
                while i < n
                    invariant
                        n == self.children@.len(),
                        self.node_type == ASTNodeType::Programm,
                        i <= n,
                        forall|j: int| 0 <= j < i ==> well_formed(#[trigger] self@.children[j]),
                    decreases n - i,
                {
                    assert(self@.children[i as int] == self.children@[i as int]@);
                    if !self.children[i].is_well_formed() {
                        return false;
                    }
                    i = i + 1;
                }
                true
            },
            _ => true,
        }
    }

}

impl ASTNode for SimpleASTNode {
    /// The node's children, in order.
    fn get_children(&self) -> (r: &Vec<SimpleASTNode>)
        ensures
            r == &self.children,
    {
        &self.children
    }

    /// The node's kind.
    fn get_type(&self) -> (r: ASTNodeType)
        ensures
            r == self.node_type,
    {
        self.node_type
    }

    /// A copy of the node's text.
    fn get_text(&self) -> (r: String)
        ensures
            r@ == self.node_text@,
    {
        self.node_text.clone()
    }
}

/// Why a token sequence is no program.
#[derive(Debug, Clone, Copy, PartialEq, Eq, Structural)]
pub enum ParseError {
    /// `int` is not followed by a name.
    MissingIdentifier,
    /// An operator, `=` or `(` is not followed by an expression.
    MissingExpression,
    /// A declaration or an assignment does not end in `;`.
    MissingSemicolon,
    /// A `(` has no `)` behind its expression.
    MissingCloseParen,
    /// The tokens at the cursor start no statement.
    UnrecognizedStatement,
}

/// What a grammar rule makes of the tokens from a position on.
pub enum Outcome {
    /// The rule matched: its tree, and the position behind its last token.
    Matched { tree: Ast, next: int },
    /// The rule does not start here; another may.
    Unmatched,
    /// The rule started and the tokens broke it.
    Failed { error: ParseError },
}

/// The kind of the token at position `p`, where there is one.
pub open spec fn kind_at(ts: Seq<TokenView>, p: int) -> Option<TokenType> {
    if 0 <= p < ts.len() {
        Some(ts[p].kind)
    } else {
        None
    }
}

/// A node without children.
pub open spec fn leaf(kind: ASTNodeType, text: Seq<char>) -> Ast {
    Ast { kind, text, children: Seq::empty() }
}

/// An operator node over its two operands.
pub open spec fn binary(kind: ASTNodeType, text: Seq<char>, left: Ast, right: Ast) -> Ast {
    Ast { kind, text, children: seq![left, right] }
}

/// A statement node that carries a name and, where there is one, the
/// expression that gives the name its value.
pub open spec fn named(kind: ASTNodeType, text: Seq<char>, children: Seq<Ast>) -> Ast {
    Ast { kind, text, children }
}

/// The outcome of a rule that must follow an operator or `=`: where it does
/// not start, the input is broken.
pub open spec fn required(o: Outcome) -> Outcome {
    match o {
        Outcome::Unmatched => Outcome::Failed { error: ParseError::MissingExpression },
        _ => o,
    }
}

/// The kind is that of `+` or `-`.
pub open spec fn is_additive_op(k: Option<TokenType>) -> bool {
    k == Some(TokenType::Plus) || k == Some(TokenType::Minus)
}

/// The kind is that of `*` or `/`.
pub open spec fn is_multiplicative_op(k: Option<TokenType>) -> bool {
    k == Some(TokenType::Star) || k == Some(TokenType::Slash)
}

/// primary := identifier | intLiteral | "(" additive ")"
pub open spec fn parse_primary(ts: Seq<TokenView>, p: int) -> Outcome
    decreases ts.len() - p, 0nat,
{
    let k = kind_at(ts, p);
    if k == Some(TokenType::Identifier) {
        Outcome::Matched { tree: leaf(ASTNodeType::Identifier, ts[p].text), next: p + 1 }
    } else if k == Some(TokenType::IntLiteral) {
        Outcome::Matched { tree: leaf(ASTNodeType::IntLiteral, ts[p].text), next: p + 1 }
    } else if k == Some(TokenType::LeftParen) {
        match required(parse_additive(ts, p + 1)) {
            Outcome::Matched { tree, next } => if kind_at(ts, next) == Some(TokenType::RightParen) {
                Outcome::Matched { tree, next: next + 1 }
            } else {
                Outcome::Failed { error: ParseError::MissingCloseParen }
            },
            o => o,
        }
    } else {
        Outcome::Unmatched
    }
}

/// The rest of a chain of `*` and `/` whose operands so far make `left`:
/// each further operand becomes the right child of a new node whose left
/// child is the tree so far.
pub open spec fn multiplicative_rest(ts: Seq<TokenView>, p: int, left: Ast) -> Outcome
    decreases ts.len() - p, 1nat,
{
    if is_multiplicative_op(kind_at(ts, p)) {
        match required(parse_primary(ts, p + 1)) {
            Outcome::Matched { tree, next } => if p < next <= ts.len() {
                multiplicative_rest(
                    ts,
                    next,
                    binary(ASTNodeType::Multiplicative, ts[p].text, left, tree),
                )
            } else {
                Outcome::Unmatched
            },
            o => o,
        }
    } else {
        Outcome::Matched { tree: left, next: p }
    }
}

/// multiplicative := primary (("*" | "/") primary)*
pub open spec fn parse_multiplicative(ts: Seq<TokenView>, p: int) -> Outcome
    decreases ts.len() - p, 2nat,
{
    match parse_primary(ts, p) {
        Outcome::Matched { tree, next } => if p < next <= ts.len() {
            multiplicative_rest(ts, next, tree)
        } else {
            Outcome::Unmatched
        },
        o => o,
    }
}

/// The rest of a chain of `+` and `-` whose operands so far make `left`.
pub open spec fn additive_rest(ts: Seq<TokenView>, p: int, left: Ast) -> Outcome
    decreases ts.len() - p, 3nat,
{
    if is_additive_op(kind_at(ts, p)) {
        match required(parse_multiplicative(ts, p + 1)) {
            Outcome::Matched { tree, next } => if p < next <= ts.len() {
                additive_rest(ts, next, binary(ASTNodeType::Additive, ts[p].text, left, tree))
            } else {
                Outcome::Unmatched
            },
            o => o,
        }
    } else {
        Outcome::Matched { tree: left, next: p }
    }
}

/// additive := multiplicative (("+" | "-") multiplicative)*
pub open spec fn parse_additive(ts: Seq<TokenView>, p: int) -> Outcome
    decreases ts.len() - p, 4nat,
{
    match parse_multiplicative(ts, p) {
        Outcome::Matched { tree, next } => if p < next <= ts.len() {
            additive_rest(ts, next, tree)
        } else {
            Outcome::Unmatched
        },
        o => o,
    }
}

/// expressionStmt := additive ";"
///
/// An expression that no `;` follows is no expression statement.
pub open spec fn parse_expression(ts: Seq<TokenView>, p: int) -> Outcome {
    match parse_additive(ts, p) {
        Outcome::Matched { tree, next } => if kind_at(ts, next) == Some(TokenType::SemiColon) {
            Outcome::Matched { tree, next: next + 1 }
        } else {
            Outcome::Unmatched
        },
        o => o,
    }
}

/// The expression from position `p` on that gives the name `name` its value,
/// and the `;` that must follow it.
pub open spec fn parse_initializer(
    ts: Seq<TokenView>,
    p: int,
    kind: ASTNodeType,
    name: Seq<char>,
) -> Outcome {
    match required(parse_additive(ts, p)) {
        Outcome::Matched { tree, next } => if kind_at(ts, next) == Some(TokenType::SemiColon) {
            Outcome::Matched { tree: named(kind, name, seq![tree]), next: next + 1 }
        } else {
            Outcome::Failed { error: ParseError::MissingSemicolon }
        },
        o => o,
    }
}

/// assignment := identifier "=" additive ";"
pub open spec fn parse_assignment(ts: Seq<TokenView>, p: int) -> Outcome {
    if kind_at(ts, p) == Some(TokenType::Identifier) && kind_at(ts, p + 1) == Some(
        TokenType::Assignment,
    ) {
        parse_initializer(ts, p + 2, ASTNodeType::AssignmentStmt, ts[p].text)
    } else {
        Outcome::Unmatched
    }
}

/// declaration := "int" identifier ("=" additive)? ";"
pub open spec fn parse_declaration(ts: Seq<TokenView>, p: int) -> Outcome {
    if kind_at(ts, p) != Some(TokenType::Int) {
        Outcome::Unmatched
    } else if kind_at(ts, p + 1) != Some(TokenType::Identifier) {
        Outcome::Failed { error: ParseError::MissingIdentifier }
    } else if kind_at(ts, p + 2) == Some(TokenType::Assignment) {
        parse_initializer(ts, p + 3, ASTNodeType::IntDeclaration, ts[p + 1].text)
    } else if kind_at(ts, p + 2) == Some(TokenType::SemiColon) {
        Outcome::Matched {
            tree: named(ASTNodeType::IntDeclaration, ts[p + 1].text, Seq::empty()),
            next: p + 3,
        }
    } else {
        Outcome::Failed { error: ParseError::MissingSemicolon }
    }
}

/// One statement: a declaration, else an expression statement, else an
/// assignment; where none of them starts, the input is broken.
pub open spec fn parse_statement(ts: Seq<TokenView>, p: int) -> Outcome {
    match parse_declaration(ts, p) {
        Outcome::Unmatched => match parse_expression(ts, p) {
            Outcome::Unmatched => match parse_assignment(ts, p) {
                Outcome::Unmatched => Outcome::Failed {
                    error: ParseError::UnrecognizedStatement,
                },
                o => o,
            },
            o => o,
        },
        o => o,
    }
}

/// The statements from position `p` up to the end of the tokens, behind the
/// statements `done`; the first broken statement is the error.
pub open spec fn parse_statements(ts: Seq<TokenView>, p: int, done: Seq<Ast>) -> Result<
    Seq<Ast>,
    ParseError,
>
    decreases ts.len() - p,
{
    if p < 0 || p >= ts.len() {
        Ok(done)
    } else {
        match parse_statement(ts, p) {
            Outcome::Matched { tree, next } => if p < next <= ts.len() {
                parse_statements(ts, next, done.push(tree))
            } else {
                Err(ParseError::UnrecognizedStatement)
            },
            Outcome::Unmatched => Err(ParseError::UnrecognizedStatement),
            Outcome::Failed { error } => Err(error),
        }
    }
}

/// The text that the root of every program carries.
pub open spec fn root_text() -> Seq<char> {
    seq!['p', 'w', 'c']
}

/// program := (declaration | expressionStmt | assignment)*
pub open spec fn parse_program(ts: Seq<TokenView>, p: int) -> Result<Ast, ParseError> {
    match parse_statements(ts, p, Seq::empty()) {
        Ok(children) => Ok(Ast { kind: ASTNodeType::Programm, text: root_text(), children }),
        Err(e) => Err(e),
    }
}

/// What a parsing function returned, and where it left the cursor, is what
/// the grammar rule makes of the tokens from `start` on. A match moves the
/// cursor forward and its tree is well formed; where the rule does not
/// start, the cursor stays.
pub open spec fn agrees(
    r: Result<Option<SimpleASTNode>, ParseError>,
    end: int,
    start: int,
    o: Outcome,
) -> bool {
    match o {
        Outcome::Matched { tree, next } => r.is_ok() && r.unwrap().is_some()
            && r.unwrap().unwrap()@ == tree && end == next && start < next && well_formed(tree),
        Outcome::Unmatched => r.is_ok() && r.unwrap().is_none() && end == start,
        Outcome::Failed { error } => r.is_err() && r.unwrap_err() == error,
    }
}

/// Whether the token at the cursor has kind `kind`.
fn next_is(tokens: &SimpleTokenReader, kind: TokenType) -> (r: bool)
    requires
        tokens.wf(),
    ensures
        r == (kind_at(tokens.tokens(), tokens.position()) == Some(kind)),
{
    match tokens.peek() {
        Some(token) => token.get_type() == kind,
        None => false,
    }
}

/// The parser.
pub struct SimpleParser;

impl SimpleParser {
    /// Cuts `code` into tokens and parses them as a program.
    pub fn parse(code: String) -> (r: Result<SimpleASTNode, ParseError>)
        ensures
            match parse_program(lex(code@), 0) {
                Ok(tree) => r.is_ok() && r.unwrap()@ == tree && well_formed(tree),
                Err(e) => r.is_err() && r.unwrap_err() == e,
            },
    {
        let lexer = SimpleLexer::new();
        let mut tokens = lexer.tokenize(code);
        assert(tokens.tokens() =~= lex(code@));
        Self::program(&mut tokens)
    }

    /// Parses the statements from the cursor up to the end of the tokens.
    pub fn program(tokens: &mut SimpleTokenReader) -> (r: Result<SimpleASTNode, ParseError>)
        requires
            old(tokens).wf(),
        ensures
            final(tokens).wf(),
            final(tokens).tokens() == old(tokens).tokens(),
            match parse_program(old(tokens).tokens(), old(tokens).position()) {
                Ok(tree) => {
                    &&& r.is_ok()
                    &&& r.unwrap()@ == tree
                    &&& well_formed(tree)
                    &&& final(tokens).position() == old(tokens).tokens().len()
                },
                Err(e) => r.is_err() && r.unwrap_err() == e,
            },
    {
        let ghost ts = tokens.tokens();
        let ghost begin = tokens.position();
        let mut node = SimpleASTNode::new(ASTNodeType::Programm, "pwc".to_owned());
        proof {
            reveal_strlit("pwc");
            assert(node@.text =~= root_text());
        }
        while tokens.peek().is_some()
            invariant
                tokens.wf(),
                tokens.tokens() == ts,
                ts == old(tokens).tokens(),
                begin == old(tokens).position(),
                begin <= tokens.position(),
                node@.kind == ASTNodeType::Programm,
                node@.text == root_text(),
                well_formed(node@),
                parse_statements(ts, begin, Seq::empty()) == parse_statements(
                    ts,
                    tokens.position(),
                    node@.children,
                ),
            decreases ts.len() - tokens.position(),
        {
            let child = match Self::statement(tokens) {
                Ok(child) => child,
                Err(e) => {
                    return Err(e);
                },
            };
            node.add_children(child);
        }
        Ok(node)
    }

    /// Parses one statement at the cursor: a declaration, else an expression
    /// statement, else an assignment.
    fn statement(tokens: &mut SimpleTokenReader) -> (r: Result<SimpleASTNode, ParseError>)
        requires
            old(tokens).wf(),
        ensures
            final(tokens).wf(),
            final(tokens).tokens() == old(tokens).tokens(),
            match parse_statement(old(tokens).tokens(), old(tokens).position()) {
                Outcome::Matched { tree, next } => r.is_ok() && r.unwrap()@ == tree
                    && well_formed(tree) && final(tokens).position() == next && old(tokens).position() < next,
                Outcome::Unmatched => false,
                Outcome::Failed { error } => r.is_err() && r.unwrap_err() == error,
            },
    {
        match Self::int_declare(tokens) {
            Err(e) => Err(e),
            Ok(Some(child)) => Ok(child),
            Ok(None) => match Self::expression(tokens) {
                Err(e) => Err(e),
                Ok(Some(child)) => Ok(child),
                Ok(None) => match Self::assignment(tokens) {
                    Err(e) => Err(e),
                    Ok(Some(child)) => Ok(child),
                    Ok(None) => Err(ParseError::UnrecognizedStatement),
                },
            },
        }
    }

    /// Parses an expression statement at the cursor. Where an expression
    /// stands there and no `;` follows it, the cursor goes back to where it
    /// was.
    pub fn expression(tokens: &mut SimpleTokenReader) -> (r: Result<
        Option<SimpleASTNode>,
        ParseError,
    >)
        requires
            old(tokens).wf(),
        ensures
            final(tokens).wf(),
            final(tokens).tokens() == old(tokens).tokens(),
            agrees(
                r,
                final(tokens).position(),
                old(tokens).position(),
                parse_expression(old(tokens).tokens(), old(tokens).position()),
            ),
    {
        let pos = tokens.get_position();
        match Self::additive(tokens) {
            Ok(Some(node)) => {
                if next_is(tokens, TokenType::SemiColon) {
                    tokens.read();
                    Ok(Some(node))
                } else {
                    tokens.set_position(pos);
                    Ok(None)
                }
            },
            Ok(None) => Ok(None),
            Err(e) => Err(e),
        }
    }

    /// Parses, behind a name and `=`, the expression and the `;` that end a
    /// declaration or an assignment, and hangs the expression under `node`.
    fn initializer(tokens: &mut SimpleTokenReader, node: SimpleASTNode, Ghost(start): Ghost<int>) -> (r:
        Result<Option<SimpleASTNode>, ParseError>)
        requires
            old(tokens).wf(),
            start < old(tokens).position(),
            node@.children.len() == 0,
            node@.kind == ASTNodeType::IntDeclaration || node@.kind == ASTNodeType::AssignmentStmt,
        ensures
            final(tokens).wf(),
            final(tokens).tokens() == old(tokens).tokens(),
            agrees(
                r,
                final(tokens).position(),
                start,
                parse_initializer(
                    old(tokens).tokens(),
                    old(tokens).position(),
                    node@.kind,
                    node@.text,
                ),
            ),
    {
        let mut node = node;
        match Self::additive(tokens) {
            Ok(Some(child)) => {
                node.add_children(child);
                assert(node@.children =~= seq![child@]);
                if next_is(tokens, TokenType::SemiColon) {
                    tokens.read();
                    Ok(Some(node))
                } else {
                    Err(ParseError::MissingSemicolon)
                }
            },
            Ok(None) => Err(ParseError::MissingExpression),
            Err(e) => Err(e),
        }
    }

    /// Parses an assignment at the cursor. A name that no `=` follows is no
    /// assignment, and the cursor goes back to the name.
    pub fn assignment(tokens: &mut SimpleTokenReader) -> (r: Result<
        Option<SimpleASTNode>,
        ParseError,
    >)
        requires
            old(tokens).wf(),
        ensures
            final(tokens).wf(),
            final(tokens).tokens() == old(tokens).tokens(),
            agrees(
                r,
                final(tokens).position(),
                old(tokens).position(),
                parse_assignment(old(tokens).tokens(), old(tokens).position()),
            ),
    {
        let pos = tokens.get_position();
        if next_is(tokens, TokenType::Identifier) {
            match tokens.read() {
                Some(token) => {
                    if next_is(tokens, TokenType::Assignment) {
                        tokens.read();
                        let node = SimpleASTNode::new(
                            ASTNodeType::AssignmentStmt,
                            token.get_text(),
                        );
                        return Self::initializer(tokens, node, Ghost(pos as int));
                    }
                    tokens.set_position(pos);
                },
                None => {},
            }
        }
        Ok(None)
    }

    /// Parses a declaration at the cursor.
    pub fn int_declare(tokens: &mut SimpleTokenReader) -> (r: Result<
        Option<SimpleASTNode>,
        ParseError,
    >)
        requires
            old(tokens).wf(),
        ensures
            final(tokens).wf(),
            final(tokens).tokens() == old(tokens).tokens(),
            agrees(
                r,
                final(tokens).position(),
                old(tokens).position(),
                parse_declaration(old(tokens).tokens(), old(tokens).position()),
            ),
    {
        let pos = tokens.get_position();
        if !next_is(tokens, TokenType::Int) {
            return Ok(None);
        }
        tokens.read();
        if !next_is(tokens, TokenType::Identifier) {
            return Err(ParseError::MissingIdentifier);
        }
        match tokens.read() {
            Some(token) => {
                let node = SimpleASTNode::new(ASTNodeType::IntDeclaration, token.get_text());
                if next_is(tokens, TokenType::Assignment) {
                    tokens.read();
                    Self::initializer(tokens, node, Ghost(pos as int))
                } else if next_is(tokens, TokenType::SemiColon) {
                    tokens.read();
                    Ok(Some(node))
                } else {
                    Err(ParseError::MissingSemicolon)
                }
            },
            None => Err(ParseError::MissingIdentifier),
        }
    }

    /// Parses a chain of `+` and `-` at the cursor, left to right.
    pub fn additive(tokens: &mut SimpleTokenReader) -> (r: Result<
        Option<SimpleASTNode>,
        ParseError,
    >)
        requires
            old(tokens).wf(),
        ensures
            final(tokens).wf(),
            final(tokens).tokens() == old(tokens).tokens(),
            agrees(
                r,
                final(tokens).position(),
                old(tokens).position(),
                parse_additive(old(tokens).tokens(), old(tokens).position()),
            ),
        decreases old(tokens).tokens().len() - old(tokens).position(), 4nat,
    {
        let ghost ts = tokens.tokens();
        let ghost begin = tokens.position();
        let mut node = match Self::multiplicative(tokens) {
            Ok(Some(first)) => first,
            Ok(None) => {
                return Ok(None);
            },
            Err(e) => {
                return Err(e);
            },
        };
        while next_is(tokens, TokenType::Plus) || next_is(tokens, TokenType::Minus)
            invariant
                tokens.wf(),
                tokens.tokens() == ts,
                ts == old(tokens).tokens(),
                begin == old(tokens).position(),
                begin < tokens.position(),
                well_formed(node@),
                parse_additive(ts, begin) == additive_rest(ts, tokens.position(), node@),
            decreases ts.len() - tokens.position(),
        {
            let ghost left = node@;
            let ghost p = tokens.position();
            let ghost left = node@;
            let ghost p = tokens.position();
            let text = match tokens.read() {
                Some(token) => token.get_text(),
                None => String::new(),
            };
            match Self::multiplicative(tokens) {
                Ok(Some(right)) => {
                    let mut parent = SimpleASTNode::new(ASTNodeType::Additive, text);
                    parent.add_children(node);
                    parent.add_children(right);
                    node = parent;
                    proof {
                        assert(node@.children =~= seq![left, right@]);
                        assert(node@ == binary(ASTNodeType::Additive, ts[p].text, left, right@));
                    }
                },
                Ok(None) => {
                    return Err(ParseError::MissingExpression);
                },
                Err(e) => {
                    return Err(e);
                },
            }
        }
        Ok(Some(node))
    }

    /// Parses a chain of `*` and `/` at the cursor, left to right.
    pub fn multiplicative(tokens: &mut SimpleTokenReader) -> (r: Result<
        Option<SimpleASTNode>,
        ParseError,
    >)
        requires
            old(tokens).wf(),
        ensures
            final(tokens).wf(),
            final(tokens).tokens() == old(tokens).tokens(),
            agrees(
                r,
                final(tokens).position(),
                old(tokens).position(),
                parse_multiplicative(old(tokens).tokens(), old(tokens).position()),
            ),
        decreases old(tokens).tokens().len() - old(tokens).position(), 2nat,
    {
        let ghost ts = tokens.tokens();
        let ghost begin = tokens.position();
        let mut node = match Self::primary(tokens) {
            Ok(Some(first)) => first,
            Ok(None) => {
                return Ok(None);
            },
            Err(e) => {
                return Err(e);
            },
        };
        while next_is(tokens, TokenType::Star) || next_is(tokens, TokenType::Slash)
            invariant
                tokens.wf(),
                tokens.tokens() == ts,
                ts == old(tokens).tokens(),
                begin == old(tokens).position(),
                begin < tokens.position(),
                well_formed(node@),
                parse_multiplicative(ts, begin) == multiplicative_rest(ts, tokens.position(), node@),
            decreases ts.len() - tokens.position(),
        {
            let ghost left = node@;
            let ghost p = tokens.position();
            let ghost left = node@;
            let ghost p = tokens.position();
            let text = match tokens.read() {
                Some(token) => token.get_text(),
                None => String::new(),
            };
            match Self::primary(tokens) {
                Ok(Some(right)) => {
                    let mut parent = SimpleASTNode::new(ASTNodeType::Multiplicative, text);
                    parent.add_children(node);
                    parent.add_children(right);
                    node = parent;
                    proof {
                        assert(node@.children =~= seq![left, right@]);
                        assert(node@ == binary(ASTNodeType::Multiplicative, ts[p].text, left, right@));
                    }
                },
                Ok(None) => {
                    return Err(ParseError::MissingExpression);
                },
                Err(e) => {
                    return Err(e);
                },
            }
        }
        Ok(Some(node))
    }

    /// Parses a name, a number or an expression in parentheses at the cursor.
    pub fn primary(tokens: &mut SimpleTokenReader) -> (r: Result<
        Option<SimpleASTNode>,
        ParseError,
    >)
        requires
            old(tokens).wf(),
        ensures
            final(tokens).wf(),
            final(tokens).tokens() == old(tokens).tokens(),
            agrees(
                r,
                final(tokens).position(),
                old(tokens).position(),
                parse_primary(old(tokens).tokens(), old(tokens).position()),
            ),
        decreases old(tokens).tokens().len() - old(tokens).position(), 0nat,
    {
        match tokens.peek() {
            Some(token) => {
                let kind = token.get_type();
                if kind == TokenType::Identifier {
                    tokens.read();
                    Ok(Some(SimpleASTNode::new(ASTNodeType::Identifier, token.get_text())))
                } else if kind == TokenType::IntLiteral {
                    tokens.read();
                    Ok(Some(SimpleASTNode::new(ASTNodeType::IntLiteral, token.get_text())))
                } else if kind == TokenType::LeftParen {
                    tokens.read();
                    match Self::additive(tokens) {
                        Ok(Some(node)) => {
                            if next_is(tokens, TokenType::RightParen) {
                                tokens.read();
                                Ok(Some(node))
                            } else {
                                Err(ParseError::MissingCloseParen)
                            }
                        },
                        Ok(None) => Err(ParseError::MissingExpression),
                        Err(e) => Err(e),
                    }
                } else {
                    Ok(None)
                }
            },
            None => Ok(None),
        }
    }
}

} // verus!
