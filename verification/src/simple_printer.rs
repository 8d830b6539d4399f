//! The way back from a syntax tree to tokens, and the proof that the parser
//! inverts it.
use vstd::prelude::*;
use crate::{ASTNodeType, TokenType};
use crate::simple_lexer::{
    alnum, blank, digit, digits_len, int_keyword_at, lemma_lexeme_within, lex, lexeme_kind,
    lexeme_len, lexeme_rest, tokens_from, word_len, TokenView,
};
use crate::simple_parser::{
    additive_rest, binary, is_additive_op, is_multiplicative_op, kind_at, leaf,
    multiplicative_rest, named, parse_additive, parse_assignment, parse_declaration,
    parse_expression, parse_initializer, parse_multiplicative, parse_primary, parse_program,
    parse_statement, parse_statements, required, root_text, Ast, Outcome, ParseError,
};

verus! {

/// The tree is an expression of the grammar: a name, a number, or an
/// operator over two expressions.
pub open spec fn is_expression(a: Ast) -> bool
    decreases a,
{
    match a.kind {
        ASTNodeType::Identifier | ASTNodeType::IntLiteral => a.children.len() == 0,
        ASTNodeType::Additive | ASTNodeType::Multiplicative => a.children.len() == 2
            && is_expression(a.children[0]) && is_expression(a.children[1]),
        _ => false,
    }
}

/// The tree is a statement of the grammar: an expression, a declaration
/// with or without an initializer, or an assignment.
pub open spec fn is_statement(a: Ast) -> bool {
    match a.kind {
        ASTNodeType::IntDeclaration => a.children.len() == 0 || (a.children.len() == 1
            && is_expression(a.children[0])),
        ASTNodeType::AssignmentStmt => a.children.len() == 1 && is_expression(a.children[0]),
        _ => is_expression(a),
    }
}

/// The tree is a program of the grammar: a root over statements.
pub open spec fn is_program(a: Ast) -> bool {
    &&& a.kind == ASTNodeType::Programm
    &&& a.text == root_text()
    &&& forall|i: int| 0 <= i < a.children.len() ==> is_statement(#[trigger] a.children[i])
}

/// A token of kind `kind` with lexeme `text`.
pub open spec fn token(kind: TokenType, text: Seq<char>) -> TokenView {
    TokenView { kind, text }
}

/// The token of an operator node: it carries the node's text, and its kind
/// is the one that the text names, or the other operator of the node's kind.
pub open spec fn operator_token(a: Ast) -> TokenView {
    let kind = if a.kind == ASTNodeType::Additive {
        if a.text == seq!['+'] {
            TokenType::Plus
        } else {
            TokenType::Minus
        }
    } else if a.text == seq!['*'] {
        TokenType::Star
    } else {
        TokenType::Slash
    };
    token(kind, a.text)
}

/// The tokens `ts` between `(` and `)`.
pub open spec fn in_parens(ts: Seq<TokenView>) -> Seq<TokenView> {
    seq![token(TokenType::LeftParen, seq!['('])] + ts + seq![token(TokenType::RightParen, seq![')'])]
}

/// The tokens of an expression, with every operand in parentheses.
pub open spec fn print_expression(a: Ast) -> Seq<TokenView>
    decreases a,
{
    match a.kind {
        ASTNodeType::Identifier => seq![token(TokenType::Identifier, a.text)],
        ASTNodeType::IntLiteral => seq![token(TokenType::IntLiteral, a.text)],
        ASTNodeType::Additive | ASTNodeType::Multiplicative => if a.children.len() == 2 {
            in_parens(print_expression(a.children[0])) + seq![operator_token(a)] + in_parens(
                print_expression(a.children[1]),
            )
        } else {
            Seq::empty()
        },
        _ => Seq::empty(),
    }
}

/// The token `;`.
pub open spec fn semicolon() -> TokenView {
    token(TokenType::SemiColon, seq![';'])
}

/// The token `=`.
pub open spec fn assign() -> TokenView {
    token(TokenType::Assignment, seq!['='])
}

/// The tokens of a statement.
pub open spec fn print_statement(a: Ast) -> Seq<TokenView> {
    match a.kind {
        ASTNodeType::IntDeclaration => if a.children.len() == 1 {
            seq![
                token(TokenType::Int, seq!['i', 'n', 't']),
                token(TokenType::Identifier, a.text),
                assign(),
            ] + print_expression(a.children[0]) + seq![semicolon()]
        } else {
            seq![
                token(TokenType::Int, seq!['i', 'n', 't']),
                token(TokenType::Identifier, a.text),
                semicolon(),
            ]
        },
        ASTNodeType::AssignmentStmt => seq![token(TokenType::Identifier, a.text), assign()]
            + print_expression(a.children[0]) + seq![semicolon()],
        _ => print_expression(a) + seq![semicolon()],
    }
}

/// The tokens of the statements from index `k` on, one behind the other.
pub open spec fn print_statements(children: Seq<Ast>, k: int) -> Seq<TokenView>
    decreases children.len() - k,
{
    if k < 0 || k >= children.len() {
        Seq::empty()
    } else {
        print_statement(children[k]) + print_statements(children, k + 1)
    }
}

/// The tokens of a program.
pub open spec fn print_program(a: Ast) -> Seq<TokenView> {
    print_statements(a.children, 0)
}

/// The tokens `pat` stand in `ts` from position `p` on.
pub open spec fn holds_at(ts: Seq<TokenView>, p: int, pat: Seq<TokenView>) -> bool {
    &&& 0 <= p
    &&& p + pat.len() <= ts.len()
    &&& ts.subrange(p, p + pat.len()) == pat
}

/// No operator stands at position `p`.
pub open spec fn ends_chain(ts: Seq<TokenView>, p: int) -> bool {
    !is_additive_op(kind_at(ts, p)) && !is_multiplicative_op(kind_at(ts, p))
}

proof fn lemma_split(ts: Seq<TokenView>, p: int, a: Seq<TokenView>, b: Seq<TokenView>)
    requires
        holds_at(ts, p, a + b),
    ensures
        holds_at(ts, p, a),
        holds_at(ts, p + a.len(), b),
{
    let whole = ts.subrange(p, p + (a + b).len());
    assert forall|i: int| 0 <= i < a.len() implies ts.subrange(p, p + a.len())[i] == a[i] by {
        assert(whole[i] == (a + b)[i]);
    }
    assert(ts.subrange(p, p + a.len()) =~= a);
    assert forall|i: int| 0 <= i < b.len() implies ts.subrange(
        p + a.len(),
        p + a.len() + b.len(),
    )[i] == b[i] by {
        assert(whole[a.len() + i] == (a + b)[a.len() + i]);
    }
    assert(ts.subrange(p + a.len(), p + a.len() + b.len()) =~= b);
}

proof fn lemma_one(ts: Seq<TokenView>, p: int, t: TokenView)
    requires
        holds_at(ts, p, seq![t]),
    ensures
        0 <= p < ts.len(),
        ts[p] == t,
{
    assert(ts.subrange(p, p + 1)[0] == t);
}

/// An operand in parentheses parses to the expression inside.
proof fn lemma_parse_operand(a: Ast, ts: Seq<TokenView>, p: int)
    requires
        is_expression(a),
        holds_at(ts, p, in_parens(print_expression(a))),
    ensures
        parse_primary(ts, p) == (Outcome::Matched {
            tree: a,
            next: p + print_expression(a).len() + 2,
        }),
    decreases a, 1nat,
{
    let inner = print_expression(a);
    let lp = seq![token(TokenType::LeftParen, seq!['('])];
    let rp = seq![token(TokenType::RightParen, seq![')'])];
    lemma_split(ts, p, lp + inner, rp);
    lemma_split(ts, p, lp, inner);
    lemma_one(ts, p, lp[0]);
    lemma_one(ts, p + 1 + inner.len(), rp[0]);
    assert(ends_chain(ts, p + 1 + inner.len()));
    lemma_parse_printed_expression(a, ts, p + 1);
    assert(kind_at(ts, p) == Some(TokenType::LeftParen));
    assert(kind_at(ts, p + 1 + inner.len()) == Some(TokenType::RightParen));
}

/// The parser reads the printed tokens of an expression, where no operator
/// follows them, as that expression.
pub proof fn lemma_parse_printed_expression(a: Ast, ts: Seq<TokenView>, p: int)
    requires
        is_expression(a),
        holds_at(ts, p, print_expression(a)),
        ends_chain(ts, p + print_expression(a).len()),
    ensures
        print_expression(a).len() > 0,
        parse_additive(ts, p) == (Outcome::Matched { tree: a, next: p + print_expression(a).len() }),
    decreases a, 0nat,
{
    if a.kind == ASTNodeType::Identifier || a.kind == ASTNodeType::IntLiteral {
        lemma_one(ts, p, print_expression(a)[0]);
        assert(a.children =~= Seq::empty());
        assert(parse_primary(ts, p) == Outcome::Matched { tree: a, next: p + 1 });
        assert(multiplicative_rest(ts, p + 1, a) == Outcome::Matched { tree: a, next: p + 1 });
        assert(parse_multiplicative(ts, p) == Outcome::Matched { tree: a, next: p + 1 });
        assert(additive_rest(ts, p + 1, a) == Outcome::Matched { tree: a, next: p + 1 });
    } else {
        let c0 = a.children[0];
        let c1 = a.children[1];
        let left = in_parens(print_expression(c0));
        let right = in_parens(print_expression(c1));
        let op = operator_token(a);
        let q1 = p + left.len();
        let q2 = q1 + 1 + right.len();
        lemma_split(ts, p, left + seq![op], right);
        lemma_split(ts, p, left, seq![op]);
        lemma_one(ts, q1, op);
        lemma_parse_operand(c0, ts, p);
        lemma_parse_operand(c1, ts, q1 + 1);
        assert(a.children =~= seq![c0, c1]);
        assert(a == binary(a.kind, ts[q1].text, c0, c1));
        assert(parse_primary(ts, p) == Outcome::Matched { tree: c0, next: q1 });
        assert(parse_primary(ts, q1 + 1) == Outcome::Matched { tree: c1, next: q2 });
        if a.kind == ASTNodeType::Additive {
            assert(is_additive_op(kind_at(ts, q1)));
            assert(multiplicative_rest(ts, q1, c0) == Outcome::Matched { tree: c0, next: q1 });
            assert(parse_multiplicative(ts, p) == Outcome::Matched { tree: c0, next: q1 });
            assert(multiplicative_rest(ts, q2, c1) == Outcome::Matched { tree: c1, next: q2 });
            assert(parse_multiplicative(ts, q1 + 1) == Outcome::Matched { tree: c1, next: q2 });
            assert(additive_rest(ts, q2, a) == Outcome::Matched { tree: a, next: q2 });
            assert(additive_rest(ts, q1, c0) == Outcome::Matched { tree: a, next: q2 });
        } else {
            assert(is_multiplicative_op(kind_at(ts, q1)));
            assert(multiplicative_rest(ts, q2, a) == Outcome::Matched { tree: a, next: q2 });
            assert(multiplicative_rest(ts, q1, c0) == Outcome::Matched { tree: a, next: q2 });
            assert(parse_multiplicative(ts, p) == Outcome::Matched { tree: a, next: q2 });
            assert(additive_rest(ts, q2, a) == Outcome::Matched { tree: a, next: q2 });
        }
    }
}

proof fn lemma_index(ts: Seq<TokenView>, p: int, pat: Seq<TokenView>, i: int)
    requires
        holds_at(ts, p, pat),
        0 <= i < pat.len(),
    ensures
        0 <= p + i < ts.len(),
        ts[p + i] == pat[i],
{
    assert(ts.subrange(p, p + pat.len())[i] == pat[i]);
}

/// The parser reads the printed tokens of a statement as that statement.
pub proof fn lemma_parse_printed_statement(a: Ast, ts: Seq<TokenView>, p: int)
    requires
        is_statement(a),
        holds_at(ts, p, print_statement(a)),
    ensures
        print_statement(a).len() > 0,
        parse_statement(ts, p) == (Outcome::Matched { tree: a, next: p + print_statement(a).len() }),
{
    let all = print_statement(a);
    if a.kind == ASTNodeType::IntDeclaration && a.children.len() == 0 {
        lemma_index(ts, p, all, 0);
        lemma_index(ts, p, all, 1);
        lemma_index(ts, p, all, 2);
        assert(a.children =~= Seq::empty());
        assert(a == named(ASTNodeType::IntDeclaration, ts[p + 1].text, Seq::empty()));
    } else if a.kind == ASTNodeType::IntDeclaration {
        let c0 = a.children[0];
        let head = seq![
            token(TokenType::Int, seq!['i', 'n', 't']),
            token(TokenType::Identifier, a.text),
            assign(),
        ];
        let body = print_expression(c0);
        lemma_split(ts, p, head + body, seq![semicolon()]);
        lemma_split(ts, p, head, body);
        lemma_index(ts, p, head, 0);
        lemma_index(ts, p, head, 1);
        lemma_index(ts, p, head, 2);
        lemma_index(ts, p + 3 + body.len(), seq![semicolon()], 0);
        lemma_parse_printed_expression(c0, ts, p + 3);
        assert(a.children =~= seq![c0]);
        assert(a == named(ASTNodeType::IntDeclaration, ts[p + 1].text, seq![c0]));
        assert(parse_initializer(ts, p + 3, ASTNodeType::IntDeclaration, ts[p + 1].text) == (
            Outcome::Matched { tree: a, next: p + 3 + body.len() + 1 }));
    } else if a.kind == ASTNodeType::AssignmentStmt {
        let c0 = a.children[0];
        let head = seq![token(TokenType::Identifier, a.text), assign()];
        let body = print_expression(c0);
        lemma_split(ts, p, head + body, seq![semicolon()]);
        lemma_split(ts, p, head, body);
        lemma_index(ts, p, head, 0);
        lemma_index(ts, p, head, 1);
        lemma_index(ts, p + 2 + body.len(), seq![semicolon()], 0);
        lemma_parse_printed_expression(c0, ts, p + 2);
        assert(a.children =~= seq![c0]);
        assert(a == named(ASTNodeType::AssignmentStmt, ts[p].text, seq![c0]));
        let name = leaf(ASTNodeType::Identifier, ts[p].text);
        assert(parse_primary(ts, p) == Outcome::Matched { tree: name, next: p + 1 });
        assert(multiplicative_rest(ts, p + 1, name) == Outcome::Matched { tree: name, next: p + 1 });
        assert(parse_multiplicative(ts, p) == Outcome::Matched { tree: name, next: p + 1 });
        assert(additive_rest(ts, p + 1, name) == Outcome::Matched { tree: name, next: p + 1 });
        assert(parse_additive(ts, p) == Outcome::Matched { tree: name, next: p + 1 });
        assert(parse_expression(ts, p) == Outcome::Unmatched);
        assert(parse_declaration(ts, p) == Outcome::Unmatched);
        assert(parse_initializer(ts, p + 2, ASTNodeType::AssignmentStmt, ts[p].text) == (
            Outcome::Matched { tree: a, next: p + 2 + body.len() + 1 }));
        assert(parse_assignment(ts, p) == (Outcome::Matched { tree: a, next: p + 2 + body.len() + 1 }));
    } else {
        let body = print_expression(a);
        lemma_split(ts, p, body, seq![semicolon()]);
        lemma_index(ts, p + body.len(), seq![semicolon()], 0);
        lemma_parse_printed_expression(a, ts, p);
        if kind_at(ts, p) == Some(TokenType::Int) {
            assert(parse_primary(ts, p) == Outcome::Unmatched);
            assert(parse_multiplicative(ts, p) == Outcome::Unmatched);
            assert(parse_additive(ts, p) == Outcome::Unmatched);
        }
        assert(parse_declaration(ts, p) == Outcome::Unmatched);
        assert(parse_expression(ts, p) == (Outcome::Matched { tree: a, next: p + body.len() + 1 }));
    }
}

proof fn lemma_parse_printed_statements(
    children: Seq<Ast>,
    k: int,
    ts: Seq<TokenView>,
    p: int,
    done: Seq<Ast>,
)
    requires
        forall|i: int| 0 <= i < children.len() ==> is_statement(#[trigger] children[i]),
        0 <= k <= children.len(),
        holds_at(ts, p, print_statements(children, k)),
        p + print_statements(children, k).len() == ts.len(),
    ensures
        parse_statements(ts, p, done) == Ok::<Seq<Ast>, ParseError>(
            done + children.subrange(k, children.len() as int),
        ),
    decreases children.len() - k,
{
    if k == children.len() {
        assert(done + children.subrange(k, children.len() as int) =~= done);
    } else {
        let first = print_statement(children[k]);
        let rest = print_statements(children, k + 1);
        lemma_split(ts, p, first, rest);
        lemma_parse_printed_statement(children[k], ts, p);
        lemma_parse_printed_statements(children, k + 1, ts, p + first.len(), done.push(children[k]));
        assert(done.push(children[k]) + children.subrange(k + 1, children.len() as int) =~= done
            + children.subrange(k, children.len() as int));
    }
}

/// Every program of the grammar is what the parser makes of its printed
/// tokens.
pub proof fn lemma_parse_inverts_print(a: Ast)
    requires
        is_program(a),
    ensures
        parse_program(print_program(a), 0) == Ok::<Ast, ParseError>(a),
{
    let ts = print_program(a);
    assert(ts.subrange(0, ts.len() as int) =~= ts);
    lemma_parse_printed_statements(a.children, 0, ts, 0, Seq::empty());
    assert(Seq::<Ast>::empty() + a.children.subrange(0, a.children.len() as int) =~= a.children);
}

proof fn lemma_primary_shape(ts: Seq<TokenView>, p: int)
    ensures
        match parse_primary(ts, p) {
            Outcome::Matched { tree, next } => is_expression(tree) && p < next <= ts.len(),
            _ => true,
        },
    decreases ts.len() - p, 0nat,
{
    if kind_at(ts, p) == Some(TokenType::LeftParen) {
        lemma_additive_shape(ts, p + 1);
    }
}

proof fn lemma_multiplicative_rest_shape(ts: Seq<TokenView>, p: int, left: Ast)
    requires
        is_expression(left),
        p <= ts.len(),
    ensures
        match multiplicative_rest(ts, p, left) {
            Outcome::Matched { tree, next } => is_expression(tree) && p <= next <= ts.len(),
            _ => true,
        },
    decreases ts.len() - p, 1nat,
{
    if is_multiplicative_op(kind_at(ts, p)) {
        lemma_primary_shape(ts, p + 1);
        match required(parse_primary(ts, p + 1)) {
            Outcome::Matched { tree, next } => {
                if p < next <= ts.len() {
                    lemma_multiplicative_rest_shape(
                        ts,
                        next,
                        binary(ASTNodeType::Multiplicative, ts[p].text, left, tree),
                    );
                }
            },
            _ => {},
        }
    }
}

proof fn lemma_multiplicative_shape(ts: Seq<TokenView>, p: int)
    ensures
        match parse_multiplicative(ts, p) {
            Outcome::Matched { tree, next } => is_expression(tree) && p < next <= ts.len(),
            _ => true,
        },
    decreases ts.len() - p, 2nat,
{
    lemma_primary_shape(ts, p);
    match parse_primary(ts, p) {
        Outcome::Matched { tree, next } => {
            if p < next <= ts.len() {
                lemma_multiplicative_rest_shape(ts, next, tree);
            }
        },
        _ => {},
    }
}

proof fn lemma_additive_rest_shape(ts: Seq<TokenView>, p: int, left: Ast)
    requires
        is_expression(left),
        p <= ts.len(),
    ensures
        match additive_rest(ts, p, left) {
            Outcome::Matched { tree, next } => is_expression(tree) && p <= next <= ts.len(),
            _ => true,
        },
    decreases ts.len() - p, 3nat,
{
    if is_additive_op(kind_at(ts, p)) {
        lemma_multiplicative_shape(ts, p + 1);
        match required(parse_multiplicative(ts, p + 1)) {
            Outcome::Matched { tree, next } => {
                if p < next <= ts.len() {
                    lemma_additive_rest_shape(
                        ts,
                        next,
                        binary(ASTNodeType::Additive, ts[p].text, left, tree),
                    );
                }
            },
            _ => {},
        }
    }
}

/// Where the tokens from a position on are an expression, its tree is an
/// expression of the grammar, and it takes at least one token and none
/// from behind the end.
pub proof fn lemma_additive_shape(ts: Seq<TokenView>, p: int)
    ensures
        match parse_additive(ts, p) {
            Outcome::Matched { tree, next } => is_expression(tree) && p < next <= ts.len(),
            _ => true,
        },
    decreases ts.len() - p, 4nat,
{
    lemma_multiplicative_shape(ts, p);
    match parse_multiplicative(ts, p) {
        Outcome::Matched { tree, next } => {
            if p < next <= ts.len() {
                lemma_additive_rest_shape(ts, next, tree);
            }
        },
        _ => {},
    }
}

/// Where the tokens from a position on are a statement, its tree is a
/// statement of the grammar, and it takes at least one token and none from
/// behind the end.
pub proof fn lemma_statement_shape(ts: Seq<TokenView>, p: int)
    ensures
        match parse_statement(ts, p) {
            Outcome::Matched { tree, next } => is_statement(tree) && p < next <= ts.len(),
            _ => true,
        },
{
    lemma_additive_shape(ts, p);
    lemma_additive_shape(ts, p + 2);
    lemma_additive_shape(ts, p + 3);
}

proof fn lemma_statements_shape(ts: Seq<TokenView>, p: int, done: Seq<Ast>)
    requires
        forall|i: int| 0 <= i < done.len() ==> is_statement(#[trigger] done[i]),
    ensures
        match parse_statements(ts, p, done) {
            Ok(all) => forall|i: int| 0 <= i < all.len() ==> is_statement(#[trigger] all[i]),
            Err(_) => true,
        },
    decreases ts.len() - p,
{
    if 0 <= p < ts.len() {
        lemma_statement_shape(ts, p);
        match parse_statement(ts, p) {
            Outcome::Matched { tree, next } => {
                if p < next <= ts.len() {
                    lemma_statements_shape(ts, next, done.push(tree));
                }
            },
            _ => {},
        }
    }
}

/// What the parser makes of any tokens is a program of the grammar.
pub proof fn lemma_parsed_is_program(ts: Seq<TokenView>, p: int)
    ensures
        match parse_program(ts, p) {
            Ok(tree) => is_program(tree),
            Err(_) => true,
        },
{
    lemma_statements_shape(ts, p, Seq::empty());
}

/// Parsing is idempotent through printing: where tokens parse to a tree,
/// the tokens printed from that tree parse to the same tree.
pub proof fn lemma_reparse_gives_same_tree(ts: Seq<TokenView>, tree: Ast)
    requires
        parse_program(ts, 0) == Ok::<Ast, ParseError>(tree),
    ensures
        parse_program(print_program(tree), 0) == Ok::<Ast, ParseError>(tree),
{
    lemma_parsed_is_program(ts, 0);
    lemma_parse_inverts_print(tree);
}

/// The text of the tokens from index `k` on: each lexeme with one space
/// behind it.
pub open spec fn spell(ts: Seq<TokenView>, k: int) -> Seq<char>
    decreases ts.len() - k,
{
    if k < 0 || k >= ts.len() {
        Seq::empty()
    } else {
        ts[k].text + seq![' '] + spell(ts, k + 1)
    }
}

/// The token is what the lexer cuts from its own lexeme with a space behind
/// it: the whole lexeme, under the token's kind.
pub open spec fn faithful(t: TokenView) -> bool {
    let s = t.text + seq![' '];
    &&& t.text.len() > 0
    &&& !blank(t.text[0])
    &&& lexeme_len(s, 0) == t.text.len()
    &&& lexeme_kind(s, 0, t.text.len()) == t.kind
}

proof fn lemma_runs_alike(a: Seq<char>, i: int, b: Seq<char>, j: int)
    requires
        0 <= i <= a.len(),
        0 <= j <= b.len(),
        a.skip(i) == b.skip(j),
    ensures
        word_len(a, i) == word_len(b, j),
        digits_len(a, i) == digits_len(b, j),
    decreases a.len() - i,
{
    assert(a.skip(i).len() == a.len() - i);
    assert(b.skip(j).len() == b.len() - j);
    if i < a.len() {
        assert(a.skip(i)[0] == a[i]);
        assert(b.skip(j)[0] == b[j]);
        assert(a.skip(i + 1) =~= a.skip(i).skip(1));
        assert(b.skip(j + 1) =~= b.skip(j).skip(1));
        lemma_runs_alike(a, i + 1, b, j + 1);
    }
}

proof fn lemma_runs_end_at_blank(w: Seq<char>, rest: Seq<char>, i: int)
    requires
        0 <= i <= w.len(),
    ensures
        word_len(w + seq![' '] + rest, i) == word_len(w + seq![' '], i),
        digits_len(w + seq![' '] + rest, i) == digits_len(w + seq![' '], i),
    decreases w.len() - i,
{
    let long = w + seq![' '] + rest;
    let short = w + seq![' '];
    assert(long[i] == short[i]);
    if i < w.len() {
        lemma_runs_end_at_blank(w, rest, i + 1);
    }
}

/// What the lexer cuts at a position depends on the text from there on
/// alone.
pub proof fn lemma_tokens_of_suffix(s: Seq<char>, i: int)
    requires
        0 <= i <= s.len(),
    ensures
        tokens_from(s, i) == tokens_from(s.skip(i), 0),
    decreases s.len() - i,
{
    let r = s.skip(i);
    if i < s.len() {
        assert(r[0] == s[i]);
        if blank(s[i]) {
            lemma_tokens_of_suffix(s, i + 1);
            lemma_tokens_of_suffix(r, 1);
            assert(r.skip(1) =~= s.skip(i + 1));
        } else {
            assert(r.skip(1) =~= s.skip(i + 1));
            lemma_runs_alike(s, i + 1, r, 1);
            if i + 1 < s.len() {
                assert(r[1] == s[i + 1]);
            }
            let n = lexeme_len(s, i);
            assert(lexeme_len(r, 0) == n);
            lemma_lexeme_within(s, i);
            if n == 3 && i + 3 < s.len() {
                assert(r[1] == s[i + 1]);
                assert(r[2] == s[i + 2]);
                assert(r[3] == s[i + 3]);
            }
            assert(int_keyword_at(s, i) == int_keyword_at(r, 0) || n != 3);
            assert(lexeme_kind(s, i, n) == lexeme_kind(r, 0, n));
            assert(s.subrange(i, i + n) =~= r.subrange(0, n as int));
            if i + n < s.len() {
                lemma_tokens_of_suffix(s, i + n);
                lemma_tokens_of_suffix(r, n as int);
                assert(r.skip(n as int) =~= s.skip(i + n));
            }
        }
    }
}

/// Lexing inverts spelling: the lexer cuts the text of faithful tokens
/// into those tokens again.
pub proof fn lemma_lex_inverts_spell(ts: Seq<TokenView>, k: int)
    requires
        0 <= k <= ts.len(),
        forall|i: int| 0 <= i < ts.len() ==> faithful(#[trigger] ts[i]),
    ensures
        lex(spell(ts, k)) == ts.subrange(k, ts.len() as int),
    decreases ts.len() - k,
{
    let s = spell(ts, k);
    if k == ts.len() {
        assert(ts.subrange(k, ts.len() as int) =~= Seq::<TokenView>::empty());
    } else {
        let t = ts[k];
        let w = t.text;
        let rest = spell(ts, k + 1);
        let short = w + seq![' '];
        let n = w.len() as int;
        assert(faithful(t));
        assert(s == short + rest);
        assert(s[0] == w[0]);
        assert(s[n] == ' ');
        assert(short[n] == ' ');
        lemma_runs_end_at_blank(w, rest, 1);
        assert(s[1] == short[1]);
        assert(lexeme_rest(s, 0) == lexeme_rest(short, 0));
        assert(lexeme_len(s, 0) == n);
        if n == 3 {
            assert(s[1] == short[1]);
            assert(s[2] == short[2]);
            assert(s[3] == short[3]);
            assert(int_keyword_at(s, 0) == int_keyword_at(short, 0));
        }
        assert(lexeme_kind(s, 0, n as nat) == t.kind);
        assert(s.subrange(0, n) =~= w);
        assert(TokenView { kind: t.kind, text: w } == t);
        assert(tokens_from(s, 0) == seq![t] + tokens_from(s, n));
        assert(tokens_from(s, n) == tokens_from(s, n + 1));
        lemma_tokens_of_suffix(s, n + 1);
        assert(s.skip(n + 1) =~= rest);
        lemma_lex_inverts_spell(ts, k + 1);
        assert(seq![t] + ts.subrange(k + 1, ts.len() as int) =~= ts.subrange(k, ts.len() as int));
    }
}

/// The text printed from a program of the grammar, where each of its
/// tokens is faithful, lexes and parses to that program.
pub proof fn lemma_parse_inverts_spelled_print(a: Ast)
    requires
        is_program(a),
        forall|i: int|
            0 <= i < print_program(a).len() ==> faithful(#[trigger] print_program(a)[i]),
    ensures
        parse_program(lex(spell(print_program(a), 0)), 0) == Ok::<Ast, ParseError>(a),
{
    let ts = print_program(a);
    lemma_lex_inverts_spell(ts, 0);
    assert(ts.subrange(0, ts.len() as int) =~= ts);
    lemma_parse_inverts_print(a);
}

/// The token is the name `int`: what the lexer makes of the keyword's
/// letters where no blank follows them.
pub open spec fn is_int_name(t: TokenView) -> bool {
    t.kind == TokenType::Identifier && t.text == seq!['i', 'n', 't']
}

proof fn lemma_run_chars(s: Seq<char>, a: int)
    requires
        0 <= a <= s.len(),
    ensures
        a + word_len(s, a) <= s.len(),
        a + digits_len(s, a) <= s.len(),
        forall|j: int| a <= j < a + word_len(s, a) ==> alnum(#[trigger] s[j]),
        forall|j: int| a <= j < a + digits_len(s, a) ==> digit(#[trigger] s[j]),
    decreases s.len() - a,
{
    if a < s.len() {
        lemma_run_chars(s, a + 1);
    }
}

proof fn lemma_run_before_blank(w: Seq<char>, a: int)
    requires
        0 <= a <= w.len(),
    ensures
        (forall|j: int| a <= j < w.len() ==> alnum(#[trigger] w[j])) ==> word_len(
            w + seq![' '],
            a,
        ) == w.len() - a,
        (forall|j: int| a <= j < w.len() ==> digit(#[trigger] w[j])) ==> digits_len(
            w + seq![' '],
            a,
        ) == w.len() - a,
    decreases w.len() - a,
{
    let u = w + seq![' '];
    if a < w.len() {
        assert(u[a] == w[a]);
        lemma_run_before_blank(w, a + 1);
    } else {
        assert(u[a] == ' ');
    }
}

/// What the lexer cuts at a position is a faithful token, or the name
/// `int`.
proof fn lemma_cut_is_faithful(s: Seq<char>, i: int)
    requires
        0 <= i < s.len(),
        !blank(s[i]),
    ensures
        ({
            let n = lexeme_len(s, i);
            let t = TokenView { kind: lexeme_kind(s, i, n), text: s.subrange(i, i + n) };
            faithful(t) || is_int_name(t)
        }),
{
    let n = lexeme_len(s, i) as int;
    let w = s.subrange(i, i + n);
    let u = w + seq![' '];
    lemma_lexeme_within(s, i);
    lemma_run_chars(s, i + 1);
    assert(w.len() == n);
    assert(u[0] == s[i]);
    assert forall|j: int| 0 <= j < n implies w[j] == s[i + j] by {}
    lemma_run_before_blank(w, 1);
    assert(u[n] == ' ');
    if n >= 2 {
        assert(u[1] == s[i + 1]);
    }
    if alnum(s[i]) {
        assert forall|j: int| 1 <= j < w.len() implies alnum(#[trigger] w[j]) by {
            assert(w[j] == s[i + j]);
        }
        if digit(s[i]) {
            assert forall|j: int| 1 <= j < w.len() implies digit(#[trigger] w[j]) by {
                assert(w[j] == s[i + j]);
            }
        }
        assert(lexeme_len(u, 0) == n);
        if n == 3 {
            assert(u[1] == s[i + 1]);
            assert(u[2] == s[i + 2]);
            assert(u[3] == ' ');
            if int_keyword_at(u, 0) {
                assert(w =~= seq!['i', 'n', 't']);
            }
        }
    } else {
        assert(lexeme_len(u, 0) == n);
    }
}

/// Every token that the lexer cuts from a text is faithful, or the name
/// `int`.
pub proof fn lemma_lexed_tokens_faithful(s: Seq<char>, i: int)
    ensures
        forall|k: int|
            0 <= k < tokens_from(s, i).len() ==> faithful(#[trigger] tokens_from(s, i)[k])
                || is_int_name(tokens_from(s, i)[k]),
    decreases s.len() - i,
{
    if 0 <= i < s.len() {
        if blank(s[i]) {
            lemma_lexed_tokens_faithful(s, i + 1);
        } else {
            lemma_cut_is_faithful(s, i);
            let n = lexeme_len(s, i);
            let first = TokenView { kind: lexeme_kind(s, i, n), text: s.subrange(i, i + n) };
            let all = tokens_from(s, i);
            if i + n < s.len() {
                let rest = tokens_from(s, i + n);
                lemma_lexed_tokens_faithful(s, i + n);
                assert(all == seq![first] + rest);
                assert forall|k: int| 0 <= k < all.len() implies faithful(#[trigger] all[k])
                    || is_int_name(all[k]) by {
                    if k > 0 {
                        assert(all[k] == rest[k - 1]);
                    }
                }
            } else {
                assert(all == seq![first]);
            }
        }
    }
}

/// Every token of the sequence is faithful.
pub open spec fn all_faithful(ts: Seq<TokenView>) -> bool {
    forall|i: int| 0 <= i < ts.len() ==> faithful(#[trigger] ts[i])
}

proof fn lemma_faithful_concat(a: Seq<TokenView>, b: Seq<TokenView>)
    requires
        all_faithful(a),
        all_faithful(b),
    ensures
        all_faithful(a + b),
{
    assert forall|i: int| 0 <= i < (a + b).len() implies faithful(#[trigger] (a + b)[i]) by {
        if i < a.len() {
            assert((a + b)[i] == a[i]);
        } else {
            assert((a + b)[i] == b[i - a.len()]);
        }
    }
}

proof fn lemma_fixed_tokens_faithful()
    ensures
        faithful(token(TokenType::LeftParen, seq!['('])),
        faithful(token(TokenType::RightParen, seq![')'])),
        faithful(semicolon()),
        faithful(assign()),
        faithful(token(TokenType::Int, seq!['i', 'n', 't'])),
{
    assert((seq!['('] + seq![' '])[0] == '(');
    assert((seq![')'] + seq![' '])[0] == ')');
    assert((seq![';'] + seq![' '])[0] == ';');
    assert((seq!['='] + seq![' '])[0] == '=');
    assert((seq!['='] + seq![' '])[1] == ' ');
    let w = seq!['i', 'n', 't'];
    let u = w + seq![' '];
    lemma_run_before_blank(w, 1);
    assert(u[0] == 'i' && u[1] == 'n' && u[2] == 't' && u[3] == ' ');
}

/// A faithful operator token is the token of the node that the parser
/// builds from it.
proof fn lemma_operator_token(t: TokenView, kind: ASTNodeType, left: Ast, right: Ast)
    requires
        faithful(t),
        (kind == ASTNodeType::Additive && is_additive_op(Some(t.kind))) || (kind
            == ASTNodeType::Multiplicative && is_multiplicative_op(Some(t.kind))),
    ensures
        operator_token(binary(kind, t.text, left, right)) == t,
{
    let u = t.text + seq![' '];
    assert(u[0] == t.text[0]);
    assert(lexeme_len(u, 0) == 1);
    assert(t.text =~= seq![t.text[0]]);
}

proof fn lemma_binary_spelled(t: TokenView, kind: ASTNodeType, left: Ast, right: Ast)
    requires
        faithful(t),
        (kind == ASTNodeType::Additive && is_additive_op(Some(t.kind))) || (kind
            == ASTNodeType::Multiplicative && is_multiplicative_op(Some(t.kind))),
        all_faithful(print_expression(left)),
        all_faithful(print_expression(right)),
    ensures
        all_faithful(print_expression(binary(kind, t.text, left, right))),
{
    let node = binary(kind, t.text, left, right);
    let lp = seq![token(TokenType::LeftParen, seq!['('])];
    let rp = seq![token(TokenType::RightParen, seq![')'])];
    lemma_operator_token(t, kind, left, right);
    lemma_fixed_tokens_faithful();
    lemma_faithful_concat(lp, print_expression(left));
    lemma_faithful_concat(lp + print_expression(left), rp);
    lemma_faithful_concat(lp, print_expression(right));
    lemma_faithful_concat(lp + print_expression(right), rp);
    lemma_faithful_concat(in_parens(print_expression(left)), seq![t]);
    lemma_faithful_concat(
        in_parens(print_expression(left)) + seq![t],
        in_parens(print_expression(right)),
    );
    assert(node.children[0] == left);
    assert(node.children[1] == right);
}

proof fn lemma_primary_spelled(ts: Seq<TokenView>, p: int)
    requires
        all_faithful(ts),
    ensures
        match parse_primary(ts, p) {
            Outcome::Matched { tree, next } => all_faithful(print_expression(tree)),
            _ => true,
        },
    decreases ts.len() - p, 0nat,
{
    let k = kind_at(ts, p);
    if k == Some(TokenType::LeftParen) {
        lemma_additive_spelled(ts, p + 1);
    } else if k == Some(TokenType::Identifier) || k == Some(TokenType::IntLiteral) {
        assert(faithful(ts[p]));
    }
}

proof fn lemma_multiplicative_rest_spelled(ts: Seq<TokenView>, p: int, left: Ast)
    requires
        all_faithful(ts),
        all_faithful(print_expression(left)),
    ensures
        match multiplicative_rest(ts, p, left) {
            Outcome::Matched { tree, next } => all_faithful(print_expression(tree)),
            _ => true,
        },
    decreases ts.len() - p, 1nat,
{
    if is_multiplicative_op(kind_at(ts, p)) {
        lemma_primary_spelled(ts, p + 1);
        match required(parse_primary(ts, p + 1)) {
            Outcome::Matched { tree, next } => {
                if p < next <= ts.len() {
                    assert(faithful(ts[p]));
                    lemma_binary_spelled(ts[p], ASTNodeType::Multiplicative, left, tree);
                    lemma_multiplicative_rest_spelled(
                        ts,
                        next,
                        binary(ASTNodeType::Multiplicative, ts[p].text, left, tree),
                    );
                }
            },
            _ => {},
        }
    }
}

proof fn lemma_multiplicative_spelled(ts: Seq<TokenView>, p: int)
    requires
        all_faithful(ts),
    ensures
        match parse_multiplicative(ts, p) {
            Outcome::Matched { tree, next } => all_faithful(print_expression(tree)),
            _ => true,
        },
    decreases ts.len() - p, 2nat,
{
    lemma_primary_spelled(ts, p);
    match parse_primary(ts, p) {
        Outcome::Matched { tree, next } => {
            if p < next <= ts.len() {
                lemma_multiplicative_rest_spelled(ts, next, tree);
            }
        },
        _ => {},
    }
}

proof fn lemma_additive_rest_spelled(ts: Seq<TokenView>, p: int, left: Ast)
    requires
        all_faithful(ts),
        all_faithful(print_expression(left)),
    ensures
        match additive_rest(ts, p, left) {
            Outcome::Matched { tree, next } => all_faithful(print_expression(tree)),
            _ => true,
        },
    decreases ts.len() - p, 3nat,
{
    if is_additive_op(kind_at(ts, p)) {
        lemma_multiplicative_spelled(ts, p + 1);
        match required(parse_multiplicative(ts, p + 1)) {
            Outcome::Matched { tree, next } => {
                if p < next <= ts.len() {
                    assert(faithful(ts[p]));
                    lemma_binary_spelled(ts[p], ASTNodeType::Additive, left, tree);
                    lemma_additive_rest_spelled(
                        ts,
                        next,
                        binary(ASTNodeType::Additive, ts[p].text, left, tree),
                    );
                }
            },
            _ => {},
        }
    }
}

proof fn lemma_additive_spelled(ts: Seq<TokenView>, p: int)
    requires
        all_faithful(ts),
    ensures
        match parse_additive(ts, p) {
            Outcome::Matched { tree, next } => all_faithful(print_expression(tree)),
            _ => true,
        },
    decreases ts.len() - p, 4nat,
{
    lemma_multiplicative_spelled(ts, p);
    match parse_multiplicative(ts, p) {
        Outcome::Matched { tree, next } => {
            if p < next <= ts.len() {
                lemma_additive_rest_spelled(ts, next, tree);
            }
        },
        _ => {},
    }
}

proof fn lemma_initializer_spelled(
    ts: Seq<TokenView>,
    p: int,
    kind: ASTNodeType,
    name: TokenView,
)
    requires
        all_faithful(ts),
        faithful(name),
        name.kind == TokenType::Identifier,
        kind == ASTNodeType::IntDeclaration || kind == ASTNodeType::AssignmentStmt,
    ensures
        match parse_initializer(ts, p, kind, name.text) {
            Outcome::Matched { tree, next } => all_faithful(print_statement(tree)),
            _ => true,
        },
{
    lemma_additive_spelled(ts, p);
    lemma_fixed_tokens_faithful();
    match required(parse_additive(ts, p)) {
        Outcome::Matched { tree, next } => {
            let node = named(kind, name.text, seq![tree]);
            let body = print_expression(tree);
            assert(node.children[0] == tree);
            assert(token(TokenType::Identifier, name.text) == name);
            if kind == ASTNodeType::IntDeclaration {
                let head = seq![token(TokenType::Int, seq!['i', 'n', 't']), name, assign()];
                assert(all_faithful(head));
                lemma_faithful_concat(head, body);
                lemma_faithful_concat(head + body, seq![semicolon()]);
                assert(print_statement(node) == head + body + seq![semicolon()]);
            } else {
                let head = seq![name, assign()];
                assert(all_faithful(head));
                lemma_faithful_concat(head, body);
                lemma_faithful_concat(head + body, seq![semicolon()]);
                assert(print_statement(node) == head + body + seq![semicolon()]);
            }
        },
        _ => {},
    }
}

proof fn lemma_statement_spelled(ts: Seq<TokenView>, p: int)
    requires
        all_faithful(ts),
    ensures
        match parse_statement(ts, p) {
            Outcome::Matched { tree, next } => all_faithful(print_statement(tree)),
            _ => true,
        },
{
    lemma_fixed_tokens_faithful();
    lemma_additive_spelled(ts, p);
    lemma_additive_shape(ts, p);
    if kind_at(ts, p) == Some(TokenType::Int) {
        if kind_at(ts, p + 1) == Some(TokenType::Identifier) {
            assert(faithful(ts[p + 1]));
            lemma_initializer_spelled(ts, p + 3, ASTNodeType::IntDeclaration, ts[p + 1]);
            if kind_at(ts, p + 2) == Some(TokenType::SemiColon) {
                let node = named(ASTNodeType::IntDeclaration, ts[p + 1].text, Seq::empty());
                let all = seq![
                    token(TokenType::Int, seq!['i', 'n', 't']),
                    token(TokenType::Identifier, ts[p + 1].text),
                    semicolon(),
                ];
                assert(token(TokenType::Identifier, ts[p + 1].text) == ts[p + 1]);
                assert(print_statement(node) == all);
                assert(all_faithful(all));
            }
        }
    } else {
        match parse_expression(ts, p) {
            Outcome::Matched { tree, next } => {
                lemma_faithful_concat(print_expression(tree), seq![semicolon()]);
            },
            Outcome::Unmatched => {
                if kind_at(ts, p) == Some(TokenType::Identifier) {
                    assert(faithful(ts[p]));
                    lemma_initializer_spelled(ts, p + 2, ASTNodeType::AssignmentStmt, ts[p]);
                }
            },
            _ => {},
        }
    }
}

/// Every statement of the sequence prints to faithful tokens.
pub open spec fn statements_spelled(done: Seq<Ast>) -> bool {
    forall|i: int| 0 <= i < done.len() ==> all_faithful(print_statement(#[trigger] done[i]))
}

proof fn lemma_statements_spelled(ts: Seq<TokenView>, p: int, done: Seq<Ast>)
    requires
        all_faithful(ts),
        statements_spelled(done),
    ensures
        match parse_statements(ts, p, done) {
            Ok(all) => statements_spelled(all),
            Err(_) => true,
        },
    decreases ts.len() - p,
{
    if 0 <= p < ts.len() {
        lemma_statement_spelled(ts, p);
        match parse_statement(ts, p) {
            Outcome::Matched { tree, next } => {
                if p < next <= ts.len() {
                    lemma_statements_spelled(ts, next, done.push(tree));
                }
            },
            _ => {},
        }
    }
}

proof fn lemma_program_spelled(children: Seq<Ast>, k: int)
    requires
        statements_spelled(children),
        0 <= k <= children.len(),
    ensures
        all_faithful(print_statements(children, k)),
    decreases children.len() - k,
{
    if k < children.len() {
        lemma_program_spelled(children, k + 1);
        lemma_faithful_concat(print_statement(children[k]), print_statements(children, k + 1));
    }
}

/// Parsing is idempotent through text: where a text in which `int` is
/// nowhere used as a name parses to a tree, the text printed from that
/// tree parses to the same tree.
pub proof fn lemma_reparse_of_printed_text(s: Seq<char>, tree: Ast)
    requires
        parse_program(lex(s), 0) == Ok::<Ast, ParseError>(tree),
        forall|k: int| 0 <= k < lex(s).len() ==> !is_int_name(#[trigger] lex(s)[k]),
    ensures
        parse_program(lex(spell(print_program(tree), 0)), 0) == Ok::<Ast, ParseError>(tree),
{
    let ts = lex(s);
    lemma_lexed_tokens_faithful(s, 0);
    assert(all_faithful(ts));
    lemma_parsed_is_program(ts, 0);
    lemma_statements_spelled(ts, 0, Seq::empty());
    lemma_program_spelled(tree.children, 0);
    lemma_parse_inverts_spelled_print(tree);
}

} // verus!
