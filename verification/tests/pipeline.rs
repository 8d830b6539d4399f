use craft::simple_lexer::{is_alpha, is_blank, is_digit, DfaState, SimpleLexer, SimpleToken, SimpleTokenReader};
use craft::simple_parser::{ParseError, SimpleASTNode, SimpleParser};
use craft::simple_script::{EvalError, SimpleScript};
use craft::{ASTNode, ASTNodeType, Token, TokenReader, TokenType};

fn tokens_of(code: &str) -> Vec<(TokenType, String)> {
    let lexer = SimpleLexer::new();
    let mut reader = lexer.tokenize(code.to_owned());
    let mut out = Vec::new();
    while let Some(token) = reader.peek() {
        reader.read();
        out.push((token.get_type(), token.get_text()));
    }
    out
}

fn tok(kind: TokenType, text: &str) -> (TokenType, String) {
    (kind, text.to_owned())
}

fn show(node: &SimpleASTNode) -> String {
    let mut s = format!("({:?} {:?}", node.get_type(), node.get_text());
    for child in node.get_children() {
        s.push(' ');
        s.push_str(&show(child));
    }
    s.push(')');
    s
}

fn parse(code: &str) -> Result<SimpleASTNode, ParseError> {
    SimpleParser::parse(code.to_owned())
}

fn run(script: &mut SimpleScript, code: &str) -> Result<i32, EvalError> {
    let tree = parse(code).expect("the text parses");
    script.calc(&tree)
}

fn value(code: &str) -> Result<i32, EvalError> {
    run(&mut SimpleScript::new(), code)
}

#[test]
fn lexer() {
    assert_eq!(
        tokens_of("int a = b + 1;"),
        vec![
            tok(TokenType::Int, "int"),
            tok(TokenType::Identifier, "a"),
            tok(TokenType::Assignment, "="),
            tok(TokenType::Identifier, "b"),
            tok(TokenType::Plus, "+"),
            tok(TokenType::IntLiteral, "1"),
            tok(TokenType::SemiColon, ";"),
        ]
    );
    println!("------------------");
    assert_eq!(
        tokens_of("int a = 1;"),
        vec![
            tok(TokenType::Int, "int"),
            tok(TokenType::Identifier, "a"),
            tok(TokenType::Assignment, "="),
            tok(TokenType::IntLiteral, "1"),
            tok(TokenType::SemiColon, ";"),
        ]
    );
    let long = tokens_of("int a = (bb + 1) + (45 + 5);");
    assert_eq!(long.len(), 15);
    assert_eq!(long[3], tok(TokenType::LeftParen, "("));
    assert_eq!(long[4], tok(TokenType::Identifier, "bb"));
    assert_eq!(long[7], tok(TokenType::RightParen, ")"));
    assert_eq!(long[10], tok(TokenType::IntLiteral, "45"));
    assert_eq!(long[14], tok(TokenType::SemiColon, ";"));
    let sum = tokens_of("int a = 2 + 3 + 4;");
    assert_eq!(sum.len(), 9);
    assert_eq!(sum[5], tok(TokenType::IntLiteral, "3"));
}

#[test]
fn parser() {
    let tree = parse("a = 3 + 2 + 1;").unwrap();
    assert_eq!(
        show(&tree),
        "(Programm \"pwc\" (AssignmentStmt \"a\" (Additive \"+\" (Additive \"+\" (IntLiteral \"3\") (IntLiteral \"2\")) (IntLiteral \"1\"))))"
    );
    println!("------------------");
    let tree = parse("int a = 3 + 5 * 2;").unwrap();
    assert_eq!(
        show(&tree),
        "(Programm \"pwc\" (IntDeclaration \"a\" (Additive \"+\" (IntLiteral \"3\") (Multiplicative \"*\" (IntLiteral \"5\") (IntLiteral \"2\")))))"
    );
    let tree = parse("3 * 5;").unwrap();
    assert_eq!(
        show(&tree),
        "(Programm \"pwc\" (Multiplicative \"*\" (IntLiteral \"3\") (IntLiteral \"5\")))"
    );
    let tree = parse("int age = 45 + 2; age = 20; age + 10 * 2;").unwrap();
    assert_eq!(tree.get_children().len(), 3);
    assert_eq!(tree.get_children()[0].get_type(), ASTNodeType::IntDeclaration);
    assert_eq!(tree.get_children()[1].get_type(), ASTNodeType::AssignmentStmt);
    assert_eq!(tree.get_children()[2].get_type(), ASTNodeType::Additive);
    assert_eq!(SimpleScript::new().calc(&tree), Ok(40));
}

#[test]
fn script() {
    let mut script = SimpleScript::new();
    assert_eq!(run(&mut script, "int a = 3 + 2 + 1;"), Ok(6));
    println!("------------------");
    assert_eq!(run(&mut script, "int b = a * 2;"), Ok(12));
    assert_eq!(script.get("a"), Some(6));
    assert_eq!(script.get("b"), Some(12));
    assert_eq!(script.get("c"), None);
}

#[test]
fn character_classes() {
    assert!(is_alpha('a') && is_alpha('z') && is_alpha('A') && is_alpha('Z'));
    assert!(!is_alpha('0') && !is_alpha('_') && !is_alpha(' '));
    assert!(is_digit('0') && is_digit('9') && !is_digit('a'));
    assert!(is_blank(' ') && is_blank('\t') && is_blank('\n') && !is_blank('\r'));
}

#[test]
fn init_token_starts_each_kind() {
    let (state, token) = SimpleLexer::init_token('a');
    assert_eq!(state, DfaState::Id);
    assert_eq!(token.get_type(), TokenType::Identifier);
    assert_eq!(token.get_text(), "a");
    let (state, token) = SimpleLexer::init_token('i');
    assert_eq!(state, DfaState::IdInt1);
    assert_eq!(token.get_type(), TokenType::Identifier);
    assert_eq!(token.get_text(), "i");
    let (state, token) = SimpleLexer::init_token('7');
    assert_eq!(state, DfaState::IntLiteral);
    assert_eq!(token.get_type(), TokenType::IntLiteral);
    assert_eq!(token.get_text(), "7");
    let (state, token) = SimpleLexer::init_token('>');
    assert_eq!((state, token.get_type()), (DfaState::GT, TokenType::GT));
    let (state, token) = SimpleLexer::init_token('=');
    assert_eq!((state, token.get_type()), (DfaState::Assignment, TokenType::Assignment));
    let (state, token) = SimpleLexer::init_token('<');
    assert_eq!((state, token.get_type()), (DfaState::LT, TokenType::LT));
    let (state, token) = SimpleLexer::init_token('(');
    assert_eq!((state, token.get_type()), (DfaState::LeftParen, TokenType::LeftParen));
    let (state, token) = SimpleLexer::init_token(')');
    assert_eq!((state, token.get_type()), (DfaState::RightParen, TokenType::RightParen));
    let (state, token) = SimpleLexer::init_token(';');
    assert_eq!((state, token.get_type()), (DfaState::SemiColon, TokenType::SemiColon));
    let (state, token) = SimpleLexer::init_token('+');
    assert_eq!((state, token.get_type()), (DfaState::Plus, TokenType::Plus));
    let (state, token) = SimpleLexer::init_token('-');
    assert_eq!((state, token.get_type()), (DfaState::Minus, TokenType::Minus));
    let (state, token) = SimpleLexer::init_token('*');
    assert_eq!((state, token.get_type()), (DfaState::Star, TokenType::Star));
    let (state, token) = SimpleLexer::init_token('/');
    assert_eq!((state, token.get_type()), (DfaState::Slash, TokenType::Slash));
    let (state, token) = SimpleLexer::init_token(' ');
    assert_eq!(state, DfaState::Initial);
    assert_eq!(token.get_text(), "");
    let (state, token) = SimpleLexer::init_token('#');
    assert_eq!((state, token.get_type()), (DfaState::Initial, TokenType::Unknown));
    assert_eq!(token.get_text(), "#");
}

#[test]
fn next_state_follows_the_automaton() {
    assert_eq!(SimpleLexer::next_state(DfaState::IdInt1, 'n'), Some(DfaState::IdInt2));
    assert_eq!(SimpleLexer::next_state(DfaState::IdInt1, 'x'), Some(DfaState::Id));
    assert_eq!(SimpleLexer::next_state(DfaState::IdInt2, 't'), Some(DfaState::IdInt3));
    assert_eq!(SimpleLexer::next_state(DfaState::IdInt3, '1'), Some(DfaState::Id));
    assert_eq!(SimpleLexer::next_state(DfaState::IdInt3, ' '), None);
    assert_eq!(SimpleLexer::next_state(DfaState::Id, '+'), None);
    assert_eq!(SimpleLexer::next_state(DfaState::GT, '='), Some(DfaState::GE));
    assert_eq!(SimpleLexer::next_state(DfaState::Assignment, '='), Some(DfaState::EQ));
    assert_eq!(SimpleLexer::next_state(DfaState::IntLiteral, '4'), Some(DfaState::IntLiteral));
    assert_eq!(SimpleLexer::next_state(DfaState::IntLiteral, 'a'), None);
    assert_eq!(SimpleLexer::next_state(DfaState::Plus, '+'), None);
    assert_eq!(SimpleLexer::next_state(DfaState::Initial, 'a'), None);
}

#[test]
fn keyword_int_needs_a_blank_behind_it() {
    assert_eq!(tokens_of("int x"), vec![tok(TokenType::Int, "int"), tok(TokenType::Identifier, "x")]);
    assert_eq!(tokens_of("int\tx")[0], tok(TokenType::Int, "int"));
    assert_eq!(tokens_of("int\nx")[0], tok(TokenType::Int, "int"));
    assert_eq!(tokens_of("int   x").len(), 2);
    assert_eq!(tokens_of("inta"), vec![tok(TokenType::Identifier, "inta")]);
    assert_eq!(tokens_of("int1"), vec![tok(TokenType::Identifier, "int1")]);
    assert_eq!(tokens_of("int"), vec![tok(TokenType::Identifier, "int")]);
    assert_eq!(
        tokens_of("int;"),
        vec![tok(TokenType::Identifier, "int"), tok(TokenType::SemiColon, ";")]
    );
    assert_eq!(tokens_of("in"), vec![tok(TokenType::Identifier, "in")]);
    assert_eq!(tokens_of("i"), vec![tok(TokenType::Identifier, "i")]);
    assert_eq!(tokens_of("if"), vec![tok(TokenType::Identifier, "if")]);
    assert_eq!(tokens_of("ink "), vec![tok(TokenType::Identifier, "ink")]);
    assert_eq!(tokens_of("xint "), vec![tok(TokenType::Identifier, "xint")]);
}

#[test]
fn operators_of_two_characters() {
    assert_eq!(tokens_of(">="), vec![tok(TokenType::GE, ">=")]);
    assert_eq!(tokens_of("=="), vec![tok(TokenType::EQ, "==")]);
    assert_eq!(tokens_of(">"), vec![tok(TokenType::GT, ">")]);
    assert_eq!(tokens_of("="), vec![tok(TokenType::Assignment, "=")]);
    assert_eq!(
        tokens_of("<="),
        vec![tok(TokenType::LT, "<"), tok(TokenType::Assignment, "=")]
    );
    assert_eq!(
        tokens_of("==="),
        vec![tok(TokenType::EQ, "=="), tok(TokenType::Assignment, "=")]
    );
    assert_eq!(
        tokens_of("a>=1"),
        vec![
            tok(TokenType::Identifier, "a"),
            tok(TokenType::GE, ">="),
            tok(TokenType::IntLiteral, "1"),
        ]
    );
}

#[test]
fn blanks_make_no_token_and_strangers_make_one() {
    assert_eq!(tokens_of(""), vec![]);
    assert_eq!(tokens_of("  \t\n "), vec![]);
    assert_eq!(tokens_of(" a "), vec![tok(TokenType::Identifier, "a")]);
    assert_eq!(tokens_of("#"), vec![tok(TokenType::Unknown, "#")]);
    assert_eq!(
        tokens_of("a # b"),
        vec![
            tok(TokenType::Identifier, "a"),
            tok(TokenType::Unknown, "#"),
            tok(TokenType::Identifier, "b"),
        ]
    );
    assert_eq!(
        tokens_of("1a"),
        vec![tok(TokenType::IntLiteral, "1"), tok(TokenType::Identifier, "a")]
    );
    assert_eq!(tokens_of("a1 22"), vec![tok(TokenType::Identifier, "a1"), tok(TokenType::IntLiteral, "22")]);
    assert_eq!(tokens_of("é"), vec![tok(TokenType::Unknown, "é")]);
    for (_, text) in tokens_of("int a = (b + 1) * 30 / c - 4; # >= == <") {
        assert!(!text.is_empty());
    }
}

#[test]
fn default_token_is_an_empty_plus() {
    let token = SimpleToken::default();
    assert_eq!(token.get_type(), TokenType::Plus);
    assert_eq!(token.get_text(), "");
    let copy = token.clone();
    assert_eq!(copy.get_type(), TokenType::Plus);
}

fn three_tokens() -> SimpleTokenReader {
    SimpleLexer::new().tokenize("a b c".to_owned())
}

#[test]
fn cursor_reads_in_order_and_stops_at_the_end() {
    let mut reader = three_tokens();
    assert_eq!(reader.get_position(), 0);
    assert_eq!(reader.peek().unwrap().get_text(), "a");
    assert_eq!(reader.get_position(), 0);
    assert_eq!(reader.read().unwrap().get_text(), "a");
    assert_eq!(reader.read().unwrap().get_text(), "b");
    assert_eq!(reader.read().unwrap().get_text(), "c");
    assert_eq!(reader.get_position(), 3);
    assert!(reader.peek().is_none());
    assert!(reader.read().is_none());
    assert_eq!(reader.get_position(), 3);
    let empty = SimpleTokenReader::new(Vec::new());
    assert!(empty.peek().is_none());
}

#[test]
fn cursor_unread_stops_above_one() {
    let mut reader = three_tokens();
    reader.unread();
    assert_eq!(reader.get_position(), 0);
    reader.read();
    reader.unread();
    assert_eq!(reader.get_position(), 1);
    reader.read();
    assert_eq!(reader.get_position(), 2);
    reader.unread();
    assert_eq!(reader.get_position(), 1);
    reader.unread();
    assert_eq!(reader.get_position(), 1);
}

#[test]
fn cursor_set_position_only_onto_a_token() {
    let mut reader = three_tokens();
    reader.set_position(2);
    assert_eq!(reader.get_position(), 2);
    reader.set_position(3);
    assert_eq!(reader.get_position(), 2);
    reader.set_position(0);
    assert_eq!(reader.get_position(), 0);
    assert_eq!(reader.peek().unwrap().get_text(), "a");
}

#[test]
fn tokenize_appends_to_what_the_lexer_holds() {
    let reader = SimpleLexer::new().tokenize("1 2".to_owned());
    assert_eq!(reader.get_position(), 0);
    assert_eq!(reader.peek().unwrap().get_text(), "1");
}

#[test]
fn node_building() {
    let mut node = SimpleASTNode::new(ASTNodeType::Additive, "+".to_owned());
    assert_eq!(node.get_type(), ASTNodeType::Additive);
    assert_eq!(node.get_text(), "+");
    assert!(node.get_children().is_empty());
    node.add_children(SimpleASTNode::new(ASTNodeType::IntLiteral, "1".to_owned()));
    node.add_children(SimpleASTNode::new(ASTNodeType::IntLiteral, "2".to_owned()));
    assert_eq!(node.get_children().len(), 2);
    assert_eq!(node.get_children()[0].get_text(), "1");
    assert_eq!(node.get_children()[1].get_text(), "2");
    assert_eq!(SimpleScript::new().calc(&node), Ok(3));
}

#[test]
fn literal_evaluates_to_its_number() {
    assert_eq!(value("0;"), Ok(0));
    assert_eq!(value("7;"), Ok(7));
    assert_eq!(value("12345;"), Ok(12345));
    assert_eq!(value("007;"), Ok(7));
    assert_eq!(value("2147483647;"), Ok(2147483647));
    assert_eq!(value("2147483648;"), Err(EvalError::NotAnInteger));
    assert_eq!(value("99999999999999999999999;"), Err(EvalError::NotAnInteger));
}

#[test]
fn parse_literal_takes_a_sign() {
    assert_eq!(SimpleScript::parse_literal(&"-5".to_owned()), Some(-5));
    assert_eq!(SimpleScript::parse_literal(&"+5".to_owned()), Some(5));
    assert_eq!(SimpleScript::parse_literal(&"-2147483648".to_owned()), Some(i32::MIN));
    assert_eq!(SimpleScript::parse_literal(&"-2147483649".to_owned()), None);
    assert_eq!(SimpleScript::parse_literal(&"+2147483648".to_owned()), None);
    assert_eq!(SimpleScript::parse_literal(&"".to_owned()), None);
    assert_eq!(SimpleScript::parse_literal(&"-".to_owned()), None);
    assert_eq!(SimpleScript::parse_literal(&"+".to_owned()), None);
    assert_eq!(SimpleScript::parse_literal(&"12a".to_owned()), None);
    assert_eq!(SimpleScript::parse_literal(&"--1".to_owned()), None);
    assert_eq!(SimpleScript::parse_literal(&" 1".to_owned()), None);
    for text in ["0", "42", "-17", "+8", "x", "2147483647", "4294967296"] {
        assert_eq!(SimpleScript::parse_literal(&text.to_owned()), text.parse::<i32>().ok());
    }
    let node = SimpleASTNode::new(ASTNodeType::IntLiteral, "abc".to_owned());
    assert_eq!(SimpleScript::new().calc(&node), Err(EvalError::NotAnInteger));
}

#[test]
fn subtraction_groups_to_the_left() {
    let tree = parse("2 - 3 - 4;").unwrap();
    assert_eq!(
        show(&tree),
        "(Programm \"pwc\" (Additive \"-\" (Additive \"-\" (IntLiteral \"2\") (IntLiteral \"3\")) (IntLiteral \"4\")))"
    );
    assert_eq!(value("2 - 3 - 4;"), Ok(-5));
    assert_eq!(value("16 / 4 / 2;"), Ok(2));
    assert_eq!(value("2 - (3 - 4);"), Ok(3));
}

#[test]
fn multiplication_binds_tighter() {
    assert_eq!(value("2 + 3 * 4;"), Ok(14));
    assert_eq!(value("(2 + 3) * 4;"), Ok(20));
    assert_eq!(value("2 * 3 + 4;"), Ok(10));
    assert_eq!(value("2 * (3 + 4);"), Ok(14));
    assert_eq!(value("((7));"), Ok(7));
}

#[test]
fn declaration_then_use() {
    assert_eq!(value("int a = 3 + 2; a * 2;"), Ok(10));
    assert_eq!(value("int a; a;"), Ok(0));
    assert_eq!(value("int a = 1; int a = 2; a;"), Ok(2));
    assert_eq!(value(""), Ok(0));
}

#[test]
fn assignment_overwrites_the_value() {
    assert_eq!(value("int a = 1; a = 5; a + 1;"), Ok(6));
    let mut script = SimpleScript::new();
    assert_eq!(run(&mut script, "int a = 1; int b = 2; a = b + 10;"), Ok(12));
    assert_eq!(script.get("a"), Some(12));
    assert_eq!(script.get("b"), Some(2));
}

#[test]
fn division_by_zero_binds_nothing() {
    let mut script = SimpleScript::new();
    assert_eq!(run(&mut script, "int a = 1 / 0;"), Err(EvalError::DivisionByZero));
    assert_eq!(script.get("a"), None);
    let mut script = SimpleScript::new();
    assert_eq!(run(&mut script, "int b = 4; int a = b / (b - 4); int c = 1;"), Err(EvalError::DivisionByZero));
    assert_eq!(script.get("b"), Some(4));
    assert_eq!(script.get("a"), None);
    assert_eq!(script.get("c"), None);
}

#[test]
fn division_rounds_toward_zero() {
    assert_eq!(value("7 / 2;"), Ok(3));
    assert_eq!(value("(0 - 7) / 2;"), Ok(-3));
    assert_eq!(value("7 / (0 - 2);"), Ok(-3));
    assert_eq!(value("(0 - 7) / (0 - 2);"), Ok(3));
    assert_eq!(value("0 / 5;"), Ok(0));
}

#[test]
fn use_before_declaration() {
    assert_eq!(value("b + 1;"), Err(EvalError::UndeclaredVariable));
    assert_eq!(value("a = 1;"), Err(EvalError::AssignmentToUndeclared));
}

#[test]
fn results_outside_32_bits_are_errors() {
    assert_eq!(value("2147483647 + 1;"), Err(EvalError::Overflow));
    assert_eq!(value("0 - 2147483647 - 2;"), Err(EvalError::Overflow));
    assert_eq!(value("0 - 2147483647 - 1;"), Ok(i32::MIN));
    assert_eq!(value("65536 * 32768;"), Err(EvalError::Overflow));
    assert_eq!(value("65536 * 32767;"), Ok(2147418112));
    assert_eq!(value("(0 - 2147483647 - 1) / (0 - 1);"), Err(EvalError::Overflow));
    assert_eq!(value("(0 - 2147483647 - 1) / 1;"), Ok(i32::MIN));
}

#[test]
fn apply_operator_reads_the_text() {
    let plus = "+".to_owned();
    let minus = "-".to_owned();
    let star = "*".to_owned();
    let slash = "/".to_owned();
    assert_eq!(SimpleScript::apply_operator(ASTNodeType::Additive, &plus, 5, 3), Ok(8));
    assert_eq!(SimpleScript::apply_operator(ASTNodeType::Additive, &minus, 5, 3), Ok(2));
    assert_eq!(SimpleScript::apply_operator(ASTNodeType::Multiplicative, &star, 5, 3), Ok(15));
    assert_eq!(SimpleScript::apply_operator(ASTNodeType::Multiplicative, &slash, 5, 3), Ok(1));
    assert_eq!(
        SimpleScript::apply_operator(ASTNodeType::Multiplicative, &slash, 5, 0),
        Err(EvalError::DivisionByZero)
    );
}

#[test]
fn missing_semicolon_is_an_error() {
    assert_eq!(parse("int a = 1").unwrap_err(), ParseError::MissingSemicolon);
    assert_eq!(parse("int a").unwrap_err(), ParseError::MissingSemicolon);
    assert_eq!(parse("int a 5;").unwrap_err(), ParseError::MissingSemicolon);
    assert_eq!(parse("a = 1").unwrap_err(), ParseError::MissingSemicolon);
    assert_eq!(parse("a = 1 int b;").unwrap_err(), ParseError::MissingSemicolon);
}

#[test]
fn other_syntax_errors() {
    assert_eq!(parse("int ;").unwrap_err(), ParseError::MissingIdentifier);
    assert_eq!(parse("int = 3;").unwrap_err(), ParseError::MissingIdentifier);
    assert_eq!(parse("int ").unwrap_err(), ParseError::MissingIdentifier);
    assert_eq!(parse("a = ;").unwrap_err(), ParseError::MissingExpression);
    assert_eq!(parse("int a = ;").unwrap_err(), ParseError::MissingExpression);
    assert_eq!(parse("1 + ;").unwrap_err(), ParseError::MissingExpression);
    assert_eq!(parse("1 * ;").unwrap_err(), ParseError::MissingExpression);
    assert_eq!(parse("();").unwrap_err(), ParseError::MissingExpression);
    assert_eq!(parse("(1 + 2;").unwrap_err(), ParseError::MissingCloseParen);
    assert_eq!(parse("(1").unwrap_err(), ParseError::MissingCloseParen);
    assert_eq!(parse("1 + 2").unwrap_err(), ParseError::UnrecognizedStatement);
    assert_eq!(parse(")").unwrap_err(), ParseError::UnrecognizedStatement);
    assert_eq!(parse("a b;").unwrap_err(), ParseError::UnrecognizedStatement);
    assert_eq!(parse("#").unwrap_err(), ParseError::UnrecognizedStatement);
    assert_eq!(parse("1; ;").unwrap_err(), ParseError::UnrecognizedStatement);
    assert_eq!(parse("a >= 1;").unwrap_err(), ParseError::UnrecognizedStatement);
}

#[test]
fn statement_parsers_leave_the_cursor_where_the_rule_does_not_start() {
    let mut reader = SimpleLexer::new().tokenize("a + 1; b = 2;".to_owned());
    assert!(SimpleParser::int_declare(&mut reader).unwrap().is_none());
    assert_eq!(reader.get_position(), 0);
    assert!(SimpleParser::assignment(&mut reader).unwrap().is_none());
    assert_eq!(reader.get_position(), 0);
    let first = SimpleParser::expression(&mut reader).unwrap().unwrap();
    assert_eq!(show(&first), "(Additive \"+\" (Identifier \"a\") (IntLiteral \"1\"))");
    assert_eq!(reader.get_position(), 4);
    assert!(SimpleParser::expression(&mut reader).unwrap().is_none());
    assert_eq!(reader.get_position(), 4);
    let second = SimpleParser::assignment(&mut reader).unwrap().unwrap();
    assert_eq!(show(&second), "(AssignmentStmt \"b\" (IntLiteral \"2\"))");
    assert_eq!(reader.get_position(), 8);
    assert!(SimpleParser::primary(&mut reader).unwrap().is_none());
    assert!(SimpleParser::additive(&mut reader).unwrap().is_none());
    assert!(SimpleParser::multiplicative(&mut reader).unwrap().is_none());
}

#[test]
fn program_parses_from_the_cursor() {
    let mut reader = SimpleLexer::new().tokenize("1; 2;".to_owned());
    reader.set_position(2);
    let tree = SimpleParser::program(&mut reader).unwrap();
    assert_eq!(show(&tree), "(Programm \"pwc\" (IntLiteral \"2\"))");
    assert_eq!(reader.get_position(), 4);
}

#[test]
fn bare_declaration_has_no_child() {
    let tree = parse("int x;").unwrap();
    assert_eq!(show(&tree), "(Programm \"pwc\" (IntDeclaration \"x\"))");
    let mut script = SimpleScript::new();
    assert_eq!(script.calc(&tree), Ok(0));
    assert_eq!(script.get("x"), Some(0));
}

#[test]
fn well_formed_trees_are_told_apart() {
    assert!(parse("int a = 1 + 2 * (3 - 4); a = a / 2; a;").unwrap().is_well_formed());
    let mut node = SimpleASTNode::new(ASTNodeType::Additive, "+".to_owned());
    assert!(!node.is_well_formed());
    node.add_children(SimpleASTNode::new(ASTNodeType::IntLiteral, "1".to_owned()));
    assert!(!node.is_well_formed());
    node.add_children(SimpleASTNode::new(ASTNodeType::Identifier, "x".to_owned()));
    assert!(node.is_well_formed());
    let mut root = SimpleASTNode::new(ASTNodeType::Programm, "pwc".to_owned());
    assert!(root.is_well_formed());
    root.add_children(SimpleASTNode::new(ASTNodeType::AssignmentStmt, "x".to_owned()));
    assert!(!root.is_well_formed());
    let mut leaf = SimpleASTNode::new(ASTNodeType::IntLiteral, "1".to_owned());
    leaf.add_children(SimpleASTNode::new(ASTNodeType::IntLiteral, "2".to_owned()));
    assert!(!leaf.is_well_formed());
    let mut decl = SimpleASTNode::new(ASTNodeType::IntDeclaration, "x".to_owned());
    assert!(decl.is_well_formed());
    decl.add_children(SimpleASTNode::new(ASTNodeType::IntLiteral, "1".to_owned()));
    assert!(decl.is_well_formed());
    decl.add_children(SimpleASTNode::new(ASTNodeType::IntLiteral, "2".to_owned()));
    assert!(!decl.is_well_formed());
}

fn make(kind: TokenType, text: &str) -> SimpleToken {
    SimpleToken { token_type: kind, token_text: text.to_owned() }
}

fn print_expression(node: &SimpleASTNode, out: &mut Vec<SimpleToken>) {
    match node.get_type() {
        ASTNodeType::Identifier => out.push(make(TokenType::Identifier, &node.get_text())),
        ASTNodeType::IntLiteral => out.push(make(TokenType::IntLiteral, &node.get_text())),
        kind => {
            let text = node.get_text();
            let op = match (kind, text.as_str()) {
                (ASTNodeType::Additive, "+") => TokenType::Plus,
                (ASTNodeType::Additive, _) => TokenType::Minus,
                (_, "*") => TokenType::Star,
                _ => TokenType::Slash,
            };
            out.push(make(TokenType::LeftParen, "("));
            print_expression(&node.get_children()[0], out);
            out.push(make(TokenType::RightParen, ")"));
            out.push(make(op, &text));
            out.push(make(TokenType::LeftParen, "("));
            print_expression(&node.get_children()[1], out);
            out.push(make(TokenType::RightParen, ")"));
        }
    }
}

fn print_program(root: &SimpleASTNode) -> Vec<SimpleToken> {
    let mut out = Vec::new();
    for node in root.get_children() {
        match node.get_type() {
            ASTNodeType::IntDeclaration => {
                out.push(make(TokenType::Int, "int"));
                out.push(make(TokenType::Identifier, &node.get_text()));
                if node.get_children().len() == 1 {
                    out.push(make(TokenType::Assignment, "="));
                    print_expression(&node.get_children()[0], &mut out);
                }
            }
            ASTNodeType::AssignmentStmt => {
                out.push(make(TokenType::Identifier, &node.get_text()));
                out.push(make(TokenType::Assignment, "="));
                print_expression(&node.get_children()[0], &mut out);
            }
            _ => print_expression(node, &mut out),
        }
        out.push(make(TokenType::SemiColon, ";"));
    }
    out
}

#[test]
fn printed_tokens_parse_to_the_same_tree() {
    for code in [
        "",
        "1;",
        "a;",
        "int b;",
        "2 - 3 - 4;",
        "2 - (3 - 4);",
        "2 + 3 * 4; (2 + 3) * 4;",
        "int a = 1 + 2 * (3 - 4) / 5; a = a / 2 - a * a; a; int b; b = (a);",
    ] {
        let tree = parse(code).unwrap();
        let mut reader = SimpleTokenReader::new(print_program(&tree));
        let again = SimpleParser::program(&mut reader).unwrap();
        assert_eq!(show(&again), show(&tree));
        let from_text = parse(&spell(&print_program(&tree))).unwrap();
        assert_eq!(show(&from_text), show(&tree));
    }
}

fn spell(tokens: &[SimpleToken]) -> String {
    let mut text = String::new();
    for token in tokens {
        text.push_str(&token.get_text());
        text.push(' ');
    }
    text
}

#[test]
fn a_name_spelled_int_does_not_survive_printing() {
    let tree = parse("int;").unwrap();
    assert_eq!(show(&tree), "(Programm \"pwc\" (Identifier \"int\"))");
    let text = spell(&print_program(&tree));
    assert_eq!(text, "int ; ");
    assert_eq!(parse(&text).unwrap_err(), ParseError::MissingIdentifier);
}

#[test]
fn run_gives_a_result_for_each_statement() {
    let mut script = SimpleScript::new();
    let tree = parse("int a = 3; a * 2; a = a + 1; a;").unwrap();
    assert_eq!(script.run(&tree), vec![Ok(3), Ok(6), Ok(4), Ok(4)]);
    assert_eq!(script.get("a"), Some(4));
    let tree = parse("int b = 1; b / 0; b = 2;").unwrap();
    assert_eq!(script.run(&tree), vec![Ok(1), Err(EvalError::DivisionByZero)]);
    assert_eq!(script.get("b"), Some(1));
    assert_eq!(script.get("a"), Some(4));
    assert_eq!(script.run(&parse("").unwrap()), vec![]);
    assert_eq!(script.run(&parse("c;").unwrap()), vec![Err(EvalError::UndeclaredVariable)]);
}
