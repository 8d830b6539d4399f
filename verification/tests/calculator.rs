use craft::simple_calculator::{CalcError, SimpleCalcultor};
use craft::simple_lexer::SimpleLexer;
use craft::simple_parser::{ParseError, SimpleASTNode};
use craft::simple_script::EvalError;
use craft::{ASTNode, TokenReader};

fn shape(node: &SimpleASTNode) -> String {
    let mut s = format!("({:?} {:?}", node.get_type(), node.get_text());
    for child in node.get_children() {
        s.push(' ');
        s.push_str(&shape(child));
    }
    s.push(')');
    s
}

#[test]
fn calculate() {
    let code = "int a = b + 3;".to_owned();
    let lexer = SimpleLexer::new();
    let mut tokens = lexer.tokenize(code);
    let node = SimpleCalcultor::int_declare(&mut tokens).unwrap().unwrap();
    assert_eq!(
        shape(&node),
        "(IntDeclaration \"a\" (Additive \"+\" (Identifier \"b\") (IntLiteral \"3\")))"
    );
    assert_eq!(tokens.get_position(), 6);
    println!("------------------");

    let code = "2 + 3 * 5;".to_owned();
    assert_eq!(SimpleCalcultor::calculate(code), Ok(17));
    println!("------------------");

    let code = "2 + 3 + 4;".to_owned();
    assert_eq!(SimpleCalcultor::calculate(code), Ok(9));
    println!("------------------");
}

#[test]
fn calculator_chains_nest_to_the_right() {
    let tree = SimpleCalcultor::parse("2 - 3 - 4".to_owned()).unwrap();
    assert_eq!(
        shape(&tree),
        "(Programm \"Calculator\" (Additive \"-\" (IntLiteral \"2\") (Additive \"-\" (IntLiteral \"3\") (IntLiteral \"4\"))))"
    );
    assert_eq!(SimpleCalcultor::calculate("2 - 3 - 4".to_owned()), Ok(3));
    assert_eq!(SimpleCalcultor::calculate("16 / 4 / 2".to_owned()), Ok(8));
    assert_eq!(SimpleCalcultor::calculate("(2 - 3) - 4".to_owned()), Ok(-5));
}

#[test]
fn calculator_edges() {
    assert_eq!(SimpleCalcultor::calculate("".to_owned()), Ok(0));
    assert_eq!(SimpleCalcultor::calculate("x + 2".to_owned()), Ok(2));
    assert_eq!(SimpleCalcultor::calculate("7".to_owned()), Ok(7));
    assert_eq!(
        SimpleCalcultor::calculate("1 +".to_owned()),
        Err(CalcError::Syntax(ParseError::MissingExpression))
    );
    assert_eq!(
        SimpleCalcultor::calculate("2 *".to_owned()),
        Err(CalcError::Syntax(ParseError::MissingExpression))
    );
    assert_eq!(
        SimpleCalcultor::calculate("(1 + 2".to_owned()),
        Err(CalcError::Syntax(ParseError::MissingCloseParen))
    );
    assert_eq!(
        SimpleCalcultor::calculate("1 / 0".to_owned()),
        Err(CalcError::Value(EvalError::DivisionByZero))
    );
    assert_eq!(
        SimpleCalcultor::calculate("99999999999".to_owned()),
        Err(CalcError::Value(EvalError::NotAnInteger))
    );
    assert_eq!(
        SimpleCalcultor::calculate("2147483647 + 1".to_owned()),
        Err(CalcError::Value(EvalError::Overflow))
    );
}

#[test]
fn calculator_declaration_goes_back_where_it_does_not_match() {
    let mut tokens = SimpleLexer::new().tokenize("int a ; 1".to_owned());
    assert!(SimpleCalcultor::int_declare(&mut tokens).unwrap().is_none());
    assert_eq!(tokens.get_position(), 0);
    let mut tokens = SimpleLexer::new().tokenize("int a = ;".to_owned());
    assert!(SimpleCalcultor::int_declare(&mut tokens).unwrap().is_none());
    assert_eq!(tokens.get_position(), 0);
    let mut tokens = SimpleLexer::new().tokenize("a = 1".to_owned());
    assert!(SimpleCalcultor::int_declare(&mut tokens).unwrap().is_none());
    let mut tokens = SimpleLexer::new().tokenize("int a = 1 +".to_owned());
    assert_eq!(
        SimpleCalcultor::int_declare(&mut tokens).unwrap_err(),
        ParseError::MissingExpression
    );
    let mut tokens = SimpleLexer::new().tokenize("3 * 4 rest".to_owned());
    let tree = SimpleCalcultor::init_tree(&mut tokens).unwrap();
    assert_eq!(
        shape(&tree),
        "(Programm \"Calculator\" (Multiplicative \"*\" (IntLiteral \"3\") (IntLiteral \"4\")))"
    );
    assert!(SimpleCalcultor::primary(&mut tokens).unwrap().is_some());
    assert!(SimpleCalcultor::multiplicative(&mut tokens).unwrap().is_none());
    assert!(SimpleCalcultor::additive(&mut tokens).unwrap().is_none());
}
