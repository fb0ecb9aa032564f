use std::collections::VecDeque;

use tugboat::lexer::TokenKind::{
    Identifier, LeftBracket, Minus, Plus, RightBracket, Semicolon, Unsigned8, EOF,
};
use tugboat::lexer::{lex, Token, TokenKind};
use tugboat::parser::{expression, parse, variable, while_loop};
use tugboat::{Declaration, Expr, Stmt};

fn token(kind: TokenKind) -> Token {
    Token {
        kind,
        lexeme: String::from(""),
        value: None,
        line: 0,
    }
}

#[test]
fn variable_ok() {
    let mut tokens: VecDeque<_> = vec![token(Identifier), token(Semicolon)].into();
    let result = variable(&mut tokens).unwrap();
    assert!(matches!(result, Declaration::Variable { .. }));
}

#[test]
fn variable_err() {
    let mut tokens: VecDeque<_> = vec![token(Unsigned8), token(Identifier)].into();
    let result = variable(&mut tokens);
    assert!(matches!(result, Err { .. }));
}

#[test]
fn expression_indexed() {
    let mut tokens: VecDeque<_> = vec![
        token(Identifier),
        token(LeftBracket),
        token(Identifier),
        token(RightBracket),
        token(EOF),
    ]
    .into();
    let result = expression(&mut tokens).unwrap();
    assert!(matches!(result, Expr::Indexed { .. }))
}

#[test]
fn parse_basic() {
    let (tokens, _) = lex(String::from("u8 variable;\nfn main() {\nvariable = 5;\n}\n"));
    let (ast, errors) = parse(tokens);

    assert_eq!(errors, vec![]);
    assert!(matches!(
        ast[..],
        [Declaration::Variable { .. }, Declaration::Function { .. }]
    ));
}

#[test]
fn parse_while() {
    let (tokens, _) = lex(String::from("while (true) { halt; }"));
    let mut queue: VecDeque<Token> = tokens.into_iter().collect();
    let stmt = while_loop(&mut queue).unwrap();

    let Stmt::While { condition, body } = stmt else {
        panic!("Expected while statement")
    };
    assert!(matches!(condition, Expr::Literal { value: 1, .. }));
    assert!(matches!(body[..], [Stmt::Halt]));
}

#[test]
fn parse_array_definition() {
    let (tokens, _) = lex(String::from("u8[100] array;"));
    let (ast, errors) = parse(tokens);

    assert_eq!(errors, vec![]);
    let Declaration::Variable { name, size } = ast.get(0).unwrap() else {
        panic!("Expected variable definition.");
    };
    assert_eq!(name.lexeme, "array");
    assert_eq!(*size, 100);
}

#[test]
fn parse_addition_subtraction() {
    let (tokens, _) = lex(String::from("1 + 2 + 3 - 5"));
    let mut queue: VecDeque<_> = tokens.into();
    let expr = expression(&mut queue).unwrap();

    // Check the top-level expression
    let Expr::Binary {
        operator: first_operator,
        left: first_left,
        right: first_right,
    } = expr
    else {
        panic!("Expected binary expression.");
    };
    assert_eq!(first_operator.kind, Minus);
    assert!(matches!(*first_left, Expr::Binary { .. }));
    assert!(matches!(*first_right, Expr::Literal { value: 5, .. }));

    // Check second level
    let Expr::Binary {
        operator: second_operator,
        left: second_left,
        right: second_right,
    } = *first_left
    else {
        panic!("Expected binary expression.");
    };
    assert_eq!(second_operator.kind, Plus);
    assert!(matches!(*second_left, Expr::Binary { .. }));
    assert!(matches!(*second_right, Expr::Literal { value: 3, .. }));

    // Check bottom level
    let Expr::Binary { operator: third_operator, left: third_left, right: third_right } = *second_left else {
        panic!("Expected binary expression.");
    };
    assert_eq!(third_operator.kind, Plus);
    assert!(matches!(*third_left, Expr::Literal { value: 1, .. }));
    assert!(matches!(*third_right, Expr::Literal { value: 2, .. }));
}
