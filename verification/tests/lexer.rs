use tugboat::lexer::TokenKind::{
    Equals, EqualsEquals, Fn, Greater, GreaterEqual, Identifier, LeftBrace, LeftParen, Less,
    LessEqual, Number, RightBrace, RightParen, Semicolon, Unsigned8,
};
use tugboat::lexer::{lex, Token, TokenKind};
use tugboat::CompilationError;

fn token(kind: TokenKind, lexeme: &str, value: Option<u8>, line: u32) -> Token {
    Token {
        kind,
        lexeme: lexeme.to_string(),
        value,
        line,
    }
}

fn error(msg: &str, line: u32) -> CompilationError {
    CompilationError {
        msg: msg.to_string(),
        line,
    }
}

#[test]
fn lex_single_char() {
    let (result, _) = lex(String::from("{}();"));
    assert_eq!(
        result,
        vec![
            token(LeftBrace, "{", None, 1),
            token(RightBrace, "}", None, 1),
            token(LeftParen, "(", None, 1),
            token(RightParen, ")", None, 1),
            token(Semicolon, ";", None, 1),
        ]
    );
}

#[test]
fn lex_keywords() {
    let (result, _) = lex(String::from("fn u8"));
    assert_eq!(
        result,
        vec![token(Fn, "fn", None, 1), token(Unsigned8, "u8", None, 1),]
    );
}

#[test]
fn lex_identifiers() {
    let (result, _) = lex(String::from("myVar something"));
    assert_eq!(
        result,
        vec![
            token(Identifier, "myVar", None, 1),
            token(Identifier, "something", None, 1)
        ]
    );
}

#[test]
fn lex_basic_script() {
    let (result, _) = lex(String::from(
        "u8 variable;\nfn main() {\nvariable = 5;\n}\n",
    ));
    assert_eq!(
        result,
        vec![
            token(Unsigned8, "u8", None, 1),
            token(Identifier, "variable", None, 1),
            token(Semicolon, ";", None, 1),
            token(Fn, "fn", None, 2),
            token(Identifier, "main", None, 2),
            token(LeftParen, "(", None, 2),
            token(RightParen, ")", None, 2),
            token(LeftBrace, "{", None, 2),
            token(Identifier, "variable", None, 3),
            token(Equals, "=", None, 3),
            token(Number, "5", Some(5), 3),
            token(Semicolon, ";", None, 3),
            token(RightBrace, "}", None, 4)
        ]
    );
}

#[test]
fn lex_big_number() {
    let (_, errors) = lex(String::from("65536"));
    assert_eq!(
        errors,
        vec![error(
            "Failed to parse literal: number too large to fit in target type",
            1
        )]
    );
}

#[test]
fn lex_equals_equals() {
    let (result, _) = lex(String::from("== = =="));
    assert_eq!(
        result,
        vec![
            token(EqualsEquals, "==", None, 1),
            token(Equals, "=", None, 1),
            token(EqualsEquals, "==", None, 1)
        ]
    );
}

#[test]
fn lex_comments_and_comparisons() {
    let (result, _) = lex(String::from("// This is a comment\n> >= < <="));
    assert_eq!(
        result,
        vec![
            token(Greater, ">", None, 2),
            token(GreaterEqual, ">=", None, 2),
            token(Less, "<", None, 2),
            token(LessEqual, "<=", None, 2),
        ]
    );
}

#[test]
fn lex_character_literals() {
    let (result, _) = lex(String::from("'a' '0' 'G'"));
    assert_eq!(
        result,
        vec![
            token(Number, "a", Some(97), 1),
            token(Number, "0", Some(48), 1),
            token(Number, "G", Some(71), 1),
        ]
    );
}

#[test]
fn lex_character_literal_errors() {
    let (_, errors) = lex(String::from("'aaa' ''"));
    assert_eq!(
        errors,
        vec![
            error(
                "Character literal should be exactly one character: 'aaa'",
                1
            ),
            error("Character literal should be exactly one character: ''", 1),
        ]
    );
}
