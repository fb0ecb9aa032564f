use std::collections::VecDeque;

use tugboat::lexer::{lex, Token, TokenKind};
use tugboat::parser::{
    block, declaration, expression, expression_statement, function, parse, primary, statement,
    term, variable, while_loop,
};
use tugboat::{CompilationError, Declaration, Expr, Stmt};

fn error(msg: &str, line: u32) -> CompilationError {
    CompilationError {
        msg: msg.to_string(),
        line,
    }
}

fn tok(kind: TokenKind, lexeme: &str, value: Option<u8>, line: u32) -> Token {
    Token {
        kind,
        lexeme: lexeme.to_string(),
        value,
        line,
    }
}

fn queue_of(source: &str) -> VecDeque<Token> {
    let (tokens, errors) = lex(String::from(source));
    assert_eq!(errors, vec![]);
    tokens.into_iter().collect()
}

fn parse_source(source: &str) -> (Vec<Declaration>, Vec<CompilationError>) {
    let (tokens, errors) = lex(String::from(source));
    assert_eq!(errors, vec![]);
    parse(tokens)
}

fn errors_of(source: &str) -> Vec<CompilationError> {
    parse_source(source).1
}

fn number(text: &str, value: u8) -> Expr {
    Expr::Literal {
        token: tok(TokenKind::Number, text, Some(value), 1),
        value,
    }
}

fn name(text: &str) -> Token {
    tok(TokenKind::Identifier, text, None, 1)
}

#[test]
fn parse_nothing() {
    let (ast, errors) = parse(vec![]);
    assert_eq!(ast, vec![]);
    assert_eq!(errors, vec![]);
}

#[test]
fn parse_variable_of_one_byte() {
    let (ast, errors) = parse_source("u8 a;");
    assert_eq!(errors, vec![]);
    assert_eq!(
        ast,
        vec![Declaration::Variable {
            name: name("a"),
            size: 1
        }]
    );
}

#[test]
fn parse_array_sizes() {
    let (ast, errors) = parse_source("u8[255] a; u8[1] b;");
    assert_eq!(errors, vec![]);
    assert_eq!(
        ast,
        vec![
            Declaration::Variable {
                name: name("a"),
                size: 255
            },
            Declaration::Variable {
                name: name("b"),
                size: 1
            },
        ]
    );
}

#[test]
fn parse_array_size_from_character() {
    let (ast, errors) = parse_source("u8['a'] a;");
    assert_eq!(errors, vec![]);
    assert_eq!(
        ast,
        vec![Declaration::Variable {
            name: name("a"),
            size: 97
        }]
    );
}

#[test]
fn parse_array_of_no_bytes() {
    let (ast, errors) = parse_source("u8[\n0\n] a; u8 b;");
    assert_eq!(
        errors,
        vec![
            error("Expected array size specifier.", 2),
            error("Unsupported top-level statement.", 3),
            error("Unsupported top-level statement.", 3),
        ]
    );
    assert_eq!(
        ast,
        vec![Declaration::Variable {
            name: tok(TokenKind::Identifier, "b", None, 3),
            size: 1
        }]
    );
}

#[test]
fn parse_empty_function() {
    let (ast, errors) = parse_source("fn main() {}");
    assert_eq!(errors, vec![]);
    assert_eq!(
        ast,
        vec![Declaration::Function {
            name: name("main"),
            arguments: vec![],
            body: vec![]
        }]
    );
}

#[test]
fn parse_statements_of_every_form() {
    let (ast, errors) = parse_source("fn f() { halt; a = 1; a[2] = b; a + 1; while (a) { halt; } }");
    assert_eq!(errors, vec![]);
    let plus = tok(TokenKind::Plus, "+", None, 1);
    assert_eq!(
        ast,
        vec![Declaration::Function {
            name: name("f"),
            arguments: vec![],
            body: vec![
                Stmt::Halt,
                Stmt::Assign {
                    target: Expr::Variable { name: name("a") },
                    value: number("1", 1)
                },
                Stmt::Assign {
                    target: Expr::Indexed {
                        name: name("a"),
                        index: Box::new(number("2", 2))
                    },
                    value: Expr::Variable { name: name("b") }
                },
                Stmt::Expression {
                    expr: Expr::Binary {
                        operator: plus,
                        left: Box::new(Expr::Variable { name: name("a") }),
                        right: Box::new(number("1", 1))
                    }
                },
                Stmt::While {
                    condition: Expr::Variable { name: name("a") },
                    body: vec![Stmt::Halt]
                },
            ]
        }]
    );
}

#[test]
fn parse_true_and_false() {
    let mut queue = queue_of("true");
    assert_eq!(
        primary(&mut queue),
        Ok(Expr::Literal {
            token: tok(TokenKind::True, "true", None, 1),
            value: 1
        })
    );
    let mut queue = queue_of("false");
    assert_eq!(
        primary(&mut queue),
        Ok(Expr::Literal {
            token: tok(TokenKind::False, "false", None, 1),
            value: 0
        })
    );
}

#[test]
fn parse_primary_leaves_the_rest() {
    let mut queue = queue_of("a b");
    assert_eq!(primary(&mut queue), Ok(Expr::Variable { name: name("a") }));
    assert_eq!(queue.len(), 1);
    assert_eq!(queue[0], name("b"));
}

#[test]
fn parse_primary_at_end_of_queue() {
    let mut queue = queue_of("a");
    assert_eq!(primary(&mut queue), Ok(Expr::Variable { name: name("a") }));
    assert_eq!(queue.len(), 0);
}

#[test]
fn parse_index_of_index() {
    let mut queue = queue_of("a[b[1] + 2]");
    let expected = Expr::Indexed {
        name: name("a"),
        index: Box::new(Expr::Binary {
            operator: tok(TokenKind::Plus, "+", None, 1),
            left: Box::new(Expr::Indexed {
                name: name("b"),
                index: Box::new(number("1", 1)),
            }),
            right: Box::new(number("2", 2)),
        }),
    };
    assert_eq!(expression(&mut queue), Ok(expected));
    assert_eq!(queue.len(), 0);
}

#[test]
fn parse_term_groups_from_the_left() {
    let mut queue = queue_of("a - b + c");
    let expected = Expr::Binary {
        operator: tok(TokenKind::Plus, "+", None, 1),
        left: Box::new(Expr::Binary {
            operator: tok(TokenKind::Minus, "-", None, 1),
            left: Box::new(Expr::Variable { name: name("a") }),
            right: Box::new(Expr::Variable { name: name("b") }),
        }),
        right: Box::new(Expr::Variable { name: name("c") }),
    };
    assert_eq!(term(&mut queue), Ok(expected));
}

#[test]
fn parse_term_stops_at_other_operators() {
    let mut queue = queue_of("1 * 2");
    assert_eq!(term(&mut queue), Ok(number("1", 1)));
    assert_eq!(queue.len(), 2);
}

#[test]
fn parse_term_wants_an_operand() {
    let mut queue = queue_of("1 + ;");
    assert_eq!(
        term(&mut queue),
        Err(error("Expected number or identifier in expression.", 1))
    );
    assert_eq!(queue.len(), 0);

    let mut queue = queue_of("1 +");
    assert_eq!(
        term(&mut queue),
        Err(error("Expected a token in the parse queue.", 0))
    );
}

#[test]
fn parse_number_without_value() {
    let mut queue: VecDeque<Token> = vec![tok(TokenKind::Number, "1", None, 4)].into();
    assert_eq!(
        primary(&mut queue),
        Err(error("Expected a value in number literal.", 4))
    );

    let mut queue: VecDeque<Token> = vec![
        tok(TokenKind::LeftBracket, "[", None, 2),
        tok(TokenKind::Number, "1", None, 3),
        tok(TokenKind::RightBracket, "]", None, 3),
        tok(TokenKind::Identifier, "a", None, 3),
        tok(TokenKind::Semicolon, ";", None, 3),
    ]
    .into();
    assert_eq!(
        variable(&mut queue),
        Err(error("Expected a value in number literal.", 3))
    );
    assert_eq!(queue.len(), 2);
}

#[test]
fn parse_empty_queue_everywhere() {
    let expected = Err(error("Expected a token in the parse queue.", 0));
    assert_eq!(primary(&mut VecDeque::new()), expected);
    assert_eq!(term(&mut VecDeque::new()), expected);
    assert_eq!(expression(&mut VecDeque::new()), expected);
    assert_eq!(
        statement(&mut VecDeque::new()),
        Err(error("Expected a token in the parse queue.", 0))
    );
    assert_eq!(
        expression_statement(&mut VecDeque::new()),
        Err(error("Expected a token in the parse queue.", 0))
    );
    assert_eq!(
        while_loop(&mut VecDeque::new()),
        Err(error("Expected a token in the parse queue.", 0))
    );
    assert_eq!(
        block(&mut VecDeque::new()),
        Err(error("Expected a token in the parse queue.", 0))
    );
    assert_eq!(
        declaration(&mut VecDeque::new()),
        Err(error("Expected a token in the parse queue.", 0))
    );
    assert_eq!(
        function(&mut VecDeque::new()),
        Err(error("Expected a token in the parse queue.", 0))
    );
    assert_eq!(
        variable(&mut VecDeque::new()),
        Err(error("Expected a token in the parse queue.", 0))
    );
}

#[test]
fn parse_block_of_statements() {
    let mut queue = queue_of("halt; halt; } u8");
    assert_eq!(block(&mut queue), Ok(vec![Stmt::Halt, Stmt::Halt]));
    assert_eq!(queue.len(), 1);
}

#[test]
fn parse_block_without_closing_brace() {
    let mut queue = queue_of("halt;");
    assert_eq!(
        block(&mut queue),
        Err(error("Expected a token in the parse queue.", 0))
    );
}

#[test]
fn parse_nested_loops() {
    let mut queue = queue_of("while (1) { while (0) { } halt; }");
    assert_eq!(
        statement(&mut queue),
        Ok(Stmt::While {
            condition: number("1", 1),
            body: vec![
                Stmt::While {
                    condition: number("0", 0),
                    body: vec![]
                },
                Stmt::Halt
            ]
        })
    );
}

#[test]
fn parse_function_errors() {
    assert_eq!(
        errors_of("fn"),
        vec![error("Expected a token in the parse queue.", 0)]
    );
    assert_eq!(
        errors_of("fn\n("),
        vec![error("Expected identifier after 'fn'.", 2)]
    );
    assert_eq!(
        errors_of("fn f\n\n{"),
        vec![error("Expected '(' after function name.", 3)]
    );
    assert_eq!(
        errors_of("fn f("),
        vec![error("Expected a token in the parse queue.", 0)]
    );
    assert_eq!(
        errors_of("fn f()\n;"),
        vec![error("Expected '{' after function declaration.", 2)]
    );
    assert_eq!(
        errors_of("fn f() { halt;"),
        vec![error("Expected a token in the parse queue.", 0)]
    );
}

#[test]
fn parse_parameters_are_not_taken() {
    assert_eq!(
        errors_of("fn f(a) {}"),
        vec![
            error("Expected ')' after argument list.", 1),
            error("Unsupported top-level statement.", 1),
            error("Unsupported top-level statement.", 1),
            error("Unsupported top-level statement.", 1),
        ]
    );
}

#[test]
fn parse_variable_errors() {
    assert_eq!(
        errors_of("u8"),
        vec![error("Expected a token in the parse queue.", 0)]
    );
    assert_eq!(errors_of("u8 ;"), vec![error("Expected variable name.", 1)]);
    assert_eq!(
        errors_of("u8 a\n}"),
        vec![error("Expected ';' after variable declaration.", 2)]
    );
    assert_eq!(
        errors_of("u8[\na"),
        vec![error("Expected array size specifier.", 2)]
    );
    assert_eq!(
        errors_of("u8[1\n\n;"),
        vec![error("Expected ']' ending array definition.", 3)]
    );
    assert_eq!(
        errors_of("u8[1]"),
        vec![error("Expected a token in the parse queue.", 0)]
    );
}

#[test]
fn parse_statement_errors() {
    assert_eq!(
        errors_of("fn f() { halt\n}"),
        vec![error("Expected ';' after halt.", 2)]
    );
    assert_eq!(
        errors_of("fn f() { a = 1\n}"),
        vec![error("Expected ';' after statement.", 2)]
    );
    assert_eq!(
        errors_of("fn f() { a\n}"),
        vec![error("Expected ';' after statement.", 2)]
    );
    assert_eq!(
        errors_of("fn f() { a[1\n}"),
        vec![error("Expected ']' ending index expression.", 2)]
    );
    assert_eq!(
        errors_of("fn f() {\n;"),
        vec![error("Expected number or identifier in expression.", 2)]
    );
    assert_eq!(
        errors_of("fn f() { a =\n;"),
        vec![error("Expected number or identifier in expression.", 2)]
    );
}

#[test]
fn parse_while_errors() {
    assert_eq!(
        errors_of("fn f() { while\n{"),
        vec![error("Expected '(' after while.", 2)]
    );
    assert_eq!(
        errors_of("fn f() { while (\n)"),
        vec![error("Expected number or identifier in expression.", 2)]
    );
    assert_eq!(
        errors_of("fn f() { while (a\n{"),
        vec![error("Expected ')' after while condition.", 2)]
    );
    assert_eq!(
        errors_of("fn f() { while (a)\n;"),
        vec![error("Expected '{' at beginning of while body.", 2)]
    );
    assert_eq!(
        errors_of("fn f() { while (a) {"),
        vec![error("Expected a token in the parse queue.", 0)]
    );
}

#[test]
fn parse_while_takes_any_first_token() {
    let mut queue = queue_of("halt (true) { }");
    assert_eq!(
        while_loop(&mut queue),
        Ok(Stmt::While {
            condition: Expr::Literal {
                token: tok(TokenKind::True, "true", None, 1),
                value: 1
            },
            body: vec![]
        })
    );
}

#[test]
fn parse_unsupported_top_level() {
    assert_eq!(
        errors_of("halt\n;"),
        vec![
            error("Unsupported top-level statement.", 1),
            error("Unsupported top-level statement.", 2),
        ]
    );
}

#[test]
fn parse_goes_on_after_a_diagnostic() {
    let (ast, errors) = parse_source("u8 ; u8 a;\n1 fn f() {}");
    assert_eq!(
        errors,
        vec![
            error("Expected variable name.", 1),
            error("Unsupported top-level statement.", 2),
        ]
    );
    assert_eq!(
        ast,
        vec![
            Declaration::Variable {
                name: name("a"),
                size: 1
            },
            Declaration::Function {
                name: tok(TokenKind::Identifier, "f", None, 2),
                arguments: vec![],
                body: vec![]
            },
        ]
    );
}

#[test]
fn parse_stops_at_end_of_input_token() {
    let tokens = vec![
        tok(TokenKind::Unsigned8, "u8", None, 1),
        tok(TokenKind::Identifier, "a", None, 1),
        tok(TokenKind::Semicolon, ";", None, 1),
        tok(TokenKind::EOF, "", None, 1),
        tok(TokenKind::Semicolon, ";", None, 1),
    ];
    let (ast, errors) = parse(tokens);
    assert_eq!(errors, vec![]);
    assert_eq!(
        ast,
        vec![Declaration::Variable {
            name: name("a"),
            size: 1
        }]
    );
}

#[test]
fn parse_nested_value_is_reported_at_its_operator() {
    assert_eq!(
        errors_of("fn f() { a = 1 + 2\n+ 3\n; }"),
        vec![
            error(
                "Expected ';' after expression (nested expressions not supported).",
                2
            ),
            error("Unsupported top-level statement.", 3),
        ]
    );
}

#[test]
fn parse_nested_expression_statement() {
    let mut queue = queue_of("1 - 2 - 3; halt");
    assert_eq!(
        expression_statement(&mut queue),
        Err(error(
            "Expected ';' after expression (nested expressions not supported).",
            1
        ))
    );
    assert_eq!(queue.len(), 1);
}

#[test]
fn parse_one_operation_is_not_nested() {
    let mut queue = queue_of("a = b[1 + 2 + 3] - c[4];");
    let result = expression_statement(&mut queue);
    assert!(matches!(result, Ok(Stmt::Assign { .. })));
}

#[test]
fn parse_nested_target_is_left_to_the_generator() {
    let mut queue = queue_of("1 + 2 + 3 = 4;");
    let result = expression_statement(&mut queue);
    assert!(matches!(
        result,
        Ok(Stmt::Assign {
            target: Expr::Binary { .. },
            ..
        })
    ));
}

#[test]
fn parse_missing_semicolon_comes_before_nesting() {
    let mut queue = queue_of("a = 1 + 2 + 3 }");
    assert_eq!(
        expression_statement(&mut queue),
        Err(error("Expected ';' after statement.", 1))
    );
}

#[test]
fn parse_trees_clone_equal() {
    let (ast, _) = parse_source("u8[3] a; fn f() { while (a[1]) { a[0] = a[1] - 1; halt; } }");
    assert_eq!(ast.len(), 2);
    for declaration in &ast {
        assert_eq!(&declaration.clone(), declaration);
    }
    let Declaration::Function { body, .. } = &ast[1] else {
        panic!("Expected a function");
    };
    assert_eq!(body[0].clone(), body[0]);
    let Stmt::While { condition, .. } = &body[0] else {
        panic!("Expected a loop");
    };
    assert_eq!(&condition.clone(), condition);
}
