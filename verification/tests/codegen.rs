use tugboat::analysis::{generate_directory, Directory, ValueType};
use tugboat::codegen::{gen, gen_statement, gen_while_loop};
use tugboat::lexer::{lex, Token, TokenKind};
use tugboat::parser::parse;
use tugboat::text::Numeral;
use tugboat::{compile, error, CompilationError, Declaration, Expr, Stmt};

fn failure(msg: &str, line: u32) -> CompilationError {
    CompilationError {
        msg: msg.to_string(),
        line,
    }
}

fn tok(kind: TokenKind, lexeme: &str, line: u32) -> Token {
    Token {
        kind,
        lexeme: lexeme.to_string(),
        value: None,
        line,
    }
}

fn name(text: &str) -> Token {
    tok(TokenKind::Identifier, text, 1)
}

fn literal(value: u8) -> Expr {
    Expr::Literal {
        token: Token {
            kind: TokenKind::Number,
            lexeme: value.to_string(),
            value: Some(value),
            line: 1,
        },
        value,
    }
}

fn function(label: &str, body: Vec<Stmt>) -> Declaration {
    Declaration::Function {
        name: name(label),
        arguments: vec![],
        body,
    }
}

fn generate(ast: Vec<Declaration>) -> Result<String, Vec<CompilationError>> {
    let directory = generate_directory(&ast);
    gen(ast, &directory)
}

fn body_of(source: &str) -> String {
    let text = compile(String::from(source)).unwrap();
    let head = "SECTION \"Functions\", ROM0\n";
    let at = text.find(head).unwrap();
    text[at + head.len()..].to_string()
}

#[test]
fn error_constructor() {
    assert_eq!(error(3, "message"), failure("message", 3));
}

#[test]
fn directory_starts_empty() {
    let directory = Directory::new();
    assert_eq!(directory.get(&String::from("a")), None);
}

#[test]
fn directory_last_insert_wins() {
    let mut directory = Directory::new();
    directory.insert(String::from("a"), ValueType::UnsignedByte);
    directory.insert(String::from("b"), ValueType::Function);
    assert_eq!(directory.get(&String::from("a")), Some(ValueType::UnsignedByte));
    assert_eq!(directory.get(&String::from("b")), Some(ValueType::Function));
    assert_eq!(directory.get(&String::from("c")), None);
    directory.insert(String::from("a"), ValueType::Function);
    assert_eq!(directory.get(&String::from("a")), Some(ValueType::Function));
    assert_eq!(directory.get(&String::from("b")), Some(ValueType::Function));
}

#[test]
fn directory_of_declarations() {
    let (tokens, _) = lex(String::from("u8 a; fn f() {} u8[2] b; fn a() {} u8 f;"));
    let (ast, errors) = parse(tokens);
    assert_eq!(errors, vec![]);
    let directory = generate_directory(&ast);
    assert_eq!(directory.get(&String::from("a")), Some(ValueType::Function));
    assert_eq!(directory.get(&String::from("b")), Some(ValueType::UnsignedByte));
    assert_eq!(directory.get(&String::from("f")), Some(ValueType::UnsignedByte));
    assert_eq!(directory.get(&String::from("main")), None);
}

#[test]
fn generate_empty_program() {
    assert_eq!(
        generate(vec![]),
        Ok(String::from(
            "SECTION \"Variables\", WRAM0\nSECTION \"Functions\", ROM0\n"
        ))
    );
}

#[test]
fn generate_variable_assignment() {
    assert_eq!(
        compile(String::from("u8 variable;\nfn main() {\nvariable = 5;\n}\n")),
        Ok(String::from(
            "SECTION \"Variables\", WRAM0\nvariable:: ds 1\nSECTION \"Functions\", ROM0\nmain::\n\tld a, 5\n\tld [variable], a\n\tret\n"
        ))
    );
}

#[test]
fn generate_array_and_index() {
    assert_eq!(
        compile(String::from("u8[4] a; fn main() { a[1] = 2; }")),
        Ok(String::from(
            "SECTION \"Variables\", WRAM0\na:: ds 4\nSECTION \"Functions\", ROM0\nmain::\n\tld a, 1\n\tld b, 0\n\tld c, a\n\tld hl, a\n\tadd hl, bc\n\tld a, 2\n\tld [hl], a\n\tret\n"
        ))
    );
}

#[test]
fn generate_empty_function() {
    assert_eq!(body_of("fn f() {}"), "f::\n\tret\n");
}

#[test]
fn generate_variable_sizes() {
    assert_eq!(
        compile(String::from("u8[255] big; u8[1] one; u8[10] ten;")),
        Ok(String::from(
            "SECTION \"Variables\", WRAM0\nbig:: ds 255\none:: ds 1\nten:: ds 10\nSECTION \"Functions\", ROM0\n"
        ))
    );
}

#[test]
fn generate_variables_before_functions() {
    assert_eq!(
        compile(String::from("fn f() {} u8 a; fn g() { halt; } u8[2] b;")),
        Ok(String::from(
            "SECTION \"Variables\", WRAM0\na:: ds 1\nb:: ds 2\nSECTION \"Functions\", ROM0\nf::\n\tret\ng::\n\thalt\n\tret\n"
        ))
    );
}

#[test]
fn generate_literals() {
    assert_eq!(
        body_of("fn f() { true; false; 0; 255; 'a'; }"),
        "f::\n\tld a, 1\n\tld a, 0\n\tld a, 0\n\tld a, 255\n\tld a, 97\n\tret\n"
    );
}

#[test]
fn generate_load_of_variable() {
    assert_eq!(body_of("u8 x; fn f() { x; }"), "f::\n\tld a, [x]\n\tret\n");
}

#[test]
fn generate_load_of_function_name() {
    assert_eq!(body_of("fn g() {} fn f() { g; }"), "g::\n\tret\nf::\n\tld a, [g]\n\tret\n");
}

#[test]
fn generate_load_of_element() {
    assert_eq!(
        body_of("u8[8] x; u8 i; fn f() { x[i]; }"),
        "f::\n\tld a, [i]\n\tld b, 0\n\tld c, a\n\tld hl, x\n\tadd hl, bc\n\tld a, [hl]\n\tret\n"
    );
}

#[test]
fn generate_addition_and_subtraction() {
    assert_eq!(
        body_of("u8 x; fn f() { x = x + 1; x = 2 - x; }"),
        "f::\n\tld a, [x]\n\tld c, a\n\tld a, 1\n\tld b, a\n\tld a, c\n\tadd a, b\n\tld [x], a\n\tld a, 2\n\tld c, a\n\tld a, [x]\n\tld b, a\n\tld a, c\n\tsub a, b\n\tld [x], a\n\tret\n"
    );
}

#[test]
fn generate_store_to_element_of_sum() {
    assert_eq!(
        body_of("u8[4] a; u8 i; fn f() { a[i + 1] = a[0]; }"),
        "f::\n\tld a, [i]\n\tld c, a\n\tld a, 1\n\tld b, a\n\tld a, c\n\tadd a, b\n\tld b, 0\n\tld c, a\n\tld hl, a\n\tadd hl, bc\n\tld a, 0\n\tld b, 0\n\tld c, a\n\tld hl, a\n\tadd hl, bc\n\tld a, [hl]\n\tld [hl], a\n\tret\n"
    );
}

#[test]
fn generate_while_loop() {
    assert_eq!(
        body_of("fn main() { while (true) { halt; } }"),
        "main::\n.startWhile_1\n\tld a, 1\n\tor a\n\tjr z, .endWhile_1\n\thalt\n\tjr .startWhile_1\n.endWhile_1\n\tret\n"
    );
}

#[test]
fn generate_loops_take_fresh_labels() {
    assert_eq!(
        body_of("fn f() { while (1) { while (2) { } } while (3) { } } fn g() { while (4) { } }"),
        "f::\n.startWhile_1\n\tld a, 1\n\tor a\n\tjr z, .endWhile_1\n.startWhile_2\n\tld a, 2\n\tor a\n\tjr z, .endWhile_2\n\tjr .startWhile_2\n.endWhile_2\n\tjr .startWhile_1\n.endWhile_1\n.startWhile_3\n\tld a, 3\n\tor a\n\tjr z, .endWhile_3\n\tjr .startWhile_3\n.endWhile_3\n\tret\ng::\n.startWhile_4\n\tld a, 4\n\tor a\n\tjr z, .endWhile_4\n\tjr .startWhile_4\n.endWhile_4\n\tret\n"
    );
}

#[test]
fn generate_many_loops_have_distinct_labels() {
    let mut source = String::from("fn f() {");
    for _ in 0..12 {
        source.push_str(" while (1) { }");
    }
    source.push_str(" }");
    let text = compile(source).unwrap();
    for n in 1..=12 {
        let start = format!(".startWhile_{}\n", n);
        let end = format!(".endWhile_{}\n", n);
        assert_eq!(text.matches(start.as_str()).count(), 2);
        assert_eq!(text.matches(end.as_str()).count(), 2);
    }
    assert_eq!(text.matches(".startWhile_13\n").count(), 0);
}

#[test]
fn generate_labels_restart_in_each_call() {
    let source = "fn f() { while (1) { } }";
    let first = compile(String::from(source)).unwrap();
    let second = compile(String::from(source)).unwrap();
    assert_eq!(first, second);
}

#[test]
fn generate_sections_in_order() {
    let text = compile(String::from("fn f() {} u8 a;")).unwrap();
    let variables = text.find("SECTION \"Variables\", WRAM0").unwrap();
    let functions = text.find("SECTION \"Functions\", ROM0").unwrap();
    assert_eq!(variables, 0);
    assert!(variables < functions);
    assert!(text.find("a:: ds 1").unwrap() < functions);
    assert!(text.find("f::").unwrap() > functions);
}

#[test]
fn generate_declarations_in_order() {
    let text = compile(String::from("u8 b; fn z() {} u8 a; fn y() {} u8 c;")).unwrap();
    let b = text.find("b:: ds 1\n").unwrap();
    let a = text.find("a:: ds 1\n").unwrap();
    let c = text.find("c:: ds 1\n").unwrap();
    assert!(b < a && a < c);
    assert!(text.find("z::\n").unwrap() < text.find("y::\n").unwrap());
}

#[test]
fn generate_undefined_names() {
    assert_eq!(
        compile(String::from("fn f() {\nx;\n}")),
        Err(vec![failure("Undefined variable: x", 2)])
    );
    assert_eq!(
        compile(String::from("fn f() {\n\nx[1];\n}")),
        Err(vec![failure("Undefined variable: x", 3)])
    );
    assert_eq!(
        compile(String::from("u8 a; fn f() { a = x; }")),
        Err(vec![failure("Undefined variable: x", 1)])
    );
    assert_eq!(
        compile(String::from("u8[2] a; fn f() { a[x] = 1; }")),
        Err(vec![failure("Undefined variable: x", 1)])
    );
    assert_eq!(
        compile(String::from("fn f() { while (x) { } }")),
        Err(vec![failure("Undefined variable: x", 1)])
    );
}

#[test]
fn generate_function_cannot_be_indexed() {
    assert_eq!(
        compile(String::from("fn g() {}\nfn f() { g[1]; }")),
        Err(vec![failure("Cannot index a function identifier", 2)])
    );
    assert_eq!(
        compile(String::from("fn g() {}\nfn f() {\ng[1] = 2; }")),
        Err(vec![failure("Cannot index a function identifier", 3)])
    );
}

#[test]
fn generate_function_cannot_be_assigned() {
    assert_eq!(
        compile(String::from("fn f() {\nf = 1; }")),
        Err(vec![failure("Cannot assign to function", 2)])
    );
}

#[test]
fn generate_target_is_checked_before_value() {
    assert_eq!(
        compile(String::from("fn f() { x = y; }")),
        Err(vec![failure("Undefined variable: x", 1)])
    );
    assert_eq!(
        compile(String::from("fn f() { 1 = y; }")),
        Err(vec![failure("Cannot assign to non-variable.", 1)])
    );
}

#[test]
fn generate_operation_cannot_be_assigned() {
    assert_eq!(
        compile(String::from("u8 a; fn f() { a\n+ 1 = 2; }")),
        Err(vec![failure("Cannot assign to non-variable.", 2)])
    );
}

#[test]
fn generate_unexpected_operator() {
    let ast = vec![function(
        "f",
        vec![Stmt::Expression {
            expr: Expr::Binary {
                operator: tok(TokenKind::Star, "*", 9),
                left: Box::new(literal(1)),
                right: Box::new(literal(2)),
            },
        }],
    )];
    assert_eq!(
        generate(ast),
        Err(vec![failure("Unexpected operator in binary expression.", 9)])
    );
}

#[test]
fn generate_operands_are_checked_before_operator() {
    let ast = vec![function(
        "f",
        vec![Stmt::Expression {
            expr: Expr::Binary {
                operator: tok(TokenKind::Star, "*", 9),
                left: Box::new(literal(1)),
                right: Box::new(Expr::Variable { name: name("x") }),
            },
        }],
    )];
    assert_eq!(generate(ast), Err(vec![failure("Undefined variable: x", 1)]));
}

#[test]
fn generate_nested_operations_of_a_tree() {
    let plus = tok(TokenKind::Plus, "+", 1);
    let minus = tok(TokenKind::Minus, "-", 1);
    let ast = vec![function(
        "f",
        vec![Stmt::Expression {
            expr: Expr::Binary {
                operator: minus,
                left: Box::new(Expr::Binary {
                    operator: plus,
                    left: Box::new(literal(1)),
                    right: Box::new(literal(2)),
                }),
                right: Box::new(literal(3)),
            },
        }],
    )];
    assert_eq!(
        generate(ast),
        Ok(String::from(
            "SECTION \"Variables\", WRAM0\nSECTION \"Functions\", ROM0\nf::\n\tld a, 1\n\tld c, a\n\tld a, 2\n\tld b, a\n\tld a, c\n\tadd a, b\n\tld c, a\n\tld a, 3\n\tld b, a\n\tld a, c\n\tsub a, b\n\tret\n"
        ))
    );
}

#[test]
fn generate_one_diagnostic_for_each_function() {
    assert_eq!(
        compile(String::from(
            "fn a() { x; y; }\nfn b() { halt; }\nfn c() { 1 = 2; }\nfn d() { while (1) { z; } }"
        )),
        Err(vec![
            failure("Undefined variable: x", 1),
            failure("Cannot assign to non-variable.", 3),
            failure("Undefined variable: z", 4),
        ])
    );
}

#[test]
fn generate_uses_the_directory_it_is_given() {
    let (tokens, _) = lex(String::from("fn f() { x = 1; }"));
    let (ast, _) = parse(tokens);
    let mut directory = Directory::new();
    directory.insert(String::from("x"), ValueType::UnsignedByte);
    assert_eq!(
        gen(ast, &directory),
        Ok(String::from(
            "SECTION \"Variables\", WRAM0\nSECTION \"Functions\", ROM0\nf::\n\tld a, 1\n\tld [x], a\n\tret\n"
        ))
    );
}

#[test]
fn generate_later_declaration_decides_the_kind() {
    assert_eq!(
        compile(String::from("u8 f; fn f() { f = 1; }")),
        Err(vec![failure("Cannot assign to function", 1)])
    );
    assert_eq!(
        body_of("fn g() {} u8 g; fn f() { g = 1; }"),
        "g::\n\tret\nf::\n\tld a, 1\n\tld [g], a\n\tret\n"
    );
}

#[test]
fn compile_lexer_diagnostics_come_first() {
    assert_eq!(
        compile(String::from("fn f() { halt }\n@")),
        Err(vec![
            failure("Unexpected character: @", 2),
            failure("Expected ';' after halt.", 1),
        ])
    );
}

#[test]
fn compile_lexer_diagnostic_alone_ends_compilation() {
    assert_eq!(
        compile(String::from("fn f() { x; } $")),
        Err(vec![failure("Unexpected character: $", 1)])
    );
}

#[test]
fn compile_parser_diagnostic_ends_compilation() {
    assert_eq!(
        compile(String::from("fn f() { x; } }")),
        Err(vec![failure("Unsupported top-level statement.", 1)])
    );
}

#[test]
fn compile_empty_source() {
    assert_eq!(
        compile(String::new()),
        Ok(String::from(
            "SECTION \"Variables\", WRAM0\nSECTION \"Functions\", ROM0\n"
        ))
    );
}

fn empty_loop(n: u8) -> Stmt {
    Stmt::While {
        condition: literal(n),
        body: vec![],
    }
}

fn loop_text(suffix: u32, n: u8, body: &str) -> String {
    format!(
        ".startWhile_{s}\n\tld a, {n}\n\tor a\n\tjr z, .endWhile_{s}\n{body}\tjr .startWhile_{s}\n.endWhile_{s}\n",
        s = suffix,
        n = n,
        body = body
    )
}

fn counted(counter: &Numeral) -> String {
    let mut out = String::new();
    counter.write(&mut out);
    out
}

#[test]
fn loop_and_nested_loops_have_different_suffixes() {
    let directory = Directory::new();
    let mut counter = Numeral::zero();
    let body = vec![
        Stmt::While {
            condition: literal(2),
            body: vec![empty_loop(3)],
        },
        Stmt::Halt,
        empty_loop(4),
    ];
    let text = gen_while_loop(&literal(1), &body, &directory, &mut counter).unwrap();
    let third = loop_text(3, 3, "");
    let second = loop_text(2, 2, third.as_str());
    let fourth = loop_text(4, 4, "");
    let inner = format!("{}\thalt\n{}", second, fourth);
    assert_eq!(text, loop_text(1, 1, inner.as_str()));
    assert_eq!(counted(&counter), "4");
}

#[test]
fn loops_generated_one_after_the_other_have_different_suffixes() {
    let directory = Directory::new();
    let mut counter = Numeral::zero();
    let first = gen_while_loop(&literal(1), &vec![empty_loop(2)], &directory, &mut counter);
    let second = gen_while_loop(&literal(3), &vec![], &directory, &mut counter);
    let third = gen_statement(&empty_loop(5), &directory, &mut counter);
    let nested = loop_text(2, 2, "");
    assert_eq!(first, Ok(loop_text(1, 1, nested.as_str())));
    assert_eq!(second, Ok(loop_text(3, 3, "")));
    assert_eq!(third, Ok(loop_text(4, 5, "")));
    assert_eq!(counted(&counter), "4");
}

#[test]
fn statements_without_loops_leave_the_counter() {
    let directory = Directory::new();
    let mut counter = Numeral::zero();
    assert_eq!(
        gen_statement(&Stmt::Halt, &directory, &mut counter),
        Ok(String::from("\thalt\n"))
    );
    assert_eq!(
        gen_statement(
            &Stmt::Expression { expr: literal(7) },
            &directory,
            &mut counter
        ),
        Ok(String::from("\tld a, 7\n"))
    );
    assert_eq!(counted(&counter), "0");
}

#[test]
fn loop_that_fails_returns_its_diagnostic() {
    let directory = Directory::new();
    let mut counter = Numeral::zero();
    let body = vec![Stmt::Expression {
        expr: Expr::Variable { name: name("x") },
    }];
    assert_eq!(
        gen_while_loop(&literal(1), &body, &directory, &mut counter),
        Err(failure("Undefined variable: x", 1))
    );
}
