use tugboat::{compile, CompilationError};

fn error(msg: &str, line: u32) -> CompilationError {
    CompilationError {
        msg: msg.to_string(),
        line,
    }
}

#[test]
fn error_assign_to_function() {
    let src = String::from("fn myFunction(){} fn main() { myFunction = 5; }");
    let errors = compile(src).expect_err("Expected compilation errors from bad script!");
    assert_eq!(errors, vec![error("Cannot assign to function", 1)]);
}

#[test]
fn error_undefined_variable() {
    let src = String::from("fn main() { myVariable = 5; }");
    let errors = compile(src).expect_err("Expected compilation errors from bad script!");
    assert_eq!(errors, vec![error("Undefined variable: myVariable", 1)]);
}

#[test]
fn error_assign_to_literal() {
    let src = String::from("fn main() { 1 = 5; }");
    let errors = compile(src).expect_err("Expected compilation errors from bad script!");
    assert_eq!(errors, vec![error("Cannot assign to non-variable.", 1),]);
}

#[test]
fn error_no_nested_expressions() {
    let src = String::from("u8 variable; fn main() { variable = 1 + 2 + 3; }");
    let errors = compile(src).expect_err("Expected compilation errors from bad script!");
    assert_eq!(
        errors,
        vec![
            error("Expected ';' after expression (nested expressions not supported).", 1),
            error("Unsupported top-level statement.", 1)
        ]
    );
}

#[test]
fn minimal_program() {
    let text = compile(String::from("fn main() { halt; }")).unwrap();
    assert_eq!(
        text,
        "SECTION \"Variables\", WRAM0\nSECTION \"Functions\", ROM0\nmain::\n\thalt\n\tret\n"
    );
}
