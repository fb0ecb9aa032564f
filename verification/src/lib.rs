//! Tugboat: a compiler from a small imperative language to assembly text for
//! the Game Boy, in the dialect of the RGBDS assembler.
//!
//! The stages run in order: [`lexer`] turns source text into tokens,
//! [`parser`] turns tokens into declarations, [`analysis`] records what kind
//! of thing each name is, and [`codegen`] writes the assembly.

use vstd::prelude::*;
use vstd::string::*;

pub mod analysis;
pub mod codegen;
pub mod lexer;
pub mod parser;
pub mod text;

use crate::lexer::{Token, TokenView};

verus! {

/// The mathematical values of the items of a sequence, in order.
pub open spec fn views<T: View>(items: Seq<T>) -> Seq<T::V> {
    Seq::new(items.len(), |i: int| items[i]@)
}

/// A diagnostic: a message and the 1-based source line it belongs to. Line 0
/// stands for "no position": the input ended where a token was needed.
#[derive(Debug, PartialEq, Eq)]
pub struct CompilationError {
    pub msg: String,
    pub line: u32,
}

/// The mathematical value of a [`CompilationError`].
pub struct ErrorView {
    pub msg: Seq<char>,
    pub line: u32,
}

impl View for CompilationError {
    type V = ErrorView;

    open spec fn view(&self) -> ErrorView {
        ErrorView { msg: self.msg@, line: self.line }
    }
}

/// The mathematical value of a result that ends in a diagnostic.
pub open spec fn outcome<T: View>(result: Result<T, CompilationError>) -> Result<T::V, ErrorView> {
    match result {
        Ok(value) => Ok(value@),
        Err(e) => Err(e@),
    }
}

/// The mathematical value of a result that ends in a list of diagnostics.
pub open spec fn outcome_of_all<T: View>(result: Result<T, Vec<CompilationError>>) -> Result<
    T::V,
    Seq<ErrorView>,
> {
    match result {
        Ok(value) => Ok(value@),
        Err(errors) => Err(views(errors@)),
    }
}

/// An expression.
#[derive(Debug, PartialEq, Eq)]
pub enum Expr {
    Literal { token: Token, value: u8 },
    Variable { name: Token },
    Indexed { name: Token, index: Box<Expr> },
    Binary { operator: Token, left: Box<Expr>, right: Box<Expr> },
}

/// The mathematical value of an [`Expr`].
pub enum ExprView {
    Literal { token: TokenView, value: u8 },
    Variable { name: TokenView },
    Indexed { name: TokenView, index: Box<ExprView> },
    Binary { operator: TokenView, left: Box<ExprView>, right: Box<ExprView> },
}

/// The mathematical value of an expression.
pub open spec fn expr_view(e: Expr) -> ExprView
    decreases e,
{
    match e {
        Expr::Literal { token, value } => ExprView::Literal { token: token@, value },
        Expr::Variable { name } => ExprView::Variable { name: name@ },
        Expr::Indexed { name, index } => ExprView::Indexed {
            name: name@,
            index: Box::new(expr_view(*index)),
        },
        Expr::Binary { operator, left, right } => ExprView::Binary {
            operator: operator@,
            left: Box::new(expr_view(*left)),
            right: Box::new(expr_view(*right)),
        },
    }
}

impl View for Expr {
    type V = ExprView;

    open spec fn view(&self) -> ExprView {
        expr_view(*self)
    }
}

impl Clone for Expr {
    fn clone(&self) -> (res: Self)
        ensures
            res@ == self@,
        decreases self,
    {
        match self {
            Expr::Literal { token, value } => Expr::Literal { token: token.clone(), value: *value },
            Expr::Variable { name } => Expr::Variable { name: name.clone() },
            Expr::Indexed { name, index } => Expr::Indexed {
                name: name.clone(),
                index: Box::new((&**index).clone()),
            },
            Expr::Binary { operator, left, right } => Expr::Binary {
                operator: operator.clone(),
                left: Box::new((&**left).clone()),
                right: Box::new((&**right).clone()),
            },
        }
    }
}

/// A statement.
#[derive(Debug, PartialEq, Eq)]
pub enum Stmt {
    Halt,
    While { condition: Expr, body: Vec<Stmt> },
    Assign { target: Expr, value: Expr },
    Expression { expr: Expr },
}

/// The mathematical value of a [`Stmt`].
pub enum StmtView {
    Halt,
    While { condition: ExprView, body: Seq<StmtView> },
    Assign { target: ExprView, value: ExprView },
    Expression { expr: ExprView },
}

/// The mathematical value of a statement.
pub open spec fn stmt_view(s: Stmt) -> StmtView
    decreases s,
{
    match s {
        Stmt::Halt => StmtView::Halt,
        Stmt::While { condition, body } => StmtView::While {
            condition: condition@,
            body: Seq::new(
                body@.len(),
                |i: int|
                    if 0 <= i < body@.len() {
                        stmt_view(body@[i])
                    } else {
                        StmtView::Halt
                    },
            ),
        },
        Stmt::Assign { target, value } => StmtView::Assign { target: target@, value: value@ },
        Stmt::Expression { expr } => StmtView::Expression { expr: expr@ },
    }
}

impl View for Stmt {
    type V = StmtView;

    open spec fn view(&self) -> StmtView {
        stmt_view(*self)
    }
}

/// The value of a `while` statement holds the values of the statements of
/// its body.
pub proof fn lemma_while_view(condition: Expr, body: Vec<Stmt>)
    ensures
        (Stmt::While { condition, body })@ == (StmtView::While {
            condition: condition@,
            body: views(body@),
        }),
{
    assert((Stmt::While { condition, body })@->While_body =~= views(body@));
}

/// Copies a sequence of statements.
fn clone_statements(body: &Vec<Stmt>) -> (copy: Vec<Stmt>)
    ensures
        views(copy@) == views(body@),
    decreases body,
{
    let mut copy: Vec<Stmt> = Vec::new();
    let mut i: usize = 0;
    while i < body.len()
        invariant
            i <= body.len(),
            copy.len() == i,
            forall|k: int| 0 <= k < i ==> (#[trigger] copy@[k])@ == body@[k]@,
        decreases body.len() - i,
    {
        copy.push(body[i].clone());
        i += 1;
    }
    assert(views(copy@) =~= views(body@));
    copy
}

impl Clone for Stmt {
    fn clone(&self) -> (res: Self)
        ensures
            res@ == self@,
        decreases self,
    {
        match self {
            Stmt::Halt => Stmt::Halt,
            Stmt::While { condition, body } => {
                let copy = clone_statements(body);
                proof {
                    lemma_while_view(*condition, *body);
                }
                let res = Stmt::While { condition: condition.clone(), body: copy };
                proof {
                    lemma_while_view(res->While_condition, res->While_body);
                }
                res
            },
            Stmt::Assign { target, value } => Stmt::Assign {
                target: target.clone(),
                value: value.clone(),
            },
            Stmt::Expression { expr } => Stmt::Expression { expr: expr.clone() },
        }
    }
}

/// A top-level declaration.
#[derive(Debug, PartialEq, Eq)]
pub enum Declaration {
    Variable { name: Token, size: u8 },
    Function { name: Token, arguments: Vec<Token>, body: Vec<Stmt> },
}

/// The mathematical value of a [`Declaration`].
pub enum DeclarationView {
    Variable { name: TokenView, size: u8 },
    Function { name: TokenView, arguments: Seq<TokenView>, body: Seq<StmtView> },
}

impl View for Declaration {
    type V = DeclarationView;

    open spec fn view(&self) -> DeclarationView {
        match self {
            Declaration::Variable { name, size } => DeclarationView::Variable {
                name: name@,
                size: *size,
            },
            Declaration::Function { name, arguments, body } => DeclarationView::Function {
                name: name@,
                arguments: views(arguments@),
                body: views(body@),
            },
        }
    }
}

impl Clone for Declaration {
    fn clone(&self) -> (res: Self)
        ensures
            res@ == self@,
    {
        match self {
            Declaration::Variable { name, size } => Declaration::Variable {
                name: name.clone(),
                size: *size,
            },
            Declaration::Function { name, arguments, body } => {
                let mut copy: Vec<Token> = Vec::new();
                let mut i: usize = 0;
                while i < arguments.len()
                    invariant
                        i <= arguments.len(),
                        copy.len() == i,
                        forall|k: int| 0 <= k < i ==> (#[trigger] copy@[k])@ == arguments@[k]@,
                    decreases arguments.len() - i,
                {
                    copy.push(arguments[i].clone());
                    i += 1;
                }
                assert(views(copy@) =~= views(arguments@));
                Declaration::Function {
                    name: name.clone(),
                    arguments: copy,
                    body: clone_statements(body),
                }
            },
        }
    }
}

/// What compiling a source text comes to. The diagnostics of the lexer and
/// of the parser, in this order, end the compilation if there are any; the
/// directory is built and the code generated only for a program without
/// them.
pub open spec fn compile_spec(src: Seq<char>) -> Result<Seq<char>, Seq<ErrorView>> {
    let lexed = lexer::lex_spec(src);
    let program = parser::parse_spec(lexed.tokens);
    if lexed.errors.len() + program.errors.len() > 0 {
        Err(lexed.errors + program.errors)
    } else {
        codegen::asm_program(program.declarations, analysis::directory_of(program.declarations))
    }
}

/// A diagnostic of the lexer or of the parser ends the compilation: the
/// result is then the diagnostics of the lexer followed by those of the
/// parser, and no code is generated.
pub proof fn lemma_errors_end_compilation(src: Seq<char>)
    requires
        lexer::lex_spec(src).errors.len() > 0 || parser::parse_spec(
            lexer::lex_spec(src).tokens,
        ).errors.len() > 0,
    ensures
        compile_spec(src) == Err::<Seq<char>, Seq<ErrorView>>(
            lexer::lex_spec(src).errors + parser::parse_spec(lexer::lex_spec(src).tokens).errors,
        ),
{
}

/// Compiles a source text: to its assembly text, or to the diagnostics that
/// stood in the way.
pub fn compile(contents: String) -> (result: Result<String, Vec<CompilationError>>)
    ensures
        outcome_of_all(result) == compile_spec(contents@),
{
    let mut errors: Vec<CompilationError> = Vec::new();
    let (tokens, mut lexer_errors) = lexer::lex(contents);
    let (ast, mut parser_errors) = parser::parse(tokens);

    errors.append(&mut lexer_errors);
    errors.append(&mut parser_errors);
    proof {
        let lexed = lexer::lex_spec(contents@);
        let program = parser::parse_spec(lexed.tokens);
        assert(views(errors@) =~= lexed.errors + program.errors);
    }
    if errors.len() > 0 {
        return Err(errors);
    }
    let directory = analysis::generate_directory(&ast);

    codegen::gen(ast, &directory)
}

/// A diagnostic with the given line and message.
pub fn error(line: u32, msg: &str) -> (e: CompilationError)
    ensures
        e@ == (ErrorView { msg: msg@, line }),
{
    CompilationError { line, msg: String::from_str(msg) }
}

} // verus!
