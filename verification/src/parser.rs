//! Syntax analysis: from tokens to declarations and diagnostics, by recursive
//! descent with one token of lookahead.

use std::collections::VecDeque;
use vstd::prelude::*;

use crate::lexer::{Token, TokenKind, TokenView};
use crate::{
    error, lemma_while_view, views, CompilationError, Declaration, DeclarationView, ErrorView,
    Expr, ExprView, Stmt, StmtView,
};

verus! {

// ---------------------------------------------------------------------------
// The token queue
// ---------------------------------------------------------------------------

/// What a parser makes of a queue of tokens: a tree or a diagnostic, and the
/// tokens it left.
pub struct Parsed<T> {
    pub result: Result<T, ErrorView>,
    pub rest: Seq<TokenView>,
}

/// A parse that ended in the tree `tree`.
pub open spec fn done<T>(tree: T, rest: Seq<TokenView>) -> Parsed<T> {
    Parsed { result: Ok(tree), rest }
}

/// A parse that ended in the diagnostic `error`.
pub open spec fn failed<T>(error: ErrorView, rest: Seq<TokenView>) -> Parsed<T> {
    Parsed { result: Err(error), rest }
}

/// The diagnostic for a queue that ended where a token was needed.
pub open spec fn queue_error() -> ErrorView {
    ErrorView { line: 0, msg: "Expected a token in the parse queue."@ }
}

/// Whether the queue begins with a token of kind `kind`. An empty queue
/// begins with none.
pub open spec fn first_is(ts: Seq<TokenView>, kind: TokenKind) -> bool {
    ts.len() > 0 && ts[0].kind == kind
}

/// Takes the first token off the queue.
pub open spec fn parse_next(ts: Seq<TokenView>) -> Parsed<TokenView> {
    if ts.len() == 0 {
        failed(queue_error(), ts)
    } else {
        done(ts[0], ts.drop_first())
    }
}

/// Takes the first token off the queue, and wants it to be of kind `kind`:
/// if it is of another kind, `msg` is reported at its line.
pub open spec fn parse_expect(ts: Seq<TokenView>, kind: TokenKind, msg: Seq<char>) -> Parsed<
    TokenView,
> {
    if ts.len() == 0 {
        failed(queue_error(), ts)
    } else if ts[0].kind == kind {
        done(ts[0], ts.drop_first())
    } else {
        failed(ErrorView { line: ts[0].line, msg }, ts.drop_first())
    }
}

/// Takes the first token off the queue if it is of kind `kind`, and says
/// whether it did.
pub open spec fn parse_next_if(ts: Seq<TokenView>, kind: TokenKind) -> Parsed<bool> {
    if ts.len() == 0 {
        failed(queue_error(), ts)
    } else if ts[0].kind == kind {
        done(true, ts.drop_first())
    } else {
        done(false, ts)
    }
}

/// Whether a parse of `ts` went forward: it gave no token back, and took at
/// least one if it ended in a tree.
pub open spec fn goes_forward<T>(ts: Seq<TokenView>, parsed: Parsed<T>) -> bool {
    parsed.rest.len() <= ts.len() && (parsed.result is Ok ==> parsed.rest.len() < ts.len())
}

/// `parsed` itself, if it went forward in `ts`. Every parser of this module
/// does ([`lemma_expressions_go_forward`], [`lemma_statements_go_forward`]);
/// the definitions below pass their inner results through here, which shows
/// that they end.
pub open spec fn forward<T>(ts: Seq<TokenView>, parsed: Parsed<T>) -> Parsed<T> {
    if goes_forward(ts, parsed) {
        parsed
    } else {
        failed(queue_error(), Seq::empty())
    }
}

// ---------------------------------------------------------------------------
// Expressions
// ---------------------------------------------------------------------------

/// `primary := 'true' | 'false' | Number | Identifier ( '[' expression ']' )?`
pub open spec fn parse_primary(ts: Seq<TokenView>) -> Parsed<ExprView>
    decreases ts.len(), 0nat,
{
    let first = parse_next(ts);
    match first.result {
        Err(e) => failed(e, first.rest),
        Ok(token) => match token.kind {
            TokenKind::True => done(ExprView::Literal { token, value: 1 }, first.rest),
            TokenKind::False => done(ExprView::Literal { token, value: 0 }, first.rest),
            TokenKind::Number => match token.value {
                Some(value) => done(ExprView::Literal { token, value }, first.rest),
                None => failed(
                    ErrorView { line: token.line, msg: "Expected a value in number literal."@ },
                    first.rest,
                ),
            },
            TokenKind::Identifier => if first_is(first.rest, TokenKind::LeftBracket) {
                let index = parse_expression(first.rest.drop_first());
                match index.result {
                    Err(e) => failed(e, index.rest),
                    Ok(inner) => {
                        let close = parse_expect(
                            index.rest,
                            TokenKind::RightBracket,
                            "Expected ']' ending index expression."@,
                        );
                        match close.result {
                            Err(e) => failed(e, close.rest),
                            Ok(_) => done(
                                ExprView::Indexed { name: token, index: Box::new(inner) },
                                close.rest,
                            ),
                        }
                    },
                }
            } else {
                done(ExprView::Variable { name: token }, first.rest)
            },
            _ => failed(
                ErrorView {
                    line: token.line,
                    msg: "Expected number or identifier in expression."@,
                },
                first.rest,
            ),
        },
    }
}

/// Whether the queue begins with `+` or `-`.
pub open spec fn first_is_additive(ts: Seq<TokenView>) -> bool {
    first_is(ts, TokenKind::Plus) || first_is(ts, TokenKind::Minus)
}

/// The operators and operands that follow `left`, folded onto it from the
/// left: `( ('+'|'-') primary )*`.
pub open spec fn parse_term_rest(ts: Seq<TokenView>, left: ExprView) -> Parsed<ExprView>
    decreases ts.len(), 1nat,
{
    if first_is_additive(ts) {
        let right = forward(ts.drop_first(), parse_primary(ts.drop_first()));
        match right.result {
            Err(e) => failed(e, right.rest),
            Ok(operand) => parse_term_rest(
                right.rest,
                ExprView::Binary {
                    operator: ts[0],
                    left: Box::new(left),
                    right: Box::new(operand),
                },
            ),
        }
    } else {
        done(left, ts)
    }
}

/// `term := primary ( ('+'|'-') primary )*`
pub open spec fn parse_term(ts: Seq<TokenView>) -> Parsed<ExprView>
    decreases ts.len(), 2nat,
{
    let first = forward(ts, parse_primary(ts));
    match first.result {
        Err(e) => failed(e, first.rest),
        Ok(left) => parse_term_rest(first.rest, left),
    }
}

/// `expression := term`
pub open spec fn parse_expression(ts: Seq<TokenView>) -> Parsed<ExprView>
    decreases ts.len(), 3nat,
{
    parse_term(ts)
}

// ---------------------------------------------------------------------------
// Statements
// ---------------------------------------------------------------------------

/// The operator of `e`, if `e` is an operation on an operation: the one form
/// of expression that a statement may not end in.
pub open spec fn nested_operator(e: ExprView) -> Option<TokenView> {
    match e {
        ExprView::Binary { operator, left, right } => if *left is Binary || *right is Binary {
            Some(operator)
        } else {
            None
        },
        _ => None,
    }
}

/// The message for a statement that ends in a nested operation.
pub open spec fn nested_message() -> Seq<char> {
    "Expected ';' after expression (nested expressions not supported)."@
}

/// The `;` that ends the statement `stmt`, whose last expression is `last`.
/// With the `;` taken, a nested `last` is reported at its operator's line.
pub open spec fn parse_statement_end(ts: Seq<TokenView>, last: ExprView, stmt: StmtView) -> Parsed<
    StmtView,
> {
    let end = parse_expect(ts, TokenKind::Semicolon, "Expected ';' after statement."@);
    match end.result {
        Err(e) => failed(e, end.rest),
        Ok(_) => match nested_operator(last) {
            Some(operator) => failed(
                ErrorView { line: operator.line, msg: nested_message() },
                end.rest,
            ),
            None => done(stmt, end.rest),
        },
    }
}

/// `exprStmt := expression ( '=' expression )? ';'`
pub open spec fn parse_expression_statement(ts: Seq<TokenView>) -> Parsed<StmtView> {
    let first = parse_expression(ts);
    match first.result {
        Err(e) => failed(e, first.rest),
        Ok(expr) => if first_is(first.rest, TokenKind::Equals) {
            let second = parse_expression(first.rest.drop_first());
            match second.result {
                Err(e) => failed(e, second.rest),
                Ok(value) => parse_statement_end(
                    second.rest,
                    value,
                    StmtView::Assign { target: expr, value },
                ),
            }
        } else {
            parse_statement_end(first.rest, expr, StmtView::Expression { expr })
        },
    }
}

/// `'while' '(' expression ')' '{' block`. The first token is taken for the
/// keyword, whatever it is.
pub open spec fn parse_while(ts: Seq<TokenView>) -> Parsed<StmtView>
    decreases ts.len(), 0nat,
    via parse_while_decreases
{
    let keyword = parse_next(ts);
    match keyword.result {
        Err(e) => failed(e, keyword.rest),
        Ok(_) => {
            let open = parse_expect(
                keyword.rest,
                TokenKind::LeftParen,
                "Expected '(' after while."@,
            );
            match open.result {
                Err(e) => failed(e, open.rest),
                Ok(_) => {
                    let head = parse_expression(open.rest);
                    match head.result {
                        Err(e) => failed(e, head.rest),
                        Ok(condition) => {
                            let close = parse_expect(
                                head.rest,
                                TokenKind::RightParen,
                                "Expected ')' after while condition."@,
                            );
                            match close.result {
                                Err(e) => failed(e, close.rest),
                                Ok(_) => {
                                    let brace = parse_expect(
                                        close.rest,
                                        TokenKind::LeftBrace,
                                        "Expected '{' at beginning of while body."@,
                                    );
                                    match brace.result {
                                        Err(e) => failed(e, brace.rest),
                                        Ok(_) => {
                                            let block = parse_block(brace.rest, Seq::empty());
                                            match block.result {
                                                Err(e) => failed(e, block.rest),
                                                Ok(body) => done(
                                                    StmtView::While { condition, body },
                                                    block.rest,
                                                ),
                                            }
                                        },
                                    }
                                },
                            }
                        },
                    }
                },
            }
        },
    }
}

#[via_fn]
proof fn parse_while_decreases(ts: Seq<TokenView>) {
    if ts.len() > 0 {
        lemma_expressions_go_forward(
            parse_expect(ts.drop_first(), TokenKind::LeftParen, "Expected '(' after while."@).rest,
        );
    }
}

/// `statement := 'halt' ';' | 'while' '(' expression ')' '{' block | exprStmt`
pub open spec fn parse_statement(ts: Seq<TokenView>) -> Parsed<StmtView>
    decreases ts.len(), 1nat,
{
    if first_is(ts, TokenKind::Halt) {
        let end = parse_expect(ts.drop_first(), TokenKind::Semicolon, "Expected ';' after halt."@);
        match end.result {
            Err(e) => failed(e, end.rest),
            Ok(_) => done(StmtView::Halt, end.rest),
        }
    } else if first_is(ts, TokenKind::While) {
        parse_while(ts)
    } else {
        parse_expression_statement(ts)
    }
}

/// `block := statement* '}'`, after the statements `so_far`. The opening
/// brace was taken before.
pub open spec fn parse_block(ts: Seq<TokenView>, so_far: Seq<StmtView>) -> Parsed<Seq<StmtView>>
    decreases ts.len(), 2nat,
{
    if first_is(ts, TokenKind::RightBrace) {
        done(so_far, ts.drop_first())
    } else {
        let first = forward(ts, parse_statement(ts));
        match first.result {
            Err(e) => failed(e, first.rest),
            Ok(stmt) => parse_block(first.rest, so_far.push(stmt)),
        }
    }
}

// ---------------------------------------------------------------------------
// Declarations
// ---------------------------------------------------------------------------

/// `Identifier '(' ')' '{' block`: a function, after its `fn`.
pub open spec fn parse_function(ts: Seq<TokenView>) -> Parsed<DeclarationView> {
    let name = parse_expect(ts, TokenKind::Identifier, "Expected identifier after 'fn'."@);
    match name.result {
        Err(e) => failed(e, name.rest),
        Ok(name_token) => {
            let open = parse_expect(
                name.rest,
                TokenKind::LeftParen,
                "Expected '(' after function name."@,
            );
            match open.result {
                Err(e) => failed(e, open.rest),
                Ok(_) => {
                    let close = parse_expect(
                        open.rest,
                        TokenKind::RightParen,
                        "Expected ')' after argument list."@,
                    );
                    match close.result {
                        Err(e) => failed(e, close.rest),
                        Ok(_) => {
                            let brace = parse_expect(
                                close.rest,
                                TokenKind::LeftBrace,
                                "Expected '{' after function declaration."@,
                            );
                            match brace.result {
                                Err(e) => failed(e, brace.rest),
                                Ok(_) => {
                                    let block = parse_block(brace.rest, Seq::empty());
                                    match block.result {
                                        Err(e) => failed(e, block.rest),
                                        Ok(body) => done(
                                            DeclarationView::Function {
                                                name: name_token,
                                                arguments: Seq::empty(),
                                                body,
                                            },
                                            block.rest,
                                        ),
                                    }
                                },
                            }
                        },
                    }
                },
            }
        },
    }
}

/// `Identifier ';'`: the name of a variable of `size` bytes.
pub open spec fn parse_variable_name(ts: Seq<TokenView>, size: u8) -> Parsed<DeclarationView> {
    let name = parse_expect(ts, TokenKind::Identifier, "Expected variable name."@);
    match name.result {
        Err(e) => failed(e, name.rest),
        Ok(name_token) => {
            let end = parse_expect(
                name.rest,
                TokenKind::Semicolon,
                "Expected ';' after variable declaration."@,
            );
            match end.result {
                Err(e) => failed(e, end.rest),
                Ok(_) => done(DeclarationView::Variable { name: name_token, size }, end.rest),
            }
        },
    }
}

/// `( '[' Number ']' )? Identifier ';'`: a variable, after its `u8`. Without
/// the brackets its size is 1; between them stands a number from 1 to 255,
/// and a 0 is reported as no size, once the brackets are taken.
pub open spec fn parse_variable(ts: Seq<TokenView>) -> Parsed<DeclarationView> {
    if first_is(ts, TokenKind::LeftBracket) {
        let size = parse_expect(
            ts.drop_first(),
            TokenKind::Number,
            "Expected array size specifier."@,
        );
        match size.result {
            Err(e) => failed(e, size.rest),
            Ok(size_token) => {
                let close = parse_expect(
                    size.rest,
                    TokenKind::RightBracket,
                    "Expected ']' ending array definition."@,
                );
                match close.result {
                    Err(e) => failed(e, close.rest),
                    Ok(_) => match size_token.value {
                        None => failed(
                            ErrorView {
                                line: size_token.line,
                                msg: "Expected a value in number literal."@,
                            },
                            close.rest,
                        ),
                        Some(bytes) => if bytes == 0 {
                            failed(
                                ErrorView {
                                    line: size_token.line,
                                    msg: "Expected array size specifier."@,
                                },
                                close.rest,
                            )
                        } else {
                            parse_variable_name(close.rest, bytes)
                        },
                    },
                }
            },
        }
    } else {
        parse_variable_name(ts, 1)
    }
}

/// `declaration := 'fn' function | 'u8' variable`; any other first token is
/// reported, and taken.
pub open spec fn parse_declaration(ts: Seq<TokenView>) -> Parsed<DeclarationView> {
    let first = parse_next(ts);
    match first.result {
        Err(e) => failed(e, first.rest),
        Ok(token) => match token.kind {
            TokenKind::Fn => parse_function(first.rest),
            TokenKind::Unsigned8 => parse_variable(first.rest),
            _ => failed(
                ErrorView { line: token.line, msg: "Unsupported top-level statement."@ },
                first.rest,
            ),
        },
    }
}

/// What the parser has gathered: declarations and diagnostics, each in
/// source order.
pub struct Program {
    pub declarations: Seq<DeclarationView>,
    pub errors: Seq<ErrorView>,
}

impl Program {
    /// Nothing gathered yet.
    pub open spec fn empty() -> Program {
        Program { declarations: Seq::empty(), errors: Seq::empty() }
    }

    /// `self` with the outcome of one declaration added at the end.
    pub open spec fn with(self, outcome: Result<DeclarationView, ErrorView>) -> Program {
        match outcome {
            Ok(declaration) => Program {
                declarations: self.declarations.push(declaration),
                ..self
            },
            Err(error) => Program { errors: self.errors.push(error), ..self },
        }
    }
}

/// `program := declaration* EOF`, after what `so_far` holds. After a
/// diagnostic the next declaration begins at the token that follows the last
/// one taken. The end of the queue ends the program as an `EOF` token does.
pub open spec fn parse_from(ts: Seq<TokenView>, so_far: Program) -> Program
    decreases ts.len(),
    via parse_from_decreases
{
    if ts.len() == 0 || first_is(ts, TokenKind::EOF) {
        so_far
    } else {
        let first = parse_declaration(ts);
        parse_from(first.rest, so_far.with(first.result))
    }
}

#[via_fn]
proof fn parse_from_decreases(ts: Seq<TokenView>, so_far: Program) {
    lemma_declaration_goes_forward(ts);
}

/// The declarations and diagnostics of a whole queue of tokens.
pub open spec fn parse_spec(ts: Seq<TokenView>) -> Program {
    parse_from(ts, Program::empty())
}

// ---------------------------------------------------------------------------
// Every parser goes forward
// ---------------------------------------------------------------------------

/// The parsers of expressions go forward.
pub proof fn lemma_expressions_go_forward(ts: Seq<TokenView>)
    ensures
        goes_forward(ts, parse_primary(ts)),
        goes_forward(ts, parse_term(ts)),
        goes_forward(ts, parse_expression(ts)),
    decreases ts.len(), 1nat,
{
    if ts.len() > 0 {
        if first_is(ts.drop_first(), TokenKind::LeftBracket) {
            lemma_expressions_go_forward(ts.drop_first().drop_first());
        }
    }
    let first = parse_primary(ts);
    if first.result is Ok {
        lemma_term_rest_goes_forward(first.rest, first.result->Ok_0);
    }
}

/// What follows the first operand of a term gives no token back.
proof fn lemma_term_rest_goes_forward(ts: Seq<TokenView>, left: ExprView)
    ensures
        parse_term_rest(ts, left).rest.len() <= ts.len(),
    decreases ts.len(), 0nat,
{
    if first_is_additive(ts) {
        lemma_expressions_go_forward(ts.drop_first());
        let right = parse_primary(ts.drop_first());
        if right.result is Ok {
            lemma_term_rest_goes_forward(
                right.rest,
                ExprView::Binary {
                    operator: ts[0],
                    left: Box::new(left),
                    right: Box::new(right.result->Ok_0),
                },
            );
        }
    }
}

/// Additions and subtractions group from the left. Where the queue holds
/// `a op1 b op2 c`, with operands `a`, `b` and `c` and no third operator
/// behind them, the expression is the operation `op2`, with the operation
/// `a op1 b` for its left operand and `c` for its right one.
pub proof fn lemma_left_associative(
    ts: Seq<TokenView>,
    a: ExprView,
    after_a: Seq<TokenView>,
    b: ExprView,
    after_b: Seq<TokenView>,
    c: ExprView,
    after_c: Seq<TokenView>,
)
    requires
        parse_primary(ts) == done(a, after_a),
        first_is_additive(after_a),
        parse_primary(after_a.drop_first()) == done(b, after_b),
        first_is_additive(after_b),
        parse_primary(after_b.drop_first()) == done(c, after_c),
        !first_is_additive(after_c),
    ensures
        parse_expression(ts) == done(
            ExprView::Binary {
                operator: after_b[0],
                left: Box::new(
                    ExprView::Binary {
                        operator: after_a[0],
                        left: Box::new(a),
                        right: Box::new(b),
                    },
                ),
                right: Box::new(c),
            },
            after_c,
        ),
{
    lemma_expressions_go_forward(ts);
    lemma_expressions_go_forward(after_a.drop_first());
    lemma_expressions_go_forward(after_b.drop_first());
    let first = ExprView::Binary { operator: after_a[0], left: Box::new(a), right: Box::new(b) };
    let second = ExprView::Binary {
        operator: after_b[0],
        left: Box::new(first),
        right: Box::new(c),
    };
    assert(parse_term_rest(after_c, second) == done(second, after_c));
    assert(parse_term_rest(after_b, first) == done(second, after_c));
    assert(parse_term_rest(after_a, a) == done(second, after_c));
}

/// The parsers of statements go forward.
pub proof fn lemma_statements_go_forward(ts: Seq<TokenView>)
    ensures
        goes_forward(ts, parse_expression_statement(ts)),
        goes_forward(ts, parse_while(ts)),
        goes_forward(ts, parse_statement(ts)),
    decreases ts.len(), 1nat,
{
    // An expression statement
    lemma_expressions_go_forward(ts);
    let first = parse_expression(ts);
    if first.result is Ok && first.rest.len() > 0 {
        lemma_expressions_go_forward(first.rest.drop_first());
    }
    // A loop
    if ts.len() > 0 {
        let open = parse_expect(
            ts.drop_first(),
            TokenKind::LeftParen,
            "Expected '(' after while."@,
        );
        lemma_expressions_go_forward(open.rest);
        let head = parse_expression(open.rest);
        if open.result is Ok && head.result is Ok {
            let close = parse_expect(
                head.rest,
                TokenKind::RightParen,
                "Expected ')' after while condition."@,
            );
            let brace = parse_expect(
                close.rest,
                TokenKind::LeftBrace,
                "Expected '{' at beginning of while body."@,
            );
            if close.result is Ok && brace.result is Ok {
                lemma_block_goes_forward(brace.rest, Seq::empty());
            }
        }
    }
}

/// The parser of blocks goes forward.
pub proof fn lemma_block_goes_forward(ts: Seq<TokenView>, so_far: Seq<StmtView>)
    ensures
        goes_forward(ts, parse_block(ts, so_far)),
    decreases ts.len(), 2nat,
{
    if !first_is(ts, TokenKind::RightBrace) {
        lemma_statements_go_forward(ts);
        let first = parse_statement(ts);
        if first.result is Ok {
            lemma_block_goes_forward(first.rest, so_far.push(first.result->Ok_0));
        }
    }
}

/// The parser of declarations goes forward, and takes at least one token of
/// a queue that has one, also where it ends in a diagnostic.
pub proof fn lemma_declaration_goes_forward(ts: Seq<TokenView>)
    ensures
        goes_forward(ts, parse_declaration(ts)),
        ts.len() > 0 ==> parse_declaration(ts).rest.len() < ts.len(),
{
    if ts.len() > 0 {
        let rest = ts.drop_first();
        let name = parse_expect(rest, TokenKind::Identifier, "Expected identifier after 'fn'."@);
        let open = parse_expect(
            name.rest,
            TokenKind::LeftParen,
            "Expected '(' after function name."@,
        );
        let close = parse_expect(
            open.rest,
            TokenKind::RightParen,
            "Expected ')' after argument list."@,
        );
        let brace = parse_expect(
            close.rest,
            TokenKind::LeftBrace,
            "Expected '{' after function declaration."@,
        );
        lemma_block_goes_forward(brace.rest, Seq::empty());
    }
}

/// Whether a declaration is one that the parser makes: its name is an
/// identifier, a variable has at least one byte, and a function has no
/// arguments.
pub open spec fn well_formed(declaration: DeclarationView) -> bool {
    match declaration {
        DeclarationView::Variable { name, size } => name.kind == TokenKind::Identifier && size
            >= 1,
        DeclarationView::Function { name, arguments, .. } => name.kind == TokenKind::Identifier
            && arguments.len() == 0,
    }
}

/// Every declaration that the parser gathers is well formed.
pub proof fn lemma_declarations_well_formed(ts: Seq<TokenView>, so_far: Program, i: int)
    requires
        forall|j: int|
            0 <= j < so_far.declarations.len() ==> well_formed(#[trigger] so_far.declarations[j]),
        0 <= i < parse_from(ts, so_far).declarations.len(),
    ensures
        well_formed(parse_from(ts, so_far).declarations[i]),
    decreases ts.len(),
{
    if !(ts.len() == 0 || first_is(ts, TokenKind::EOF)) {
        lemma_declaration_goes_forward(ts);
        let first = parse_declaration(ts);
        lemma_declarations_well_formed(first.rest, so_far.with(first.result), i);
    }
}

// ---------------------------------------------------------------------------
// The parser
// ---------------------------------------------------------------------------

/// The value of what a parser returned and of the queue it left.
pub open spec fn parsed<T: View>(result: Result<T, CompilationError>, rest: Seq<Token>) -> Parsed<
    T::V,
> {
    Parsed {
        result: match result {
            Ok(tree) => Ok(tree@),
            Err(e) => Err(e@),
        },
        rest: views(rest),
    }
}

/// The value of what the block parser returned and of the queue it left.
pub open spec fn parsed_block(result: Result<Vec<Stmt>, CompilationError>, rest: Seq<Token>)
    -> Parsed<Seq<StmtView>> {
    Parsed {
        result: match result {
            Ok(body) => Ok(views(body@)),
            Err(e) => Err(e@),
        },
        rest: views(rest),
    }
}

/// Moves the tokens of a vector into a queue, the first token in front.
fn into_queue(tokens: Vec<Token>) -> (queue: VecDeque<Token>)
    ensures
        queue@ == tokens@,
{
    let ghost all = tokens@;
    let mut tokens = tokens;
    let mut queue: VecDeque<Token> = VecDeque::new();
    while tokens.len() > 0
        invariant
            tokens@ + queue@ == all,
        decreases tokens@.len(),
    {
        if let Some(token) = tokens.pop() {
            queue.push_front(token);
            assert(tokens@ + queue@ =~= all);
        }
    }
    assert(queue@ =~= all);
    queue
}

/// Parses a whole queue of tokens into its declarations and its diagnostics,
/// each in source order.
pub fn parse(tokens: Vec<Token>) -> (result: (Vec<Declaration>, Vec<CompilationError>))
    ensures
        views(result.0@) == parse_spec(views(tokens@)).declarations,
        views(result.1@) == parse_spec(views(tokens@)).errors,
{
    let ghost all = tokens@;
    let mut queue = into_queue(tokens);
    let mut declarations: Vec<Declaration> = Vec::new();
    let mut errors: Vec<CompilationError> = Vec::new();
    proof {
        assert(views(declarations@) =~= Seq::<DeclarationView>::empty());
        assert(views(errors@) =~= Seq::<ErrorView>::empty());
    }
    while queue.len() > 0 && !is_end(&queue)
        invariant
            parse_from(
                views(queue@),
                Program { declarations: views(declarations@), errors: views(errors@) },
            ) == parse_spec(views(all)),
        decreases queue@.len(),
    {
        let ghost so_far = Program { declarations: views(declarations@), errors: views(errors@) };
        proof {
            lemma_declaration_goes_forward(views(queue@));
        }
        match declaration(&mut queue) {
            Ok(dec) => {
                declarations.push(dec);
                proof {
                    assert(views(declarations@) =~= so_far.declarations.push(dec@));
                }
            },
            Err(err) => {
                errors.push(err);
                assert(views(errors@) =~= so_far.errors.push(err@));
            },
        }
    }
    (declarations, errors)
}

/// Whether the queue begins with the end-of-input token.
fn is_end(queue: &VecDeque<Token>) -> (b: bool)
    ensures
        b == first_is(views(queue@), TokenKind::EOF),
{
    next_is(queue, TokenKind::EOF)
}

/// The first token of the queue, which stays there.
fn peek(queue: &VecDeque<Token>) -> (result: Result<&Token, CompilationError>)
    ensures
        match result {
            Ok(token) => queue@.len() > 0 && *token == queue@[0],
            Err(e) => queue@.len() == 0 && e@ == queue_error(),
        },
{
    if queue.len() > 0 {
        Ok(&queue[0])
    } else {
        Err(error(0, "Expected a token in the parse queue."))
    }
}

/// Whether the queue begins with a token of kind `kind`.
fn next_is(queue: &VecDeque<Token>, kind: TokenKind) -> (b: bool)
    ensures
        b == first_is(views(queue@), kind),
{
    match peek(queue) {
        Ok(token) => token.kind == kind,
        Err(_) => false,
    }
}

/// Takes the first token off the queue.
fn next(queue: &mut VecDeque<Token>) -> (result: Result<Token, CompilationError>)
    ensures
        parsed(result, final(queue)@) == parse_next(views(old(queue)@)),
{
    match queue.pop_front() {
        Some(token) => {
            assert(views(queue@) =~= views(old(queue)@).drop_first());
            Ok(token)
        },
        None => Err(error(0, "Expected a token in the parse queue.")),
    }
}

/// Takes the first token off the queue if it is of kind `kind`, and says
/// whether it did.
fn _next_if(queue: &mut VecDeque<Token>, kind: TokenKind) -> (result: Result<
    bool,
    CompilationError,
>)
    ensures
        parsed(result, final(queue)@) == parse_next_if(views(old(queue)@), kind),
{
    if peek(queue)?.kind == kind {
        next(queue)?;
        Ok(true)
    } else {
        Ok(false)
    }
}

/// Takes the first token off the queue, and reports `msg` at its line if it
/// is not of kind `kind`.
fn expect(queue: &mut VecDeque<Token>, kind: TokenKind, msg: &'static str) -> (result: Result<
    Token,
    CompilationError,
>)
    ensures
        parsed(result, final(queue)@) == parse_expect(views(old(queue)@), kind, msg@),
{
    let token = next(queue)?;
    if token.kind == kind {
        Ok(token)
    } else {
        Err(error(token.line, msg))
    }
}

/// Parses one declaration. A queue that is not empty loses at least one
/// token, also where a diagnostic is returned
/// ([`lemma_declaration_goes_forward`]).
pub fn declaration(queue: &mut VecDeque<Token>) -> (result: Result<Declaration, CompilationError>)
    ensures
        parsed(result, final(queue)@) == parse_declaration(views(old(queue)@)),
{
    let token = next(queue)?;
    match token.kind {
        TokenKind::Fn => function(queue),
        TokenKind::Unsigned8 => variable(queue),
        _ => Err(error(token.line, "Unsupported top-level statement.")),
    }
}

/// Parses a function, after its `fn`.
pub fn function(queue: &mut VecDeque<Token>) -> (result: Result<Declaration, CompilationError>)
    ensures
        parsed(result, final(queue)@) == parse_function(views(old(queue)@)),
{
    let name = expect(queue, TokenKind::Identifier, "Expected identifier after 'fn'.")?;
    let arguments: Vec<Token> = Vec::new();
    expect(queue, TokenKind::LeftParen, "Expected '(' after function name.")?;
    expect(queue, TokenKind::RightParen, "Expected ')' after argument list.")?;
    expect(queue, TokenKind::LeftBrace, "Expected '{' after function declaration.")?;
    let body = block(queue)?;
    let result = Declaration::Function { name, arguments, body };
    proof {
        assert(views(arguments@) =~= Seq::<TokenView>::empty());
    }
    Ok(result)
}

/// Parses a variable, after its `u8`.
pub fn variable(queue: &mut VecDeque<Token>) -> (result: Result<Declaration, CompilationError>)
    ensures
        parsed(result, final(queue)@) == parse_variable(views(old(queue)@)),
{
    let mut size: u8 = 1;
    if next_is(queue, TokenKind::LeftBracket) {
        expect(queue, TokenKind::LeftBracket, "Expected '[' beginning array definition.")?;
        let size_token = expect(queue, TokenKind::Number, "Expected array size specifier.")?;
        expect(queue, TokenKind::RightBracket, "Expected ']' ending array definition.")?;
        size = get_value(&size_token)?;
        if size == 0 {
            return Err(error(size_token.line, "Expected array size specifier."));
        }
    }
    let name = expect(queue, TokenKind::Identifier, "Expected variable name.")?;
    expect(queue, TokenKind::Semicolon, "Expected ';' after variable declaration.")?;
    Ok(Declaration::Variable { name, size })
}

/// Parses one statement.
pub fn statement(queue: &mut VecDeque<Token>) -> (result: Result<Stmt, CompilationError>)
    ensures
        parsed(result, final(queue)@) == parse_statement(views(old(queue)@)),
    decreases old(queue)@.len(), 1nat,
{
    if next_is(queue, TokenKind::Halt) {
        next(queue)?;
        expect(queue, TokenKind::Semicolon, "Expected ';' after halt.")?;
        Ok(Stmt::Halt)
    } else if next_is(queue, TokenKind::While) {
        while_loop(queue)
    } else {
        expression_statement(queue)
    }
}

/// Parses a `while` loop. The first token is taken for the keyword.
pub fn while_loop(queue: &mut VecDeque<Token>) -> (result: Result<Stmt, CompilationError>)
    ensures
        parsed(result, final(queue)@) == parse_while(views(old(queue)@)),
    decreases old(queue)@.len(), 0nat,
{
    next(queue)?;
    expect(queue, TokenKind::LeftParen, "Expected '(' after while.")?;
    proof {
        lemma_expressions_go_forward(views(queue@));
    }
    let condition = expression(queue)?;
    expect(queue, TokenKind::RightParen, "Expected ')' after while condition.")?;
    expect(queue, TokenKind::LeftBrace, "Expected '{' at beginning of while body.")?;
    let body = block(queue)?;
    proof {
        lemma_while_view(condition, body);
    }
    Ok(Stmt::While { condition, body })
}

/// The line at which `e` is reported, if a statement may not end in it.
fn nested_line(e: &Expr) -> (line: Option<u32>)
    ensures
        line == match nested_operator(e@) {
            Some(operator) => Some(operator.line),
            None => None,
        },
{
    match e {
        Expr::Binary { operator, left, right } => {
            proof {
                assert((**left)@ is Binary <==> **left is Binary);
                assert((**right)@ is Binary <==> **right is Binary);
            }
            let left_nested = match &**left {
                Expr::Binary { .. } => true,
                _ => false,
            };
            let right_nested = match &**right {
                Expr::Binary { .. } => true,
                _ => false,
            };
            if left_nested || right_nested {
                Some(operator.line)
            } else {
                None
            }
        },
        _ => None,
    }
}

/// Parses an expression statement or an assignment.
pub fn expression_statement(queue: &mut VecDeque<Token>) -> (result: Result<
    Stmt,
    CompilationError,
>)
    ensures
        parsed(result, final(queue)@) == parse_expression_statement(views(old(queue)@)),
{
    let expr = expression(queue)?;
    if next_is(queue, TokenKind::Equals) {
        let _equals = next(queue)?;
        let value = expression(queue)?;
        expect(queue, TokenKind::Semicolon, "Expected ';' after statement.")?;
        if let Some(line) = nested_line(&value) {
            return Err(
                error(line, "Expected ';' after expression (nested expressions not supported)."),
            );
        }
        Ok(Stmt::Assign { target: expr, value })
    } else {
        expect(queue, TokenKind::Semicolon, "Expected ';' after statement.")?;
        if let Some(line) = nested_line(&expr) {
            return Err(
                error(line, "Expected ';' after expression (nested expressions not supported)."),
            );
        }
        Ok(Stmt::Expression { expr })
    }
}

/// Parses the statements of a block and its closing brace. The opening brace
/// was taken before.
pub fn block(queue: &mut VecDeque<Token>) -> (result: Result<Vec<Stmt>, CompilationError>)
    ensures
        parsed_block(result, final(queue)@) == parse_block(views(old(queue)@), Seq::empty()),
    decreases old(queue)@.len(), 2nat,
{
    let mut statements: Vec<Stmt> = Vec::new();
    proof {
        assert(views(statements@) =~= Seq::<StmtView>::empty());
    }
    while !next_is(queue, TokenKind::RightBrace)
        invariant
            parse_block(views(queue@), views(statements@)) == parse_block(
                views(old(queue)@),
                Seq::empty(),
            ),
            queue@.len() <= old(queue)@.len(),
        decreases queue@.len(),
    {
        let ghost so_far = views(statements@);
        proof {
            lemma_statements_go_forward(views(queue@));
        }
        let stmt = statement(queue)?;
        statements.push(stmt);
        proof {
            assert(views(statements@) =~= so_far.push(stmt@));
        }
    }
    expect(queue, TokenKind::RightBrace, "Expected '}' at end of block.")?;
    Ok(statements)
}

/// Parses an expression.
pub fn expression(queue: &mut VecDeque<Token>) -> (result: Result<Expr, CompilationError>)
    ensures
        parsed(result, final(queue)@) == parse_expression(views(old(queue)@)),
    decreases old(queue)@.len(), 3nat,
{
    term(queue)
}

/// Parses a chain of additions and subtractions, folded from the left.
pub fn term(queue: &mut VecDeque<Token>) -> (result: Result<Expr, CompilationError>)
    ensures
        parsed(result, final(queue)@) == parse_term(views(old(queue)@)),
    decreases old(queue)@.len(), 2nat,
{
    proof {
        lemma_expressions_go_forward(views(queue@));
    }
    let mut expr = primary(queue)?;
    while next_is(queue, TokenKind::Plus) || next_is(queue, TokenKind::Minus)
        invariant
            parse_term_rest(views(queue@), expr@) == parse_term(views(old(queue)@)),
            queue@.len() <= old(queue)@.len(),
        decreases queue@.len(),
    {
        proof {
            lemma_expressions_go_forward(views(queue@).drop_first());
        }
        let operator = next(queue)?;
        let right = primary(queue)?;
        expr = Expr::Binary { left: Box::new(expr), operator, right: Box::new(right) };
    }
    Ok(expr)
}

/// Parses a literal, a variable or an indexed variable.
pub fn primary(queue: &mut VecDeque<Token>) -> (result: Result<Expr, CompilationError>)
    ensures
        parsed(result, final(queue)@) == parse_primary(views(old(queue)@)),
    decreases old(queue)@.len(), 0nat,
{
    let token = next(queue)?;
    match token.kind {
        TokenKind::True => Ok(Expr::Literal { token, value: 1 }),
        TokenKind::False => Ok(Expr::Literal { token, value: 0 }),
        TokenKind::Number => {
            let value = get_value(&token)?;
            Ok(Expr::Literal { value, token })
        },
        TokenKind::Identifier => {
            if next_is(queue, TokenKind::LeftBracket) {
                expect(queue, TokenKind::LeftBracket, "Expected '[' beginning index expression.")?;
                let index = expression(queue)?;
                expect(queue, TokenKind::RightBracket, "Expected ']' ending index expression.")?;
                Ok(Expr::Indexed { name: token, index: Box::new(index) })
            } else {
                Ok(Expr::Variable { name: token })
            }
        },
        _ => Err(error(token.line, "Expected number or identifier in expression.")),
    }
}

/// The value that a number token carries.
fn get_value(token: &Token) -> (result: Result<u8, CompilationError>)
    ensures
        match token.value {
            Some(value) => result == Ok::<u8, CompilationError>(value),
            None => result is Err && result->Err_0@ == (ErrorView {
                line: token.line,
                msg: "Expected a value in number literal."@,
            }),
        },
{
    match token.value {
        Some(value) => Ok(value),
        None => Err(error(token.line, "Expected a value in number literal.")),
    }
}

} // verus!
