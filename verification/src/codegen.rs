//! Code generation: from declarations to assembly text, by one walk over the
//! tree. An expression is evaluated into register `a`; the address of an
//! array element is computed into `hl`.

use vstd::prelude::*;
use vstd::string::*;

use crate::analysis::{Directory, ValueType};
use crate::lexer::{Token, TokenKind, TokenView};
use crate::text::{decimal, lemma_decimal_injective, push_decimal, Numeral};
use crate::{
    error, lemma_while_view, outcome, outcome_of_all, views, CompilationError, Declaration,
    DeclarationView, ErrorView, Expr, ExprView, Stmt, StmtView,
};

verus! {

// ---------------------------------------------------------------------------
// Expressions
// ---------------------------------------------------------------------------

/// The message for a name that no declaration declares.
pub open spec fn undefined_message(name: Seq<char>) -> Seq<char> {
    "Undefined variable: "@ + name
}

/// The kind that the directory holds for the name `name`.
pub open spec fn resolve(name: Seq<char>, directory: Map<Seq<char>, ValueType>, line: u32)
    -> Result<ValueType, ErrorView> {
    if directory.contains_key(name) {
        Ok(directory[name])
    } else {
        Err(ErrorView { line, msg: undefined_message(name) })
    }
}

/// How many nodes an expression has.
pub open spec fn expr_size(e: ExprView) -> nat
    decreases e,
{
    match e {
        ExprView::Literal { .. } => 1,
        ExprView::Variable { .. } => 1,
        ExprView::Indexed { index, .. } => 1 + expr_size(*index),
        ExprView::Binary { left, right, .. } => 1 + expr_size(*left) + expr_size(*right),
    }
}

/// The instructions that leave the value of `e` in `a`.
pub open spec fn asm_evaluate(e: ExprView, directory: Map<Seq<char>, ValueType>) -> Result<
    Seq<char>,
    ErrorView,
>
    decreases e, 0nat,
{
    match e {
        ExprView::Literal { value, .. } => Ok("\tld a, "@ + decimal(value as nat) + "\n"@),
        ExprView::Variable { name } => match resolve(name.lexeme, directory, name.line) {
            Err(e) => Err(e),
            Ok(_) => Ok("\tld a, ["@ + name.lexeme + "]\n"@),
        },
        ExprView::Indexed { name, index } => match asm_indexed(name, *index, directory) {
            Err(e) => Err(e),
            Ok(address) => Ok(address + "\tld a, [hl]\n"@),
        },
        ExprView::Binary { operator, left, right } => match asm_evaluate(*left, directory) {
            Err(e) => Err(e),
            Ok(first) => match asm_evaluate(*right, directory) {
                Err(e) => Err(e),
                Ok(second) => match operator.kind {
                    TokenKind::Plus => Ok(
                        first + "\tld c, a\n"@ + second + "\tld b, a\n"@ + "\tld a, c\n"@
                            + "\tadd a, b\n"@,
                    ),
                    TokenKind::Minus => Ok(
                        first + "\tld c, a\n"@ + second + "\tld b, a\n"@ + "\tld a, c\n"@
                            + "\tsub a, b\n"@,
                    ),
                    _ => Err(
                        ErrorView {
                            line: operator.line,
                            msg: "Unexpected operator in binary expression."@,
                        },
                    ),
                },
            },
        },
    }
}

/// The instructions that leave the address of element `index` of the array
/// `name` in `hl`: the index, widened to `bc`, is added to the array's
/// address.
pub open spec fn asm_indexed(
    name: TokenView,
    index: ExprView,
    directory: Map<Seq<char>, ValueType>,
) -> Result<Seq<char>, ErrorView>
    decreases index, 1nat,
{
    match resolve(name.lexeme, directory, name.line) {
        Err(e) => Err(e),
        Ok(kind) => if kind == ValueType::Function {
            Err(ErrorView { line: name.line, msg: "Cannot index a function identifier"@ })
        } else {
            match asm_evaluate(index, directory) {
                Err(e) => Err(e),
                Ok(offset) => Ok(
                    offset + "\tld b, 0\n\tld c, a\n"@ + "\tld hl, "@ + name.lexeme + "\n"@
                        + "\tadd hl, bc\n"@,
                ),
            }
        },
    }
}

// ---------------------------------------------------------------------------
// Statements
// ---------------------------------------------------------------------------

/// The instructions that store the value of `value` where `target` says.
pub open spec fn asm_assign(
    target: ExprView,
    value: ExprView,
    directory: Map<Seq<char>, ValueType>,
) -> Result<Seq<char>, ErrorView> {
    match target {
        ExprView::Variable { name } => match resolve(name.lexeme, directory, name.line) {
            Err(e) => Err(e),
            Ok(kind) => if kind == ValueType::Function {
                Err(ErrorView { line: name.line, msg: "Cannot assign to function"@ })
            } else {
                match asm_evaluate(value, directory) {
                    Err(e) => Err(e),
                    Ok(text) => Ok(text + "\tld ["@ + name.lexeme + "], a\n"@),
                }
            },
        },
        ExprView::Indexed { name, index } => match asm_indexed(name, *index, directory) {
            Err(e) => Err(e),
            Ok(address) => match asm_evaluate(value, directory) {
                Err(e) => Err(e),
                Ok(text) => Ok(address + text + "\tld [hl], a\n"@),
            },
        },
        ExprView::Literal { token, .. } => Err(
            ErrorView { line: token.line, msg: "Cannot assign to non-variable."@ },
        ),
        ExprView::Binary { operator, .. } => Err(
            ErrorView { line: operator.line, msg: "Cannot assign to non-variable."@ },
        ),
    }
}

/// How many `while` loops a statement holds, itself included.
pub open spec fn loops_in(s: StmtView) -> nat
    decreases s,
{
    match s {
        StmtView::While { condition, body } => 1 + loops_in_block(body),
        _ => 0,
    }
}

/// How many `while` loops the statements of a block hold.
pub open spec fn loops_in_block(body: Seq<StmtView>) -> nat
    decreases body,
{
    if body.len() == 0 {
        0
    } else {
        loops_in_block(body.drop_last()) + loops_in(body.last())
    }
}

/// How many `while` loops a declaration holds.
pub open spec fn loops_in_declaration(declaration: DeclarationView) -> nat {
    match declaration {
        DeclarationView::Variable { .. } => 0,
        DeclarationView::Function { body, .. } => loops_in_block(body),
    }
}

/// The text of a `while` loop with the label suffix `uid`, from the
/// instructions of its condition and of its body: the loop is left when the
/// condition evaluates to 0.
pub open spec fn asm_loop(uid: nat, test: Seq<char>, body: Seq<char>) -> Seq<char> {
    ".startWhile_"@ + decimal(uid) + "\n"@ + test + "\tor a\n"@ + "\tjr z, .endWhile_"@ + decimal(
        uid,
    ) + "\n"@ + body + "\tjr .startWhile_"@ + decimal(uid) + "\n"@ + ".endWhile_"@ + decimal(uid)
        + "\n"@
}

/// The instructions of a statement, where `issued` label suffixes were
/// issued before it. A `while` loop takes the suffix `issued + 1`, and the
/// loops of its body the ones after that.
pub open spec fn asm_statement(s: StmtView, directory: Map<Seq<char>, ValueType>, issued: nat)
    -> Result<Seq<char>, ErrorView>
    decreases s,
{
    match s {
        StmtView::Halt => Ok("\thalt\n"@),
        StmtView::Expression { expr } => asm_evaluate(expr, directory),
        StmtView::Assign { target, value } => asm_assign(target, value, directory),
        StmtView::While { condition, body } => match asm_evaluate(condition, directory) {
            Err(e) => Err(e),
            Ok(test) => match asm_block(body, directory, issued + 1) {
                Err(e) => Err(e),
                Ok(inner) => Ok(asm_loop(issued + 1, test, inner)),
            },
        },
    }
}

/// The instructions of the statements of a block, in order, where `issued`
/// label suffixes were issued before it. The first statement that fails
/// fails the block.
pub open spec fn asm_block(body: Seq<StmtView>, directory: Map<Seq<char>, ValueType>, issued: nat)
    -> Result<Seq<char>, ErrorView>
    decreases body,
{
    if body.len() == 0 {
        Ok(Seq::empty())
    } else {
        match asm_block(body.drop_last(), directory, issued) {
            Err(e) => Err(e),
            Ok(before) => match asm_statement(
                body.last(),
                directory,
                issued + loops_in_block(body.drop_last()),
            ) {
                Err(e) => Err(e),
                Ok(text) => Ok(before + text),
            },
        }
    }
}

// ---------------------------------------------------------------------------
// Declarations
// ---------------------------------------------------------------------------

/// The line that reserves `size` bytes under the label `name`.
pub open spec fn asm_variable(name: TokenView, size: u8) -> Seq<char> {
    name.lexeme + ":: ds "@ + decimal(size as nat) + "\n"@
}

/// The text of a function: its label, its statements, and `ret`.
pub open spec fn asm_function(
    name: TokenView,
    body: Seq<StmtView>,
    directory: Map<Seq<char>, ValueType>,
    issued: nat,
) -> Result<Seq<char>, ErrorView> {
    match asm_block(body, directory, issued) {
        Err(e) => Err(e),
        Ok(text) => Ok(name.lexeme + "::\n"@ + text + "\tret\n"@),
    }
}

/// The text of a declaration, where `issued` label suffixes were issued
/// before it.
pub open spec fn asm_declaration(
    declaration: DeclarationView,
    directory: Map<Seq<char>, ValueType>,
    issued: nat,
) -> Result<Seq<char>, ErrorView> {
    match declaration {
        DeclarationView::Variable { name, size } => Ok(asm_variable(name, size)),
        DeclarationView::Function { name, body, .. } => asm_function(name, body, directory, issued),
    }
}

/// The lines of the variables among the declarations, in source order.
pub open spec fn asm_variables(declarations: Seq<DeclarationView>) -> Seq<char>
    decreases declarations.len(),
{
    if declarations.len() == 0 {
        Seq::empty()
    } else {
        asm_variables(declarations.drop_last()) + match declarations.last() {
            DeclarationView::Variable { name, size } => asm_variable(name, size),
            DeclarationView::Function { .. } => Seq::empty(),
        }
    }
}

/// What the functions of a program come to: the text of those that were
/// generated, the diagnostics of the others, and how many label suffixes
/// the text holds.
pub struct Emitted {
    pub text: Seq<char>,
    pub errors: Seq<ErrorView>,
    pub issued: nat,
}

/// The functions among the declarations, generated in source order. A
/// function that fails leaves one diagnostic, and no label suffix taken.
pub open spec fn asm_functions(
    declarations: Seq<DeclarationView>,
    directory: Map<Seq<char>, ValueType>,
) -> Emitted
    decreases declarations.len(),
{
    if declarations.len() == 0 {
        Emitted { text: Seq::empty(), errors: Seq::empty(), issued: 0 }
    } else {
        let before = asm_functions(declarations.drop_last(), directory);
        match declarations.last() {
            DeclarationView::Variable { .. } => before,
            DeclarationView::Function { name, body, .. } => match asm_function(
                name,
                body,
                directory,
                before.issued,
            ) {
                Ok(text) => Emitted {
                    text: before.text + text,
                    issued: before.issued + loops_in_block(body),
                    ..before
                },
                Err(e) => Emitted { errors: before.errors.push(e), ..before },
            },
        }
    }
}

/// The heading of the section of the variables.
pub open spec fn variables_heading() -> Seq<char> {
    "SECTION \"Variables\", WRAM0\n"@
}

/// The heading of the section of the functions.
pub open spec fn functions_heading() -> Seq<char> {
    "SECTION \"Functions\", ROM0\n"@
}

/// The assembly of a program: the variables, then the functions, each under
/// its heading; or, if a function failed, the diagnostics of all that did.
pub open spec fn asm_program(
    declarations: Seq<DeclarationView>,
    directory: Map<Seq<char>, ValueType>,
) -> Result<Seq<char>, Seq<ErrorView>> {
    let functions = asm_functions(declarations, directory);
    if functions.errors.len() == 0 {
        Ok(
            variables_heading() + asm_variables(declarations) + functions_heading()
                + functions.text,
        )
    } else {
        Err(functions.errors)
    }
}

// ---------------------------------------------------------------------------
// The order of what is written
// ---------------------------------------------------------------------------

/// Whether `piece` stands in `text` at position `at`.
pub open spec fn occurs_at(text: Seq<char>, piece: Seq<char>, at: int) -> bool {
    0 <= at && at + piece.len() <= text.len() && text.subrange(at, at + piece.len()) == piece
}

/// A piece stands behind what is written before it.
proof fn lemma_occurs_between(before: Seq<char>, piece: Seq<char>, after: Seq<char>)
    ensures
        occurs_at(before + piece + after, piece, before.len() as int),
{
    let text = before + piece + after;
    assert(text.subrange(before.len() as int, (before.len() + piece.len()) as int) =~= piece);
}

/// Where the line of the variable `declarations[i]` begins in the assembly.
pub open spec fn variable_offset(declarations: Seq<DeclarationView>, i: int) -> nat {
    variables_heading().len() + asm_variables(declarations.take(i)).len()
}

/// Where the text of the function `declarations[i]` begins in the assembly.
pub open spec fn function_offset(
    declarations: Seq<DeclarationView>,
    directory: Map<Seq<char>, ValueType>,
    i: int,
) -> nat {
    variables_heading().len() + asm_variables(declarations).len() + functions_heading().len()
        + asm_functions(declarations.take(i), directory).text.len()
}

/// The label line that opens the text of a function.
pub open spec fn function_label(name: TokenView) -> Seq<char> {
    name.lexeme + "::\n"@
}

/// The lines of the first `i` declarations open the lines of them all.
proof fn lemma_variables_prefix(declarations: Seq<DeclarationView>, i: int)
    requires
        0 <= i <= declarations.len(),
    ensures
        asm_variables(declarations.take(i)).is_prefix_of(asm_variables(declarations)),
    decreases declarations.len() - i,
{
    if i < declarations.len() {
        assert(declarations.take(i + 1).drop_last() =~= declarations.take(i));
        lemma_variables_prefix(declarations, i + 1);
    } else {
        assert(declarations.take(i) =~= declarations);
    }
}

/// What the functions among the first `i` declarations come to opens what
/// they all come to.
proof fn lemma_functions_prefix(
    declarations: Seq<DeclarationView>,
    directory: Map<Seq<char>, ValueType>,
    i: int,
)
    requires
        0 <= i <= declarations.len(),
    ensures
        asm_functions(declarations.take(i), directory).text.is_prefix_of(
            asm_functions(declarations, directory).text,
        ),
        asm_functions(declarations.take(i), directory).errors.is_prefix_of(
            asm_functions(declarations, directory).errors,
        ),
    decreases declarations.len() - i,
{
    if i < declarations.len() {
        assert(declarations.take(i + 1).drop_last() =~= declarations.take(i));
        lemma_functions_prefix(declarations, directory, i + 1);
    } else {
        assert(declarations.take(i) =~= declarations);
    }
}

/// The section of the variables stands before the section of the
/// functions: the assembly opens with the heading of the variables, and the
/// heading of the functions stands behind their lines.
pub proof fn lemma_sections_in_order(
    declarations: Seq<DeclarationView>,
    directory: Map<Seq<char>, ValueType>,
    text: Seq<char>,
)
    requires
        asm_program(declarations, directory) == Ok::<Seq<char>, Seq<ErrorView>>(text),
    ensures
        occurs_at(text, variables_heading(), 0),
        occurs_at(
            text,
            functions_heading(),
            (variables_heading().len() + asm_variables(declarations).len()) as int,
        ),
        0 < variables_heading().len() + asm_variables(declarations).len(),
{
    reveal_strlit("SECTION \"Variables\", WRAM0\n");
    lemma_occurs_between(
        Seq::empty(),
        variables_heading(),
        asm_variables(declarations) + functions_heading() + asm_functions(
            declarations,
            directory,
        ).text,
    );
    lemma_occurs_between(
        variables_heading() + asm_variables(declarations),
        functions_heading(),
        asm_functions(declarations, directory).text,
    );
    assert(text =~= Seq::<char>::empty() + variables_heading() + (asm_variables(declarations)
        + functions_heading() + asm_functions(declarations, directory).text));
}

/// The lines of the variables stand in the assembly in the order of their
/// declarations: each at its offset, which lies behind the line of every
/// variable declared before it.
pub proof fn lemma_variables_in_order(
    declarations: Seq<DeclarationView>,
    directory: Map<Seq<char>, ValueType>,
    text: Seq<char>,
    i: int,
    j: int,
)
    requires
        asm_program(declarations, directory) == Ok::<Seq<char>, Seq<ErrorView>>(text),
        0 <= i <= j < declarations.len(),
        declarations[i] is Variable,
        declarations[j] is Variable,
    ensures
        occurs_at(
            text,
            asm_variable(declarations[j]->Variable_name, declarations[j]->Variable_size),
            variable_offset(declarations, j) as int,
        ),
        i < j ==> variable_offset(declarations, i) + asm_variable(
            declarations[i]->Variable_name,
            declarations[i]->Variable_size,
        ).len() <= variable_offset(declarations, j),
{
    let line = asm_variable(declarations[j]->Variable_name, declarations[j]->Variable_size);
    let before = asm_variables(declarations.take(j));
    let all = asm_variables(declarations);
    let functions = asm_functions(declarations, directory).text;
    assert(declarations.take(j + 1).drop_last() =~= declarations.take(j));
    lemma_variables_prefix(declarations, j + 1);
    let after = all.skip((before.len() + line.len()) as int);
    assert(all =~= before + line + after);
    lemma_occurs_between(
        variables_heading() + before,
        line,
        after + functions_heading() + functions,
    );
    assert(text =~= variables_heading() + before + line + (after + functions_heading()
        + functions));
    if i < j {
        assert(declarations.take(i + 1).drop_last() =~= declarations.take(i));
        assert(declarations.take(j).take(i + 1) =~= declarations.take(i + 1));
        lemma_variables_prefix(declarations.take(j), i + 1);
    }
}

/// The texts of the functions stand in the assembly in the order of their
/// declarations: each opens with its label at its offset, which lies behind
/// the text of every function declared before it.
pub proof fn lemma_functions_in_order(
    declarations: Seq<DeclarationView>,
    directory: Map<Seq<char>, ValueType>,
    text: Seq<char>,
    i: int,
    j: int,
)
    requires
        asm_program(declarations, directory) == Ok::<Seq<char>, Seq<ErrorView>>(text),
        0 <= i <= j < declarations.len(),
        declarations[i] is Function,
        declarations[j] is Function,
    ensures
        occurs_at(
            text,
            function_label(declarations[j]->Function_name),
            function_offset(declarations, directory, j) as int,
        ),
        i < j ==> function_offset(declarations, directory, i) + function_label(
            declarations[i]->Function_name,
        ).len() <= function_offset(declarations, directory, j),
{
    let head = variables_heading() + asm_variables(declarations) + functions_heading();
    let all = asm_functions(declarations, directory);
    let before = asm_functions(declarations.take(j), directory);
    let upto = asm_functions(declarations.take(j + 1), directory);
    assert(declarations.take(j + 1).drop_last() =~= declarations.take(j));
    lemma_functions_prefix(declarations, directory, j + 1);
    let label = function_label(declarations[j]->Function_name);
    let generated = asm_function(
        declarations[j]->Function_name,
        declarations[j]->Function_body,
        directory,
        before.issued,
    );
    assert(generated is Ok) by {
        if generated is Err {
            assert(upto.errors.len() > 0);
        }
    }
    let body = generated->Ok_0.skip(label.len() as int);
    assert(generated->Ok_0 =~= label + body);
    let after = all.text.skip(upto.text.len() as int);
    assert(all.text =~= before.text + (label + body) + after);
    lemma_occurs_between(head + before.text, label, body + after);
    assert(text =~= head + before.text + label + (body + after));
    if i < j {
        assert(declarations.take(i + 1).drop_last() =~= declarations.take(i));
        assert(declarations.take(j).take(i + 1) =~= declarations.take(i + 1));
        assert(declarations.take(j).take(i) =~= declarations.take(i));
        lemma_functions_prefix(declarations.take(j), directory, i + 1);
        lemma_functions_prefix(declarations, directory, i + 1);
        let first = asm_functions(declarations.take(i), directory);
        let first_generated = asm_function(
            declarations[i]->Function_name,
            declarations[i]->Function_body,
            directory,
            first.issued,
        );
        assert(first_generated is Ok) by {
            if first_generated is Err {
                assert(asm_functions(declarations.take(i + 1), directory).errors.len() > 0);
            }
        }
        let first_label = function_label(declarations[i]->Function_name);
        assert(first_generated->Ok_0.len() >= first_label.len());
    }
}

// ---------------------------------------------------------------------------
// The labels of the loops
// ---------------------------------------------------------------------------

/// The line that opens a loop with the label suffix `uid`.
pub open spec fn loop_label(uid: nat) -> Seq<char> {
    ".startWhile_"@ + decimal(uid) + "\n"@
}

/// The label suffixes of the loops of a statement, in the order of their
/// opening lines, where `issued` suffixes were issued before it.
pub open spec fn loop_suffixes(s: StmtView, issued: nat) -> Seq<nat>
    decreases s,
{
    match s {
        StmtView::While { condition, body } => seq![issued + 1] + block_suffixes(body, issued + 1),
        _ => Seq::empty(),
    }
}

/// The label suffixes of the loops of a block, in the order of their opening
/// lines, where `issued` suffixes were issued before it.
pub open spec fn block_suffixes(body: Seq<StmtView>, issued: nat) -> Seq<nat>
    decreases body,
{
    if body.len() == 0 {
        Seq::empty()
    } else {
        block_suffixes(body.drop_last(), issued) + loop_suffixes(
            body.last(),
            issued + loops_in_block(body.drop_last()),
        )
    }
}

/// The label suffixes of the loops of the generated functions of a program,
/// in the order of their opening lines.
pub open spec fn program_suffixes(
    declarations: Seq<DeclarationView>,
    directory: Map<Seq<char>, ValueType>,
) -> Seq<nat>
    decreases declarations.len(),
{
    if declarations.len() == 0 {
        Seq::empty()
    } else {
        let before = asm_functions(declarations.drop_last(), directory);
        program_suffixes(declarations.drop_last(), directory) + match declarations.last() {
            DeclarationView::Variable { .. } => Seq::empty(),
            DeclarationView::Function { name, body, .. } => if asm_function(
                name,
                body,
                directory,
                before.issued,
            ) is Ok {
                block_suffixes(body, before.issued)
            } else {
                Seq::empty()
            },
        }
    }
}

/// The loops of a statement take the suffixes that follow `issued`, one
/// after the other.
pub proof fn lemma_loop_suffixes(s: StmtView, issued: nat)
    ensures
        loop_suffixes(s, issued) == Seq::new(loops_in(s), |k: int| (issued + 1 + k) as nat),
    decreases s,
{
    match s {
        StmtView::While { condition, body } => {
            lemma_block_suffixes(body, issued + 1);
        },
        _ => {},
    }
    assert(loop_suffixes(s, issued) =~= Seq::new(loops_in(s), |k: int| (issued + 1 + k) as nat));
}

/// The loops of a block take the suffixes that follow `issued`, one after
/// the other.
pub proof fn lemma_block_suffixes(body: Seq<StmtView>, issued: nat)
    ensures
        block_suffixes(body, issued) == Seq::new(
            loops_in_block(body),
            |k: int| (issued + 1 + k) as nat,
        ),
    decreases body,
{
    if body.len() > 0 {
        lemma_block_suffixes(body.drop_last(), issued);
        lemma_loop_suffixes(body.last(), issued + loops_in_block(body.drop_last()));
    }
    assert(block_suffixes(body, issued) =~= Seq::new(
        loops_in_block(body),
        |k: int| (issued + 1 + k) as nat,
    ));
}

/// The loops of a program take the suffixes from 1 on, one after the other.
pub proof fn lemma_program_suffixes(
    declarations: Seq<DeclarationView>,
    directory: Map<Seq<char>, ValueType>,
)
    ensures
        program_suffixes(declarations, directory) == Seq::new(
            asm_functions(declarations, directory).issued,
            |k: int| (k + 1) as nat,
        ),
    decreases declarations.len(),
{
    if declarations.len() > 0 {
        lemma_program_suffixes(declarations.drop_last(), directory);
        match declarations.last() {
            DeclarationView::Variable { .. } => {},
            DeclarationView::Function { name, body, .. } => {
                lemma_block_suffixes(
                    body,
                    asm_functions(declarations.drop_last(), directory).issued,
                );
            },
        }
    }
    assert(program_suffixes(declarations, directory) =~= Seq::new(
        asm_functions(declarations, directory).issued,
        |k: int| (k + 1) as nat,
    ));
}

/// No two loops of a program have the same label suffix: the numbers differ,
/// and so do their numerals.
pub proof fn lemma_loop_labels_differ(
    declarations: Seq<DeclarationView>,
    directory: Map<Seq<char>, ValueType>,
    i: int,
    j: int,
)
    requires
        0 <= i < j < program_suffixes(declarations, directory).len(),
    ensures
        program_suffixes(declarations, directory)[i] != program_suffixes(
            declarations,
            directory,
        )[j],
        decimal(program_suffixes(declarations, directory)[i]) != decimal(
            program_suffixes(declarations, directory)[j],
        ),
{
    lemma_program_suffixes(declarations, directory);
    let a = program_suffixes(declarations, directory)[i];
    let b = program_suffixes(declarations, directory)[j];
    if decimal(a) == decimal(b) {
        lemma_decimal_injective(a, b);
    }
}

/// No two loops of a statement have the same label suffix: the numbers
/// differ, and so do their numerals.
pub proof fn lemma_statement_labels_differ(s: StmtView, issued: nat, i: int, j: int)
    requires
        0 <= i < j < loop_suffixes(s, issued).len(),
    ensures
        loop_suffixes(s, issued)[i] != loop_suffixes(s, issued)[j],
        decimal(loop_suffixes(s, issued)[i]) != decimal(loop_suffixes(s, issued)[j]),
{
    lemma_loop_suffixes(s, issued);
    let a = loop_suffixes(s, issued)[i];
    let b = loop_suffixes(s, issued)[j];
    if decimal(a) == decimal(b) {
        lemma_decimal_injective(a, b);
    }
}

/// The label suffix of a loop is the one after `issued`, and no loop of its
/// body has it.
pub proof fn lemma_nested_labels_differ(
    condition: ExprView,
    body: Seq<StmtView>,
    issued: nat,
    k: int,
)
    requires
        0 <= k < block_suffixes(body, issued + 1).len(),
    ensures
        loop_suffixes(StmtView::While { condition, body }, issued)[0] == issued + 1,
        block_suffixes(body, issued + 1)[k] != issued + 1,
        decimal(block_suffixes(body, issued + 1)[k]) != decimal(issued + 1),
{
    lemma_block_suffixes(body, issued + 1);
    let inner = block_suffixes(body, issued + 1)[k];
    if decimal(inner) == decimal(issued + 1) {
        lemma_decimal_injective(inner, issued + 1);
    }
}

/// Of two statements generated one after the other, the second begins where
/// the first left the counter, and no loop of the second has the label
/// suffix of a loop of the first.
pub proof fn lemma_later_labels_differ(
    first: StmtView,
    second: StmtView,
    issued: nat,
    i: int,
    j: int,
)
    requires
        0 <= i < loop_suffixes(first, issued).len(),
        0 <= j < loop_suffixes(second, issued + loops_in(first)).len(),
    ensures
        loop_suffixes(first, issued)[i] != loop_suffixes(second, issued + loops_in(first))[j],
        decimal(loop_suffixes(first, issued)[i]) != decimal(
            loop_suffixes(second, issued + loops_in(first))[j],
        ),
{
    lemma_loop_suffixes(first, issued);
    lemma_loop_suffixes(second, issued + loops_in(first));
    let a = loop_suffixes(first, issued)[i];
    let b = loop_suffixes(second, issued + loops_in(first))[j];
    if decimal(a) == decimal(b) {
        lemma_decimal_injective(a, b);
    }
}

/// A piece that stands in a text stands in every text that holds this one.
proof fn lemma_occurs_inside(
    before: Seq<char>,
    text: Seq<char>,
    after: Seq<char>,
    piece: Seq<char>,
    at: int,
)
    requires
        occurs_at(text, piece, at),
    ensures
        occurs_at(before + text + after, piece, before.len() + at),
{
    let whole = before + text + after;
    assert(whole.subrange(before.len() + at, before.len() + at + piece.len()) =~= text.subrange(
        at,
        at + piece.len(),
    ));
}

/// The opening line of each loop of a statement stands in its text, with the
/// loop's suffix. Returns where.
pub proof fn lemma_loop_label_written(
    s: StmtView,
    directory: Map<Seq<char>, ValueType>,
    issued: nat,
    k: int,
) -> (at: int)
    requires
        asm_statement(s, directory, issued) is Ok,
        0 <= k < loops_in(s),
    ensures
        occurs_at(
            asm_statement(s, directory, issued)->Ok_0,
            loop_label((issued + 1 + k) as nat),
            at,
        ),
    decreases s,
{
    match s {
        StmtView::While { condition, body } => {
            let uid = issued + 1;
            let test = asm_evaluate(condition, directory)->Ok_0;
            let inner = asm_block(body, directory, issued + 1)->Ok_0;
            let text = asm_loop(uid, test, inner);
            let head = loop_label(uid) + test + "\tor a\n"@ + "\tjr z, .endWhile_"@ + decimal(uid)
                + "\n"@;
            let tail = "\tjr .startWhile_"@ + decimal(uid) + "\n"@ + ".endWhile_"@ + decimal(uid)
                + "\n"@;
            assert(text =~= head + inner + tail);
            if k == 0 {
                let rest = test + "\tor a\n"@ + "\tjr z, .endWhile_"@ + decimal(uid) + "\n"@
                    + inner + tail;
                assert(text =~= Seq::<char>::empty() + loop_label(uid) + rest);
                lemma_occurs_between(Seq::empty(), loop_label(uid), rest);
                0
            } else {
                let inside = lemma_block_label_written(body, directory, issued + 1, k - 1);
                lemma_occurs_inside(
                    head,
                    inner,
                    tail,
                    loop_label((issued + 1 + k) as nat),
                    inside,
                );
                head.len() + inside
            }
        },
        _ => 0,
    }
}

/// The opening line of each loop of a block stands in its text, with the
/// loop's suffix. Returns where.
pub proof fn lemma_block_label_written(
    body: Seq<StmtView>,
    directory: Map<Seq<char>, ValueType>,
    issued: nat,
    k: int,
) -> (at: int)
    requires
        asm_block(body, directory, issued) is Ok,
        0 <= k < loops_in_block(body),
    ensures
        occurs_at(
            asm_block(body, directory, issued)->Ok_0,
            loop_label((issued + 1 + k) as nat),
            at,
        ),
    decreases body,
{
    let before = asm_block(body.drop_last(), directory, issued)->Ok_0;
    let inner = loops_in_block(body.drop_last());
    let last = asm_statement(body.last(), directory, issued + inner)->Ok_0;
    if k < inner {
        let inside = lemma_block_label_written(body.drop_last(), directory, issued, k);
        lemma_occurs_inside(
            Seq::empty(),
            before,
            last,
            loop_label((issued + 1 + k) as nat),
            inside,
        );
        assert(Seq::<char>::empty() + before + last =~= before + last);
        inside
    } else {
        let inside = lemma_loop_label_written(body.last(), directory, issued + inner, k - inner);
        lemma_occurs_inside(
            before,
            last,
            Seq::empty(),
            loop_label((issued + 1 + k) as nat),
            inside,
        );
        assert(before + last + Seq::<char>::empty() =~= before + last);
        before.len() + inside
    }
}

/// The opening line of each loop of a program stands in its assembly, with
/// the loop's suffix: the `k`-th loop has the suffix `k + 1`. Returns where.
pub proof fn lemma_program_label_written(
    declarations: Seq<DeclarationView>,
    directory: Map<Seq<char>, ValueType>,
    k: int,
) -> (at: int)
    requires
        asm_program(declarations, directory) is Ok,
        0 <= k < program_suffixes(declarations, directory).len(),
    ensures
        occurs_at(
            asm_program(declarations, directory)->Ok_0,
            loop_label(program_suffixes(declarations, directory)[k]),
            at,
        ),
{
    lemma_program_suffixes(declarations, directory);
    let head = variables_heading() + asm_variables(declarations) + functions_heading();
    let inside = lemma_functions_label_written(declarations, directory, k);
    lemma_occurs_inside(
        head,
        asm_functions(declarations, directory).text,
        Seq::empty(),
        loop_label((k + 1) as nat),
        inside,
    );
    assert(head + asm_functions(declarations, directory).text + Seq::<char>::empty() =~= head
        + asm_functions(declarations, directory).text);
    head.len() + inside
}

/// The opening line of each loop of the generated functions stands in their
/// text, with the loop's suffix. Returns where.
proof fn lemma_functions_label_written(
    declarations: Seq<DeclarationView>,
    directory: Map<Seq<char>, ValueType>,
    k: int,
) -> (at: int)
    requires
        0 <= k < asm_functions(declarations, directory).issued,
    ensures
        occurs_at(asm_functions(declarations, directory).text, loop_label((k + 1) as nat), at),
    decreases declarations.len(),
{
    let before = asm_functions(declarations.drop_last(), directory);
    if k < before.issued {
        let inside = lemma_functions_label_written(declarations.drop_last(), directory, k);
        let all = asm_functions(declarations, directory).text;
        let added = all.skip(before.text.len() as int);
        assert(all =~= before.text + added);
        lemma_occurs_inside(Seq::empty(), before.text, added, loop_label((k + 1) as nat), inside);
        assert(Seq::<char>::empty() + before.text + added =~= all);
        inside
    } else {
        let name = declarations.last()->Function_name;
        let body = declarations.last()->Function_body;
        let inner = asm_block(body, directory, before.issued)->Ok_0;
        let inside = lemma_block_label_written(body, directory, before.issued, k - before.issued);
        lemma_occurs_inside(
            before.text + function_label(name),
            inner,
            "\tret\n"@,
            loop_label((k + 1) as nat),
            inside,
        );
        assert(before.text + function_label(name) + inner + "\tret\n"@ =~= asm_functions(
            declarations,
            directory,
        ).text);
        before.text.len() + function_label(name).len() + inside
    }
}

// ---------------------------------------------------------------------------
// The generator
// ---------------------------------------------------------------------------

/// One more statement adds its loops to those of the statements before it.
proof fn lemma_loops_in_prefix(body: Seq<StmtView>, i: int)
    requires
        0 <= i < body.len(),
    ensures
        loops_in_block(body.take(i + 1)) == loops_in_block(body.take(i)) + loops_in(body[i]),
{
    assert(body.take(i + 1).drop_last() =~= body.take(i));
}

/// Generates the assembly of a program. The result is the assembly text if
/// no function failed, and else the diagnostics of the functions that did,
/// in source order. Label suffixes are counted from 1 in each call.
pub fn gen(ast: Vec<Declaration>, directory: &Directory) -> (result: Result<
    String,
    Vec<CompilationError>,
>)
    ensures
        outcome_of_all(result) == asm_program(views(ast@), directory@),
{
    let mut output = String::new();
    let mut errors: Vec<CompilationError> = Vec::new();
    let mut counter = Numeral::zero();
    let ghost program = views(ast@);

    // Define all variables in memory first
    output.append("SECTION \"Variables\", WRAM0\n");
    let mut i: usize = 0;
    proof {
        assert(program.take(0) =~= Seq::<DeclarationView>::empty());
        assert(output@ =~= variables_heading() + asm_variables(program.take(0)));
    }
    while i < ast.len()
        invariant
            i <= ast.len(),
            program == views(ast@),
            output@ == variables_heading() + asm_variables(program.take(i as int)),
            errors@.len() == 0,
            counter@ == 0,
        decreases ast.len() - i,
    {
        proof {
            assert(program.take(i + 1).drop_last() =~= program.take(i as int));
        }
        if is_variable(&ast[i]) {
            match gen_declaration(&ast[i], directory, &mut counter) {
                Ok(text) => {
                    output.append(text.as_str());
                    assert(output@ =~= variables_heading() + asm_variables(program.take(i + 1)));
                },
                Err(err) => {
                    errors.push(err);
                },
            }
        } else {
            assert(output@ =~= variables_heading() + asm_variables(program.take(i + 1)));
        }
        i += 1;
    }
    proof {
        assert(program.take(ast.len() as int) =~= program);
    }

    // Now output all functions
    output.append("SECTION \"Functions\", ROM0\n");
    let ghost head = output@;
    let mut i: usize = 0;
    proof {
        assert(views(errors@) =~= Seq::<ErrorView>::empty());
        assert(output@ =~= head + asm_functions(program.take(0), directory@).text);
    }
    while i < ast.len()
        invariant
            i <= ast.len(),
            program == views(ast@),
            head == variables_heading() + asm_variables(program) + functions_heading(),
            output@ == head + asm_functions(program.take(i as int), directory@).text,
            views(errors@) == asm_functions(program.take(i as int), directory@).errors,
            counter@ == asm_functions(program.take(i as int), directory@).issued,
        decreases ast.len() - i,
    {
        proof {
            assert(program.take(i + 1).drop_last() =~= program.take(i as int));
        }
        let ghost before = asm_functions(program.take(i as int), directory@);
        if is_function(&ast[i]) {
            let issued = counter.clone();
            match gen_declaration(&ast[i], directory, &mut counter) {
                Ok(text) => {
                    output.append(text.as_str());
                    assert(output@ =~= head + (before.text + text@));
                },
                Err(err) => {
                    errors.push(err);
                    counter = issued;
                    assert(views(errors@) =~= before.errors.push(err@));
                },
            }
        }
        i += 1;
    }
    proof {
        assert(program.take(ast.len() as int) =~= program);
    }

    if errors.len() == 0 {
        Ok(output)
    } else {
        Err(errors)
    }
}

/// Issues the next label suffix.
fn get_uid(counter: &mut Numeral) -> (uid: Numeral)
    ensures
        final(counter)@ == old(counter)@ + 1,
        uid@ == final(counter)@,
{
    counter.increment();
    counter.clone()
}

/// Whether a declaration declares a variable.
fn is_variable(dec: &Declaration) -> (b: bool)
    ensures
        b == (dec@ is Variable),
{
    match dec {
        Declaration::Variable { .. } => true,
        _ => false,
    }
}

/// Whether a declaration declares a function.
fn is_function(dec: &Declaration) -> (b: bool)
    ensures
        b == (dec@ is Function),
{
    match dec {
        Declaration::Function { .. } => true,
        _ => false,
    }
}

/// The kind that the directory holds for `identifier`; a name that it does
/// not hold is reported at `line`.
fn lookup(identifier: &String, directory: &Directory, line: u32) -> (result: Result<
    ValueType,
    CompilationError,
>)
    ensures
        match result {
            Ok(kind) => resolve(identifier@, directory@, line) == Ok::<ValueType, ErrorView>(kind),
            Err(e) => resolve(identifier@, directory@, line) == Err::<ValueType, ErrorView>(e@),
        },
{
    match directory.get(identifier) {
        Some(kind) => Ok(kind),
        None => {
            let mut msg = String::from_str("Undefined variable: ");
            msg.append(identifier.as_str());
            Err(CompilationError { line, msg })
        },
    }
}

/// The text of a declaration.
fn gen_declaration(dec: &Declaration, directory: &Directory, counter: &mut Numeral) -> (result: Result<
    String,
    CompilationError,
>)
    ensures
        outcome(result) == asm_declaration(dec@, directory@, old(counter)@),
        result is Ok ==> final(counter)@ == old(counter)@ + loops_in_declaration(dec@),
{
    match dec {
        Declaration::Variable { name, size } => Ok(gen_variable(name, size)),
        Declaration::Function { name, arguments, body } => gen_function(
            name,
            arguments,
            body,
            directory,
            counter,
        ),
    }
}

/// The line that reserves the bytes of a variable.
fn gen_variable(name: &Token, size: &u8) -> (text: String)
    ensures
        text@ == asm_variable(name@, *size),
{
    let mut output = name.lexeme.clone();
    output.append(":: ds ");
    push_decimal(&mut output, *size as u64);
    output.append("\n");
    output
}

/// The text of a function: its label, its statements, and `ret`.
fn gen_function(
    name: &Token,
    _arguments: &Vec<Token>,
    body: &Vec<Stmt>,
    directory: &Directory,
    counter: &mut Numeral,
) -> (result: Result<String, CompilationError>)
    ensures
        outcome(result) == asm_function(name@, views(body@), directory@, old(counter)@),
        result is Ok ==> final(counter)@ == old(counter)@ + loops_in_block(views(body@)),
{
    let mut output = name.lexeme.clone();
    output.append("::\n");
    output.append(gen_block(body, directory, counter)?.as_str());
    output.append("\tret\n");
    Ok(output)
}

/// The instructions of the statements of `body`, up to the first that fails.
fn gen_block(body: &Vec<Stmt>, directory: &Directory, counter: &mut Numeral) -> (result: Result<
    String,
    CompilationError,
>)
    ensures
        outcome(result) == asm_block(views(body@), directory@, old(counter)@),
        result is Ok ==> final(counter)@ == old(counter)@ + loops_in_block(views(body@)),
    decreases body, 0nat,
{
    let ghost block = views(body@);
    let ghost issued = counter@;
    let mut output = String::new();
    let mut i: usize = 0;
    proof {
        assert(block.take(0) =~= Seq::<StmtView>::empty());
    }
    while i < body.len()
        invariant
            i <= body.len(),
            block == views(body@),
            issued == old(counter)@,
            asm_block(block.take(i as int), directory@, issued) == Ok::<Seq<char>, ErrorView>(
                output@,
            ),
            counter@ == issued + loops_in_block(block.take(i as int)),
        decreases body.len() - i,
    {
        proof {
            assert(block.take(i + 1).drop_last() =~= block.take(i as int));
            assert(block.take(i + 1).last() == body@[i as int]@);
            lemma_loops_in_prefix(block, i as int);
        }
        match gen_statement(&body[i], directory, counter) {
            Ok(text) => {
                output.append(text.as_str());
            },
            Err(e) => {
                proof {
                    lemma_block_fails(block, directory@, issued, i as int);
                }
                return Err(e);
            },
        }
        i += 1;
    }
    proof {
        assert(block.take(body.len() as int) =~= block);
    }
    Ok(output)
}

/// A block whose beginning fails, fails as its beginning does.
proof fn lemma_block_fails(
    body: Seq<StmtView>,
    directory: Map<Seq<char>, ValueType>,
    issued: nat,
    i: int,
)
    requires
        0 <= i < body.len(),
        asm_block(body.take(i + 1), directory, issued) is Err,
    ensures
        asm_block(body, directory, issued) == asm_block(body.take(i + 1), directory, issued),
    decreases body.len() - i,
{
    if i + 1 < body.len() {
        assert(body.take(i + 2).drop_last() =~= body.take(i + 1));
        lemma_block_fails(body, directory, issued, i + 1);
    } else {
        assert(body.take(i + 1) =~= body);
    }
}

/// The instructions of a statement. The counter holds the last label suffix
/// issued; a statement that was generated leaves it at the last suffix that
/// its loops took.
pub fn gen_statement(stmt: &Stmt, directory: &Directory, counter: &mut Numeral) -> (result: Result<
    String,
    CompilationError,
>)
    ensures
        outcome(result) == asm_statement(stmt@, directory@, old(counter)@),
        result is Ok ==> final(counter)@ == old(counter)@ + loops_in(stmt@),
    decreases stmt, 0nat,
{
    match stmt {
        Stmt::While { condition, body } => {
            proof {
                lemma_while_view(*condition, *body);
            }
            gen_while_loop(condition, body, directory, counter)
        },
        Stmt::Assign { target, value } => gen_assign(target, value, directory),
        Stmt::Expression { expr } => gen_expression(expr, directory),
        Stmt::Halt => Ok(gen_halt()),
    }
}

/// The instructions of a loop, under a fresh label suffix: the one after
/// the counter's. The loops of the body take the suffixes after that, and
/// the counter is left at the last of them, so that neither a nested loop
/// nor a loop generated later has a suffix of this loop.
pub fn gen_while_loop(
    condition: &Expr,
    body: &Vec<Stmt>,
    directory: &Directory,
    counter: &mut Numeral,
) -> (result: Result<String, CompilationError>)
    ensures
        outcome(result) == asm_statement(
            StmtView::While { condition: condition@, body: views(body@) },
            directory@,
            old(counter)@,
        ),
        result is Ok ==> final(counter)@ == old(counter)@ + 1 + loops_in_block(views(body@)),
    decreases body, 1nat,
{
    let uid = get_uid(counter);
    let mut output = String::from_str(".startWhile_");
    uid.write(&mut output);
    output.append("\n");

    // Check the loop condition
    output.append(gen_evaluate(condition, directory)?.as_str());
    output.append("\tor a\n");
    output.append("\tjr z, .endWhile_");
    uid.write(&mut output);
    output.append("\n");

    output.append(gen_block(body, directory, counter)?.as_str());

    output.append("\tjr .startWhile_");
    uid.write(&mut output);
    output.append("\n");
    output.append(".endWhile_");
    uid.write(&mut output);
    output.append("\n");

    Ok(output)
}

/// The instructions of an assignment, by the form of its target.
fn gen_assign(target: &Expr, value: &Expr, directory: &Directory) -> (result: Result<
    String,
    CompilationError,
>)
    ensures
        outcome(result) == asm_assign(target@, value@, directory@),
{
    match target {
        Expr::Variable { name } => gen_assign_variable(name, value, directory),
        Expr::Indexed { name, index } => gen_assign_indexed(name, index, value, directory),
        Expr::Literal { token, .. } => Err(error(token.line, "Cannot assign to non-variable.")),
        Expr::Binary { operator, .. } => Err(
            error(operator.line, "Cannot assign to non-variable."),
        ),
    }
}

/// The instructions that store a value in a variable.
fn gen_assign_variable(target: &Token, value: &Expr, directory: &Directory) -> (result: Result<
    String,
    CompilationError,
>)
    ensures
        outcome(result) == asm_assign(ExprView::Variable { name: target@ }, value@, directory@),
{
    let def = lookup(&target.lexeme, directory, target.line)?;

    // Can't assign to functions...
    if def == ValueType::Function {
        return Err(error(target.line, "Cannot assign to function"));
    }
    // Evaluate expression into a, then store into memory

    let mut output = gen_evaluate(value, directory)?;
    output.append("\tld [");
    output.append(target.lexeme.as_str());
    output.append("], a\n");

    Ok(output)
}

/// The instructions that store a value in an element of an array.
fn gen_assign_indexed(
    name: &Token,
    index: &Box<Expr>,
    value: &Expr,
    directory: &Directory,
) -> (result: Result<String, CompilationError>)
    ensures
        outcome(result) == asm_assign(
            ExprView::Indexed { name: name@, index: Box::new((**index)@) },
            value@,
            directory@,
        ),
{
    // Load indexed pointer into hl, evaluate new value into a, then set.
    let mut output = gen_indexed(name, index, directory)?;
    output.append(gen_evaluate(value, directory)?.as_str());
    output.append("\tld [hl], a\n");

    Ok(output)
}

/// The instructions of an expression statement: the value is left in `a`.
fn gen_expression(expr: &Expr, directory: &Directory) -> (result: Result<String, CompilationError>)
    ensures
        outcome(result) == asm_evaluate(expr@, directory@),
{
    gen_evaluate(expr, directory)
}

/// The instruction that halts.
fn gen_halt() -> (text: String)
    ensures
        text@ == "\thalt\n"@,
{
    String::from_str("\thalt\n")
}

/// The instructions that leave the value of an expression in `a`.
fn gen_evaluate(expr: &Expr, directory: &Directory) -> (result: Result<String, CompilationError>)
    ensures
        outcome(result) == asm_evaluate(expr@, directory@),
    decreases expr_size(expr@), 0nat,
{
    match expr {
        Expr::Literal { value, .. } => Ok(gen_evaluate_literal(value)),
        Expr::Variable { name } => gen_evaluate_variable(name, directory),
        Expr::Indexed { name, index } => gen_evaluate_indexed(name, index, directory),
        Expr::Binary { operator, left, right } => gen_evaluate_binary(
            operator,
            left,
            right,
            directory,
        ),
    }
}

/// The instruction that loads a number.
fn gen_evaluate_literal(value: &u8) -> (text: String)
    ensures
        text@ == "\tld a, "@ + decimal(*value as nat) + "\n"@,
{
    let mut output = String::from_str("\tld a, ");
    push_decimal(&mut output, *value as u64);
    output.append("\n");
    output
}

/// The instruction that loads a variable.
fn gen_evaluate_variable(name: &Token, directory: &Directory) -> (result: Result<
    String,
    CompilationError,
>)
    ensures
        outcome(result) == asm_evaluate(ExprView::Variable { name: name@ }, directory@),
{
    let _ = lookup(&name.lexeme, directory, name.line)?;

    let mut output = String::from_str("\tld a, [");
    output.append(name.lexeme.as_str());
    output.append("]\n");
    Ok(output)
}

/// The instructions that load an element of an array.
fn gen_evaluate_indexed(name: &Token, index: &Box<Expr>, directory: &Directory) -> (result: Result<
    String,
    CompilationError,
>)
    ensures
        outcome(result) == asm_evaluate(
            ExprView::Indexed { name: name@, index: Box::new((**index)@) },
            directory@,
        ),
    decreases expr_size((**index)@), 2nat,
{
    let mut output = gen_indexed(name, index, directory)?;
    output.append("\tld a, [hl]\n");
    Ok(output)
}

/// The instructions of an addition or a subtraction: the left operand
/// goes through `c`, the right one through `b`.
fn gen_evaluate_binary(
    operator: &Token,
    left: &Box<Expr>,
    right: &Box<Expr>,
    directory: &Directory,
) -> (result: Result<String, CompilationError>)
    ensures
        outcome(result) == asm_evaluate(
            ExprView::Binary {
                operator: operator@,
                left: Box::new((**left)@),
                right: Box::new((**right)@),
            },
            directory@,
        ),
    decreases expr_size((**left)@) + expr_size((**right)@), 1nat,
{
    // Evaluate left into a, store in c.
    let mut output = gen_evaluate(left, directory)?;
    output.append("\tld c, a\n");

    // Evaluate right into a, store in b, get left back into a.
    output.append(gen_evaluate(right, directory)?.as_str());
    output.append("\tld b, a\n");
    output.append("\tld a, c\n");

    let op = match operator.kind {
        TokenKind::Plus => "\tadd a, b\n",
        TokenKind::Minus => "\tsub a, b\n",
        _ => return Err(error(operator.line, "Unexpected operator in binary expression.")),
    };
    output.append(op);

    Ok(output)
}

/// The instructions that leave the address of an element of an array in
/// `hl`.
fn gen_indexed(name: &Token, index: &Box<Expr>, directory: &Directory) -> (result: Result<
    String,
    CompilationError,
>)
    ensures
        outcome(result) == asm_indexed(name@, (**index)@, directory@),
    decreases expr_size((**index)@), 1nat,
{
    let def = lookup(&name.lexeme, directory, name.line)?;

    // Cannot index function pointer
    if def == ValueType::Function {
        return Err(error(name.line, "Cannot index a function identifier"));
    }
    // The index is one byte wide, so the first 256 elements can be reached.

    let mut output = gen_evaluate(index, directory)?;
    output.append("\tld b, 0\n\tld c, a\n");
    output.append("\tld hl, ");
    output.append(name.lexeme.as_str());
    output.append("\n");
    output.append("\tadd hl, bc\n");

    Ok(output)
}

} // verus!
