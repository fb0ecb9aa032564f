//! Lexical analysis: from source text to tokens and diagnostics.

use vstd::prelude::*;
use vstd::string::*;

use crate::text::{chars_of, decimal_value, is_digit_char, push_char};
use crate::{views, CompilationError, ErrorView};

verus! {

/// The closed set of token kinds.
#[derive(Debug, PartialEq, Eq, Clone, Copy, Structural)]
pub enum TokenKind {
    // Single characters
    LeftBrace,
    RightBrace,
    LeftParen,
    RightParen,
    LeftBracket,
    RightBracket,
    Semicolon,
    Comma,
    Star,
    Plus,
    Minus,
    Exclamation,
    // One or two characters
    Slash,
    Equals,
    EqualsEquals,
    Greater,
    GreaterEqual,
    Less,
    LessEqual,
    // Keywords
    Fn,
    Unsigned8,
    While,
    True,
    False,
    Halt,
    // Several characters
    Identifier,
    Number,
    /// End of input. The lexer never emits it; the parser stops at one.
    EOF,
}

/// A lexeme: its kind, its text, the value of a number, and its line.
#[derive(Debug, PartialEq, Eq)]
pub struct Token {
    pub kind: TokenKind,
    pub lexeme: String,
    pub value: Option<u8>,
    pub line: u32,
}

/// The mathematical value of a [`Token`].
pub struct TokenView {
    pub kind: TokenKind,
    pub lexeme: Seq<char>,
    pub value: Option<u8>,
    pub line: u32,
}

impl View for Token {
    type V = TokenView;

    open spec fn view(&self) -> TokenView {
        TokenView { kind: self.kind, lexeme: self.lexeme@, value: self.value, line: self.line }
    }
}

impl Clone for Token {
    fn clone(&self) -> (res: Self)
        ensures
            res@ == self@,
    {
        Token { kind: self.kind, lexeme: self.lexeme.clone(), value: self.value, line: self.line }
    }
}

// ---------------------------------------------------------------------------
// Character classes and the two tables
// ---------------------------------------------------------------------------

/// Whether `c` is an ASCII letter, the only way an identifier may begin.
pub open spec fn is_letter_char(c: char) -> bool {
    ('a' <= c <= 'z') || ('A' <= c <= 'Z')
}

/// Whether `c` may continue an identifier.
pub open spec fn is_identifier_char(c: char) -> bool {
    is_letter_char(c) || is_digit_char(c) || c == '_'
}

/// Whether `c` is whitespace that the lexer passes over.
pub open spec fn is_blank_char(c: char) -> bool {
    c == ' ' || c == '\t' || c == '\r' || c == '\n'
}

/// The kind of the token that the single character `c` makes, if any.
pub open spec fn single_char_kind(c: char) -> Option<TokenKind> {
    if c == '{' {
        Some(TokenKind::LeftBrace)
    } else if c == '}' {
        Some(TokenKind::RightBrace)
    } else if c == '(' {
        Some(TokenKind::LeftParen)
    } else if c == ')' {
        Some(TokenKind::RightParen)
    } else if c == '[' {
        Some(TokenKind::LeftBracket)
    } else if c == ']' {
        Some(TokenKind::RightBracket)
    } else if c == ';' {
        Some(TokenKind::Semicolon)
    } else if c == '=' {
        Some(TokenKind::Equals)
    } else if c == ',' {
        Some(TokenKind::Comma)
    } else if c == '*' {
        Some(TokenKind::Star)
    } else if c == '!' {
        Some(TokenKind::Exclamation)
    } else if c == '>' {
        Some(TokenKind::Greater)
    } else if c == '<' {
        Some(TokenKind::Less)
    } else if c == '/' {
        Some(TokenKind::Slash)
    } else if c == '+' {
        Some(TokenKind::Plus)
    } else if c == '-' {
        Some(TokenKind::Minus)
    } else {
        None
    }
}

/// The kind of the keyword that `word` spells, if it spells one.
pub open spec fn keyword_kind(word: Seq<char>) -> Option<TokenKind> {
    if word == "fn"@ {
        Some(TokenKind::Fn)
    } else if word == "u8"@ {
        Some(TokenKind::Unsigned8)
    } else if word == "true"@ {
        Some(TokenKind::True)
    } else if word == "false"@ {
        Some(TokenKind::False)
    } else if word == "while"@ {
        Some(TokenKind::While)
    } else if word == "halt"@ {
        Some(TokenKind::Halt)
    } else {
        None
    }
}

// ---------------------------------------------------------------------------
// Lines
// ---------------------------------------------------------------------------

/// How many newline characters `text` holds.
pub open spec fn newlines(text: Seq<char>) -> nat
    decreases text.len(),
{
    if text.len() == 0 {
        0
    } else {
        newlines(text.drop_last()) + if text.last() == '\n' {
            1nat
        } else {
            0nat
        }
    }
}

/// The 1-based number of the line on which position `pos` of `src` stands,
/// held at `u32::MAX` from there on.
pub open spec fn line_at(src: Seq<char>, pos: int) -> u32
    recommends
        0 <= pos <= src.len(),
{
    let line = 1 + newlines(src.take(pos));
    if line <= u32::MAX {
        line as u32
    } else {
        u32::MAX
    }
}

// ---------------------------------------------------------------------------
// Scanning one item
// ---------------------------------------------------------------------------

/// What the lexer finds at one position.
pub enum Scanned {
    /// Whitespace or a comment.
    Nothing,
    Token(TokenView),
    Error(ErrorView),
}

/// One step of the lexer: what it found, and where it goes on.
pub struct Step {
    pub next: int,
    pub found: Scanned,
}

/// The first position from `pos` on that holds `target`, or the end of `src`.
pub open spec fn find_char(src: Seq<char>, pos: int, target: char) -> int
    decreases src.len() - pos,
{
    if 0 <= pos < src.len() && src[pos] != target {
        find_char(src, pos + 1, target)
    } else {
        pos
    }
}

/// The first position from `pos` on that holds no digit, or the end of `src`.
pub open spec fn digits_end(src: Seq<char>, pos: int) -> int
    decreases src.len() - pos,
{
    if 0 <= pos < src.len() && is_digit_char(src[pos]) {
        digits_end(src, pos + 1)
    } else {
        pos
    }
}

/// The first position from `pos` on that cannot continue an identifier, or
/// the end of `src`.
pub open spec fn word_end(src: Seq<char>, pos: int) -> int
    decreases src.len() - pos,
{
    if 0 <= pos < src.len() && is_identifier_char(src[pos]) {
        word_end(src, pos + 1)
    } else {
        pos
    }
}

/// Whether the character after position `pos` is `c`.
pub open spec fn followed_by(src: Seq<char>, pos: int, c: char) -> bool {
    pos + 1 < src.len() && src[pos + 1] == c
}

/// The message for a character literal that does not hold one character.
pub open spec fn literal_length_message(literal: Seq<char>) -> Seq<char> {
    ("Character literal should be exactly one character: '"@ + literal).push('\'')
}

/// The message for a character literal that the end of the source cuts
/// off: it shows the literal as far as it goes, without a closing quote.
pub open spec fn literal_open_message(literal: Seq<char>) -> Seq<char> {
    "Character literal has no closing quote: '"@ + literal
}

/// The message for a character whose code point is above 255.
pub open spec fn literal_range_message(c: char) -> Seq<char> {
    "Failed to convert character to u8: '"@.push(c).push('\'')
}

/// The message for a numeral above 255.
pub open spec fn number_range_message() -> Seq<char> {
    "Failed to parse literal: number too large to fit in target type"@
}

/// The message for a character that begins nothing.
pub open spec fn unexpected_message(c: char) -> Seq<char> {
    "Unexpected character: "@.push(c)
}

/// A character literal opens at `pos`: it runs to the next quote. Exactly
/// one character with a code point of at most 255 makes a number. A literal
/// without a closing quote runs to the end of the source and makes a
/// diagnostic, whatever it holds.
pub open spec fn scan_character(src: Seq<char>, pos: int) -> Step {
    let close = find_char(src, pos + 1, '\'');
    let literal = src.subrange(pos + 1, close);
    let line = line_at(src, pos);
    Step {
        next: if close < src.len() { close + 1 } else { close },
        found: if close >= src.len() {
            Scanned::Error(ErrorView { msg: literal_open_message(literal), line })
        } else if literal.len() == 1 {
            if literal[0] as u32 <= 255 {
                Scanned::Token(
                    TokenView {
                        kind: TokenKind::Number,
                        lexeme: literal,
                        value: Some(literal[0] as u32 as u8),
                        line,
                    },
                )
            } else {
                Scanned::Error(ErrorView { msg: literal_range_message(literal[0]), line })
            }
        } else {
            Scanned::Error(ErrorView { msg: literal_length_message(literal), line })
        },
    }
}

/// A numeral begins at `pos`: it takes every digit that follows, and makes a
/// number if its value is at most 255.
pub open spec fn scan_number(src: Seq<char>, pos: int) -> Step {
    let end = digits_end(src, pos + 1);
    let digits = src.subrange(pos, end);
    let line = line_at(src, pos);
    Step {
        next: end,
        found: if decimal_value(digits) <= 255 {
            Scanned::Token(
                TokenView {
                    kind: TokenKind::Number,
                    lexeme: digits,
                    value: Some(decimal_value(digits) as u8),
                    line,
                },
            )
        } else {
            Scanned::Error(ErrorView { msg: number_range_message(), line })
        },
    }
}

/// A word begins at `pos`: it takes every identifier character that follows,
/// and is a keyword if it spells one, an identifier if not.
pub open spec fn scan_word(src: Seq<char>, pos: int) -> Step {
    let end = word_end(src, pos + 1);
    let word = src.subrange(pos, end);
    Step {
        next: end,
        found: Scanned::Token(
            TokenView {
                kind: match keyword_kind(word) {
                    Some(kind) => kind,
                    None => TokenKind::Identifier,
                },
                lexeme: word,
                value: None,
                line: line_at(src, pos),
            },
        ),
    }
}

/// The kind of the two-character token that `c` makes with a `=` after it.
pub open spec fn with_equals_kind(c: char) -> Option<TokenKind> {
    if c == '=' {
        Some(TokenKind::EqualsEquals)
    } else if c == '>' {
        Some(TokenKind::GreaterEqual)
    } else if c == '<' {
        Some(TokenKind::LessEqual)
    } else {
        None
    }
}

/// What the lexer finds at position `pos` of `src`.
pub open spec fn scan(src: Seq<char>, pos: int) -> Step
    recommends
        0 <= pos < src.len(),
{
    let c = src[pos];
    let line = line_at(src, pos);
    if with_equals_kind(c) is Some && followed_by(src, pos, '=') {
        Step {
            next: pos + 2,
            found: Scanned::Token(
                TokenView {
                    kind: with_equals_kind(c)->0,
                    lexeme: seq![c, '='],
                    value: None,
                    line,
                },
            ),
        }
    } else if c == '/' && followed_by(src, pos, '/') {
        Step { next: find_char(src, pos + 1, '\n'), found: Scanned::Nothing }
    } else if single_char_kind(c) is Some {
        Step {
            next: pos + 1,
            found: Scanned::Token(
                TokenView { kind: single_char_kind(c)->0, lexeme: seq![c], value: None, line },
            ),
        }
    } else if c == '\'' {
        scan_character(src, pos)
    } else if is_digit_char(c) {
        scan_number(src, pos)
    } else if is_letter_char(c) {
        scan_word(src, pos)
    } else if is_blank_char(c) {
        Step { next: pos + 1, found: Scanned::Nothing }
    } else {
        Step {
            next: pos + 1,
            found: Scanned::Error(ErrorView { msg: unexpected_message(c), line }),
        }
    }
}

// ---------------------------------------------------------------------------
// The whole source
// ---------------------------------------------------------------------------

/// What the lexer has gathered: tokens and diagnostics, each in source order.
pub struct Lexed {
    pub tokens: Seq<TokenView>,
    pub errors: Seq<ErrorView>,
}

impl Lexed {
    /// Nothing gathered yet.
    pub open spec fn empty() -> Lexed {
        Lexed { tokens: Seq::empty(), errors: Seq::empty() }
    }

    /// `self` with what one step found added at the end.
    pub open spec fn with(self, found: Scanned) -> Lexed {
        match found {
            Scanned::Nothing => self,
            Scanned::Token(token) => Lexed { tokens: self.tokens.push(token), ..self },
            Scanned::Error(error) => Lexed { errors: self.errors.push(error), ..self },
        }
    }
}

/// Every step of the lexer moves on.
pub proof fn lemma_scan_advances(src: Seq<char>, pos: int)
    requires
        0 <= pos < src.len(),
    ensures
        pos < scan(src, pos).next <= src.len(),
{
    lemma_find_char_bounds(src, pos + 1, '\n');
    lemma_find_char_bounds(src, pos + 1, '\'');
    lemma_digits_end_bounds(src, pos + 1);
    lemma_word_end_bounds(src, pos + 1);
}

/// Where [`find_char`] ends: at the target, or at the end of the source.
proof fn lemma_find_char_bounds(src: Seq<char>, pos: int, target: char)
    requires
        0 <= pos <= src.len(),
    ensures
        pos <= find_char(src, pos, target) <= src.len(),
        find_char(src, pos, target) < src.len() ==> src[find_char(src, pos, target)] == target,
    decreases src.len() - pos,
{
    if pos < src.len() && src[pos] != target {
        lemma_find_char_bounds(src, pos + 1, target);
    }
}

/// Where [`digits_end`] ends: not before `pos`, nor behind the source.
proof fn lemma_digits_end_bounds(src: Seq<char>, pos: int)
    requires
        0 <= pos <= src.len(),
    ensures
        pos <= digits_end(src, pos) <= src.len(),
    decreases src.len() - pos,
{
    if pos < src.len() && is_digit_char(src[pos]) {
        lemma_digits_end_bounds(src, pos + 1);
    }
}

/// Where [`word_end`] ends: not before `pos`, nor behind the source.
proof fn lemma_word_end_bounds(src: Seq<char>, pos: int)
    requires
        0 <= pos <= src.len(),
    ensures
        pos <= word_end(src, pos) <= src.len(),
    decreases src.len() - pos,
{
    if pos < src.len() && is_identifier_char(src[pos]) {
        lemma_word_end_bounds(src, pos + 1);
    }
}

/// The lexer's steps from position `pos` to the end of `src`, added to what
/// `so_far` already holds.
pub open spec fn lex_from(src: Seq<char>, pos: int, so_far: Lexed) -> Lexed
    decreases src.len() - pos,
    via lex_from_decreases
{
    if 0 <= pos < src.len() {
        let step = scan(src, pos);
        lex_from(src, step.next, so_far.with(step.found))
    } else {
        so_far
    }
}

#[via_fn]
proof fn lex_from_decreases(src: Seq<char>, pos: int, so_far: Lexed) {
    if 0 <= pos < src.len() {
        lemma_scan_advances(src, pos);
    }
}

/// The tokens and diagnostics of a whole source text.
pub open spec fn lex_spec(src: Seq<char>) -> Lexed {
    lex_from(src, 0, Lexed::empty())
}

// ---------------------------------------------------------------------------
// What holds of every token
// ---------------------------------------------------------------------------

/// The positions at which the lexer finds its tokens from position `pos` on,
/// added to `so_far`.
pub open spec fn starts_from(src: Seq<char>, pos: int, so_far: Seq<int>) -> Seq<int>
    decreases src.len() - pos,
    via starts_from_decreases
{
    if 0 <= pos < src.len() {
        let step = scan(src, pos);
        starts_from(
            src,
            step.next,
            if step.found is Token {
                so_far.push(pos)
            } else {
                so_far
            },
        )
    } else {
        so_far
    }
}

#[via_fn]
proof fn starts_from_decreases(src: Seq<char>, pos: int, so_far: Seq<int>) {
    if 0 <= pos < src.len() {
        lemma_scan_advances(src, pos);
    }
}

/// The position of the first character of each token of `src`, in order.
pub open spec fn token_starts(src: Seq<char>) -> Seq<int> {
    starts_from(src, 0, Seq::empty())
}

/// Whether `token` is what the lexer finds at position `start` of `src`.
pub open spec fn found_at(src: Seq<char>, start: int, token: TokenView) -> bool {
    0 <= start < src.len() && scan(src, start).found == Scanned::Token(token)
}

/// Whether the text of `token` stands in `src` at position `start`: behind
/// the opening quote for a character literal, and from `start` on for every
/// other token.
pub open spec fn text_at(src: Seq<char>, start: int, token: TokenView) -> bool {
    let from = if src[start] == '\'' {
        start + 1
    } else {
        start
    };
    from + token.lexeme.len() <= src.len() && src.subrange(from, from + token.lexeme.len())
        == token.lexeme
}

/// Whether `text` has the form of an identifier: a letter, then letters,
/// digits and underscores.
pub open spec fn is_identifier_text(text: Seq<char>) -> bool {
    &&& text.len() > 0
    &&& is_letter_char(text[0])
    &&& forall|i: int| 0 <= i < text.len() ==> is_identifier_char(#[trigger] text[i])
}

/// Every character before the end of a word may continue an identifier.
proof fn lemma_word_run(src: Seq<char>, pos: int, k: int)
    requires
        0 <= pos <= k < word_end(src, pos),
    ensures
        k < src.len(),
        is_identifier_char(src[k]),
    decreases k - pos,
{
    lemma_word_end_bounds(src, pos);
    if pos < k {
        lemma_word_run(src, pos + 1, k);
    }
}

/// What holds of a token that the lexer finds at a position.
pub proof fn lemma_found_token(src: Seq<char>, start: int, token: TokenView)
    requires
        found_at(src, start, token),
    ensures
        token.line == line_at(src, start),
        text_at(src, start, token),
        token.lexeme.len() > 0,
        (token.kind == TokenKind::Number) == (token.value is Some),
        token.kind == TokenKind::Number && src[start] != '\'' ==> decimal_value(token.lexeme)
            <= 255 && token.value == Some(decimal_value(token.lexeme) as u8),
        token.kind != TokenKind::EOF,
        keyword_kind(token.lexeme) is Some ==> token.kind == keyword_kind(token.lexeme)->0,
        token.kind == TokenKind::Identifier ==> is_identifier_text(token.lexeme),
{
    reveal_strlit("fn");
    reveal_strlit("u8");
    reveal_strlit("true");
    reveal_strlit("false");
    reveal_strlit("while");
    reveal_strlit("halt");
    lemma_find_char_bounds(src, start + 1, '\'');
    lemma_digits_end_bounds(src, start + 1);
    lemma_word_end_bounds(src, start + 1);
    let c = src[start];
    if with_equals_kind(c) is Some && followed_by(src, start, '=') {
        assert(src.subrange(start, start + 2) =~= seq![c, '=']);
        assert(token.lexeme[0] == c);
    } else if c == '/' && followed_by(src, start, '/') {
    } else if single_char_kind(c) is Some {
        assert(src.subrange(start, start + 1) =~= seq![c]);
    } else if c == '\'' {
    } else if is_digit_char(c) {
        assert(token.lexeme[0] == c);
    } else if is_letter_char(c) {
        assert(token.lexeme[0] == c);
        assert forall|i: int| 0 <= i < token.lexeme.len() implies is_identifier_char(
            #[trigger] token.lexeme[i],
        ) by {
            if i > 0 {
                lemma_word_run(src, start + 1, start + i);
            }
        }
    }
}

/// Every token that the lexer gathers is what it finds at the position that
/// [`starts_from`] gathers for it, and these positions grow.
proof fn lemma_tokens_found(src: Seq<char>, pos: int, so_far: Lexed, starts: Seq<int>)
    requires
        0 <= pos <= src.len(),
        starts.len() == so_far.tokens.len(),
        forall|j: int|
            0 <= j < starts.len() ==> #[trigger] found_at(src, starts[j], so_far.tokens[j]),
        forall|j: int| 0 <= j < starts.len() ==> #[trigger] starts[j] < pos,
        forall|j: int, k: int| 0 <= j < k < starts.len() ==> starts[j] < starts[k],
    ensures
        starts_from(src, pos, starts).len() == lex_from(src, pos, so_far).tokens.len(),
        forall|j: int|
            0 <= j < starts_from(src, pos, starts).len() ==> #[trigger] found_at(
                src,
                starts_from(src, pos, starts)[j],
                lex_from(src, pos, so_far).tokens[j],
            ),
        forall|j: int, k: int|
            0 <= j < k < starts_from(src, pos, starts).len() ==> starts_from(src, pos, starts)[j]
                < starts_from(src, pos, starts)[k],
    decreases src.len() - pos,
{
    if pos < src.len() {
        lemma_scan_advances(src, pos);
        let step = scan(src, pos);
        let more = so_far.with(step.found);
        let more_starts = if step.found is Token {
            starts.push(pos)
        } else {
            starts
        };
        assert forall|j: int| 0 <= j < more_starts.len() implies #[trigger] found_at(
            src,
            more_starts[j],
            more.tokens[j],
        ) by {
            if j < starts.len() {
                assert(found_at(src, starts[j], so_far.tokens[j]));
            }
        }
        lemma_tokens_found(src, step.next, more, more_starts);
    }
}

/// Every token carries the line on which its first character stands: the
/// lexer found it at a position of the source where its text stands, and its
/// line is the number of that position's line, counted from 1. Tokens stand
/// in source order.
pub proof fn lemma_token_lines(src: Seq<char>, i: int)
    requires
        0 <= i < lex_spec(src).tokens.len(),
    ensures
        token_starts(src).len() == lex_spec(src).tokens.len(),
        found_at(src, token_starts(src)[i], lex_spec(src).tokens[i]),
        text_at(src, token_starts(src)[i], lex_spec(src).tokens[i]),
        lex_spec(src).tokens[i].line == line_at(src, token_starts(src)[i]),
        1 + newlines(src.take(token_starts(src)[i])) <= u32::MAX ==> lex_spec(src).tokens[i].line
            == 1 + newlines(src.take(token_starts(src)[i])),
        forall|j: int| 0 <= j < i ==> token_starts(src)[j] < token_starts(src)[i],
{
    lemma_tokens_found(src, 0, Lexed::empty(), Seq::empty());
    lemma_found_token(src, token_starts(src)[i], lex_spec(src).tokens[i]);
}

/// A token carries a value exactly if it is a number, and no token is the
/// end-of-input token. The value of a numeral is the number that its digits
/// write, which is at most 255.
pub proof fn lemma_token_values(src: Seq<char>, i: int)
    requires
        0 <= i < lex_spec(src).tokens.len(),
    ensures
        (lex_spec(src).tokens[i].kind == TokenKind::Number) == (lex_spec(src).tokens[i].value
            is Some),
        lex_spec(src).tokens[i].kind != TokenKind::EOF,
        lex_spec(src).tokens[i].kind == TokenKind::Number && src[token_starts(src)[i]] != '\''
            ==> decimal_value(lex_spec(src).tokens[i].lexeme) <= 255 && lex_spec(
            src,
        ).tokens[i].value == Some(decimal_value(lex_spec(src).tokens[i].lexeme) as u8),
{
    lemma_tokens_found(src, 0, Lexed::empty(), Seq::empty());
    lemma_found_token(src, token_starts(src)[i], lex_spec(src).tokens[i]);
}

/// A numeral above 255 makes a diagnostic and no token.
pub proof fn lemma_large_numeral(src: Seq<char>, pos: int)
    requires
        0 <= pos < src.len(),
        is_digit_char(src[pos]),
        decimal_value(src.subrange(pos, digits_end(src, pos + 1))) > 255,
    ensures
        scan(src, pos).found == Scanned::Error(
            ErrorView { msg: number_range_message(), line: line_at(src, pos) },
        ),
{
}

/// A character literal that the end of the source cuts off makes a
/// diagnostic at the line of its opening quote and no token, whatever it
/// holds, and the lexer is then at the end of the source.
pub proof fn lemma_open_literal(src: Seq<char>, pos: int)
    requires
        0 <= pos < src.len(),
        src[pos] == '\'',
        find_char(src, pos + 1, '\'') == src.len(),
    ensures
        scan(src, pos).next == src.len(),
        scan(src, pos).found == Scanned::Error(
            ErrorView {
                msg: literal_open_message(src.subrange(pos + 1, src.len() as int)),
                line: line_at(src, pos),
            },
        ),
{
}

/// A source that opens a character literal with its first character and
/// never closes it makes one diagnostic and no token.
pub proof fn lemma_open_literal_alone(src: Seq<char>)
    requires
        src.len() > 0,
        src[0] == '\'',
        forall|i: int| 1 <= i < src.len() ==> #[trigger] src[i] != '\'',
    ensures
        lex_spec(src) == (Lexed {
            tokens: Seq::empty(),
            errors: seq![
                ErrorView {
                    msg: literal_open_message(src.subrange(1, src.len() as int)),
                    line: 1,
                },
            ],
        }),
{
    lemma_no_quote(src, 1);
    lemma_open_literal(src, 0);
    assert(src.take(0) =~= Seq::<char>::empty());
    let step = scan(src, 0);
    assert(lex_spec(src) == lex_from(src, step.next, Lexed::empty().with(step.found)));
    assert(Lexed::empty().with(step.found).errors =~= seq![step.found->Error_0]);
}

/// Where no quote follows, the search for one ends at the end of the source.
proof fn lemma_no_quote(src: Seq<char>, pos: int)
    requires
        0 <= pos <= src.len(),
        forall|i: int| pos <= i < src.len() ==> #[trigger] src[i] != '\'',
    ensures
        find_char(src, pos, '\'') == src.len(),
    decreases src.len() - pos,
{
    if pos < src.len() {
        lemma_no_quote(src, pos + 1);
    }
}

/// Digits run to the end of a source that holds only digits.
proof fn lemma_digits_run(src: Seq<char>, pos: int)
    requires
        0 <= pos <= src.len(),
        forall|i: int| 0 <= i < src.len() ==> is_digit_char(#[trigger] src[i]),
    ensures
        digits_end(src, pos) == src.len(),
    decreases src.len() - pos,
{
    if pos < src.len() {
        lemma_digits_run(src, pos + 1);
    }
}

/// A source that is one numeral makes one number token if the numeral is at
/// most 255, and else one diagnostic and no token.
pub proof fn lemma_numeral_alone(src: Seq<char>)
    requires
        src.len() > 0,
        forall|i: int| 0 <= i < src.len() ==> is_digit_char(#[trigger] src[i]),
    ensures
        decimal_value(src) <= 255 ==> lex_spec(src) == (Lexed {
            tokens: seq![
                TokenView {
                    kind: TokenKind::Number,
                    lexeme: src,
                    value: Some(decimal_value(src) as u8),
                    line: 1,
                },
            ],
            errors: Seq::empty(),
        }),
        decimal_value(src) > 255 ==> lex_spec(src) == (Lexed {
            tokens: Seq::empty(),
            errors: seq![ErrorView { msg: number_range_message(), line: 1 }],
        }),
{
    lemma_digits_run(src, 1);
    assert(src.subrange(0, src.len() as int) =~= src);
    assert(src.take(0) =~= Seq::<char>::empty());
    assert(is_digit_char(src[0]));
    let step = scan(src, 0);
    assert(step == scan_number(src, 0));
    assert(lex_spec(src) == lex_from(src, step.next, Lexed::empty().with(step.found)));
    if decimal_value(src) <= 255 {
        assert(Lexed::empty().with(step.found).tokens =~= seq![step.found->Token_0]);
    } else {
        assert(Lexed::empty().with(step.found).errors =~= seq![step.found->Error_0]);
    }
}

/// The text of an identifier has the form of one: it begins with a letter
/// and holds letters, digits and underscores, so no blank and no line break.
pub proof fn lemma_identifier_text(src: Seq<char>, i: int)
    requires
        0 <= i < lex_spec(src).tokens.len(),
        lex_spec(src).tokens[i].kind == TokenKind::Identifier,
    ensures
        is_identifier_text(lex_spec(src).tokens[i].lexeme),
{
    lemma_tokens_found(src, 0, Lexed::empty(), Seq::empty());
    lemma_found_token(src, token_starts(src)[i], lex_spec(src).tokens[i]);
}

/// A token whose text spells a keyword is that keyword: no identifier spells
/// one.
pub proof fn lemma_keywords_first(src: Seq<char>, i: int)
    requires
        0 <= i < lex_spec(src).tokens.len(),
    ensures
        keyword_kind(lex_spec(src).tokens[i].lexeme) is Some ==> lex_spec(src).tokens[i].kind
            == keyword_kind(lex_spec(src).tokens[i].lexeme)->0,
        lex_spec(src).tokens[i].kind == TokenKind::Identifier ==> keyword_kind(
            lex_spec(src).tokens[i].lexeme,
        ) is None,
{
    lemma_tokens_found(src, 0, Lexed::empty(), Seq::empty());
    lemma_found_token(src, token_starts(src)[i], lex_spec(src).tokens[i]);
}

// ---------------------------------------------------------------------------
// The lexer
// ---------------------------------------------------------------------------

/// What the lexer finds at one position, as a value of the program.
enum Found {
    Nothing,
    Token(Token),
    Error(CompilationError),
}

impl View for Found {
    type V = Scanned;

    closed spec fn view(&self) -> Scanned {
        match self {
            Found::Nothing => Scanned::Nothing,
            Found::Token(token) => Scanned::Token(token@),
            Found::Error(error) => Scanned::Error(error@),
        }
    }
}

/// Moving one character on changes the line exactly at a newline.
proof fn lemma_line_step(src: Seq<char>, pos: int)
    requires
        0 <= pos < src.len(),
    ensures
        newlines(src.take(pos + 1)) == newlines(src.take(pos)) + if src[pos] == '\n' {
            1nat
        } else {
            0nat
        },
{
    assert(src.take(pos + 1).drop_last() =~= src.take(pos));
}

/// The character at position `pos`, if there is one.
fn char_at(src: &Vec<char>, pos: usize) -> (c: Option<&char>)
    ensures
        pos < src.len() ==> c == Some(&src@[pos as int]),
        pos >= src.len() ==> c is None,
{
    if pos < src.len() {
        Some(&src[pos])
    } else {
        None
    }
}

/// Whether `subject` is the character `target`.
fn is_char(target: char, subject: Option<&char>) -> (b: bool)
    ensures
        b == (subject is Some && *subject->0 == target),
{
    match subject {
        Some(c) => *c == target,
        None => false,
    }
}

/// Whether `c` is a decimal digit.
fn is_digit(c: Option<&char>) -> (b: bool)
    ensures
        b == (c is Some && is_digit_char(*c->0)),
{
    match c {
        Some(c) => '0' <= *c && *c <= '9',
        None => false,
    }
}

/// Whether `c` may continue an identifier.
fn is_identifier(c: Option<&char>) -> (b: bool)
    ensures
        b == (c is Some && is_identifier_char(*c->0)),
{
    match c {
        Some(c) => ('A' <= *c && *c <= 'Z') || ('a' <= *c && *c <= 'z') || ('0' <= *c && *c
            <= '9') || *c == '_',
        None => false,
    }
}

/// A token of the given parts.
fn build_token(kind: TokenKind, lexeme: String, value: Option<u8>, line: u32) -> (token: Token)
    ensures
        token@ == (TokenView { kind, lexeme: lexeme@, value, line }),
{
    Token { kind, lexeme, value, line }
}

/// The kind of the token that the single character `c` makes, if any.
fn single_char_token(c: char) -> (kind: Option<TokenKind>)
    ensures
        kind == single_char_kind(c),
{
    if c == '{' {
        Some(TokenKind::LeftBrace)
    } else if c == '}' {
        Some(TokenKind::RightBrace)
    } else if c == '(' {
        Some(TokenKind::LeftParen)
    } else if c == ')' {
        Some(TokenKind::RightParen)
    } else if c == '[' {
        Some(TokenKind::LeftBracket)
    } else if c == ']' {
        Some(TokenKind::RightBracket)
    } else if c == ';' {
        Some(TokenKind::Semicolon)
    } else if c == '=' {
        Some(TokenKind::Equals)
    } else if c == ',' {
        Some(TokenKind::Comma)
    } else if c == '*' {
        Some(TokenKind::Star)
    } else if c == '!' {
        Some(TokenKind::Exclamation)
    } else if c == '>' {
        Some(TokenKind::Greater)
    } else if c == '<' {
        Some(TokenKind::Less)
    } else if c == '/' {
        Some(TokenKind::Slash)
    } else if c == '+' {
        Some(TokenKind::Plus)
    } else if c == '-' {
        Some(TokenKind::Minus)
    } else {
        None
    }
}

/// Whether the characters of `src` from `start` to `end` spell `word`.
fn spells(src: &Vec<char>, start: usize, end: usize, word: &str) -> (b: bool)
    requires
        start <= end <= src.len(),
    ensures
        b == (src@.subrange(start as int, end as int) == word@),
{
    let n: usize = word.unicode_len();
    if end - start != n {
        return false;
    }
    let mut i: usize = 0;
    while i < n
        invariant
            start <= end <= src.len(),
            end - start == n,
            n == word@.len(),
            i <= n,
            forall|k: int| 0 <= k < i ==> src@[start + k] == word@[k],
        decreases n - i,
    {
        if src[start + i] != word.get_char(i) {
            assert(src@.subrange(start as int, end as int)[i as int] != word@[i as int]);
            return false;
        }
        i += 1;
    }
    assert(src@.subrange(start as int, end as int) =~= word@);
    true
}

/// The kind of the keyword that `src` spells from `start` to `end`, if any.
fn keyword(src: &Vec<char>, start: usize, end: usize) -> (kind: Option<TokenKind>)
    requires
        start <= end <= src.len(),
    ensures
        kind == keyword_kind(src@.subrange(start as int, end as int)),
{
    if spells(src, start, end, "fn") {
        Some(TokenKind::Fn)
    } else if spells(src, start, end, "u8") {
        Some(TokenKind::Unsigned8)
    } else if spells(src, start, end, "true") {
        Some(TokenKind::True)
    } else if spells(src, start, end, "false") {
        Some(TokenKind::False)
    } else if spells(src, start, end, "while") {
        Some(TokenKind::While)
    } else if spells(src, start, end, "halt") {
        Some(TokenKind::Halt)
    } else {
        None
    }
}

/// The number that the digits of `src` from `start` to `end` write, if it is
/// at most 255.
fn parse_byte(src: &Vec<char>, start: usize, end: usize) -> (value: Option<u8>)
    requires
        start <= end <= src.len(),
        forall|k: int| start <= k < end ==> is_digit_char(src@[k]),
    ensures
        value == if decimal_value(src@.subrange(start as int, end as int)) <= 255 {
            Some(decimal_value(src@.subrange(start as int, end as int)) as u8)
        } else {
            None
        },
{
    let mut total: u32 = 0;
    let mut i: usize = start;
    while i < end
        invariant
            start <= i <= end <= src.len(),
            forall|k: int| start <= k < end ==> is_digit_char(src@[k]),
            total <= 2559,
            decimal_value(src@.subrange(start as int, i as int)) <= 255 ==> total == decimal_value(
                src@.subrange(start as int, i as int),
            ),
            decimal_value(src@.subrange(start as int, i as int)) > 255 ==> total > 255,
        decreases end - i,
    {
        proof {
            assert(src@.subrange(start as int, i + 1).drop_last() =~= src@.subrange(
                start as int,
                i as int,
            ));
        }
        if total <= 255 {
            let d: u32 = src[i] as u32 - 48;
            total = total * 10 + d;
        }
        i += 1;
    }
    if total <= 255 {
        Some(total as u8)
    } else {
        None
    }
}

/// Passes over a comment that opens at `pos`: up to the end of the line.
fn comment(src: &Vec<char>, pos: usize) -> (next: usize)
    requires
        pos < src.len(),
        src@[pos as int] != '\n',
    ensures
        next == find_char(src@, pos + 1, '\n'),
        pos < next <= src.len(),
        line_at(src@, next as int) == line_at(src@, pos as int),
{
    let mut end: usize = pos + 1;
    proof {
        lemma_line_step(src@, pos as int);
    }
    while end < src.len() && !is_char('\n', char_at(src, end))
        invariant
            pos < end <= src.len(),
            find_char(src@, end as int, '\n') == find_char(src@, pos + 1, '\n'),
            line_at(src@, end as int) == line_at(src@, pos as int),
        decreases src.len() - end,
    {
        proof {
            lemma_line_step(src@, end as int);
        }
        end += 1;
    }
    end
}

/// Reads the character literal that opens at `pos`. Returns where the lexer
/// goes on, what it found, and the line there.
fn character(src: &Vec<char>, pos: usize, line: u32) -> (r: (usize, Found, u32))
    requires
        pos < src.len(),
        src@[pos as int] == '\'',
        line == line_at(src@, pos as int),
    ensures
        r.0 == scan_character(src@, pos as int).next,
        r.1@ == scan_character(src@, pos as int).found,
        r.2 == line_at(src@, r.0 as int),
        pos < r.0 <= src.len(),
{
    let mut literal = String::new();
    let mut end: usize = pos + 1;
    let mut line_here: u32 = line;
    proof {
        lemma_line_step(src@, pos as int);
    }
    while end < src.len() && !is_char('\'', char_at(src, end))
        invariant
            pos < end <= src.len(),
            find_char(src@, end as int, '\'') == find_char(src@, pos + 1, '\''),
            literal@ == src@.subrange(pos + 1, end as int),
            line_here == line_at(src@, end as int),
        decreases src.len() - end,
    {
        let c: char = src[end];
        push_char(&mut literal, c);
        proof {
            lemma_line_step(src@, end as int);
            assert(literal@ =~= src@.subrange(pos + 1, end + 1));
        }
        if c == '\n' && line_here < u32::MAX {
            line_here += 1;
        }
        end += 1;
    }
    if end >= src.len() {
        let mut msg = String::from_str("Character literal has no closing quote: '");
        msg.append(literal.as_str());
        return (end, Found::Error(CompilationError { msg, line }), line_here);
    }
    proof {
        lemma_line_step(src@, end as int);
    }
    let next: usize = end + 1;
    let found = if end - pos == 2 {
        let c: char = src[pos + 1];
        let code: u32 = c as u32;
        if code <= 255 {
            Found::Token(build_token(TokenKind::Number, literal, Some(code as u8), line))
        } else {
            let mut msg = String::from_str("Failed to convert character to u8: '");
            push_char(&mut msg, c);
            push_char(&mut msg, '\'');
            Found::Error(CompilationError { msg, line })
        }
    } else {
        let mut msg = String::from_str("Character literal should be exactly one character: '");
        msg.append(literal.as_str());
        push_char(&mut msg, '\'');
        Found::Error(CompilationError { msg, line })
    };
    (next, found, line_here)
}

/// Reads the numeral that begins at `pos`.
fn number(src: &Vec<char>, pos: usize, line: u32) -> (r: (usize, Found))
    requires
        pos < src.len(),
        is_digit_char(src@[pos as int]),
        line == line_at(src@, pos as int),
    ensures
        r.0 == scan_number(src@, pos as int).next,
        r.1@ == scan_number(src@, pos as int).found,
        line_at(src@, r.0 as int) == line,
        pos < r.0 <= src.len(),
{
    let mut literal = String::new();
    push_char(&mut literal, src[pos]);
    let mut end: usize = pos + 1;
    proof {
        lemma_line_step(src@, pos as int);
        assert(literal@ =~= src@.subrange(pos as int, pos + 1));
    }
    while is_digit(char_at(src, end))
        invariant
            pos < end <= src.len(),
            digits_end(src@, end as int) == digits_end(src@, pos + 1),
            literal@ == src@.subrange(pos as int, end as int),
            line_at(src@, end as int) == line,
            forall|k: int| pos <= k < end ==> is_digit_char(src@[k]),
        decreases src.len() - end,
    {
        push_char(&mut literal, src[end]);
        proof {
            lemma_line_step(src@, end as int);
            assert(literal@ =~= src@.subrange(pos as int, end + 1));
        }
        end += 1;
    }
    let found = match parse_byte(src, pos, end) {
        Some(value) => Found::Token(build_token(TokenKind::Number, literal, Some(value), line)),
        None => {
            let msg = String::from_str(
                "Failed to parse literal: number too large to fit in target type",
            );
            Found::Error(CompilationError { msg, line })
        },
    };
    (end, found)
}

/// Reads the keyword or identifier that begins at `pos`.
fn word(src: &Vec<char>, pos: usize, line: u32) -> (r: (usize, Found))
    requires
        pos < src.len(),
        is_letter_char(src@[pos as int]),
        line == line_at(src@, pos as int),
    ensures
        r.0 == scan_word(src@, pos as int).next,
        r.1@ == scan_word(src@, pos as int).found,
        line_at(src@, r.0 as int) == line,
        pos < r.0 <= src.len(),
{
    let mut identifier = String::new();
    push_char(&mut identifier, src[pos]);
    let mut end: usize = pos + 1;
    proof {
        lemma_line_step(src@, pos as int);
        assert(identifier@ =~= src@.subrange(pos as int, pos + 1));
    }
    while is_identifier(char_at(src, end))
        invariant
            pos < end <= src.len(),
            word_end(src@, end as int) == word_end(src@, pos + 1),
            identifier@ == src@.subrange(pos as int, end as int),
            line_at(src@, end as int) == line,
        decreases src.len() - end,
    {
        push_char(&mut identifier, src[end]);
        proof {
            lemma_line_step(src@, end as int);
            assert(identifier@ =~= src@.subrange(pos as int, end + 1));
        }
        end += 1;
    }
    let kind = match keyword(src, pos, end) {
        Some(kind) => kind,
        None => TokenKind::Identifier,
    };
    (end, Found::Token(build_token(kind, identifier, None, line)))
}

/// Reads what stands at position `pos`. Returns where the lexer goes on,
/// what it found, and the line there.
fn scan_at(src: &Vec<char>, pos: usize, line: u32) -> (r: (usize, Found, u32))
    requires
        pos < src.len(),
        line == line_at(src@, pos as int),
    ensures
        r.0 == scan(src@, pos as int).next,
        r.1@ == scan(src@, pos as int).found,
        r.2 == line_at(src@, r.0 as int),
        pos < r.0 <= src.len(),
{
    let c: char = src[pos];
    proof {
        lemma_line_step(src@, pos as int);
        if pos + 1 < src.len() {
            lemma_line_step(src@, pos + 1);
        }
    }
    if c == '=' && is_char('=', char_at(src, pos + 1)) {
        let token = build_token(TokenKind::EqualsEquals, String::from_str("=="), None, line);
        proof {
            reveal_strlit("==");
            assert(token@.lexeme =~= seq![c, '=']);
        }
        (pos + 2, Found::Token(token), line)
    } else if c == '>' && is_char('=', char_at(src, pos + 1)) {
        let token = build_token(TokenKind::GreaterEqual, String::from_str(">="), None, line);
        proof {
            reveal_strlit(">=");
            assert(token@.lexeme =~= seq![c, '=']);
        }
        (pos + 2, Found::Token(token), line)
    } else if c == '<' && is_char('=', char_at(src, pos + 1)) {
        let token = build_token(TokenKind::LessEqual, String::from_str("<="), None, line);
        proof {
            reveal_strlit("<=");
            assert(token@.lexeme =~= seq![c, '=']);
        }
        (pos + 2, Found::Token(token), line)
    } else if c == '/' && is_char('/', char_at(src, pos + 1)) {
        (comment(src, pos), Found::Nothing, line)
    } else if let Some(kind) = single_char_token(c) {
        let mut lexeme = String::new();
        push_char(&mut lexeme, c);
        assert(lexeme@ =~= seq![c]);
        (pos + 1, Found::Token(build_token(kind, lexeme, None, line)), line)
    } else if c == '\'' {
        character(src, pos, line)
    } else if '0' <= c && c <= '9' {
        let (next, found) = number(src, pos, line);
        (next, found, line)
    } else if ('a' <= c && c <= 'z') || ('A' <= c && c <= 'Z') {
        let (next, found) = word(src, pos, line);
        (next, found, line)
    } else if c == '\n' {
        (pos + 1, Found::Nothing, if line < u32::MAX { (line + 1) as u32 } else { line })
    } else if c == ' ' || c == '\t' || c == '\r' {
        (pos + 1, Found::Nothing, line)
    } else {
        let mut msg = String::from_str("Unexpected character: ");
        push_char(&mut msg, c);
        (pos + 1, Found::Error(CompilationError { msg, line }), line)
    }
}

/// Turns source text into its tokens and its diagnostics, each in source
/// order. Every token and diagnostic carries the line on which it begins.
pub fn lex(code: String) -> (result: (Vec<Token>, Vec<CompilationError>))
    ensures
        views(result.0@) == lex_spec(code@).tokens,
        views(result.1@) == lex_spec(code@).errors,
{
    let src = chars_of(code.as_str());
    let mut tokens: Vec<Token> = Vec::new();
    let mut errors: Vec<CompilationError> = Vec::new();
    let mut line: u32 = 1;
    let mut pos: usize = 0;
    proof {
        assert(src@.take(0) =~= Seq::<char>::empty());
        assert(views(tokens@) =~= Seq::<TokenView>::empty());
        assert(views(errors@) =~= Seq::<ErrorView>::empty());
    }
    while pos < src.len()
        invariant
            pos <= src.len(),
            src@ == code@,
            line == line_at(src@, pos as int),
            lex_from(src@, pos as int, Lexed { tokens: views(tokens@), errors: views(errors@) })
                == lex_spec(src@),
        decreases src.len() - pos,
    {
        let ghost so_far = Lexed { tokens: views(tokens@), errors: views(errors@) };
        let (next, found, line_next) = scan_at(&src, pos, line);
        match found {
            Found::Token(token) => {
                tokens.push(token);
                assert(views(tokens@) =~= so_far.tokens.push(token@));
            },
            Found::Error(error) => {
                errors.push(error);
                assert(views(errors@) =~= so_far.errors.push(error@));
            },
            Found::Nothing => {},
        }
        pos = next;
        line = line_next;
    }
    (tokens, errors)
}

} // verus!
