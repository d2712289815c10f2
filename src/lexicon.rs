//! The lexical rules, stated as spec functions over the characters of the
//! source. [`lex`] is the meaning of a whole scan.
use crate::error::ErrorView;
use crate::token::{keyword_or_id, TokenType, TokenView};
use vstd::prelude::*;

verus! {

pub open spec fn is_digit(c: char) -> bool {
    '0' <= c <= '9'
}

pub open spec fn is_alpha(c: char) -> bool {
    ('a' <= c <= 'z') || ('A' <= c <= 'Z')
}

pub open spec fn is_alnum(c: char) -> bool {
    is_digit(c) || is_alpha(c)
}

/// A character that may continue a number literal.
pub open spec fn is_number_char(c: char) -> bool {
    is_digit(c) || c == '.'
}

/// Whitespace other than a newline.
pub open spec fn is_blank(c: char) -> bool {
    c == ' ' || c == '\r' || c == '\t'
}

pub open spec fn newline_count(c: char) -> nat {
    if c == '\n' {
        1
    } else {
        0
    }
}

/// Whether `s` starts with `c`.
pub open spec fn starts_with(s: Seq<char>, c: char) -> bool {
    s.len() > 0 && s[0] == c
}

/// The length of the longest prefix of `s` made of number characters.
pub open spec fn number_run(s: Seq<char>) -> nat
    decreases s.len(),
{
    if s.len() > 0 && is_number_char(s[0]) {
        1 + number_run(s.drop_first())
    } else {
        0
    }
}

/// The length of the longest prefix of `s` made of letters and digits.
pub open spec fn alnum_run(s: Seq<char>) -> nat
    decreases s.len(),
{
    if s.len() > 0 && is_alnum(s[0]) {
        1 + alnum_run(s.drop_first())
    } else {
        0
    }
}

/// The number of dots in `s`.
pub open spec fn dot_count(s: Seq<char>) -> nat
    decreases s.len(),
{
    if s.len() == 0 {
        0
    } else {
        dot_count(s.drop_last()) + if s.last() == '.' {
            1nat
        } else {
            0nat
        }
    }
}

/// A number lexeme is accepted when it holds at most one dot.
pub open spec fn valid_number(text: Seq<char>) -> bool {
    dot_count(text) <= 1
}

/// What skipping the rest of a line consumes: the characters up to and
/// including the next newline, or all of `s` when it holds none; and how many
/// newlines that is.
pub struct Skipped {
    pub len: nat,
    pub lines: nat,
}

pub open spec fn skip_line(s: Seq<char>) -> Skipped
    decreases s.len(),
{
    if s.len() == 0 {
        Skipped { len: 0, lines: 0 }
    } else if s[0] == '\n' {
        Skipped { len: 1, lines: 1 }
    } else {
        let r = skip_line(s.drop_first());
        Skipped { len: r.len + 1, lines: r.lines }
    }
}

/// The body of a string literal, read after its opening quote: whether a
/// closing quote was found, the characters before it, how many characters
/// were consumed (closing quote included) and how many of them are newlines.
pub struct StrScan {
    pub closed: bool,
    pub value: Seq<char>,
    pub len: nat,
    pub lines: nat,
}

pub open spec fn scan_string(s: Seq<char>) -> StrScan
    decreases s.len(),
{
    if s.len() == 0 {
        StrScan { closed: false, value: seq![], len: 0, lines: 0 }
    } else if s[0] == '"' {
        StrScan { closed: true, value: seq![], len: 1, lines: 0 }
    } else {
        let r = scan_string(s.drop_first());
        StrScan {
            closed: r.closed,
            value: seq![s[0]] + r.value,
            len: r.len + 1,
            lines: r.lines + newline_count(s[0]),
        }
    }
}

pub open spec fn unexpected_character() -> Seq<char> {
    "Unexpected character"@
}

pub open spec fn unterminated_string() -> Seq<char> {
    "Unterminated string."@
}

pub open spec fn invalid_number() -> Seq<char> {
    "Invalid number"@
}

/// What one attempt to classify a token does.
pub enum Outcome {
    /// A token of this kind.
    Tok(TokenType<Seq<char>>),
    /// A line comment, skipped through the end of its line.
    Comment,
    /// Whitespace or a newline.
    Blank,
    /// A scan error with this message.
    Fail(Seq<char>),
}

/// One attempt: its outcome, how many characters it consumes and how many
/// newlines are among them.
pub struct Step {
    pub outcome: Outcome,
    pub len: nat,
    pub lines: nat,
}

pub open spec fn token_step(kind: TokenType<Seq<char>>, len: nat) -> Step {
    Step { outcome: Outcome::Tok(kind), len, lines: 0 }
}

/// A one- or two-character operator: the longer form when `=` follows.
pub open spec fn operator_step(
    rest: Seq<char>,
    single: TokenType<Seq<char>>,
    double: TokenType<Seq<char>>,
) -> Step {
    if starts_with(rest, '=') {
        token_step(double, 2)
    } else {
        token_step(single, 1)
    }
}

/// The first token, comment or blank of a non-empty `s`.
pub open spec fn step(s: Seq<char>) -> Step {
    let c = s[0];
    let rest = s.drop_first();
    if c == '(' {
        token_step(TokenType::LEFT_PAREN, 1)
    } else if c == ')' {
        token_step(TokenType::RIGHT_PAREN, 1)
    } else if c == '{' {
        token_step(TokenType::LEFT_BRACE, 1)
    } else if c == '}' {
        token_step(TokenType::RIGHT_BRACE, 1)
    } else if c == ',' {
        token_step(TokenType::COMMA, 1)
    } else if c == '.' {
        token_step(TokenType::DOT, 1)
    } else if c == '-' {
        token_step(TokenType::MINUS, 1)
    } else if c == '+' {
        token_step(TokenType::PLUS, 1)
    } else if c == ';' {
        token_step(TokenType::SEMICOLON, 1)
    } else if c == '*' {
        token_step(TokenType::STAR, 1)
    } else if c == '!' {
        operator_step(rest, TokenType::BANG, TokenType::BANG_EQUAL)
    } else if c == '=' {
        operator_step(rest, TokenType::EQUAL, TokenType::EQUAL_EQUAL)
    } else if c == '<' {
        operator_step(rest, TokenType::LESS, TokenType::LESS_EQUAL)
    } else if c == '>' {
        operator_step(rest, TokenType::GREATER, TokenType::GREATER_EQUAL)
    } else if c == '/' {
        if starts_with(rest, '/') {
            let k = skip_line(rest.drop_first());
            Step { outcome: Outcome::Comment, len: 2 + k.len, lines: k.lines }
        } else {
            token_step(TokenType::SLASH, 1)
        }
    } else if is_blank(c) {
        Step { outcome: Outcome::Blank, len: 1, lines: 0 }
    } else if c == '\n' {
        Step { outcome: Outcome::Blank, len: 1, lines: 1 }
    } else if c == '"' {
        let r = scan_string(rest);
        if r.closed {
            Step { outcome: Outcome::Tok(TokenType::STRING(r.value)), len: 1 + r.len, lines: r.lines }
        } else {
            Step { outcome: Outcome::Fail(unterminated_string()), len: 1 + r.len, lines: r.lines }
        }
    } else if is_digit(c) {
        let n = number_run(rest);
        let text = seq![c] + rest.take(n as int);
        if valid_number(text) {
            token_step(TokenType::NUMBER(text), 1 + n)
        } else {
            Step { outcome: Outcome::Fail(invalid_number()), len: 1 + n, lines: 0 }
        }
    } else if is_alpha(c) {
        let n = alnum_run(rest);
        token_step(keyword_or_id(seq![c] + rest.take(n as int)), 1 + n)
    } else {
        Step { outcome: Outcome::Fail(unexpected_character()), len: 1, lines: 0 }
    }
}

/// The result of scanning: the tokens produced, the error that stopped the
/// scan if any, and the line in effect at the end.
pub struct Lexed {
    pub tokens: Seq<TokenView>,
    pub error: Option<ErrorView>,
    pub line: nat,
}

/// Scanning `s` from line `line`: tokens are produced left to right until the
/// input is exhausted or the first error, which ends the scan.
pub open spec fn lex(s: Seq<char>, line: nat) -> Lexed
    decreases s.len(),
    via lex_decreases
{
    if s.len() == 0 {
        Lexed { tokens: seq![], error: None, line }
    } else {
        let st = step(s);
        let next = line + st.lines;
        match st.outcome {
            Outcome::Fail(message) => Lexed {
                tokens: seq![],
                error: Some(ErrorView { line: next, message }),
                line: next,
            },
            Outcome::Tok(kind) => {
                let r = lex(s.skip(st.len as int), next);
                Lexed { tokens: seq![TokenView { kind, line }] + r.tokens, error: r.error, line: r.line }
            },
            _ => lex(s.skip(st.len as int), next),
        }
    }
}

#[via_fn]
proof fn lex_decreases(s: Seq<char>, line: nat) {
    if s.len() > 0 {
        lemma_step_bounds(s);
    }
}

/// The end-of-input token that closes every scan.
pub open spec fn eof_token() -> TokenView {
    TokenView { kind: TokenType::EOF, line: 0 }
}

pub proof fn lemma_number_run_bound(s: Seq<char>)
    ensures
        number_run(s) <= s.len(),
    decreases s.len(),
{
    if s.len() > 0 && is_number_char(s[0]) {
        lemma_number_run_bound(s.drop_first());
    }
}

pub proof fn lemma_alnum_run_bound(s: Seq<char>)
    ensures
        alnum_run(s) <= s.len(),
    decreases s.len(),
{
    if s.len() > 0 && is_alnum(s[0]) {
        lemma_alnum_run_bound(s.drop_first());
    }
}

pub proof fn lemma_skip_line_bound(s: Seq<char>)
    ensures
        skip_line(s).lines <= skip_line(s).len <= s.len(),
    decreases s.len(),
{
    if s.len() > 0 && s[0] != '\n' {
        lemma_skip_line_bound(s.drop_first());
    }
}

pub proof fn lemma_scan_string_bound(s: Seq<char>)
    ensures
        scan_string(s).lines <= scan_string(s).len <= s.len(),
    decreases s.len(),
{
    if s.len() > 0 && s[0] != '"' {
        lemma_scan_string_bound(s.drop_first());
    }
}

/// One step consumes at least one character, no more than there are, and
/// counts no more newlines than it consumes.
pub proof fn lemma_step_bounds(s: Seq<char>)
    requires
        s.len() > 0,
    ensures
        1 <= step(s).len <= s.len(),
        step(s).lines <= step(s).len,
{
    let rest = s.drop_first();
    lemma_number_run_bound(rest);
    lemma_alnum_run_bound(rest);
    lemma_scan_string_bound(rest);
    if rest.len() > 0 {
        lemma_skip_line_bound(rest.drop_first());
    }
}

} // verus!
