//! The executable scanner, proved to agree with [`crate::lexicon::lex`].
use crate::cursor::Cursor;
use crate::error::{error_view, Error};
use crate::lexicon::{
    alnum_run, dot_count, eof_token, invalid_number, is_alnum, is_alpha, is_digit, lex,
    lemma_alnum_run_bound, lemma_number_run_bound, lemma_scan_string_bound,
    lemma_step_bounds, number_run, scan_string, skip_line, starts_with, step,
    unterminated_string, valid_number, Outcome, Skipped, StrScan,
};
use crate::token::{keyword_or_id, tokens_view, Token, TokenType};
use vstd::prelude::*;

verus! {

/// Relies on `String`'s `FromIterator<char>`: the string holds the given
/// characters in order.
#[verifier::external_body]
fn string_from_chars(chars: &Vec<char>) -> (r: String)
    ensures
        r@ == chars@,
{
    chars.iter().collect()
}

/// Consumes the next character when it is `expected`.
pub fn matches(chars: &mut Cursor, expected: char) -> (r: bool)
    ensures
        r == starts_with(old(chars)@, expected),
        final(chars)@ == if r {
            old(chars)@.drop_first()
        } else {
            old(chars)@
        },
{
    if chars.peek() == Some(expected) {
        chars.advance();
        return true;
    }
    false
}

/// Discards the rest of the current line, its newline included, and counts
/// that newline.
pub fn consume_line(chars: &mut Cursor, line_number: &mut usize)
    requires
        *old(line_number) + old(chars)@.len() <= usize::MAX,
    ensures
        final(chars)@ == old(chars)@.skip(skip_line(old(chars)@).len as int),
        *final(line_number) == *old(line_number) + skip_line(old(chars)@).lines,
{
    let ghost start = chars@;
    let ghost line0 = *line_number;
    loop
        invariant_except_break
            *line_number == line0,
            skip_line(start) == (Skipped {
                len: (start.len() - chars@.len()) as nat + skip_line(chars@).len,
                lines: skip_line(chars@).lines,
            }),
        invariant
            line0 + start.len() <= usize::MAX,
            chars@.len() <= start.len(),
            chars@ == start.skip(start.len() - chars@.len()),
        ensures
            chars@ == start.skip(skip_line(start).len as int),
            *line_number == line0 + skip_line(start).lines,
        decreases chars@.len(),
    {
        match chars.advance() {
            None => {
                break;
            },
            Some(c) => {
                assert(chars@ =~= start.skip(start.len() - chars@.len()));
                if c == '\n' {
                    *line_number += 1;
                    break;
                }
            },
        }
    }
}


/// Reads a string literal whose opening quote is already consumed, through
/// its closing quote. Newlines inside it are kept in the value and counted.
pub fn string(chars: &mut Cursor, line_number: &mut usize) -> (r: Result<String, Error>)
    requires
        *old(line_number) + old(chars)@.len() <= usize::MAX,
    ensures
        ({
            let sc = scan_string(old(chars)@);
            &&& final(chars)@ == old(chars)@.skip(sc.len as int)
            &&& *final(line_number) == *old(line_number) + sc.lines
            &&& match r {
                Ok(value) => sc.closed && value@ == sc.value,
                Err(e) => !sc.closed && e.line == *final(line_number) && e.message@
                    == unterminated_string(),
            }
        }),
{
    let ghost start = chars@;
    let ghost line0 = *line_number;
    let mut value: Vec<char> = Vec::new();
    let mut closed = false;
    loop
        invariant_except_break
            !closed,
            scan_string(start) == (StrScan {
                closed: scan_string(chars@).closed,
                value: value@ + scan_string(chars@).value,
                len: (start.len() - chars@.len()) as nat + scan_string(chars@).len,
                lines: (*line_number - line0) as nat + scan_string(chars@).lines,
            }),
        invariant
            line0 + start.len() <= usize::MAX,
            line0 <= *line_number,
            *line_number - line0 <= start.len() - chars@.len(),
            chars@.len() <= start.len(),
            chars@ == start.skip(start.len() - chars@.len()),
        ensures
            chars@ == start.skip(scan_string(start).len as int),
            *line_number == line0 + scan_string(start).lines,
            closed == scan_string(start).closed,
            closed ==> value@ == scan_string(start).value,
        decreases chars@.len(),
    {
        let ghost before = value@;
        match chars.advance() {
            None => {
                assert(value@ + seq![] =~= value@);
                break;
            },
            Some(c) => {
                assert(chars@ =~= start.skip(start.len() - chars@.len()));
                if c == '"' {
                    assert(value@ + seq![] =~= value@);
                    closed = true;
                    break;
                }
                if c == '\n' {
                    *line_number += 1;
                }
                value.push(c);
                assert(before + (seq![c] + scan_string(chars@).value) =~= value@ + scan_string(
                    chars@,
                ).value);
            },
        }
    }
    if closed {
        Ok(string_from_chars(&value))
    } else {
        Err(Error::error(*line_number, "Unterminated string.".to_owned()))
    }
}

fn digit(c: char) -> (r: bool)
    ensures
        r == is_digit(c),
{
    '0' <= c && c <= '9'
}

fn alpha(c: char) -> (r: bool)
    ensures
        r == is_alpha(c),
{
    ('a' <= c && c <= 'z') || ('A' <= c && c <= 'Z')
}

fn alnum(c: char) -> (r: bool)
    ensures
        r == is_alnum(c),
{
    digit(c) || alpha(c)
}

/// Reads the rest of a number literal whose first digit, `beginning`, is
/// already consumed: the longest run of digits and dots that follows. The
/// lexeme is accepted when it holds at most one dot.
pub fn number(chars: &mut Cursor, beginning: char, line_number: usize) -> (r: Result<String, Error>)
    ensures
        ({
            let n = number_run(old(chars)@);
            let text = seq![beginning] + old(chars)@.take(n as int);
            &&& final(chars)@ == old(chars)@.skip(n as int)
            &&& match r {
                Ok(lexeme) => valid_number(text) && lexeme@ == text,
                Err(e) => !valid_number(text) && e.line == line_number && e.message@
                    == invalid_number(),
            }
        }),
{
    let ghost start = chars@;
    let mut text: Vec<char> = Vec::new();
    text.push(beginning);
    let mut seen_dot = beginning == '.';
    let mut valid = true;
    assert(text@.drop_last() =~= seq![]);
    assert(dot_count(text@.drop_last()) == 0);
    assert(start.take(0) =~= seq![]);
    loop
        invariant_except_break
            number_run(start) == (start.len() - chars@.len()) as nat + number_run(chars@),
        invariant
            chars@.len() <= start.len(),
            chars@ == start.skip(start.len() - chars@.len()),
            text@ == seq![beginning] + start.take(start.len() - chars@.len()),
            seen_dot == (dot_count(text@) >= 1),
            valid == (dot_count(text@) <= 1),
        ensures
            number_run(start) == start.len() - chars@.len(),
        decreases chars@.len(),
    {
        match chars.peek() {
            Some(c) => {
                if !(digit(c) || c == '.') {
                    break;
                }
                let ghost k = start.len() - chars@.len();
                chars.advance();
                if c == '.' {
                    if seen_dot {
                        valid = false;
                    }
                    seen_dot = true;
                }
                text.push(c);
                assert(text@.drop_last() =~= seq![beginning] + start.take(k));
                assert(chars@ =~= start.skip(start.len() - chars@.len()));
                assert(text@ =~= seq![beginning] + start.take(start.len() - chars@.len()));
            },
            None => {
                break;
            },
        }
    }
    if valid {
        Ok(string_from_chars(&text))
    } else {
        Err(Error::error(line_number, "Invalid number".to_owned()))
    }
}

/// Reads the rest of a word whose first letter, `first`, is already consumed:
/// the longest run of letters and digits that follows. The word is a reserved
/// word's token or an identifier.
fn identifier(chars: &mut Cursor, line_number: usize, first: char) -> (r: Token)
    ensures
        ({
            let n = alnum_run(old(chars)@);
            &&& final(chars)@ == old(chars)@.skip(n as int)
            &&& r.token_type@ == keyword_or_id(seq![first] + old(chars)@.take(n as int))
            &&& r.line == line_number
        }),
{
    let ghost start = chars@;
    let mut text: Vec<char> = Vec::new();
    text.push(first);
    assert(start.take(0) =~= seq![]);
    loop
        invariant_except_break
            alnum_run(start) == (start.len() - chars@.len()) as nat + alnum_run(chars@),
        invariant
            chars@.len() <= start.len(),
            chars@ == start.skip(start.len() - chars@.len()),
            text@ == seq![first] + start.take(start.len() - chars@.len()),
        ensures
            alnum_run(start) == start.len() - chars@.len(),
        decreases chars@.len(),
    {
        match chars.peek() {
            Some(c) => {
                if !alnum(c) {
                    break;
                }
                chars.advance();
                text.push(c);
                assert(chars@ =~= start.skip(start.len() - chars@.len()));
                assert(text@ =~= seq![first] + start.take(start.len() - chars@.len()));
            },
            None => {
                break;
            },
        }
    }
    let word = string_from_chars(&text);
    Token::new(TokenType::string_to_keyword_or_id(word.as_str()), line_number)
}

/// What one attempt at a token yields, short of an error.
enum ScanResult {
    Tok(Token),
    /// A `//` marker: the rest of its line is still to be skipped.
    Comment,
    Whitespace,
}

/// Classifies one token starting at the next character.
fn scan_token(chars: &mut Cursor, line_number: &mut usize) -> (r: Result<ScanResult, Error>)
    requires
        old(chars)@.len() > 0,
        *old(line_number) + old(chars)@.len() <= usize::MAX,
    ensures
        ({
            let st = step(old(chars)@);
            match r {
                Ok(ScanResult::Tok(t)) => {
                    &&& st.outcome == Outcome::Tok(t.token_type@)
                    &&& t.line == *old(line_number)
                    &&& final(chars)@ == old(chars)@.skip(st.len as int)
                    &&& *final(line_number) == *old(line_number) + st.lines
                },
                Ok(ScanResult::Comment) => {
                    &&& st.outcome == Outcome::Comment
                    &&& final(chars)@ == old(chars)@.skip(2)
                    &&& *final(line_number) == *old(line_number)
                },
                Ok(ScanResult::Whitespace) => {
                    &&& st.outcome == Outcome::Blank
                    &&& final(chars)@ == old(chars)@.skip(st.len as int)
                    &&& *final(line_number) == *old(line_number) + st.lines
                },
                Err(e) => {
                    &&& st.outcome == Outcome::Fail(e.message@)
                    &&& e.line == *old(line_number) + st.lines
                },
            }
        }),
{
    let ghost start = chars@;
    let line = *line_number;
    let c: char = chars.advance().unwrap();
    assert(chars@ =~= start.skip(1));
    let kind: TokenType<String> = if c == '(' {
        TokenType::LEFT_PAREN
    } else if c == ')' {
        TokenType::RIGHT_PAREN
    } else if c == '{' {
        TokenType::LEFT_BRACE
    } else if c == '}' {
        TokenType::RIGHT_BRACE
    } else if c == ',' {
        TokenType::COMMA
    } else if c == '.' {
        TokenType::DOT
    } else if c == '-' {
        TokenType::MINUS
    } else if c == '+' {
        TokenType::PLUS
    } else if c == ';' {
        TokenType::SEMICOLON
    } else if c == '*' {
        TokenType::STAR
    } else if c == '!' {
        if matches(chars, '=') {
            TokenType::BANG_EQUAL
        } else {
            TokenType::BANG
        }
    } else if c == '=' {
        if matches(chars, '=') {
            TokenType::EQUAL_EQUAL
        } else {
            TokenType::EQUAL
        }
    } else if c == '<' {
        if matches(chars, '=') {
            TokenType::LESS_EQUAL
        } else {
            TokenType::LESS
        }
    } else if c == '>' {
        if matches(chars, '=') {
            TokenType::GREATER_EQUAL
        } else {
            TokenType::GREATER
        }
    } else if c == '/' {
        if matches(chars, '/') {
            assert(chars@ =~= start.skip(2));
            return Ok(ScanResult::Comment);
        } else {
            TokenType::SLASH
        }
    } else if c == ' ' || c == '\r' || c == '\t' {
        return Ok(ScanResult::Whitespace);
    } else if c == '\n' {
        *line_number += 1;
        return Ok(ScanResult::Whitespace);
    } else if c == '"' {
        let ghost body = chars@;
        proof {
            lemma_scan_string_bound(body);
        }
        let value = string(chars, line_number)?;
        assert(chars@ =~= start.skip(1 + scan_string(body).len as int));
        TokenType::STRING(value)
    } else if digit(c) {
        let ghost body = chars@;
        proof {
            lemma_number_run_bound(body);
        }
        let lexeme = number(chars, c, line)?;
        assert(chars@ =~= start.skip(1 + number_run(body) as int));
        TokenType::NUMBER(lexeme)
    } else if alpha(c) {
        let ghost body = chars@;
        proof {
            lemma_alnum_run_bound(body);
        }
        let token = identifier(chars, line, c);
        assert(chars@ =~= start.skip(1 + alnum_run(body) as int));
        return Ok(ScanResult::Tok(token));
    } else {
        return Err(Error::error(line, "Unexpected character".to_owned()));
    };
    assert(chars@ =~= start.skip(step(start).len as int));
    Ok(ScanResult::Tok(Token::new(kind, line)))
}

/// Scans `source` into tokens, stopping at the first error. The tokens read
/// before an error are kept, and the end-of-input token, on line 0, always
/// closes the sequence.
pub fn scan_tokens(source: String) -> (r: (Vec<Token>, Option<Error>))
    requires
        source@.len() < usize::MAX,
    ensures
        tokens_view(r.0@) == lex(source@, 1).tokens.push(eof_token()),
        error_view(r.1) == lex(source@, 1).error,
{
    let mut tokens: Vec<Token> = Vec::new();
    let mut chars = Cursor::new(source.as_str());
    let mut line_number: usize = 1;
    let mut error: Option<Error> = None;
    assert(tokens_view(tokens@) + lex(source@, 1).tokens =~= lex(source@, 1).tokens);
    loop
        invariant_except_break
            error.is_none(),
            lex(source@, 1).tokens == tokens_view(tokens@) + lex(chars@, line_number as nat).tokens,
            lex(source@, 1).error == lex(chars@, line_number as nat).error,
            line_number + chars@.len() <= usize::MAX,
        ensures
            tokens_view(tokens@) == lex(source@, 1).tokens,
            error_view(error) == lex(source@, 1).error,
        decreases chars@.len(),
    {
        if chars.peek().is_none() {
            assert(tokens_view(tokens@) + seq![] =~= tokens_view(tokens@));
            break;
        }
        let ghost before = chars@;
        let ghost tokens_before = tokens_view(tokens@);
        proof {
            lemma_step_bounds(before);
        }
        match scan_token(&mut chars, &mut line_number) {
            Ok(ScanResult::Tok(token)) => {
                tokens.push(token);
                assert(tokens_view(tokens@) =~= tokens_before.push(token@));
                assert(tokens_before + (seq![token@] + lex(chars@, line_number as nat).tokens)
                    =~= tokens_view(tokens@) + lex(chars@, line_number as nat).tokens);
            },
            Ok(ScanResult::Comment) => {
                let ghost marked = chars@;
                consume_line(&mut chars, &mut line_number);
                assert(marked =~= before.drop_first().drop_first());
                assert(chars@ =~= before.skip(step(before).len as int));
            },
            Ok(ScanResult::Whitespace) => {},
            Err(err) => {
                assert(tokens_view(tokens@) + seq![] =~= tokens_view(tokens@));
                error = Some(err);
                break;
            },
        }
    }
    let ghost found = tokens_view(tokens@);
    tokens.push(Token::new(TokenType::EOF, 0));
    assert(tokens_view(tokens@) =~= found.push(eof_token()));
    (tokens, error)
}

} // verus!
