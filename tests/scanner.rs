use rlox::cursor::Cursor;
use rlox::error::Error;
use rlox::scanner::{consume_line, number, scan_tokens, string};
use rlox::token::{Token, TokenType};

fn tok(kind: TokenType<String>, line: usize) -> Token {
    Token::new(kind, line)
}

fn eof() -> Token {
    tok(TokenType::EOF, 0)
}

fn ident(s: &str) -> TokenType<String> {
    TokenType::IDENTIFIER(s.to_string())
}

fn num(s: &str) -> TokenType<String> {
    TokenType::NUMBER(s.to_string())
}

fn scan(s: &str) -> (Vec<Token>, Option<Error>) {
    scan_tokens(s.to_string())
}

#[test]
fn empty_input_gives_only_end_of_input() {
    let (tokens, error) = scan("");
    assert_eq!(tokens, vec![eof()]);
    assert!(error.is_none());
}

#[test]
fn blanks_and_comments_give_only_end_of_input() {
    for input in [" \t\r\n", "// only a comment", "  // one\n\n// two\n\t", "//\n//"] {
        let (tokens, error) = scan(input);
        assert_eq!(tokens, vec![eof()], "input {:?}", input);
        assert!(error.is_none());
    }
}

#[test]
fn tokens_and_lines_match_counting_by_hand() {
    let (tokens, error) = scan("var x = \"a\nb\";\n// note\nprint x;");
    assert!(error.is_none());
    assert_eq!(
        tokens,
        vec![
            tok(TokenType::VAR, 1),
            tok(ident("x"), 1),
            tok(TokenType::EQUAL, 1),
            tok(TokenType::STRING("a\nb".to_string()), 1),
            tok(TokenType::SEMICOLON, 2),
            tok(TokenType::PRINT, 4),
            tok(ident("x"), 4),
            tok(TokenType::SEMICOLON, 4),
            eof(),
        ]
    );
}

#[test]
fn bang_equal_is_one_token() {
    let (tokens, _) = scan("!=");
    assert_eq!(tokens, vec![tok(TokenType::BANG_EQUAL, 1), eof()]);
}

#[test]
fn lone_less_is_less() {
    let (tokens, _) = scan("<");
    assert_eq!(tokens, vec![tok(TokenType::LESS, 1), eof()]);
}

#[test]
fn all_operators() {
    let (tokens, error) = scan("(){},.-+;*! != = == < <= > >= /");
    assert!(error.is_none());
    let kinds: Vec<TokenType<String>> = tokens.into_iter().map(|t| t.token_type).collect();
    assert_eq!(
        kinds,
        vec![
            TokenType::LEFT_PAREN,
            TokenType::RIGHT_PAREN,
            TokenType::LEFT_BRACE,
            TokenType::RIGHT_BRACE,
            TokenType::COMMA,
            TokenType::DOT,
            TokenType::MINUS,
            TokenType::PLUS,
            TokenType::SEMICOLON,
            TokenType::STAR,
            TokenType::BANG,
            TokenType::BANG_EQUAL,
            TokenType::EQUAL,
            TokenType::EQUAL_EQUAL,
            TokenType::LESS,
            TokenType::LESS_EQUAL,
            TokenType::GREATER,
            TokenType::GREATER_EQUAL,
            TokenType::SLASH,
            TokenType::EOF,
        ]
    );
}

#[test]
fn comment_is_stripped() {
    let (tokens, error) = scan("1 // comment\n2");
    assert!(error.is_none());
    assert_eq!(tokens, vec![tok(num("1"), 1), tok(num("2"), 2), eof()]);
}

#[test]
fn string_with_newline() {
    let (tokens, error) = scan("\"a\nb\"");
    assert!(error.is_none());
    assert_eq!(tokens, vec![tok(TokenType::STRING("a\nb".to_string()), 1), eof()]);
    let (tokens, _) = scan("\"a\nb\" x");
    assert_eq!(
        tokens,
        vec![tok(TokenType::STRING("a\nb".to_string()), 1), tok(ident("x"), 2), eof()]
    );
}

#[test]
fn empty_string_literal() {
    let (tokens, _) = scan("\"\"");
    assert_eq!(tokens, vec![tok(TokenType::STRING(String::new()), 1), eof()]);
}

#[test]
fn unterminated_string() {
    let (tokens, error) = scan("\"abc");
    assert_eq!(tokens, vec![eof()]);
    let error = error.unwrap();
    assert_eq!(error.line, 1);
    assert_eq!(error.message, "Unterminated string.");
}

#[test]
fn unterminated_string_reports_line_at_end() {
    let (tokens, error) = scan("x \"a\nb\n");
    assert_eq!(tokens, vec![tok(ident("x"), 1), eof()]);
    assert_eq!(error.unwrap().line, 3);
}

#[test]
fn classy_is_an_identifier() {
    let (tokens, _) = scan("classy");
    assert_eq!(tokens, vec![tok(ident("classy"), 1), eof()]);
}

#[test]
fn class_is_a_keyword() {
    let (tokens, _) = scan("class");
    assert_eq!(tokens, vec![tok(TokenType::CLASS, 1), eof()]);
}

#[test]
fn every_reserved_word() {
    let words = "and class else false fun for if nil or print return super this true var while";
    let (tokens, error) = scan(words);
    assert!(error.is_none());
    let kinds: Vec<TokenType<String>> = tokens.into_iter().map(|t| t.token_type).collect();
    assert_eq!(
        kinds,
        vec![
            TokenType::AND,
            TokenType::CLASS,
            TokenType::ELSE,
            TokenType::FALSE,
            TokenType::FUN,
            TokenType::FOR,
            TokenType::IF,
            TokenType::NIL,
            TokenType::OR,
            TokenType::PRINT,
            TokenType::RETURN,
            TokenType::SUPER,
            TokenType::THIS,
            TokenType::TRUE,
            TokenType::VAR,
            TokenType::WHILE,
            TokenType::EOF,
        ]
    );
}

#[test]
fn keyword_lookup() {
    assert_eq!(TokenType::string_to_keyword_or_id("while"), TokenType::WHILE);
    assert_eq!(TokenType::string_to_keyword_or_id("nil"), TokenType::NIL);
    assert_eq!(TokenType::string_to_keyword_or_id("While"), ident("While"));
    assert_eq!(TokenType::string_to_keyword_or_id("an"), ident("an"));
}

#[test]
fn identifiers_with_digits() {
    let (tokens, _) = scan("a1b2 x9");
    assert_eq!(tokens, vec![tok(ident("a1b2"), 1), tok(ident("x9"), 1), eof()]);
}

#[test]
fn concatenation_with_newline() {
    let a = "var a = 1;\n// c";
    let b = "print \"x\ny\" a;";
    let (ta, _) = scan(a);
    let (tb, _) = scan(b);
    let (tab, error) = scan(&format!("{}\n{}", a, b));
    assert!(error.is_none());
    let mut expected: Vec<Token> = ta[..ta.len() - 1].to_vec();
    for t in &tb[..tb.len() - 1] {
        expected.push(tok(t.token_type.clone(), t.line + 2));
    }
    expected.push(eof());
    assert_eq!(tab, expected);
}

#[test]
fn unexpected_character() {
    let (tokens, error) = scan("@");
    assert_eq!(tokens, vec![eof()]);
    let error = error.unwrap();
    assert_eq!(error.line, 1);
    assert_eq!(error.message, "Unexpected character");
}

#[test]
fn scan_stops_at_first_error_and_keeps_earlier_tokens() {
    let (tokens, error) = scan("(\n@ ) #");
    assert_eq!(tokens, vec![tok(TokenType::LEFT_PAREN, 1), eof()]);
    assert_eq!(error.unwrap().line, 2);
}

#[test]
fn non_ascii_letter_is_unexpected() {
    let (tokens, error) = scan("é");
    assert_eq!(tokens, vec![eof()]);
    assert_eq!(error.unwrap().message, "Unexpected character");
}

#[test]
fn numbers() {
    let (tokens, error) = scan("12.5 7 3. 1+2");
    assert!(error.is_none());
    assert_eq!(
        tokens,
        vec![
            tok(num("12.5"), 1),
            tok(num("7"), 1),
            tok(num("3."), 1),
            tok(num("1"), 1),
            tok(TokenType::PLUS, 1),
            tok(num("2"), 1),
            eof(),
        ]
    );
}

#[test]
fn number_with_two_dots_is_invalid() {
    let (tokens, error) = scan("x 1.2.3");
    assert_eq!(tokens, vec![tok(ident("x"), 1), eof()]);
    let error = error.unwrap();
    assert_eq!(error.line, 1);
    assert_eq!(error.message, "Invalid number");
}

#[test]
fn error_constructor() {
    let e = Error::error(7, "boom".to_string());
    assert_eq!(e.line, 7);
    assert_eq!(e.message, "boom");
}

#[test]
fn token_constructor() {
    let t = Token::new(ident("v"), 3);
    assert_eq!(t.token_type, ident("v"));
    assert_eq!(t.line, 3);
}

#[test]
fn cursor_peek_and_advance() {
    let mut c = Cursor::new("ab");
    assert_eq!(c.peek(), Some('a'));
    assert_eq!(c.advance(), Some('a'));
    assert_eq!(c.advance(), Some('b'));
    assert_eq!(c.peek(), None);
    assert_eq!(c.advance(), None);
}

#[test]
fn matches_consumes_only_on_match() {
    let mut c = Cursor::new("=x");
    assert!(!rlox::scanner::matches(&mut c, 'x'));
    assert!(rlox::scanner::matches(&mut c, '='));
    assert_eq!(c.peek(), Some('x'));
}

#[test]
fn consume_line_stops_after_newline() {
    let mut c = Cursor::new("abc\nd");
    let mut line: usize = 4;
    consume_line(&mut c, &mut line);
    assert_eq!(line, 5);
    assert_eq!(c.peek(), Some('d'));
    let mut c = Cursor::new("abc");
    consume_line(&mut c, &mut line);
    assert_eq!(line, 5);
    assert_eq!(c.peek(), None);
}

#[test]
fn string_reads_through_closing_quote() {
    let mut c = Cursor::new("hi\nthere\" rest");
    let mut line: usize = 1;
    let value = string(&mut c, &mut line).unwrap();
    assert_eq!(value, "hi\nthere");
    assert_eq!(line, 2);
    assert_eq!(c.peek(), Some(' '));
}

#[test]
fn number_reads_digits_and_dots() {
    let mut c = Cursor::new("4.5;");
    assert_eq!(number(&mut c, '1', 1).unwrap(), "14.5");
    assert_eq!(c.peek(), Some(';'));
}
