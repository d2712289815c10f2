use crate::cursor::same_text;
use vstd::prelude::*;

verus! {

/// The kind of a token. The text carried by identifiers, strings and numbers
/// is a `String` in executable code and a `Seq<char>` in the model.
///
/// A number carries its lexeme, the digits and dot as written; turning it
/// into a numeric value is left to the consumer.
#[allow(non_camel_case_types)]
#[derive(Debug, Clone, PartialEq)]
pub enum TokenType<T> {
    // Single-character tokens.
    LEFT_PAREN,
    RIGHT_PAREN,
    LEFT_BRACE,
    RIGHT_BRACE,
    COMMA,
    DOT,
    MINUS,
    PLUS,
    SEMICOLON,
    SLASH,
    STAR,
    // One or two character tokens.
    BANG,
    BANG_EQUAL,
    EQUAL,
    EQUAL_EQUAL,
    GREATER,
    GREATER_EQUAL,
    LESS,
    LESS_EQUAL,
    // Literals.
    IDENTIFIER(T),
    STRING(T),
    NUMBER(T),
    // Keywords.
    AND,
    CLASS,
    ELSE,
    FALSE,
    FUN,
    FOR,
    IF,
    NIL,
    OR,
    PRINT,
    RETURN,
    SUPER,
    THIS,
    TRUE,
    VAR,
    WHILE,
    EOF,
}

impl View for TokenType<String> {
    type V = TokenType<Seq<char>>;

    open spec fn view(&self) -> TokenType<Seq<char>> {
        match self {
            TokenType::IDENTIFIER(s) => TokenType::IDENTIFIER(s@),
            TokenType::STRING(s) => TokenType::STRING(s@),
            TokenType::NUMBER(s) => TokenType::NUMBER(s@),
            TokenType::LEFT_PAREN => TokenType::LEFT_PAREN,
            TokenType::RIGHT_PAREN => TokenType::RIGHT_PAREN,
            TokenType::LEFT_BRACE => TokenType::LEFT_BRACE,
            TokenType::RIGHT_BRACE => TokenType::RIGHT_BRACE,
            TokenType::COMMA => TokenType::COMMA,
            TokenType::DOT => TokenType::DOT,
            TokenType::MINUS => TokenType::MINUS,
            TokenType::PLUS => TokenType::PLUS,
            TokenType::SEMICOLON => TokenType::SEMICOLON,
            TokenType::SLASH => TokenType::SLASH,
            TokenType::STAR => TokenType::STAR,
            TokenType::BANG => TokenType::BANG,
            TokenType::BANG_EQUAL => TokenType::BANG_EQUAL,
            TokenType::EQUAL => TokenType::EQUAL,
            TokenType::EQUAL_EQUAL => TokenType::EQUAL_EQUAL,
            TokenType::GREATER => TokenType::GREATER,
            TokenType::GREATER_EQUAL => TokenType::GREATER_EQUAL,
            TokenType::LESS => TokenType::LESS,
            TokenType::LESS_EQUAL => TokenType::LESS_EQUAL,
            TokenType::AND => TokenType::AND,
            TokenType::CLASS => TokenType::CLASS,
            TokenType::ELSE => TokenType::ELSE,
            TokenType::FALSE => TokenType::FALSE,
            TokenType::FUN => TokenType::FUN,
            TokenType::FOR => TokenType::FOR,
            TokenType::IF => TokenType::IF,
            TokenType::NIL => TokenType::NIL,
            TokenType::OR => TokenType::OR,
            TokenType::PRINT => TokenType::PRINT,
            TokenType::RETURN => TokenType::RETURN,
            TokenType::SUPER => TokenType::SUPER,
            TokenType::THIS => TokenType::THIS,
            TokenType::TRUE => TokenType::TRUE,
            TokenType::VAR => TokenType::VAR,
            TokenType::WHILE => TokenType::WHILE,
            TokenType::EOF => TokenType::EOF,
        }
    }
}

/// The kind that a word of letters and digits scans to: a reserved word or
/// an identifier carrying the word.
pub open spec fn keyword_or_id(text: Seq<char>) -> TokenType<Seq<char>> {
    if text == "and"@ {
        TokenType::AND
    } else if text == "class"@ {
        TokenType::CLASS
    } else if text == "else"@ {
        TokenType::ELSE
    } else if text == "false"@ {
        TokenType::FALSE
    } else if text == "fun"@ {
        TokenType::FUN
    } else if text == "for"@ {
        TokenType::FOR
    } else if text == "if"@ {
        TokenType::IF
    } else if text == "nil"@ {
        TokenType::NIL
    } else if text == "or"@ {
        TokenType::OR
    } else if text == "print"@ {
        TokenType::PRINT
    } else if text == "return"@ {
        TokenType::RETURN
    } else if text == "super"@ {
        TokenType::SUPER
    } else if text == "this"@ {
        TokenType::THIS
    } else if text == "true"@ {
        TokenType::TRUE
    } else if text == "var"@ {
        TokenType::VAR
    } else if text == "while"@ {
        TokenType::WHILE
    } else {
        TokenType::IDENTIFIER(text)
    }
}

impl TokenType<String> {
    pub fn string_to_keyword_or_id(input: &str) -> (r: Self)
        ensures
            r@ == keyword_or_id(input@),
    {
        if same_text(input, "and") {
            Self::AND
        } else if same_text(input, "class") {
            Self::CLASS
        } else if same_text(input, "else") {
            Self::ELSE
        } else if same_text(input, "false") {
            Self::FALSE
        } else if same_text(input, "fun") {
            Self::FUN
        } else if same_text(input, "for") {
            Self::FOR
        } else if same_text(input, "if") {
            Self::IF
        } else if same_text(input, "nil") {
            Self::NIL
        } else if same_text(input, "or") {
            Self::OR
        } else if same_text(input, "print") {
            Self::PRINT
        } else if same_text(input, "return") {
            Self::RETURN
        } else if same_text(input, "super") {
            Self::SUPER
        } else if same_text(input, "this") {
            Self::THIS
        } else if same_text(input, "true") {
            Self::TRUE
        } else if same_text(input, "var") {
            Self::VAR
        } else if same_text(input, "while") {
            Self::WHILE
        } else {
            Self::IDENTIFIER(input.to_owned())
        }
    }
}

/// What a token is in the model: its kind and the line it started on.
pub struct TokenView {
    pub kind: TokenType<Seq<char>>,
    pub line: nat,
}

/// A classified lexical unit and the line on which its first character stood.
#[derive(Debug, Clone, PartialEq)]
pub struct Token {
    pub token_type: TokenType<String>,
    pub line: usize,
}

impl View for Token {
    type V = TokenView;

    open spec fn view(&self) -> TokenView {
        TokenView { kind: self.token_type@, line: self.line as nat }
    }
}

impl Token {
    pub fn new(token_type: TokenType<String>, line: usize) -> (r: Self)
        ensures
            r.token_type == token_type,
            r.line == line,
    {
        Self { token_type, line }
    }
}

/// The model of a sequence of tokens.
pub open spec fn tokens_view(v: Seq<Token>) -> Seq<TokenView> {
    v.map_values(|t: Token| t@)
}

} // verus!
