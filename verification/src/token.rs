//! The token model: the closed set of lexical categories and the text they carry.
use vstd::prelude::*;

verus! {

/// The shape of a token: its category without the payload.  Dispatch tables
/// and lookahead tests are keyed by it.
#[derive(Debug, PartialEq, Eq, Clone, Copy, Structural)]
pub enum TokenKind {
    Illegal,
    Eof,
    Assign,
    Ident,
    Int,
    Plus,
    Comma,
    Semicolon,
    LParen,
    RParen,
    LBrace,
    RBrace,
    Function,
    Let,
    Minus,
    Bang,
    Asterisk,
    Slash,
    Return,
    True,
    False,
    If,
    Else,
    Lt,
    Gt,
    Equal,
    NotEqual,
}

/// Number of token kinds, and so the length of a table indexed by kind.
pub const KIND_COUNT: usize = 27;

impl TokenKind {
    /// Position of the kind in a table indexed by kind.
    pub open spec fn slot(self) -> int {
        match self {
            TokenKind::Illegal => 0,
            TokenKind::Eof => 1,
            TokenKind::Assign => 2,
            TokenKind::Ident => 3,
            TokenKind::Int => 4,
            TokenKind::Plus => 5,
            TokenKind::Comma => 6,
            TokenKind::Semicolon => 7,
            TokenKind::LParen => 8,
            TokenKind::RParen => 9,
            TokenKind::LBrace => 10,
            TokenKind::RBrace => 11,
            TokenKind::Function => 12,
            TokenKind::Let => 13,
            TokenKind::Minus => 14,
            TokenKind::Bang => 15,
            TokenKind::Asterisk => 16,
            TokenKind::Slash => 17,
            TokenKind::Return => 18,
            TokenKind::True => 19,
            TokenKind::False => 20,
            TokenKind::If => 21,
            TokenKind::Else => 22,
            TokenKind::Lt => 23,
            TokenKind::Gt => 24,
            TokenKind::Equal => 25,
            TokenKind::NotEqual => 26,
        }
    }

    /// The upper-case name of the kind, as diagnostics print it.
    pub open spec fn label(self) -> Seq<char> {
        match self {
            TokenKind::Illegal => "ILLEGAL"@,
            TokenKind::Eof => "EOF"@,
            TokenKind::Assign => "ASSIGN"@,
            TokenKind::Ident => "IDENT"@,
            TokenKind::Int => "INT"@,
            TokenKind::Plus => "PLUS"@,
            TokenKind::Comma => "COMMA"@,
            TokenKind::Semicolon => "SEMICOLON"@,
            TokenKind::LParen => "LPAREN"@,
            TokenKind::RParen => "RPAREN"@,
            TokenKind::LBrace => "LBRACE"@,
            TokenKind::RBrace => "RBRACE"@,
            TokenKind::Function => "FUNCTION"@,
            TokenKind::Let => "LET"@,
            TokenKind::Minus => "MINUS"@,
            TokenKind::Bang => "BANG"@,
            TokenKind::Asterisk => "ASTERISK"@,
            TokenKind::Slash => "SLASH"@,
            TokenKind::Return => "RETURN"@,
            TokenKind::True => "TRUE"@,
            TokenKind::False => "FALSE"@,
            TokenKind::If => "IF"@,
            TokenKind::Else => "ELSE"@,
            TokenKind::Lt => "LT"@,
            TokenKind::Gt => "GT"@,
            TokenKind::Equal => "EQUAL"@,
            TokenKind::NotEqual => "NOTEQUAL"@,
        }
    }

    /// Position of the kind in a table indexed by kind.
    pub fn index(self) -> (i: usize)
        ensures
            i == self.slot(),
            i < KIND_COUNT,
    {
        match self {
            TokenKind::Illegal => 0,
            TokenKind::Eof => 1,
            TokenKind::Assign => 2,
            TokenKind::Ident => 3,
            TokenKind::Int => 4,
            TokenKind::Plus => 5,
            TokenKind::Comma => 6,
            TokenKind::Semicolon => 7,
            TokenKind::LParen => 8,
            TokenKind::RParen => 9,
            TokenKind::LBrace => 10,
            TokenKind::RBrace => 11,
            TokenKind::Function => 12,
            TokenKind::Let => 13,
            TokenKind::Minus => 14,
            TokenKind::Bang => 15,
            TokenKind::Asterisk => 16,
            TokenKind::Slash => 17,
            TokenKind::Return => 18,
            TokenKind::True => 19,
            TokenKind::False => 20,
            TokenKind::If => 21,
            TokenKind::Else => 22,
            TokenKind::Lt => 23,
            TokenKind::Gt => 24,
            TokenKind::Equal => 25,
            TokenKind::NotEqual => 26,
        }
    }

    /// The upper-case name of the kind.
    pub fn name(self) -> (s: String)
        ensures
            s@ == self.label(),
    {
        let text: &str = match self {
            TokenKind::Illegal => "ILLEGAL",
            TokenKind::Eof => "EOF",
            TokenKind::Assign => "ASSIGN",
            TokenKind::Ident => "IDENT",
            TokenKind::Int => "INT",
            TokenKind::Plus => "PLUS",
            TokenKind::Comma => "COMMA",
            TokenKind::Semicolon => "SEMICOLON",
            TokenKind::LParen => "LPAREN",
            TokenKind::RParen => "RPAREN",
            TokenKind::LBrace => "LBRACE",
            TokenKind::RBrace => "RBRACE",
            TokenKind::Function => "FUNCTION",
            TokenKind::Let => "LET",
            TokenKind::Minus => "MINUS",
            TokenKind::Bang => "BANG",
            TokenKind::Asterisk => "ASTERISK",
            TokenKind::Slash => "SLASH",
            TokenKind::Return => "RETURN",
            TokenKind::True => "TRUE",
            TokenKind::False => "FALSE",
            TokenKind::If => "IF",
            TokenKind::Else => "ELSE",
            TokenKind::Lt => "LT",
            TokenKind::Gt => "GT",
            TokenKind::Equal => "EQUAL",
            TokenKind::NotEqual => "NOTEQUAL",
        };
        String::from_str(text)
    }
}

/// Two kinds with the same table position are the same kind.
pub proof fn lemma_slot_is_injective(a: TokenKind, b: TokenKind)
    requires
        a.slot() == b.slot(),
    ensures
        a == b,
{
}

/// A lexical category together with the payload it carries: the name of an
/// identifier, the value of an integer literal.
#[derive(Debug, PartialEq, Eq)]
pub enum TokenType {
    ILLEGAL,
    EOF,
    ASSIGN,
    IDENT(String),
    INT(usize),
    PLUS,
    COMMA,
    SEMICOLON,
    LPAREN,
    RPAREN,
    LBRACE,
    RBRACE,
    FUNCTION,
    LET,
    MINUS,
    BANG,
    ASTERISK,
    SLASH,
    RETURN,
    TRUE,
    FALSE,
    IF,
    ELSE,
    LT,
    GT,
    EQUAL,
    NOTEQUAL,
}

/// What a [`TokenType`] stands for: its kind, the name if it is an identifier
/// (empty otherwise) and the value if it is an integer (zero otherwise).
pub struct TokenTypeView {
    pub kind: TokenKind,
    pub name: Seq<char>,
    pub value: usize,
}

impl TokenTypeView {
    /// The view of a token type that carries no payload.
    pub open spec fn plain(kind: TokenKind) -> TokenTypeView {
        TokenTypeView { kind, name: Seq::empty(), value: 0 }
    }

    /// The view of an identifier named `name`.
    pub open spec fn identifier(name: Seq<char>) -> TokenTypeView {
        TokenTypeView { kind: TokenKind::Ident, name, value: 0 }
    }

    /// The view of an integer literal of value `value`.
    pub open spec fn integer(value: usize) -> TokenTypeView {
        TokenTypeView { kind: TokenKind::Int, name: Seq::empty(), value }
    }
}

impl TokenType {
    /// The shape of the token type.
    pub open spec fn shape(&self) -> TokenKind {
        match self {
            TokenType::ILLEGAL => TokenKind::Illegal,
            TokenType::EOF => TokenKind::Eof,
            TokenType::ASSIGN => TokenKind::Assign,
            TokenType::IDENT(_) => TokenKind::Ident,
            TokenType::INT(_) => TokenKind::Int,
            TokenType::PLUS => TokenKind::Plus,
            TokenType::COMMA => TokenKind::Comma,
            TokenType::SEMICOLON => TokenKind::Semicolon,
            TokenType::LPAREN => TokenKind::LParen,
            TokenType::RPAREN => TokenKind::RParen,
            TokenType::LBRACE => TokenKind::LBrace,
            TokenType::RBRACE => TokenKind::RBrace,
            TokenType::FUNCTION => TokenKind::Function,
            TokenType::LET => TokenKind::Let,
            TokenType::MINUS => TokenKind::Minus,
            TokenType::BANG => TokenKind::Bang,
            TokenType::ASTERISK => TokenKind::Asterisk,
            TokenType::SLASH => TokenKind::Slash,
            TokenType::RETURN => TokenKind::Return,
            TokenType::TRUE => TokenKind::True,
            TokenType::FALSE => TokenKind::False,
            TokenType::IF => TokenKind::If,
            TokenType::ELSE => TokenKind::Else,
            TokenType::LT => TokenKind::Lt,
            TokenType::GT => TokenKind::Gt,
            TokenType::EQUAL => TokenKind::Equal,
            TokenType::NOTEQUAL => TokenKind::NotEqual,
        }
    }

    /// The shape of the token type: the variant without its contents.
    pub fn kind(&self) -> (k: TokenKind)
        ensures
            k == self.shape(),
            k == self@.kind,
    {
        match self {
            TokenType::ILLEGAL => TokenKind::Illegal,
            TokenType::EOF => TokenKind::Eof,
            TokenType::ASSIGN => TokenKind::Assign,
            TokenType::IDENT(_) => TokenKind::Ident,
            TokenType::INT(_) => TokenKind::Int,
            TokenType::PLUS => TokenKind::Plus,
            TokenType::COMMA => TokenKind::Comma,
            TokenType::SEMICOLON => TokenKind::Semicolon,
            TokenType::LPAREN => TokenKind::LParen,
            TokenType::RPAREN => TokenKind::RParen,
            TokenType::LBRACE => TokenKind::LBrace,
            TokenType::RBRACE => TokenKind::RBrace,
            TokenType::FUNCTION => TokenKind::Function,
            TokenType::LET => TokenKind::Let,
            TokenType::MINUS => TokenKind::Minus,
            TokenType::BANG => TokenKind::Bang,
            TokenType::ASTERISK => TokenKind::Asterisk,
            TokenType::SLASH => TokenKind::Slash,
            TokenType::RETURN => TokenKind::Return,
            TokenType::TRUE => TokenKind::True,
            TokenType::FALSE => TokenKind::False,
            TokenType::IF => TokenKind::If,
            TokenType::ELSE => TokenKind::Else,
            TokenType::LT => TokenKind::Lt,
            TokenType::GT => TokenKind::Gt,
            TokenType::EQUAL => TokenKind::Equal,
            TokenType::NOTEQUAL => TokenKind::NotEqual,
        }
    }

    /// The payload-free token type of the given kind; an identifier gets the
    /// empty name and an integer the value zero.
    pub fn of_kind(kind: TokenKind) -> (t: TokenType)
        ensures
            t@ == TokenTypeView::plain(kind),
    {
        match kind {
            TokenKind::Illegal => TokenType::ILLEGAL,
            TokenKind::Eof => TokenType::EOF,
            TokenKind::Assign => TokenType::ASSIGN,
            TokenKind::Ident => TokenType::IDENT(String::new()),
            TokenKind::Int => TokenType::INT(0),
            TokenKind::Plus => TokenType::PLUS,
            TokenKind::Comma => TokenType::COMMA,
            TokenKind::Semicolon => TokenType::SEMICOLON,
            TokenKind::LParen => TokenType::LPAREN,
            TokenKind::RParen => TokenType::RPAREN,
            TokenKind::LBrace => TokenType::LBRACE,
            TokenKind::RBrace => TokenType::RBRACE,
            TokenKind::Function => TokenType::FUNCTION,
            TokenKind::Let => TokenType::LET,
            TokenKind::Minus => TokenType::MINUS,
            TokenKind::Bang => TokenType::BANG,
            TokenKind::Asterisk => TokenType::ASTERISK,
            TokenKind::Slash => TokenType::SLASH,
            TokenKind::Return => TokenType::RETURN,
            TokenKind::True => TokenType::TRUE,
            TokenKind::False => TokenType::FALSE,
            TokenKind::If => TokenType::IF,
            TokenKind::Else => TokenType::ELSE,
            TokenKind::Lt => TokenType::LT,
            TokenKind::Gt => TokenType::GT,
            TokenKind::Equal => TokenType::EQUAL,
            TokenKind::NotEqual => TokenType::NOTEQUAL,
        }
    }
}

impl View for TokenType {
    type V = TokenTypeView;

    open spec fn view(&self) -> TokenTypeView {
        TokenTypeView {
            kind: self.shape(),
            name: match self {
                TokenType::IDENT(name) => name@,
                _ => Seq::empty(),
            },
            value: match self {
                TokenType::INT(value) => *value,
                _ => 0,
            },
        }
    }
}

impl Clone for TokenType {
    fn clone(&self) -> (t: TokenType)
        ensures
            t == *self,
    {
        match self {
            TokenType::IDENT(name) => TokenType::IDENT(name.clone()),
            TokenType::INT(value) => TokenType::INT(*value),
            _ => {
                let t = TokenType::of_kind(self.kind());
                t
            },
        }
    }
}

/// A classified lexical unit: its type and the text it was read from.
#[derive(Debug, PartialEq, Eq)]
pub struct Token {
    pub tokentype: TokenType,
    pub literal: String,
}

/// What a [`Token`] stands for.
pub struct TokenView {
    pub tokentype: TokenTypeView,
    pub literal: Seq<char>,
}

impl TokenView {
    /// The shape of the token.
    pub open spec fn kind(self) -> TokenKind {
        self.tokentype.kind
    }

    /// The text that diagnostics print for the token: the name of its kind and,
    /// in brackets, its literal.
    pub open spec fn description(self) -> Seq<char> {
        self.tokentype.kind.label() + "("@ + self.literal + ")"@
    }
}

impl View for Token {
    type V = TokenView;

    open spec fn view(&self) -> TokenView {
        TokenView { tokentype: self.tokentype@, literal: self.literal@ }
    }
}

impl Clone for Token {
    fn clone(&self) -> (t: Token)
        ensures
            t == *self,
    {
        Token { tokentype: self.tokentype.clone(), literal: self.literal.clone() }
    }
}

impl Token {
    /// A token of the given type read from the given text.
    pub fn new(tktype: TokenType, literal: String) -> (t: Token)
        ensures
            t.tokentype == tktype,
            t.literal == literal,
    {
        Token { tokentype: tktype, literal: literal }
    }

    /// The text that diagnostics print for the token.
    pub fn describe(&self) -> (s: String)
        ensures
            s@ == self@.description(),
    {
        let mut s = self.tokentype.kind().name();
        s.append("(");
        s.append(self.literal.as_str());
        s.append(")");
        s
    }
}

} // verus!
