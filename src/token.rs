use vstd::prelude::*;

verus! {

/// A lexical token of the language.
#[derive(Debug, Clone, PartialEq)]
pub enum Token {
    MoveUp,
    MoveDown,
    MoveLeft,
    MoveRight,
    Jump,
    Attack,
    Defend,
    If,
    Else,
    While,
    For,
    Plus,
    Minus,
    Asterisk,
    Slash,
    LogicalAnd,
    LogicalOr,
    LogicalNot,
    LParen,
    RParen,
    LBrace,
    RBrace,
    Semicolon,
    Number(i64),
    Identifier(String),
    /// A line comment, `//` included, up to the end of its line.
    Comment(String),
    /// Text that no token rule accepts.
    Error(String),
    /// End of input; the tokenizer's cursor hands it out once the text is used up.
    EOF,
}

/// What a token is, without its payload.
#[derive(Debug, Clone, Copy, PartialEq, Eq, Structural)]
pub enum TokenKind {
    MoveUp,
    MoveDown,
    MoveLeft,
    MoveRight,
    Jump,
    Attack,
    Defend,
    If,
    Else,
    While,
    For,
    Plus,
    Minus,
    Asterisk,
    Slash,
    LogicalAnd,
    LogicalOr,
    LogicalNot,
    LParen,
    RParen,
    LBrace,
    RBrace,
    Semicolon,
    Number,
    Identifier,
    Comment,
    Error,
    EOF,
}

/// The mathematical model of a token: a payload-free kind, or a kind with its payload.
pub ghost enum TokenView {
    Simple(TokenKind),
    Number(i64),
    Identifier(Seq<char>),
    Comment(Seq<char>),
    Error(Seq<char>),
}

impl TokenView {
    pub open spec fn kind(self) -> TokenKind {
        match self {
            TokenView::Simple(k) => k,
            TokenView::Number(_) => TokenKind::Number,
            TokenView::Identifier(_) => TokenKind::Identifier,
            TokenView::Comment(_) => TokenKind::Comment,
            TokenView::Error(_) => TokenKind::Error,
        }
    }

    pub open spec fn is_comment(self) -> bool {
        self is Comment
    }
}

impl View for Token {
    type V = TokenView;

    open spec fn view(&self) -> TokenView {
        match self {
            Token::MoveUp => TokenView::Simple(TokenKind::MoveUp),
            Token::MoveDown => TokenView::Simple(TokenKind::MoveDown),
            Token::MoveLeft => TokenView::Simple(TokenKind::MoveLeft),
            Token::MoveRight => TokenView::Simple(TokenKind::MoveRight),
            Token::Jump => TokenView::Simple(TokenKind::Jump),
            Token::Attack => TokenView::Simple(TokenKind::Attack),
            Token::Defend => TokenView::Simple(TokenKind::Defend),
            Token::If => TokenView::Simple(TokenKind::If),
            Token::Else => TokenView::Simple(TokenKind::Else),
            Token::While => TokenView::Simple(TokenKind::While),
            Token::For => TokenView::Simple(TokenKind::For),
            Token::Plus => TokenView::Simple(TokenKind::Plus),
            Token::Minus => TokenView::Simple(TokenKind::Minus),
            Token::Asterisk => TokenView::Simple(TokenKind::Asterisk),
            Token::Slash => TokenView::Simple(TokenKind::Slash),
            Token::LogicalAnd => TokenView::Simple(TokenKind::LogicalAnd),
            Token::LogicalOr => TokenView::Simple(TokenKind::LogicalOr),
            Token::LogicalNot => TokenView::Simple(TokenKind::LogicalNot),
            Token::LParen => TokenView::Simple(TokenKind::LParen),
            Token::RParen => TokenView::Simple(TokenKind::RParen),
            Token::LBrace => TokenView::Simple(TokenKind::LBrace),
            Token::RBrace => TokenView::Simple(TokenKind::RBrace),
            Token::Semicolon => TokenView::Simple(TokenKind::Semicolon),
            Token::Number(n) => TokenView::Number(*n),
            Token::Identifier(s) => TokenView::Identifier(s@),
            Token::Comment(s) => TokenView::Comment(s@),
            Token::Error(s) => TokenView::Error(s@),
            Token::EOF => TokenView::Simple(TokenKind::EOF),
        }
    }
}

impl Token {
    /// A copy of this token.
    pub fn duplicate(&self) -> (t: Token)
        ensures
            t@ == self@,
    {
        match self {
            Token::MoveUp => Token::MoveUp,
            Token::MoveDown => Token::MoveDown,
            Token::MoveLeft => Token::MoveLeft,
            Token::MoveRight => Token::MoveRight,
            Token::Jump => Token::Jump,
            Token::Attack => Token::Attack,
            Token::Defend => Token::Defend,
            Token::If => Token::If,
            Token::Else => Token::Else,
            Token::While => Token::While,
            Token::For => Token::For,
            Token::Plus => Token::Plus,
            Token::Minus => Token::Minus,
            Token::Asterisk => Token::Asterisk,
            Token::Slash => Token::Slash,
            Token::LogicalAnd => Token::LogicalAnd,
            Token::LogicalOr => Token::LogicalOr,
            Token::LogicalNot => Token::LogicalNot,
            Token::LParen => Token::LParen,
            Token::RParen => Token::RParen,
            Token::LBrace => Token::LBrace,
            Token::RBrace => Token::RBrace,
            Token::Semicolon => Token::Semicolon,
            Token::Number(n) => Token::Number(*n),
            Token::Identifier(s) => Token::Identifier(s.clone()),
            Token::Comment(s) => Token::Comment(s.clone()),
            Token::Error(s) => Token::Error(s.clone()),
            Token::EOF => Token::EOF,
        }
    }

    /// The token's kind.
    pub fn kind(&self) -> (k: TokenKind)
        ensures
            k == self@.kind(),
    {
        match self {
            Token::MoveUp => TokenKind::MoveUp,
            Token::MoveDown => TokenKind::MoveDown,
            Token::MoveLeft => TokenKind::MoveLeft,
            Token::MoveRight => TokenKind::MoveRight,
            Token::Jump => TokenKind::Jump,
            Token::Attack => TokenKind::Attack,
            Token::Defend => TokenKind::Defend,
            Token::If => TokenKind::If,
            Token::Else => TokenKind::Else,
            Token::While => TokenKind::While,
            Token::For => TokenKind::For,
            Token::Plus => TokenKind::Plus,
            Token::Minus => TokenKind::Minus,
            Token::Asterisk => TokenKind::Asterisk,
            Token::Slash => TokenKind::Slash,
            Token::LogicalAnd => TokenKind::LogicalAnd,
            Token::LogicalOr => TokenKind::LogicalOr,
            Token::LogicalNot => TokenKind::LogicalNot,
            Token::LParen => TokenKind::LParen,
            Token::RParen => TokenKind::RParen,
            Token::LBrace => TokenKind::LBrace,
            Token::RBrace => TokenKind::RBrace,
            Token::Semicolon => TokenKind::Semicolon,
            Token::Number(_) => TokenKind::Number,
            Token::Identifier(_) => TokenKind::Identifier,
            Token::Comment(_) => TokenKind::Comment,
            Token::Error(_) => TokenKind::Error,
            Token::EOF => TokenKind::EOF,
        }
    }
}

} // verus!
