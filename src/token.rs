//! Tokens of the toy language and their mathematical view.

use vstd::prelude::*;

verus! {

/// `Token ::= Ident | Sym | Kw | Op | LiteralInt`, with the row and column of
/// its first character and the text it was read from.
#[derive(Clone, Debug, PartialEq, Eq, Hash)]
pub struct Token {
    pub token: TokenValue,
    pub row: usize,
    pub col: usize,
    pub raw: String,
}

#[derive(Clone, Debug, PartialEq, Eq, Hash)]
pub enum TokenValue {
    Ident(Ident),
    Sym(Sym),
    Kw(Kw),
    Op(Op),
    LiteralInt(LiteralInt),
}

/// `Ident ::= [_a-zA-Z][_a-zA-Z0-9]*`, other than a keyword.
#[derive(Clone, Debug, PartialEq, Eq, Hash)]
pub struct Ident {
    pub name: String,
}

#[derive(Clone, Copy, Debug, PartialEq, Eq, Hash, Structural)]
pub enum Sym {
    /// '('
    LeftParen,
    /// ')'
    RightParen,
    /// '['
    LeftBracket,
    /// ']'
    RightBracket,
    /// '{'
    LeftBrace,
    /// '}'
    RightBrace,
    /// ','
    Comma,
    /// ';'
    Semicolon,
}

#[derive(Clone, Copy, Debug, PartialEq, Eq, Hash, Structural)]
pub enum Kw {
    If,
    Int,
    For,
    While,
    Do,
    Return,
    Break,
    Continue,
}

#[derive(Clone, Copy, Debug, PartialEq, Eq, Hash, Structural)]
pub enum Op {
    /// '+'
    Add,
    /// '-'
    Sub,
    /// '*'
    Mul,
    /// '/'
    Div,
    /// '%'
    Mod,
    /// '='
    Assign,
    /// '>'
    Gt,
    /// '<'
    Lt,
    /// '>='
    Ge,
    /// '<='
    Le,
    /// '=='
    Eq,
    /// '!='
    Ne,
    /// '!'
    Not,
}

/// An integer literal, kept as its decimal digits.
#[derive(Clone, Debug, PartialEq, Eq, Hash)]
pub struct LiteralInt {
    pub value: String,
}

/// What a token stands for, with its texts as sequences of characters.
pub enum Lexeme {
    Ident(Seq<char>),
    Sym(Sym),
    Kw(Kw),
    Op(Op),
    LiteralInt(Seq<char>),
}

/// The view of a token.
pub struct TokenView {
    pub value: Lexeme,
    pub row: usize,
    pub col: usize,
    pub raw: Seq<char>,
}

impl View for TokenValue {
    type V = Lexeme;

    open spec fn view(&self) -> Lexeme {
        match self {
            TokenValue::Ident(i) => Lexeme::Ident(i.name@),
            TokenValue::Sym(s) => Lexeme::Sym(*s),
            TokenValue::Kw(k) => Lexeme::Kw(*k),
            TokenValue::Op(o) => Lexeme::Op(*o),
            TokenValue::LiteralInt(l) => Lexeme::LiteralInt(l.value@),
        }
    }
}

impl View for Token {
    type V = TokenView;

    open spec fn view(&self) -> TokenView {
        TokenView { value: self.token@, row: self.row, col: self.col, raw: self.raw@ }
    }
}

/// The views of a sequence of tokens.
pub open spec fn token_views(ts: Seq<Token>) -> Seq<TokenView> {
    ts.map_values(|t: Token| t@)
}

impl TokenValue {
    /// A copy of this value.
    pub fn duplicate(&self) -> (r: TokenValue)
        ensures
            r@ == self@,
    {
        match self {
            TokenValue::Ident(i) => TokenValue::Ident(Ident { name: i.name.clone() }),
            TokenValue::Sym(s) => TokenValue::Sym(*s),
            TokenValue::Kw(k) => TokenValue::Kw(*k),
            TokenValue::Op(o) => TokenValue::Op(*o),
            TokenValue::LiteralInt(l) => TokenValue::LiteralInt(LiteralInt { value: l.value.clone() }),
        }
    }
}

impl Token {
    /// A copy of this token.
    pub fn duplicate(&self) -> (r: Token)
        ensures
            r@ == self@,
    {
        Token { token: self.token.duplicate(), row: self.row, col: self.col, raw: self.raw.clone() }
    }
}

} // verus!
