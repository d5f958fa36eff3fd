use vstd::prelude::*;
use vstd::string::StringExecFns;

use crate::position::Location;
use crate::text::{decimal, push_decimal, push_text};

verus! {

/// The reserved words of the language.
#[derive(Debug, Clone, Copy, PartialEq, Eq, Structural)]
pub enum Keyword {
    Select,
    From,
    As,
    Table,
    Create,
    Insert,
    Into,
    Values,
    Int,
    Text,
}

/// The canonical (lower-case) spelling of a keyword.
pub open spec fn keyword_text(k: Keyword) -> Seq<char> {
    match k {
        Keyword::Select => seq!['s', 'e', 'l', 'e', 'c', 't'],
        Keyword::From => seq!['f', 'r', 'o', 'm'],
        Keyword::As => seq!['a', 's'],
        Keyword::Table => seq!['t', 'a', 'b', 'l', 'e'],
        Keyword::Create => seq!['c', 'r', 'e', 'a', 't', 'e'],
        Keyword::Insert => seq!['i', 'n', 's', 'e', 'r', 't'],
        Keyword::Into => seq!['i', 'n', 't', 'o'],
        Keyword::Values => seq!['v', 'a', 'l', 'u', 'e', 's'],
        Keyword::Int => seq!['i', 'n', 't'],
        Keyword::Text => seq!['t', 'e', 'x', 't'],
    }
}

impl Keyword {
    pub fn as_str(&self) -> (r: &'static str)
        ensures
            r@ == keyword_text(*self),
            vstd::string::is_ascii(r),
    {
        let r = match self {
            Keyword::Select => "select",
            Keyword::From => "from",
            Keyword::As => "as",
            Keyword::Table => "table",
            Keyword::Create => "create",
            Keyword::Insert => "insert",
            Keyword::Into => "into",
            Keyword::Values => "values",
            Keyword::Int => "int",
            Keyword::Text => "text",
        };
        proof {
            reveal_strlit("select");
            reveal_strlit("from");
            reveal_strlit("as");
            reveal_strlit("table");
            reveal_strlit("create");
            reveal_strlit("insert");
            reveal_strlit("into");
            reveal_strlit("values");
            reveal_strlit("int");
            reveal_strlit("text");
        }
        assert(r@ =~= keyword_text(*self));
        r
    }
}

/// The punctuation of the language, one character each.
#[derive(Debug, Clone, Copy, PartialEq, Eq, Structural)]
pub enum Symbol {
    Semicolon,
    Asterix,
    Comma,
    LeftParen,
    RightParen,
}

/// The character of a symbol.
pub open spec fn symbol_char(s: Symbol) -> char {
    match s {
        Symbol::Semicolon => ';',
        Symbol::Asterix => '*',
        Symbol::Comma => ',',
        Symbol::LeftParen => '(',
        Symbol::RightParen => ')',
    }
}

impl Symbol {
    pub fn as_str(&self) -> (r: &'static str)
        ensures
            r@ == seq![symbol_char(*self)],
    {
        let r = match self {
            Symbol::Semicolon => ";",
            Symbol::Asterix => "*",
            Symbol::Comma => ",",
            Symbol::LeftParen => "(",
            Symbol::RightParen => ")",
        };
        proof {
            reveal_strlit(";");
            reveal_strlit("*");
            reveal_strlit(",");
            reveal_strlit("(");
            reveal_strlit(")");
        }
        assert(r@ =~= seq![symbol_char(*self)]);
        r
    }
}

/// The class of a token.
#[derive(Debug, Clone, Copy, PartialEq, Eq, Structural)]
pub enum TokenKind {
    Keyword,
    Symbol,
    Identifier,
    StringLiteral,
    NumericLiteral,
}

/// The name of a token class.
pub open spec fn kind_name(k: TokenKind) -> Seq<char> {
    match k {
        TokenKind::Keyword => "Keyword"@,
        TokenKind::Symbol => "Symbol"@,
        TokenKind::Identifier => "Identifier"@,
        TokenKind::StringLiteral => "StringLiteral"@,
        TokenKind::NumericLiteral => "NumericLiteral"@,
    }
}

impl TokenKind {
    /// The name of this class.
    pub fn name(&self) -> (r: &'static str)
        ensures
            r@ == kind_name(*self),
    {
        match self {
            TokenKind::Keyword => "Keyword",
            TokenKind::Symbol => "Symbol",
            TokenKind::Identifier => "Identifier",
            TokenKind::StringLiteral => "StringLiteral",
            TokenKind::NumericLiteral => "NumericLiteral",
        }
    }
}

/// A classified piece of source text and the location of its first character.
#[derive(Debug, Clone, PartialEq, Eq)]
pub struct Token {
    pub value: String,
    pub kind: TokenKind,
    pub loc: Location,
}

/// What a token holds, as values.
pub struct Lexeme {
    pub value: Seq<char>,
    pub kind: TokenKind,
    pub loc: Location,
}

impl View for Token {
    type V = Lexeme;

    open spec fn view(&self) -> Lexeme {
        Lexeme { value: self.value@, kind: self.kind, loc: self.loc }
    }
}

/// The rendering of a token: its value, class and location.
pub open spec fn rendering(t: Lexeme) -> Seq<char> {
    "Token(value=\""@ + t.value + "\", kind="@ + kind_name(t.kind) + ", loc=("@
        + decimal(t.loc.line as nat) + ", "@ + decimal(t.loc.col as nat) + "))"@
}

impl Token {
    /// Two tokens are equal when value and class agree; the location is ignored.
    pub fn equals(&self, other: &Token) -> (r: bool)
        ensures
            r == (self.value@ == other.value@ && self.kind == other.kind),
    {
        self.value == other.value && self.kind == other.kind
    }

    /// A stable text form that shows value, class and location.
    pub fn render(&self) -> (r: String)
        ensures
            r@ == rendering(self@),
    {
        let mut s = String::from_str("Token(value=\"");
        push_text(&mut s, &self.value);
        s.append("\", kind=");
        s.append(self.kind.name());
        s.append(", loc=(");
        push_decimal(&mut s, self.loc.line);
        s.append(", ");
        push_decimal(&mut s, self.loc.col);
        s.append("))");
        assert(s@ =~= rendering(self@));
        s
    }
}

} // verus!
