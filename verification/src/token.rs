//! The tokens of the language.

use vstd::prelude::*;
use crate::span::{Location, Span};

verus! {

/// The reserved words.
#[derive(Debug, Clone, Copy, PartialEq, Eq)]
pub enum Keyword {
    Let,
    Const,
    Fun,
}

/// The operators. No rule of the scanner produces one yet.
#[derive(Debug, Clone, Copy, PartialEq, Eq)]
pub enum Operator {
    Assignment,
}

/// A token: what was read, and from where.
#[derive(Debug, PartialEq, Eq)]
#[allow(inconsistent_fields)]
pub enum Token {
    Whitespace { loc: Location },
    Integer { loc: Location, value: i32 },
    Char { loc: Location, value: char },
    String { loc: Location, value: String },
    Keyword { loc: Location, kind: Keyword },
    Identifier { loc: Location, name: String },
    Operator { loc: Location, op: Operator },
    Paren { loc: Location, open: bool },
    Bracket { loc: Location, open: bool },
    Brace { loc: Location, open: bool },
}

/// A token as a mathematical value: texts are sequences of characters and
/// positions are spans.
#[allow(inconsistent_fields)]
pub enum TokenView {
    Whitespace { loc: Span },
    Integer { loc: Span, value: i32 },
    Char { loc: Span, value: char },
    String { loc: Span, value: Seq<char> },
    Keyword { loc: Span, kind: Keyword },
    Identifier { loc: Span, name: Seq<char> },
    Operator { loc: Span, op: Operator },
    Paren { loc: Span, open: bool },
    Bracket { loc: Span, open: bool },
    Brace { loc: Span, open: bool },
}

impl TokenView {
    /// The span that the token was read from.
    pub open spec fn span(self) -> Span {
        match self {
            TokenView::Whitespace { loc } => loc,
            TokenView::Integer { loc, .. } => loc,
            TokenView::Char { loc, .. } => loc,
            TokenView::String { loc, .. } => loc,
            TokenView::Keyword { loc, .. } => loc,
            TokenView::Identifier { loc, .. } => loc,
            TokenView::Operator { loc, .. } => loc,
            TokenView::Paren { loc, .. } => loc,
            TokenView::Bracket { loc, .. } => loc,
            TokenView::Brace { loc, .. } => loc,
        }
    }
}

impl View for Token {
    type V = TokenView;

    open spec fn view(&self) -> TokenView {
        match *self {
            Token::Whitespace { loc } => TokenView::Whitespace { loc: loc@ },
            Token::Integer { loc, value } => TokenView::Integer { loc: loc@, value },
            Token::Char { loc, value } => TokenView::Char { loc: loc@, value },
            Token::String { loc, value } => TokenView::String { loc: loc@, value: value@ },
            Token::Keyword { loc, kind } => TokenView::Keyword { loc: loc@, kind },
            Token::Identifier { loc, name } => TokenView::Identifier { loc: loc@, name: name@ },
            Token::Operator { loc, op } => TokenView::Operator { loc: loc@, op },
            Token::Paren { loc, open } => TokenView::Paren { loc: loc@, open },
            Token::Bracket { loc, open } => TokenView::Bracket { loc: loc@, open },
            Token::Brace { loc, open } => TokenView::Brace { loc: loc@, open },
        }
    }
}

impl Clone for Token {
    fn clone(&self) -> (token: Token)
        ensures
            token@ == self@,
    {
        match self {
            Token::Whitespace { loc } => Token::Whitespace { loc: *loc },
            Token::Integer { loc, value } => Token::Integer { loc: *loc, value: *value },
            Token::Char { loc, value } => Token::Char { loc: *loc, value: *value },
            Token::String { loc, value } => Token::String { loc: *loc, value: value.clone() },
            Token::Keyword { loc, kind } => Token::Keyword { loc: *loc, kind: *kind },
            Token::Identifier { loc, name } => Token::Identifier { loc: *loc, name: name.clone() },
            Token::Operator { loc, op } => Token::Operator { loc: *loc, op: *op },
            Token::Paren { loc, open } => Token::Paren { loc: *loc, open: *open },
            Token::Bracket { loc, open } => Token::Bracket { loc: *loc, open: *open },
            Token::Brace { loc, open } => Token::Brace { loc: *loc, open: *open },
        }
    }
}

impl Token {
    /// Where the token was read from.
    pub fn loc(&self) -> (loc: Location)
        ensures
            loc@ == self@.span(),
    {
        match self {
            Token::Whitespace { loc } => *loc,
            Token::Integer { loc, .. } => *loc,
            Token::Char { loc, .. } => *loc,
            Token::String { loc, .. } => *loc,
            Token::Keyword { loc, .. } => *loc,
            Token::Identifier { loc, .. } => *loc,
            Token::Operator { loc, .. } => *loc,
            Token::Paren { loc, .. } => *loc,
            Token::Bracket { loc, .. } => *loc,
            Token::Brace { loc, .. } => *loc,
        }
    }
}

/// The views of a sequence of tokens, in the same order.
pub open spec fn views(tokens: Seq<Token>) -> Seq<TokenView> {
    tokens.map_values(|t: Token| t@)
}

/// How a reserved word is written.
pub open spec fn spelling(kind: Keyword) -> Seq<char> {
    match kind {
        Keyword::Let => "let"@,
        Keyword::Const => "const"@,
        Keyword::Fun => "fun"@,
    }
}

/// The reserved word that is written exactly as `word`, if there is one.
/// Letter case counts.
pub open spec fn keyword_of(word: Seq<char>) -> Option<Keyword> {
    if word == spelling(Keyword::Let) {
        Some(Keyword::Let)
    } else if word == spelling(Keyword::Const) {
        Some(Keyword::Const)
    } else if word == spelling(Keyword::Fun) {
        Some(Keyword::Fun)
    } else {
        None
    }
}

impl Keyword {
    /// How the reserved word is written.
    pub fn spelling(&self) -> (s: &'static str)
        ensures
            s@ == spelling(*self),
    {
        match self {
            Keyword::Let => "let",
            Keyword::Const => "const",
            Keyword::Fun => "fun",
        }
    }

    /// The reserved word that is written exactly as `word`, if there is one.
    pub fn lookup(word: &str) -> (r: Option<Keyword>)
        ensures
            r == keyword_of(word@),
    {
        if same_text(word, Keyword::Let.spelling()) {
            Some(Keyword::Let)
        } else if same_text(word, Keyword::Const.spelling()) {
            Some(Keyword::Const)
        } else if same_text(word, Keyword::Fun.spelling()) {
            Some(Keyword::Fun)
        } else {
            None
        }
    }
}

/// Whether two strings hold the same characters.
pub fn same_text(a: &str, b: &str) -> (r: bool)
    ensures
        r == (a@ == b@),
{
    let n = a.unicode_len();
    if n != b.unicode_len() {
        return false;
    }
    let mut i: usize = 0;
    while i < n
        invariant
            n == a@.len(),
            n == b@.len(),
            i <= n,
            a@.take(i as int) == b@.take(i as int),
        decreases n - i,
    {
        if a.get_char(i) != b.get_char(i) {
            return false;
        }
        i += 1;
    }
    assert(a@ == a@.take(n as int));
    assert(b@ == b@.take(n as int));
    true
}

/// Each reserved word is found under its own spelling.
pub proof fn lemma_keyword_of_spelling(kind: Keyword)
    ensures
        keyword_of(spelling(kind)) == Some(kind),
{
    reveal_strlit("let");
    reveal_strlit("const");
    reveal_strlit("fun");
    assert("let"@.len() != "const"@.len());
    assert("fun"@.len() != "const"@.len());
    assert("let"@[0] != "fun"@[0]);
}

} // verus!
