//! The scanner.

use vstd::prelude::*;
use crate::chars::{
    check_digit, check_word_part, check_word_start, classify_all, continues_word, is_digit,
    is_quote, string_of, value_of_digit, values, Symbol,
};
use crate::grammar::{
    closes, decimal_value, integer_at, lemma_decimal_value_push, lemma_digits_end_is,
    lemma_literal_end_is, lemma_token_extent, lemma_word_end_is, lemma_wrap_step, literal_at,
    prepend, scan, scan_from, scan_symbols, token_at, word_at, wrap_i32,
};
use crate::laws::{lemma_scan_tiles, tiles};
pub use crate::error::{LexError, LexErrorKind, LexErrorView};
pub use crate::span::{Location, Span};
pub use crate::token::{Keyword, Operator, Token, TokenView};
use crate::token::views;

verus! {

/// What the result of reading one token stands for.
pub open spec fn token_outcome(r: Result<Token, LexError>) -> Result<TokenView, LexErrorView> {
    match r {
        Ok(token) => Ok(token@),
        Err(e) => Err(e@),
    }
}

/// What the result of a scan stands for.
pub open spec fn scan_outcome(r: Result<Vec<Token>, LexError>) -> Result<
    Seq<TokenView>,
    LexErrorView,
> {
    match r {
        Ok(tokens) => Ok(views(tokens@)),
        Err(e) => Err(e@),
    }
}

/// Reads the literal whose opening quote stands at `at`.
fn scan_literal(symbols: &Vec<Symbol>, at: usize) -> (r: Result<Token, LexError>)
    requires
        at < symbols.len(),
        is_quote(symbols@[at as int].value),
    ensures
        token_outcome(r) == literal_at(values(symbols@), at as int),
{
    let ghost text = values(symbols@);
    let quote = symbols[at].value;
    let mut idx: usize = at + 1;
    while idx < symbols.len() && !(symbols[idx].value == quote && symbols[idx - 1].value != '\\')
        invariant
            at < idx <= symbols.len(),
            text == values(symbols@),
            forall|k: int| at < k < idx ==> !closes(text, quote, k),
        decreases symbols.len() - idx,
    {
        idx += 1;
    }
    proof {
        lemma_literal_end_is(text, quote, at + 1, idx as int);
    }
    let start = Location::new(at);
    if idx >= symbols.len() {
        return Err(
            LexError { kind: LexErrorKind::UnterminatedLiteral, loc: start.with_size(idx - at) },
        );
    }
    let loc = start.with_size(idx - at + 1);
    if quote == '"' {
        Ok(Token::String { loc, value: string_of(symbols, at + 1, idx) })
    } else if idx - at == 2 {
        Ok(Token::Char { loc, value: symbols[at + 1].value })
    } else {
        Err(LexError { kind: LexErrorKind::InvalidCharLiteral, loc })
    }
}

/// Reads the integer whose first digit stands at `at`.
fn scan_integer(symbols: &Vec<Symbol>, at: usize) -> (token: Token)
    requires
        at < symbols.len(),
        is_digit(symbols@[at as int].value),
    ensures
        token@ == integer_at(values(symbols@), at as int),
{
    let ghost text = values(symbols@);
    let mut value: i32 = 0;
    let mut idx: usize = at;
    while idx < symbols.len() && check_digit(symbols[idx].value)
        invariant
            at <= idx <= symbols.len(),
            text == values(symbols@),
            forall|k: int| at <= k < idx ==> is_digit(#[trigger] text[k]),
            value == wrap_i32(decimal_value(text.subrange(at as int, idx as int))),
        decreases symbols.len() - idx,
    {
        let digit = value_of_digit(symbols[idx].value);
        proof {
            let read = text.subrange(at as int, idx as int);
            assert(text.subrange(at as int, idx + 1) == read.push(text[idx as int]));
            lemma_decimal_value_push(read, text[idx as int]);
            lemma_wrap_step(decimal_value(read), digit);
        }
        value = value.wrapping_mul(10).wrapping_add(digit);
        idx += 1;
    }
    proof {
        lemma_digits_end_is(text, at as int, idx as int);
    }
    Token::Integer { loc: Location::new(at).with_size(idx - at), value }
}

/// Reads the word whose first character stands at `at`.
fn scan_word(symbols: &Vec<Symbol>, at: usize) -> (token: Token)
    requires
        at < symbols.len(),
    ensures
        token@ == word_at(symbols@, at as int),
{
    let mut idx: usize = at + 1;
    while idx < symbols.len() && check_word_part(symbols[idx])
        invariant
            at < idx <= symbols.len(),
            forall|k: int| at < k < idx ==> continues_word(#[trigger] symbols@[k]),
        decreases symbols.len() - idx,
    {
        idx += 1;
    }
    proof {
        lemma_word_end_is(symbols@, at + 1, idx as int);
    }
    let loc = Location::new(at).with_size(idx - at);
    let word = string_of(symbols, at, idx);
    match Keyword::lookup(word.as_str()) {
        Some(kind) => Token::Keyword { loc, kind },
        None => Token::Identifier { loc, name: word },
    }
}

/// Reads the token that begins at index `at` of `symbols`.
pub fn next_token(symbols: &Vec<Symbol>, at: usize) -> (r: Result<Token, LexError>)
    requires
        at < symbols.len(),
    ensures
        token_outcome(r) == token_at(symbols@, at as int),
{
    let c = symbols[at].value;
    let loc = Location::new(at);
    if c == ' ' || c == '\t' || c == '\n' {
        Ok(Token::Whitespace { loc })
    } else if c == '(' {
        Ok(Token::Paren { loc, open: true })
    } else if c == ')' {
        Ok(Token::Paren { loc, open: false })
    } else if c == '[' {
        Ok(Token::Bracket { loc, open: true })
    } else if c == ']' {
        Ok(Token::Bracket { loc, open: false })
    } else if c == '{' {
        Ok(Token::Brace { loc, open: true })
    } else if c == '}' {
        Ok(Token::Brace { loc, open: false })
    } else if c == '\'' || c == '"' {
        scan_literal(symbols, at)
    } else if check_digit(c) {
        Ok(scan_integer(symbols, at))
    } else if check_word_start(symbols[at]) {
        Ok(scan_word(symbols, at))
    } else {
        Err(LexError { kind: LexErrorKind::UnknownCharacter, loc })
    }
}

/// Scans classified characters: their tokens in order, each with the span
/// it was read from, or the first failure met. The spans of the tokens cover
/// the input, in order, without overlap and without gap.
pub fn tokenize(symbols: &Vec<Symbol>) -> (r: Result<Vec<Token>, LexError>)
    ensures
        scan_outcome(r) == scan_symbols(symbols@),
        r is Ok ==> tiles(views(r->Ok_0@), 0, symbols@.len() as int),
{
    proof {
        if scan_symbols(symbols@) is Ok {
            lemma_scan_tiles(symbols@);
        }
    }
    let mut tokens: Vec<Token> = Vec::new();
    let mut idx: usize = 0;
    assert(Seq::<TokenView>::empty() + scan_from(symbols@, 0)->Ok_0 == scan_from(symbols@, 0)->Ok_0);
    while idx < symbols.len()
        invariant
            idx <= symbols.len(),
            scan_symbols(symbols@) == prepend(views(tokens@), scan_from(symbols@, idx as int)),
        decreases symbols.len() - idx,
    {
        let ghost done = views(tokens@);
        match next_token(symbols, idx) {
            Err(e) => {
                return Err(e);
            },
            Ok(token) => {
                proof {
                    lemma_token_extent(symbols@, idx as int);
                    let rest = scan_from(symbols@, token@.span().end);
                    assert(views(tokens@.push(token)) == done + seq![token@]);
                    if rest is Ok {
                        assert((done + seq![token@]) + rest->Ok_0 == done + (seq![token@]
                            + rest->Ok_0));
                    }
                }
                idx = token.loc().end_index();
                tokens.push(token);
            },
        }
    }
    assert(views(tokens@) + Seq::<TokenView>::empty() == views(tokens@));
    Ok(tokens)
}

/// A scanner over one text.
pub struct Lexer {
    code: String,
}

impl View for Lexer {
    type V = Seq<char>;

    closed spec fn view(&self) -> Seq<char> {
        self.code@
    }
}

impl Lexer {
    /// A scanner over `code`.
    pub fn new(code: String) -> (lexer: Lexer)
        ensures
            lexer@ == code@,
    {
        Lexer { code }
    }

    /// Scans the text: its tokens in order, each with the span it was read
    /// from, or the first failure met. Nothing is returned of a text that
    /// fails. The spans of the tokens cover the text, in order, without
    /// overlap and without gap.
    pub fn lex(&self) -> (r: Result<Vec<Token>, LexError>)
        ensures
            scan_outcome(r) == scan(self@),
            r is Ok ==> tiles(views(r->Ok_0@), 0, self@.len() as int),
    {
        let symbols = classify_all(self.code.as_str());
        tokenize(&symbols)
    }
}

} // verus!
