//! Theorems about the scan of a text.

use vstd::prelude::*;
use crate::chars::{
    is_bracket, is_digit, is_quote, is_whitespace, lemma_values_of_symbols, starts_word,
    symbols_of, values, Symbol,
};
use crate::error::{LexError, LexErrorKind, LexErrorView};
use crate::grammar::{
    closes, decimal_value, failure, lemma_digits_end_is, lemma_literal_end, lemma_token_extent,
    lemma_wrap_small, literal_at, literal_end, next_index, scan, scan_from, scan_symbols,
    token_at, wrap_i32,
};
use crate::lexer::{scan_outcome, Lexer};
use crate::span::{lemma_location_determined, Span};
use crate::token::{views, Token, TokenView};

verus! {

/// The spans of `tokens`, in order, cut the range `from..to` into pieces:
/// none is empty, the first begins at `from`, each begins where the one
/// before it ends, and the last ends at `to`. No tokens cut the empty range
/// only.
pub open spec fn tiles(tokens: Seq<TokenView>, from: int, to: int) -> bool {
    &&& forall|k: int| 0 <= k < tokens.len() ==> (#[trigger] tokens[k]).span().len() > 0
    &&& forall|j: int, k: int|
        0 <= j && j + 1 == k && k < tokens.len() ==> (#[trigger] tokens[j]).span().end == (
        #[trigger] tokens[k]).span().start
    &&& if tokens.len() == 0 {
        from == to
    } else {
        tokens.first().span().start == from && tokens.last().span().end == to
    }
}

/// Whether index `i` lies in the span of one of `tokens`.
pub open spec fn reached(tokens: Seq<TokenView>, i: int) -> bool {
    exists|k: int| 0 <= k < tokens.len() && (#[trigger] tokens[k]).span().contains(i)
}

/// Whether `span` is the extent of a closed literal that opens at `at`: it
/// begins at the opening quote and ends just behind the first later index
/// that closes the literal.
pub open spec fn literal_extent(text: Seq<char>, at: int, span: Span) -> bool {
    let close = span.end - 1;
    &&& span.start == at
    &&& at < close < text.len()
    &&& closes(text, text[at], close)
    &&& forall|k: int| at < k < close ==> !#[trigger] closes(text, text[at], k)
}

/// Scanning is a function of the text: two scans of the same text end alike,
/// with the same tokens or with the same failure.
pub proof fn lemma_scan_deterministic(
    a: Lexer,
    b: Lexer,
    ra: Result<Vec<Token>, LexError>,
    rb: Result<Vec<Token>, LexError>,
)
    requires
        a@ == b@,
        scan_outcome(ra) == scan(a@),
        scan_outcome(rb) == scan(b@),
    ensures
        scan_outcome(ra) == scan_outcome(rb),
        ra is Ok <==> rb is Ok,
        ra is Err ==> ra == rb,
        ra is Ok ==> ra->Ok_0.len() == rb->Ok_0.len(),
        ra is Ok ==> forall|k: int| 0 <= k < ra->Ok_0.len() ==> ra->Ok_0[k]@ == rb->Ok_0[k]@,
{
    if ra is Err {
        lemma_location_determined(ra->Err_0.loc, rb->Err_0.loc);
    } else {
        let ta = ra->Ok_0@;
        let tb = rb->Ok_0@;
        assert(views(ta).len() == ta.len());
        assert(views(tb).len() == tb.len());
        assert forall|k: int| 0 <= k < ta.len() implies ta[k]@ == tb[k]@ by {
            assert(views(ta)[k] == ta[k]@);
            assert(views(tb)[k] == tb[k]@);
        }
    }
}

/// Putting a token before tokens that cut the range behind it into pieces
/// gives tokens that cut the longer range into pieces.
pub proof fn lemma_tiles_prepend(first: TokenView, rest: Seq<TokenView>, to: int)
    requires
        first.span().len() > 0,
        tiles(rest, first.span().end, to),
    ensures
        tiles(seq![first] + rest, first.span().start, to),
{
    let all = seq![first] + rest;
    assert(all[0] == first);
    assert forall|k: int| 0 <= k < all.len() implies (#[trigger] all[k]).span().len() > 0 by {
        if k > 0 {
            assert(all[k] == rest[k - 1]);
        }
    }
    assert forall|j: int, k: int| 0 <= j && j + 1 == k && k < all.len() implies (
    #[trigger] all[j]).span().end == (#[trigger] all[k]).span().start by {
        assert(all[k] == rest[j]);
        if j > 0 {
            assert(all[j] == rest[j - 1]);
        } else {
            assert(rest[j] == rest.first());
        }
    }
    if rest.len() > 0 {
        assert(all.last() == rest.last());
    }
}

/// Taking the first token away from tokens that cut a range into pieces
/// leaves tokens that cut the range behind it into pieces.
pub proof fn lemma_tiles_drop_first(tokens: Seq<TokenView>, from: int, to: int)
    requires
        tokens.len() > 0,
        tiles(tokens, from, to),
    ensures
        tiles(tokens.drop_first(), tokens.first().span().end, to),
{
    let rest = tokens.drop_first();
    assert forall|k: int| 0 <= k < rest.len() implies (#[trigger] rest[k]).span().len() > 0 by {
        assert(rest[k] == tokens[k + 1]);
    }
    assert forall|j: int, k: int| 0 <= j && j + 1 == k && k < rest.len() implies (
    #[trigger] rest[j]).span().end == (#[trigger] rest[k]).span().start by {
        assert(rest[j] == tokens[k]);
        assert(rest[k] == tokens[k + 1]);
    }
    if rest.len() > 0 {
        assert(rest.first() == tokens[1]);
        assert(tokens.first() == tokens[0]);
        assert(rest.last() == tokens.last());
    }
}

/// In spans that cut a range into pieces, an earlier one ends at or before
/// the start of a later one.
pub proof fn lemma_tiles_ascend(tokens: Seq<TokenView>, from: int, to: int, j: int, k: int)
    requires
        tiles(tokens, from, to),
        0 <= j < k < tokens.len(),
    ensures
        tokens[j].span().end <= tokens[k].span().start,
    decreases k - j,
{
    if j + 1 < k {
        lemma_tiles_ascend(tokens, from, to, j, k - 1);
        assert(tokens[k - 1].span().len() > 0);
        assert(tokens[k - 1].span().end == tokens[k].span().start);
    } else {
        assert(tokens[j].span().end == tokens[k].span().start);
    }
}

/// Spans that cut a range into pieces leave no index of it out.
pub proof fn lemma_tiles_reach(tokens: Seq<TokenView>, from: int, to: int, i: int)
    requires
        tiles(tokens, from, to),
        from <= i < to,
    ensures
        reached(tokens, i),
    decreases tokens.len(),
{
    let first = tokens.first();
    if i < first.span().end {
        assert(tokens[0].span().contains(i));
    } else {
        let rest = tokens.drop_first();
        lemma_tiles_drop_first(tokens, from, to);
        lemma_tiles_reach(rest, first.span().end, to, i);
        let k = choose|k: int| 0 <= k < rest.len() && (#[trigger] rest[k]).span().contains(i);
        assert(rest[k] == tokens[k + 1]);
        assert(tokens[k + 1].span().contains(i));
    }
}

/// The tokens scanned from index `from` on cover the rest of the input:
/// their spans come in ascending order, without overlap and without gap,
/// from `from` to the end.
pub proof fn lemma_scan_from_tiles(symbols: Seq<Symbol>, from: int)
    requires
        0 <= from <= symbols.len(),
        scan_from(symbols, from) is Ok,
    ensures
        tiles(scan_from(symbols, from)->Ok_0, from, symbols.len() as int),
    decreases symbols.len() - from,
{
    if from < symbols.len() {
        lemma_token_extent(symbols, from);
        lemma_scan_from_tiles(symbols, next_index(symbols, from));
        lemma_tiles_prepend(
            token_at(symbols, from)->Ok_0,
            scan_from(symbols, next_index(symbols, from))->Ok_0,
            symbols.len() as int,
        );
    }
}

/// The tokens of classified characters cover them: their spans come in
/// ascending order, without overlap and without gap, from the first to the
/// last.
pub proof fn lemma_scan_tiles(symbols: Seq<Symbol>)
    requires
        scan_symbols(symbols) is Ok,
    ensures
        tiles(scan_symbols(symbols)->Ok_0, 0, symbols.len() as int),
{
    lemma_scan_from_tiles(symbols, 0);
}

/// The tokens of a text cover it: their spans come in ascending order,
/// without overlap and without gap, from the first character to the last,
/// so that each character of the text lies in the span of exactly one token.
pub proof fn lemma_scan_covers(text: Seq<char>)
    requires
        scan(text) is Ok,
    ensures
        tiles(scan(text)->Ok_0, 0, text.len() as int),
        forall|i: int| 0 <= i < text.len() ==> #[trigger] reached(scan(text)->Ok_0, i),
        forall|i: int, j: int, k: int|
            0 <= j < scan(text)->Ok_0.len() && 0 <= k < scan(text)->Ok_0.len() && (
            #[trigger] scan(text)->Ok_0[j].span().contains(i)) && (
            #[trigger] scan(text)->Ok_0[k].span().contains(i)) ==> j == k,
{
    lemma_values_of_symbols(text);
    lemma_scan_tiles(symbols_of(text));
    let tokens = scan(text)->Ok_0;
    assert forall|i: int| 0 <= i < text.len() implies #[trigger] reached(tokens, i) by {
        lemma_tiles_reach(tokens, 0, text.len() as int, i);
    }
    assert forall|i: int, j: int, k: int|
        0 <= j < tokens.len() && 0 <= k < tokens.len() && (#[trigger] tokens[j].span().contains(
            i,
        )) && (#[trigger] tokens[k].span().contains(i)) implies j == k by {
        if j < k {
            lemma_tiles_ascend(tokens, 0, text.len() as int, j, k);
        } else if k < j {
            lemma_tiles_ascend(tokens, 0, text.len() as int, k, j);
        }
    }
}

/// Each token scanned from index `from` on is the token that begins at its
/// own start.
pub proof fn lemma_scan_from_local(symbols: Seq<Symbol>, from: int)
    requires
        0 <= from <= symbols.len(),
        scan_from(symbols, from) is Ok,
    ensures
        forall|k: int|
            0 <= k < scan_from(symbols, from)->Ok_0.len() ==> {
                let token = #[trigger] scan_from(symbols, from)->Ok_0[k];
                &&& from <= token.span().start < symbols.len()
                &&& token_at(symbols, token.span().start) == Ok::<TokenView, LexErrorView>(token)
            },
    decreases symbols.len() - from,
{
    if from < symbols.len() {
        lemma_token_extent(symbols, from);
        let first = token_at(symbols, from)->Ok_0;
        let next = next_index(symbols, from);
        lemma_scan_from_local(symbols, next);
        let rest = scan_from(symbols, next)->Ok_0;
        let all = seq![first] + rest;
        assert(all == scan_from(symbols, from)->Ok_0);
        assert forall|k: int| 0 <= k < all.len() implies {
            let token = #[trigger] all[k];
            &&& from <= token.span().start < symbols.len()
            &&& token_at(symbols, token.span().start) == Ok::<TokenView, LexErrorView>(token)
        } by {
            if k > 0 {
                assert(all[k] == rest[k - 1]);
            } else {
                assert(all[0] == first);
            }
        }
    }
}

/// Each token of a scan is the token that begins at its own start: what a
/// token is depends on the input alone, not on the tokens before it.
pub proof fn lemma_scan_local(symbols: Seq<Symbol>)
    requires
        scan_symbols(symbols) is Ok,
    ensures
        forall|k: int|
            0 <= k < scan_symbols(symbols)->Ok_0.len() ==> {
                let token = #[trigger] scan_symbols(symbols)->Ok_0[k];
                &&& 0 <= token.span().start < symbols.len()
                &&& token_at(symbols, token.span().start) == Ok::<TokenView, LexErrorView>(token)
            },
{
    lemma_scan_from_local(symbols, 0);
}

/// Tokens that cut the rest of the input into pieces, each being the token
/// that begins at its own start, are the tokens scanned from `from` on.
pub proof fn lemma_scan_from_unique(symbols: Seq<Symbol>, from: int, tokens: Seq<TokenView>)
    requires
        0 <= from <= symbols.len(),
        tiles(tokens, from, symbols.len() as int),
        forall|k: int|
            0 <= k < tokens.len() ==> token_at(symbols, (#[trigger] tokens[k]).span().start)
                == Ok::<TokenView, LexErrorView>(tokens[k]),
    ensures
        scan_from(symbols, from) == Ok::<Seq<TokenView>, LexErrorView>(tokens),
    decreases tokens.len(),
{
    if tokens.len() == 0 {
        assert(tokens == Seq::<TokenView>::empty());
    } else {
        let first = tokens.first();
        let rest = tokens.drop_first();
        assert(tokens[0].span().len() > 0);
        lemma_tiles_drop_first(tokens, from, symbols.len() as int);
        assert forall|k: int| 0 <= k < rest.len() implies token_at(
            symbols,
            (#[trigger] rest[k]).span().start,
        ) == Ok::<TokenView, LexErrorView>(rest[k]) by {
            assert(rest[k] == tokens[k + 1]);
        }
        // the first token ends inside the input, as the last one does
        if rest.len() == 0 {
            assert(tokens.last() == first);
        } else {
            lemma_tiles_ascend(tokens, from, symbols.len() as int, 0, tokens.len() - 1);
            assert(tokens.last().span().len() > 0);
        }
        lemma_scan_from_unique(symbols, first.span().end, rest);
        assert(seq![first] + rest == tokens);
    }
}

/// The scan is told by two facts: its tokens cover the input in order,
/// without overlap and without gap, and each is the token that begins at
/// its own start. No other sequence of tokens has both.
pub proof fn lemma_scan_characterized(symbols: Seq<Symbol>, tokens: Seq<TokenView>)
    ensures
        scan_symbols(symbols) == Ok::<Seq<TokenView>, LexErrorView>(tokens) <==> {
            &&& tiles(tokens, 0, symbols.len() as int)
            &&& forall|k: int|
                0 <= k < tokens.len() ==> token_at(symbols, (#[trigger] tokens[k]).span().start)
                    == Ok::<TokenView, LexErrorView>(tokens[k])
        },
{
    if scan_symbols(symbols) == Ok::<Seq<TokenView>, LexErrorView>(tokens) {
        lemma_scan_tiles(symbols);
        lemma_scan_local(symbols);
    }
    if tiles(tokens, 0, symbols.len() as int) && (forall|k: int|
        0 <= k < tokens.len() ==> token_at(symbols, (#[trigger] tokens[k]).span().start) == Ok::<
            TokenView,
            LexErrorView,
        >(tokens[k])) {
        lemma_scan_from_unique(symbols, 0, tokens);
    }
}

/// A scan from index `from` on fails with the failure of some index at or
/// after `from` at which no token begins.
pub proof fn lemma_scan_from_failure(symbols: Seq<Symbol>, from: int)
    requires
        0 <= from <= symbols.len(),
        scan_from(symbols, from) is Err,
    ensures
        exists|at: int|
            from <= at < symbols.len() && #[trigger] token_at(symbols, at) == Err::<
                TokenView,
                LexErrorView,
            >(scan_from(symbols, from)->Err_0),
    decreases symbols.len() - from,
{
    if token_at(symbols, from) is Ok {
        lemma_token_extent(symbols, from);
        let next = next_index(symbols, from);
        lemma_scan_from_failure(symbols, next);
        let at = choose|at: int|
            next <= at < symbols.len() && #[trigger] token_at(symbols, at) == Err::<
                TokenView,
                LexErrorView,
            >(scan_from(symbols, next)->Err_0);
        assert(from <= at < symbols.len() && token_at(symbols, at) == Err::<
            TokenView,
            LexErrorView,
        >(scan_from(symbols, from)->Err_0));
    } else {
        assert(token_at(symbols, from) == Err::<TokenView, LexErrorView>(
            scan_from(symbols, from)->Err_0,
        ));
    }
}

/// A failed scan reports the failure of some index of the input at which no
/// token begins.
pub proof fn lemma_scan_failure(symbols: Seq<Symbol>)
    requires
        scan_symbols(symbols) is Err,
    ensures
        exists|at: int|
            0 <= at < symbols.len() && #[trigger] token_at(symbols, at) == Err::<
                TokenView,
                LexErrorView,
            >(scan_symbols(symbols)->Err_0),
{
    lemma_scan_from_failure(symbols, 0);
}

/// A scan fails at once where the first character begins no token.
pub proof fn lemma_scan_fails_first(symbols: Seq<Symbol>)
    requires
        symbols.len() > 0,
        token_at(symbols, 0) is Err,
    ensures
        scan_symbols(symbols) == Err::<Seq<TokenView>, LexErrorView>(
            token_at(symbols, 0)->Err_0,
        ),
{
}

/// No rule of the scanner produces an operator.
pub proof fn lemma_scan_without_operators(symbols: Seq<Symbol>)
    requires
        scan_symbols(symbols) is Ok,
    ensures
        forall|k: int|
            0 <= k < scan_symbols(symbols)->Ok_0.len() ==> !(
            #[trigger] scan_symbols(symbols)->Ok_0[k] is Operator),
{
    lemma_scan_local(symbols);
}

/// The number that digits denote is not negative.
pub proof fn lemma_decimal_value_nonnegative(digits: Seq<char>)
    requires
        forall|k: int| 0 <= k < digits.len() ==> is_digit(#[trigger] digits[k]),
    ensures
        decimal_value(digits) >= 0,
    decreases digits.len(),
{
    if digits.len() > 0 {
        lemma_decimal_value_nonnegative(digits.drop_last());
    }
}

/// A text made of digits only is one integer token over the whole text. Its
/// value is the number that the digits denote in base ten, kept in 32 bits;
/// a number up to `i32::MAX` is kept as it is.
pub proof fn lemma_scan_digits(digits: Seq<char>)
    requires
        digits.len() > 0,
        forall|k: int| 0 <= k < digits.len() ==> is_digit(#[trigger] digits[k]),
    ensures
        scan(digits) == Ok::<Seq<TokenView>, LexErrorView>(
            seq![
                (TokenView::Integer {
                    loc: Span { start: 0, end: digits.len() as int },
                    value: wrap_i32(decimal_value(digits)),
                }),
            ],
        ),
        decimal_value(digits) <= i32::MAX ==> wrap_i32(decimal_value(digits)) == decimal_value(
            digits,
        ),
{
    let len = digits.len() as int;
    let symbols = symbols_of(digits);
    lemma_values_of_symbols(digits);
    lemma_digits_end_is(digits, 0, len);
    assert(digits.subrange(0, len) == digits);
    let token = TokenView::Integer {
        loc: Span { start: 0, end: len },
        value: wrap_i32(decimal_value(digits)),
    };
    assert(symbols[0].value == digits[0]);
    assert(token_at(symbols, 0) == Ok::<TokenView, LexErrorView>(token));
    assert(scan_from(symbols, len) == Ok::<Seq<TokenView>, LexErrorView>(Seq::empty()));
    assert(seq![token] + Seq::<TokenView>::empty() == seq![token]);
    lemma_decimal_value_nonnegative(digits);
    if decimal_value(digits) <= i32::MAX {
        lemma_wrap_small(decimal_value(digits));
    }
}

/// What a literal is. The literal that opens at `at` is closed by the first
/// later quote of the same kind that no backslash stands directly before: a
/// quote behind a backslash does not close it. If there is no such quote the
/// literal is unterminated, and only then. Else the token runs from the
/// opening quote to the closing one, so its length is that of its content
/// and two more, and its content is what stands between them, backslashes
/// included. A string literal takes any content; a character literal is
/// invalid unless its content is one character.
pub proof fn lemma_literal(text: Seq<char>, at: int)
    requires
        0 <= at < text.len(),
        is_quote(text[at]),
    ensures
        literal_at(text, at) == Err::<TokenView, LexErrorView>(
            failure(LexErrorKind::UnterminatedLiteral, at, text.len() as int),
        ) <==> forall|k: int| at < k < text.len() ==> !#[trigger] closes(text, text[at], k),
        match literal_at(text, at) {
            Ok(token) => {
                let content = text.subrange(at + 1, token.span().end - 1);
                &&& literal_extent(text, at, token.span())
                &&& token.span().len() == content.len() + 2
                &&& if text[at] == '"' {
                    token == (TokenView::String { loc: token.span(), value: content })
                } else {
                    content.len() == 1 && token == (TokenView::Char {
                        loc: token.span(),
                        value: text[at + 1],
                    })
                }
            },
            Err(e) => {
                ||| e == failure(LexErrorKind::UnterminatedLiteral, at, text.len() as int)
                ||| {
                    &&& e.kind == LexErrorKind::InvalidCharLiteral
                    &&& text[at] == '\''
                    &&& literal_extent(text, at, e.loc)
                    &&& e.loc.len() != 3
                }
            },
        },
{
    lemma_literal_end(text, text[at], at + 1);
    let close = literal_end(text, text[at], at + 1);
    if close < text.len() {
        assert(closes(text, text[at], close));
        let content = text.subrange(at + 1, close);
        assert(content.len() == close - (at + 1));
        if content.len() == 1 {
            assert(content[0] == text[at + 1]);
        }
    }
}

/// A quote that stands directly behind a backslash closes no literal, and
/// a backslash is content like any other character: between the opening
/// quote and the closing one nothing is left out and nothing is changed.
pub proof fn lemma_escaped_quote(text: Seq<char>, at: int, k: int)
    requires
        0 <= at < k < text.len(),
        is_quote(text[at]),
        text[k - 1] == '\\',
    ensures
        !closes(text, text[at], k),
        literal_at(text, at) is Ok ==> literal_at(text, at)->Ok_0.span().end - 1 != k,
        literal_at(text, at) matches Ok(TokenView::String { loc, value }) ==> value
            == text.subrange(at + 1, loc.end - 1),
{
    lemma_literal(text, at);
}

/// Which token begins at an index, by the character there. Whitespace and
/// brackets are tokens of one character. A quote opens a literal. A digit
/// begins an integer, an alphabetic character or an underscore a word. Any
/// other character begins no token, and only such a character is unknown.
pub proof fn lemma_token_classes(symbols: Seq<Symbol>, at: int)
    requires
        0 <= at < symbols.len(),
    ensures
        is_whitespace(symbols[at].value) ==> token_at(symbols, at) == Ok::<
            TokenView,
            LexErrorView,
        >(TokenView::Whitespace { loc: Span { start: at, end: at + 1 } }),
        is_bracket(symbols[at].value) ==> token_at(symbols, at) is Ok && token_at(
            symbols,
            at,
        )->Ok_0.span() == (Span { start: at, end: at + 1 }),
        is_quote(symbols[at].value) ==> token_at(symbols, at) == literal_at(values(symbols), at),
        is_digit(symbols[at].value) ==> token_at(symbols, at) is Ok && token_at(
            symbols,
            at,
        )->Ok_0 is Integer,
        token_at(symbols, at) == Err::<TokenView, LexErrorView>(
            failure(LexErrorKind::UnknownCharacter, at, at + 1),
        ) <==> !(is_whitespace(symbols[at].value) || is_bracket(symbols[at].value) || is_quote(
            symbols[at].value,
        ) || is_digit(symbols[at].value) || starts_word(symbols[at])),
{
    if is_quote(symbols[at].value) {
        assert(values(symbols)[at] == symbols[at].value);
        lemma_literal(values(symbols), at);
    }
}

} // verus!
