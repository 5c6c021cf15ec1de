//! What the scan of a text is.
//!
//! Everything here is mathematics over sequences: where a run of digits or a
//! word ends, where a literal closes, which token begins at a position, and,
//! from these, the token sequence of a whole text. Digits and literals are a
//! matter of the characters alone. Words depend on the Unicode tables, so
//! the scan is defined on classified characters, [`Symbol`]s, and the scan
//! of a text is the scan of its characters as the tables classify them.

use vstd::prelude::*;
use vstd::arithmetic::div_mod::{
    lemma_fundamental_div_mod, lemma_mod_bound, lemma_mod_multiples_vanish, lemma_small_mod,
};
use crate::chars::{
    continues_word, digit_value, is_bracket, is_digit, is_quote, is_whitespace, starts_word,
    symbols_of, values, Symbol,
};
use crate::error::{LexErrorKind, LexErrorView};
use crate::span::Span;
use crate::token::{keyword_of, TokenView};

verus! {

/// The first index at or after `from` that holds no digit; the length of the
/// text if digits go on to its end.
pub open spec fn digits_end(text: Seq<char>, from: int) -> int
    decreases text.len() - from,
{
    if 0 <= from < text.len() && is_digit(text[from]) {
        digits_end(text, from + 1)
    } else {
        from
    }
}

/// The first index at or after `from` that holds no character of a word; the
/// length of the text if the word goes on to its end.
pub open spec fn word_end(symbols: Seq<Symbol>, from: int) -> int
    decreases symbols.len() - from,
{
    if 0 <= from < symbols.len() && continues_word(symbols[from]) {
        word_end(symbols, from + 1)
    } else {
        from
    }
}

/// Whether the character at `at` closes a literal that `quote` opened: it is
/// the same quote character, and no backslash stands directly before it.
pub open spec fn closes(text: Seq<char>, quote: char, at: int) -> bool {
    text[at] == quote && text[at - 1] != '\\'
}

/// The first index at or after `from` that closes a literal opened by
/// `quote`; the length of the text if nothing closes it.
pub open spec fn literal_end(text: Seq<char>, quote: char, from: int) -> int
    decreases text.len() - from,
{
    if 1 <= from < text.len() && !closes(text, quote, from) {
        literal_end(text, quote, from + 1)
    } else {
        from
    }
}

/// The number that a sequence of decimal digits denotes, most significant
/// digit first.
pub open spec fn decimal_value(digits: Seq<char>) -> int
    decreases digits.len(),
{
    if digits.len() == 0 {
        0
    } else {
        10 * decimal_value(digits.drop_last()) + digit_value(digits.last())
    }
}

/// The 32-bit signed integer that is congruent to `n` modulo 2^32: what is
/// left of `n` when it is kept in 32 bits.
pub open spec fn wrap_i32(n: int) -> i32 {
    let low = n % 0x1_0000_0000;
    if low > i32::MAX {
        (low - 0x1_0000_0000) as i32
    } else {
        low as i32
    }
}

/// The failure of kind `kind` about the characters `start..end`.
pub open spec fn failure(kind: LexErrorKind, start: int, end: int) -> LexErrorView {
    LexErrorView { kind, loc: Span { start, end } }
}

/// The token that a bracket character stands for at position `at`.
pub open spec fn bracket_at(c: char, at: int) -> TokenView {
    let loc = Span::at(at, 1);
    if c == '(' {
        TokenView::Paren { loc, open: true }
    } else if c == ')' {
        TokenView::Paren { loc, open: false }
    } else if c == '[' {
        TokenView::Bracket { loc, open: true }
    } else if c == ']' {
        TokenView::Bracket { loc, open: false }
    } else if c == '{' {
        TokenView::Brace { loc, open: true }
    } else {
        TokenView::Brace { loc, open: false }
    }
}

/// The literal whose opening quote stands at `at`. It runs to the first
/// closing quote; what stands between the quotes is its content, kept as
/// written, backslashes included. A literal that is never closed is a
/// failure about the text from the opening quote on; a character literal
/// whose content is not one character is a failure about the whole literal.
pub open spec fn literal_at(text: Seq<char>, at: int) -> Result<TokenView, LexErrorView> {
    let quote = text[at];
    let close = literal_end(text, quote, at + 1);
    let content = text.subrange(at + 1, close);
    let loc = Span { start: at, end: close + 1 };
    if close >= text.len() {
        Err(failure(LexErrorKind::UnterminatedLiteral, at, text.len() as int))
    } else if quote == '"' {
        Ok(TokenView::String { loc, value: content })
    } else if content.len() == 1 {
        Ok(TokenView::Char { loc, value: content[0] })
    } else {
        Err(failure(LexErrorKind::InvalidCharLiteral, at, close + 1))
    }
}

/// The integer that begins at `at`: the longest run of digits, read in base
/// ten and kept in 32 bits.
pub open spec fn integer_at(text: Seq<char>, at: int) -> TokenView {
    let end = digits_end(text, at);
    TokenView::Integer {
        loc: Span { start: at, end },
        value: wrap_i32(decimal_value(text.subrange(at, end))),
    }
}

/// The word that begins at `at`: the character there and the longest run of
/// word characters behind it. It is a keyword if it is written exactly as
/// one, an identifier otherwise.
pub open spec fn word_at(symbols: Seq<Symbol>, at: int) -> TokenView {
    let end = word_end(symbols, at + 1);
    let word = values(symbols).subrange(at, end);
    let loc = Span { start: at, end };
    match keyword_of(word) {
        Some(kind) => TokenView::Keyword { loc, kind },
        None => TokenView::Identifier { loc, name: word },
    }
}

/// The token that begins at index `at` of `symbols`, or the reason why none
/// does. The classes are tried in this order: whitespace, brackets, quotes,
/// digits, words.
pub open spec fn token_at(symbols: Seq<Symbol>, at: int) -> Result<TokenView, LexErrorView>
    recommends
        0 <= at < symbols.len(),
{
    let c = symbols[at].value;
    if is_whitespace(c) {
        Ok(TokenView::Whitespace { loc: Span::at(at, 1) })
    } else if is_bracket(c) {
        Ok(bracket_at(c, at))
    } else if is_quote(c) {
        literal_at(values(symbols), at)
    } else if is_digit(c) {
        Ok(integer_at(values(symbols), at))
    } else if starts_word(symbols[at]) {
        Ok(word_at(symbols, at))
    } else {
        Err(failure(LexErrorKind::UnknownCharacter, at, at + 1))
    }
}

/// The index at which the scan goes on after the token that begins at `at`.
pub open spec fn next_index(symbols: Seq<Symbol>, at: int) -> int {
    match token_at(symbols, at) {
        Ok(token) => token.span().end,
        Err(_) => at + 1,
    }
}

/// The tokens of `symbols` from index `from` on, or the first failure met.
pub open spec fn scan_from(symbols: Seq<Symbol>, from: int) -> Result<
    Seq<TokenView>,
    LexErrorView,
>
    decreases symbols.len() - from,
    via scan_from_decreases
{
    if 0 <= from < symbols.len() {
        match token_at(symbols, from) {
            Err(e) => Err(e),
            Ok(token) => prepend(seq![token], scan_from(symbols, next_index(symbols, from))),
        }
    } else {
        Ok(Seq::empty())
    }
}

#[via_fn]
proof fn scan_from_decreases(symbols: Seq<Symbol>, from: int) {
    if 0 <= from < symbols.len() && token_at(symbols, from) is Ok {
        lemma_token_extent(symbols, from);
    }
}

/// The scan of classified characters: their tokens in order, or the first
/// failure met.
pub open spec fn scan_symbols(symbols: Seq<Symbol>) -> Result<Seq<TokenView>, LexErrorView> {
    scan_from(symbols, 0)
}

/// The scan of `text`: its tokens in order, or the first failure met.
pub open spec fn scan(text: Seq<char>) -> Result<Seq<TokenView>, LexErrorView> {
    scan_symbols(symbols_of(text))
}

/// The run of digits from `from` ends inside the text, holds digits only,
/// and cannot be made longer.
pub proof fn lemma_digits_end(text: Seq<char>, from: int)
    requires
        0 <= from <= text.len(),
    ensures
        from <= digits_end(text, from) <= text.len(),
        forall|k: int| from <= k < digits_end(text, from) ==> is_digit(#[trigger] text[k]),
        digits_end(text, from) < text.len() ==> !is_digit(text[digits_end(text, from)]),
    decreases text.len() - from,
{
    if from < text.len() && is_digit(text[from]) {
        lemma_digits_end(text, from + 1);
    }
}

/// The word from `from` ends inside the text, holds word characters only,
/// and cannot be made longer.
pub proof fn lemma_word_end(symbols: Seq<Symbol>, from: int)
    requires
        0 <= from <= symbols.len(),
    ensures
        from <= word_end(symbols, from) <= symbols.len(),
        forall|k: int|
            from <= k < word_end(symbols, from) ==> continues_word(#[trigger] symbols[k]),
        word_end(symbols, from) < symbols.len() ==> !continues_word(
            symbols[word_end(symbols, from)],
        ),
    decreases symbols.len() - from,
{
    if from < symbols.len() && continues_word(symbols[from]) {
        lemma_word_end(symbols, from + 1);
    }
}

/// The search for a closing quote from `from` ends inside the text, passes
/// over nothing that closes the literal, and stops at the first index that
/// does.
pub proof fn lemma_literal_end(text: Seq<char>, quote: char, from: int)
    requires
        1 <= from <= text.len(),
    ensures
        from <= literal_end(text, quote, from) <= text.len(),
        forall|k: int| from <= k < literal_end(text, quote, from) ==> !closes(text, quote, k),
        literal_end(text, quote, from) < text.len() ==> closes(
            text,
            quote,
            literal_end(text, quote, from),
        ),
    decreases text.len() - from,
{
    if from < text.len() && !closes(text, quote, from) {
        lemma_literal_end(text, quote, from + 1);
    }
}

/// An index `end` at which the digits from `from` stop is where the run of
/// digits ends.
pub proof fn lemma_digits_end_is(text: Seq<char>, from: int, end: int)
    requires
        0 <= from <= end <= text.len(),
        forall|k: int| from <= k < end ==> is_digit(#[trigger] text[k]),
        end < text.len() ==> !is_digit(text[end]),
    ensures
        digits_end(text, from) == end,
    decreases end - from,
{
    if from < end {
        lemma_digits_end_is(text, from + 1, end);
    }
}

/// An index `end` at which the word characters from `from` stop is where
/// the word ends.
pub proof fn lemma_word_end_is(symbols: Seq<Symbol>, from: int, end: int)
    requires
        0 <= from <= end <= symbols.len(),
        forall|k: int| from <= k < end ==> continues_word(#[trigger] symbols[k]),
        end < symbols.len() ==> !continues_word(symbols[end]),
    ensures
        word_end(symbols, from) == end,
    decreases end - from,
{
    if from < end {
        lemma_word_end_is(symbols, from + 1, end);
    }
}

/// The first index `end` at or after `from` that closes the literal is where
/// the literal ends; so is the length of the text if no index closes it.
pub proof fn lemma_literal_end_is(text: Seq<char>, quote: char, from: int, end: int)
    requires
        1 <= from <= end <= text.len(),
        forall|k: int| from <= k < end ==> !closes(text, quote, k),
        end < text.len() ==> closes(text, quote, end),
    ensures
        literal_end(text, quote, from) == end,
    decreases end - from,
{
    if from < end {
        lemma_literal_end_is(text, quote, from + 1, end);
    }
}

/// Reading one more digit multiplies the number read so far by ten and adds
/// the digit.
pub proof fn lemma_decimal_value_push(digits: Seq<char>, c: char)
    ensures
        decimal_value(digits.push(c)) == 10 * decimal_value(digits) + digit_value(c),
{
    assert(digits.push(c).drop_last() == digits);
}

/// Keeping a number in 32 bits at every step of reading it gives what
/// keeping it in 32 bits at the end gives.
pub proof fn lemma_wrap_step(n: int, d: i32)
    requires
        0 <= d <= 9,
    ensures
        vstd::wrapping::i32_specs::wrapping_add(
            vstd::wrapping::i32_specs::wrapping_mul(wrap_i32(n), 10),
            d,
        ) == wrap_i32(10 * n + d),
{
    let m: int = 0x1_0000_0000;
    let kept = wrap_i32(n) as int;
    let turns: int = if n % m > i32::MAX { n / m + 1 } else { n / m };
    lemma_fundamental_div_mod(n, m);
    lemma_mod_bound(n, m);
    assert(kept == n - m * turns);
    // ten times the kept number and ten times the number leave the same remainder
    let low = (10 * n) % m;
    lemma_mod_bound(10 * n, m);
    assert((kept * 10) % m == low) by {
        lemma_mod_multiples_vanish(-10 * turns, 10 * n, m);
        assert(m * (-10 * turns) + 10 * n == kept * 10);
    }
    // adding the digit moves the remainder by the digit, around the modulus
    let sum = low + d;
    assert((10 * n + d) % m == sum % m) by {
        lemma_fundamental_div_mod(10 * n, m);
        lemma_mod_multiples_vanish((10 * n) / m, sum, m);
        assert(m * ((10 * n) / m) + sum == 10 * n + d);
    }
    if sum < m {
        lemma_small_mod(sum as nat, m as nat);
    } else {
        lemma_mod_multiples_vanish(1, sum - m, m);
        lemma_small_mod((sum - m) as nat, m as nat);
    }
}

/// A number that fits in 32 bits is kept as it is.
pub proof fn lemma_wrap_small(n: int)
    requires
        i32::MIN <= n <= i32::MAX,
    ensures
        wrap_i32(n) == n,
{
}

/// The scan that begins with the tokens `done` and goes on as `rest` does.
pub open spec fn prepend(
    done: Seq<TokenView>,
    rest: Result<Seq<TokenView>, LexErrorView>,
) -> Result<Seq<TokenView>, LexErrorView> {
    match rest {
        Ok(tokens) => Ok(done + tokens),
        Err(e) => Err(e),
    }
}

/// A token that begins at `at` is read from a proper span that begins at
/// `at` and ends inside the text.
pub proof fn lemma_token_extent(symbols: Seq<Symbol>, at: int)
    requires
        0 <= at < symbols.len(),
        token_at(symbols, at) is Ok,
    ensures
        token_at(symbols, at)->Ok_0.span().start == at,
        at < next_index(symbols, at) <= symbols.len(),
{
    let c = symbols[at].value;
    let text = values(symbols);
    if is_whitespace(c) || is_bracket(c) {
    } else if is_quote(c) {
        lemma_literal_end(text, c, at + 1);
    } else if is_digit(c) {
        lemma_digits_end(text, at + 1);
    } else {
        lemma_word_end(symbols, at + 1);
    }
}

} // verus!
