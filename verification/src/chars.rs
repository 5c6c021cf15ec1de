//! Character classes of the language, and the conversions between strings
//! and vectors of characters.

use vstd::prelude::*;

verus! {

/// What `char::is_alphabetic` answers for `c`: whether `c` has the Unicode
/// property `Alphabetic`, by the tables of the standard library in use.
pub uninterp spec fn alphabetic(c: char) -> bool;

/// What `char::is_alphanumeric` answers for `c`: whether `c` is alphabetic or
/// belongs to one of the Unicode number categories, by the same tables.
pub uninterp spec fn alphanumeric(c: char) -> bool;

/// `char::is_alphabetic` is taken on trust: nothing is claimed of it beyond
/// that it is a function of the character.
pub assume_specification[ char::is_alphabetic ](c: char) -> (r: bool)
    ensures
        r == alphabetic(c),
;

/// `char::is_alphanumeric` is taken on trust: nothing is claimed of it
/// beyond that it is a function of the character.
pub assume_specification[ char::is_alphanumeric ](c: char) -> (r: bool)
    ensures
        r == alphanumeric(c),
;

/// `String::push` is taken on trust: it appends the one character and leaves
/// the rest of the string as it was.
pub assume_specification[ std::string::String::push ](s: &mut std::string::String, ch: char)
    ensures
        final(s)@ == old(s)@.push(ch),
;

/// Space, tab and newline separate tokens.
pub open spec fn is_whitespace(c: char) -> bool {
    c == ' ' || c == '\t' || c == '\n'
}

/// The six bracket characters.
pub open spec fn is_bracket(c: char) -> bool {
    c == '(' || c == ')' || c == '[' || c == ']' || c == '{' || c == '}'
}

/// The quote characters: `'` opens a character literal, `"` a string literal.
pub open spec fn is_quote(c: char) -> bool {
    c == '\'' || c == '"'
}

/// The ten ASCII decimal digits.
pub open spec fn is_digit(c: char) -> bool {
    '0' <= c <= '9'
}

/// The number that a decimal digit stands for.
pub open spec fn digit_value(c: char) -> int {
    c as u32 - '0' as u32
}

/// A character together with what the Unicode tables say of it. The scanner
/// reads these answers and never consults the tables itself.
#[derive(Debug, Clone, Copy, PartialEq, Eq)]
pub struct Symbol {
    pub value: char,
    pub alphabetic: bool,
    pub alphanumeric: bool,
}

/// The character `c` with the answers of the Unicode tables for it.
pub open spec fn symbol_of(c: char) -> Symbol {
    Symbol { value: c, alphabetic: alphabetic(c), alphanumeric: alphanumeric(c) }
}

/// The characters of `text`, each with the answers of the Unicode tables.
pub open spec fn symbols_of(text: Seq<char>) -> Seq<Symbol> {
    text.map_values(|c: char| symbol_of(c))
}

/// The characters that `symbols` stand for.
pub open spec fn values(symbols: Seq<Symbol>) -> Seq<char> {
    symbols.map_values(|s: Symbol| s.value)
}

/// A word begins with an alphabetic character or an underscore.
pub open spec fn starts_word(s: Symbol) -> bool {
    s.alphabetic || s.value == '_'
}

/// A word goes on over alphanumeric characters and underscores.
pub open spec fn continues_word(s: Symbol) -> bool {
    s.alphanumeric || s.value == '_'
}

/// Classifying a text changes none of its characters.
pub proof fn lemma_values_of_symbols(text: Seq<char>)
    ensures
        symbols_of(text).len() == text.len(),
        values(symbols_of(text)) == text,
{
    assert(values(symbols_of(text)) =~= text);
}

/// Whether `c` is an ASCII decimal digit.
pub fn check_digit(c: char) -> (r: bool)
    ensures
        r == is_digit(c),
{
    '0' <= c && c <= '9'
}

/// The value of the decimal digit `c`.
pub fn value_of_digit(c: char) -> (d: i32)
    requires
        is_digit(c),
    ensures
        d == digit_value(c),
        0 <= d <= 9,
{
    (c as u32 - '0' as u32) as i32
}

/// Looks `c` up in the Unicode tables.
pub fn classify(c: char) -> (s: Symbol)
    ensures
        s == symbol_of(c),
{
    Symbol { value: c, alphabetic: c.is_alphabetic(), alphanumeric: c.is_alphanumeric() }
}

/// Whether a word may begin with `s`.
pub fn check_word_start(s: Symbol) -> (r: bool)
    ensures
        r == starts_word(s),
{
    s.alphabetic || s.value == '_'
}

/// Whether a word may go on with `s`.
pub fn check_word_part(s: Symbol) -> (r: bool)
    ensures
        r == continues_word(s),
{
    s.alphanumeric || s.value == '_'
}

/// The characters of `s`, in order, each looked up in the Unicode tables.
pub fn classify_all(s: &str) -> (v: Vec<Symbol>)
    ensures
        v@ == symbols_of(s@),
{
    let mut v: Vec<Symbol> = Vec::new();
    for c in it: s.chars()
        invariant
            v@ == symbols_of(it.seq().take(it.index())),
    {
        proof {
            let done = it.seq().take(it.index());
            assert(it.seq().take(it.index() + 1) == done.push(c));
            assert(symbols_of(done.push(c)) == symbols_of(done).push(symbol_of(c)));
        }
        v.push(classify(c));
    }
    v
}

/// The characters of `s`, in order.
pub fn chars_of(s: &str) -> (v: Vec<char>)
    ensures
        v@ == s@,
{
    let mut v: Vec<char> = Vec::new();
    for c in it: s.chars()
        invariant
            v@ == it.seq().take(it.index()),
    {
        v.push(c);
    }
    v
}

/// The string made of the characters that `symbols[from..to]` stand for.
pub fn string_of(symbols: &Vec<Symbol>, from: usize, to: usize) -> (s: String)
    requires
        from <= to <= symbols.len(),
    ensures
        s@ == values(symbols@).subrange(from as int, to as int),
{
    let mut s = String::new();
    let mut i: usize = from;
    while i < to
        invariant
            from <= i <= to <= symbols.len(),
            s@ == values(symbols@).subrange(from as int, i as int),
        decreases to - i,
    {
        s.push(symbols[i].value);
        i += 1;
    }
    s
}

} // verus!
