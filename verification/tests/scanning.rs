use arlang::chars::{classify, Symbol};
use arlang::lexer::{
    next_token, tokenize, Keyword, LexError, LexErrorKind, Lexer, Location, Token,
};

fn lex(text: &str) -> Result<Vec<Token>, LexError> {
    Lexer::new(text.to_string()).lex()
}

fn at(start: usize, size: usize) -> Location {
    Location::new(start).with_size(size)
}

fn span(token: &Token) -> (usize, usize) {
    (token.loc().start_index(), token.loc().end_index())
}

#[test]
fn empty_text_has_no_tokens() {
    assert_eq!(lex(""), Ok(vec![]));
}

#[test]
fn brackets_are_single_characters_in_order() {
    let tokens = lex("([{}])").unwrap();
    assert_eq!(
        tokens,
        vec![
            Token::Paren { loc: at(0, 1), open: true },
            Token::Bracket { loc: at(1, 1), open: true },
            Token::Brace { loc: at(2, 1), open: true },
            Token::Brace { loc: at(3, 1), open: false },
            Token::Bracket { loc: at(4, 1), open: false },
            Token::Paren { loc: at(5, 1), open: false },
        ]
    );
}

#[test]
fn whitespace_is_kept_one_token_per_character() {
    let tokens = lex(" \t\n ").unwrap();
    assert_eq!(
        tokens,
        vec![
            Token::Whitespace { loc: at(0, 1) },
            Token::Whitespace { loc: at(1, 1) },
            Token::Whitespace { loc: at(2, 1) },
            Token::Whitespace { loc: at(3, 1) },
        ]
    );
}

#[test]
fn carriage_return_is_no_whitespace() {
    let err = lex("a\r\n").unwrap_err();
    assert_eq!(err, LexError { kind: LexErrorKind::UnknownCharacter, loc: at(1, 1) });
}

#[test]
fn integer_has_its_decimal_value() {
    assert_eq!(lex("123"), Ok(vec![Token::Integer { loc: at(0, 3), value: 123 }]));
    assert_eq!(lex("0"), Ok(vec![Token::Integer { loc: at(0, 1), value: 0 }]));
    assert_eq!(lex("120"), Ok(vec![Token::Integer { loc: at(0, 3), value: 120 }]));
    assert_eq!(lex("100"), Ok(vec![Token::Integer { loc: at(0, 3), value: 100 }]));
    assert_eq!(lex("007"), Ok(vec![Token::Integer { loc: at(0, 3), value: 7 }]));
    assert_eq!(
        lex("2147483647"),
        Ok(vec![Token::Integer { loc: at(0, 10), value: i32::MAX }])
    );
}

#[test]
fn integer_too_large_wraps_around() {
    assert_eq!(
        lex("2147483648"),
        Ok(vec![Token::Integer { loc: at(0, 10), value: i32::MIN }])
    );
    assert_eq!(lex("4294967296"), Ok(vec![Token::Integer { loc: at(0, 10), value: 0 }]));
    assert_eq!(lex("4294967297"), Ok(vec![Token::Integer { loc: at(0, 10), value: 1 }]));
    assert_eq!(
        lex("99999999999999999999"),
        Ok(vec![Token::Integer { loc: at(0, 20), value: 1661992959 }])
    );
}

#[test]
fn integer_ends_at_first_non_digit() {
    assert_eq!(
        lex("12ab"),
        Ok(vec![
            Token::Integer { loc: at(0, 2), value: 12 },
            Token::Identifier { loc: at(2, 2), name: "ab".to_string() },
        ])
    );
    assert_eq!(
        lex("1 2"),
        Ok(vec![
            Token::Integer { loc: at(0, 1), value: 1 },
            Token::Whitespace { loc: at(1, 1) },
            Token::Integer { loc: at(2, 1), value: 2 },
        ])
    );
}

#[test]
fn identifier_carries_its_name() {
    assert_eq!(
        lex("hi_there"),
        Ok(vec![Token::Identifier { loc: at(0, 8), name: "hi_there".to_string() }])
    );
    assert_eq!(
        lex("_x9"),
        Ok(vec![Token::Identifier { loc: at(0, 3), name: "_x9".to_string() }])
    );
    assert_eq!(lex("_"), Ok(vec![Token::Identifier { loc: at(0, 1), name: "_".to_string() }]));
}

#[test]
fn keywords_are_told_from_identifiers() {
    assert_eq!(
        lex("let const fun"),
        Ok(vec![
            Token::Keyword { loc: at(0, 3), kind: Keyword::Let },
            Token::Whitespace { loc: at(3, 1) },
            Token::Keyword { loc: at(4, 5), kind: Keyword::Const },
            Token::Whitespace { loc: at(9, 1) },
            Token::Keyword { loc: at(10, 3), kind: Keyword::Fun },
        ])
    );
    assert_eq!(
        lex("letter"),
        Ok(vec![Token::Identifier { loc: at(0, 6), name: "letter".to_string() }])
    );
    assert_eq!(
        lex("Let"),
        Ok(vec![Token::Identifier { loc: at(0, 3), name: "Let".to_string() }])
    );
    assert_eq!(
        lex("fun1"),
        Ok(vec![Token::Identifier { loc: at(0, 4), name: "fun1".to_string() }])
    );
}

#[test]
fn words_follow_the_unicode_tables() {
    assert_eq!(
        lex("h\u{e9}llo"),
        Ok(vec![Token::Identifier { loc: at(0, 5), name: "h\u{e9}llo".to_string() }])
    );
    // a superscript two is a number, so it goes on a word but begins none
    assert_eq!(
        lex("x\u{b2}"),
        Ok(vec![Token::Identifier { loc: at(0, 2), name: "x\u{b2}".to_string() }])
    );
    assert_eq!(
        lex("\u{b2}"),
        Err(LexError { kind: LexErrorKind::UnknownCharacter, loc: at(0, 1) })
    );
    // an Arabic-Indic digit is no ASCII digit
    assert_eq!(
        lex("\u{663}"),
        Err(LexError { kind: LexErrorKind::UnknownCharacter, loc: at(0, 1) })
    );
}

#[test]
fn positions_count_characters_not_bytes() {
    let tokens = lex("\"\u{e9}\u{e9}\" x").unwrap();
    assert_eq!(
        tokens,
        vec![
            Token::String { loc: at(0, 4), value: "\u{e9}\u{e9}".to_string() },
            Token::Whitespace { loc: at(4, 1) },
            Token::Identifier { loc: at(5, 1), name: "x".to_string() },
        ]
    );
}

#[test]
fn char_literal_holds_one_character() {
    assert_eq!(lex("'a'"), Ok(vec![Token::Char { loc: at(0, 3), value: 'a' }]));
    assert_eq!(lex("'\"'"), Ok(vec![Token::Char { loc: at(0, 3), value: '"' }]));
    assert_eq!(lex("'\\'"), Err(LexError { kind: LexErrorKind::UnterminatedLiteral, loc: at(0, 3) }));
}

#[test]
fn char_literal_of_other_length_is_invalid() {
    assert_eq!(lex("''"), Err(LexError { kind: LexErrorKind::InvalidCharLiteral, loc: at(0, 2) }));
    assert_eq!(
        lex("'ab'"),
        Err(LexError { kind: LexErrorKind::InvalidCharLiteral, loc: at(0, 4) })
    );
    assert_eq!(
        lex("x 'ab' y"),
        Err(LexError { kind: LexErrorKind::InvalidCharLiteral, loc: at(2, 4) })
    );
    // the escaped quote stays in the content with its backslash: two characters
    assert_eq!(
        lex("'\\''"),
        Err(LexError { kind: LexErrorKind::InvalidCharLiteral, loc: at(0, 4) })
    );
}

#[test]
fn string_literal_excludes_its_quotes() {
    assert_eq!(
        lex("\"hi there\""),
        Ok(vec![Token::String { loc: at(0, 10), value: "hi there".to_string() }])
    );
    assert_eq!(lex("\"\""), Ok(vec![Token::String { loc: at(0, 2), value: String::new() }]));
    assert_eq!(
        lex("\"it's\""),
        Ok(vec![Token::String { loc: at(0, 6), value: "it's".to_string() }])
    );
    assert_eq!(
        lex("\"@ 1 let\""),
        Ok(vec![Token::String { loc: at(0, 9), value: "@ 1 let".to_string() }])
    );
}

#[test]
fn escaped_quote_does_not_end_a_literal() {
    // "a\"b" : the quote behind the backslash is content, and so is the backslash
    assert_eq!(
        lex("\"a\\\"b\""),
        Ok(vec![Token::String { loc: at(0, 6), value: "a\\\"b".to_string() }])
    );
    // "a\\" : the last quote stands behind a backslash, so nothing closes the literal
    assert_eq!(
        lex("\"a\\\\\""),
        Err(LexError { kind: LexErrorKind::UnterminatedLiteral, loc: at(0, 5) })
    );
    // "\n" keeps its two characters: nothing is decoded
    assert_eq!(
        lex("\"\\n\""),
        Ok(vec![Token::String { loc: at(0, 4), value: "\\n".to_string() }])
    );
}

#[test]
fn unterminated_literal_fails() {
    assert_eq!(
        lex("\"abc"),
        Err(LexError { kind: LexErrorKind::UnterminatedLiteral, loc: at(0, 4) })
    );
    assert_eq!(lex("\""), Err(LexError { kind: LexErrorKind::UnterminatedLiteral, loc: at(0, 1) }));
    assert_eq!(lex("'a"), Err(LexError { kind: LexErrorKind::UnterminatedLiteral, loc: at(0, 2) }));
    assert_eq!(
        lex("x = \"abc'"),
        Err(LexError { kind: LexErrorKind::UnknownCharacter, loc: at(2, 1) })
    );
    assert_eq!(
        lex("x \"abc'"),
        Err(LexError { kind: LexErrorKind::UnterminatedLiteral, loc: at(2, 5) })
    );
}

#[test]
fn unknown_character_fails() {
    assert_eq!(lex("@"), Err(LexError { kind: LexErrorKind::UnknownCharacter, loc: at(0, 1) }));
    assert_eq!(
        lex("let x @ 1"),
        Err(LexError { kind: LexErrorKind::UnknownCharacter, loc: at(6, 1) })
    );
    assert_eq!(lex("a+b"), Err(LexError { kind: LexErrorKind::UnknownCharacter, loc: at(1, 1) }));
}

#[test]
fn first_failure_is_reported() {
    assert_eq!(
        lex("@ \"abc"),
        Err(LexError { kind: LexErrorKind::UnknownCharacter, loc: at(0, 1) })
    );
    assert_eq!(
        lex("'' @"),
        Err(LexError { kind: LexErrorKind::InvalidCharLiteral, loc: at(0, 2) })
    );
}

#[test]
fn spans_cover_the_text_without_gap_or_overlap() {
    let text = "fun add(a b) {\n\tlet s \"a\\\"b\" 'c' 42 [x_1]\n}";
    let tokens = lex(text).unwrap();
    assert_eq!(tokens.len(), 27);
    let mut expected = 0;
    for token in &tokens {
        let (start, end) = span(token);
        assert_eq!(start, expected);
        assert!(end > start);
        expected = end;
    }
    assert_eq!(expected, text.chars().count());
}

#[test]
fn scanning_twice_gives_the_same() {
    for text in ["let x 12 \"s\" 'c' (y)", "let @", "\"open", "''", ""] {
        let lexer = Lexer::new(text.to_string());
        assert_eq!(lexer.lex(), lexer.lex());
        assert_eq!(lexer.lex(), Lexer::new(text.to_string()).lex());
    }
}

#[test]
fn classify_asks_the_unicode_tables() {
    assert_eq!(classify('a'), Symbol { value: 'a', alphabetic: true, alphanumeric: true });
    assert_eq!(classify('7'), Symbol { value: '7', alphabetic: false, alphanumeric: true });
    assert_eq!(classify('_'), Symbol { value: '_', alphabetic: false, alphanumeric: false });
    assert_eq!(classify('@'), Symbol { value: '@', alphabetic: false, alphanumeric: false });
    assert_eq!(
        classify('\u{e9}'),
        Symbol { value: '\u{e9}', alphabetic: true, alphanumeric: true }
    );
}

#[test]
fn tokenize_goes_by_the_given_classes() {
    let plain = |c: char| Symbol { value: c, alphabetic: false, alphanumeric: false };
    let letter = |c: char| Symbol { value: c, alphabetic: true, alphanumeric: true };
    // with '#' declared a letter the scanner reads a word
    assert_eq!(
        tokenize(&vec![letter('#'), letter('#')]),
        Ok(vec![Token::Identifier { loc: at(0, 2), name: "##".to_string() }])
    );
    // with 'a' declared no letter it begins no token
    assert_eq!(
        tokenize(&vec![plain('a')]),
        Err(LexError { kind: LexErrorKind::UnknownCharacter, loc: at(0, 1) })
    );
    // a character that may begin a word but not go on one is a word by itself
    let opener = Symbol { value: 'q', alphabetic: true, alphanumeric: false };
    assert_eq!(
        tokenize(&vec![opener, opener]),
        Ok(vec![
            Token::Identifier { loc: at(0, 1), name: "q".to_string() },
            Token::Identifier { loc: at(1, 1), name: "q".to_string() },
        ])
    );
    // digits and literals do not depend on the classes
    assert_eq!(
        tokenize(&vec![letter('1'), letter('2')]),
        Ok(vec![Token::Integer { loc: at(0, 2), value: 12 }])
    );
}

#[test]
fn next_token_reads_from_any_index() {
    let symbols: Vec<Symbol> = "ab 12".chars().map(classify).collect();
    assert_eq!(
        next_token(&symbols, 0),
        Ok(Token::Identifier { loc: at(0, 2), name: "ab".to_string() })
    );
    assert_eq!(
        next_token(&symbols, 1),
        Ok(Token::Identifier { loc: at(1, 1), name: "b".to_string() })
    );
    assert_eq!(next_token(&symbols, 2), Ok(Token::Whitespace { loc: at(2, 1) }));
    assert_eq!(next_token(&symbols, 4), Ok(Token::Integer { loc: at(4, 1), value: 2 }));
}

#[test]
fn token_knows_its_location() {
    let tokens = lex("ab \"c\"").unwrap();
    assert_eq!(tokens[0].loc(), at(0, 2));
    assert_eq!(tokens[1].loc(), at(2, 1));
    assert_eq!(tokens[2].loc(), at(3, 3));
    assert_eq!(span(&tokens[2]), (3, 6));
}
