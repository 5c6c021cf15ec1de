use arlang::chars::{
    check_digit, check_word_part, check_word_start, chars_of, classify, classify_all, string_of,
    value_of_digit,
};
use arlang::error::LexErrorKind;
use arlang::span::Location;
use arlang::text::indent;
use arlang::token::{same_text, Keyword};

#[test]
fn location_new_has_length_one() {
    let loc = Location::new(7);
    assert_eq!(loc.start_index(), 7);
    assert_eq!(loc.end_index(), 8);
    let first = Location::new(0);
    assert_eq!((first.start_index(), first.end_index()), (0, 1));
}

#[test]
fn location_with_size_keeps_the_start() {
    let loc = Location::new(7).with_size(5);
    assert_eq!(loc.start_index(), 7);
    assert_eq!(loc.end_index(), 12);
    let empty = Location::new(7).with_size(0);
    assert_eq!((empty.start_index(), empty.end_index()), (7, 7));
    let again = loc.with_size(2);
    assert_eq!((again.start_index(), again.end_index()), (7, 9));
}

#[test]
fn location_start_keeps_the_end() {
    let loc = Location::new(7).with_size(5).start(9);
    assert_eq!(loc.start_index(), 9);
    assert_eq!(loc.end_index(), 12);
    let behind = Location::new(7).start(20);
    assert_eq!((behind.start_index(), behind.end_index()), (20, 8));
}

#[test]
fn keyword_lookup_is_exact() {
    assert_eq!(Keyword::lookup("let"), Some(Keyword::Let));
    assert_eq!(Keyword::lookup("const"), Some(Keyword::Const));
    assert_eq!(Keyword::lookup("fun"), Some(Keyword::Fun));
    assert_eq!(Keyword::lookup("LET"), None);
    assert_eq!(Keyword::lookup("le"), None);
    assert_eq!(Keyword::lookup("lets"), None);
    assert_eq!(Keyword::lookup(" let"), None);
    assert_eq!(Keyword::lookup(""), None);
}

#[test]
fn keyword_is_found_under_its_spelling() {
    for kind in [Keyword::Let, Keyword::Const, Keyword::Fun] {
        assert_eq!(Keyword::lookup(kind.spelling()), Some(kind));
    }
    assert_eq!(Keyword::Let.spelling(), "let");
    assert_eq!(Keyword::Const.spelling(), "const");
    assert_eq!(Keyword::Fun.spelling(), "fun");
}

#[test]
fn same_text_compares_characters() {
    assert!(same_text("", ""));
    assert!(same_text("abc", "abc"));
    assert!(same_text("h\u{e9}", "h\u{e9}"));
    assert!(!same_text("abc", "abd"));
    assert!(!same_text("abc", "ab"));
    assert!(!same_text("", "a"));
    // same number of bytes, different number of characters
    assert!(!same_text("\u{e9}", "ab"));
}

#[test]
fn error_messages() {
    assert_eq!(
        LexErrorKind::UnterminatedLiteral.message(),
        "Incomplete char/string literal: The closing quote is missing"
    );
    assert_eq!(LexErrorKind::InvalidCharLiteral.message(), "char must hold exactly one letter");
    assert_eq!(LexErrorKind::UnknownCharacter.message(), "Encountered unknown input.");
}

#[test]
fn digits_and_their_values() {
    for (i, c) in "0123456789".chars().enumerate() {
        assert!(check_digit(c));
        assert_eq!(value_of_digit(c), i as i32);
    }
    assert!(!check_digit('/'));
    assert!(!check_digit(':'));
    assert!(!check_digit('a'));
    assert!(!check_digit('\u{663}'));
}

#[test]
fn word_characters() {
    assert!(check_word_start(classify('a')));
    assert!(check_word_start(classify('Z')));
    assert!(check_word_start(classify('_')));
    assert!(!check_word_start(classify('1')));
    assert!(!check_word_start(classify('-')));
    assert!(check_word_part(classify('a')));
    assert!(check_word_part(classify('1')));
    assert!(check_word_part(classify('_')));
    assert!(!check_word_part(classify('-')));
    assert!(!check_word_part(classify(' ')));
}

#[test]
fn strings_to_characters_and_back() {
    assert_eq!(chars_of(""), Vec::<char>::new());
    assert_eq!(chars_of("a\u{e9}b"), vec!['a', '\u{e9}', 'b']);
    let symbols = classify_all("a\u{e9}1");
    assert_eq!(symbols, vec![classify('a'), classify('\u{e9}'), classify('1')]);
    assert_eq!(string_of(&symbols, 0, 3), "a\u{e9}1");
    assert_eq!(string_of(&symbols, 1, 3), "\u{e9}1");
    assert_eq!(string_of(&symbols, 1, 2), "\u{e9}");
    assert_eq!(string_of(&symbols, 2, 2), "");
}

fn indent_by_std(s: &str, n: usize) -> String {
    let mut out = String::new();
    for line in s.lines() {
        out.push_str(&format!("{}{}\n", " ".repeat(n), line));
    }
    out
}

#[test]
fn indent_puts_spaces_before_each_line() {
    assert_eq!(indent("a\nb", 2), "  a\n  b\n");
    assert_eq!(indent("a\nb\n", 2), "  a\n  b\n");
    assert_eq!(indent("a", 0), "a\n");
    assert_eq!(indent("", 4), "");
    assert_eq!(indent("\n", 1), " \n");
    assert_eq!(indent("\n\n", 1), " \n \n");
    assert_eq!(indent("a\n\nb", 3), "   a\n   \n   b\n");
}

#[test]
fn indent_drops_carriage_returns_before_line_feeds_only() {
    assert_eq!(indent("a\r\nb", 1), " a\n b\n");
    assert_eq!(indent("a\r\nb\r", 1), " a\n b\r\n");
    assert_eq!(indent("a\rb\n", 1), " a\rb\n");
    assert_eq!(indent("a\r\r\n", 1), " a\r\n");
    assert_eq!(indent("\r\n", 1), " \n");
    assert_eq!(indent("\r", 1), " \r\n");
}

#[test]
fn indent_splits_lines_as_std_does() {
    let texts = [
        "", "a", "a\n", "\n", "\n\n", "a\nb", "a\r\nb", "a\r\nb\r", "\r", "\r\n", "\r\r\n",
        "a\rb", "a\n\r\nb\n", "  x\n\ty\n", "h\u{e9}\n\u{e9}", "a\n\r",
    ];
    for text in texts {
        for n in [0, 1, 4] {
            assert_eq!(indent(text, n), indent_by_std(text, n));
        }
    }
}
