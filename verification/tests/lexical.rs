use bif_parser::lexical::{lexeme, separator1, skip_separators, token};
use bif_parser::{parse_f64, parse_name, parse_string, parse_u32, CharClass, Cursor, ErrorKind};

fn kind_at<T: std::fmt::Debug>(r: Result<T, bif_parser::ParseError>) -> (ErrorKind, usize) {
    let e = r.unwrap_err();
    (e.kind, e.position)
}

#[test]
fn cursor_starts_at_offset_zero() {
    let c = Cursor::new("abc");
    assert_eq!(c.rest(), "abc");
    assert_eq!(c.offset(), 0);
    assert!(!c.at_end());
    assert!(Cursor::new("").at_end());
}

#[test]
fn cursor_tag_steps_over_the_literal_only() {
    let c = Cursor::new("network x").tag("network").unwrap();
    assert_eq!(c.rest(), " x");
    assert_eq!(c.offset(), 7);
    assert!(Cursor::new("networ").tag("network").is_none());
    assert!(Cursor::new("xnetwork").tag("network").is_none());
}

#[test]
fn cursor_take_while_splits_behind_the_run() {
    let (c, run) = Cursor::new("123abc").take_while(CharClass::Digit);
    assert_eq!(run, "123");
    assert_eq!(c.rest(), "abc");
    assert_eq!(c.offset(), 3);
    let (c, run) = Cursor::new("abc").take_while(CharClass::Digit);
    assert_eq!(run, "");
    assert_eq!(c.rest(), "abc");
    assert_eq!(c.offset(), 0);
}

#[test]
fn cursor_take_while1_needs_one_character() {
    assert!(Cursor::new("abc").take_while1(CharClass::Digit).is_none());
    assert!(Cursor::new("").take_while1(CharClass::Digit).is_none());
    let (c, run) = Cursor::new("7").take_while1(CharClass::Digit).unwrap();
    assert_eq!(run, "7");
    assert!(c.at_end());
}

#[test]
fn cursor_skip_spaces_takes_the_four_blanks() {
    let c = Cursor::new(" \t\r\n x ").skip_spaces();
    assert_eq!(c.rest(), "x ");
    assert_eq!(c.offset(), 5);
    // A no-break space is no white space of the format.
    let c = Cursor::new("\u{a0}x").skip_spaces();
    assert_eq!(c.offset(), 0);
}

#[test]
fn offsets_count_bytes() {
    let (c, name) = parse_name(Cursor::new("état x")).unwrap();
    assert_eq!(name, "état");
    assert_eq!(c.offset(), 5);
    assert_eq!(c.rest(), " x");
}

#[test]
fn char_classes() {
    assert!(CharClass::Name.contains('a'));
    assert!(CharClass::Name.contains('Z'));
    assert!(CharClass::Name.contains('7'));
    assert!(CharClass::Name.contains('_'));
    assert!(CharClass::Name.contains('é'));
    assert!(!CharClass::Name.contains('-'));
    assert!(!CharClass::Name.contains(' '));
    assert!(CharClass::Letter.contains('d'));
    assert!(!CharClass::Letter.contains('1'));
    assert!(!CharClass::Letter.contains('_'));
    assert!(CharClass::Digit.contains('0'));
    assert!(CharClass::Digit.contains('9'));
    assert!(!CharClass::Digit.contains('a'));
    assert!(!CharClass::Digit.contains('٣'));
    assert!(CharClass::Space.contains('\n'));
    assert!(!CharClass::Space.contains('x'));
    assert!(CharClass::Quoted.contains('x'));
    assert!(!CharClass::Quoted.contains('"'));
    assert!(CharClass::Comment.contains('"'));
    assert!(!CharClass::Comment.contains('\n'));
}

#[test]
fn separators_are_white_space_and_comments() {
    let c = skip_separators(Cursor::new("  // a comment\n\t// another\n  x"));
    assert_eq!(c.rest(), "x");
    assert_eq!(c.offset(), 29);
    let c = skip_separators(Cursor::new("x"));
    assert_eq!(c.offset(), 0);
    let c = skip_separators(Cursor::new("// to the end"));
    assert!(c.at_end());
    // One slash is no comment.
    let c = skip_separators(Cursor::new(" / x"));
    assert_eq!(c.rest(), "/ x");
}

#[test]
fn separator1_needs_a_separator() {
    assert_eq!(separator1(Cursor::new(" x")).unwrap().rest(), "x");
    assert_eq!(separator1(Cursor::new("//c\nx")).unwrap().rest(), "x");
    assert_eq!(kind_at(separator1(Cursor::new("x"))), (ErrorKind::UnexpectedToken, 0));
    assert_eq!(kind_at(separator1(Cursor::new(""))), (ErrorKind::UnexpectedToken, 0));
}

#[test]
fn token_and_lexeme() {
    assert_eq!(token(Cursor::new("{ x"), "{").unwrap().rest(), " x");
    assert_eq!(kind_at(token(Cursor::new(" {"), "{")), (ErrorKind::UnexpectedToken, 0));
    assert_eq!(lexeme(Cursor::new("  { x"), "{").unwrap().rest(), " x");
    assert_eq!(kind_at(lexeme(Cursor::new("  } x"), "{")), (ErrorKind::UnexpectedToken, 2));
}

#[test]
fn name_is_the_run_of_name_characters() {
    let (c, name) = parse_name(Cursor::new("abc_1 def")).unwrap();
    assert_eq!(name, "abc_1");
    assert_eq!(c.rest(), " def");
    assert_eq!(c.offset(), 5);
    let (c, name) = parse_name(Cursor::new("x{")).unwrap();
    assert_eq!(name, "x");
    assert_eq!(c.rest(), "{");
}

#[test]
fn name_skips_no_white_space() {
    assert_eq!(kind_at(parse_name(Cursor::new(" abc"))), (ErrorKind::UnexpectedToken, 0));
    assert_eq!(kind_at(parse_name(Cursor::new(""))), (ErrorKind::UnexpectedToken, 0));
    assert_eq!(kind_at(parse_name(Cursor::new("-a"))), (ErrorKind::UnexpectedToken, 0));
}

#[test]
fn string_is_what_stands_between_the_quotes() {
    let (c, value) = parse_string(Cursor::new("\"a, b; 42!\" tail")).unwrap();
    assert_eq!(value, "a, b; 42!");
    assert_eq!(c.rest(), " tail");
    assert_eq!(c.offset(), 11);
}

#[test]
fn string_round_trips() {
    for body in ["", "x", "position = (7460, 5022)", "0.5e-3", "{[()]};|,//", "a\\b", "é ü"] {
        let text = format!("\"{}\"rest", body);
        let (c, value) = parse_string(Cursor::new(&text)).unwrap();
        assert_eq!(value, body);
        assert_eq!(c.rest(), "rest");
        assert_eq!(c.offset(), body.len() + 2);
        assert!(value.len() < text.len());
    }
}

#[test]
fn string_ends_at_the_next_quote() {
    let (c, value) = parse_string(Cursor::new("\"a\"b\"")).unwrap();
    assert_eq!(value, "a");
    assert_eq!(c.rest(), "b\"");
}

#[test]
fn string_without_closing_quote() {
    assert_eq!(kind_at(parse_string(Cursor::new("\"abc"))), (ErrorKind::UnterminatedString, 0));
    assert_eq!(kind_at(parse_string(Cursor::new("\""))), (ErrorKind::UnterminatedString, 0));
    let at = Cursor::new("ab").tag("ab").unwrap();
    assert!(at.at_end());
    let at = Cursor::new("xy\"abc").tag("xy").unwrap();
    assert_eq!(kind_at(parse_string(at)), (ErrorKind::UnterminatedString, 2));
}

#[test]
fn string_without_opening_quote() {
    assert_eq!(kind_at(parse_string(Cursor::new("abc\""))), (ErrorKind::UnexpectedToken, 0));
    assert_eq!(kind_at(parse_string(Cursor::new(""))), (ErrorKind::UnexpectedToken, 0));
}

#[test]
fn unsigned_integers() {
    let (c, n) = parse_u32(Cursor::new("2 ]")).unwrap();
    assert_eq!(n, 2);
    assert_eq!(c.rest(), " ]");
    assert_eq!(parse_u32(Cursor::new("0")).unwrap().1, 0);
    assert_eq!(parse_u32(Cursor::new("007")).unwrap().1, 7);
    assert_eq!(parse_u32(Cursor::new("1234567890x")).unwrap().1, 1234567890);
    assert_eq!(parse_u32(Cursor::new("4294967295")).unwrap().1, 4294967295);
}

#[test]
fn unsigned_integer_errors() {
    assert_eq!(kind_at(parse_u32(Cursor::new(""))), (ErrorKind::InvalidNumber, 0));
    assert_eq!(kind_at(parse_u32(Cursor::new("x1"))), (ErrorKind::InvalidNumber, 0));
    assert_eq!(kind_at(parse_u32(Cursor::new("-1"))), (ErrorKind::InvalidNumber, 0));
    assert_eq!(kind_at(parse_u32(Cursor::new("4294967296"))), (ErrorKind::InvalidNumber, 0));
    assert_eq!(
        kind_at(parse_u32(Cursor::new("99999999999999999999999999"))),
        (ErrorKind::InvalidNumber, 0)
    );
}

fn number(text: &str) -> (String, String) {
    let (c, value) = parse_f64(Cursor::new(text)).unwrap();
    (value, c.rest().to_string())
}

#[test]
fn decimal_numbers() {
    assert_eq!(number("0.6,"), ("0.6".to_string(), ",".to_string()));
    assert_eq!(number("1"), ("1".to_string(), "".to_string()));
    assert_eq!(number("-12.50;"), ("-12.50".to_string(), ";".to_string()));
    assert_eq!(number("1e5 "), ("1e5".to_string(), " ".to_string()));
    assert_eq!(number("1E5"), ("1E5".to_string(), "".to_string()));
    assert_eq!(number("2.5e-3x"), ("2.5e-3".to_string(), "x".to_string()));
    assert_eq!(number("2.5E+10"), ("2.5E+10".to_string(), "".to_string()));
    assert_eq!(number("-0"), ("-0".to_string(), "".to_string()));
}

#[test]
fn decimal_number_parts_that_are_not_there() {
    // A point without a digit behind it is no fraction.
    assert_eq!(number("1."), ("1".to_string(), ".".to_string()));
    assert_eq!(number("1.x"), ("1".to_string(), ".x".to_string()));
    // An exponent marker without a digit behind it is no exponent.
    assert_eq!(number("1e"), ("1".to_string(), "e".to_string()));
    assert_eq!(number("1e+"), ("1".to_string(), "e+".to_string()));
    assert_eq!(number("1.5e-"), ("1.5".to_string(), "e-".to_string()));
    // One exponent only.
    assert_eq!(number("1e5e6"), ("1e5".to_string(), "e6".to_string()));
    // One point only.
    assert_eq!(number("1.2.3"), ("1.2".to_string(), ".3".to_string()));
}

#[test]
fn decimal_number_errors() {
    assert_eq!(kind_at(parse_f64(Cursor::new(""))), (ErrorKind::InvalidNumber, 0));
    assert_eq!(kind_at(parse_f64(Cursor::new("-"))), (ErrorKind::InvalidNumber, 0));
    assert_eq!(kind_at(parse_f64(Cursor::new(".5"))), (ErrorKind::InvalidNumber, 0));
    assert_eq!(kind_at(parse_f64(Cursor::new("+1"))), (ErrorKind::InvalidNumber, 0));
    assert_eq!(kind_at(parse_f64(Cursor::new("e5"))), (ErrorKind::InvalidNumber, 0));
    assert_eq!(kind_at(parse_f64(Cursor::new("--1"))), (ErrorKind::InvalidNumber, 0));
}

#[test]
fn decimal_number_text_reads_as_the_number() {
    let (value, _) = number("2.5e-3;");
    let x: f64 = value.parse().unwrap();
    assert_eq!(x, 0.0025);
    let (value, _) = number("-12.50");
    let x: f64 = value.parse().unwrap();
    assert_eq!(x, -12.5);
}
