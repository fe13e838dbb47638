use anon_lexer::literal::{check_float_text, parse_char, parse_integer, unquote};
use anon_lexer::text::chars_of;

#[test]
fn integers_parse_as_the_standard_library_parses_them() {
    let texts = [
        "0",
        "1",
        "-1",
        "+1",
        "007",
        "-0",
        "+0",
        "42",
        "9223372036854775807",
        "9223372036854775808",
        "-9223372036854775808",
        "-9223372036854775809",
        "+9223372036854775807",
        "00000000000000000000000000009",
        "99999999999999999999999999999",
        "",
        "-",
        "+",
        "+-1",
        "1-",
        "1 ",
        " 1",
        "1_000",
        "0x10",
        "１",
        "12a",
        "a12",
    ];
    for text in texts {
        assert_eq!(parse_integer(text), text.parse::<i64>().ok());
    }
    assert_eq!(parse_integer("9223372036854775807"), Some(i64::MAX));
    assert_eq!(parse_integer("-9223372036854775808"), Some(i64::MIN));
    assert_eq!(parse_integer("9223372036854775808"), None);
    assert_eq!(parse_integer("-12345"), Some(-12345));
}

#[test]
fn character_literals_hold_one_character() {
    assert_eq!(parse_char("'c'"), Some('c'));
    assert_eq!(parse_char("'é'"), Some('é'));
    assert_eq!(parse_char("' '"), Some(' '));
    assert_eq!(parse_char("'''"), Some('\''));
    assert_eq!(parse_char("''"), None);
    assert_eq!(parse_char("'ab'"), None);
    assert_eq!(parse_char(""), None);
    assert_eq!(parse_char("'\\n'"), None);
}

#[test]
fn unquote_strips_one_character_at_each_end() {
    assert_eq!(unquote("\"abc\""), Some("abc"));
    assert_eq!(unquote("\"\""), Some(""));
    assert_eq!(unquote("\"é λ\""), Some("é λ"));
    assert_eq!(unquote("\"a\\\"b\""), Some("a\\\"b"));
    assert_eq!(unquote("\""), None);
    assert_eq!(unquote(""), None);
}

#[test]
fn float_texts_are_decimals_with_an_optional_exponent() {
    let good = [
        "0", "1", "1.5", "1.", ".5", "-1.1", "+3.25", "1e5", "1E5", "1e+5", "1e-5", "1.5e10",
        ".5e-3", "5.e3", "-0.0", "00.100",
    ];
    for text in good {
        assert!(check_float_text(text));
        assert!(text.parse::<f64>().is_ok());
    }
    let bad = [
        "", ".", "+", "-", "e", "e5", ".e5", "1e", "1e+", "1e-", "1.2.3", "1e5.0", "1e5e5", "--1",
        "1-", "1 ", " 1", "1_0", "0x1p3", "nan", "inf", "infinity", "1,5", "１.５",
    ];
    for text in bad {
        assert!(!check_float_text(text));
    }
}

#[test]
fn chars_of_gives_the_characters_in_order() {
    assert_eq!(chars_of(""), Vec::<char>::new());
    assert_eq!(chars_of("aé𝄞\n"), vec!['a', 'é', '𝄞', '\n']);
}
