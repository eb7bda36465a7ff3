use holdem_rsources::text::{char_is_space, push_decimal, split, split_whitespace, trim};
use holdem_rsources::{ComboBreakdown, Range, RangeParseError};

#[test]
fn test_trim_cuts_white_space_at_both_ends() {
    assert_eq!(trim("  AKs \t\n"), "AKs");
    assert_eq!(trim("AKs"), "AKs");
    assert_eq!(trim("A Ks"), "A Ks");
    assert_eq!(trim("   "), "");
    assert_eq!(trim(""), "");
    assert_eq!(trim("\u{a0}QQ\u{3000}"), "QQ");
    for text in ["  x y  ", "\u{2003}z", "", " \r\n", "é ", " \u{85}é\u{1680} "] {
        assert_eq!(trim(text), text.trim());
    }
}

#[test]
fn test_split_gives_one_piece_more_than_there_are_separators() {
    assert_eq!(split("AA, KK,QQ", ','), vec!["AA", " KK", "QQ"]);
    assert_eq!(split("", ','), vec![""]);
    assert_eq!(split(",", ','), vec!["", ""]);
    assert_eq!(split("a,,b,", ','), vec!["a", "", "b", ""]);
    assert_eq!(split("no separator", ','), vec!["no separator"]);
    for text in ["", ",", "a,b", ",,x,", "é,ü"] {
        let expected: Vec<&str> = text.split(',').collect();
        assert_eq!(split(text, ','), expected);
    }
}

#[test]
fn test_split_whitespace_gives_the_words() {
    assert_eq!(split_whitespace("As Kd  7c\t2h"), vec!["As", "Kd", "7c", "2h"]);
    assert_eq!(split_whitespace("  lead and trail  "), vec!["lead", "and", "trail"]);
    assert_eq!(split_whitespace(""), Vec::<&str>::new());
    assert_eq!(split_whitespace(" \n\t "), Vec::<&str>::new());
    for text in ["a b", " a\u{2003}b\n", "", "é  ü", "one"] {
        let expected: Vec<&str> = text.split_whitespace().collect();
        assert_eq!(split_whitespace(text), expected);
    }
}

#[test]
fn test_white_space_is_what_unicode_says() {
    for code in 0u32..0x3100 {
        if let Some(c) = char::from_u32(code) {
            assert_eq!(char_is_space(c), c.is_whitespace(), "U+{:04X}", code);
        }
    }
    assert!(!char_is_space('\u{200b}'));
    assert!(!char_is_space('\u{feff}'));
}

#[test]
fn test_numbers_are_written_in_decimal() {
    for n in [0usize, 7, 10, 42, 99, 100, 1326, 2704, 1_000_000, usize::MAX] {
        let mut text = String::from("n=");
        push_decimal(&mut text, n);
        assert_eq!(text, format!("n={}", n));
    }
}

#[test]
fn test_breakdown_and_errors_in_words() {
    let range = Range::from_str("AA, AKs, AKo").unwrap();
    assert_eq!(
        range.combo_breakdown(None).to_string(),
        "Total: 22 (Pairs: 6, Suited: 4, Offsuit: 12)"
    );
    let empty = ComboBreakdown { pairs: 0, suited: 0, offsuit: 0, total: 0 };
    assert_eq!(empty.to_string(), "Total: 0 (Pairs: 0, Suited: 0, Offsuit: 0)");
    assert_eq!(
        RangeParseError::InvalidFormat(String::from("AKso")).to_string(),
        "Invalid range format: AKso"
    );
    assert_eq!(
        RangeParseError::InvalidValue('x').to_string(),
        "Invalid card value: x"
    );
    assert_eq!(
        RangeParseError::InvalidSuitMarker('é').to_string(),
        "Invalid suit marker: é"
    );
}
