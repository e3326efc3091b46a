use mazes::options::{parse_digits, parse_number};

#[test]
fn numerals_are_read() {
    assert_eq!(parse_digits("0"), Some(0));
    assert_eq!(parse_digits("7"), Some(7));
    assert_eq!(parse_digits("15"), Some(15));
    assert_eq!(parse_digits("+15"), Some(15));
    assert_eq!(parse_digits("007"), Some(7));
    assert_eq!(parse_digits("1234567890"), Some(1234567890));
}

#[test]
fn other_text_is_turned_down() {
    for text in ["", "+", "-", "-5", "++5", "5+", "1 2", " 12", "12 ", "x", "1x", "0x10", "1.5"] {
        assert_eq!(parse_digits(text), None);
    }
}

#[test]
fn numerals_agree_with_the_standard_parser() {
    let texts = [
        "0", "1", "+1", "99", "100", "18446744073709551615", "18446744073709551616",
        "184467440737095516150", "4294967295", "4294967296", "000000000000000000000000001",
        "99999999999999999999999", "", "+", "-1", "a",
    ];
    for text in texts {
        assert_eq!(parse_digits(text), text.parse::<usize>().ok());
    }
    assert_eq!(parse_digits(&format!("{}", usize::MAX)), Some(usize::MAX));
    assert_eq!(parse_digits(&format!("{}0", usize::MAX)), None);
}

#[test]
fn missing_size_is_the_default() {
    assert_eq!(parse_number(None, 15), (15, false));
}

#[test]
fn given_size_is_taken() {
    assert_eq!(parse_number(Some("1"), 15), (1, false));
    assert_eq!(parse_number(Some("40"), 15), (40, false));
    assert_eq!(parse_number(Some("+3"), 15), (3, false));
}

#[test]
fn invalid_size_is_replaced_by_the_default() {
    assert_eq!(parse_number(Some("0"), 15), (15, true));
    assert_eq!(parse_number(Some("-4"), 15), (15, true));
    assert_eq!(parse_number(Some("ten"), 15), (15, true));
    assert_eq!(parse_number(Some(""), 9), (9, true));
    assert_eq!(parse_number(Some("99999999999999999999999999"), 9), (9, true));
}
