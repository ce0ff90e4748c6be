use toy_jit::literal::parse_literal;

#[test]
fn plain_digits_denote_their_number() {
    assert_eq!(parse_literal("0"), Some(0));
    assert_eq!(parse_literal("7"), Some(7));
    assert_eq!(parse_literal("42"), Some(42));
    assert_eq!(parse_literal("1234567890"), Some(1234567890));
}

#[test]
fn a_sign_may_come_first() {
    assert_eq!(parse_literal("+5"), Some(5));
    assert_eq!(parse_literal("-5"), Some(-5));
    assert_eq!(parse_literal("-0"), Some(0));
    assert_eq!(parse_literal("+0"), Some(0));
}

#[test]
fn leading_zeros_are_digits_like_any_other() {
    assert_eq!(parse_literal("007"), Some(7));
    assert_eq!(parse_literal("-00012"), Some(-12));
    assert_eq!(parse_literal("00000000000000000001"), Some(1));
}

#[test]
fn the_largest_and_the_smallest_number_are_read() {
    assert_eq!(parse_literal("2147483647"), Some(i32::MAX));
    assert_eq!(parse_literal("+2147483647"), Some(i32::MAX));
    assert_eq!(parse_literal("-2147483648"), Some(i32::MIN));
}

#[test]
fn a_number_out_of_range_denotes_nothing() {
    assert_eq!(parse_literal("2147483648"), None);
    assert_eq!(parse_literal("+2147483648"), None);
    assert_eq!(parse_literal("-2147483649"), None);
    assert_eq!(parse_literal("4294967296"), None);
    assert_eq!(parse_literal("99999999999999999999999999"), None);
    assert_eq!(parse_literal("-99999999999999999999999999"), None);
}

#[test]
fn text_without_digits_denotes_nothing() {
    assert_eq!(parse_literal(""), None);
    assert_eq!(parse_literal("+"), None);
    assert_eq!(parse_literal("-"), None);
}

#[test]
fn anything_but_digits_after_the_sign_denotes_nothing() {
    assert_eq!(parse_literal("12a"), None);
    assert_eq!(parse_literal("a12"), None);
    assert_eq!(parse_literal(" 12"), None);
    assert_eq!(parse_literal("12 "), None);
    assert_eq!(parse_literal("1_000"), None);
    assert_eq!(parse_literal("--1"), None);
    assert_eq!(parse_literal("+-1"), None);
    assert_eq!(parse_literal("1.5"), None);
    assert_eq!(parse_literal("0x10"), None);
    assert_eq!(parse_literal("١٢"), None);
}

#[test]
fn reading_agrees_with_the_standard_library() {
    let texts = [
        "0", "1", "-1", "+1", "10", "-10", "2147483647", "2147483648", "-2147483648",
        "-2147483649", "", "+", "-", "abc", "12x", "x12", "0012", "-0012", "+0012", " 1", "1 ",
        "1e3", "99999999999", "-99999999999", "٣", "1-", "−1",
    ];
    for text in texts {
        assert_eq!(parse_literal(text), text.parse::<i32>().ok(), "text {:?}", text);
    }
}
