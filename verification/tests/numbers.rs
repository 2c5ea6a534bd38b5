use csv_ql::num::{limit_value, parse_number, SCALE};

#[test]
fn whole_numbers_scale_exactly() {
    assert_eq!(parse_number("0"), 0);
    assert_eq!(parse_number("22"), 22 * SCALE);
    assert_eq!(parse_number("007"), 7 * SCALE);
}

#[test]
fn fractions_scale_exactly() {
    assert_eq!(parse_number("2.5"), 2 * SCALE + SCALE / 2);
    assert_eq!(parse_number(".5"), SCALE / 2);
    assert_eq!(parse_number("7."), 7 * SCALE);
    assert_eq!(parse_number("0.25"), SCALE / 4);
}

#[test]
fn signs_are_honored() {
    assert_eq!(parse_number("-3.5"), -(3 * SCALE + SCALE / 2));
    assert_eq!(parse_number("+4"), 4 * SCALE);
    assert_eq!(parse_number("-0"), 0);
}

#[test]
fn unparsable_text_counts_as_zero() {
    assert_eq!(parse_number(""), 0);
    assert_eq!(parse_number("abc"), 0);
    assert_eq!(parse_number("1.2.3"), 0);
    assert_eq!(parse_number("."), 0);
    assert_eq!(parse_number("-"), 0);
    assert_eq!(parse_number("1e5"), 0);
    assert_eq!(parse_number(" 5"), 0);
}

#[test]
fn integer_part_bound() {
    // eighteen digits fit exactly; nineteen make the text unparsable
    assert_eq!(parse_number("999999999999999999"), 999_999_999_999_999_999 * SCALE);
    assert_eq!(parse_number("1000000000000000000"), 0);
    // leading zeros do not count against the bound
    assert_eq!(parse_number("0000000000000000000042"), 42 * SCALE);
}

#[test]
fn fractional_digits_beyond_eighteen_are_truncated() {
    assert_eq!(parse_number("0.0000000000000000019"), 1);
    assert_eq!(parse_number("1.9999999999999999999"), SCALE + 999_999_999_999_999_999);
}

#[test]
fn limits_truncate_toward_zero() {
    assert_eq!(limit_value("5"), 5);
    assert_eq!(limit_value("5.9"), 5);
    assert_eq!(limit_value("0"), 0);
    assert_eq!(limit_value("0.9"), 0);
    assert_eq!(limit_value("abc"), 0);
}
