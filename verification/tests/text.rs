use puzzles::numfmt::{u64_to_string, usize_to_string};
use puzzles::parsers::parse_number;

#[test]
fn decimal_rendering() {
    assert_eq!(usize_to_string(0), "0");
    assert_eq!(usize_to_string(7), "7");
    assert_eq!(usize_to_string(305), "305");
    assert_eq!(usize_to_string(18446744073709551615), "18446744073709551615");
    assert_eq!(u64_to_string(55093), "55093");
}

#[test]
fn leading_number_parsing() {
    assert_eq!(parse_number("123abc"), Some(("abc", 123)));
    assert_eq!(parse_number("0"), Some(("", 0)));
    assert_eq!(parse_number("abc"), None);
    assert_eq!(parse_number(""), None);
    assert_eq!(parse_number("99999999999999999999999"), None);
}
