use lax_utils::fixed::Fixed;
use lax_utils::string_utils::StringUtils;
use lax_utils::utils::{naturally_format_float, should_overwrite, sync_input_value_float, FloatUtils};

fn fx(raw: i64) -> Fixed {
    Fixed::from_raw(raw)
}

#[test]
fn natural_formatting() {
    assert_eq!(naturally_format_float(fx(1_234_560), 1, 3), "1.235");
    assert_eq!(naturally_format_float(fx(1_230_000), 1, 3), "1.23");
    assert_eq!(naturally_format_float(fx(1_000_000), 1, 3), "1.0");
    assert_eq!(naturally_format_float(fx(254_999_000), 0, 0), "255");
    assert_eq!(naturally_format_float(fx(-2_500_000), 0, 2), "-2.5");
    assert_eq!(naturally_format_float(fx(7), 2, 8), "0.000007");
}

#[test]
fn digit_comparison() {
    assert!(fx(1_000_000).float_compare_digits(fx(1_002_000), -2));
    assert!(!fx(1_000_000).float_compare_digits(fx(1_002_000), -3));
    assert!(fx(100_150_000_000).float_compare_digits(fx(100_000_000_000), 4));
    assert!(fx(1_000_000).float_compare_digits(fx(1_100_000), 0));
    assert!(fx(0).float_compare_digits(fx(10_000), -1));
    assert!(!fx(-1).float_compare_digits(fx(1), -2));
}

#[test]
fn rounding_to_digits() {
    assert_eq!(fx(10_110_000).round_digits(-1), fx(10_100_000));
    assert_eq!(fx(123_456_000).round_digits(-2), fx(123_460_000));
    assert_eq!(fx(111_100_000).round_digits(0), fx(111_000_000));
    assert_eq!(fx(111_100_000).round_digits(1), fx(110_000_000));
    assert_eq!(fx(111_100_000).round_digits(2), fx(100_000_000));
    assert_eq!(fx(2_500_000).round_digits(0), fx(3_000_000));
    assert_eq!(fx(-2_500_000).round_digits(0), fx(-3_000_000));
    assert_eq!(fx(5).round_digits(-9), fx(5));
}

#[test]
fn digits_by_position() {
    assert_eq!(fx(123_000_000).nth_digit(0), 3);
    assert_eq!(fx(123_456_000).nth_digit(-2), 5);
    assert_eq!(fx(123_000_089).nth_digit(-5), 8);
    assert_eq!(fx(123_000_000).nth_digit(2), 1);
    assert_eq!(fx(123_000_000).nth_digit(3), 0);
    assert_eq!(fx(-45_000_000).nth_digit(1), 4);
    assert_eq!(fx(1).nth_digit(-7), 0);
}

#[test]
fn counting_decimal_places() {
    assert_eq!(fx(1_230_000).decimal_places(), 2);
    assert_eq!(fx(1_000_000).decimal_places(), 0);
    assert_eq!(fx(1).decimal_places(), 6);
    assert_eq!(fx(-500_000).decimal_places(), 1);
}

#[test]
fn parsing_typed_numbers() {
    assert_eq!("  1.5 ".parse_input(), Some(fx(1_500_000)));
    assert_eq!("-0.25".parse_input(), Some(fx(-250_000)));
    assert_eq!("+7".parse_input(), Some(fx(7_000_000)));
    assert_eq!(".5".parse_input(), Some(fx(500_000)));
    assert_eq!("5.".parse_input(), Some(fx(5_000_000)));
    assert_eq!("1.23456789".parse_input(), Some(fx(1_234_568)));
    assert_eq!("0.9999999".parse_input(), Some(fx(1_000_000)));
    assert_eq!("0.00000049".parse_input(), Some(fx(0)));
    assert_eq!("".parse_input(), None);
    assert_eq!(".".parse_input(), None);
    assert_eq!("1.2.3".parse_input(), None);
    assert_eq!("abc".parse_input(), None);
    assert_eq!("-".parse_input(), None);
    assert_eq!("10000000000000".parse_input(), Some(fx(1_000_000_000_000_000_000)));
    assert_eq!("-10000000000000".parse_input(), Some(fx(-1_000_000_000_000_000_000)));
}

#[test]
fn synchronizer_keeps_equal_text() {
    let mut shown = String::from("1.50");
    let rewritten = sync_input_value_float(&mut shown, fx(1_500_000), 2, false, |v| naturally_format_float(v, 0, 2));
    assert!(!rewritten);
    assert_eq!(shown, "1.50");
    assert!(!should_overwrite("1.50", fx(1_500_000), 2, false));
}

#[test]
fn synchronizer_rewrites_stale_or_forced_text() {
    let mut shown = String::from("1.4");
    assert!(sync_input_value_float(&mut shown, fx(1_500_000), 2, false, |v| naturally_format_float(v, 0, 2)));
    assert_eq!(shown, "1.5");
    let mut shown = String::from("1.50");
    assert!(sync_input_value_float(&mut shown, fx(1_500_000), 2, true, |v| naturally_format_float(v, 1, 2)));
    assert_eq!(shown, "1.5");
    let mut shown = String::from("junk");
    assert!(sync_input_value_float(&mut shown, fx(2_000_000), 0, false, |v| naturally_format_float(v, 0, 0)));
    assert_eq!(shown, "2");
    assert!(!should_overwrite("junk", fx(0), 2, false));
}

#[test]
fn parsing_exponent_forms() {
    assert_eq!("1e3".parse_input(), Some(fx(1_000_000_000)));
    assert_eq!(" 2.5E-1 ".parse_input(), Some(fx(250_000)));
    assert_eq!("+1e+2".parse_input(), Some(fx(100_000_000)));
    assert_eq!(".5e1".parse_input(), Some(fx(5_000_000)));
    assert_eq!("1.e2".parse_input(), Some(fx(100_000_000)));
    assert_eq!("5e-7".parse_input(), Some(fx(1)));
    assert_eq!("1e-7".parse_input(), Some(fx(0)));
    assert_eq!("-1e30".parse_input(), Some(fx(-1_000_000_000_000_000_000)));
    assert_eq!("1e999999999999999999999999999999999999999".parse_input(), Some(fx(1_000_000_000_000_000_000)));
    assert_eq!("0e999999999999999999999999999999999999999".parse_input(), Some(fx(0)));
    assert_eq!("7e-999999999999999999999999999999999999999".parse_input(), Some(fx(0)));
    assert_eq!("1e".parse_input(), None);
    assert_eq!("e3".parse_input(), None);
    assert_eq!("1e+".parse_input(), None);
    assert_eq!("1e3.5".parse_input(), None);
    assert_eq!("1ee3".parse_input(), None);
}
