use nn::magnitude::{classify, label, Magnitude};
use nn::number::parse_number;
use nn::process::{output_first_line, process_number, FormattedOutput};
use nn::render::format_number_with_separators;
use nn::scan::process_text_with_numbers;

fn line(input: &str) -> String {
    let o = process_number(&input.as_bytes().to_vec(), false);
    String::from_utf8(output_first_line(&o)).unwrap()
}

fn parsed(input: &str) -> Option<(i64, u8, bool)> {
    parse_number(&input.as_bytes().to_vec()).map(|r| (r.int_part, r.frac, r.was_rounded))
}

#[test]
fn test_classification_boundaries() {
    assert_eq!(line("999"), "999 (small)");
    assert_eq!(line("1000"), "1,000 (medium)");
    assert_eq!(line("999999"), "999,999 (medium)");
    assert_eq!(line("1000000"), "1,000,000 (pretty big)");
    assert_eq!(line("999999999"), "999,999,999 (pretty big)");
    assert_eq!(line("1000000000"), "1,000,000,000 (extremely big)");
    assert_eq!(line("-999"), "-999 (small)");
    assert_eq!(line("-1000"), "-1,000 (medium)");
}

#[test]
fn test_classify_ignores_sign_and_keeps_zero_apart() {
    assert_eq!(classify(0, 0), Magnitude::Zero);
    assert_eq!(classify(0, 50), Magnitude::Small);
    assert_eq!(classify(-42, 0), Magnitude::Small);
    assert_eq!(classify(-1000000000, 0), Magnitude::ExtremelyBig);
    assert_eq!(String::from_utf8(label(Magnitude::PrettyBig)).unwrap(), "(pretty big)");
    assert_eq!(String::from_utf8(label(Magnitude::Zero)).unwrap(), "(zero)");
}

#[test]
fn test_rerendering_rounded_value_is_stable() {
    // the first rendering rounds; rendering the rounded text again
    // changes nothing and reports no rounding
    assert_eq!(line("42.123456"), "42.12 (rounded) (small)");
    assert_eq!(line("42.12"), "42.12 (small)");
    assert_eq!(parsed("42.12"), Some((42, 12, false)));
}

#[test]
fn test_parse_number_exact_values() {
    assert_eq!(parsed("42.123456"), Some((42, 12, true)));
    assert_eq!(parsed("-5000"), Some((-5000, 0, false)));
    assert_eq!(parsed("1.23e5"), Some((123000, 0, false)));
    assert_eq!(parsed("-0.5"), Some((0, 50, false)));
    assert_eq!(parsed("0.005"), Some((0, 1, true)));
    assert_eq!(parsed("12,345"), None);
    assert_eq!(parsed("hello"), None);
    assert_eq!(parsed(""), None);
}

#[test]
fn test_scientific_and_decimal_agree() {
    assert_eq!(line("1.23e5"), line("123000"));
    assert_eq!(line("123e-2"), line("1.23"));
    assert_eq!(parsed("1.23e5"), parsed("123000"));
}

#[test]
fn test_grouping_exact() {
    let g = |i: i64, f: u8| String::from_utf8(format_number_with_separators(i, f)).unwrap();
    assert_eq!(g(1234567, 89), "1,234,567.89");
    assert_eq!(g(-5000, 0), "-5,000");
    assert_eq!(g(0, 5), "0.05");
    assert_eq!(g(100, 0), "100");
    assert_eq!(g(1000, 0), "1,000");
    assert_eq!(g(i64::MAX, 0), "9,223,372,036,854,775,807");
    assert_eq!(g(i64::MIN, 0), "-9,223,372,036,854,775,808");
}

#[test]
fn test_huge_magnitudes_saturate() {
    assert_eq!(line("1e300"), "9,223,372,036,854,775,807 (extremely big)");
    assert_eq!(line("-1e300"), "-9,223,372,036,854,775,808 (extremely big)");
    assert_eq!(line("1e-300"), "0 (rounded) (zero)");
}

#[test]
fn test_rounding_half_away_from_zero() {
    assert_eq!(parsed("0.125"), Some((0, 13, true)));
    assert_eq!(parsed("-0.125"), Some((0, 13, true)));
    assert_eq!(parsed("2.675"), Some((2, 68, true)));
}

#[test]
fn test_trailing_dot_token() {
    // a dot with no digits after it still belongs to the token
    assert_eq!(parsed("5."), Some((5, 0, false)));
    assert_eq!(line("5."), "5 (small)");
}

#[test]
fn test_near_tokens_in_text() {
    let scan = |s: &str| {
        String::from_utf8(process_text_with_numbers(&s.as_bytes().to_vec())).unwrap()
    };
    // an exponent marker without digits stays outside the token
    assert_eq!(scan("1e"), "1e");
    assert_eq!(scan("x-5000y"), "x-5,000y");
    assert_eq!(scan("- 5000"), "- 5,000");
    assert_eq!(scan("1.2.3"), "1.20.3");
}

#[test]
fn test_whitespace_is_trimmed() {
    assert_eq!(line("  5000  "), "5,000 (medium)");
    assert_eq!(line("\t42\n"), "42 (small)");
}

#[test]
fn test_empty_and_blank_inputs_scan_to_nothing() {
    let o = process_number(&b"".to_vec(), false);
    assert!(matches!(&o, FormattedOutput::Scanned { text } if text.is_empty()));
    let o = process_number(&b"   ".to_vec(), true);
    assert!(matches!(&o, FormattedOutput::Scanned { text } if text.is_empty()));
}

#[test]
fn test_binary_units_of_negative_clamps_to_zero() {
    let o = process_number(&b"-5".to_vec(), true);
    match o {
        FormattedOutput::Single { binary, .. } => {
            assert_eq!(String::from_utf8(binary.unwrap()).unwrap(), "0 B");
        }
        FormattedOutput::Scanned { .. } => panic!("expected single-number mode"),
    }
}

#[test]
fn test_leading_zeros_parse() {
    assert_eq!(parsed("007"), Some((7, 0, false)));
    assert_eq!(parsed("000.25"), Some((0, 25, false)));
    assert_eq!(line("007"), "7 (small)");
}
