use nn::process::{output_first_line, process_number, FormattedOutput};

fn run(input: &str, bytes: bool) -> (String, Option<String>) {
    let o = process_number(&input.as_bytes().to_vec(), bytes);
    let line = String::from_utf8(output_first_line(&o)).unwrap();
    let extra = match o {
        FormattedOutput::Single { binary, .. } => {
            binary.map(|b| String::from_utf8(b).unwrap())
        }
        FormattedOutput::Scanned { .. } => None,
    };
    (line, extra)
}

fn line(input: &str) -> String {
    run(input, false).0
}

#[test]
fn test_small_integer() {
    let out = line("42");
    assert!(out.contains("(small)"));
    assert_eq!(out, "42 (small)");
}

#[test]
fn test_small_decimal() {
    let out = line("42.5");
    assert!(out.contains("42.50"));
    assert!(out.contains("(small)"));
    assert_eq!(out, "42.50 (small)");
}

#[test]
fn test_decimal_with_rounding() {
    let out = line("42.123456");
    assert!(out.contains("42.12"));
    assert!(out.contains("(rounded)"));
    assert!(out.contains("(small)"));
    assert_eq!(out, "42.12 (rounded) (small)");
}

#[test]
fn test_medium_number() {
    let out = line("5000");
    assert!(out.contains("5,000"));
    assert!(out.contains("(medium)"));
    assert_eq!(out, "5,000 (medium)");
}

#[test]
fn test_pretty_big_number() {
    let out = line("1234567");
    assert!(out.contains("1,234,567"));
    assert!(out.contains("(pretty big)"));
    assert_eq!(out, "1,234,567 (pretty big)");
}

#[test]
fn test_pretty_big_decimal() {
    let out = line("1234567.89");
    assert!(out.contains("1,234,567.89"));
    assert!(out.contains("(pretty big)"));
    assert_eq!(out, "1,234,567.89 (pretty big)");
}

#[test]
fn test_extremely_big_number() {
    let out = line("9876543210");
    assert!(out.contains("9,876,543,210"));
    assert!(out.contains("(extremely big)"));
    assert_eq!(out, "9,876,543,210 (extremely big)");
}

#[test]
fn test_negative_small_number() {
    let out = line("-42");
    assert!(out.contains("-42"));
    assert!(out.contains("(small)"));
    assert_eq!(out, "-42 (small)");
}

#[test]
fn test_negative_medium_number() {
    let out = line("-5000");
    assert!(out.contains("-5,000"));
    assert!(out.contains("(medium)"));
    assert_eq!(out, "-5,000 (medium)");
}

#[test]
fn test_zero() {
    let out = line("0");
    assert!(out.contains("(zero)"));
    assert_eq!(out, "0 (zero)");
}

#[test]
fn test_decimal_no_rounding_needed() {
    let out = line("123.45");
    assert!(out.contains("123.45"));
    assert!(out.contains("(small)"));
    assert!(!out.contains("(rounded)"));
    assert_eq!(out, "123.45 (small)");
}

#[test]
fn test_large_decimal_with_rounding() {
    let out = line("9876543210.999");
    assert!(out.contains("9,876,543,211"));
    assert!(out.contains("(rounded)"));
    assert!(out.contains("(extremely big)"));
    assert_eq!(out, "9,876,543,211 (rounded) (extremely big)");
}

#[test]
fn test_scientific_notation_large() {
    let out = line("1.23e5");
    assert!(out.contains("123,000"));
    assert!(out.contains("(medium)"));
    assert_eq!(out, "123,000 (medium)");
}

#[test]
fn test_scientific_notation_small() {
    let out = line("3.14e2");
    assert!(out.contains("314"));
    assert!(out.contains("(small)"));
    assert_eq!(out, "314 (small)");
}

#[test]
fn test_scientific_notation_extremely_big() {
    let out = line("9.87654321e9");
    assert!(out.contains("9,876,543,210"));
    assert!(out.contains("(extremely big)"));
    assert_eq!(out, "9,876,543,210 (extremely big)");
}

#[test]
fn test_scientific_notation_very_small() {
    let out = line("1.5e-3");
    assert!(out.contains("(zero)"));
    assert_eq!(out, "0 (rounded) (zero)");
}

#[test]
fn test_scientific_notation_with_rounding() {
    let out = line("1.234567e3");
    assert!(out.contains("1,234.57"));
    assert!(out.contains("(rounded)"));
    assert!(out.contains("(medium)"));
    assert_eq!(out, "1,234.57 (rounded) (medium)");
}

#[test]
fn test_scientific_notation_negative() {
    let out = line("-2.5e4");
    assert!(out.contains("-25,000"));
    assert!(out.contains("(medium)"));
    assert_eq!(out, "-25,000 (medium)");
}

#[test]
fn test_arg_small_integer() {
    let out = line("42");
    assert!(out.contains("(small)"));
    assert_eq!(out, "42 (small)");
}

#[test]
fn test_arg_medium_number() {
    let out = line("5000");
    assert!(out.contains("5,000"));
    assert!(out.contains("(medium)"));
}

#[test]
fn test_arg_decimal_with_rounding() {
    let out = line("42.123456");
    assert!(out.contains("42.12"));
    assert!(out.contains("(rounded)"));
    assert!(out.contains("(small)"));
}

#[test]
fn test_arg_pretty_big_decimal() {
    let out = line("1234567.89");
    assert!(out.contains("1,234,567.89"));
    assert!(out.contains("(pretty big)"));
}

#[test]
fn test_arg_extremely_big_number() {
    let out = line("9876543210");
    assert!(out.contains("9,876,543,210"));
    assert!(out.contains("(extremely big)"));
}

#[test]
fn test_arg_scientific_notation() {
    let out = line("1.23e5");
    assert!(out.contains("123,000"));
    assert!(out.contains("(medium)"));
}

#[test]
fn test_arg_negative_number() {
    let out = line("-5000");
    assert!(out.contains("-5,000"));
    assert!(out.contains("(medium)"));
}

#[test]
fn test_arg_text_without_numbers() {
    let out = line("not_a_number");
    assert_eq!(out, "not_a_number");
}

#[test]
fn test_pure_number_still_shows_description() {
    let out = line("1024");
    assert!(out.contains("1,024"));
    assert!(out.contains("(medium)"));
    assert_eq!(out, "1,024 (medium)");
}
