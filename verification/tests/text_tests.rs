use nn::process::{output_first_line, process_number};

fn line(input: &str) -> String {
    let o = process_number(&input.as_bytes().to_vec(), false);
    String::from_utf8(output_first_line(&o)).unwrap()
}

#[test]
fn test_text_with_single_number() {
    assert_eq!(line("The file is 1024 bytes"), "The file is 1,024 bytes");
}

#[test]
fn test_text_with_multiple_numbers() {
    assert_eq!(
        line("I have 5000 apples and 2500 oranges"),
        "I have 5,000 apples and 2,500 oranges"
    );
}

#[test]
fn test_text_with_decimal() {
    assert_eq!(line("Price is 1234.56 dollars"), "Price is 1,234.56 dollars");
}

#[test]
fn test_text_without_numbers() {
    assert_eq!(line("Hello world without numbers"), "Hello world without numbers");
}

#[test]
fn test_text_without_numbers_via_stdin() {
    assert_eq!(line("not a number"), "not a number");
}

#[test]
fn test_text_with_negative_number() {
    assert_eq!(line("Temperature: -25.5 degrees"), "Temperature: -25.50 degrees");
}

#[test]
fn test_text_with_scientific_notation() {
    assert_eq!(line("Science: 1.23e5 particles"), "Science: 123,000 particles");
}

#[test]
fn test_text_with_many_numbers() {
    assert_eq!(
        line("Results: 10 samples, 1000 iterations, 0.05 error rate"),
        "Results: 10 samples, 1,000 iterations, 0.05 error rate"
    );
}

#[test]
fn test_text_preserves_formatting() {
    assert_eq!(line("Total: 1234567 items"), "Total: 1,234,567 items");
}
