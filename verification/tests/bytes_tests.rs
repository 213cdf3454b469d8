use nn::process::{output_first_line, process_number, FormattedOutput};

fn run(input: &str, bytes: bool) -> (String, Option<String>) {
    let o = process_number(&input.as_bytes().to_vec(), bytes);
    let line = String::from_utf8(output_first_line(&o)).unwrap();
    let extra = match o {
        FormattedOutput::Single { binary, .. } => {
            binary.map(|b| String::from_utf8(b).unwrap())
        }
        FormattedOutput::Scanned { .. } => None,
    };
    (line, extra)
}

#[test]
fn test_bytes_flag_kib() {
    let (line, binary) = run("1024", true);
    assert!(line.contains("1,024"));
    assert_eq!(binary.unwrap(), "1 KiB");
}

#[test]
fn test_bytes_flag_mib() {
    let (line, binary) = run("1048576", true);
    assert!(line.contains("1,048,576"));
    assert_eq!(binary.unwrap(), "1 MiB");
}

#[test]
fn test_bytes_flag_gib() {
    let (line, binary) = run("1073741824", true);
    assert!(line.contains("1,073,741,824"));
    assert_eq!(binary.unwrap(), "1 GiB");
}

#[test]
fn test_bytes_flag_short() {
    let (line, binary) = run("2048", true);
    assert!(line.contains("2,048"));
    assert_eq!(binary.unwrap(), "2 KiB");
}

#[test]
fn test_bytes_flag_decimal() {
    let (line, binary) = run("1536.5", true);
    assert!(line.contains("1,536.50"));
    assert_eq!(binary.unwrap(), "1.50 KiB");
}

#[test]
fn test_bytes_flag_less_than_kib() {
    let (line, binary) = run("512", true);
    assert!(line.contains("512"));
    assert_eq!(binary.unwrap(), "512 B");
}

#[test]
fn test_bytes_flag_with_stdin() {
    let (line, binary) = run("2048", true);
    assert!(line.contains("2,048"));
    assert_eq!(binary.unwrap(), "2 KiB");
}

#[test]
fn test_without_bytes_flag() {
    let (line, binary) = run("1024", false);
    assert!(line.contains("1,024"));
    assert!(binary.is_none());
    assert!(!line.contains("KiB"));
}

#[test]
fn test_bytes_flag_tib() {
    let (line, binary) = run("1099511627776", true);
    assert!(line.contains("1,099,511,627,776"));
    assert_eq!(binary.unwrap(), "1 TiB");
}

#[test]
fn test_bytes_flag_multiple_kib() {
    let (line, binary) = run("5120", true);
    assert!(line.contains("5,120"));
    assert_eq!(binary.unwrap(), "5 KiB");
}
