//! Tests of the truncating emitter, its budget parsing, and its run.

use textstream::head::{
    Config, ConfigError, head_bytes, head_lines, parse_positive_int, run,
};
use textstream::source::NamedInput;

fn bytes(s: &str) -> Vec<u8> {
    s.as_bytes().to_vec()
}

#[test]
fn test_parse_positive_int() {
    // try 3 that's positive number and results in Ok
    let res = parse_positive_int("3");
    assert!(res.is_ok());
    assert_eq!(res.unwrap(), 3);

    // try non-numeric string that results in Err
    let res = parse_positive_int("foo");
    assert!(res.is_err());
    assert_eq!(res.unwrap_err().to_string(), "foo".to_string());

    // try 0 that's not positive number and results in Err
    let res = parse_positive_int("0");
    assert!(res.is_err());
    assert_eq!(res.unwrap_err().to_string(), "0".to_string());
}

#[test]
fn parse_accepts_leading_plus_sign() {
    assert_eq!(parse_positive_int("+3").unwrap(), 3);
    assert_eq!(parse_positive_int("+10").unwrap(), 10);
}

#[test]
fn parse_rejects_plus_sign_without_digits() {
    let res = parse_positive_int("+");
    assert!(res.is_err());
    assert_eq!(res.unwrap_err(), "+".to_string());
}

#[test]
fn parse_rejects_plus_zero() {
    let res = parse_positive_int("+0");
    assert!(res.is_err());
    assert_eq!(res.unwrap_err(), "+0".to_string());
}

#[test]
fn parse_rejects_negative_count() {
    let res = parse_positive_int("-3");
    assert!(res.is_err());
    assert_eq!(res.unwrap_err(), "-3".to_string());
}

#[test]
fn parse_rejects_zero_with_leading_zeros() {
    let res = parse_positive_int("00");
    assert!(res.is_err());
    assert_eq!(res.unwrap_err(), "00".to_string());
}

#[test]
fn parse_rejects_value_too_large() {
    let res = parse_positive_int("999999999999999999999999999999");
    assert!(res.is_err());
    assert_eq!(res.unwrap_err(), "999999999999999999999999999999".to_string());
}

#[test]
fn parse_accepts_larger_count() {
    assert_eq!(parse_positive_int("1024").unwrap(), 1024);
}

#[test]
fn head_three_lines_of_five() {
    let text = bytes("l1\nl2\nl3\nl4\nl5\n");
    assert_eq!(head_lines(&text, 3), bytes("l1\nl2\nl3\n"));
}

#[test]
fn head_lines_short_input_passes_whole() {
    let text = bytes("only\n");
    assert_eq!(head_lines(&text, 10), bytes("only\n"));
}

#[test]
fn head_five_bytes_cuts_inside_line() {
    let text = bytes("hello world\n");
    assert_eq!(head_bytes(&text, 5), bytes("hello"));
}

#[test]
fn head_bytes_budget_on_line_boundary() {
    // The budget lands exactly after a terminator: exactly those bytes.
    let text = bytes("ab\ncd\n");
    assert_eq!(head_bytes(&text, 3), bytes("ab\n"));
}

#[test]
fn run_rejects_zero_line_budget_before_output() {
    let config = Config { files: vec!["a".to_string()], lines: 0, bytes: None };
    let inputs = vec![NamedInput::opened(bytes("a"), bytes("data\n"))];
    assert_eq!(run(&config, &inputs).unwrap_err(), ConfigError::ZeroLineCount);
}

#[test]
fn run_rejects_zero_byte_budget_before_output() {
    let config = Config { files: vec!["a".to_string()], lines: 10, bytes: Some(0) };
    let inputs = vec![NamedInput::opened(bytes("a"), bytes("data\n"))];
    assert_eq!(run(&config, &inputs).unwrap_err(), ConfigError::ZeroByteCount);
}

#[test]
fn run_single_input_prints_no_header() {
    let config = Config { files: vec!["a".to_string()], lines: 2, bytes: None };
    let inputs = vec![NamedInput::opened(bytes("a"), bytes("x\ny\nz\n"))];
    let out = run(&config, &inputs).unwrap();
    assert_eq!(out.stdout, bytes("x\ny\n"));
    assert_eq!(out.stderr, Vec::<u8>::new());
}

#[test]
fn run_multiple_inputs_print_headers_with_separating_blank_line() {
    let config = Config { files: vec!["a".to_string(), "b".to_string()], lines: 10, bytes: None };
    let inputs = vec![
        NamedInput::opened(bytes("a"), bytes("a1\na2\n")),
        NamedInput::opened(bytes("b"), bytes("b1\n")),
    ];
    let out = run(&config, &inputs).unwrap();
    assert_eq!(out.stdout, bytes("==> a <==\na1\na2\n\n==> b <==\nb1\n"));
}

#[test]
fn run_missing_input_gets_diagnostic_and_rest_runs() {
    let config = Config { files: vec!["bad".to_string(), "good".to_string()], lines: 1, bytes: None };
    let inputs = vec![
        NamedInput::failed(bytes("bad"), bytes("No such file or directory (os error 2)")),
        NamedInput::opened(bytes("good"), bytes("first\nsecond\n")),
    ];
    let out = run(&config, &inputs).unwrap();
    assert_eq!(out.stdout, bytes("\n==> good <==\nfirst\n"));
    assert_eq!(out.stderr, bytes("bad: No such file or directory (os error 2)\n"));
}

#[test]
fn run_byte_budget_over_multiple_inputs() {
    let config = Config { files: vec!["a".to_string(), "b".to_string()], lines: 10, bytes: Some(4) };
    let inputs = vec![
        NamedInput::opened(bytes("a"), bytes("abcdefg\n")),
        NamedInput::opened(bytes("b"), bytes("hi\n")),
    ];
    let out = run(&config, &inputs).unwrap();
    assert_eq!(out.stdout, bytes("==> a <==\nabcd\n==> b <==\nhi\n"));
}
