//! Tests of the line-rewriting policies and the line-printer run.

use textstream::cat::{Config, Emitter, Mode, plain_copy, run, transform_file};
use textstream::source::NamedInput;

fn bytes(s: &str) -> Vec<u8> {
    s.as_bytes().to_vec()
}

#[test]
fn plain_copy_reproduces_input_byte_for_byte() {
    let text = bytes("alpha\n\nbeta");
    assert_eq!(plain_copy(&text), text);
}

#[test]
fn plain_copy_keeps_arbitrary_bytes() {
    // Not UTF-8, no trailing terminator: still identical.
    let text: Vec<u8> = vec![0xff, 0x00, 0x0a, 0x80, 0x41];
    assert_eq!(plain_copy(&text), text);
}

#[test]
fn plain_copy_of_empty_input_is_empty() {
    assert_eq!(plain_copy(&Vec::new()), Vec::<u8>::new());
}

#[test]
fn number_all_counts_every_line() {
    let text = bytes("a\n\nb\n");
    let out = transform_file(Mode::NumberAll, &text);
    assert_eq!(out, bytes("     1\ta\n     2\t\n     3\tb\n"));
}

#[test]
fn number_nonblank_skips_blank_lines() {
    let text = bytes("a\n\nb\n");
    let out = transform_file(Mode::NumberNonblank, &text);
    assert_eq!(out, bytes("     1\ta\n\n     2\tb\n"));
}

#[test]
fn number_nonblank_treats_whitespace_line_as_blank() {
    let text = bytes(" \t\nx\n");
    let out = transform_file(Mode::NumberNonblank, &text);
    assert_eq!(out, bytes(" \t\n     1\tx\n"));
}

#[test]
fn counter_field_grows_past_its_width() {
    let mut emitter = Emitter::new(Mode::NumberAll);
    let mut out: Vec<u8> = Vec::new();
    for _ in 0..1000000 {
        out = emitter.emit(&bytes("x\n"));
    }
    // The millionth counter no longer fits the six-byte field: no padding.
    assert_eq!(out, bytes("1000000\tx\n"));
}

#[test]
fn emitter_streams_lines_one_at_a_time() {
    let mut emitter = Emitter::new(Mode::NumberNonblank);
    assert_eq!(emitter.emit(&bytes("first\n")), bytes("     1\tfirst\n"));
    assert_eq!(emitter.emit(&bytes("\n")), bytes("\n"));
    assert_eq!(emitter.emit(&bytes("second\n")), bytes("     2\tsecond\n"));
}

#[test]
fn run_concatenates_inputs_and_restarts_numbering() {
    let config = Config {
        files: vec!["a".to_string(), "b".to_string()],
        number_lines: true,
        number_nonblank_lines: false,
    };
    let inputs = vec![
        NamedInput::opened(bytes("a"), bytes("x\ny\n")),
        NamedInput::opened(bytes("b"), bytes("z\n")),
    ];
    let out = run(&config, &inputs);
    assert_eq!(out.stdout, bytes("     1\tx\n     2\ty\n     1\tz\n"));
    assert_eq!(out.stderr, Vec::<u8>::new());
}

#[test]
fn cat_run_reports_missing_input_and_continues() {
    let config = Config {
        files: vec!["bad".to_string(), "good".to_string()],
        number_lines: false,
        number_nonblank_lines: false,
    };
    let inputs = vec![
        NamedInput::failed(bytes("bad"), bytes("No such file or directory (os error 2)")),
        NamedInput::opened(bytes("good"), bytes("fine\n")),
    ];
    let out = run(&config, &inputs);
    assert_eq!(out.stdout, bytes("fine\n"));
    assert_eq!(
        out.stderr,
        bytes("Failed to open bad: No such file or directory (os error 2)\n")
    );
}

#[test]
fn number_all_takes_precedence_over_nonblank() {
    let config = Config {
        files: vec!["a".to_string()],
        number_lines: true,
        number_nonblank_lines: true,
    };
    assert_eq!(config.mode(), Mode::NumberAll);
}
