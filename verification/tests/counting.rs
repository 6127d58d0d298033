//! Tests of the metrics accumulator and the counting run.

use textstream::source::NamedInput;
use textstream::wc::{Columns, Config, FileInfo, count, default_columns, format_row, run};

fn bytes(s: &str) -> Vec<u8> {
    s.as_bytes().to_vec()
}

#[test]
fn test_count() {
    let text = "I don't want the world. I just want your half.\r\n";
    let info = count(&bytes(text));

    let expected = FileInfo { num_lines: 1, num_words: 10, num_bytes: 48, num_chars: 48 };
    assert_eq!(info, expected);
}

#[test]
fn count_empty_input_is_all_zero() {
    let info = count(&Vec::new());
    assert_eq!(info, FileInfo { num_lines: 0, num_words: 0, num_bytes: 0, num_chars: 0 });
}

#[test]
fn count_unterminated_last_line() {
    // Two lines, the second without a terminator; bytes are exact.
    let info = count(&bytes("a\nb"));
    assert_eq!(info.num_lines, 2);
    assert_eq!(info.num_bytes, 3);

    let info = count(&bytes("a\nb\n"));
    assert_eq!(info.num_lines, 2);
    assert_eq!(info.num_bytes, 4);
}

#[test]
fn count_multibyte_characters() {
    // "déjà\n": 7 bytes, 5 code points.
    let info = count(&bytes("d\u{e9}j\u{e0}\n"));
    assert_eq!(info.num_lines, 1);
    assert_eq!(info.num_words, 1);
    assert_eq!(info.num_bytes, 7);
    assert_eq!(info.num_chars, 5);
}

#[test]
fn default_columns_when_none_selected() {
    let none = Columns { lines: false, words: false, bytes: false, chars: false };
    let d = default_columns(none);
    assert_eq!(d, Columns { lines: true, words: true, bytes: true, chars: false });

    let only_chars = Columns { lines: false, words: false, bytes: false, chars: true };
    assert_eq!(default_columns(only_chars), only_chars);
}

#[test]
fn format_row_pads_each_selected_field() {
    let cols = Columns { lines: true, words: true, bytes: true, chars: true };
    let row = format_row(1, 10, 48, 48, cols, &bytes("x"));
    assert_eq!(row, bytes("       1      10      48      48 x\n"));
}

#[test]
fn format_row_blanks_unselected_fields() {
    let cols = Columns { lines: true, words: false, bytes: false, chars: false };
    let row = format_row(3, 9, 27, 27, cols, &bytes("y"));
    assert_eq!(row, bytes(&format!("{:>8}{:8}{:8}{:8} y\n", 3, "", "", "")));
}

#[test]
fn run_single_file_prints_no_total() {
    let config = Config {
        files: vec!["a".to_string()],
        lines: true,
        words: true,
        bytes: true,
        chars: false,
    };
    let inputs = vec![NamedInput::opened(bytes("a"), bytes("one two\n"))];
    let out = run(&config, &inputs);
    let expected = format!("{:>8}{:>8}{:>8}{:8} a\n", 1, 2, 8, "");
    assert_eq!(out.stdout, bytes(&expected));
    assert_eq!(out.stderr, Vec::<u8>::new());
}

#[test]
fn run_two_files_totals_elementwise_sum() {
    let config = Config {
        files: vec!["a".to_string(), "b".to_string()],
        lines: true,
        words: true,
        bytes: true,
        chars: false,
    };
    // a: 2 lines, 2 words, 8 bytes.  b: 1 line, 3 words, 16 bytes.
    let inputs = vec![
        NamedInput::opened(bytes("a"), bytes("one\ntwo\n")),
        NamedInput::opened(bytes("b"), bytes("three four five\n")),
    ];
    let out = run(&config, &inputs);
    let expected = format!(
        "{:>8}{:>8}{:>8}{:8} a\n{:>8}{:>8}{:>8}{:8} b\n{:>8}{:>8}{:>8}{:8} total\n",
        2, 2, 8, "", 1, 3, 16, "", 3, 5, 24, ""
    );
    assert_eq!(out.stdout, bytes(&expected));
    assert_eq!(out.stderr, Vec::<u8>::new());
}

#[test]
fn count_run_reports_missing_input_and_continues() {
    let config = Config {
        files: vec!["bad".to_string(), "good".to_string()],
        lines: true,
        words: true,
        bytes: true,
        chars: false,
    };
    let inputs = vec![
        NamedInput::failed(bytes("bad"), bytes("No such file or directory (os error 2)")),
        NamedInput::opened(bytes("good"), bytes("hi\n")),
    ];
    let out = run(&config, &inputs);
    // The opened input still gets its row and the totals row still appears.
    let expected_out = format!(
        "{:>8}{:>8}{:>8}{:8} good\n{:>8}{:>8}{:>8}{:8} total\n",
        1, 1, 3, "", 1, 1, 3, ""
    );
    assert_eq!(out.stdout, bytes(&expected_out));
    assert_eq!(out.stderr, bytes("bad: No such file or directory (os error 2)\n"));
}
