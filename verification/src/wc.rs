//! Per-file metrics: counts of lines, words, bytes and characters.

use vstd::prelude::*;
use vstd::arithmetic::mul::lemma_mul_inequality;
use crate::numfmt::{padded_dec, spaces, spaces_vec, spec_padded};
use crate::source::{
    NamedInput, RunOutput, lit_total, push_diag_line, spec_diag_line, spec_run_stderr, total_label,
};
use crate::text::{
    byte_is_space, is_space_byte, spec_char_count, spec_word_count, words_rec,
    byte_is_char_start, spec_lines, line_split, lines_of, lemma_line_split_bounds,
    lemma_words_append, lemma_chars_append, lemma_words_le_len, lemma_chars_le_len,
};

verus! {

/// Metrics of one input: terminator-delimited lines, maximal
/// whitespace-separated words, raw bytes, and UTF-8 code point starts.
#[derive(Clone, Copy, Debug, PartialEq, Eq, Structural)]
pub struct FileInfo {
    pub num_lines: usize,
    pub num_words: usize,
    pub num_bytes: usize,
    pub num_chars: usize,
}

impl FileInfo {
    /// A fresh accumulator, all counters zero.
    pub fn new() -> (info: FileInfo)
        ensures
            info.num_lines == 0,
            info.num_words == 0,
            info.num_bytes == 0,
            info.num_chars == 0,
    {
        FileInfo { num_lines: 0, num_words: 0, num_bytes: 0, num_chars: 0 }
    }

    /// Fold one line (terminator included) into the counters: one more
    /// line, plus the line's words, bytes and character starts.
    pub fn add_line(&mut self, line: &Vec<u8>)
        requires
            old(self).num_lines + 1 <= usize::MAX,
            old(self).num_words + line@.len() <= usize::MAX,
            old(self).num_bytes + line@.len() <= usize::MAX,
            old(self).num_chars + line@.len() <= usize::MAX,
        ensures
            final(self).num_lines == old(self).num_lines + 1,
            final(self).num_words == old(self).num_words + spec_word_count(line@),
            final(self).num_bytes == old(self).num_bytes + line@.len(),
            final(self).num_chars == old(self).num_chars + spec_char_count(line@),
    {
        proof {
            lemma_words_le_len(line@, true);
            lemma_chars_le_len(line@);
        }
        let words = count_words(line);
        let chars = count_char_starts(line);
        self.num_lines = self.num_lines + 1;
        self.num_words = self.num_words + words;
        self.num_bytes = self.num_bytes + line.len();
        self.num_chars = self.num_chars + chars;
    }
}

/// Number of maximal whitespace-separated words in `line`.
pub fn count_words(line: &Vec<u8>) -> (n: usize)
    ensures
        n == spec_word_count(line@),
{
    proof {
        lemma_words_le_len(line@, true);
        assert(line@.skip(0) =~= line@);
    }
    let mut n: usize = 0;
    let mut after_space = true;
    let mut i: usize = 0;
    while i < line.len()
        invariant
            i <= line@.len(),
            n <= i,
            spec_word_count(line@) == n + words_rec(line@.skip(i as int), after_space),
        decreases line@.len() - i,
    {
        let b = line[i];
        proof {
            assert(line@.skip(i as int)[0] == b);
            assert(line@.skip(i as int).drop_first() =~= line@.skip(i as int + 1));
        }
        if after_space && !byte_is_space(b) {
            n = n + 1;
        }
        after_space = byte_is_space(b);
        i = i + 1;
    }
    n
}

/// Number of UTF-8 code point starts in `line`.
pub fn count_char_starts(line: &Vec<u8>) -> (n: usize)
    ensures
        n == spec_char_count(line@),
{
    proof {
        lemma_chars_le_len(line@);
        assert(line@.skip(0) =~= line@);
    }
    let mut n: usize = 0;
    let mut i: usize = 0;
    while i < line.len()
        invariant
            i <= line@.len(),
            n <= i,
            spec_char_count(line@) == n + spec_char_count(line@.skip(i as int)),
        decreases line@.len() - i,
    {
        let b = line[i];
        proof {
            assert(line@.skip(i as int)[0] == b);
            assert(line@.skip(i as int).drop_first() =~= line@.skip(i as int + 1));
        }
        if byte_is_char_start(b) {
            n = n + 1;
        }
        i = i + 1;
    }
    n
}

/// Count the metrics of one whole input: exactly its number of
/// terminator-delimited lines (an unterminated final line counts), its
/// words, its exact byte length, and its character starts.
pub fn count(text: &Vec<u8>) -> (info: FileInfo)
    ensures
        info.num_lines == spec_lines(text@).len(),
        info.num_words == spec_word_count(text@),
        info.num_bytes == text@.len(),
        info.num_chars == spec_char_count(text@),
{
    // Binding the length keeps the fact that it fits in `usize` in scope.
    let _len: usize = text.len();
    let lines = lines_of(text);
    let mut info = FileInfo::new();
    let ghost mut rest: Seq<u8> = text@;
    let mut i: usize = 0;
    proof {
        assert(lines.deep_view().skip(0) =~= lines.deep_view());
    }
    while i < lines.len()
        invariant
            i <= lines@.len(),
            lines.deep_view() == spec_lines(text@),
            spec_lines(rest) == lines.deep_view().skip(i as int),
            info.num_bytes + rest.len() == text@.len(),
            text@.len() <= usize::MAX,
            info.num_lines + spec_lines(rest).len() == spec_lines(text@).len(),
            info.num_words + words_rec(rest, true) == spec_word_count(text@),
            info.num_chars + spec_char_count(rest) == spec_char_count(text@),
            info.num_words <= info.num_bytes,
            info.num_chars <= info.num_bytes,
            info.num_lines <= info.num_bytes,
        decreases lines@.len() - i,
    {
        let line = &lines[i];
        let ghost n = line_split(rest);
        proof {
            assert(spec_lines(rest).len() > 0);
            assert(rest.len() > 0);
            lemma_line_split_bounds(rest);
            assert(line.deep_view() == spec_lines(rest)[0]);
            assert(line.deep_view() =~= line@);
            assert(line@ == rest.take(n));
            assert(rest.take(n) + rest.skip(n) =~= rest);
            lemma_words_append(rest.take(n), rest.skip(n), true);
            lemma_chars_append(rest.take(n), rest.skip(n));
            if n < rest.len() {
                assert(rest.take(n).last() == rest[n - 1]);
                assert(is_space_byte(rest.take(n).last()));
            } else {
                assert(rest.skip(n) =~= Seq::<u8>::empty());
            }
            assert(words_rec(rest, true) == spec_word_count(line@) + words_rec(
                rest.skip(n),
                true,
            ));
            assert(spec_char_count(rest) == spec_char_count(line@) + spec_char_count(rest.skip(n)));
            lemma_words_le_len(line@, true);
            lemma_chars_le_len(line@);
            assert(line@.len() <= rest.len());
        }
        info.add_line(line);
        proof {
            let prev = rest;
            rest = rest.skip(n);
            assert(spec_lines(prev) == seq![prev.take(n)] + spec_lines(rest));
            assert((seq![prev.take(n)] + spec_lines(rest)).drop_first() =~= spec_lines(rest));
            assert(lines.deep_view().skip(i as int).drop_first() =~= lines.deep_view().skip(
                i + 1,
            ));
        }
        i = i + 1;
    }
    proof {
        assert(spec_lines(rest).len() == 0);
        assert(rest.len() == 0);
        assert(words_rec(rest, true) == 0);
        assert(spec_char_count(rest) == 0);
    }
    info
}

/// Width of one printed counter field.
pub const FIELD_WIDTH: usize = 8;

/// Which counters a counting run prints.
#[derive(Clone, Copy, Debug, PartialEq, Eq, Structural)]
pub struct Columns {
    pub lines: bool,
    pub words: bool,
    pub bytes: bool,
    pub chars: bool,
}

/// Settings of one counting run: the inputs and the counter selection;
/// bytes and characters exclude each other at configuration level.
#[derive(Debug, Clone, PartialEq)]
pub struct Config {
    pub files: Vec<String>,
    pub lines: bool,
    pub words: bool,
    pub bytes: bool,
    pub chars: bool,
}

/// The counter selection of a configuration.
pub open spec fn spec_columns(c: Config) -> Columns {
    Columns { lines: c.lines, words: c.words, bytes: c.bytes, chars: c.chars }
}

impl Config {
    /// The counter selection; see [`spec_columns`].
    pub fn columns(&self) -> (cols: Columns)
        ensures
            cols == spec_columns(*self),
    {
        Columns { lines: self.lines, words: self.words, bytes: self.bytes, chars: self.chars }
    }
}

/// When no counter at all is selected, lines, words and bytes are shown;
/// any explicit selection stands unchanged.
pub open spec fn spec_default_columns(cols: Columns) -> Columns {
    if !cols.lines && !cols.words && !cols.bytes && !cols.chars {
        Columns { lines: true, words: true, bytes: true, chars: false }
    } else {
        cols
    }
}

/// Apply the default selection; see [`spec_default_columns`].
pub fn default_columns(cols: Columns) -> (r: Columns)
    ensures
        r == spec_default_columns(cols),
{
    if !cols.lines && !cols.words && !cols.bytes && !cols.chars {
        Columns { lines: true, words: true, bytes: true, chars: false }
    } else {
        cols
    }
}

/// One printed counter field: the value right-justified to eight bytes
/// when its column is selected, eight spaces when it is not.
pub open spec fn spec_field(n: nat, on: bool) -> Seq<u8> {
    if on {
        spec_padded(n, FIELD_WIDTH as nat)
    } else {
        spaces(FIELD_WIDTH as nat)
    }
}

/// One output row: the four counter fields in the order lines, words,
/// bytes, characters, then a space, the row's name, and a newline.
pub open spec fn spec_row(l: nat, w: nat, b: nat, c: nat, cols: Columns, name: Seq<u8>) -> Seq<
    u8,
> {
    spec_field(l, cols.lines) + spec_field(w, cols.words) + spec_field(b, cols.bytes) + spec_field(
        c,
        cols.chars,
    ) + seq![32u8] + name + seq![10u8]
}

/// Render one counter field.
fn field(n: u128, on: bool) -> (v: Vec<u8>)
    ensures
        v@ == spec_field(n as nat, on),
{
    if on {
        padded_dec(n, FIELD_WIDTH)
    } else {
        spaces_vec(FIELD_WIDTH)
    }
}

/// Render one output row; see [`spec_row`].
pub fn format_row(l: u128, w: u128, b: u128, c: u128, cols: Columns, name: &Vec<u8>) -> (row: Vec<
    u8,
>)
    ensures
        row@ == spec_row(l as nat, w as nat, b as nat, c as nat, cols, name@),
{
    let mut row = field(l, cols.lines);
    let fw = field(w, cols.words);
    crate::text::push_all(&mut row, &fw);
    let fb = field(b, cols.bytes);
    crate::text::push_all(&mut row, &fb);
    let fc = field(c, cols.chars);
    crate::text::push_all(&mut row, &fc);
    row.push(32u8);
    crate::text::push_all(&mut row, name);
    row.push(10u8);
    proof {
        assert(row@ =~= spec_row(l as nat, w as nat, b as nat, c as nat, cols, name@));
    }
    row
}

/// The elementwise sums of the metrics of the first `j` inputs that were
/// opened, as (lines, words, bytes, characters); failed inputs add
/// nothing.
pub open spec fn spec_totals(inputs: Seq<NamedInput>, j: int) -> (nat, nat, nat, nat)
    decreases j,
{
    if j <= 0 {
        (0nat, 0nat, 0nat, 0nat)
    } else {
        let t = spec_totals(inputs, j - 1);
        match inputs[j - 1].data {
            Result::Ok(d) => (
                t.0 + spec_lines(d@).len(),
                t.1 + spec_word_count(d@),
                t.2 + d@.len(),
                t.3 + spec_char_count(d@),
            ),
            Result::Err(_) => t,
        }
    }
}

/// The per-file rows of the first `j` inputs, in input order: one row per
/// opened input carrying its metrics and its name; failed inputs
/// contribute nothing here.
pub open spec fn spec_wc_rows(cols: Columns, inputs: Seq<NamedInput>, j: int) -> Seq<u8>
    decreases j,
{
    if j <= 0 {
        Seq::empty()
    } else {
        spec_wc_rows(cols, inputs, j - 1) + match inputs[j - 1].data {
            Result::Ok(d) => spec_row(
                spec_lines(d@).len(),
                spec_word_count(d@),
                d@.len(),
                spec_char_count(d@),
                cols,
                inputs[j - 1].name@,
            ),
            Result::Err(_) => Seq::<u8>::empty(),
        }
    }
}

/// The whole output stream of a counting run: the per-file rows, then —
/// only when more than one input was named — a `total` row carrying the
/// elementwise sums of the opened inputs' metrics.
pub open spec fn spec_wc_stdout(cols: Columns, inputs: Seq<NamedInput>) -> Seq<u8> {
    spec_wc_rows(cols, inputs, inputs.len() as int) + if inputs.len() > 1 {
        let t = spec_totals(inputs, inputs.len() as int);
        spec_row(t.0, t.1, t.2, t.3, cols, lit_total())
    } else {
        Seq::<u8>::empty()
    }
}

/// Run the counter over the resolved inputs, in order: one metrics row
/// per opened input, a diagnostic line per failed one (the run goes on),
/// and the totals row exactly when more than one input was named.
pub fn run(config: &Config, inputs: &Vec<NamedInput>) -> (out: RunOutput)
    ensures
        out.stdout@ == spec_wc_stdout(spec_columns(*config), inputs@),
        out.stderr@ == spec_run_stderr(inputs@, Seq::<u8>::empty(), inputs@.len() as int),
{
    let cols = config.columns();
    let n = inputs.len();
    let mut stdout: Vec<u8> = Vec::new();
    let mut stderr: Vec<u8> = Vec::new();
    let mut tl: u128 = 0;
    let mut tw: u128 = 0;
    let mut tb: u128 = 0;
    let mut tc: u128 = 0;
    let mut i: usize = 0;
    proof {
        assert(usize::MAX as int <= 0xFFFF_FFFF_FFFF_FFFF);
    }
    while i < n
        invariant
            i <= n,
            n == inputs@.len(),
            cols == spec_columns(*config),
            stdout@ == spec_wc_rows(cols, inputs@, i as int),
            stderr@ == spec_run_stderr(inputs@, Seq::<u8>::empty(), i as int),
            tl as nat == spec_totals(inputs@, i as int).0,
            tw as nat == spec_totals(inputs@, i as int).1,
            tb as nat == spec_totals(inputs@, i as int).2,
            tc as nat == spec_totals(inputs@, i as int).3,
            tl as int <= i as int * 0xFFFF_FFFF_FFFF_FFFF,
            tw as int <= i as int * 0xFFFF_FFFF_FFFF_FFFF,
            tb as int <= i as int * 0xFFFF_FFFF_FFFF_FFFF,
            tc as int <= i as int * 0xFFFF_FFFF_FFFF_FFFF,
        decreases n - i,
    {
        let inp = &inputs[i];
        match &inp.data {
            Result::Ok(d) => {
                let info = count(d);
                let row = format_row(
                    info.num_lines as u128,
                    info.num_words as u128,
                    info.num_bytes as u128,
                    info.num_chars as u128,
                    cols,
                    &inp.name,
                );
                crate::text::push_all(&mut stdout, &row);
                proof {
                    assert(usize::MAX as int <= 0xFFFF_FFFF_FFFF_FFFF);
                    lemma_mul_inequality(i as int + 1, usize::MAX as int, 0xFFFF_FFFF_FFFF_FFFF);
                    lemma_mul_inequality(
                        usize::MAX as int,
                        0xFFFF_FFFF_FFFF_FFFF,
                        0xFFFF_FFFF_FFFF_FFFF,
                    );
                    assert(0xFFFF_FFFF_FFFF_FFFF * 0xFFFF_FFFF_FFFF_FFFF < u128::MAX as int)
                        by (nonlinear_arith);
                }
                tl = tl + info.num_lines as u128;
                tw = tw + info.num_words as u128;
                tb = tb + info.num_bytes as u128;
                tc = tc + info.num_chars as u128;
            },
            Result::Err(cause) => {
                push_diag_line(&mut stderr, &inp.name, cause);
                proof {
                    assert(Seq::<u8>::empty() + spec_diag_line(inp.name@, cause@) =~= spec_diag_line(
                        inp.name@,
                        cause@,
                    ));
                    assert(i as int * 0xFFFF_FFFF_FFFF_FFFF <= (i as int + 1)
                        * 0xFFFF_FFFF_FFFF_FFFF);
                }
            },
        }
        i = i + 1;
    }
    if n > 1 {
        let label = total_label();
        let trow = format_row(tl, tw, tb, tc, cols, &label);
        crate::text::push_all(&mut stdout, &trow);
    } else {
        proof {
            assert(stdout@ + Seq::<u8>::empty() =~= stdout@);
        }
    }
    RunOutput { stdout, stderr }
}

} // verus!
