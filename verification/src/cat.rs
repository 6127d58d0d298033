//! Line-rewriting policies: plain copy, sequential numbering, and
//! nonblank-only numbering.

use vstd::prelude::*;
use crate::numfmt::spec_padded;
use crate::source::{
    NamedInput, RunOutput, lit_failed_to_open, push_diag_line, push_failed_to_open,
    spec_run_stderr,
};
use crate::text::{
    byte_is_space, concat_all, is_space_byte, lemma_lines_concat, lines_of, push_all, spec_lines,
};

verus! {

/// Width of the printed line counter field.
pub const COUNTER_WIDTH: usize = 6;

/// The numbering policy of one run; the two numbering modes are mutually
/// exclusive by construction.
#[derive(Clone, Copy, Debug, PartialEq, Eq, Structural)]
pub enum Mode {
    Plain,
    NumberAll,
    NumberNonblank,
}

/// Settings of one line-printing run: the inputs and the two numbering
/// flags, of which the first takes precedence.
#[derive(Debug, Clone, PartialEq)]
pub struct Config {
    pub files: Vec<String>,
    pub number_lines: bool,
    pub number_nonblank_lines: bool,
}

/// The policy selected by a configuration: numbering every line wins over
/// numbering nonblank lines, and with neither flag lines pass unchanged.
pub open spec fn spec_mode(c: Config) -> Mode {
    if c.number_lines {
        Mode::NumberAll
    } else if c.number_nonblank_lines {
        Mode::NumberNonblank
    } else {
        Mode::Plain
    }
}

impl Config {
    /// Select the numbering policy; see [`spec_mode`].
    pub fn mode(&self) -> (m: Mode)
        ensures
            m == spec_mode(*self),
    {
        if self.number_lines {
            Mode::NumberAll
        } else if self.number_nonblank_lines {
            Mode::NumberNonblank
        } else {
            Mode::Plain
        }
    }
}

/// A line is blank when every one of its bytes, terminator included, is
/// whitespace; in particular an empty line is blank.
pub open spec fn is_blank(line: Seq<u8>) -> bool {
    forall|i: int| 0 <= i < line.len() ==> is_space_byte(line[i])
}

/// Executable test for [`is_blank`].
pub fn line_is_blank(line: &Vec<u8>) -> (r: bool)
    ensures
        r == is_blank(line@),
{
    let mut i: usize = 0;
    while i < line.len()
        invariant
            i <= line@.len(),
            forall|j: int| 0 <= j < i ==> is_space_byte(line@[j]),
        decreases line@.len() - i,
    {
        if !byte_is_space(line[i]) {
            return false;
        }
        i = i + 1;
    }
    true
}

/// One numbered record: the counter right-justified to six bytes, one
/// tab, then the line unchanged.
pub open spec fn spec_numbered(k: nat, line: Seq<u8>) -> Seq<u8> {
    spec_padded(k, COUNTER_WIDTH as nat) + seq![9u8] + line
}

/// Sequential numbering of `lines` with first counter `k`: every line is
/// numbered, and the counter grows by one per line, blank or not.
pub open spec fn spec_number_all(lines: Seq<Seq<u8>>, k: nat) -> Seq<u8>
    decreases lines.len(),
{
    if lines.len() == 0 {
        Seq::empty()
    } else {
        spec_numbered(k, lines[0]) + spec_number_all(lines.drop_first(), k + 1)
    }
}

/// Nonblank-only numbering of `lines` with next counter `k`: a blank line
/// passes unchanged and leaves the counter alone; any other line is
/// numbered and advances it.
pub open spec fn spec_number_nonblank(lines: Seq<Seq<u8>>, k: nat) -> Seq<u8>
    decreases lines.len(),
{
    if lines.len() == 0 {
        Seq::empty()
    } else if is_blank(lines[0]) {
        lines[0] + spec_number_nonblank(lines.drop_first(), k)
    } else {
        spec_numbered(k, lines[0]) + spec_number_nonblank(lines.drop_first(), k + 1)
    }
}

/// What one whole input becomes under each policy, counters starting at 1.
pub open spec fn spec_transform(m: Mode, s: Seq<u8>) -> Seq<u8> {
    match m {
        Mode::Plain => s,
        Mode::NumberAll => spec_number_all(spec_lines(s), 1),
        Mode::NumberNonblank => spec_number_nonblank(spec_lines(s), 1),
    }
}

/// The same, over a line sequence and an arbitrary next counter; plain
/// copying is concatenation.
pub open spec fn spec_emit_rest(m: Mode, lines: Seq<Seq<u8>>, k: nat) -> Seq<u8> {
    match m {
        Mode::Plain => concat_all(lines),
        Mode::NumberAll => spec_number_all(lines, k),
        Mode::NumberNonblank => spec_number_nonblank(lines, k),
    }
}

/// A streaming emitter: feeds one line at a time through a policy,
/// carrying the counter between lines.
pub struct Emitter {
    pub mode: Mode,
    pub counter: u128,
}

impl Emitter {
    /// A fresh emitter for `mode`, its counter at 1.
    pub fn new(mode: Mode) -> (e: Emitter)
        ensures
            e.mode == mode,
            e.counter == 1,
    {
        Emitter { mode, counter: 1 }
    }

    /// Rewrite one line under the policy: a plain copy, a numbered
    /// record, or — only under nonblank numbering — a blank line passed
    /// through; the counter advances exactly when a counter was printed.
    pub fn emit(&mut self, line: &Vec<u8>) -> (chunk: Vec<u8>)
        requires
            old(self).counter < u128::MAX,
        ensures
            final(self).mode == old(self).mode,
            match old(self).mode {
                Mode::Plain => chunk@ == line@ && final(self).counter == old(self).counter,
                Mode::NumberAll => chunk@ == spec_numbered(old(self).counter as nat, line@)
                    && final(self).counter == old(self).counter + 1,
                Mode::NumberNonblank => if is_blank(line@) {
                    chunk@ == line@ && final(self).counter == old(self).counter
                } else {
                    chunk@ == spec_numbered(old(self).counter as nat, line@)
                        && final(self).counter == old(self).counter + 1
                },
            },
    {
        match self.mode {
            Mode::Plain => line.clone(),
            Mode::NumberAll => {
                let chunk = numbered_record(self.counter, line);
                self.counter = self.counter + 1;
                chunk
            },
            Mode::NumberNonblank => {
                if line_is_blank(line) {
                    line.clone()
                } else {
                    let chunk = numbered_record(self.counter, line);
                    self.counter = self.counter + 1;
                    chunk
                }
            },
        }
    }
}

/// Build one numbered record for counter `k`.
fn numbered_record(k: u128, line: &Vec<u8>) -> (chunk: Vec<u8>)
    ensures
        chunk@ == spec_numbered(k as nat, line@),
{
    let mut chunk = crate::numfmt::padded_dec(k, COUNTER_WIDTH);
    let ghost pad = chunk@;
    chunk.push(9);
    proof {
        assert(chunk@ =~= pad + seq![9u8]);
    }
    let ghost front = chunk@;
    push_all(&mut chunk, line);
    proof {
        assert((pad + seq![9u8]) + line@ =~= pad + seq![9u8] + line@);
    }
    chunk
}

/// Transform one whole input under `mode`, numbering from 1.
pub fn transform_file(mode: Mode, text: &Vec<u8>) -> (out: Vec<u8>)
    ensures
        out@ == spec_transform(mode, text@),
{
    let lines = lines_of(text);
    let mut emitter = Emitter::new(mode);
    let mut out: Vec<u8> = Vec::new();
    let mut i: usize = 0;
    proof {
        assert(lines.deep_view().skip(0) =~= lines.deep_view());
        assert(out@ + spec_emit_rest(mode, lines.deep_view(), 1) =~= spec_emit_rest(
            mode,
            lines.deep_view(),
            1,
        ));
    }
    while i < lines.len()
        invariant
            i <= lines@.len(),
            lines.deep_view() == spec_lines(text@),
            emitter.mode == mode,
            1 <= emitter.counter <= 1 + i,
            spec_emit_rest(mode, lines.deep_view(), 1) == out@ + spec_emit_rest(
                mode,
                lines.deep_view().skip(i as int),
                emitter.counter as nat,
            ),
        decreases lines@.len() - i,
    {
        let line = &lines[i];
        let ghost rest = lines.deep_view().skip(i as int);
        proof {
            assert(rest[0] == lines.deep_view()[i as int]);
            assert(line.deep_view() =~= line@);
            assert(rest.drop_first() =~= lines.deep_view().skip(i + 1));
        }
        let ghost prev_out = out@;
        let ghost prev_k = emitter.counter;
        let chunk = emitter.emit(line);
        push_all(&mut out, &chunk);
        proof {
            assert(spec_emit_rest(mode, rest, prev_k as nat) == chunk@ + spec_emit_rest(
                mode,
                rest.drop_first(),
                emitter.counter as nat,
            ));
            assert((prev_out + chunk@) + spec_emit_rest(
                mode,
                rest.drop_first(),
                emitter.counter as nat,
            ) =~= prev_out + (chunk@ + spec_emit_rest(
                mode,
                rest.drop_first(),
                emitter.counter as nat,
            )));
        }
        i = i + 1;
    }
    proof {
        assert(lines.deep_view().skip(i as int) =~= Seq::<Seq<u8>>::empty());
        assert(spec_emit_rest(mode, Seq::<Seq<u8>>::empty(), emitter.counter as nat) =~= Seq::<
            u8,
        >::empty());
        assert(out@ =~= spec_emit_rest(mode, lines.deep_view(), 1));
        lemma_lines_concat(text@);
    }
    out
}

/// The plain-copy policy reproduces its input byte for byte.
pub fn plain_copy(text: &Vec<u8>) -> (out: Vec<u8>)
    ensures
        out@ == text@,
{
    transform_file(Mode::Plain, text)
}

/// Sequential numbering splits around any line: line `k` (1-indexed) of
/// the input is printed with the counter exactly `k`, whatever stands on
/// the other lines.
pub proof fn lemma_number_all_counter(lines: Seq<Seq<u8>>, k: int)
    requires
        1 <= k <= lines.len(),
    ensures
        spec_number_all(lines, 1) == spec_number_all(lines.take(k - 1), 1) + spec_numbered(
            k as nat,
            lines[k - 1],
        ) + spec_number_all(lines.skip(k), (k + 1) as nat),
{
    lemma_number_all_split(lines, k - 1, 1);
    let tail = lines.skip(k - 1);
    assert(tail[0] == lines[k - 1]);
    assert(tail.drop_first() =~= lines.skip(k));
    assert(spec_number_all(tail, k as nat) == spec_numbered(k as nat, lines[k - 1])
        + spec_number_all(lines.skip(k), (k + 1) as nat));
    assert(spec_number_all(lines.take(k - 1), 1) + (spec_numbered(k as nat, lines[k - 1])
        + spec_number_all(lines.skip(k), (k + 1) as nat)) =~= spec_number_all(lines.take(k - 1), 1)
        + spec_numbered(k as nat, lines[k - 1]) + spec_number_all(lines.skip(k), (k + 1) as nat));
}

/// Sequential numbering splits at any index `j`: the first `j` lines
/// numbered from `c`, then the rest numbered from `c + j`.
pub proof fn lemma_number_all_split(lines: Seq<Seq<u8>>, j: int, c: nat)
    requires
        0 <= j <= lines.len(),
    ensures
        spec_number_all(lines, c) == spec_number_all(lines.take(j), c) + spec_number_all(
            lines.skip(j),
            (c + j) as nat,
        ),
    decreases j,
{
    if j == 0 {
        assert(lines.take(0) =~= Seq::<Seq<u8>>::empty());
        assert(lines.skip(0) =~= lines);
        assert(spec_number_all(lines.take(0), c) + spec_number_all(lines, c) =~= spec_number_all(
            lines,
            c,
        ));
    } else {
        let t = lines.drop_first();
        lemma_number_all_split(t, j - 1, (c + 1) as nat);
        assert(lines.take(j).drop_first() =~= t.take(j - 1));
        assert(lines.skip(j) =~= t.skip(j - 1));
        assert(lines.take(j)[0] == lines[0]);
        assert(spec_number_all(lines.take(j), c) == spec_numbered(c, lines[0]) + spec_number_all(
            t.take(j - 1),
            (c + 1) as nat,
        ));
        assert(spec_numbered(c, lines[0]) + (spec_number_all(t.take(j - 1), (c + 1) as nat)
            + spec_number_all(t.skip(j - 1), (c + j) as nat)) =~= (spec_numbered(c, lines[0])
            + spec_number_all(t.take(j - 1), (c + 1) as nat)) + spec_number_all(
            t.skip(j - 1),
            (c + j) as nat,
        ));
    }
}

/// Number of non-blank lines among `lines`.
pub open spec fn count_nonblank(lines: Seq<Seq<u8>>) -> nat
    decreases lines.len(),
{
    if lines.len() == 0 {
        0
    } else {
        (if is_blank(lines[0]) {
            0nat
        } else {
            1nat
        }) + count_nonblank(lines.drop_first())
    }
}

/// Counting non-blank lines distributes over splitting the line list.
pub proof fn lemma_count_nonblank_split(lines: Seq<Seq<u8>>, j: int)
    requires
        0 <= j <= lines.len(),
    ensures
        count_nonblank(lines) == count_nonblank(lines.take(j)) + count_nonblank(lines.skip(j)),
    decreases j,
{
    if j == 0 {
        assert(lines.take(0) =~= Seq::<Seq<u8>>::empty());
        assert(lines.skip(0) =~= lines);
    } else {
        let t = lines.drop_first();
        lemma_count_nonblank_split(t, j - 1);
        assert(lines.take(j).drop_first() =~= t.take(j - 1));
        assert(lines.skip(j) =~= t.skip(j - 1));
        assert(lines.take(j)[0] == lines[0]);
    }
}

/// Nonblank-only numbering splits at any index `j`: the first `j` lines
/// numbered from `c`, then the rest numbered from `c` plus the number of
/// non-blank lines among the first `j`.
pub proof fn lemma_number_nonblank_split(lines: Seq<Seq<u8>>, j: int, c: nat)
    requires
        0 <= j <= lines.len(),
    ensures
        spec_number_nonblank(lines, c) == spec_number_nonblank(lines.take(j), c)
            + spec_number_nonblank(lines.skip(j), (c + count_nonblank(lines.take(j))) as nat),
    decreases j,
{
    if j == 0 {
        assert(lines.take(0) =~= Seq::<Seq<u8>>::empty());
        assert(lines.skip(0) =~= lines);
        assert(spec_number_nonblank(lines.take(0), c) + spec_number_nonblank(lines, c)
            =~= spec_number_nonblank(lines, c));
    } else {
        let t = lines.drop_first();
        let c1: nat = if is_blank(lines[0]) {
            c
        } else {
            (c + 1) as nat
        };
        lemma_number_nonblank_split(t, j - 1, c1);
        assert(lines.take(j).drop_first() =~= t.take(j - 1));
        assert(lines.skip(j) =~= t.skip(j - 1));
        assert(lines.take(j)[0] == lines[0]);
        let head = if is_blank(lines[0]) {
            lines[0]
        } else {
            spec_numbered(c, lines[0])
        };
        assert(spec_number_nonblank(lines, c) == head + spec_number_nonblank(t, c1));
        assert(spec_number_nonblank(lines.take(j), c) == head + spec_number_nonblank(
            t.take(j - 1),
            c1,
        ));
        assert((c1 + count_nonblank(t.take(j - 1))) as nat == (c + count_nonblank(
            lines.take(j),
        )) as nat);
        assert(head + (spec_number_nonblank(t.take(j - 1), c1) + spec_number_nonblank(
            t.skip(j - 1),
            (c1 + count_nonblank(t.take(j - 1))) as nat,
        )) =~= (head + spec_number_nonblank(t.take(j - 1), c1)) + spec_number_nonblank(
            t.skip(j - 1),
            (c1 + count_nonblank(t.take(j - 1))) as nat,
        ));
    }
}

/// Under nonblank-only numbering, line `k` (0-indexed) appears bare when
/// blank; otherwise it carries the counter one more than the number of
/// non-blank lines before it — the counter advances only across
/// non-blank lines.
pub proof fn lemma_number_nonblank_counter(lines: Seq<Seq<u8>>, k: int)
    requires
        0 <= k < lines.len(),
    ensures
        spec_number_nonblank(lines, 1) == spec_number_nonblank(lines.take(k), 1) + (if is_blank(
            lines[k],
        ) {
            lines[k]
        } else {
            spec_numbered((1 + count_nonblank(lines.take(k))) as nat, lines[k])
        }) + spec_number_nonblank(lines.skip(k + 1), (1 + count_nonblank(lines.take(k + 1))) as nat),
{
    lemma_number_nonblank_split(lines, k, 1);
    let tail = lines.skip(k);
    let ck: nat = (1 + count_nonblank(lines.take(k))) as nat;
    assert(tail[0] == lines[k]);
    assert(tail.drop_first() =~= lines.skip(k + 1));
    let head = if is_blank(lines[k]) {
        lines[k]
    } else {
        spec_numbered(ck, lines[k])
    };
    let cnext: nat = if is_blank(lines[k]) {
        ck
    } else {
        (ck + 1) as nat
    };
    assert(spec_number_nonblank(tail, ck) == head + spec_number_nonblank(
        lines.skip(k + 1),
        cnext,
    ));
    lemma_count_nonblank_split(lines.take(k + 1), k);
    assert(lines.take(k + 1).take(k) =~= lines.take(k));
    assert(lines.take(k + 1).skip(k) =~= seq![lines[k]]);
    assert(seq![lines[k]][0] == lines[k]);
    assert(seq![lines[k]].len() == 1);
    assert(seq![lines[k]].drop_first() =~= Seq::<Seq<u8>>::empty());
    assert(count_nonblank(Seq::<Seq<u8>>::empty()) == 0);
    assert(count_nonblank(seq![lines[k]].drop_first()) == 0);
    assert(count_nonblank(seq![lines[k]]) == if is_blank(lines[k]) {
        0nat
    } else {
        1nat
    });
    assert(cnext == 1 + count_nonblank(lines.take(k + 1)));
    assert(spec_number_nonblank(lines.take(k), 1) + (head + spec_number_nonblank(
        lines.skip(k + 1),
        cnext,
    )) =~= spec_number_nonblank(lines.take(k), 1) + head + spec_number_nonblank(
        lines.skip(k + 1),
        cnext,
    ));
}

/// The output stream after the first `j` inputs: each opened input is
/// transformed whole under the policy, its counter starting afresh at 1;
/// failed inputs contribute nothing here.
pub open spec fn spec_cat_stdout(m: Mode, inputs: Seq<NamedInput>, j: int) -> Seq<u8>
    decreases j,
{
    if j <= 0 {
        Seq::empty()
    } else {
        spec_cat_stdout(m, inputs, j - 1) + match inputs[j - 1].data {
            Result::Ok(d) => spec_transform(m, d@),
            Result::Err(_) => Seq::<u8>::empty(),
        }
    }
}

/// Run the line printer over the resolved inputs, in order: every opened
/// input is transformed under the configured policy; every failed one
/// gets a diagnostic line and the run goes on.
pub fn run(config: &Config, inputs: &Vec<NamedInput>) -> (out: RunOutput)
    ensures
        out.stdout@ == spec_cat_stdout(spec_mode(*config), inputs@, inputs@.len() as int),
        out.stderr@ == spec_run_stderr(inputs@, lit_failed_to_open(), inputs@.len() as int),
{
    let mode = config.mode();
    let mut stdout: Vec<u8> = Vec::new();
    let mut stderr: Vec<u8> = Vec::new();
    let mut i: usize = 0;
    while i < inputs.len()
        invariant
            i <= inputs@.len(),
            mode == spec_mode(*config),
            stdout@ == spec_cat_stdout(mode, inputs@, i as int),
            stderr@ == spec_run_stderr(inputs@, lit_failed_to_open(), i as int),
        decreases inputs@.len() - i,
    {
        let inp = &inputs[i];
        let ghost prev_err = stderr@;
        match &inp.data {
            Result::Ok(d) => {
                let t = transform_file(mode, d);
                push_all(&mut stdout, &t);
            },
            Result::Err(cause) => {
                push_failed_to_open(&mut stderr);
                push_diag_line(&mut stderr, &inp.name, cause);
                proof {
                    assert((prev_err + lit_failed_to_open()) + crate::source::spec_diag_line(
                        inp.name@,
                        cause@,
                    ) =~= prev_err + (lit_failed_to_open() + crate::source::spec_diag_line(
                        inp.name@,
                        cause@,
                    )));
                }
            },
        }
        i = i + 1;
    }
    RunOutput { stdout, stderr }
}

} // verus!
