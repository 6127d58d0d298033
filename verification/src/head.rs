//! Truncation of an input to a fixed line or byte budget, and parsing of
//! that budget from its textual form.

use vstd::prelude::*;
use vstd::string::StrSliceExecFns;
use vstd::arithmetic::div_mod::lemma_fundamental_div_mod;
use crate::source::{NamedInput, RunOutput, push_diag_line, spec_diag_line, spec_run_stderr};
use crate::text::{
    concat_all, copy_range, lemma_concat_all_take_succ, lines_of, push_all, spec_lines,
};

verus! {

/// Settings of one truncating run: the inputs, a line budget, and an
/// optional byte budget that replaces the line budget when present.
#[derive(Debug, Clone, PartialEq)]
pub struct Config {
    pub files: Vec<String>,
    pub lines: usize,
    pub bytes: Option<usize>,
}

/// Whether `c` is a decimal digit.
pub open spec fn is_dec_digit(c: char) -> bool {
    48 <= c as u32 <= 57
}

/// The value of the digit `c`, zero for any other character.
pub open spec fn digit_val(c: char) -> nat {
    if is_dec_digit(c) {
        (c as u32 - 48) as nat
    } else {
        0
    }
}

/// Whether every character of `s` is a decimal digit.
pub open spec fn all_digits(s: Seq<char>) -> bool {
    forall|i: int| 0 <= i < s.len() ==> is_dec_digit(s[i])
}

/// The value of `s` read as a decimal numeral.
pub open spec fn dec_value(s: Seq<char>) -> nat
    decreases s.len(),
{
    if s.len() == 0 {
        0
    } else {
        dec_value(s.drop_last()) * 10 + digit_val(s.last())
    }
}

/// A numeral's value only grows as more digits follow: the value of `s`
/// is at least the value of any of its prefixes.
pub proof fn lemma_dec_value_prefix(s: Seq<char>, j: int)
    requires
        0 <= j <= s.len(),
    ensures
        dec_value(s) >= dec_value(s.take(j)),
    decreases s.len() - j,
{
    if j == s.len() {
        assert(s.take(j) =~= s);
    } else {
        assert(s.take(j + 1).drop_last() =~= s.take(j));
        assert(s.take(j + 1).last() == s[j]);
        assert(dec_value(s.take(j + 1)) == dec_value(s.take(j)) * 10 + digit_val(s[j]));
        assert(dec_value(s.take(j)) * 10 >= dec_value(s.take(j)));
        lemma_dec_value_prefix(s, j + 1);
    }
}

/// The digit run of a numeral: everything after an optional leading plus
/// sign.
pub open spec fn numeral_digits(s: Seq<char>) -> Seq<char> {
    if s.len() > 0 && s[0] == '+' {
        s.drop_first()
    } else {
        s
    }
}

/// Whether `s` is a decimal numeral: an optional leading plus sign, then
/// one or more decimal digits.
pub open spec fn is_numeral(s: Seq<char>) -> bool {
    numeral_digits(s).len() > 0 && all_digits(numeral_digits(s))
}

/// The value of the numeral `s`.
pub open spec fn numeral_value(s: Seq<char>) -> nat {
    dec_value(numeral_digits(s))
}

/// Parse a positive decimal count.  Succeeds exactly on a numeral — an
/// optional leading plus sign, then one or more decimal digits — whose
/// value is positive and fits in `usize`; anything else comes back
/// unchanged as the error, as do zero and an out-of-range value.
pub fn parse_positive_int(val: &str) -> (r: Result<usize, String>)
    ensures
        match r {
            Result::Ok(v) => is_numeral(val@) && v == numeral_value(val@) && v > 0,
            Result::Err(m) => m@ == val@ && !(is_numeral(val@) && 0 < numeral_value(val@)
                <= usize::MAX),
        },
{
    let n = val.unicode_len();
    let mut i: usize = 0;
    if n > 0 && val.get_char(0) == '+' {
        i = 1;
    }
    let ghost start = i as int;
    let ghost d = numeral_digits(val@);
    proof {
        if start == 1 {
            assert(d =~= val@.skip(1));
        } else {
            assert(val@.skip(0) =~= val@);
            assert(d =~= val@.skip(0));
        }
        assert(d.take(0) =~= Seq::<char>::empty());
    }
    if i == n {
        // The empty string, or a bare plus sign: no digits at all.
        return Result::Err(val.to_owned());
    }
    let mut acc: usize = 0;
    while i < n
        invariant
            start <= i <= n,
            0 <= start <= 1,
            start < n,
            n == val@.len(),
            d == numeral_digits(val@),
            d == val@.skip(start),
            d.len() == n - start,
            all_digits(d.take(i - start)),
            acc == dec_value(d.take(i - start)),
        decreases n - i,
    {
        let c = val.get_char(i);
        proof {
            assert(d[i - start] == val@[i as int]);
        }
        let u = c as u32;
        if u < 48 || u > 57 {
            assert(!is_dec_digit(d[i - start]));
            return Result::Err(val.to_owned());
        }
        let dig: usize = (u - 48) as usize;
        proof {
            lemma_fundamental_div_mod(usize::MAX as int, 10);
            assert(d.take(i - start + 1).drop_last() =~= d.take(i - start));
            assert(d.take(i - start + 1).last() == d[i - start]);
        }
        if acc > usize::MAX / 10 || (acc == usize::MAX / 10 && dig > usize::MAX % 10) {
            proof {
                assert(dec_value(d.take(i - start + 1)) == acc * 10 + dig);
                assert(dec_value(d.take(i - start + 1)) > usize::MAX);
                lemma_dec_value_prefix(d, i - start + 1);
                assert(numeral_value(val@) > usize::MAX);
            }
            return Result::Err(val.to_owned());
        }
        assert(acc * 10 + dig <= usize::MAX);
        acc = acc * 10 + dig;
        i = i + 1;
        proof {
            assert(forall|k: int| 0 <= k < i - start ==> d.take(i - start)[k] == d[k]);
            assert(forall|k: int| 0 <= k < i - 1 - start ==> d.take(i - 1 - start)[k] == d[k]);
            assert(is_dec_digit(d[i - 1 - start]));
            assert(all_digits(d.take(i - start)));
        }
    }
    proof {
        assert(d.take(n - start) =~= d);
    }
    if acc == 0 {
        Result::Err(val.to_owned())
    } else {
        Result::Ok(acc)
    }
}

/// The first `budget` bytes of `s`, or all of it when shorter; the cut
/// may fall inside a line.
pub open spec fn spec_head_bytes(s: Seq<u8>, budget: nat) -> Seq<u8> {
    if budget <= s.len() {
        s.take(budget as int)
    } else {
        s
    }
}

/// Emit at most `budget` raw bytes of `text`.
pub fn head_bytes(text: &Vec<u8>, budget: usize) -> (out: Vec<u8>)
    ensures
        out@ == spec_head_bytes(text@, budget as nat),
{
    let stop: usize = if budget <= text.len() {
        budget
    } else {
        text.len()
    };
    let out = copy_range(text, 0, stop);
    proof {
        assert(text@.subrange(0, stop as int) =~= text@.take(stop as int));
        if budget > text@.len() {
            assert(text@.take(stop as int) =~= text@);
        }
    }
    out
}

/// The first `budget` lines of `text`, verbatim, terminators kept; all of
/// it when it has fewer lines.
pub open spec fn spec_head_lines(s: Seq<u8>, budget: nat) -> Seq<u8> {
    if budget <= spec_lines(s).len() {
        concat_all(spec_lines(s).take(budget as int))
    } else {
        concat_all(spec_lines(s))
    }
}

/// Emit at most `budget` whole lines of `text`, leaving the rest unread.
pub fn head_lines(text: &Vec<u8>, budget: usize) -> (out: Vec<u8>)
    ensures
        out@ == spec_head_lines(text@, budget as nat),
{
    let lines = lines_of(text);
    let stop: usize = if budget <= lines.len() {
        budget
    } else {
        lines.len()
    };
    let mut out: Vec<u8> = Vec::new();
    let mut i: usize = 0;
    proof {
        assert(out@ =~= concat_all(lines.deep_view().take(0)));
    }
    while i < stop
        invariant
            i <= stop <= lines@.len(),
            lines.deep_view() == spec_lines(text@),
            out@ == concat_all(lines.deep_view().take(i as int)),
        decreases stop - i,
    {
        proof {
            lemma_concat_all_take_succ(lines.deep_view(), i as int);
            assert(lines@[i as int].deep_view() =~= lines@[i as int]@);
        }
        push_all(&mut out, &lines[i]);
        i = i + 1;
    }
    proof {
        if budget > lines.deep_view().len() {
            assert(lines.deep_view().take(stop as int) =~= lines.deep_view());
        }
    }
    out
}

/// A budget of zero is a configuration error, found before any input is
/// touched.
#[derive(Clone, Copy, Debug, PartialEq, Eq, Structural)]
pub enum ConfigError {
    ZeroLineCount,
    ZeroByteCount,
}

/// The active budget of one truncating run: the byte budget when one was
/// given, else the line budget.
#[derive(Clone, Copy, Debug, PartialEq, Eq, Structural)]
pub enum Limit {
    Lines(usize),
    Bytes(usize),
}

/// The budget selected by a configuration: bytes when present, else lines.
pub open spec fn spec_limit(c: Config) -> Limit {
    match c.bytes {
        Option::Some(b) => Limit::Bytes(b),
        Option::None => Limit::Lines(c.lines),
    }
}

impl Config {
    /// Select the active budget; see [`spec_limit`].
    pub fn limit(&self) -> (l: Limit)
        ensures
            l == spec_limit(*self),
    {
        match self.bytes {
            Option::Some(b) => Limit::Bytes(b),
            Option::None => Limit::Lines(self.lines),
        }
    }
}

/// What one opened input contributes under budget `l`.
pub open spec fn spec_head_file(l: Limit, s: Seq<u8>) -> Seq<u8> {
    match l {
        Limit::Lines(n) => spec_head_lines(s, n as nat),
        Limit::Bytes(n) => spec_head_bytes(s, n as nat),
    }
}

/// A file header: `==> name <==` on its own line, preceded by a blank
/// line for every file after the first of the list.
pub open spec fn spec_header(name: Seq<u8>, first: bool) -> Seq<u8> {
    (if first {
        Seq::<u8>::empty()
    } else {
        seq![10u8]
    }) + seq![61u8, 61u8, 62u8, 32u8] + name + seq![32u8, 60u8, 61u8, 61u8, 10u8]
}

/// The output stream after the first `j` inputs: each opened input is
/// truncated to the budget, preceded by its header when the run names
/// more than one input; failed inputs contribute nothing here.
pub open spec fn spec_head_stdout(l: Limit, inputs: Seq<NamedInput>, multi: bool, j: int) -> Seq<
    u8,
>
    decreases j,
{
    if j <= 0 {
        Seq::empty()
    } else {
        spec_head_stdout(l, inputs, multi, j - 1) + match inputs[j - 1].data {
            Result::Ok(d) => (if multi {
                spec_header(inputs[j - 1].name@, j - 1 == 0)
            } else {
                Seq::<u8>::empty()
            }) + spec_head_file(l, d@),
            Result::Err(_) => Seq::<u8>::empty(),
        }
    }
}

/// Append a file header for `name` to `out`.
fn push_header(out: &mut Vec<u8>, name: &Vec<u8>, first: bool)
    ensures
        final(out)@ == old(out)@ + spec_header(name@, first),
{
    if !first {
        out.push(10u8);
    }
    out.push(61u8);
    out.push(61u8);
    out.push(62u8);
    out.push(32u8);
    push_all(out, name);
    out.push(32u8);
    out.push(60u8);
    out.push(61u8);
    out.push(61u8);
    out.push(10u8);
    proof {
        assert(out@ =~= old(out)@ + spec_header(name@, first));
    }
}

/// Run the truncating emitter over the resolved inputs, in order.  A
/// budget of zero is rejected before any input is touched and nothing is
/// emitted; otherwise every opened input yields its first lines or bytes
/// (with headers in a multi-input run), every failed one a diagnostic
/// line, and the run goes on past failures.
pub fn run(config: &Config, inputs: &Vec<NamedInput>) -> (r: Result<RunOutput, ConfigError>)
    ensures
        match r {
            Result::Ok(out) => {
                &&& (spec_limit(*config) matches Limit::Lines(n) ==> n > 0)
                &&& (spec_limit(*config) matches Limit::Bytes(n) ==> n > 0)
                &&& out.stdout@ == spec_head_stdout(
                    spec_limit(*config),
                    inputs@,
                    inputs@.len() > 1,
                    inputs@.len() as int,
                )
                &&& out.stderr@ == spec_run_stderr(inputs@, Seq::<u8>::empty(), inputs@.len() as int)
            },
            Result::Err(e) => match spec_limit(*config) {
                Limit::Lines(n) => n == 0 && e == ConfigError::ZeroLineCount,
                Limit::Bytes(n) => n == 0 && e == ConfigError::ZeroByteCount,
            },
        },
{
    let limit = config.limit();
    match limit {
        Limit::Lines(n) => if n == 0 {
            return Result::Err(ConfigError::ZeroLineCount);
        },
        Limit::Bytes(n) => if n == 0 {
            return Result::Err(ConfigError::ZeroByteCount);
        },
    }
    let multi = inputs.len() > 1;
    let mut stdout: Vec<u8> = Vec::new();
    let mut stderr: Vec<u8> = Vec::new();
    let mut i: usize = 0;
    while i < inputs.len()
        invariant
            i <= inputs@.len(),
            multi == (inputs@.len() > 1),
            limit == spec_limit(*config),
            stdout@ == spec_head_stdout(limit, inputs@, multi, i as int),
            stderr@ == spec_run_stderr(inputs@, Seq::<u8>::empty(), i as int),
        decreases inputs@.len() - i,
    {
        let inp = &inputs[i];
        match &inp.data {
            Result::Ok(d) => {
                let ghost so = stdout@;
                if multi {
                    push_header(&mut stdout, &inp.name, i == 0);
                }
                let piece = match limit {
                    Limit::Lines(n) => head_lines(d, n),
                    Limit::Bytes(n) => head_bytes(d, n),
                };
                push_all(&mut stdout, &piece);
                proof {
                    if multi {
                        assert((so + spec_header(inp.name@, i == 0)) + piece@ =~= so + (spec_header(
                            inp.name@,
                            i == 0,
                        ) + piece@));
                    } else {
                        assert(Seq::<u8>::empty() + piece@ =~= piece@);
                    }
                }
            },
            Result::Err(cause) => {
                let ghost se = stderr@;
                push_diag_line(&mut stderr, &inp.name, cause);
                proof {
                    assert(Seq::<u8>::empty() + spec_diag_line(inp.name@, cause@) =~= spec_diag_line(
                        inp.name@,
                        cause@,
                    ));
                }
            },
        }
        i = i + 1;
    }
    Result::Ok(RunOutput { stdout, stderr })
}

} // verus!
