//! Resolved inputs and the output of one multi-file run.
//!
//! The engine works on inputs that have already been resolved: each named
//! input either carries its bytes or the cause of its open failure.  A run
//! turns the ordered input list into one output stream and one diagnostic
//! stream; a failed input contributes one diagnostic line and nothing to
//! the output, and never stops the run.

use vstd::prelude::*;

verus! {

/// One resolved input: its name, and either its content or the cause of
/// the failure to open it.
#[derive(Debug)]
pub struct NamedInput {
    pub name: Vec<u8>,
    pub data: Result<Vec<u8>, Vec<u8>>,
}

impl NamedInput {
    /// An input that was opened and read.
    pub fn opened(name: Vec<u8>, content: Vec<u8>) -> (inp: NamedInput)
        ensures
            inp.name == name,
            inp.data == Result::<Vec<u8>, Vec<u8>>::Ok(content),
    {
        NamedInput { name, data: Result::Ok(content) }
    }

    /// An input that could not be opened, with the cause.
    pub fn failed(name: Vec<u8>, cause: Vec<u8>) -> (inp: NamedInput)
        ensures
            inp.name == name,
            inp.data == Result::<Vec<u8>, Vec<u8>>::Err(cause),
    {
        NamedInput { name, data: Result::Err(cause) }
    }
}

/// What one run wrote: the output stream and the diagnostic stream.
#[derive(Debug)]
pub struct RunOutput {
    pub stdout: Vec<u8>,
    pub stderr: Vec<u8>,
}

/// The bytes of `"Failed to open "`.
pub open spec fn lit_failed_to_open() -> Seq<u8> {
    seq![
        70u8, 97u8, 105u8, 108u8, 101u8, 100u8, 32u8, 116u8, 111u8, 32u8, 111u8, 112u8, 101u8, 110u8, 32u8,
    ]
}

/// The bytes of `"total"`.
pub open spec fn lit_total() -> Seq<u8> {
    seq![116u8, 111u8, 116u8, 97u8, 108u8]
}

/// One diagnostic line: the input's name, a colon and a space, the cause,
/// and a newline.
pub open spec fn spec_diag_line(name: Seq<u8>, cause: Seq<u8>) -> Seq<u8> {
    name + seq![58u8, 32u8] + cause + seq![10u8]
}

/// The diagnostic stream after the first `j` inputs: one line per failed
/// input, in input order, each opened by `prefix`.
pub open spec fn spec_run_stderr(inputs: Seq<NamedInput>, prefix: Seq<u8>, j: int) -> Seq<u8>
    decreases j,
{
    if j <= 0 {
        Seq::empty()
    } else {
        spec_run_stderr(inputs, prefix, j - 1) + match inputs[j - 1].data {
            Result::Ok(_) => Seq::<u8>::empty(),
            Result::Err(cause) => prefix + spec_diag_line(inputs[j - 1].name@, cause@),
        }
    }
}

/// The label of the totals row.
pub fn total_label() -> (v: Vec<u8>)
    ensures
        v@ == lit_total(),
{
    let mut v: Vec<u8> = Vec::new();
    v.push(116u8);
    v.push(111u8);
    v.push(116u8);
    v.push(97u8);
    v.push(108u8);
    proof {
        assert(v@ =~= lit_total());
    }
    v
}

/// Append `"Failed to open "` to `out`.
pub fn push_failed_to_open(out: &mut Vec<u8>)
    ensures
        final(out)@ == old(out)@ + lit_failed_to_open(),
{
    out.push(70u8);
    out.push(97u8);
    out.push(105u8);
    out.push(108u8);
    out.push(101u8);
    out.push(100u8);
    out.push(32u8);
    out.push(116u8);
    out.push(111u8);
    out.push(32u8);
    out.push(111u8);
    out.push(112u8);
    out.push(101u8);
    out.push(110u8);
    out.push(32u8);
    proof {
        assert(out@ =~= old(out)@ + lit_failed_to_open());
    }
}

/// Append one diagnostic line for `name` and `cause` to `out`.
pub fn push_diag_line(out: &mut Vec<u8>, name: &Vec<u8>, cause: &Vec<u8>)
    ensures
        final(out)@ == old(out)@ + spec_diag_line(name@, cause@),
{
    crate::text::push_all(out, name);
    out.push(58u8);
    out.push(32u8);
    crate::text::push_all(out, cause);
    out.push(10u8);
    proof {
        assert(out@ =~= old(out)@ + spec_diag_line(name@, cause@));
    }
}

} // verus!
