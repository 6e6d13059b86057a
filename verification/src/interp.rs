//! Parsing and running in one call.

use vstd::prelude::*;
use vstd::string::*;
use crate::op::{BfOp, is_op_byte};
use crate::machine::{Machine, Outcome};
use crate::parser::{
    ParseError, parse, parse_spec, strip, lemma_parse_ignores_other_bytes,
    lemma_parse_without_instructions,
};
use crate::semantics::{Run, halted, initial, run_for, starting};

verus! {

/// What running a source gives: the error that parsing it gives, or the run
/// of its program from the initial state against `input`, for at most
/// `limit` instructions.
pub open spec fn run_spec(src: Seq<u8>, input: Seq<u8>, limit: nat) -> Result<Run, ParseError> {
    match parse_spec(src) {
        Ok(prog) => Ok(run_for(prog, starting(initial()), input, limit)),
        Err(e) => Err(e),
    }
}

/// Parses `code` and runs it from the initial state against `input`, for at
/// most `max_steps` instructions.
///
/// A source whose brackets do not match is rejected before anything runs.
pub fn run(code: &str, input: &[u8], max_steps: u64) -> (res: Result<Outcome, ParseError>)
    ensures
        match run_spec(code.spec_bytes(), input@, max_steps as nat) {
            Ok(r) => res matches Ok(outcome) && outcome.reports(
                parse_spec(code.spec_bytes())->Ok_0,
                r,
            ),
            Err(e) => res matches Err(err) && err == e,
        },
{
    match parse(code) {
        Ok(program) => {
            let mut machine = Machine::new(program);
            Ok(machine.run(input, max_steps))
        },
        Err(e) => Err(e),
    }
}

/// Bytes that are not instruction characters change nothing about a run: a
/// source runs as it does without them.
pub proof fn lemma_run_ignores_other_bytes(src: Seq<u8>, input: Seq<u8>, limit: nat)
    ensures
        run_spec(src, input, limit) == run_spec(strip(src), input, limit),
{
    lemma_parse_ignores_other_bytes(src, src);
}

/// A source without any instruction character runs as a no-op: it has
/// halted at once, in the initial state, with nothing read and nothing
/// written.
pub proof fn lemma_run_without_instructions(src: Seq<u8>, input: Seq<u8>, limit: nat)
    requires
        forall|i: int| 0 <= i < src.len() ==> !is_op_byte(#[trigger] src[i]),
    ensures
        run_spec(src, input, limit) == Ok::<Run, ParseError>(starting(initial())),
        halted(Seq::<BfOp>::empty(), initial()),
{
    lemma_parse_without_instructions(src);
}

} // verus!
