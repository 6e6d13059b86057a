//! What execution means: a tape of byte cells, a data pointer and a program
//! counter, and what each instruction does to them.
//!
//! [`step`] says what one instruction does to a [`State`]; [`run_for`]
//! repeats it against a fixed input and collects the output in a [`Run`].
//!
//! The data pointer wraps: moving right from the last cell leads to cell 0,
//! moving left from cell 0 leads to the last cell. Cell values wrap modulo
//! 256 in the same way.

use vstd::prelude::*;
use crate::op::BfOp;
use crate::program::{linked, pairs};

verus! {

/// The number of cells on the tape.
pub const TAPE_SIZE: usize = 65536;

/// What a machine holds besides its program.
pub struct State {
    /// Index of the next instruction to execute.
    pub pc: int,
    /// Index of the current cell.
    pub ptr: int,
    /// The cells.
    pub tape: Seq<u8>,
}

/// The state in which every run starts: both counters at 0, every cell 0.
pub open spec fn initial() -> State {
    State { pc: 0, ptr: 0, tape: Seq::new(TAPE_SIZE as nat, |i: int| 0u8) }
}

/// A state that belongs to `prog`: the program counter is an index of the
/// program or one past its end, the data pointer is an index of the tape.
pub open spec fn valid(prog: Seq<BfOp>, s: State) -> bool {
    &&& 0 <= s.pc <= prog.len()
    &&& 0 <= s.ptr < TAPE_SIZE
    &&& s.tape.len() == TAPE_SIZE
}

/// Execution is over: the program counter has left the program.
pub open spec fn halted(prog: Seq<BfOp>, s: State) -> bool {
    s.pc >= prog.len()
}

/// The cell to the right of `ptr`, cell 0 after the last one.
pub open spec fn right_of(ptr: int) -> int {
    (ptr + 1) % (TAPE_SIZE as int)
}

/// The cell to the left of `ptr`, the last one before cell 0.
pub open spec fn left_of(ptr: int) -> int {
    (ptr - 1) % (TAPE_SIZE as int)
}

/// `v + 1` modulo 256.
pub open spec fn incremented(v: u8) -> u8 {
    ((v + 1) % 256) as u8
}

/// `v - 1` modulo 256.
pub open spec fn decremented(v: u8) -> u8 {
    ((v - 1) % 256) as u8
}

/// What an input instruction stores: the byte read, or 0 at end of input.
pub open spec fn stored(input: Option<u8>) -> u8 {
    match input {
        Some(b) => b,
        None => 0,
    }
}

/// The state after executing the instruction at the program counter.
///
/// `input` is what the input source delivers if this instruction reads:
/// a byte, or `None` at end of input. Instructions other than `,` ignore it.
/// A halted state stays as it is.
pub open spec fn step(prog: Seq<BfOp>, s: State, input: Option<u8>) -> State {
    if halted(prog, s) {
        s
    } else {
        let cell = s.tape[s.ptr];
        match prog[s.pc] {
            BfOp::Gt => State { pc: s.pc + 1, ptr: right_of(s.ptr), tape: s.tape },
            BfOp::Lt => State { pc: s.pc + 1, ptr: left_of(s.ptr), tape: s.tape },
            BfOp::Plus => State {
                pc: s.pc + 1,
                ptr: s.ptr,
                tape: s.tape.update(s.ptr, incremented(cell)),
            },
            BfOp::Minus => State {
                pc: s.pc + 1,
                ptr: s.ptr,
                tape: s.tape.update(s.ptr, decremented(cell)),
            },
            BfOp::Dot => State { pc: s.pc + 1, ptr: s.ptr, tape: s.tape },
            BfOp::Comma => State {
                pc: s.pc + 1,
                ptr: s.ptr,
                tape: s.tape.update(s.ptr, stored(input)),
            },
            BfOp::LBracket(target) => State {
                pc: if cell == 0 {
                    target + 1
                } else {
                    s.pc + 1
                },
                ptr: s.ptr,
                tape: s.tape,
            },
            BfOp::RBracket(target) => State {
                pc: if cell != 0 {
                    target + 1
                } else {
                    s.pc + 1
                },
                ptr: s.ptr,
                tape: s.tape,
            },
        }
    }
}

/// The byte that executing the instruction at the program counter writes to
/// the output, if it writes one.
pub open spec fn emitted(prog: Seq<BfOp>, s: State) -> Option<u8> {
    if !halted(prog, s) && prog[s.pc] is Dot {
        Some(s.tape[s.ptr])
    } else {
        None
    }
}

/// The instruction at the program counter reads input.
pub open spec fn reads(prog: Seq<BfOp>, s: State) -> bool {
    !halted(prog, s) && prog[s.pc] is Comma
}

/// How far a run has come: the state reached, how many bytes of the input
/// have been read, and what has been written.
pub struct Run {
    /// The state reached.
    pub state: State,
    /// The number of input bytes read so far.
    pub consumed: int,
    /// The bytes written so far.
    pub output: Seq<u8>,
}

/// A run that starts in state `s`, with nothing read and nothing written.
pub open spec fn starting(s: State) -> Run {
    Run { state: s, consumed: 0, output: Seq::empty() }
}

/// What an instruction that reads gets from `input` after `consumed` bytes
/// have been read: the next byte, or `None` when none is left.
pub open spec fn next_byte(input: Seq<u8>, consumed: int) -> Option<u8> {
    if 0 <= consumed < input.len() {
        Some(input[consumed])
    } else {
        None
    }
}

/// The run after executing one instruction against `input`.
pub open spec fn advance(prog: Seq<BfOp>, r: Run, input: Seq<u8>) -> Run {
    Run {
        state: step(prog, r.state, next_byte(input, r.consumed)),
        consumed: if reads(prog, r.state) && next_byte(input, r.consumed) is Some {
            r.consumed + 1
        } else {
            r.consumed
        },
        output: match emitted(prog, r.state) {
            Some(b) => r.output.push(b),
            None => r.output,
        },
    }
}

/// The run after executing instructions until the program halts, but at most
/// `limit` of them.
pub open spec fn run_for(prog: Seq<BfOp>, r: Run, input: Seq<u8>, limit: nat) -> Run
    decreases limit,
{
    if limit == 0 || halted(prog, r.state) {
        r
    } else {
        run_for(prog, advance(prog, r, input), input, (limit - 1) as nat)
    }
}

/// The run `r` continued by `t`, where `t` started afresh in the state that
/// `r` had reached, on the input that `r` had left.
pub open spec fn continued(r: Run, t: Run) -> Run {
    Run { state: t.state, consumed: r.consumed + t.consumed, output: r.output + t.output }
}

/// One instruction of a linked program leads from a valid state to a valid
/// state.
pub proof fn lemma_step_valid(prog: Seq<BfOp>, s: State, input: Option<u8>)
    requires
        linked(prog),
        valid(prog, s),
    ensures
        valid(prog, step(prog, s, input)),
{
}

/// A run of a linked program that starts in a valid state stays in valid
/// states, reads no more than the input holds and only adds to the output.
pub proof fn lemma_run_valid(prog: Seq<BfOp>, r: Run, input: Seq<u8>, limit: nat)
    requires
        linked(prog),
        valid(prog, r.state),
        0 <= r.consumed <= input.len(),
    ensures
        valid(prog, run_for(prog, r, input, limit).state),
        r.consumed <= run_for(prog, r, input, limit).consumed <= input.len(),
        r.output.is_prefix_of(run_for(prog, r, input, limit).output),
    decreases limit,
{
    if limit > 0 && !halted(prog, r.state) {
        let next = advance(prog, r, input);
        lemma_step_valid(prog, r.state, next_byte(input, r.consumed));
        lemma_run_valid(prog, next, input, (limit - 1) as nat);
    }
}

/// A run that has halted stays where it is, whatever the limit.
pub proof fn lemma_run_halted(prog: Seq<BfOp>, r: Run, input: Seq<u8>, limit: nat)
    requires
        halted(prog, r.state),
    ensures
        run_for(prog, r, input, limit) == r,
{
}

/// Running for `a + b` instructions is running for `a` and then for `b`.
pub proof fn lemma_run_split(prog: Seq<BfOp>, r: Run, input: Seq<u8>, a: nat, b: nat)
    ensures
        run_for(prog, r, input, a + b) == run_for(prog, run_for(prog, r, input, a), input, b),
    decreases a,
{
    if a > 0 && !halted(prog, r.state) {
        lemma_run_split(prog, advance(prog, r, input), input, (a - 1) as nat, b);
    }
}

/// Once a run has halted, a larger limit changes nothing.
pub proof fn lemma_run_limit_irrelevant(
    prog: Seq<BfOp>,
    r: Run,
    input: Seq<u8>,
    enough: nat,
    more: nat,
)
    requires
        halted(prog, run_for(prog, r, input, enough).state),
        enough <= more,
    ensures
        run_for(prog, r, input, more) == run_for(prog, r, input, enough),
{
    lemma_run_split(prog, r, input, enough, (more - enough) as nat);
}

/// A run can be taken up again: going on from `r` is a fresh run from the
/// state of `r` on the rest of the input, appended to what `r` has read and
/// written.
pub proof fn lemma_run_resumes(prog: Seq<BfOp>, r: Run, input: Seq<u8>, limit: nat)
    requires
        0 <= r.consumed <= input.len(),
    ensures
        run_for(prog, r, input, limit) == continued(
            r,
            run_for(prog, starting(r.state), input.skip(r.consumed), limit),
        ),
    decreases limit,
{
    let rest = input.skip(r.consumed);
    let fresh = starting(r.state);
    if limit > 0 && !halted(prog, r.state) {
        let r1 = advance(prog, r, input);
        let t1 = advance(prog, fresh, rest);
        let further = run_for(
            prog,
            starting(r1.state),
            input.skip(r1.consumed),
            (limit - 1) as nat,
        );
        lemma_run_resumes(prog, r1, input, (limit - 1) as nat);
        lemma_run_resumes(prog, t1, rest, (limit - 1) as nat);
        assert(rest.skip(t1.consumed) =~= input.skip(r1.consumed));
        assert(r1.output + further.output =~= r.output + (t1.output + further.output));
    }
}

/// The empty program does nothing: from the initial state it has halted
/// before its first instruction, reads nothing and writes nothing.
pub proof fn lemma_empty_program(prog: Seq<BfOp>, input: Seq<u8>, limit: nat)
    requires
        prog.len() == 0,
    ensures
        halted(prog, initial()),
        run_for(prog, starting(initial()), input, limit) == starting(initial()),
{
}

/// Reading at the end of the input is no failure: the instruction stores 0
/// in the current cell, and the run goes on with the next instruction.
pub proof fn lemma_read_at_end_of_input(prog: Seq<BfOp>, r: Run, input: Seq<u8>)
    requires
        valid(prog, r.state),
        reads(prog, r.state),
        r.consumed >= input.len(),
    ensures
        advance(prog, r, input).state.tape == r.state.tape.update(r.state.ptr, 0),
        advance(prog, r, input).state.pc == r.state.pc + 1,
        advance(prog, r, input).state.ptr == r.state.ptr,
        advance(prog, r, input).consumed == r.consumed,
        advance(prog, r, input).output == r.output,
{
}

/// Decrementing undoes incrementing and the other way round; below 0 comes
/// 255, above 255 comes 0.
pub proof fn lemma_cell_wraps(v: u8)
    ensures
        decremented(incremented(v)) == v,
        incremented(decremented(v)) == v,
        decremented(0) == 255,
        incremented(255) == 0,
{
}

/// A decrement on a cell that holds 0 leaves 255 in it.
pub proof fn lemma_decrement_of_zero(prog: Seq<BfOp>, s: State, input: Option<u8>)
    requires
        valid(prog, s),
        !halted(prog, s),
        prog[s.pc] == BfOp::Minus,
        s.tape[s.ptr] == 0,
    ensures
        step(prog, s, input).tape[s.ptr] == 255,
{
}

/// Adding 1 modulo 256 and then `n` is adding `n + 1` modulo 256.
pub proof fn lemma_increment_adds(v: u8, n: nat)
    ensures
        (incremented(v) + n) % 256 == (v + n + 1) % 256,
{
    let a: int = v + 1;
    let q: int = a / 256;
    if q == 1 {
        assert((a - 256 + n) % 256 == (a + n) % 256) by {
            vstd::arithmetic::div_mod::lemma_mod_multiples_vanish(-1, a + n, 256);
        }
    }
}

/// `n` increments in a row add `n` to the current cell modulo 256 and change
/// nothing else.
pub proof fn lemma_increments(prog: Seq<BfOp>, r: Run, input: Seq<u8>, n: nat)
    requires
        valid(prog, r.state),
        r.state.pc + n <= prog.len(),
        forall|k: int| r.state.pc <= k < r.state.pc + n ==> #[trigger] prog[k] == BfOp::Plus,
    ensures
        run_for(prog, r, input, n) == (Run {
            state: State {
                pc: r.state.pc + n,
                ptr: r.state.ptr,
                tape: r.state.tape.update(
                    r.state.ptr,
                    ((r.state.tape[r.state.ptr] + n) % 256) as u8,
                ),
            },
            consumed: r.consumed,
            output: r.output,
        }),
    decreases n,
{
    let s = r.state;
    let v = s.tape[s.ptr];
    if n == 0 {
        assert(s.tape.update(s.ptr, v) =~= s.tape);
    } else {
        let next = advance(prog, r, input);
        assert(next.state == State {
            pc: s.pc + 1,
            ptr: s.ptr,
            tape: s.tape.update(s.ptr, incremented(v)),
        });
        lemma_increments(prog, next, input, (n - 1) as nat);
        lemma_increment_adds(v, (n - 1) as nat);
        assert(next.state.tape.update(
            s.ptr,
            ((incremented(v) + (n - 1)) % 256) as u8,
        ) =~= s.tape.update(s.ptr, ((v + n) % 256) as u8));
    }
}

/// 256 increments in a row bring every cell back to the value it had.
pub proof fn lemma_256_increments(prog: Seq<BfOp>, r: Run, input: Seq<u8>)
    requires
        valid(prog, r.state),
        r.state.pc + 256 <= prog.len(),
        forall|k: int| r.state.pc <= k < r.state.pc + 256 ==> #[trigger] prog[k] == BfOp::Plus,
    ensures
        run_for(prog, r, input, 256).state.tape == r.state.tape,
        run_for(prog, r, input, 256).state.pc == r.state.pc + 256,
{
    lemma_increments(prog, r, input, 256);
}

/// The loop `[-]` clears the current cell: entered with `v` in the cell, it
/// is left after `2 * v + 1` instructions with 0 in the cell and nothing
/// else changed.
pub proof fn lemma_clear_loop(prog: Seq<BfOp>, r: Run, input: Seq<u8>)
    requires
        valid(prog, r.state),
        r.state.pc + 3 <= prog.len(),
        r.state.pc + 2 <= usize::MAX,
        prog[r.state.pc] == BfOp::LBracket((r.state.pc + 2) as usize),
        prog[r.state.pc + 1] == BfOp::Minus,
        prog[r.state.pc + 2] == BfOp::RBracket(r.state.pc as usize),
    ensures
        run_for(prog, r, input, (2 * r.state.tape[r.state.ptr] + 1) as nat) == (Run {
            state: State {
                pc: r.state.pc + 3,
                ptr: r.state.ptr,
                tape: r.state.tape.update(r.state.ptr, 0),
            },
            consumed: r.consumed,
            output: r.output,
        }),
{
    let s = r.state;
    let v = s.tape[s.ptr];
    if v == 0 {
        assert(s.tape.update(s.ptr, 0) =~= s.tape);
        reveal_with_fuel(run_for, 2);
    } else {
        let inside = advance(prog, r, input);
        lemma_clear_loop_body(prog, inside, input, s.pc);
    }
}

/// Inside the loop `[-]` that opens at `start`, with a cell that is not 0:
/// two instructions for each unit in the cell lead out of the loop.
proof fn lemma_clear_loop_body(prog: Seq<BfOp>, r: Run, input: Seq<u8>, start: int)
    requires
        valid(prog, r.state),
        0 <= start,
        start + 3 <= prog.len(),
        start + 2 <= usize::MAX,
        prog[start] == BfOp::LBracket((start + 2) as usize),
        prog[start + 1] == BfOp::Minus,
        prog[start + 2] == BfOp::RBracket(start as usize),
        r.state.pc == start + 1,
        r.state.tape[r.state.ptr] != 0,
    ensures
        run_for(prog, r, input, (2 * r.state.tape[r.state.ptr]) as nat) == (Run {
            state: State {
                pc: start + 3,
                ptr: r.state.ptr,
                tape: r.state.tape.update(r.state.ptr, 0),
            },
            consumed: r.consumed,
            output: r.output,
        }),
    decreases r.state.tape[r.state.ptr],
{
    let s = r.state;
    let v = s.tape[s.ptr];
    let after_minus = advance(prog, r, input);
    let after_close = advance(prog, after_minus, input);
    assert(run_for(prog, r, input, (2 * v) as nat) == run_for(
        prog,
        after_close,
        input,
        (2 * v - 2) as nat,
    )) by {
        reveal_with_fuel(run_for, 3);
    }
    if v != 1 {
        lemma_clear_loop_body(prog, after_close, input, start);
        assert(after_close.state.tape.update(s.ptr, 0) =~= s.tape.update(s.ptr, 0));
    }
}

} // verus!
