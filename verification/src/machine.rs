//! The executable machine: a program, its tape and its two counters.
//!
//! Every method is proved to do what [`crate::semantics`] says. Input and
//! output are plain bytes handed in and out, so whoever drives the machine
//! decides where they come from and go to: [`Machine::step`] serves a driver
//! that reads and writes as the program runs, [`Machine::run`] works on
//! buffers in memory.

use vstd::prelude::*;
use crate::op::BfOp;
use crate::program::{Program, pairs};
use crate::semantics::{
    State, Run, TAPE_SIZE, initial, valid, halted, step, emitted, reads, starting, run_for,
};

verus! {

/// A program together with the state it has reached.
#[derive(Debug)]
pub struct Machine {
    program: Program,
    tape: Vec<u8>,
    pc: usize,
    ptr: usize,
}

impl View for Machine {
    type V = State;

    closed spec fn view(&self) -> State {
        State { pc: self.pc as int, ptr: self.ptr as int, tape: self.tape@ }
    }
}

/// What a run has read and written, and whether it came to its end.
#[derive(Debug)]
pub struct Outcome {
    /// The bytes written to the output, in order.
    pub output: Vec<u8>,
    /// The number of input bytes read.
    pub consumed: usize,
    /// Whether the program halted; `false` when the step limit ended the run.
    pub halted: bool,
}

impl Outcome {
    /// This outcome reports the run `r` of `prog`: what it read and wrote,
    /// and whether it halted. The state reached is not part of an outcome.
    pub open spec fn reports(&self, prog: Seq<BfOp>, r: Run) -> bool {
        &&& self.output@ == r.output
        &&& self.consumed == r.consumed
        &&& self.halted == halted(prog, r.state)
    }
}

impl Machine {
    /// What holds of every machine: its state is valid for its program.
    #[verifier::type_invariant]
    pub closed spec fn inv(self) -> bool {
        valid(self.program@, self@)
    }

    /// The instructions that this machine executes.
    pub closed spec fn program(&self) -> Seq<BfOp> {
        self.program@
    }

    /// A machine about to execute the first instruction of `program`.
    pub fn new(program: Program) -> (machine: Machine)
        ensures
            machine.program() == program@,
            machine@ == initial(),
    {
        let tape = vec![0u8; TAPE_SIZE];
        assert(tape@ =~= initial().tape);
        Machine { program, tape, pc: 0, ptr: 0 }
    }

    /// Whether execution is over.
    pub fn halted(&self) -> (done: bool)
        ensures
            done == halted(self.program(), self@),
    {
        self.pc >= self.program.len()
    }

    /// Whether the next instruction reads a byte of input.
    pub fn wants_input(&self) -> (wanted: bool)
        ensures
            wanted == reads(self.program(), self@),
    {
        match self.program.get(self.pc) {
            Some(BfOp::Comma) => true,
            _ => false,
        }
    }

    /// The index of the next instruction to execute.
    pub fn pc(&self) -> (pc: usize)
        ensures
            pc == self@.pc,
            pc <= self.program().len(),
    {
        proof {
            use_type_invariant(self);
        }
        self.pc
    }

    /// The index of the current cell.
    pub fn pointer(&self) -> (ptr: usize)
        ensures
            ptr == self@.ptr,
            ptr < TAPE_SIZE,
    {
        proof {
            use_type_invariant(self);
        }
        self.ptr
    }

    /// The value of the current cell.
    pub fn cell(&self) -> (value: u8)
        ensures
            0 <= self@.ptr < self@.tape.len(),
            value == self@.tape[self@.ptr],
    {
        proof {
            use_type_invariant(self);
        }
        self.tape[self.ptr]
    }

    /// All cells of the tape.
    pub fn tape(&self) -> (cells: &[u8])
        ensures
            cells@ == self@.tape,
            cells@.len() == TAPE_SIZE,
    {
        proof {
            use_type_invariant(self);
        }
        self.tape.as_slice()
    }

    /// Executes one instruction; does nothing once the machine has halted.
    ///
    /// `input` is used only if the instruction reads input: pass the byte
    /// that was read, or `None` at end of input. Returns the byte that the
    /// instruction writes to the output, if it writes one.
    pub fn step(&mut self, input: Option<u8>) -> (output: Option<u8>)
        ensures
            final(self).program() == old(self).program(),
            final(self)@ == step(old(self).program(), old(self)@, input),
            output == emitted(old(self).program(), old(self)@),
            valid(final(self).program(), final(self)@),
    {
        proof {
            use_type_invariant(&*self);
        }
        let ops = self.program.ops();
        if self.pc >= ops.len() {
            return None;
        }
        let cell = self.tape[self.ptr];
        let mut output: Option<u8> = None;
        match ops[self.pc] {
            BfOp::Gt => {
                self.ptr = if self.ptr == TAPE_SIZE - 1 {
                    0
                } else {
                    self.ptr + 1
                };
                self.pc = self.pc + 1;
            },
            BfOp::Lt => {
                self.ptr = if self.ptr == 0 {
                    TAPE_SIZE - 1
                } else {
                    self.ptr - 1
                };
                self.pc = self.pc + 1;
            },
            BfOp::Plus => {
                self.tape[self.ptr] = cell.wrapping_add(1);
                self.pc = self.pc + 1;
            },
            BfOp::Minus => {
                self.tape[self.ptr] = cell.wrapping_sub(1);
                self.pc = self.pc + 1;
            },
            BfOp::Dot => {
                output = Some(cell);
                self.pc = self.pc + 1;
            },
            BfOp::Comma => {
                let byte = match input {
                    Some(b) => b,
                    None => 0,
                };
                self.tape[self.ptr] = byte;
                self.pc = self.pc + 1;
            },
            BfOp::LBracket(target) => {
                // the partner is an index of the program: `target + 1` cannot overflow
                assert(pairs(ops@, self.pc as int, target as int));
                self.pc = if cell == 0 {
                    target + 1
                } else {
                    self.pc + 1
                };
            },
            BfOp::RBracket(target) => {
                assert(pairs(ops@, target as int, self.pc as int));
                self.pc = if cell != 0 {
                    target + 1
                } else {
                    self.pc + 1
                };
            },
        }
        output
    }

    /// Executes instructions until the program halts, but at most
    /// `max_steps` of them, reading from `input` and collecting the output.
    ///
    /// An instruction that reads when `input` has no byte left stores 0.
    pub fn run(&mut self, input: &[u8], max_steps: u64) -> (outcome: Outcome)
        ensures
            final(self).program() == old(self).program(),
            valid(final(self).program(), final(self)@),
            final(self)@ == run_for(
                old(self).program(),
                starting(old(self)@),
                input@,
                max_steps as nat,
            ).state,
            outcome.reports(
                old(self).program(),
                run_for(old(self).program(), starting(old(self)@), input@, max_steps as nat),
            ),
    {
        proof {
            use_type_invariant(&*self);
        }
        let mut output: Vec<u8> = Vec::new();
        let mut consumed: usize = 0;
        let mut steps: u64 = 0;
        while steps < max_steps && !self.halted()
            invariant
                steps <= max_steps,
                consumed <= input.len(),
                self.program() == old(self).program(),
                valid(self.program(), self@),
                run_for(old(self).program(), starting(old(self)@), input@, max_steps as nat)
                    == run_for(
                    self.program(),
                    Run { state: self@, consumed: consumed as int, output: output@ },
                    input@,
                    (max_steps - steps) as nat,
                ),
            decreases max_steps - steps,
        {
            let byte = if consumed < input.len() && self.wants_input() {
                consumed += 1;
                Some(input[consumed - 1])
            } else {
                None
            };
            match self.step(byte) {
                Some(b) => {
                    output.push(b);
                },
                None => {},
            }
            steps += 1;
        }
        let halted = self.halted();
        Outcome { output, consumed, halted }
    }
}

} // verus!
