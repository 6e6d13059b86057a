//! The instruction set: eight instructions, each written as one source byte.

use vstd::prelude::*;

verus! {

/// One instruction of a program.
///
/// The two bracket instructions carry the absolute index of their partner:
/// `LBracket(j)` is a jump-if-zero whose closing bracket stands at index `j`,
/// `RBracket(i)` is a jump-if-non-zero whose opening bracket stands at index
/// `i`. Straight from the source text, before the brackets are linked, both
/// carry `0`.
#[derive(Debug, Copy, Clone, PartialEq, Eq, Structural)]
pub enum BfOp {
    /// `>`: move the data pointer one cell to the right.
    Gt,
    /// `<`: move the data pointer one cell to the left.
    Lt,
    /// `+`: add one to the current cell, modulo 256.
    Plus,
    /// `-`: subtract one from the current cell, modulo 256.
    Minus,
    /// `.`: write the current cell to the output.
    Dot,
    /// `,`: read one byte of input into the current cell.
    Comma,
    /// `[`: if the current cell is zero, continue after the partner bracket.
    LBracket(usize),
    /// `]`: if the current cell is not zero, continue after the partner bracket.
    RBracket(usize),
}

/// The instruction that a source byte stands for, with brackets not yet
/// linked; `None` for every byte that is not one of `><+-.,[]`.
pub open spec fn op_of_byte(b: u8) -> Option<BfOp> {
    if b == 0x3e {
        Some(BfOp::Gt)
    } else if b == 0x3c {
        Some(BfOp::Lt)
    } else if b == 0x2b {
        Some(BfOp::Plus)
    } else if b == 0x2d {
        Some(BfOp::Minus)
    } else if b == 0x2e {
        Some(BfOp::Dot)
    } else if b == 0x2c {
        Some(BfOp::Comma)
    } else if b == 0x5b {
        Some(BfOp::LBracket(0))
    } else if b == 0x5d {
        Some(BfOp::RBracket(0))
    } else {
        None
    }
}

/// Whether a source byte is one of the eight instruction characters.
pub open spec fn is_op_byte(b: u8) -> bool {
    op_of_byte(b) is Some
}

impl BfOp {
    /// Reads one source byte.
    pub fn from_byte(b: u8) -> (op: Option<BfOp>)
        ensures
            op == op_of_byte(b),
    {
        match b {
            0x3e => Some(BfOp::Gt),
            0x3c => Some(BfOp::Lt),
            0x2b => Some(BfOp::Plus),
            0x2d => Some(BfOp::Minus),
            0x2e => Some(BfOp::Dot),
            0x2c => Some(BfOp::Comma),
            0x5b => Some(BfOp::LBracket(0)),
            0x5d => Some(BfOp::RBracket(0)),
            _ => None,
        }
    }
}

} // verus!
