//! From source text to a linked program.
//!
//! Parsing has two passes. The first keeps the eight instruction characters
//! and drops every other byte. The second walks the instructions with a stack
//! of pending opening brackets and writes into each bracket the index of its
//! partner.

use vstd::prelude::*;
use vstd::string::*;
use crate::op::{BfOp, op_of_byte, is_op_byte};
use crate::program::{
    Program, balanced, delta, depth, pairs, linked, mutually_linked, same_kind,
    lemma_closer_exists, lemma_closer_unique, lemma_links_are_mutual, lemma_opener_exists,
    lemma_opener_unique, lemma_pairs_same_kind,
};

verus! {

/// Why source text is not a program.
#[derive(Debug, Copy, Clone, PartialEq, Eq, Structural)]
pub enum ParseError {
    /// An opening bracket is never closed.
    UnmatchedLeftBracket,
    /// A closing bracket stands where no opening bracket is pending.
    UnmatchedRightBracket,
}

impl ParseError {
    /// A one-line description of the error.
    pub fn message(&self) -> (text: &'static str)
        ensures
            text@ == match *self {
                ParseError::UnmatchedLeftBracket => "Unmatched left bracket"@,
                ParseError::UnmatchedRightBracket => "Unmatched right bracket"@,
            },
    {
        match self {
            ParseError::UnmatchedLeftBracket => "Unmatched left bracket",
            ParseError::UnmatchedRightBracket => "Unmatched right bracket",
        }
    }
}

/// The instructions that a source holds, in order, brackets not yet linked.
pub open spec fn tokens(src: Seq<u8>) -> Seq<BfOp> {
    src.filter_map(|b: u8| op_of_byte(b))
}

/// The source with every byte dropped that is not an instruction character.
pub open spec fn strip(src: Seq<u8>) -> Seq<u8> {
    src.filter(|b: u8| is_op_byte(b))
}

/// The closing bracket paired with the opening bracket at `i`.
pub open spec fn closer(ops: Seq<BfOp>, i: int) -> int {
    choose|j: int| pairs(ops, i, j)
}

/// The opening bracket paired with the closing bracket at `j`.
pub open spec fn opener(ops: Seq<BfOp>, j: int) -> int {
    choose|i: int| pairs(ops, i, j)
}

/// The same instructions, each bracket carrying the index of its partner.
pub open spec fn link(ops: Seq<BfOp>) -> Seq<BfOp> {
    Seq::new(
        ops.len(),
        |i: int|
            match ops[i] {
                BfOp::LBracket(_) => BfOp::LBracket(closer(ops, i) as usize),
                BfOp::RBracket(_) => BfOp::RBracket(opener(ops, i) as usize),
                op => op,
            },
    )
}

/// What linking makes of an instruction sequence.
///
/// A closing bracket with nothing to close is reported wherever one occurs,
/// also when an opening bracket is left open as well; an opening bracket left
/// open is reported only when every closing bracket has a partner.
pub open spec fn resolve(ops: Seq<BfOp>) -> Result<Seq<BfOp>, ParseError> {
    if exists|k: int| 0 <= k <= ops.len() && #[trigger] depth(ops, k) < 0 {
        Err(ParseError::UnmatchedRightBracket)
    } else if depth(ops, ops.len() as int) > 0 {
        Err(ParseError::UnmatchedLeftBracket)
    } else {
        Ok(link(ops))
    }
}

/// What parsing makes of a source.
pub open spec fn parse_spec(src: Seq<u8>) -> Result<Seq<BfOp>, ParseError> {
    resolve(tokens(src))
}

/// First pass: keeps the instruction bytes of `src`, each as its instruction.
pub fn tokenize(src: &[u8]) -> (ops: Vec<BfOp>)
    ensures
        ops@ == tokens(src@),
{
    let mut ops: Vec<BfOp> = Vec::new();
    let mut i: usize = 0;
    while i < src.len()
        invariant
            i <= src.len(),
            ops@ == tokens(src@.take(i as int)),
        decreases src.len() - i,
    {
        proof {
            src@.lemma_filter_map_take_succ(|b: u8| op_of_byte(b), i as int);
        }
        match BfOp::from_byte(src[i]) {
            Some(op) => {
                ops.push(op);
            },
            None => {},
        }
        i += 1;
    }
    assert(src@.take(src.len() as int) == src@);
    ops
}

/// Second pass: writes into each bracket the index of its partner.
///
/// What the brackets carried before is ignored. Fails at the first closing
/// bracket that has nothing to close, or at the end if an opening bracket is
/// still pending.
pub fn link_brackets(ops: Vec<BfOp>) -> (res: Result<Program, ParseError>)
    ensures
        match res {
            Ok(program) => resolve(ops@) == Ok::<Seq<BfOp>, ParseError>(program@),
            Err(e) => resolve(ops@) == Err::<Seq<BfOp>, ParseError>(e),
        },
        res matches Ok(program) ==> linked(program@) && mutually_linked(program@),
{
    let mut out = ops;
    let mut pending: Vec<usize> = Vec::new();
    let n = out.len();
    let mut i: usize = 0;
    while i < n
        invariant
            i <= n,
            n == ops@.len(),
            out@.len() == n,
            // no prefix so far closes more than it opens
            forall|k: int| 0 <= k <= i ==> #[trigger] depth(ops@, k) >= 0,
            // the stack holds the opening brackets that are still open, outermost first
            pending@.len() == depth(ops@, i as int),
            forall|s: int|
                0 <= s < pending@.len() ==> {
                    let p = #[trigger] pending@[s];
                    &&& p < i
                    &&& ops@[p as int] is LBracket
                    &&& depth(ops@, p as int) == s
                    &&& forall|k: int| p < k <= i ==> #[trigger] depth(ops@, k) > s
                },
            // only what brackets carry has changed
            forall|p: int| 0 <= p < n ==> same_kind(#[trigger] out@[p], ops@[p]),
            // every bracket seen so far is linked to its partner or still on the stack
            forall|p: int|
                0 <= p < i ==> match #[trigger] out@[p] {
                    BfOp::LBracket(q) => {
                        ||| pairs(ops@, p, q as int)
                        ||| (depth(ops@, p) < pending@.len() && pending@[depth(ops@, p)] == p)
                    },
                    BfOp::RBracket(q) => pairs(ops@, q as int, p),
                    _ => true,
                },
        decreases n - i,
    {
        match out[i] {
            BfOp::LBracket(_) => {
                pending.push(i);
            },
            BfOp::RBracket(_) => {
                match pending.pop() {
                    None => {
                        assert(depth(ops@, i + 1) < 0);
                        return Err(ParseError::UnmatchedRightBracket);
                    },
                    Some(j) => {
                        assert(pairs(ops@, j as int, i as int));
                        out.set(j, BfOp::LBracket(i));
                        out.set(i, BfOp::RBracket(j));
                    },
                }
            },
            _ => {},
        }
        i += 1;
    }
    if pending.len() > 0 {
        return Err(ParseError::UnmatchedLeftBracket);
    }
    proof {
        assert forall|p: int| 0 <= p < n implies out@[p] == link(ops@)[p] by {
            match out@[p] {
                BfOp::LBracket(q) => {
                    lemma_closer_unique(ops@, p, q as int, closer(ops@, p));
                },
                BfOp::RBracket(q) => {
                    lemma_opener_unique(ops@, q as int, opener(ops@, p), p);
                },
                _ => {},
            }
        }
        assert(out@ =~= link(ops@));
        lemma_link_balanced(ops@);
    }
    Ok(Program::from_linked(out))
}

/// Parses source text into a program.
///
/// Every byte that is not one of `><+-.,[]` is skipped. The result is the
/// instructions of the source in order, each bracket linked to its partner;
/// a source whose brackets do not match is rejected.
pub fn parse(code: &str) -> (res: Result<Program, ParseError>)
    ensures
        match res {
            Ok(program) => parse_spec(code.spec_bytes()) == Ok::<Seq<BfOp>, ParseError>(program@),
            Err(e) => parse_spec(code.spec_bytes()) == Err::<Seq<BfOp>, ParseError>(e),
        },
        res matches Ok(program) ==> linked(program@) && mutually_linked(program@),
{
    link_brackets(tokenize(code.as_bytes()))
}

/// A sequence can be linked exactly when it is balanced.
pub proof fn lemma_resolve_ok_iff_balanced(ops: Seq<BfOp>)
    ensures
        resolve(ops) is Ok <==> balanced(ops),
{
    if resolve(ops) is Ok {
        assert forall|k: int| 0 <= k <= ops.len() implies #[trigger] depth(ops, k) >= 0 by {}
    }
}

/// Linking a balanced sequence gives a linked sequence of the same
/// instructions.
pub proof fn lemma_link_balanced(ops: Seq<BfOp>)
    requires
        balanced(ops),
        ops.len() <= usize::MAX,
    ensures
        link(ops).len() == ops.len(),
        forall|p: int| 0 <= p < ops.len() ==> same_kind(ops[p], #[trigger] link(ops)[p]),
        linked(link(ops)),
        mutually_linked(link(ops)),
{
    let out = link(ops);
    assert forall|p: int| 0 <= p < ops.len() implies same_kind(#[trigger] ops[p], out[p]) by {}
    assert forall|p: int| 0 <= p < out.len() implies match #[trigger] out[p] {
        BfOp::LBracket(q) => pairs(out, p, q as int),
        BfOp::RBracket(q) => pairs(out, q as int, p),
        _ => true,
    } by {
        match ops[p] {
            BfOp::LBracket(_) => {
                lemma_closer_exists(ops, p);
                lemma_pairs_same_kind(ops, out, p, closer(ops, p));
            },
            BfOp::RBracket(_) => {
                lemma_opener_exists(ops, p);
                lemma_pairs_same_kind(ops, out, opener(ops, p), p);
            },
            _ => {},
        }
    }
    lemma_links_are_mutual(out);
}

/// There is one way to link a sequence: a linked sequence of the same
/// instructions as `ops` is `link(ops)`.
pub proof fn lemma_link_unique(ops: Seq<BfOp>, out: Seq<BfOp>)
    requires
        out.len() == ops.len(),
        forall|p: int| 0 <= p < ops.len() ==> same_kind(#[trigger] out[p], ops[p]),
        linked(out),
    ensures
        out == link(ops),
{
    assert forall|p: int| 0 <= p < out.len() implies out[p] == link(ops)[p] by {
        match out[p] {
            BfOp::LBracket(q) => {
                lemma_pairs_same_kind(out, ops, p, q as int);
                lemma_closer_unique(ops, p, q as int, closer(ops, p));
            },
            BfOp::RBracket(q) => {
                lemma_pairs_same_kind(out, ops, q as int, p);
                lemma_opener_unique(ops, q as int, opener(ops, p), p);
            },
            _ => {},
        }
    }
    assert(out =~= link(ops));
}

/// A source holds one instruction for each of its instruction characters,
/// so no more instructions than bytes.
pub proof fn lemma_tokens_len(src: Seq<u8>)
    ensures
        tokens(src).len() == strip(src).len(),
        tokens(src).len() <= src.len(),
    decreases src.len(),
{
    reveal(Seq::filter);
    if src.len() > 0 {
        lemma_tokens_len(src.drop_last());
    }
}

/// Whatever parses, parses to a program with one instruction for each
/// instruction character of the source, whose brackets refer to each other:
/// the opening bracket at `i` names `j` exactly when the closing bracket at
/// `j` names `i`.
pub proof fn lemma_parsed_is_linked(src: Seq<u8>)
    requires
        src.len() <= usize::MAX,
        parse_spec(src) is Ok,
    ensures
        balanced(tokens(src)),
        parse_spec(src)->Ok_0.len() == strip(src).len(),
        linked(parse_spec(src)->Ok_0),
        mutually_linked(parse_spec(src)->Ok_0),
{
    lemma_tokens_len(src);
    lemma_link_balanced(tokens(src));
}

/// Bytes that are not instruction characters do not change the instructions
/// that a source holds.
pub proof fn lemma_tokens_of_stripped(src: Seq<u8>)
    ensures
        tokens(strip(src)) == tokens(src),
    decreases src.len(),
{
    reveal(Seq::filter);
    if src.len() > 0 {
        let rest = src.drop_last();
        let last = src.last();
        lemma_tokens_of_stripped(rest);
        if is_op_byte(last) {
            assert(strip(src).drop_last() == strip(rest));
        }
    }
}

/// Parsing a source gives what parsing it without its non-instruction bytes
/// gives: the same program, or the same error. So two sources that differ
/// only in such bytes parse alike.
pub proof fn lemma_parse_ignores_other_bytes(src: Seq<u8>, other: Seq<u8>)
    ensures
        parse_spec(src) == parse_spec(strip(src)),
        strip(src) == strip(other) ==> parse_spec(src) == parse_spec(other),
{
    lemma_tokens_of_stripped(src);
    lemma_tokens_of_stripped(other);
}

/// A source without any instruction character parses to the empty program.
pub proof fn lemma_parse_without_instructions(src: Seq<u8>)
    requires
        forall|i: int| 0 <= i < src.len() ==> !is_op_byte(#[trigger] src[i]),
    ensures
        tokens(src) == Seq::<BfOp>::empty(),
        parse_spec(src) == Ok::<Seq<BfOp>, ParseError>(Seq::empty()),
    decreases src.len(),
{
    if src.len() > 0 {
        lemma_parse_without_instructions(src.drop_last());
    }
    assert(link(Seq::<BfOp>::empty()) == Seq::<BfOp>::empty());
}

} // verus!
