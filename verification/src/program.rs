//! Programs: instruction sequences whose brackets are linked.
//!
//! Bracket nesting is described by the *depth* of a position, the number of
//! brackets opened and not yet closed before it. An opening bracket and a
//! closing bracket are a *pair* when the stretch between them is itself
//! balanced. A sequence is *linked* when every bracket carries the index of
//! the bracket it is paired with.

use vstd::prelude::*;
use crate::op::BfOp;

verus! {

/// What an instruction adds to the nesting depth.
pub open spec fn delta(op: BfOp) -> int {
    match op {
        BfOp::LBracket(_) => 1,
        BfOp::RBracket(_) => -1,
        _ => 0,
    }
}

/// Opening brackets minus closing brackets among the first `k` instructions.
pub open spec fn depth(ops: Seq<BfOp>, k: int) -> int
    decreases k,
{
    if k <= 0 {
        0
    } else {
        depth(ops, k - 1) + delta(ops[k - 1])
    }
}

/// No prefix closes more brackets than it opens, and the whole sequence
/// closes every bracket that it opens.
pub open spec fn balanced(ops: Seq<BfOp>) -> bool {
    &&& forall|k: int| 0 <= k <= ops.len() ==> #[trigger] depth(ops, k) >= 0
    &&& depth(ops, ops.len() as int) == 0
}

/// The opening bracket at `i` and the closing bracket at `j` belong together:
/// the instructions strictly between them are balanced.
pub open spec fn pairs(ops: Seq<BfOp>, i: int, j: int) -> bool {
    &&& 0 <= i < j < ops.len()
    &&& ops[i] is LBracket
    &&& ops[j] is RBracket
    &&& depth(ops, j) == depth(ops, i + 1)
    &&& forall|k: int| i < k <= j ==> #[trigger] depth(ops, k) >= depth(ops, i + 1)
}

/// Every bracket carries the index of the bracket it is paired with.
pub open spec fn linked(ops: Seq<BfOp>) -> bool {
    forall|i: int|
        0 <= i < ops.len() ==> match #[trigger] ops[i] {
            BfOp::LBracket(j) => pairs(ops, i, j as int),
            BfOp::RBracket(j) => pairs(ops, j as int, i),
            _ => true,
        }
}

/// The brackets refer to each other: each opening bracket names a closing
/// bracket that names it, and each closing bracket names an opening bracket
/// that names it.
pub open spec fn mutually_linked(ops: Seq<BfOp>) -> bool {
    forall|i: usize|
        i < ops.len() ==> match #[trigger] ops[i as int] {
            BfOp::LBracket(j) => i < j < ops.len() && ops[j as int] == BfOp::RBracket(i),
            BfOp::RBracket(j) => j < i && ops[j as int] == BfOp::LBracket(i),
            _ => true,
        }
}

/// Two instructions of one kind: equal, or brackets of the same direction.
pub open spec fn same_kind(a: BfOp, b: BfOp) -> bool {
    match a {
        BfOp::LBracket(_) => b is LBracket,
        BfOp::RBracket(_) => b is RBracket,
        _ => a == b,
    }
}

/// A program ready to run: a sequence of instructions that is linked.
///
/// The only way to obtain one is to parse source text, so every `Program`
/// has its brackets resolved.
#[derive(Debug)]
pub struct Program {
    ops: Vec<BfOp>,
}

impl View for Program {
    type V = Seq<BfOp>;

    closed spec fn view(&self) -> Seq<BfOp> {
        self.ops@
    }
}

impl Program {
    /// What holds of every program: it is linked.
    #[verifier::type_invariant]
    pub closed spec fn inv(self) -> bool {
        linked(self.ops@)
    }

    /// Wraps an instruction sequence that is known to be linked.
    pub(crate) fn from_linked(ops: Vec<BfOp>) -> (program: Program)
        requires
            linked(ops@),
        ensures
            program@ == ops@,
    {
        Program { ops }
    }

    /// The number of instructions.
    pub fn len(&self) -> (n: usize)
        ensures
            n == self@.len(),
    {
        self.ops.len()
    }

    /// The instruction at index `i`, if there is one.
    pub fn get(&self, i: usize) -> (op: Option<BfOp>)
        ensures
            op == if i < self@.len() { Some(self@[i as int]) } else { None::<BfOp> },
    {
        if i < self.ops.len() {
            Some(self.ops[i])
        } else {
            None
        }
    }

    /// All instructions, in order.
    pub fn ops(&self) -> (ops: &[BfOp])
        ensures
            ops@ == self@,
            linked(ops@),
            mutually_linked(ops@),
    {
        proof {
            use_type_invariant(self);
            lemma_links_are_mutual(self.ops@);
        }
        self.ops.as_slice()
    }
}

/// An opening bracket has at most one partner.
pub proof fn lemma_closer_unique(ops: Seq<BfOp>, i: int, j1: int, j2: int)
    requires
        pairs(ops, i, j1),
        pairs(ops, i, j2),
    ensures
        j1 == j2,
{
    if j1 < j2 {
        assert(depth(ops, j1 + 1) == depth(ops, j1) + delta(ops[j1]));
    } else if j2 < j1 {
        assert(depth(ops, j2 + 1) == depth(ops, j2) + delta(ops[j2]));
    }
}

/// A closing bracket has at most one partner.
pub proof fn lemma_opener_unique(ops: Seq<BfOp>, i1: int, i2: int, j: int)
    requires
        pairs(ops, i1, j),
        pairs(ops, i2, j),
    ensures
        i1 == i2,
{
    if i1 < i2 {
        assert(depth(ops, i2 + 1) == depth(ops, i2) + delta(ops[i2]));
    } else if i2 < i1 {
        assert(depth(ops, i1 + 1) == depth(ops, i1) + delta(ops[i1]));
    }
}

/// In a linked sequence the brackets refer to each other.
pub proof fn lemma_links_are_mutual(ops: Seq<BfOp>)
    requires
        linked(ops),
    ensures
        mutually_linked(ops),
{
    assert forall|i: usize| i < ops.len() implies match #[trigger] ops[i as int] {
        BfOp::LBracket(j) => i < j < ops.len() && ops[j as int] == BfOp::RBracket(i),
        BfOp::RBracket(j) => j < i && ops[j as int] == BfOp::LBracket(i),
        _ => true,
    } by {
        match ops[i as int] {
            BfOp::LBracket(j) => {
                match ops[j as int] {
                    BfOp::RBracket(k) => {
                        lemma_opener_unique(ops, i as int, k as int, j as int);
                    },
                    _ => {},
                }
            },
            BfOp::RBracket(j) => {
                match ops[j as int] {
                    BfOp::LBracket(k) => {
                        lemma_closer_unique(ops, j as int, i as int, k as int);
                    },
                    _ => {},
                }
            },
            _ => {},
        }
    }
}

/// In a balanced sequence every opening bracket has a partner.
pub proof fn lemma_closer_exists(ops: Seq<BfOp>, i: int)
    requires
        balanced(ops),
        0 <= i < ops.len(),
        ops[i] is LBracket,
    ensures
        exists|j: int| pairs(ops, i, j),
{
    lemma_closer_after(ops, i, i + 1);
}

/// The search behind `lemma_closer_exists`: the depth has not fallen below
/// its value after `i` anywhere up to `k`, so it falls there at `k` or later.
proof fn lemma_closer_after(ops: Seq<BfOp>, i: int, k: int)
    requires
        balanced(ops),
        0 <= i < k <= ops.len(),
        ops[i] is LBracket,
        forall|m: int| i < m <= k ==> #[trigger] depth(ops, m) >= depth(ops, i + 1),
    ensures
        exists|j: int| pairs(ops, i, j),
    decreases ops.len() - k,
{
    assert(depth(ops, i) >= 0);
    if k < ops.len() {
        assert(depth(ops, k + 1) == depth(ops, k) + delta(ops[k]));
        if depth(ops, k + 1) >= depth(ops, i + 1) {
            lemma_closer_after(ops, i, k + 1);
        } else {
            assert(pairs(ops, i, k));
        }
    }
}

/// In a balanced sequence every closing bracket has a partner.
pub proof fn lemma_opener_exists(ops: Seq<BfOp>, j: int)
    requires
        balanced(ops),
        0 <= j < ops.len(),
        ops[j] is RBracket,
    ensures
        exists|i: int| pairs(ops, i, j),
{
    lemma_opener_before(ops, j, j);
}

/// The search behind `lemma_opener_exists`: the depth has not been below its
/// value before `j` anywhere from `k` on, so it is below it before `k`.
proof fn lemma_opener_before(ops: Seq<BfOp>, j: int, k: int)
    requires
        balanced(ops),
        0 <= k <= j < ops.len(),
        ops[j] is RBracket,
        forall|m: int| k <= m <= j ==> #[trigger] depth(ops, m) >= depth(ops, j),
    ensures
        exists|i: int| pairs(ops, i, j),
    decreases k,
{
    assert(depth(ops, j + 1) >= 0);
    if k > 0 {
        assert(depth(ops, k) == depth(ops, k - 1) + delta(ops[k - 1]));
        if depth(ops, k - 1) >= depth(ops, j) {
            lemma_opener_before(ops, j, k - 1);
        } else {
            assert(pairs(ops, k - 1, j));
        }
    }
}

/// The depth inside a stretch of a sequence is the depth in the sequence,
/// counted from where the stretch begins.
pub proof fn lemma_depth_of_stretch(ops: Seq<BfOp>, from: int, to: int, k: int)
    requires
        0 <= from <= to <= ops.len(),
        0 <= k <= to - from,
    ensures
        depth(ops.subrange(from, to), k) == depth(ops, from + k) - depth(ops, from),
    decreases k,
{
    if k > 0 {
        lemma_depth_of_stretch(ops, from, to, k - 1);
    }
}

/// An opening and a closing bracket are a pair exactly when the instructions
/// strictly between them are balanced.
pub proof fn lemma_pair_encloses_balanced(ops: Seq<BfOp>, i: int, j: int)
    requires
        0 <= i < j < ops.len(),
        ops[i] is LBracket,
        ops[j] is RBracket,
    ensures
        pairs(ops, i, j) <==> balanced(ops.subrange(i + 1, j)),
{
    let inner = ops.subrange(i + 1, j);
    lemma_depth_of_stretch(ops, i + 1, j, j - i - 1);
    if pairs(ops, i, j) {
        assert forall|k: int| 0 <= k <= inner.len() implies #[trigger] depth(inner, k) >= 0 by {
            lemma_depth_of_stretch(ops, i + 1, j, k);
        }
    }
    if balanced(inner) {
        assert forall|m: int| i < m <= j implies #[trigger] depth(ops, m) >= depth(ops, i + 1) by {
            lemma_depth_of_stretch(ops, i + 1, j, m - i - 1);
        }
    }
}

/// Depth looks at the kind of each instruction only.
pub proof fn lemma_depth_same_kind(a: Seq<BfOp>, b: Seq<BfOp>, k: int)
    requires
        a.len() == b.len(),
        forall|p: int| 0 <= p < a.len() ==> same_kind(#[trigger] a[p], b[p]),
        0 <= k <= a.len(),
    ensures
        depth(a, k) == depth(b, k),
    decreases k,
{
    if k > 0 {
        lemma_depth_same_kind(a, b, k - 1);
    }
}

/// Which brackets are paired depends on the kind of each instruction only.
pub proof fn lemma_pairs_same_kind(a: Seq<BfOp>, b: Seq<BfOp>, i: int, j: int)
    requires
        a.len() == b.len(),
        forall|p: int| 0 <= p < a.len() ==> same_kind(#[trigger] a[p], b[p]),
        pairs(a, i, j),
    ensures
        pairs(b, i, j),
{
    lemma_depth_same_kind(a, b, j);
    lemma_depth_same_kind(a, b, i + 1);
    assert forall|k: int| i < k <= j implies #[trigger] depth(b, k) >= depth(b, i + 1) by {
        lemma_depth_same_kind(a, b, k);
    }
}

} // verus!
