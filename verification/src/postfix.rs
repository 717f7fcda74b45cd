//! Postfix code: what the parser emits and the evaluation runs on a stack.

use vstd::prelude::*;

verus! {

/// One step of postfix code.
#[derive(Clone, Copy, Debug, PartialEq, Eq, Structural)]
pub enum Instr {
    /// Push the value of the literal that the source holds from `start` up
    /// to `end`.
    Number { start: usize, end: usize },
    /// Replace the top of the stack by its negation.
    Negate,
    /// Replace the two topmost values by their sum.
    Add,
    /// Replace the two topmost values by the lower minus the upper.
    Subtract,
    /// Replace the two topmost values by their product.
    Multiply,
    /// Replace the two topmost values by the lower divided by the upper.
    Divide,
}

/// By how much an instruction changes the height of the stack.
pub open spec fn delta(i: Instr) -> int {
    match i {
        Instr::Number { .. } => 1,
        Instr::Negate => 0,
        _ => -1,
    }
}

/// How many values an instruction takes from the stack.
pub open spec fn needs(i: Instr) -> int {
    match i {
        Instr::Number { .. } => 0,
        Instr::Negate => 1,
        _ => 2,
    }
}

/// The height of the stack after the first `k` instructions of `code`,
/// from an empty stack.
pub open spec fn depth(code: Seq<Instr>, k: int) -> int
    decreases k,
{
    if k <= 0 {
        0
    } else {
        depth(code, k - 1) + delta(code[k - 1])
    }
}

/// The height of the stack after all of `code`.
pub open spec fn height(code: Seq<Instr>) -> int {
    depth(code, code.len() as int)
}

/// No instruction of `code` finds fewer values on the stack than it takes.
pub open spec fn stack_safe(code: Seq<Instr>) -> bool {
    forall|k: int| 0 <= k < code.len() ==> #[trigger] depth(code, k) >= needs(code[k])
}

/// Every literal of `code` is a range of a source of length `len`.
pub open spec fn spans_inside(code: Seq<Instr>, len: int) -> bool {
    forall|k: int|
        0 <= k < code.len() ==> (#[trigger] code[k] matches Instr::Number { start, end } ==> start
            <= end <= len)
}

/// A stack-safe code never brings the stack below empty.
pub proof fn lemma_depth_nonnegative(code: Seq<Instr>, k: int)
    requires
        stack_safe(code),
        0 <= k <= code.len(),
    ensures
        depth(code, k) >= 0,
{
    if k > 0 {
        assert(depth(code, k - 1) >= needs(code[k - 1]));
    }
}

/// The first instructions of `a + b` are those of `a`; after them, `b`
/// runs on top of what `a` left.
pub proof fn lemma_depth_concat(a: Seq<Instr>, b: Seq<Instr>, k: int)
    requires
        0 <= k <= a.len() + b.len(),
    ensures
        depth(a + b, k) == if k <= a.len() {
            depth(a, k)
        } else {
            height(a) + depth(b, k - a.len())
        },
    decreases k,
{
    if k > 0 {
        lemma_depth_concat(a, b, k - 1);
        if k - 1 < a.len() {
            assert((a + b)[k - 1] == a[k - 1]);
        } else {
            assert((a + b)[k - 1] == b[k - 1 - a.len()]);
            assert(depth(b, 0) == 0);
        }
    }
}

/// Stack-safe codes, one after the other, are stack-safe.
pub proof fn lemma_safe_concat(a: Seq<Instr>, b: Seq<Instr>)
    requires
        stack_safe(a),
        stack_safe(b),
    ensures
        stack_safe(a + b),
        height(a + b) == height(a) + height(b),
{
    lemma_depth_nonnegative(a, a.len() as int);
    lemma_depth_concat(a, b, (a + b).len() as int);
    assert forall|k: int| 0 <= k < (a + b).len() implies #[trigger] depth(a + b, k) >= needs(
        (a + b)[k],
    ) by {
        lemma_depth_concat(a, b, k);
        if k < a.len() {
            assert(depth(a, k) >= needs(a[k]));
        } else {
            assert(depth(b, k - a.len()) >= needs(b[k - a.len()]));
        }
    }
}

/// A stack-safe code stays so with one more instruction that finds what it
/// takes.
pub proof fn lemma_safe_push(a: Seq<Instr>, i: Instr)
    requires
        stack_safe(a),
        height(a) >= needs(i),
    ensures
        stack_safe(a.push(i)),
        height(a.push(i)) == height(a) + delta(i),
{
    let one = seq![i];
    assert(a.push(i) == a + one);
    assert(depth(one, 0) == 0);
    assert(height(one) == depth(one, 0) + delta(one[0]));
    lemma_depth_concat(a, one, a.len() as int + 1);
    assert forall|k: int| 0 <= k < a.push(i).len() implies #[trigger] depth(a.push(i), k)
        >= needs(a.push(i)[k]) by {
        lemma_depth_concat(a, one, k);
        if k < a.len() {
            assert(depth(a, k) >= needs(a[k]));
        }
    }
}

/// Literals that lie inside a source still do when two codes are joined.
pub proof fn lemma_spans_concat(a: Seq<Instr>, b: Seq<Instr>, len: int)
    requires
        spans_inside(a, len),
        spans_inside(b, len),
    ensures
        spans_inside(a + b, len),
{
    let c = a + b;
    assert forall|k: int| 0 <= k < c.len() implies (#[trigger] c[k] matches Instr::Number {
        start,
        end,
    } ==> start <= end <= len) by {
        if k < a.len() {
            assert(c[k] == a[k]);
        } else {
            assert(c[k] == b[k - a.len()]);
        }
    }
}

} // verus!
