//! Building lists of scope stack operations.

use crate::scope::{ClearAmount, Op, Scope, ScopeStackOp};
use vstd::prelude::*;

verus! {

/// `acc`, then a `Pop` of `n` scopes at `index`, unless `n` is 0.
pub open spec fn popped(acc: Seq<Op>, index: usize, n: usize) -> Seq<Op> {
    if n > 0 {
        acc.push((index, ScopeStackOp::Pop(n)))
    } else {
        acc
    }
}

/// `acc`, then a `Restore` at `index` if `b`.
pub open spec fn restored(acc: Seq<Op>, index: usize, b: bool) -> Seq<Op> {
    if b {
        acc.push((index, ScopeStackOp::Restore))
    } else {
        acc
    }
}

/// `acc`, then `n` times a `Restore` at `index`.
pub open spec fn restored_times(acc: Seq<Op>, index: usize, n: nat) -> Seq<Op> {
    acc + Seq::new(n, |i: int| (index, ScopeStackOp::Restore))
}

/// `acc`, then a `Clear` at `index` if there is an amount to clear.
pub open spec fn cleared(acc: Seq<Op>, index: usize, amount: Option<ClearAmount>) -> Seq<Op> {
    match amount {
        Some(amount) => acc.push((index, ScopeStackOp::Clear(amount))),
        None => acc,
    }
}

/// `acc`, then a `Push` of each scope at `index`.
pub open spec fn pushed(acc: Seq<Op>, index: usize, scopes: Seq<Scope>) -> Seq<Op> {
    acc + Seq::new(scopes.len(), |i: int| (index, ScopeStackOp::Push(scopes[i])))
}

/// The earliest position of the operations `ops[i..]`, or `end` if all lie after it.
pub open spec fn earliest(ops: Seq<Op>, i: int, end: usize) -> usize
    decreases ops.len() - i,
{
    if i < 0 || i >= ops.len() {
        end
    } else {
        let rest = earliest(ops, i + 1, end);
        if ops[i].0 < rest {
            ops[i].0
        } else {
            rest
        }
    }
}

/// The operations of a line of `end` bytes, each placed no later than those after
/// it and than the end of the line. Operations that are in order and within the
/// line stay where they are.
pub open spec fn levelled(ops: Seq<Op>, end: usize) -> Seq<Op> {
    Seq::new(ops.len(), |i: int| (earliest(ops, i, end), ops[i].1))
}

/// Places the operations of a line, see [`levelled`].
pub(crate) fn level_ops(ops: &mut Vec<Op>, end: usize)
    ensures
        final(ops)@ == levelled(old(ops)@, end),
{
    let ghost raw = ops@;
    let mut pos: usize = end;
    let mut i: usize = ops.len();
    while i > 0
        invariant
            i <= raw.len(),
            ops@.len() == raw.len(),
            pos == earliest(raw, i as int, end),
            forall|k: int| 0 <= k < i ==> ops@[k] == raw[k],
            forall|k: int| i <= k < raw.len() ==> ops@[k] == levelled(raw, end)[k],
        decreases i,
    {
        i -= 1;
        let op = ops[i];
        if op.0 < pos {
            pos = op.0;
        }
        ops.set(i, (pos, op.1));
    }
    assert(ops@ =~= levelled(raw, end));
}

pub(crate) fn emit_pop(ops: &mut Vec<Op>, index: usize, n: usize)
    ensures
        final(ops)@ == popped(old(ops)@, index, n),
{
    if n > 0 {
        ops.push((index, ScopeStackOp::Pop(n)));
    }
}

pub(crate) fn emit_restore(ops: &mut Vec<Op>, index: usize, b: bool)
    ensures
        final(ops)@ == restored(old(ops)@, index, b),
{
    if b {
        ops.push((index, ScopeStackOp::Restore));
    }
}

pub(crate) fn emit_restores(ops: &mut Vec<Op>, index: usize, n: usize)
    ensures
        final(ops)@ == restored_times(old(ops)@, index, n as nat),
{
    let ghost acc = ops@;
    assert(restored_times(acc, index, 0) =~= acc);
    for i in 0..n
        invariant
            ops@ == restored_times(acc, index, i as nat),
    {
        ops.push((index, ScopeStackOp::Restore));
        assert(ops@ =~= restored_times(acc, index, (i + 1) as nat));
    }
}

pub(crate) fn emit_clear(ops: &mut Vec<Op>, index: usize, amount: Option<ClearAmount>)
    ensures
        final(ops)@ == cleared(old(ops)@, index, amount),
{
    if let Some(amount) = amount {
        ops.push((index, ScopeStackOp::Clear(amount)));
    }
}

pub(crate) fn emit_pushes(ops: &mut Vec<Op>, index: usize, scopes: &Vec<Scope>)
    ensures
        final(ops)@ == pushed(old(ops)@, index, scopes@),
{
    let ghost acc = ops@;
    assert(pushed(acc, index, scopes@.subrange(0, 0)) =~= acc);
    for i in 0..scopes.len()
        invariant
            ops@ == pushed(acc, index, scopes@.subrange(0, i as int)),
    {
        ops.push((index, ScopeStackOp::Push(scopes[i])));
        assert(ops@ =~= pushed(acc, index, scopes@.subrange(0, i + 1)));
    }
    assert(scopes@.subrange(0, scopes@.len() as int) =~= scopes@);
}

pub(crate) fn emit_all(ops: &mut Vec<Op>, more: &Vec<Op>)
    ensures
        final(ops)@ == old(ops)@ + more@,
{
    let ghost acc = ops@;
    assert(acc + more@.subrange(0, 0) =~= acc);
    for i in 0..more.len()
        invariant
            ops@ == acc + more@.subrange(0, i as int),
    {
        ops.push(more[i]);
        assert(ops@ =~= acc + more@.subrange(0, i + 1));
    }
    assert(more@.subrange(0, more@.len() as int) =~= more@);
}

} // verus!
