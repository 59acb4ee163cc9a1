//! Which version of a line stands when replays have corrected it more than once.

use crate::corrections;
use crate::engine;
use crate::engine::ReplayV;
use crate::scope;
use crate::scope::{Op, Scope, ScopeStackOp, StackV};
use crate::state::{BpInfoV, StateV};
use vstd::prelude::*;

verus! {

/// Whether corrections that start at line `from` have one of line `line`.
pub open spec fn covers<A>(slots: Seq<A>, from: int, line: int) -> bool {
    0 <= line - from < slots.len()
}

/// Where the corrections of a state start.
pub open spec fn from_line(st: StateV) -> int {
    match st.flushed_ops_start {
        Some(n) => n as int,
        None => 0,
    }
}

/// The depth of a correction is that of the deepest branch point that had a part in it.
pub proof fn law_depth_is_the_deepest(bp: BpInfoV)
    ensures
        corrections::effective_depth(bp) >= bp.stack_depth,
        match bp.inner_producer {
            Some(inner) => {
                &&& corrections::effective_depth(bp) >= corrections::effective_depth(*inner)
                &&& corrections::effective_depth(bp) == bp.stack_depth
                    || corrections::effective_depth(bp) == corrections::effective_depth(*inner)
            },
            None => corrections::effective_depth(bp) == bp.stack_depth,
        },
{
}

/// New corrections go over those that are there, line by line. Earlier lines keep theirs.
/// A line that has one keeps it if the new ones start no later and it comes from a later
/// line than they do, or if they start later and it comes from a deeper branch point.
pub proof fn law_new_corrections_go_over_old(
    st: StateV,
    snap: usize,
    new_ops: Seq<Seq<Op>>,
    new_bps: Seq<BpInfoV>,
    line: int,
)
    requires
        new_ops.len() == new_bps.len(),
        st.flushed_ops.len() == st.flushed_ops_bp_per_slot.len(),
        st.flushed_ops_start is None ==> st.flushed_ops.len() == 0,
        st.flushed_ops_start is Some ==> snap <= from_line(st) + st.flushed_ops.len(),
    ensures
        ({
            let next = corrections::merged(st, snap, new_ops, new_bps);
            let old_from = from_line(st);
            let from = from_line(next);
            let at = line - from;
            &&& next.flushed_ops_start is Some
            &&& from == if st.flushed_ops_start is Some && old_from < snap {
                old_from
            } else {
                snap as int
            }
            &&& next.flushed_ops.len() == next.flushed_ops_bp_per_slot.len()
            &&& from + next.flushed_ops.len() == snap + new_ops.len()
            &&& covers(next.flushed_ops, from, line) <==> from <= line < snap + new_ops.len()
            &&& from <= line < snap ==> next.flushed_ops[at] == st.flushed_ops[line - old_from]
                && next.flushed_ops_bp_per_slot[at] == st.flushed_ops_bp_per_slot[line - old_from]
            &&& covers(new_ops, snap as int, line) ==> {
                let prior = st.flushed_ops_bp_per_slot[line - old_from];
                let new = new_bps[line - snap];
                if covers(st.flushed_ops, old_from, line) && (if snap <= old_from {
                    prior.line_number > new_bps[0].line_number
                } else {
                    corrections::effective_depth(prior) > corrections::effective_depth(new)
                }) {
                    next.flushed_ops[at] == st.flushed_ops[line - old_from]
                        && next.flushed_ops_bp_per_slot[at] == prior
                } else {
                    next.flushed_ops[at] == new_ops[line - snap]
                        && next.flushed_ops_bp_per_slot[at] == new
                }
            }
        }),
{
}

/// Whether an operation pushes or pops.
pub open spec fn moves() -> spec_fn(Op) -> bool {
    |op: Op| op.1 is Push || op.1 is Pop
}

/// The scopes that the pushes and pops among operations leave on an empty stack.
pub open spec fn left_by(ops: Seq<Op>) -> Seq<Scope> {
    scope::applied_all(
        StackV { scopes: Seq::empty(), cleared: Seq::empty() },
        ops.filter(moves()),
    ).scopes
}

/// How often a scope is among others.
pub open spec fn times(scopes: Seq<Scope>, x: Scope) -> nat {
    scopes.filter(|y: Scope| y == x).len()
}

/// How many more copies of a meta scope the operations `inner` leave than `outer`.
pub open spec fn excess(outer: Seq<Op>, inner: Seq<Op>, x: Scope) -> int {
    let more = times(left_by(inner), x) - times(left_by(outer), x);
    if scope::is_meta(x) && more > 0 {
        more
    } else {
        0
    }
}

/// Whether neither list goes on where the other ends, and `inner` pushes a meta scope
/// that `outer` pushes nowhere.
pub open spec fn reshapes(outer: Seq<Op>, inner: Seq<Op>) -> bool {
    &&& !outer.is_prefix_of(inner)
    &&& !inner.is_prefix_of(outer)
    &&& exists|k: int|
        0 <= k < inner.len() && adds_meta(outer, #[trigger] inner[k])
}

/// Whether an operation pushes a meta scope that none of `outer` pushes.
pub open spec fn adds_meta(outer: Seq<Op>, op: Op) -> bool {
    op.1 matches ScopeStackOp::Push(x) && scope::is_meta(x) && forall|j: int|
        0 <= j < outer.len() ==> (#[trigger] outer[j]).1 != ScopeStackOp::Push(x)
}

/// Whether `inner` is `outer` and then pops, none behind the last place of `outer`.
pub open spec fn only_pops_more(outer: Seq<Op>, inner: Seq<Op>) -> bool {
    &&& outer.is_prefix_of(inner)
    &&& outer.len() < inner.len()
    &&& forall|k: int|
        outer.len() <= k < inner.len() ==> {
            &&& (#[trigger] inner[k]).1 is Pop
            &&& inner[k].0 <= if outer.len() > 0 {
                outer[outer.len() - 1].0
            } else {
                0
            }
        }
}

/// Whether the operation `inner[i]` is one of the first pushes of its scope, as many as
/// the scope is in excess.
pub open spec fn too_many(outer: Seq<Op>, inner: Seq<Op>, i: int) -> bool {
    inner[i].1 matches ScopeStackOp::Push(x) && inner.subrange(0, i).filter(
        |op: Op| op.1 == ScopeStackOp::Push(x),
    ).len() < excess(outer, inner, x)
}

/// How many of the first `i` operations are.
pub open spec fn taken_back(outer: Seq<Op>, inner: Seq<Op>, i: int) -> int
    decreases i,
{
    if i <= 0 {
        0
    } else {
        taken_back(outer, inner, i - 1) + if too_many(outer, inner, i - 1) {
            1int
        } else {
            0
        }
    }
}

proof fn lemma_agreement(a: Seq<Op>, b: Seq<Op>, i: int)
    requires
        0 <= i <= a.len(),
        i <= b.len(),
        a.subrange(0, i) == b.subrange(0, i),
    ensures
        ({
            let n = corrections::agreement(a, b, i);
            &&& i <= n <= a.len() && n <= b.len()
            &&& n == a.len() ==> a.is_prefix_of(b)
            &&& n == b.len() ==> b.is_prefix_of(a)
            &&& n < a.len() && n < b.len() ==> !a.is_prefix_of(b) && !b.is_prefix_of(a)
        }),
    decreases a.len() - i,
{
    if i < a.len() && i < b.len() && a[i] == b[i] {
        assert(a.subrange(0, i + 1) =~= a.subrange(0, i).push(a[i]));
        assert(b.subrange(0, i + 1) =~= b.subrange(0, i).push(b[i]));
        lemma_agreement(a, b, i + 1);
    } else {
        if i == a.len() {
            assert(a.subrange(0, i) =~= a);
        }
        if i == b.len() {
            assert(b.subrange(0, i) =~= b);
        }
        if i < a.len() && i < b.len() {
            if a.is_prefix_of(b) {
                assert(a[i] == b.subrange(0, a.len() as int)[i]);
            }
            if b.is_prefix_of(a) {
                assert(b[i] == a.subrange(0, b.len() as int)[i]);
            }
        }
    }
}

proof fn lemma_meta_pushes(acc: Seq<Scope>, ops: Seq<Op>, i: int, x: Scope)
    requires
        0 <= i <= ops.len(),
    ensures
        corrections::meta_pushes(acc, ops, i).contains(x) <==> acc.contains(x) || (scope::is_meta(x)
            && exists|k: int| i <= k < ops.len() && (#[trigger] ops[k]).1 == ScopeStackOp::Push(x)),
    decreases ops.len() - i,
{
    if i < ops.len() {
        let here = ops[i].1;
        match here {
            ScopeStackOp::Push(s) => {
                if scope::is_meta(s) {
                    lemma_meta_pushes(acc.push(s), ops, i + 1, x);
                    assert(acc.push(s).contains(x) <==> acc.contains(x) || x == s) by {
                        if acc.contains(x) {
                            let j = choose|j: int| 0 <= j < acc.len() && acc[j] == x;
                            assert(acc.push(s)[j] == x);
                        }
                        if x == s {
                            assert(acc.push(s)[acc.len() as int] == x);
                        }
                    }
                } else {
                    lemma_meta_pushes(acc, ops, i + 1, x);
                }
            },
            _ => {
                lemma_meta_pushes(acc, ops, i + 1, x);
            },
        }
    }
}

proof fn lemma_reshapes(outer: Seq<Op>, inner: Seq<Op>)
    ensures
        corrections::replace_shape(outer, inner) == reshapes(outer, inner),
{
    assert(outer.subrange(0, 0) =~= inner.subrange(0, 0));
    lemma_agreement(outer, inner, 0);
    let a = corrections::meta_pushes(Seq::empty(), inner, 0);
    let b = corrections::meta_pushes(Seq::empty(), outer, 0);
    if reshapes(outer, inner) {
        let k = choose|k: int| 0 <= k < inner.len() && adds_meta(outer, #[trigger] inner[k]);
        let x = inner[k].1->Push_0;
        lemma_meta_pushes(Seq::empty(), inner, 0, x);
        lemma_meta_pushes(Seq::empty(), outer, 0, x);
        assert(a.contains(x));
        let j = choose|j: int| 0 <= j < a.len() && a[j] == x;
        assert(!b.contains(a[j]));
    }
    if corrections::replace_shape(outer, inner) {
        let j = choose|j: int| 0 <= j < a.len() && !b.contains(#[trigger] a[j]);
        let x = a[j];
        assert(a.contains(x));
        lemma_meta_pushes(Seq::empty(), inner, 0, x);
        lemma_meta_pushes(Seq::empty(), outer, 0, x);
        let k = choose|k: int|
            0 <= k < inner.len() && (#[trigger] inner[k]).1 == ScopeStackOp::Push(x);
        assert(adds_meta(outer, inner[k]));
    }
}

proof fn lemma_net(s: StackV, ops: Seq<Op>, i: int)
    requires
        0 <= i <= ops.len(),
    ensures
        corrections::net_stack(s.scopes, ops, i) == scope::applied_all(
            s,
            ops.subrange(i, ops.len() as int).filter(moves()),
        ).scopes,
    decreases ops.len() - i,
{
    let rest = ops.subrange(i, ops.len() as int);
    if i < ops.len() {
        let tail = ops.subrange(i + 1, ops.len() as int);
        assert(rest =~= seq![ops[i]] + tail);
        lemma_filter_front(ops[i], tail, moves());
        let next = scope::applied(s, ops[i].1);
        if moves()(ops[i]) {
            lemma_net(next, ops, i + 1);
            scope::law_operations_in_sequence(s, seq![ops[i]], tail.filter(moves()));
            reveal_with_fuel(scope::applied_from, 2);
            assert(scope::applied_all(s, seq![ops[i]]) == next);
        } else {
            lemma_net(s, ops, i + 1);
        }
    } else {
        assert(rest =~= Seq::<Op>::empty());
        reveal(Seq::filter);
    }
}

pub(crate) proof fn lemma_filter_front<A>(x: A, s: Seq<A>, f: spec_fn(A) -> bool)
    ensures
        (seq![x] + s).filter(f) == if f(x) {
            seq![x] + s.filter(f)
        } else {
            s.filter(f)
        },
    decreases s.len(),
{
    reveal(Seq::filter);
    let all = seq![x] + s;
    if s.len() == 0 {
        assert(all.drop_last() =~= Seq::<A>::empty());
        assert(all.last() == x);
        assert(Seq::<A>::empty().filter(f) =~= Seq::<A>::empty());
        assert(all.filter(f) =~= if f(x) {
            seq![x] + s.filter(f)
        } else {
            s.filter(f)
        });
    } else {
        lemma_filter_front(x, s.drop_last(), f);
        assert(all.drop_last() =~= seq![x] + s.drop_last());
        assert(all.last() == s.last());
        if f(x) && f(s.last()) {
            assert((seq![x] + s.drop_last().filter(f)).push(s.last()) =~= seq![x]
                + s.drop_last().filter(f).push(s.last()));
        }
    }
}

proof fn lemma_times(s: Seq<Scope>, x: Scope)
    ensures
        corrections::occurrences(s, x) == times(s, x),
    decreases s.len(),
{
    reveal(Seq::filter);
    if s.len() > 0 {
        lemma_times(s.drop_last(), x);
    }
}

proof fn lemma_excess(outer: Seq<Op>, inner: Seq<Op>, x: Scope)
    ensures
        corrections::over_pushed(outer, inner, x) == excess(outer, inner, x),
{
    let bare = StackV { scopes: Seq::empty(), cleared: Seq::empty() };
    lemma_net(bare, outer, 0);
    lemma_net(bare, inner, 0);
    assert(outer.subrange(0, outer.len() as int) =~= outer);
    assert(inner.subrange(0, inner.len() as int) =~= inner);
    lemma_times(left_by(outer), x);
    lemma_times(left_by(inner), x);
}

proof fn lemma_pushes_before(ops: Seq<Op>, i: int, x: Scope)
    requires
        0 <= i <= ops.len(),
    ensures
        corrections::pushes_before(ops, i, x) == ops.subrange(0, i).filter(
            |op: Op| op.1 == ScopeStackOp::Push(x),
        ).len(),
    decreases i,
{
    reveal(Seq::filter);
    if i > 0 {
        lemma_pushes_before(ops, i - 1, x);
        assert(ops.subrange(0, i).drop_last() =~= ops.subrange(0, i - 1));
        assert(ops.subrange(0, i).last() == ops[i - 1]);
    }
}

proof fn lemma_too_many(outer: Seq<Op>, inner: Seq<Op>, i: int)
    requires
        0 <= i < inner.len(),
    ensures
        too_many(outer, inner, i) == (inner[i].1 matches ScopeStackOp::Push(x)
            && corrections::pushes_before(inner, i, x) < corrections::over_pushed(outer, inner, x)),
{
    if let ScopeStackOp::Push(x) = inner[i].1 {
        lemma_pushes_before(inner, i, x);
        lemma_excess(outer, inner, x);
    }
}

/// Whether the operation `i` of `inner` is where it has to be in `r`, and followed by a
/// pop if its scope is one too many.
pub open spec fn carried(outer: Seq<Op>, inner: Seq<Op>, r: Seq<Op>, i: int) -> bool {
    let at = i + taken_back(outer, inner, i);
    &&& 0 <= at < r.len() && r[at] == inner[i]
    &&& too_many(outer, inner, i) ==> at + 1 < r.len() && r[at + 1] == (
        inner[i].0,
        ScopeStackOp::Pop(1),
    )
}

proof fn lemma_compensated(acc: Seq<Op>, outer: Seq<Op>, inner: Seq<Op>, i: int)
    requires
        0 <= i <= inner.len(),
        acc.len() == i + taken_back(outer, inner, i),
        forall|k: int| 0 <= k < i ==> #[trigger] carried(outer, inner, acc, k),
    ensures
        ({
            let r = corrections::compensated(acc, outer, inner, i);
            &&& r.len() == inner.len() + taken_back(outer, inner, inner.len() as int)
            &&& forall|k: int| 0 <= k < inner.len() ==> #[trigger] carried(outer, inner, r, k)
        }),
    decreases inner.len() - i,
{
    if i < inner.len() {
        lemma_too_many(outer, inner, i);
        let a = acc.push(inner[i]);
        let b = a.push((inner[i].0, ScopeStackOp::Pop(1)));
        let next = if too_many(outer, inner, i) {
            b
        } else {
            a
        };
        assert forall|k: int| 0 <= k < i + 1 implies #[trigger] carried(outer, inner, next, k) by {
            if k < i {
                assert(carried(outer, inner, acc, k));
            }
        }
        assert(taken_back(outer, inner, i + 1) == taken_back(outer, inner, i) + if too_many(
            outer,
            inner,
            i,
        ) {
            1int
        } else {
            0
        });
        lemma_compensated(next, outer, inner, i + 1);
    }
}

/// A version of a line that leaves more copies of meta scopes than the other is taken
/// over whole, and each copy that is too many is popped where it is pushed.
pub proof fn law_excess_is_popped(outer: Seq<Op>, inner: Seq<Op>)
    ensures
        ({
            let r = corrections::compensated(Seq::empty(), outer, inner, 0);
            &&& r.len() == inner.len() + taken_back(outer, inner, inner.len() as int)
            &&& forall|k: int| 0 <= k < inner.len() ==> #[trigger] carried(outer, inner, r, k)
        }),
{
    lemma_compensated(Seq::empty(), outer, inner, 0);
}

/// Whether a version from a nested replay stands as it is: its branch point is as deep as
/// that of the replay around it, or one deeper; or it is of a later line; or it is deeper
/// and the version only pops more.
pub open spec fn nested_stands(
    outer: Seq<Op>,
    inner: Seq<Op>,
    info: BpInfoV,
    first: Option<BpInfoV>,
    own: Option<BpInfoV>,
) -> bool {
    ||| first matches Some(f) && info.stack_depth <= f.stack_depth <= info.stack_depth + 1
    ||| own matches Some(o) && o.line_number > info.line_number
    ||| first matches Some(f) && f.stack_depth > info.stack_depth + 1 && only_pops_more(
        outer,
        inner,
    )
}

/// Whether a version from a nested replay stands without what it has in excess: its
/// branch point is deeper, and it takes another shape.
pub open spec fn nested_reshapes(
    outer: Seq<Op>,
    inner: Seq<Op>,
    info: BpInfoV,
    first: Option<BpInfoV>,
) -> bool {
    first matches Some(f) && f.stack_depth > info.stack_depth + 1 && reshapes(outer, inner)
}

/// Whether the consumer has a scope of which a version leaves too many.
pub open spec fn has_excess(outer: Seq<Op>, inner: Seq<Op>, scopes: Seq<Scope>) -> bool {
    exists|k: int| 0 <= k < scopes.len() && excess(outer, inner, #[trigger] scopes[k]) > 0
}

/// Where a replay met corrections of a replay inside it, each line keeps one of the two
/// versions; where neither corrects it, or only the outer one does, that of the outer.
pub proof fn law_nested_corrections(
    st: StateV,
    info: BpInfoV,
    snap: usize,
    replay: ReplayV,
    from: usize,
    line: int,
)
    requires
        st.flushed_ops_start is None,
        replay.start == Some(from),
        covers(replay.ops, snap as int, line),
    ensures
        ({
            let next = engine::replay_taken(st, info, snap, replay);
            let outer = replay.ops[line - snap];
            let inner = replay.corrections[line - from];
            let first = if replay.bps.len() > 0 {
                Some(replay.bps[0])
            } else {
                None
            };
            let own = if covers(replay.bps, from as int, line) {
                Some(replay.bps[line - from])
            } else {
                None
            };
            let version = next.flushed_ops[line - snap];
            let bp = next.flushed_ops_bp_per_slot[line - snap];
            &&& next.flushed_ops_start == Some(snap)
            &&& next.flushed_ops.len() == replay.ops.len()
            &&& if !covers(replay.corrections, from as int, line) {
                version == outer && bp == info
            } else if nested_stands(outer, inner, info, first, own) {
                version == inner
            } else if nested_reshapes(outer, inner, info, first) {
                version == if has_excess(outer, inner, st.shadow.scopes) {
                    inner
                } else {
                    corrections::compensated(Seq::empty(), outer, inner, 0)
                }
            } else {
                version == outer && bp == info
            }
            &&& bp.stack_depth == info.stack_depth && bp.line_number == info.line_number
            &&& covers(replay.corrections, from as int, line) && (nested_stands(
                outer,
                inner,
                info,
                first,
                own,
            ) || nested_reshapes(outer, inner, info, first)) ==> (bp.inner_producer matches Some(
                p,
            ) && *p == if own is Some {
                own->0
            } else {
                first->0
            })
        }),
{
    let outer = replay.ops[line - snap];
    let inner = replay.corrections[line - from];
    lemma_reshapes(outer, inner);
    assert(inner.len() > outer.len() ==> (inner.subrange(0, outer.len() as int) == outer
        <==> outer.is_prefix_of(inner)));
    assert(corrections::extends_by_pops(outer, inner) == only_pops_more(outer, inner));
    let scopes = st.shadow.scopes;
    assert(corrections::would_double(outer, inner, scopes) == has_excess(outer, inner, scopes)) by {
        if has_excess(outer, inner, scopes) {
            let k = choose|k: int|
                0 <= k < scopes.len() && excess(outer, inner, #[trigger] scopes[k]) > 0;
            lemma_excess(outer, inner, scopes[k]);
        }
        if corrections::would_double(outer, inner, scopes) {
            let k = choose|k: int|
                0 <= k < scopes.len() && corrections::over_pushed(
                    outer,
                    inner,
                    #[trigger] scopes[k],
                ) > 0;
            lemma_excess(outer, inner, scopes[k]);
        }
    }
}

} // verus!
