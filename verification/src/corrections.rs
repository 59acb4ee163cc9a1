//! Arbitration between corrected operations: which replay's version of a line
//! is kept.

use crate::scope;
use crate::scope::{Op, Scope, ScopeStackOp, StackV};
use crate::state::{clone_ops, BpInfo, BpInfoV, ParseState, StateV};
use crate::views;
use vstd::prelude::*;

verus! {

broadcast use crate::views::group_views;

/// The greatest depth of an attribution and the producers nested in it.
pub open spec fn effective_depth(bp: BpInfoV) -> usize
    decreases bp,
{
    match bp.inner_producer {
        Some(inner) => if effective_depth(*inner) > bp.stack_depth {
            effective_depth(*inner)
        } else {
            bp.stack_depth
        },
        None => bp.stack_depth,
    }
}

/// The line of the attribution of the first new slot.
pub open spec fn first_line_of(bps: Seq<BpInfoV>) -> usize {
    if bps.len() > 0 {
        bps[0].line_number
    } else {
        0
    }
}

/// Whether the new slot `j` gives way to a prior one that was written by a branch
/// point of a later line, the prior slots starting `shift` slots later.
pub open spec fn yields_to_later(
    prior: Seq<BpInfoV>,
    n: int,
    shift: int,
    line: usize,
    j: int,
) -> bool {
    0 <= j - shift < n && j - shift < prior.len() && prior[j - shift].line_number > line
}

/// Whether the new slot `j - keep` gives way to the prior slot `j`, which a
/// deeper branch point produced.
pub open spec fn yields_to_deeper(
    prior: Seq<BpInfoV>,
    n: int,
    new: Seq<BpInfoV>,
    keep: int,
    j: int,
) -> bool {
    0 <= j < n && j < prior.len() && 0 <= j - keep < new.len() && effective_depth(prior[j])
        > effective_depth(new[j - keep])
}

/// The state after a replay delivered corrected operations for the pending lines
/// from `snap` on. Corrections of earlier lines stay; where both correct a line,
/// the new version wins, unless it starts no later and the prior one comes from a
/// later line, or it starts later and the prior one comes from a deeper branch
/// point.
pub open spec fn merged(st: StateV, snap: usize, new_ops: Seq<Seq<Op>>, new_bps: Seq<BpInfoV>) -> StateV {
    let prior = st.flushed_ops;
    let prior_bps = st.flushed_ops_bp_per_slot;
    match st.flushed_ops_start {
        None => StateV {
            flushed_ops: new_ops,
            flushed_ops_start: Some(snap),
            flushed_ops_bp_per_slot: new_bps,
            ..st
        },
        Some(start) => if snap <= start {
            let shift = start - snap;
            let line = first_line_of(new_bps);
            StateV {
                flushed_ops: Seq::new(
                    new_ops.len(),
                    |j: int|
                        if yields_to_later(prior_bps, prior.len() as int, shift, line, j) {
                            prior[j - shift]
                        } else {
                            new_ops[j]
                        },
                ),
                flushed_ops_start: Some(snap),
                flushed_ops_bp_per_slot: Seq::new(
                    new_bps.len(),
                    |j: int|
                        if yields_to_later(prior_bps, prior.len() as int, shift, line, j) {
                            prior_bps[j - shift]
                        } else {
                            new_bps[j]
                        },
                ),
                ..st
            }
        } else {
            let keep = scope::least(snap - start, prior.len() as int);
            let keep_bps = scope::least(snap - start, prior_bps.len() as int);
            StateV {
                flushed_ops: Seq::new(
                    (keep + new_ops.len()) as nat,
                    |j: int|
                        if j < keep || yields_to_deeper(
                            prior_bps,
                            prior.len() as int,
                            new_bps,
                            keep,
                            j,
                        ) {
                            prior[j]
                        } else {
                            new_ops[j - keep]
                        },
                ),
                flushed_ops_bp_per_slot: Seq::new(
                    (keep_bps + new_bps.len()) as nat,
                    |j: int|
                        if j < keep_bps || yields_to_deeper(
                            prior_bps,
                            prior.len() as int,
                            new_bps,
                            keep_bps,
                            j,
                        ) {
                            prior_bps[j]
                        } else {
                            new_bps[j - keep_bps]
                        },
                ),
                ..st
            }
        },
    }
}

impl ParseState {
    /// See [`effective_depth`].
    fn effective_producer_depth(bp: &BpInfo) -> (r: usize)
        ensures
            r == effective_depth(bp@),
    {
        let mut d: usize = bp.stack_depth;
        let mut cur: &Option<Box<BpInfo>> = &bp.inner_producer;
        proof {
            reveal_with_fuel(crate::state::bp_info_view, 2);
        }
        loop
            invariant
                effective_depth(bp@) == match *cur {
                    Some(inner) => if effective_depth(inner@) > d {
                        effective_depth(inner@)
                    } else {
                        d
                    },
                    None => d,
                },
            ensures
                d == effective_depth(bp@),
            decreases *cur,
        {
            match cur {
                None => {
                    break ;
                },
                Some(inner) => {
                    if inner.stack_depth > d {
                        d = inner.stack_depth;
                    }
                    cur = &inner.inner_producer;
                },
            }
        }
        d
    }

    /// Takes over the corrected operations of a replay. See [`merged`].
    pub(crate) fn merge_flushed(
        &mut self,
        snap: usize,
        new_ops: Vec<Vec<Op>>,
        new_bps: Vec<BpInfo>,
    )
        ensures
            final(self)@ == merged(old(self)@, snap, views::of(new_ops@), views::of(new_bps@)),
    {
        match self.flushed_ops_start {
            None => {
                self.flushed_ops = new_ops;
                self.flushed_ops_start = Some(snap);
                self.flushed_ops_bp_per_slot = new_bps;
            },
            Some(start) => {
                if snap <= start {
                    self.merge_earlier(snap, start, new_ops, new_bps);
                } else {
                    self.merge_later(snap, start, new_ops, new_bps);
                }
            },
        }
    }

    /// [`merge_flushed`](ParseState::merge_flushed) of a replay that starts no
    /// later than the corrections already there.
    fn merge_earlier(&mut self, snap: usize, start: usize, new_ops: Vec<Vec<Op>>, new_bps: Vec<BpInfo>)
        requires
            old(self)@.flushed_ops_start == Some(start),
            snap <= start,
        ensures
            final(self)@ == merged(old(self)@, snap, views::of(new_ops@), views::of(new_bps@)),
    {
        let shift: usize = start - snap;
        let line: usize = if new_bps.len() > 0 {
            new_bps[0].line_number
        } else {
            0
        };
        let prior_len: usize = self.flushed_ops.len();
        let ghost goal = merged(self@, snap, views::of(new_ops@), views::of(new_bps@));
        let mut composed_ops: Vec<Vec<Op>> = Vec::new();
        for j in 0..new_ops.len()
            invariant
                prior_len == self.flushed_ops@.len(),
                goal == merged(self@, snap, views::of(new_ops@), views::of(new_bps@)),
                self@.flushed_ops_start == Some(start),
                snap <= start,
                shift == start - snap,
                line == first_line_of(views::of(new_bps@)),
                composed_ops@.len() == j,
                forall|k: int| 0 <= k < j ==> (#[trigger] composed_ops@[k])@ == goal.flushed_ops[k],
        {
            let yields = j >= shift && j - shift < prior_len && j - shift
                < self.flushed_ops_bp_per_slot.len() && self.flushed_ops_bp_per_slot[j
                - shift].line_number > line;
            if yields {
                composed_ops.push(clone_ops(&self.flushed_ops[j - shift]));
            } else {
                composed_ops.push(clone_ops(&new_ops[j]));
            }
        }
        let mut composed_bps: Vec<BpInfo> = Vec::new();
        for j in 0..new_bps.len()
            invariant
                prior_len == self.flushed_ops@.len(),
                goal == merged(self@, snap, views::of(new_ops@), views::of(new_bps@)),
                self@.flushed_ops_start == Some(start),
                snap <= start,
                shift == start - snap,
                line == first_line_of(views::of(new_bps@)),
                composed_bps@.len() == j,
                forall|k: int|
                    0 <= k < j ==> (#[trigger] composed_bps@[k])@
                        == goal.flushed_ops_bp_per_slot[k],
        {
            let yields = j >= shift && j - shift < prior_len && j - shift
                < self.flushed_ops_bp_per_slot.len() && self.flushed_ops_bp_per_slot[j
                - shift].line_number > line;
            if yields {
                composed_bps.push(self.flushed_ops_bp_per_slot[j - shift].clone());
            } else {
                composed_bps.push(new_bps[j].clone());
            }
        }
        self.flushed_ops = composed_ops;
        self.flushed_ops_start = Some(snap);
        self.flushed_ops_bp_per_slot = composed_bps;
        assert(self@ =~= goal);
    }

    /// [`merge_flushed`](ParseState::merge_flushed) of a replay that starts later
    /// than the corrections already there.
    fn merge_later(&mut self, snap: usize, start: usize, new_ops: Vec<Vec<Op>>, new_bps: Vec<BpInfo>)
        requires
            old(self)@.flushed_ops_start == Some(start),
            snap > start,
        ensures
            final(self)@ == merged(old(self)@, snap, views::of(new_ops@), views::of(new_bps@)),
    {
        let ghost goal = merged(self@, snap, views::of(new_ops@), views::of(new_bps@));
        let ghost st = self@;
        let prior_len: usize = self.flushed_ops.len();
        let keep: usize = if snap - start <= prior_len {
            snap - start
        } else {
            prior_len
        };
        let mut composed_ops: Vec<Vec<Op>> = Vec::new();
        for j in 0..keep
            invariant
                st == self@,
                prior_len == self.flushed_ops@.len(),
                goal == merged(st, snap, views::of(new_ops@), views::of(new_bps@)),
                st.flushed_ops_start == Some(start),
                snap > start,
                keep == scope::least(snap - start, prior_len as int),
                composed_ops@.len() == j,
                forall|k: int| 0 <= k < j ==> (#[trigger] composed_ops@[k])@ == goal.flushed_ops[k],
        {
            composed_ops.push(clone_ops(&self.flushed_ops[j]));
        }
        for i in 0..new_ops.len()
            invariant
                st == self@,
                prior_len == self.flushed_ops@.len(),
                goal == merged(st, snap, views::of(new_ops@), views::of(new_bps@)),
                st.flushed_ops_start == Some(start),
                snap > start,
                keep == scope::least(snap - start, prior_len as int),
                composed_ops@.len() == keep + i,
                forall|k: int|
                    0 <= k < keep + i ==> (#[trigger] composed_ops@[k])@ == goal.flushed_ops[k],
        {
            let yields = i < prior_len - keep && keep + i < self.flushed_ops_bp_per_slot.len() && i
                < new_bps.len() && Self::effective_producer_depth(
                &self.flushed_ops_bp_per_slot[keep + i],
            ) > Self::effective_producer_depth(&new_bps[i]);
            assert(yields == yields_to_deeper(
                st.flushed_ops_bp_per_slot,
                st.flushed_ops.len() as int,
                views::of(new_bps@),
                keep as int,
                keep + i,
            ));
            if yields {
                composed_ops.push(clone_ops(&self.flushed_ops[keep + i]));
            } else {
                composed_ops.push(clone_ops(&new_ops[i]));
            }
        }
        let bp_len: usize = self.flushed_ops_bp_per_slot.len();
        let keep_bps: usize = if snap - start <= bp_len {
            snap - start
        } else {
            bp_len
        };
        let mut composed_bps: Vec<BpInfo> = Vec::new();
        for j in 0..keep_bps
            invariant
                st == self@,
                bp_len == self.flushed_ops_bp_per_slot@.len(),
                goal == merged(st, snap, views::of(new_ops@), views::of(new_bps@)),
                st.flushed_ops_start == Some(start),
                snap > start,
                keep_bps == scope::least(snap - start, bp_len as int),
                composed_bps@.len() == j,
                forall|k: int|
                    0 <= k < j ==> (#[trigger] composed_bps@[k])@
                        == goal.flushed_ops_bp_per_slot[k],
        {
            composed_bps.push(self.flushed_ops_bp_per_slot[j].clone());
        }
        for i in 0..new_bps.len()
            invariant
                st == self@,
                prior_len == self.flushed_ops@.len(),
                bp_len == self.flushed_ops_bp_per_slot@.len(),
                goal == merged(st, snap, views::of(new_ops@), views::of(new_bps@)),
                st.flushed_ops_start == Some(start),
                snap > start,
                keep_bps == scope::least(snap - start, bp_len as int),
                composed_bps@.len() == keep_bps + i,
                forall|k: int|
                    0 <= k < keep_bps + i ==> (#[trigger] composed_bps@[k])@
                        == goal.flushed_ops_bp_per_slot[k],
        {
            let yields = i < bp_len - keep_bps && keep_bps + i < prior_len
                && Self::effective_producer_depth(&self.flushed_ops_bp_per_slot[keep_bps + i])
                > Self::effective_producer_depth(&new_bps[i]);
            assert(yields == yields_to_deeper(
                st.flushed_ops_bp_per_slot,
                st.flushed_ops.len() as int,
                views::of(new_bps@),
                keep_bps as int,
                keep_bps + i,
            ));
            if yields {
                composed_bps.push(self.flushed_ops_bp_per_slot[keep_bps + i].clone());
            } else {
                composed_bps.push(new_bps[i].clone());
            }
        }
        self.flushed_ops = composed_ops;
        self.flushed_ops_bp_per_slot = composed_bps;
        assert(self@ =~= goal);
    }
}

/// What kind of operation it is.
#[derive(Clone, Copy, Debug, PartialEq, Eq, Structural)]
pub enum OpKind {
    Push,
    Pop,
    Clear,
    Restore,
    Noop,
}

/// An operation in short: where, of which kind, and the scope if it pushes one.
#[derive(Clone, Copy, Debug)]
pub struct OpSummary {
    pub pos: usize,
    pub kind: OpKind,
    pub scope: Option<Scope>,
}

/// See [`OpSummary`].
pub open spec fn summarized(entry: Op) -> OpSummary {
    OpSummary {
        pos: entry.0,
        kind: match entry.1 {
            ScopeStackOp::Push(_) => OpKind::Push,
            ScopeStackOp::Pop(_) => OpKind::Pop,
            ScopeStackOp::Clear(_) => OpKind::Clear,
            ScopeStackOp::Restore => OpKind::Restore,
            ScopeStackOp::Noop => OpKind::Noop,
        },
        scope: match entry.1 {
            ScopeStackOp::Push(s) => Some(s),
            _ => None,
        },
    }
}

/// The length of the longest common prefix of `a` and `b`, which agree up to `i`.
pub open spec fn agreement(a: Seq<Op>, b: Seq<Op>, i: int) -> int
    decreases a.len() - i,
{
    if 0 <= i < a.len() && i < b.len() && a[i] == b[i] {
        agreement(a, b, i + 1)
    } else {
        i
    }
}

/// The summary of the operation at `i`, if there is one.
pub open spec fn summary_at(ops: Seq<Op>, i: int) -> Option<OpSummary> {
    if 0 <= i < ops.len() {
        Some(summarized(ops[i]))
    } else {
        None
    }
}

/// `acc`, then the meta scopes that `ops[i..]` push.
pub open spec fn meta_pushes(acc: Seq<Scope>, ops: Seq<Op>, i: int) -> Seq<Scope>
    decreases ops.len() - i,
{
    if i < 0 || i >= ops.len() {
        acc
    } else {
        match ops[i].1 {
            ScopeStackOp::Push(s) => if scope::is_meta(s) {
                meta_pushes(acc.push(s), ops, i + 1)
            } else {
                meta_pushes(acc, ops, i + 1)
            },
            _ => meta_pushes(acc, ops, i + 1),
        }
    }
}

/// Whether both lists go on after their common prefix, and `inner` pushes a meta
/// scope that `outer` does not.
pub open spec fn replace_shape(outer: Seq<Op>, inner: Seq<Op>) -> bool {
    let n = agreement(outer, inner, 0);
    n < outer.len() && n < inner.len() && exists|k: int|
        0 <= k < meta_pushes(Seq::empty(), inner, 0).len() && !meta_pushes(
            Seq::empty(),
            outer,
            0,
        ).contains(#[trigger] meta_pushes(Seq::empty(), inner, 0)[k])
}

/// What pushes and pops of `ops[i..]` leave of a stack; other operations count
/// for nothing.
pub open spec fn net_stack(stack: Seq<Scope>, ops: Seq<Op>, i: int) -> Seq<Scope>
    decreases ops.len() - i,
{
    if i < 0 || i >= ops.len() {
        stack
    } else {
        match ops[i].1 {
            ScopeStackOp::Push(s) => net_stack(stack.push(s), ops, i + 1),
            ScopeStackOp::Pop(n) => net_stack(
                stack.subrange(0, stack.len() - scope::least(n as int, stack.len() as int)),
                ops,
                i + 1,
            ),
            _ => net_stack(stack, ops, i + 1),
        }
    }
}

/// How often `x` occurs in `s`.
pub open spec fn occurrences(s: Seq<Scope>, x: Scope) -> nat
    decreases s.len(),
{
    if s.len() == 0 {
        0
    } else {
        occurrences(s.drop_last(), x) + if s.last() == x {
            1nat
        } else {
            0nat
        }
    }
}

/// How many more copies of the meta scope `x` the operations `inner` leave on
/// an empty stack than `outer` does.
pub open spec fn over_pushed(outer: Seq<Op>, inner: Seq<Op>, x: Scope) -> nat {
    let more = occurrences(net_stack(Seq::empty(), inner, 0), x);
    let fewer = occurrences(net_stack(Seq::empty(), outer, 0), x);
    if scope::is_meta(x) && more > fewer {
        (more - fewer) as nat
    } else {
        0
    }
}

/// Whether a scope on the consumer's stack is one that `inner` over-pushes.
pub open spec fn would_double(outer: Seq<Op>, inner: Seq<Op>, scopes: Seq<Scope>) -> bool {
    exists|k: int| 0 <= k < scopes.len() && over_pushed(outer, inner, #[trigger] scopes[k]) > 0
}

/// How many of the operations `ops[..i]` push `x`.
pub open spec fn pushes_before(ops: Seq<Op>, i: int, x: Scope) -> nat
    decreases i,
{
    if i <= 0 || i > ops.len() {
        0
    } else {
        pushes_before(ops, i - 1, x) + if ops[i - 1].1 == ScopeStackOp::Push(x) {
            1nat
        } else {
            0nat
        }
    }
}

/// `acc`, then `inner[i..]`, with a `Pop` right after each of the first pushes
/// of a scope that is over-pushed, as many as it is over-pushed.
pub open spec fn compensated(acc: Seq<Op>, outer: Seq<Op>, inner: Seq<Op>, i: int) -> Seq<Op>
    decreases inner.len() - i,
{
    if i < 0 || i >= inner.len() {
        acc
    } else {
        let next = acc.push(inner[i]);
        match inner[i].1 {
            ScopeStackOp::Push(x) => if pushes_before(inner, i, x) < over_pushed(outer, inner, x) {
                compensated(next.push((inner[i].0, ScopeStackOp::Pop(1))), outer, inner, i + 1)
            } else {
                compensated(next, outer, inner, i + 1)
            },
            _ => compensated(next, outer, inner, i + 1),
        }
    }
}

/// Whether `inner` is `outer` followed by pops alone, at positions that `outer`
/// already covers.
pub open spec fn extends_by_pops(outer: Seq<Op>, inner: Seq<Op>) -> bool {
    let reach = if outer.len() > 0 {
        outer.last().0
    } else {
        0
    };
    &&& inner.len() > outer.len()
    &&& inner.subrange(0, outer.len() as int) == outer
    &&& forall|k: int|
        outer.len() <= k < inner.len() ==> (#[trigger] inner[k]).0 <= reach && inner[k].1 is Pop
}

/// The attribution of a slot of `outer` that `producer` wrote.
pub open spec fn attributed(outer: BpInfoV, producer: BpInfoV) -> BpInfoV {
    BpInfoV { inner_producer: Some(Box::new(producer)), ..outer }
}

/// Which version of a line is kept when a replay of `outer_bp` met a nested
/// correction of it, and the attribution. The nested version wins where its
/// branch point is as deep as the outer one or one deeper, or of a later line;
/// where it only adds pops; or where it takes another shape, and then with what
/// it over-pushes popped again unless the consumer already has it.
pub open spec fn preferred_slot(
    outer_ops: Seq<Op>,
    slot_bp: BpInfoV,
    inner_ops: Seq<Op>,
    slot_inner: Option<BpInfoV>,
    outer_bp: BpInfoV,
    inner_bp: Option<BpInfoV>,
    shadow: StackV,
) -> (Seq<Op>, BpInfoV) {
    let later = slot_inner is Some && slot_inner->0.line_number > outer_bp.line_number;
    let diff = inner_bp->0.stack_depth - outer_bp.stack_depth;
    let producer = if slot_inner is Some {
        slot_inner->0
    } else {
        inner_bp->0
    };
    if (inner_bp is Some && (diff == 0 || diff == 1)) || later || (inner_bp is Some && diff > 1
        && extends_by_pops(outer_ops, inner_ops)) {
        (inner_ops, attributed(outer_bp, producer))
    } else if inner_bp is Some && diff >= 0 && replace_shape(outer_ops, inner_ops) {
        (
            if would_double(outer_ops, inner_ops, shadow.scopes) {
                inner_ops
            } else {
                compensated(Seq::empty(), outer_ops, inner_ops, 0)
            },
            attributed(outer_bp, producer),
        )
    } else {
        (outer_ops, slot_bp)
    }
}

/// The slot `i` after arbitration with nested corrections that start at
/// `inner_start`, the replay starting at `outer_snap`.
pub open spec fn arbitrated_slot(
    i: int,
    outer_snap: usize,
    ops: Seq<Seq<Op>>,
    bps: Seq<BpInfoV>,
    inner_ops: Seq<Seq<Op>>,
    inner_start: usize,
    outer_bp: BpInfoV,
    inner_bps: Seq<BpInfoV>,
    shadow: StackV,
) -> (Seq<Op>, BpInfoV) {
    let k = outer_snap + i - inner_start;
    if 0 <= k < inner_ops.len() {
        preferred_slot(
            ops[i],
            bps[i],
            inner_ops[k],
            if k < inner_bps.len() {
                Some(inner_bps[k])
            } else {
                None
            },
            outer_bp,
            if inner_bps.len() > 0 {
                Some(inner_bps[0])
            } else {
                None
            },
            shadow,
        )
    } else {
        (ops[i], bps[i])
    }
}

fn is_over_pushed(outer_net: &Vec<Scope>, inner_net: &Vec<Scope>, x: Scope) -> (r: usize)
    ensures
        r == if scope::is_meta(x) && occurrences(inner_net@, x) > occurrences(outer_net@, x) {
            occurrences(inner_net@, x) - occurrences(outer_net@, x)
        } else {
            0
        },
{
    if !x.is_meta_scope() {
        return 0;
    }
    let more: usize = count_scope(inner_net, x);
    let fewer: usize = count_scope(outer_net, x);
    if more > fewer {
        more - fewer
    } else {
        0
    }
}

fn count_scope(v: &Vec<Scope>, x: Scope) -> (r: usize)
    ensures
        r == occurrences(v@, x),
        r <= v@.len(),
{
    let mut n: usize = 0;
    for i in 0..v.len()
        invariant
            n == occurrences(v@.subrange(0, i as int), x),
            n <= i,
    {
        proof {
            assert(v@.subrange(0, i + 1).drop_last() =~= v@.subrange(0, i as int));
        }
        if v[i] == x {
            n += 1;
        }
    }
    proof {
        assert(v@.subrange(0, v@.len() as int) =~= v@);
    }
    n
}

impl ParseState {
    /// See [`summarized`].
    fn summarize_op(entry: &Op) -> (r: OpSummary)
        ensures
            r == summarized(*entry),
    {
        let (kind, scope) = match entry.1 {
            ScopeStackOp::Push(s) => (OpKind::Push, Some(s)),
            ScopeStackOp::Pop(_) => (OpKind::Pop, None),
            ScopeStackOp::Clear(_) => (OpKind::Clear, None),
            ScopeStackOp::Restore => (OpKind::Restore, None),
            ScopeStackOp::Noop => (OpKind::Noop, None),
        };
        OpSummary { pos: entry.0, kind, scope }
    }

    /// How far two lists of operations agree, and how each goes on then.
    fn ops_divergence(outer: &Vec<Op>, inner: &Vec<Op>) -> (r: (
        usize,
        Option<OpSummary>,
        Option<OpSummary>,
    ))
        ensures
            r.0 == agreement(outer@, inner@, 0),
            r.1 == summary_at(outer@, r.0 as int),
            r.2 == summary_at(inner@, r.0 as int),
    {
        let mut prefix: usize = 0;
        while prefix < outer.len() && prefix < inner.len() && outer[prefix].0 == inner[prefix].0
            && outer[prefix].1 == inner[prefix].1
            invariant
                prefix <= outer@.len(),
                prefix <= inner@.len(),
                agreement(outer@, inner@, prefix as int) == agreement(outer@, inner@, 0),
            decreases outer@.len() - prefix,
        {
            prefix += 1;
        }
        let outer_div = if prefix < outer.len() {
            Some(Self::summarize_op(&outer[prefix]))
        } else {
            None
        };
        let inner_div = if prefix < inner.len() {
            Some(Self::summarize_op(&inner[prefix]))
        } else {
            None
        };
        (prefix, outer_div, inner_div)
    }

    /// See [`meta_pushes`].
    fn collect_meta_scopes(ops: &Vec<Op>) -> (r: Vec<Scope>)
        ensures
            r@ == meta_pushes(Seq::empty(), ops@, 0),
    {
        let mut out: Vec<Scope> = Vec::new();
        let mut i: usize = 0;
        while i < ops.len()
            invariant
                i <= ops@.len(),
                meta_pushes(out@, ops@, i as int) == meta_pushes(Seq::empty(), ops@, 0),
            decreases ops@.len() - i,
        {
            if let ScopeStackOp::Push(s) = ops[i].1 {
                if s.is_meta_scope() {
                    out.push(s);
                }
            }
            i += 1;
        }
        out
    }

    /// Whether both lists diverge and `inner_meta` holds a scope that
    /// `outer_meta` does not.
    fn is_replace_shape(
        outer_div: &Option<OpSummary>,
        inner_div: &Option<OpSummary>,
        outer_meta: &Vec<Scope>,
        inner_meta: &Vec<Scope>,
    ) -> (r: bool)
        ensures
            r == (*outer_div is Some && *inner_div is Some && exists|k: int|
                0 <= k < inner_meta@.len() && !outer_meta@.contains(#[trigger] inner_meta@[k])),
    {
        if outer_div.is_none() || inner_div.is_none() {
            return false;
        }
        for i in 0..inner_meta.len()
            invariant
                *outer_div is Some,
                *inner_div is Some,
                forall|k: int| 0 <= k < i ==> outer_meta@.contains(#[trigger] inner_meta@[k]),
        {
            let mut known = false;
            for j in 0..outer_meta.len()
                invariant
                    i < inner_meta@.len(),
                    known == exists|k: int| 0 <= k < j && #[trigger] outer_meta@[k] == inner_meta@[i as int],
            {
                if outer_meta[j] == inner_meta[i] {
                    known = true;
                }
            }
            if !known {
                assert(!outer_meta@.contains(inner_meta@[i as int]));
                return true;
            }
        }
        false
    }

    /// The scopes that pushes and pops of `ops` leave on an empty stack.
    fn net_meta_delta(ops: &Vec<Op>) -> (r: Vec<Scope>)
        ensures
            r@ == net_stack(Seq::empty(), ops@, 0),
    {
        let mut stack: Vec<Scope> = Vec::new();
        let mut i: usize = 0;
        while i < ops.len()
            invariant
                i <= ops@.len(),
                net_stack(stack@, ops@, i as int) == net_stack(Seq::empty(), ops@, 0),
            decreases ops@.len() - i,
        {
            match ops[i].1 {
                ScopeStackOp::Push(s) => {
                    stack.push(s);
                },
                ScopeStackOp::Pop(n) => {
                    let len: usize = stack.len();
                    let k: usize = if n <= len {
                        n
                    } else {
                        len
                    };
                    stack.truncate(len - k);
                },
                _ => {},
            }
            i += 1;
        }
        stack
    }

    /// See [`extends_by_pops`].
    fn inner_extends_outer(outer: &Vec<Op>, inner: &Vec<Op>) -> (r: bool)
        ensures
            r == extends_by_pops(outer@, inner@),
    {
        if inner.len() <= outer.len() {
            return false;
        }
        for i in 0..outer.len()
            invariant
                inner@.len() > outer@.len(),
                inner@.subrange(0, i as int) =~= outer@.subrange(0, i as int),
        {
            if outer[i].0 != inner[i].0 || outer[i].1 != inner[i].1 {
                assert(inner@.subrange(0, outer@.len() as int)[i as int] != outer@[i as int]);
                return false;
            }
        }
        assert(inner@.subrange(0, outer@.len() as int) =~= outer@);
        let reach: usize = if outer.len() > 0 {
            outer[outer.len() - 1].0
        } else {
            0
        };
        for i in outer.len()..inner.len()
            invariant
                inner@.len() > outer@.len(),
                reach == if outer@.len() > 0 {
                    outer@.last().0
                } else {
                    0
                },
                forall|k: int|
                    outer@.len() <= k < i ==> (#[trigger] inner@[k]).0 <= reach && inner@[k].1 is Pop,
        {
            let pops = match inner[i].1 {
                ScopeStackOp::Pop(_) => true,
                _ => false,
            };
            if !(inner[i].0 <= reach && pops) {
                assert(!(inner@[i as int].0 <= reach && inner@[i as int].1 is Pop));
                return false;
            }
        }
        true
    }

    /// See [`compensated`].
    fn compensate(inner: &Vec<Op>, outer: &Vec<Op>, outer_net: &Vec<Scope>, inner_net: &Vec<Scope>) -> (r: Vec<
        Op,
    >)
        requires
            outer_net@ == net_stack(Seq::empty(), outer@, 0),
            inner_net@ == net_stack(Seq::empty(), inner@, 0),
        ensures
            r@ == compensated(Seq::empty(), outer@, inner@, 0),
    {
        let mut out: Vec<Op> = Vec::new();
        let mut i: usize = 0;
        while i < inner.len()
            invariant
                outer_net@ == net_stack(Seq::empty(), outer@, 0),
                inner_net@ == net_stack(Seq::empty(), inner@, 0),
                i <= inner@.len(),
                compensated(out@, outer@, inner@, i as int) == compensated(
                    Seq::empty(),
                    outer@,
                    inner@,
                    0,
                ),
            decreases inner@.len() - i,
        {
            out.push(inner[i]);
            if let ScopeStackOp::Push(x) = inner[i].1 {
                let mut before: usize = 0;
                for j in 0..i
                    invariant
                        i < inner@.len(),
                        before == pushes_before(inner@, j as int, x),
                        before <= j,
                {
                    if inner[j].1 == ScopeStackOp::Push(x) {
                        before += 1;
                    }
                }
                if before < is_over_pushed(outer_net, inner_net, x) {
                    out.push((inner[i].0, ScopeStackOp::Pop(1)));
                }
            }
            i += 1;
        }
        out
    }

    /// See [`would_double`].
    fn doubles(&self, outer_net: &Vec<Scope>, inner_net: &Vec<Scope>, Ghost(outer): Ghost<Seq<Op>>, Ghost(inner): Ghost<Seq<Op>>) -> (r: bool)
        requires
            outer_net@ == net_stack(Seq::empty(), outer, 0),
            inner_net@ == net_stack(Seq::empty(), inner, 0),
        ensures
            r == would_double(outer, inner, self@.shadow.scopes),
    {
        let scopes = self.shadow.as_slice();
        for i in 0..scopes.len()
            invariant
                outer_net@ == net_stack(Seq::empty(), outer, 0),
                inner_net@ == net_stack(Seq::empty(), inner, 0),
                scopes@ == self@.shadow.scopes,
                forall|k: int| 0 <= k < i ==> over_pushed(outer, inner, #[trigger] scopes@[k]) == 0,
        {
            if is_over_pushed(outer_net, inner_net, scopes[i]) > 0 {
                assert(over_pushed(outer, inner, scopes@[i as int]) > 0);
                return true;
            }
        }
        false
    }

    /// See [`preferred_slot`].
    fn prefer_slot(
        &self,
        outer_ops: &Vec<Op>,
        slot_bp: &BpInfo,
        inner_ops: &Vec<Op>,
        slot_inner: Option<&BpInfo>,
        outer_bp: &BpInfo,
        inner_bp: Option<&BpInfo>,
    ) -> (r: (Vec<Op>, BpInfo))
        ensures
            (r.0@, r.1@) == preferred_slot(
                outer_ops@,
                slot_bp@,
                inner_ops@,
                match slot_inner {
                    Some(b) => Some(b@),
                    None => None,
                },
                outer_bp@,
                match inner_bp {
                    Some(b) => Some(b@),
                    None => None,
                },
                self@.shadow,
            ),
    {
        proof {
            reveal_with_fuel(crate::state::bp_info_view, 2);
        }
        let producer = match slot_inner {
            Some(b) => Some(b),
            None => inner_bp,
        };
        let producer = match producer {
            Some(b) => b,
            None => {
                return (clone_ops(outer_ops), slot_bp.clone());
            },
        };
        let later = match slot_inner {
            Some(b) => b.line_number > outer_bp.line_number,
            None => false,
        };
        let near = match inner_bp {
            Some(b) => b.stack_depth >= outer_bp.stack_depth && b.stack_depth
                - outer_bp.stack_depth <= 1,
            None => false,
        };
        let below = match inner_bp {
            Some(b) => b.stack_depth >= outer_bp.stack_depth,
            None => false,
        };
        let attribution = BpInfo {
            name: outer_bp.name.clone(),
            stack_depth: outer_bp.stack_depth,
            line_number: outer_bp.line_number,
            inner_producer: Some(Box::new(producer.clone())),
        };
        if near || later || (below && Self::inner_extends_outer(outer_ops, inner_ops)) {
            return (clone_ops(inner_ops), attribution);
        }
        if below {
            let (_, outer_div, inner_div) = Self::ops_divergence(outer_ops, inner_ops);
            let outer_meta = Self::collect_meta_scopes(outer_ops);
            let inner_meta = Self::collect_meta_scopes(inner_ops);
            if Self::is_replace_shape(&outer_div, &inner_div, &outer_meta, &inner_meta) {
                let outer_net = Self::net_meta_delta(outer_ops);
                let inner_net = Self::net_meta_delta(inner_ops);
                if self.doubles(&outer_net, &inner_net, Ghost(outer_ops@), Ghost(inner_ops@)) {
                    return (clone_ops(inner_ops), attribution);
                } else {
                    return (
                        Self::compensate(inner_ops, outer_ops, &outer_net, &inner_net),
                        attribution,
                    );
                }
            }
        }
        (clone_ops(outer_ops), slot_bp.clone())
    }

    /// Lets nested corrections of the replayed lines win where they should. See
    /// [`arbitrated_slot`].
    pub(crate) fn prefer_inner_replay_corrections(
        &self,
        outer_snap: usize,
        replayed_ops: Vec<Vec<Op>>,
        replayed_bps: Vec<BpInfo>,
        inner_ops: &Vec<Vec<Op>>,
        inner_start: usize,
        outer_bp: &BpInfo,
        inner_bps: &Vec<BpInfo>,
    ) -> (r: (Vec<Vec<Op>>, Vec<BpInfo>))
        requires
            replayed_ops@.len() == replayed_bps@.len(),
        ensures
            r.0@.len() == replayed_ops@.len(),
            r.1@.len() == replayed_ops@.len(),
            forall|i: int|
                0 <= i < replayed_ops@.len() ==> (
                    (#[trigger] views::of(r.0@)[i], views::of(r.1@)[i])
                ) == arbitrated_slot(
                    i,
                    outer_snap,
                    views::of(replayed_ops@),
                    views::of(replayed_bps@),
                    views::of(inner_ops@),
                    inner_start,
                    outer_bp@,
                    views::of(inner_bps@),
                    self@.shadow,
                ),
    {
        let mut ops: Vec<Vec<Op>> = Vec::new();
        let mut bps: Vec<BpInfo> = Vec::new();
        for i in 0..replayed_ops.len()
            invariant
                replayed_ops@.len() == replayed_bps@.len(),
                ops@.len() == i,
                bps@.len() == i,
                forall|k: int|
                    0 <= k < i ==> ((#[trigger] views::of(ops@)[k], views::of(bps@)[k]))
                        == arbitrated_slot(
                        k,
                        outer_snap,
                        views::of(replayed_ops@),
                        views::of(replayed_bps@),
                        views::of(inner_ops@),
                        inner_start,
                        outer_bp@,
                        views::of(inner_bps@),
                        self@.shadow,
                    ),
        {
            let len: usize = inner_ops.len();
            let slot: Option<usize> = if outer_snap >= inner_start {
                let ahead: usize = outer_snap - inner_start;
                if ahead < len && i < len - ahead {
                    Some(i + ahead)
                } else {
                    None
                }
            } else {
                let behind: usize = inner_start - outer_snap;
                if i >= behind && i - behind < len {
                    Some(i - behind)
                } else {
                    None
                }
            };
            match slot {
                Some(k) => {
                    let slot_inner = if k < inner_bps.len() {
                        Some(&inner_bps[k])
                    } else {
                        None
                    };
                    let inner_bp = if inner_bps.len() > 0 {
                        Some(&inner_bps[0])
                    } else {
                        None
                    };
                    let (slot_ops, slot_bp) = self.prefer_slot(
                        &replayed_ops[i],
                        &replayed_bps[i],
                        &inner_ops[k],
                        slot_inner,
                        outer_bp,
                        inner_bp,
                    );
                    ops.push(slot_ops);
                    bps.push(slot_bp);
                },
                None => {
                    ops.push(clone_ops(&replayed_ops[i]));
                    bps.push(replayed_bps[i].clone());
                },
            }
        }
        (ops, bps)
    }
}

} // verus!
