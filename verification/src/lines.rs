//! The operations of every line: they come in order, lie within the line and
//! apply to a scope stack.

use crate::captures;
use crate::committed;
use crate::corrections;
use crate::embed;
use crate::emit;
use crate::engine;
use crate::engine::{CursorV, ReplayPlanV, ReplayV, StepV};
use crate::order;
use crate::parser;
use crate::parser::OutputV;
use crate::perform;
use crate::regex;
use crate::scope;
use crate::scope::{Op, ScopeStackOp, StackV};
use crate::search;
use crate::search::FoundV;
use crate::state;
use crate::state::{BpInfoV, BranchV, RegionV, StateV};
use crate::syntax;
use crate::syntax::{MatchOperation, MatchPattern, ReferenceV, SyntaxReference};
use crate::text;
use crate::views;
use crate::window;
use vstd::prelude::*;

verus! {

/// Whether operations restore no scopes, provided that no context clears any.
pub open spec fn quiet(ss: Seq<SyntaxReference>, ops: Seq<Op>) -> bool {
    order::clears_nothing(ss) ==> order::restores_nothing(ops)
}

/// Whether this holds of every line.
#[verifier::opaque]
pub open spec fn quiet_lines(ss: Seq<SyntaxReference>, lines: Seq<Seq<Op>>) -> bool {
    forall|k: int| 0 <= k < lines.len() ==> quiet(ss, #[trigger] lines[k])
}

/// What holds of a branch point: neither what comes before it nor its groups
/// restore scopes.
pub open spec fn quiet_branch(ss: Seq<SyntaxReference>, bp: BranchV) -> bool {
    quiet(ss, bp.prefix_ops) && order::restores_nothing(bp.capture_ops)
}

/// Whether this holds of all branch points.
pub open spec fn quiet_branches(ss: Seq<SyntaxReference>, bps: Seq<BranchV>) -> bool {
    forall|i: int| 0 <= i < bps.len() ==> quiet_branch(ss, #[trigger] bps[i])
}

/// What holds of the state at every step: its branch points are quiet, and so are
/// the corrections of pending lines.
pub open spec fn calm(ss: Seq<SyntaxReference>, st: StateV) -> bool {
    &&& quiet_branches(ss, st.branch_points)
    &&& st.replay_prefix_ops matches Some(prefix) ==> quiet(ss, prefix)
    &&& quiet_lines(ss, st.flushed_ops)
}

/// This and quiet operations after a step.
pub open spec fn calm_step(ss: Seq<SyntaxReference>, step: StepV) -> bool {
    calm(ss, step.0) && (step.1 matches Ok((cur, _)) ==> quiet(ss, cur.ops))
}

proof fn lemma_filtered(ss: Seq<SyntaxReference>, bps: Seq<BranchV>, p: spec_fn(BranchV) -> bool)
    requires
        quiet_branches(ss, bps),
    ensures
        quiet_branches(ss, bps.filter(p)),
{
    window::lemma_members(bps, p);
    let left = bps.filter(p);
    assert forall|i: int| 0 <= i < left.len() implies quiet_branch(ss, #[trigger] left[i]) by {
        let k = choose|k: int| 0 <= k < bps.len() && bps[k] == left[i];
        assert(quiet_branch(ss, bps[k]));
    }
}

proof fn lemma_live(ss: Seq<SyntaxReference>, bps: Seq<BranchV>, depth: int)
    requires
        quiet_branches(ss, bps),
    ensures
        quiet_branches(ss, perform::live_branches(bps, depth)),
{
    lemma_filtered(ss, bps, |bp: BranchV| state::alive(bp, depth));
}

proof fn lemma_removed(ss: Seq<SyntaxReference>, bps: Seq<BranchV>, index: int)
    requires
        quiet_branches(ss, bps),
        0 <= index < bps.len(),
    ensures
        quiet_branches(ss, bps.remove(index)),
{
    let left = bps.remove(index);
    assert forall|i: int| 0 <= i < left.len() implies quiet_branch(ss, #[trigger] left[i]) by {
        let j = if i < index {
            i
        } else {
            i + 1
        };
        assert(left[i] == bps[j]);
    }
}

proof fn lemma_updated(ss: Seq<SyntaxReference>, bps: Seq<BranchV>, index: int, bp: BranchV)
    requires
        quiet_branches(ss, bps),
        0 <= index < bps.len(),
        quiet_branch(ss, bp),
    ensures
        quiet_branches(ss, bps.update(index, bp)),
{
    let next = bps.update(index, bp);
    assert forall|i: int| 0 <= i < next.len() implies quiet_branch(ss, #[trigger] next[i]) by {
        if i != index {
            assert(next[i] == bps[i]);
        }
    }
}

proof fn lemma_performed_push(
    st: StateV,
    ss: Seq<SyntaxReference>,
    line: Seq<char>,
    region: RegionV,
    refs: Seq<ReferenceV>,
    pop_count: usize,
    with_prototype: Option<ReferenceV>,
)
    requires
        calm(ss, st),
    ensures
        calm(
            ss,
            perform::performed_push(st, ss, line, region, refs, pop_count, with_prototype).0,
        ),
{
    let base = perform::without_top(st.stack, pop_count as int);
    let depth = (base.len() as usize).saturating_add(refs.len() as usize);
    lemma_live(ss, st.branch_points, depth as int);
}

proof fn lemma_performed(
    st: StateV,
    ss: Seq<SyntaxReference>,
    line: Seq<char>,
    region: RegionV,
    op: MatchOperation,
    with_prototype: Option<ReferenceV>,
)
    requires
        calm(ss, st),
    ensures
        calm(ss, perform::performed(st, ss, line, region, op, with_prototype).0),
{
    match op {
        MatchOperation::Push { ctx_refs, pop_count } => {
            let refs = views::of(ctx_refs@);
            lemma_performed_push(st, ss, line, region, refs, pop_count, with_prototype);
        },
        MatchOperation::SetTo { ctx_refs, pop_count } => {
            let refs = views::of(ctx_refs@);
            let pops = crate::semantics::set_pops(pop_count);
            lemma_performed_push(st, ss, line, region, refs, pops, with_prototype);
        },
        MatchOperation::Embed { contexts, escape, pop_count } => {
            let base = perform::without_top(st.stack, pop_count as int);
            lemma_live(ss, st.branch_points, base.len() as int);
        },
        MatchOperation::Pop(n) => {
            let base = perform::without_top(st.stack, n as int);
            lemma_live(ss, st.branch_points, base.len() as int);
        },
        _ => {},
    }
}

proof fn lemma_escape(
    ss: Seq<SyntaxReference>,
    line: Seq<char>,
    st: StateV,
    cur: CursorV,
    found: FoundV,
)
    requires
        calm(ss, st),
        quiet(ss, cur.ops),
    ensures
        calm_step(ss, engine::escape_step(ss, line, st, cur, found)),
{
    let first = regex::whole(found.regions).0;
    if found.escape_index < st.escape_stack.len() {
        let entry = st.escape_stack[found.escape_index as int];
        if let Ok(expected) = embed::expected_depth(ss, st.stack, 0, 0, false) {
            let a = embed::without_orphans(cur.ops, st.shadow, first, expected);
            let (stack, r) = embed::unwound_to(a, ss, st.stack, first, entry.stack_depth);
            lemma_live(ss, st.branch_points, stack.len() as int);
            if let Ok(b) = r {
                let more = captures::group_ops(entry.captures, found.regions, false);
                captures::law_clipped_groups_stay_within(entry.captures, found.regions, false);
                if order::clears_nothing(ss) {
                    order::lemma_calm_unwound_to(a, ss, st.stack, first, entry.stack_depth);
                    assert(order::restores_nothing(b + more));
                }
            }
        }
    }
}

proof fn lemma_compensated(
    ss: Seq<SyntaxReference>,
    acc: Seq<Op>,
    outer: Seq<Op>,
    inner: Seq<Op>,
    i: int,
)
    requires
        quiet(ss, inner),
        quiet(ss, acc),
        0 <= i <= inner.len(),
    ensures
        quiet(ss, corrections::compensated(acc, outer, inner, i)),
    decreases inner.len() - i,
{
    if i < inner.len() {
        let next = acc.push(inner[i]);
        let more = next.push((inner[i].0, ScopeStackOp::Pop(1)));
        lemma_compensated(ss, next, outer, inner, i + 1);
        lemma_compensated(ss, more, outer, inner, i + 1);
    }
}

proof fn lemma_merged(
    ss: Seq<SyntaxReference>,
    st: StateV,
    snap: usize,
    new_ops: Seq<Seq<Op>>,
    new_bps: Seq<BpInfoV>,
)
    requires
        calm(ss, st),
        quiet_lines(ss, new_ops),
    ensures
        calm(ss, corrections::merged(st, snap, new_ops, new_bps)),
{
    reveal(quiet_lines);
    let next = corrections::merged(st, snap, new_ops, new_bps);
    let prior = st.flushed_ops;
    if let Some(start) = st.flushed_ops_start {
        if snap <= start {
            let shift = start - snap;
            assert forall|j: int| 0 <= j < next.flushed_ops.len() implies quiet(
                ss,
                #[trigger] next.flushed_ops[j],
            ) by {
                assert(quiet(ss, new_ops[j]));
                if 0 <= j - shift < prior.len() {
                    assert(quiet(ss, prior[j - shift]));
                }
            }
        } else {
            let keep = scope::least(snap - start, prior.len() as int);
            assert forall|j: int| 0 <= j < next.flushed_ops.len() implies quiet(
                ss,
                #[trigger] next.flushed_ops[j],
            ) by {
                if j >= keep {
                    assert(quiet(ss, new_ops[j - keep]));
                }
                if j < prior.len() {
                    assert(quiet(ss, prior[j]));
                }
            }
        }
    }
}

/// What holds of a replay.
pub open spec fn quiet_replay(ss: Seq<SyntaxReference>, replay: ReplayV) -> bool {
    quiet_lines(ss, replay.ops) && quiet_lines(ss, replay.corrections)
}

proof fn lemma_taken_over(
    ss: Seq<SyntaxReference>,
    st: StateV,
    info: BpInfoV,
    snap: usize,
    replay: ReplayV,
)
    requires
        calm(ss, st),
        quiet_replay(ss, replay),
    ensures
        calm(ss, engine::replay_taken(st, info, snap, replay)),
{
    let bps = Seq::new(replay.ops.len(), |i: int| info);
    if replay.start is Some && replay.corrections.len() > 0 {
        let start = replay.start->0;
        let slot = |i: int|
            corrections::arbitrated_slot(
                i,
                snap,
                replay.ops,
                bps,
                replay.corrections,
                start,
                info,
                replay.bps,
                st.shadow,
            );
        let ops = Seq::new(replay.ops.len(), |i: int| slot(i).0);
        reveal(quiet_lines);
        assert forall|i: int| 0 <= i < ops.len() implies quiet(ss, #[trigger] ops[i]) by {
            assert(quiet(ss, replay.ops[i]));
            let k = snap + i - start;
            if 0 <= k < replay.corrections.len() {
                assert(quiet(ss, replay.corrections[k]));
                assert(quiet(ss, Seq::<Op>::empty()));
                lemma_compensated(ss, Seq::empty(), replay.ops[i], replay.corrections[k], 0);
            }
            assert(ops[i] == slot(i).0);
        }
        lemma_merged(ss, st, snap, ops, Seq::new(replay.ops.len(), |i: int| slot(i).1));
    } else {
        lemma_merged(ss, st, snap, replay.ops, bps);
    }
}

proof fn lemma_alternative(
    ss: Seq<SyntaxReference>,
    st: StateV,
    bps: Seq<BranchV>,
    index: int,
    alt: int,
)
    requires
        calm(ss, st),
        quiet_branches(ss, bps),
        0 <= index < bps.len(),
    ensures
        calm(ss, engine::alternative_taken(st, bps, index, alt).0),
{
    let bp = bps[index];
    lemma_updated(ss, bps, index, BranchV { next_alternative: (alt + 1) as usize, ..bp });
}

/// The operations of another alternative of a branch point.
proof fn lemma_alternative_ops(ss: Seq<SyntaxReference>, acc: Seq<Op>, bp: BranchV, alt: int)
    requires
        quiet_branch(ss, bp),
        quiet(ss, acc),
    ensures
        engine::alternative_ops(acc, ss, bp, alt) matches Ok(ops) ==> quiet(ss, ops),
{
    if order::clears_nothing(ss) {
        order::lemma_calm_branch(
            acc,
            ss,
            bp.stack_snapshot,
            bp.trigger_match_start,
            bp.match_start,
            bp.pat_scope,
            bp.capture_ops,
            seq![bp.alternatives[alt]],
            bp.pop_count,
        );
    }
}

proof fn lemma_tokens(
    fuel: nat,
    ss: Seq<SyntaxReference>,
    line: Seq<char>,
    st: StateV,
    cur: CursorV,
)
    requires
        calm(ss, st),
        quiet(ss, cur.ops),
        engine::tokens_parsed(fuel, ss, line, st, cur) is Some,
    ensures
        ({
            let (next, r) = engine::tokens_parsed(fuel, ss, line, st, cur)->0;
            calm(ss, next) && (r matches Ok(ops) ==> quiet(ss, ops))
        }),
    decreases fuel, 0int, 0int,
{
    let less = (fuel - 1) as nat;
    lemma_step(less, ss, line, st, cur);
    if let Some((st1, Ok((cur1, true)))) = engine::stepped(less, ss, line, st, cur) {
        lemma_tokens(less, ss, line, st1, cur1);
    }
}

proof fn lemma_line(
    fuel: nat,
    ss: Seq<SyntaxReference>,
    st: StateV,
    line: Seq<char>,
    start_at: usize,
)
    requires
        calm(ss, st),
        engine::line_parsed(fuel, ss, st, line, start_at) is Some,
    ensures
        ({
            let (next, r) = engine::line_parsed(fuel, ss, st, line, start_at)->0;
            calm(ss, next) && (r matches Ok(ops) ==> quiet(ss, ops))
        }),
    decreases fuel, 1int, 0int,
{
    if let Ok(ops) = engine::opening(ss, st, start_at) {
        let cur = CursorV { start: start_at, ops, ..engine::fresh_cursor() };
        lemma_tokens(fuel, ss, line, engine::opened(st, start_at), cur);
    }
}

proof fn lemma_one_more(ss: Seq<SyntaxReference>, acc: Seq<Seq<Op>>, ops: Seq<Op>)
    requires
        quiet_lines(ss, acc),
        quiet(ss, ops),
    ensures
        quiet_lines(ss, acc.push(ops)),
{
    reveal(quiet_lines);
    let more = acc.push(ops);
    assert forall|k: int| 0 <= k < more.len() implies quiet(ss, #[trigger] more[k]) by {
        if k < acc.len() {
            assert(more[k] == acc[k]);
        }
    }
}

#[verifier::rlimit(30)]
proof fn lemma_replay_lines(
    fuel: nat,
    ss: Seq<SyntaxReference>,
    st: StateV,
    plan: ReplayPlanV,
    i: int,
    acc: Seq<Seq<Op>>,
)
    requires
        calm(ss, st),
        quiet(ss, plan.prefix),
        0 <= i <= plan.lines.len(),
        quiet_lines(ss, acc),
        engine::replay_lines(fuel, ss, st, plan, i, acc) is Some,
    ensures
        ({
            let (next, r) = engine::replay_lines(fuel, ss, st, plan, i, acc)->0;
            calm(ss, next) && (r matches Ok(ops) ==> quiet_lines(ss, ops))
        }),
    decreases fuel, 2int, plan.lines.len() - i,
{
    if i < plan.lines.len() {
        let start_at = if i == 0 {
            plan.resume
        } else {
            0
        };
        let entry = engine::replay_entry(st, plan, i);
        lemma_line(fuel, ss, entry, plan.lines[i], start_at);
        if let Some((st1, Ok(tail))) = engine::line_parsed(
            fuel,
            ss,
            entry,
            plan.lines[i],
            start_at,
        ) {
            let st2 = StateV {
                replay_ctx: st.replay_ctx,
                replay_prefix_ops: st.replay_prefix_ops,
                ..st1
            };
            let line_ops = if i == 0 {
                plan.prefix + tail
            } else {
                tail
            };
            assert(quiet(ss, line_ops));
            lemma_one_more(ss, acc, line_ops);
            lemma_replay_lines(fuel, ss, st2, plan, i + 1, acc.push(line_ops));
        }
    }
}

proof fn lemma_replayed(fuel: nat, ss: Seq<SyntaxReference>, st: StateV, plan: ReplayPlanV)
    requires
        calm(ss, st),
        quiet(ss, plan.prefix),
        engine::replayed(fuel, ss, st, plan) is Some,
    ensures
        ({
            let (next, r) = engine::replayed(fuel, ss, st, plan)->0;
            calm(ss, next) && (r matches Ok(replay) ==> quiet_replay(ss, replay))
        }),
    decreases fuel, 3int, 0int,
{
    let begun = engine::replay_start(st);
    let none = Seq::<Seq<Op>>::empty();
    assert(quiet_lines(ss, none)) by {
        reveal(quiet_lines);
    }
    lemma_replay_lines(fuel, ss, begun, plan, 0, none);
}

proof fn lemma_exhausted(
    fuel: nat,
    ss: Seq<SyntaxReference>,
    st: StateV,
    cur: CursorV,
    index: int,
)
    requires
        calm(ss, st),
        quiet(ss, cur.ops),
        0 <= index < st.branch_points.len(),
        engine::exhausted(fuel, ss, st, cur, index) is Some,
    ensures
        calm_step(ss, engine::exhausted(fuel, ss, st, cur, index)->0),
    decreases fuel, 4int, 0int,
{
    let bp = st.branch_points[index];
    let st1 = StateV {
        branch_points: st.branch_points.remove(index),
        ..engine::rewound(st, bp)
    };
    assert(quiet_branch(ss, bp));
    lemma_removed(ss, st.branch_points, index);
    if bp.line_number < engine::current_line(st) {
        let plan = engine::exhausted_plan(st, bp);
        lemma_replayed(fuel, ss, st1, plan);
        if let Some((st2, Ok(replay))) = engine::replayed(fuel, ss, st1, plan) {
            lemma_taken_over(ss, st2, engine::info_of(bp), bp.pending_lines_snapshot_len, replay);
        }
    }
}

proof fn lemma_alternative_replayed(
    fuel: nat,
    ss: Seq<SyntaxReference>,
    st: StateV,
    bp: BranchV,
    alt: int,
)
    requires
        calm(ss, st),
        quiet_branch(ss, bp),
        engine::alternative_replayed(fuel, ss, st, bp, alt) is Some,
    ensures
        ({
            let (next, r) = engine::alternative_replayed(fuel, ss, st, bp, alt)->0;
            calm(ss, next) && (r matches Ok(replay) ==> quiet_replay(ss, replay))
        }),
    decreases fuel, 4int, 0int,
{
    lemma_alternative_ops(ss, bp.prefix_ops, bp, alt);
    if let Ok(prefix) = engine::alternative_ops(bp.prefix_ops, ss, bp, alt) {
        lemma_replayed(fuel, ss, st, engine::alternative_plan(st, bp, prefix));
    }
}

proof fn lemma_forgotten(ss: Seq<SyntaxReference>, st: StateV, index: int)
    requires
        calm(ss, st),
    ensures
        calm(ss, engine::prefix_forgotten(st, index)),
{
    if 0 <= index < st.branch_points.len() {
        let bp = st.branch_points[index];
        assert(quiet_branch(ss, bp));
        lemma_updated(ss, st.branch_points, index, BranchV { ops_snapshot_len: 0, ..bp });
    }
}

#[verifier::rlimit(40)]
proof fn lemma_retried_across(
    fuel: nat,
    ss: Seq<SyntaxReference>,
    st: StateV,
    index: int,
)
    requires
        calm(ss, st),
        0 <= index < st.branch_points.len(),
        engine::retried_across(fuel, ss, st, index) is Some,
    ensures
        calm_step(ss, engine::retried_across(fuel, ss, st, index)->0),
    decreases fuel, 5int, 0int,
{
    let bp = st.branch_points[index];
    let snap = bp.pending_lines_snapshot_len;
    let info = engine::info_of(bp);
    let next = bp.next_alternative as int;
    assert(quiet_branch(ss, bp));
    let (st1, taken) = engine::alternative_taken(st, st.branch_points, index, next);
    lemma_alternative(ss, st, st.branch_points, index, next);
    if taken is Ok {
        lemma_alternative_replayed(fuel, ss, st1, bp, next);
        if let Some((st2, Ok(replay))) = engine::alternative_replayed(fuel, ss, st1, bp, next) {
            if engine::jumps_to_field(bp, replay) {
                let field = engine::FIELD_ALTERNATIVE as int;
                let (st3, jumped) = engine::alternative_taken(
                    st2,
                    st1.branch_points,
                    index,
                    field,
                );
                lemma_alternative(ss, st2, st1.branch_points, index, field);
                if jumped is Ok {
                    lemma_alternative_replayed(fuel, ss, st3, bp, field);
                    if let Some((st4, Ok(second))) = engine::alternative_replayed(
                        fuel,
                        ss,
                        st3,
                        bp,
                        field,
                    ) {
                        lemma_taken_over(ss, st4, info, snap, second);
                        lemma_forgotten(ss, engine::replay_taken(st4, info, snap, second), index);
                    }
                }
            } else {
                lemma_taken_over(ss, st2, info, snap, replay);
                lemma_forgotten(ss, engine::replay_taken(st2, info, snap, replay), index);
            }
        }
    }
}

proof fn lemma_retried_within(
    ss: Seq<SyntaxReference>,
    line: Seq<char>,
    st: StateV,
    cur: CursorV,
    index: int,
)
    requires
        calm(ss, st),
        quiet(ss, cur.ops),
        0 <= index < st.branch_points.len(),
    ensures
        calm_step(ss, engine::retried_within(ss, line, st, cur, index)),
{
    let bp = st.branch_points[index];
    let next = bp.next_alternative as int;
    assert(quiet_branch(ss, bp));
    let (st1, taken) = engine::alternative_taken(st, st.branch_points, index, next);
    lemma_alternative(ss, st, st.branch_points, index, next);
    let kept = engine::ops_until(cur.ops, bp.ops_snapshot_len);
    lemma_updated(
        ss,
        st1.branch_points,
        index,
        BranchV { ops_snapshot_len: kept.len() as usize, ..st1.branch_points[index] },
    );
    lemma_alternative_ops(ss, kept, bp, next);
}

proof fn lemma_failed(
    fuel: nat,
    ss: Seq<SyntaxReference>,
    line: Seq<char>,
    st: StateV,
    cur: CursorV,
    name: Seq<char>,
)
    requires
        calm(ss, st),
        quiet(ss, cur.ops),
        engine::failed(fuel, ss, line, st, cur, name) is Some,
    ensures
        calm_step(ss, engine::failed(fuel, ss, line, st, cur, name)->0),
    decreases fuel, 5int, 1int,
{
    let n = st.branch_points.len() as int;
    window::lemma_latest(st.branch_points, n, name, st.stack.len() as int);
    if let Some(index) = engine::latest_branch(
        st.branch_points,
        n,
        name,
        st.stack.len() as int,
    ) {
        let bp = st.branch_points[index];
        if engine::current_line(st).saturating_sub(bp.line_number) > engine::MAX_BRANCH_AGE {
            lemma_removed(ss, st.branch_points, index);
        } else if bp.next_alternative >= bp.alternatives.len() {
            lemma_exhausted(fuel, ss, st, cur, index);
        } else if bp.line_number < engine::current_line(st) {
            lemma_retried_across(fuel, ss, st, index);
        } else {
            lemma_retried_within(ss, line, st, cur, index);
        }
    }
}

#[verifier::rlimit(40)]
proof fn lemma_executed(
    fuel: nat,
    ss: Seq<SyntaxReference>,
    line: Seq<char>,
    st: StateV,
    cur: CursorV,
    pat: MatchPattern,
    region: RegionV,
)
    requires
        calm(ss, st),
        !(pat.operation is Fail),
        quiet(ss, cur.ops),
        engine::executed(fuel, ss, line, st, cur, pat, region) is Some,
    ensures
        calm_step(ss, engine::executed(fuel, ss, line, st, cur, pat, region)->0),
{
    let (first, last) = regex::whole(region);
    match pat.operation {
        MatchOperation::Branch { name, alternatives, pop_count } => {
            let bp = engine::new_branch(
                st,
                cur,
                pat,
                name@,
                views::of(alternatives@),
                pop_count,
                region,
            );
            let st1 = engine::with_branch(st, bp);
            let mapping = state::mapping_view(pat.captures);
            let more = captures::group_ops(mapping, region, true);
            captures::law_clipped_groups_stay_within(mapping, region, true);
            let refs = engine::first_alternative(views::of(alternatives@));
            if let Some(outer) = st.replay_prefix_ops {
                assert(quiet(ss, outer + cur.ops));
            }
            assert(quiet_branch(ss, bp));
            assert forall|i: int| 0 <= i < st1.branch_points.len() implies quiet_branch(
                ss,
                #[trigger] st1.branch_points[i],
            ) by {
                if i < st.branch_points.len() {
                    assert(st1.branch_points[i] == st.branch_points[i]);
                }
            }
            lemma_performed_push(
                st1,
                ss,
                line,
                region,
                refs,
                pop_count,
                views::opt(pat.with_prototype),
            );
            if order::clears_nothing(ss) {
                order::lemma_calm_branch(
                    cur.ops,
                    ss,
                    st.stack,
                    first,
                    last,
                    pat.scope@,
                    more,
                    refs,
                    pop_count,
                );
            }
        },
        _ => if st.stack.len() > 0 {
            if let Ok(context) = syntax::context_of(ss, st.stack.last().context) {
                if order::clears_nothing(ss) {
                    order::lemma_calm_rule(cur.ops, ss, st.stack, context, pat, region);
                }
                lemma_performed(
                    st,
                    ss,
                    line,
                    region,
                    pat.operation,
                    views::opt(pat.with_prototype),
                );
            }
        },
    }
}

#[verifier::rlimit(30)]
proof fn lemma_step(
    fuel: nat,
    ss: Seq<SyntaxReference>,
    line: Seq<char>,
    st: StateV,
    cur: CursorV,
)
    requires
        calm(ss, st),
        quiet(ss, cur.ops),
        engine::stepped(fuel, ss, line, st, cur) is Some,
    ensures
        calm_step(ss, engine::stepped(fuel, ss, line, st, cur)->0),
    decreases fuel, 8int, 0int,
{
    let len = st.stack.len() as int;
    let st1 = StateV { proto_starts: engine::trimmed(st.proto_starts, len), ..st };
    let armed = engine::loop_armed(cur, len);
    let pre = cur.push_mark.1;
    if let Some(Ok((memory, Some(found)))) = search::best_match(
        fuel,
        ss,
        line,
        st1,
        cur.start,
        cur.memory,
        armed,
        pre,
    ) {
        let cur1 = CursorV { memory, ..cur };
        match found.rule {
            None => {
                lemma_escape(ss, line, st1, cur1, found);
            },
            Some(rule) => if !found.would_loop {
                if let Ok(context) = syntax::context_of(ss, rule.0) {
                    if let Ok(pat) = syntax::rule_at(context, rule.1) {
                        match pat.operation {
                            MatchOperation::Fail(name) => {
                                lemma_failed(fuel, ss, line, st1, cur1, name@);
                            },
                            _ => if !engine::eol_branch(line, st1, cur1, pat, found) {
                                lemma_executed(
                                    fuel,
                                    ss,
                                    line,
                                    engine::rule_entry(st1, found),
                                    engine::rule_cursor(st1, cur1, pat, found),
                                    pat,
                                    found.regions,
                                );
                            },
                        }
                    }
                }
            },
        }
    }
}

/// What holds of the operations that a consumer has of a line: they are in order,
/// they lie within the line, and they are [`quiet`].
pub open spec fn proper(ss: Seq<SyntaxReference>, line: Seq<char>, ops: Seq<Op>) -> bool {
    order::in_order(ops) && order::up_to(ops, text::byte_len(line)) && quiet(ss, ops)
}

/// Whether this holds of lists of operations for the lines from `first` on.
#[verifier::opaque]
pub open spec fn proper_lines(
    ss: Seq<SyntaxReference>,
    lines: Seq<Seq<char>>,
    first: int,
    ops: Seq<Seq<Op>>,
) -> bool {
    forall|k: int| 0 <= k < ops.len() ==> proper(ss, lines[first + k], #[trigger] ops[k])
}

/// What holds of the state between two lines: it is [`calm`], and the operations of
/// the lines that may still be revised are [`proper`].
#[verifier::opaque]
pub open spec fn settled(ss: Seq<SyntaxReference>, st: StateV) -> bool {
    &&& window::between_lines(st)
    &&& calm(ss, st)
    &&& proper_lines(ss, st.pending_lines, 0, st.pending_line_ops)
}

/// Whether the operations of a line are proper, and so are those of each line that
/// is revised with it.
pub open spec fn proper_output(
    ss: Seq<SyntaxReference>,
    st: StateV,
    line: Seq<char>,
    out: OutputV,
) -> bool {
    &&& proper(ss, line, out.ops)
    &&& out.revised matches Some(lines) ==> lines.len() == st.pending_lines.len() && proper_lines(
        ss,
        st.pending_lines,
        0,
        lines,
    )
}

/// A fresh state is settled.
pub proof fn law_fresh_state_is_settled(ss: Seq<SyntaxReference>, syntax: SyntaxReference)
    ensures
        settled(ss, parser::initial(parser::start_level(syntax))),
{
    reveal(proper_lines);
    reveal(quiet_lines);
    reveal(settled);
    window::law_fresh_state(syntax);
}

/// Quiet operations become proper when they are levelled.
proof fn lemma_levelled(ss: Seq<SyntaxReference>, line: Seq<char>, ops: Seq<Op>)
    requires
        quiet(ss, ops),
    ensures
        proper(ss, line, emit::levelled(ops, text::byte_len(line))),
{
    order::law_levelled_in_order(ops, text::byte_len(line));
}

proof fn lemma_placed(
    ss: Seq<SyntaxReference>,
    lines: Seq<Seq<char>>,
    new: Seq<Seq<Op>>,
    first: int,
)
    requires
        0 <= first,
        first + new.len() == lines.len(),
        quiet_lines(ss, new),
    ensures
        proper_lines(ss, lines, first, parser::placed(new, lines, first)),
{
    reveal(quiet_lines);
    reveal(proper_lines);
    let r = parser::placed(new, lines, first);
    assert forall|k: int| 0 <= k < r.len() implies proper(
        ss,
        lines[first + k],
        #[trigger] r[k],
    ) by {
        assert(quiet(ss, new[k]));
        lemma_levelled(ss, lines[first + k], new[k]);
    }
}

proof fn lemma_corrected(
    ss: Seq<SyntaxReference>,
    lines: Seq<Seq<char>>,
    ops: Seq<Seq<Op>>,
    new: Seq<Seq<Op>>,
    first: int,
)
    requires
        0 <= first,
        first + new.len() == ops.len() == lines.len(),
        proper_lines(ss, lines, 0, ops),
        proper_lines(ss, lines, first, new),
    ensures
        proper_lines(ss, lines, 0, parser::replaced(ops, new, first, 0)),
        parser::replaced(ops, new, first, 0).len() == ops.len(),
{
    reveal(proper_lines);
    window::lemma_replaced(ops, new, first, 0);
    let r = parser::replaced(ops, new, first, 0);
    assert forall|k: int| 0 <= k < r.len() implies proper(ss, lines[0 + k], #[trigger] r[k]) by {
        if k < first {
            assert(r[k] == ops[k]);
            assert(proper(ss, lines[0 + k], ops[k]));
        } else {
            assert(r[k] == new[k - first]);
            assert(proper(ss, lines[first + (k - first)], new[k - first]));
        }
    }
}

proof fn lemma_parsed(fuel: nat, ss: Seq<SyntaxReference>, st: StateV, line: Seq<char>)
    requires
        calm(ss, st),
        parser::parsed(fuel, ss, st, line) is Some,
    ensures
        ({
            let (next, r) = parser::parsed(fuel, ss, st, line)->0;
            calm(ss, next) && (r matches Ok(ops) ==> quiet(ss, ops))
        }),
{
    reveal(parser::parsed);
    lemma_filtered(
        ss,
        st.branch_points,
        |bp: BranchV| parser::is_young(bp, st.line_number),
    );
    lemma_line(fuel, ss, parser::entered(st), line, 0);
}

/// A settled state stays settled, and the output is proper.
#[verifier::rlimit(40)]
proof fn lemma_settles(fuel: nat, ss: Seq<SyntaxReference>, st: StateV, line: Seq<char>)
    requires
        settled(ss, st),
        parser::output_within(fuel, ss, st, line) is Some,
        (parser::output_within(fuel, ss, st, line)->0).1 is Ok,
    ensures
        ({
            let (next, out) = parser::output_within(fuel, ss, st, line)->0;
            &&& proper_output(ss, st, line, out->Ok_0)
            &&& calm(ss, next)
            &&& next.pending_lines == if next.branch_points.len() > 0 {
                st.pending_lines.push(line)
            } else {
                Seq::empty()
            }
            &&& next.pending_line_ops.len() == next.pending_lines.len()
            &&& proper_lines(ss, next.pending_lines, 0, next.pending_line_ops)
        }),
{
    reveal(settled);
    lemma_parsed(fuel, ss, st, line);
    window::lemma_parsed(fuel, ss, st, line);
    if let Some((st1, Ok(raw))) = parser::parsed(fuel, ss, st, line) {
        let ops = emit::levelled(raw, text::byte_len(line));
        lemma_levelled(ss, line, raw);
        let mid = parser::corrected(st1);
        let lines = st.pending_lines;
        if st1.flushed_ops.len() > 0 {
            let first = lines.len() - st1.flushed_ops.len();
            assert(first == (lines.len() as usize).saturating_sub(
                st1.flushed_ops.len() as usize,
            ));
            let new = parser::placed(st1.flushed_ops, lines, first);
            lemma_placed(ss, lines, st1.flushed_ops, first);
            lemma_corrected(ss, lines, st1.pending_line_ops, new, first);
            assert(mid.pending_line_ops.subrange(0, lines.len() as int) =~= mid.pending_line_ops);
        }
        assert(quiet_lines(ss, Seq::empty())) by {
            reveal(quiet_lines);
        }
        assert(proper_lines(ss, lines, 0, mid.pending_line_ops));
        assert(mid.pending_line_ops.len() == lines.len());
        let next = parser::closed_line(st1, line, ops);
        if st1.branch_points.len() > 0 {
            lemma_window_grows(ss, lines, mid.pending_line_ops, line, ops);
        } else {
            assert(proper_lines(ss, Seq::empty(), 0, Seq::empty())) by {
                reveal(proper_lines);
            }
        }
    }
}

proof fn lemma_window_grows(
    ss: Seq<SyntaxReference>,
    lines: Seq<Seq<char>>,
    window: Seq<Seq<Op>>,
    line: Seq<char>,
    ops: Seq<Op>,
)
    requires
        window.len() == lines.len(),
        proper_lines(ss, lines, 0, window),
        proper(ss, line, ops),
    ensures
        proper_lines(ss, lines.push(line), 0, window.push(ops)),
{
    reveal(proper_lines);
    let more = window.push(ops);
    let all = lines.push(line);
    assert forall|k: int| 0 <= k < more.len() implies proper(ss, all[0 + k], #[trigger] more[k]) by {
        if k < window.len() {
            assert(more[k] == window[k]);
            assert(proper(ss, lines[0 + k], window[k]));
        }
    }
}

/// A parser that starts with a settled state keeps it settled, as long as no error
/// comes.
pub proof fn law_settled_stays_settled(
    fuel: nat,
    ss: Seq<SyntaxReference>,
    st: StateV,
    line: Seq<char>,
)
    requires
        settled(ss, st),
        st.pending_lines.len() < usize::MAX,
        parser::output_within(fuel, ss, st, line) is Some,
    ensures
        (parser::output_within(fuel, ss, st, line)->0).1 is Ok ==> settled(
            ss,
            (parser::output_within(fuel, ss, st, line)->0).0,
        ),
{
    reveal(settled);
    if (parser::output_within(fuel, ss, st, line)->0).1 is Ok {
        lemma_settles(fuel, ss, st, line);
        window::law_revision_covers_window(fuel, ss, st, line);
    }
}

pub(crate) proof fn lemma_output(fuel: nat, ss: Seq<SyntaxReference>, st: StateV, line: Seq<char>)
    requires
        settled(ss, st),
        parser::output_within(fuel, ss, st, line) is Some,
    ensures
        (parser::output_within(fuel, ss, st, line)->0).1 matches Ok(out) ==> proper_output(
            ss,
            st,
            line,
            out,
        ),
{
    if (parser::output_within(fuel, ss, st, line)->0).1 is Ok {
        lemma_settles(fuel, ss, st, line);
    }
}

/// The operations of a line come in order of their positions, and so do those of
/// each line that is revised with it.
pub proof fn law_ops_in_order(fuel: nat, ss: Seq<SyntaxReference>, st: StateV, line: Seq<char>)
    requires
        settled(ss, st),
        parser::output_within(fuel, ss, st, line) is Some,
    ensures
        (parser::output_within(fuel, ss, st, line)->0).1 matches Ok(out) ==> {
            &&& order::in_order(out.ops)
            &&& out.revised matches Some(lines) ==> forall|i: int|
                0 <= i < lines.len() ==> order::in_order(#[trigger] lines[i])
        },
{
    reveal(proper_lines);
    lemma_output(fuel, ss, st, line);
}

/// No operation of a line lies after its end, and none of a revised line after the
/// end of the line that it belongs to.
pub proof fn law_ops_within_lines(fuel: nat, ss: Seq<SyntaxReference>, st: StateV, line: Seq<char>)
    requires
        settled(ss, st),
        parser::output_within(fuel, ss, st, line) is Some,
    ensures
        (parser::output_within(fuel, ss, st, line)->0).1 matches Ok(out) ==> {
            &&& order::up_to(out.ops, text::byte_len(line))
            &&& out.revised matches Some(lines) ==> lines.len() == st.pending_lines.len() && forall|
                i: int,
            |
                0 <= i < lines.len() ==> order::up_to(
                    #[trigger] lines[i],
                    text::byte_len(st.pending_lines[i]),
                )
        },
{
    reveal(proper_lines);
    lemma_output(fuel, ss, st, line);
    if let Ok(out) = (parser::output_within(fuel, ss, st, line)->0).1 {
        if let Some(lines) = out.revised {
            assert forall|i: int| 0 <= i < lines.len() implies order::up_to(
                #[trigger] lines[i],
                text::byte_len(st.pending_lines[i]),
            ) by {
                assert(proper(ss, st.pending_lines[0 + i], lines[i]));
            }
        }
    }
}

/// The lines so far with what the latest output makes of them.
proof fn lemma_log_extended(
    ss: Seq<SyntaxReference>,
    st: StateV,
    lines: Seq<Seq<char>>,
    i: int,
    log: Seq<Seq<Op>>,
    out: OutputV,
)
    requires
        0 <= i < lines.len(),
        log.len() == i,
        st.pending_lines.len() <= i,
        st.pending_lines == lines.subrange(i - st.pending_lines.len(), i),
        proper_lines(ss, lines, 0, log),
        proper_output(ss, st, lines[i], out),
    ensures
        committed::extended(log, out).len() == i + 1,
        proper_lines(ss, lines, 0, committed::extended(log, out)),
{
    reveal(proper_lines);
    let n = st.pending_lines.len() as int;
    let r = committed::extended(log, out);
    assert forall|k: int| 0 <= k < r.len() implies proper(ss, lines[0 + k], #[trigger] r[k]) by {
        if k < i {
            if out.revised is Some && k >= i - n {
                let j = k - (i - n);
                assert(r[k] == out.revised->0[j]);
                assert(proper(ss, st.pending_lines[0 + j], out.revised->0[j]));
                assert(st.pending_lines[j] == lines[k]);
            } else {
                assert(r[k] == log[k]);
                assert(proper(ss, lines[0 + k], log[k]));
            }
        }
    }
}

/// Whether a consumer that has parsed the first `i` lines is in step with the
/// parser: it has a proper list of operations for each of them, and the pending
/// lines are the latest of them.
pub open spec fn log_in_step(
    ss: Seq<SyntaxReference>,
    st: StateV,
    lines: Seq<Seq<char>>,
    i: int,
    log: Seq<Seq<Op>>,
) -> bool {
    &&& settled(ss, st)
    &&& 0 <= i <= lines.len()
    &&& log.len() == i
    &&& st.pending_lines.len() <= i
    &&& st.pending_lines == lines.subrange(i - st.pending_lines.len(), i)
    &&& proper_lines(ss, lines, 0, log)
}

proof fn lemma_log_goes_on(
    ss: Seq<SyntaxReference>,
    st: StateV,
    next: StateV,
    lines: Seq<Seq<char>>,
    i: int,
    log: Seq<Seq<Op>>,
    out: OutputV,
)
    requires
        log_in_step(ss, st, lines, i, log),
        i < lines.len(),
        settled(ss, next),
        proper_output(ss, st, lines[i], out),
        next.pending_lines == if next.branch_points.len() > 0 {
            st.pending_lines.push(lines[i])
        } else {
            Seq::empty()
        },
    ensures
        log_in_step(ss, next, lines, i + 1, committed::extended(log, out)),
{
    lemma_log_extended(ss, st, lines, i, log, out);
    assert(next.pending_lines =~= lines.subrange(i + 1 - next.pending_lines.len(), i + 1));
}

proof fn lemma_log_stays_in_step(
    ss: Seq<SyntaxReference>,
    st: StateV,
    lines: Seq<Seq<char>>,
    i: int,
    log: Seq<Seq<Op>>,
)
    requires
        log_in_step(ss, st, lines, i, log),
        i < lines.len() < usize::MAX,
        parser::terminates(ss, st, lines[i]),
        parser::output_of(ss, st, lines[i]).1 is Ok,
    ensures
        ({
            let (next, r) = parser::output_of(ss, st, lines[i]);
            log_in_step(ss, next, lines, i + 1, committed::extended(log, r->Ok_0))
        }),
{
    let line = lines[i];
    let fuel = parser::enough(ss, st, line);
    let (next, r) = parser::output_of(ss, st, line);
    assert(parser::output_within(fuel, ss, st, line) == Some((next, r)));
    lemma_settles(fuel, ss, st, line);
    law_settled_stays_settled(fuel, ss, st, line);
    lemma_log_goes_on(ss, st, next, lines, i, log, r->Ok_0);
}

/// Once all lines are parsed, what a consumer has of each of them after all
/// revisions is proper.
pub proof fn law_every_line_is_proper(
    ss: Seq<SyntaxReference>,
    st: StateV,
    lines: Seq<Seq<char>>,
    i: int,
    log: Seq<Seq<Op>>,
)
    requires
        log_in_step(ss, st, lines, i, log),
        lines.len() < usize::MAX,
    ensures
        committed::parsed_eagerly(ss, st, lines, i, log) matches Some((end, all)) ==> log_in_step(
            ss,
            end,
            lines,
            lines.len() as int,
            all,
        ),
    decreases lines.len() - i,
{
    if i < lines.len() {
        let (next, r) = parser::output_of(ss, st, lines[i]);
        if parser::terminates(ss, st, lines[i]) && r is Ok {
            lemma_log_stays_in_step(ss, st, lines, i, log);
            law_every_line_is_proper(ss, next, lines, i + 1, committed::extended(log, r->Ok_0));
        }
    }
    committed::lemma_eager_step(ss, st, lines, i, log);
}

/// Whether the operations of `lines[i..]` apply to the stack `s` one after the
/// other without an error.
pub open spec fn lines_apply(s: StackV, lines: Seq<Seq<Op>>, i: int) -> bool
    decreases lines.len() - i,
{
    if i < 0 || i >= lines.len() {
        true
    } else {
        scope::applies(s, lines[i], 0) && lines_apply(
            scope::applied_all(s, lines[i]),
            lines,
            i + 1,
        )
    }
}

proof fn lemma_applies(s: StackV, ops: Seq<Op>, i: int)
    requires
        order::restores_nothing(ops),
    ensures
        scope::applies(s, ops, i),
    decreases ops.len() - i,
{
    if 0 <= i < ops.len() {
        lemma_applies(scope::applied(s, ops[i].1), ops, i + 1);
    }
}

proof fn lemma_lines_apply(
    ss: Seq<SyntaxReference>,
    s: StackV,
    lines: Seq<Seq<char>>,
    all: Seq<Seq<Op>>,
    i: int,
)
    requires
        order::clears_nothing(ss),
        proper_lines(ss, lines, 0, all),
    ensures
        lines_apply(s, all, i),
    decreases all.len() - i,
{
    if 0 <= i < all.len() {
        assert(proper(ss, lines[0 + i], all[i])) by {
            reveal(proper_lines);
        }
        lemma_applies(s, all[i], 0);
        lemma_lines_apply(ss, scope::applied_all(s, all[i]), lines, all, i + 1);
    }
}

/// Where no context clears scopes, the operations of all lines, once revised, apply
/// to an empty stack without an error: one list for every line.
pub proof fn law_lines_apply(
    ss: Seq<SyntaxReference>,
    syntax: SyntaxReference,
    lines: Seq<Seq<char>>,
)
    requires
        order::clears_nothing(ss),
        lines.len() < usize::MAX,
    ensures
        committed::parsed_eagerly(
            ss,
            parser::initial(parser::start_level(syntax)),
            lines,
            0,
            Seq::empty(),
        ) matches Some((_, all)) ==> {
            &&& all.len() == lines.len()
            &&& lines_apply(StackV { scopes: Seq::empty(), cleared: Seq::empty() }, all, 0)
        },
{
    let st = parser::initial(parser::start_level(syntax));
    let none = Seq::<Seq<Op>>::empty();
    law_fresh_state_is_settled(ss, syntax);
    assert(proper_lines(ss, lines, 0, none)) by {
        reveal(proper_lines);
    }
    assert(st.pending_lines =~= lines.subrange(0, 0));
    assert(log_in_step(ss, st, lines, 0, none));
    law_every_line_is_proper(ss, st, lines, 0, none);
    if let Some((_, all)) = committed::parsed_eagerly(ss, st, lines, 0, none) {
        let s = StackV { scopes: Seq::empty(), cleared: Seq::empty() };
        lemma_lines_apply(ss, s, lines, all, 0);
    }
}

} // verus!
