//! The window of lines that may still be revised: what every step of the parser
//! keeps of it, and what a consumer can rely on.

use crate::corrections;
use crate::embed;
use crate::emit;
use crate::engine;
use crate::engine::{CursorV, ReplayPlanV, ReplayV, StepV};
use crate::parser;
use crate::perform;
use crate::scope;
use crate::scope::{Op, StackV};
use crate::search;
use crate::search::FoundV;
use crate::state::{BpInfoV, BranchV, RegionV, StateV, WarningV};
use crate::syntax;
use crate::syntax::{MatchOperation, MatchPattern, SyntaxReference};
use crate::text;
use crate::views;
use vstd::prelude::*;

verus! {

/// Whether a branch point was made while at most `n` lines were pending.
pub open spec fn sound_branch(bp: BranchV, n: nat) -> bool {
    bp.pending_lines_snapshot_len <= n
}

/// Whether this holds of all branch points.
pub open spec fn within_window(bps: Seq<BranchV>, n: nat) -> bool {
    forall|i: int| 0 <= i < bps.len() ==> sound_branch(#[trigger] bps[i], n)
}

/// Whether the corrections of pending lines reach up to the last of them.
pub open spec fn aligned(st: StateV) -> bool {
    &&& st.flushed_ops_bp_per_slot.len() == st.flushed_ops.len()
    &&& match st.flushed_ops_start {
        Some(start) => start + st.flushed_ops.len() == st.pending_lines.len(),
        None => st.flushed_ops.len() == 0,
    }
}

/// What holds of the window at every step of the parser: nothing points past the
/// pending lines, and corrections reach up to the last of them.
pub open spec fn anchored(st: StateV) -> bool {
    &&& st.pending_lines.len() <= usize::MAX
    &&& within_window(st.branch_points, st.pending_lines.len())
    &&& st.replay_ctx is Some ==> st.replay_ctx->0.pending_lines_snapshot_offset
        <= st.pending_lines.len()
    &&& aligned(st)
}

/// What no step of the parser changes: the pending lines, what the consumer has
/// of them, and the line that the parser stands on.
pub open spec fn keeps_window(st: StateV, next: StateV) -> bool {
    &&& next.pending_lines == st.pending_lines
    &&& next.pending_line_start_shadows == st.pending_line_start_shadows
    &&& next.pending_line_ops == st.pending_line_ops
    &&& next.shadow == st.shadow
    &&& next.line_number == st.line_number
    &&& next.replay_ctx == st.replay_ctx
    &&& next.replay_prefix_ops == st.replay_prefix_ops
}

/// Both of the above.
pub open spec fn sound(st: StateV, next: StateV) -> bool {
    anchored(next) && keeps_window(st, next)
}

/// The same of a step.
pub open spec fn sound_step(st: StateV, step: StepV) -> bool {
    sound(st, step.0)
}

proof fn lemma_filtered(bps: Seq<BranchV>, p: spec_fn(BranchV) -> bool, n: nat)
    requires
        within_window(bps, n),
    ensures
        within_window(bps.filter(p), n),
    decreases bps.len(),
{
    reveal(Seq::filter);
    if bps.len() > 0 {
        let rest = bps.drop_last();
        assert forall|i: int| 0 <= i < rest.len() implies sound_branch(
            #[trigger] rest[i],
            n,
        ) by {
            assert(rest[i] == bps[i]);
        }
        lemma_filtered(rest, p, n);
        assert(bps.last() == bps[bps.len() - 1]);
    }
}

proof fn lemma_live(bps: Seq<BranchV>, depth: int, n: nat)
    requires
        within_window(bps, n),
    ensures
        within_window(perform::live_branches(bps, depth), n),
{
    lemma_filtered(bps, |bp: BranchV| crate::state::alive(bp, depth), n);
}

proof fn lemma_performed_push(
    st: StateV,
    ss: Seq<SyntaxReference>,
    line: Seq<char>,
    region: RegionV,
    refs: Seq<syntax::ReferenceV>,
    pop_count: usize,
    with_prototype: Option<syntax::ReferenceV>,
)
    requires
        anchored(st),
    ensures
        sound(
            st,
            perform::performed_push(st, ss, line, region, refs, pop_count, with_prototype).0,
        ),
{
    let base = perform::without_top(st.stack, pop_count as int);
    let depth = (base.len() as usize).saturating_add(refs.len() as usize);
    lemma_live(st.branch_points, depth as int, st.pending_lines.len());
}

proof fn lemma_performed(
    st: StateV,
    ss: Seq<SyntaxReference>,
    line: Seq<char>,
    region: RegionV,
    op: MatchOperation,
    with_prototype: Option<syntax::ReferenceV>,
)
    requires
        anchored(st),
    ensures
        sound(st, perform::performed(st, ss, line, region, op, with_prototype).0),
{
    match op {
        MatchOperation::Push { ctx_refs, pop_count } => {
            lemma_performed_push(
                st,
                ss,
                line,
                region,
                views::of(ctx_refs@),
                pop_count,
                with_prototype,
            );
        },
        MatchOperation::SetTo { ctx_refs, pop_count } => {
            lemma_performed_push(
                st,
                ss,
                line,
                region,
                views::of(ctx_refs@),
                crate::semantics::set_pops(pop_count),
                with_prototype,
            );
        },
        MatchOperation::Embed { contexts, escape, pop_count } => {
            let base = perform::without_top(st.stack, pop_count as int);
            lemma_live(st.branch_points, base.len() as int, st.pending_lines.len());
        },
        MatchOperation::Pop(n) => {
            let base = perform::without_top(st.stack, n as int);
            lemma_live(st.branch_points, base.len() as int, st.pending_lines.len());
        },
        _ => {},
    }
}

proof fn lemma_escape(
    ss: Seq<SyntaxReference>,
    line: Seq<char>,
    st: StateV,
    cur: CursorV,
    found: FoundV,
)
    requires
        anchored(st),
    ensures
        sound_step(st, engine::escape_step(ss, line, st, cur, found)),
{
    let (first, last) = crate::regex::whole(found.regions);
    if found.escape_index < st.escape_stack.len() {
        let entry = st.escape_stack[found.escape_index as int];
        if let Ok(expected) = embed::expected_depth(ss, st.stack, 0, 0, false) {
            let a = embed::without_orphans(cur.ops, st.shadow, first, expected);
            let (stack, r) = embed::unwound_to(a, ss, st.stack, first, entry.stack_depth);
            lemma_live(st.branch_points, stack.len() as int, st.pending_lines.len());
        }
    }
}

proof fn lemma_merged(st: StateV, snap: usize, new_ops: Seq<Seq<Op>>, new_bps: Seq<BpInfoV>)
    requires
        anchored(st),
        snap <= st.pending_lines.len(),
        new_ops.len() == st.pending_lines.len() - snap,
        new_bps.len() == new_ops.len(),
    ensures
        sound(st, corrections::merged(st, snap, new_ops, new_bps)),
{
}

proof fn lemma_taken_over(st: StateV, info: BpInfoV, snap: usize, replay: ReplayV)
    requires
        anchored(st),
        snap <= st.pending_lines.len(),
        replay.ops.len() == st.pending_lines.len() - snap,
    ensures
        sound(st, engine::replay_taken(st, info, snap, replay)),
{
    let bps = Seq::new(replay.ops.len(), |i: int| info);
    if replay.start is Some && replay.corrections.len() > 0 {
        let slot = |i: int|
            corrections::arbitrated_slot(
                i,
                snap,
                replay.ops,
                bps,
                replay.corrections,
                replay.start->0,
                info,
                replay.bps,
                st.shadow,
            );
        lemma_merged(
            st,
            snap,
            Seq::new(replay.ops.len(), |i: int| slot(i).0),
            Seq::new(replay.ops.len(), |i: int| slot(i).1),
        );
    } else {
        lemma_merged(st, snap, replay.ops, bps);
    }
}

proof fn lemma_alternative(st: StateV, bps: Seq<BranchV>, index: int, alt: int)
    requires
        anchored(st),
        within_window(bps, st.pending_lines.len()),
        0 <= index < bps.len(),
    ensures
        sound(st, engine::alternative_taken(st, bps, index, alt).0),
{
    let bp = bps[index];
    let updated = bps.update(index, BranchV { next_alternative: (alt + 1) as usize, ..bp });
    assert forall|i: int| 0 <= i < updated.len() implies sound_branch(
        #[trigger] updated[i],
        st.pending_lines.len(),
    ) by {
        assert(sound_branch(bps[i], st.pending_lines.len()));
    }
}

pub(crate) proof fn lemma_latest(bps: Seq<BranchV>, n: int, name: Seq<char>, stack_len: int)
    ensures
        engine::latest_branch(bps, n, name, stack_len) matches Some(i) ==> 0 <= i < bps.len(),
    decreases n,
{
    if !(n <= 0 || n > bps.len()) {
        lemma_latest(bps, n - 1, name, stack_len);
    }
}

proof fn lemma_tokens(
    fuel: nat,
    ss: Seq<SyntaxReference>,
    line: Seq<char>,
    st: StateV,
    cur: CursorV,
)
    requires
        anchored(st),
        engine::tokens_parsed(fuel, ss, line, st, cur) is Some,
    ensures
        sound(st, (engine::tokens_parsed(fuel, ss, line, st, cur)->0).0),
    decreases fuel, 0int, 0int,
{
    lemma_step((fuel - 1) as nat, ss, line, st, cur);
    if let Some((st1, Ok((cur1, true)))) = engine::stepped((fuel - 1) as nat, ss, line, st, cur) {
        lemma_tokens((fuel - 1) as nat, ss, line, st1, cur1);
    }
}

proof fn lemma_line(
    fuel: nat,
    ss: Seq<SyntaxReference>,
    st: StateV,
    line: Seq<char>,
    start_at: usize,
)
    requires
        anchored(st),
        engine::line_parsed(fuel, ss, st, line, start_at) is Some,
    ensures
        sound(st, (engine::line_parsed(fuel, ss, st, line, start_at)->0).0),
    decreases fuel, 1int, 0int,
{
    if let Ok(ops) = engine::opening(ss, st, start_at) {
        lemma_tokens(
            fuel,
            ss,
            line,
            engine::opened(st, start_at),
            CursorV { start: start_at, ops, ..engine::fresh_cursor() },
        );
    }
}

proof fn lemma_replay_lines(
    fuel: nat,
    ss: Seq<SyntaxReference>,
    st: StateV,
    plan: ReplayPlanV,
    i: int,
    acc: Seq<Seq<Op>>,
)
    requires
        anchored(st),
        0 <= i <= plan.lines.len(),
        plan.offset + plan.lines.len() <= st.pending_lines.len(),
        engine::replay_lines(fuel, ss, st, plan, i, acc) is Some,
    ensures
        sound(st, (engine::replay_lines(fuel, ss, st, plan, i, acc)->0).0),
        (engine::replay_lines(fuel, ss, st, plan, i, acc)->0).1 matches Ok(ops) ==> ops.len()
            == acc.len() + plan.lines.len() - i,
    decreases fuel, 2int, plan.lines.len() - i,
{
    if i < plan.lines.len() {
        let start_at = if i == 0 {
            plan.resume
        } else {
            0
        };
        let entry = engine::replay_entry(st, plan, i);
        lemma_line(fuel, ss, entry, plan.lines[i], start_at);
        if let Some((st1, Ok(tail))) = engine::line_parsed(
            fuel,
            ss,
            entry,
            plan.lines[i],
            start_at,
        ) {
            let st2 = StateV {
                replay_ctx: st.replay_ctx,
                replay_prefix_ops: st.replay_prefix_ops,
                ..st1
            };
            let line_ops = if i == 0 {
                plan.prefix + tail
            } else {
                tail
            };
            lemma_replay_lines(fuel, ss, st2, plan, i + 1, acc.push(line_ops));
        }
    }
}

proof fn lemma_replayed(fuel: nat, ss: Seq<SyntaxReference>, st: StateV, plan: ReplayPlanV)
    requires
        anchored(st),
        plan.offset + plan.lines.len() <= st.pending_lines.len(),
        engine::replayed(fuel, ss, st, plan) is Some,
    ensures
        sound(st, (engine::replayed(fuel, ss, st, plan)->0).0),
        (engine::replayed(fuel, ss, st, plan)->0).1 matches Ok(replay) ==> replay.ops.len()
            == plan.lines.len(),
    decreases fuel, 3int, 0int,
{
    lemma_replay_lines(fuel, ss, engine::replay_start(st), plan, 0, Seq::empty());
}

proof fn lemma_exhausted_entry(st: StateV, index: int)
    requires
        anchored(st),
        0 <= index < st.branch_points.len(),
    ensures
        ({
            let bp = st.branch_points[index];
            anchored(
                StateV {
                    branch_points: st.branch_points.remove(index),
                    ..engine::rewound(st, bp)
                },
            )
        }),
{
    let left = st.branch_points.remove(index);
    assert forall|i: int| 0 <= i < left.len() implies sound_branch(
        #[trigger] left[i],
        st.pending_lines.len(),
    ) by {
        let j = if i < index {
            i
        } else {
            i + 1
        };
        assert(left[i] == st.branch_points[j]);
    }
}

proof fn lemma_exhausted(
    fuel: nat,
    ss: Seq<SyntaxReference>,
    st: StateV,
    cur: CursorV,
    index: int,
)
    requires
        anchored(st),
        0 <= index < st.branch_points.len(),
        engine::exhausted(fuel, ss, st, cur, index) is Some,
    ensures
        sound_step(st, engine::exhausted(fuel, ss, st, cur, index)->0),
    decreases fuel, 4int, 0int,
{
    let bp = st.branch_points[index];
    let st1 = StateV {
        branch_points: st.branch_points.remove(index),
        ..engine::rewound(st, bp)
    };
    lemma_exhausted_entry(st, index);
    if bp.line_number < engine::current_line(st) {
        let plan = engine::exhausted_plan(st, bp);
        lemma_replayed(fuel, ss, st1, plan);
        if let Some((st2, Ok(replay))) = engine::replayed(fuel, ss, st1, plan) {
            lemma_taken_over(st2, engine::info_of(bp), bp.pending_lines_snapshot_len, replay);
        }
    }
}

proof fn lemma_alternative_replayed(
    fuel: nat,
    ss: Seq<SyntaxReference>,
    st: StateV,
    bp: BranchV,
    alt: int,
)
    requires
        anchored(st),
        bp.pending_lines_snapshot_len <= st.pending_lines.len(),
        engine::alternative_replayed(fuel, ss, st, bp, alt) is Some,
    ensures
        sound(st, (engine::alternative_replayed(fuel, ss, st, bp, alt)->0).0),
        (engine::alternative_replayed(fuel, ss, st, bp, alt)->0).1 matches Ok(replay)
            ==> replay.ops.len() == st.pending_lines.len() - bp.pending_lines_snapshot_len,
    decreases fuel, 4int, 0int,
{
    if let Ok(prefix) = engine::alternative_ops(bp.prefix_ops, ss, bp, alt) {
        lemma_replayed(fuel, ss, st, engine::alternative_plan(st, bp, prefix));
    }
}

proof fn lemma_forgotten(st: StateV, index: int)
    requires
        anchored(st),
    ensures
        sound(st, engine::prefix_forgotten(st, index)),
{
    let next = engine::prefix_forgotten(st, index);
    assert forall|i: int| 0 <= i < next.branch_points.len() implies sound_branch(
        #[trigger] next.branch_points[i],
        st.pending_lines.len(),
    ) by {
        assert(sound_branch(st.branch_points[i], st.pending_lines.len()));
    }
}

#[verifier::rlimit(40)]
proof fn lemma_retried_across(fuel: nat, ss: Seq<SyntaxReference>, st: StateV, index: int)
    requires
        anchored(st),
        0 <= index < st.branch_points.len(),
        engine::retried_across(fuel, ss, st, index) is Some,
    ensures
        sound_step(st, engine::retried_across(fuel, ss, st, index)->0),
    decreases fuel, 5int, 0int,
{
    let bp = st.branch_points[index];
    let snap = bp.pending_lines_snapshot_len;
    let info = engine::info_of(bp);
    let next = bp.next_alternative as int;
    let (st1, taken) = engine::alternative_taken(st, st.branch_points, index, next);
    lemma_alternative(st, st.branch_points, index, next);
    if taken is Ok {
        lemma_alternative_replayed(fuel, ss, st1, bp, next);
        if let Some((st2, Ok(replay))) = engine::alternative_replayed(fuel, ss, st1, bp, next) {
            if engine::jumps_to_field(bp, replay) {
                let field = engine::FIELD_ALTERNATIVE as int;
                let (st3, jumped) = engine::alternative_taken(
                    st2,
                    st1.branch_points,
                    index,
                    field,
                );
                lemma_alternative(st2, st1.branch_points, index, field);
                if jumped is Ok {
                    lemma_alternative_replayed(fuel, ss, st3, bp, field);
                    if let Some((st4, Ok(second))) = engine::alternative_replayed(
                        fuel,
                        ss,
                        st3,
                        bp,
                        field,
                    ) {
                        lemma_taken_over(st4, info, snap, second);
                        lemma_forgotten(engine::replay_taken(st4, info, snap, second), index);
                    }
                }
            } else {
                lemma_taken_over(st2, info, snap, replay);
                lemma_forgotten(engine::replay_taken(st2, info, snap, replay), index);
            }
        }
    }
}

proof fn lemma_retried_within(
    ss: Seq<SyntaxReference>,
    line: Seq<char>,
    st: StateV,
    cur: CursorV,
    index: int,
)
    requires
        anchored(st),
        0 <= index < st.branch_points.len(),
    ensures
        sound_step(st, engine::retried_within(ss, line, st, cur, index)),
{
    let bp = st.branch_points[index];
    let next = bp.next_alternative as int;
    let (st1, taken) = engine::alternative_taken(st, st.branch_points, index, next);
    lemma_alternative(st, st.branch_points, index, next);
    let kept = engine::ops_until(cur.ops, bp.ops_snapshot_len);
    let updated = st1.branch_points.update(
        index,
        BranchV { ops_snapshot_len: kept.len() as usize, ..st1.branch_points[index] },
    );
    assert forall|i: int| 0 <= i < updated.len() implies sound_branch(
        #[trigger] updated[i],
        st.pending_lines.len(),
    ) by {
        assert(sound_branch(st1.branch_points[i], st.pending_lines.len()));
    }
}

proof fn lemma_failed(
    fuel: nat,
    ss: Seq<SyntaxReference>,
    line: Seq<char>,
    st: StateV,
    cur: CursorV,
    name: Seq<char>,
)
    requires
        anchored(st),
        engine::failed(fuel, ss, line, st, cur, name) is Some,
    ensures
        sound_step(st, engine::failed(fuel, ss, line, st, cur, name)->0),
    decreases fuel, 5int, 1int,
{
    let n = st.branch_points.len() as int;
    lemma_latest(st.branch_points, n, name, st.stack.len() as int);
    if let Some(index) = engine::latest_branch(
        st.branch_points,
        n,
        name,
        st.stack.len() as int,
    ) {
        let bp = st.branch_points[index];
        if engine::current_line(st).saturating_sub(bp.line_number) > engine::MAX_BRANCH_AGE {
            let left = st.branch_points.remove(index);
            assert forall|i: int| 0 <= i < left.len() implies sound_branch(
                #[trigger] left[i],
                st.pending_lines.len(),
            ) by {
                let j = if i < index {
                    i
                } else {
                    i + 1
                };
                assert(left[i] == st.branch_points[j]);
            }
        } else if bp.next_alternative >= bp.alternatives.len() {
            lemma_exhausted(fuel, ss, st, cur, index);
        } else if bp.line_number < engine::current_line(st) {
            lemma_retried_across(fuel, ss, st, index);
        } else {
            lemma_retried_within(ss, line, st, cur, index);
        }
    }
}

#[verifier::rlimit(40)]
proof fn lemma_executed(
    fuel: nat,
    ss: Seq<SyntaxReference>,
    line: Seq<char>,
    st: StateV,
    cur: CursorV,
    pat: MatchPattern,
    region: RegionV,
)
    requires
        anchored(st),
        engine::executed(fuel, ss, line, st, cur, pat, region) is Some,
    ensures
        sound_step(st, engine::executed(fuel, ss, line, st, cur, pat, region)->0),
    decreases fuel, 6int, 0int,
{
    match pat.operation {
        MatchOperation::Fail(name) => {
            lemma_failed(fuel, ss, line, st, cur, name@);
        },
        MatchOperation::Branch { name, alternatives, pop_count } => {
            let bp = engine::new_branch(
                st,
                cur,
                pat,
                name@,
                views::of(alternatives@),
                pop_count,
                region,
            );
            let st1 = engine::with_branch(st, bp);
            assert(sound_branch(bp, st.pending_lines.len()));
            assert forall|i: int| 0 <= i < st1.branch_points.len() implies sound_branch(
                #[trigger] st1.branch_points[i],
                st.pending_lines.len(),
            ) by {
                if i < st.branch_points.len() {
                    assert(st1.branch_points[i] == st.branch_points[i]);
                }
            }
            lemma_performed_push(
                st1,
                ss,
                line,
                region,
                engine::first_alternative(views::of(alternatives@)),
                pop_count,
                views::opt(pat.with_prototype),
            );
        },
        _ => {
            lemma_performed(
                st,
                ss,
                line,
                region,
                pat.operation,
                views::opt(pat.with_prototype),
            );
        },
    }
}

proof fn lemma_rule_step(
    fuel: nat,
    ss: Seq<SyntaxReference>,
    line: Seq<char>,
    st: StateV,
    cur: CursorV,
    pat: MatchPattern,
    found: FoundV,
)
    requires
        anchored(st),
        engine::rule_step(fuel, ss, line, st, cur, pat, found) is Some,
    ensures
        sound_step(st, engine::rule_step(fuel, ss, line, st, cur, pat, found)->0),
    decreases fuel, 7int, 0int,
{
    if pat.operation is Fail {
        lemma_executed(fuel, ss, line, st, cur, pat, found.regions);
    } else if !engine::eol_branch(line, st, cur, pat, found) {
        lemma_executed(
            fuel,
            ss,
            line,
            engine::rule_entry(st, found),
            engine::rule_cursor(st, cur, pat, found),
            pat,
            found.regions,
        );
    }
}

#[verifier::rlimit(40)]
proof fn lemma_step(
    fuel: nat,
    ss: Seq<SyntaxReference>,
    line: Seq<char>,
    st: StateV,
    cur: CursorV,
)
    requires
        anchored(st),
        engine::stepped(fuel, ss, line, st, cur) is Some,
    ensures
        sound_step(st, engine::stepped(fuel, ss, line, st, cur)->0),
    decreases fuel, 8int, 0int,
{
    let len = st.stack.len() as int;
    let st1 = StateV { proto_starts: engine::trimmed(st.proto_starts, len), ..st };
    let armed = engine::loop_armed(cur, len);
    let pre = cur.push_mark.1;
    if let Some(Ok((memory, Some(found)))) = search::best_match(
        fuel,
        ss,
        line,
        st1,
        cur.start,
        cur.memory,
        armed,
        pre,
    ) {
        let cur1 = CursorV { memory, ..cur };
        match found.rule {
            None => {
                lemma_escape(ss, line, st1, cur1, found);
            },
            Some(rule) => if !found.would_loop {
                if let Ok(context) = syntax::context_of(ss, rule.0) {
                    if let Ok(pat) = syntax::rule_at(context, rule.1) {
                        lemma_rule_step(fuel, ss, line, st1, cur1, pat, found);
                    }
                }
            },
        }
    }
}

/// What holds of the window between two lines: no corrections are left over, and
/// the pending lines go with the branch points.
pub open spec fn between_lines(st: StateV) -> bool {
    &&& anchored(st)
    &&& st.pending_line_start_shadows.len() == st.pending_lines.len()
    &&& st.pending_line_ops.len() == st.pending_lines.len()
    &&& st.branch_points.len() == 0 <==> st.pending_lines.len() == 0
    &&& st.flushed_ops_start is None
    &&& st.warnings.len() == 0
    &&& st.replay_ctx is None
    &&& st.replay_prefix_ops is None
}

/// The consumer's stack after the pending line `i`.
pub open spec fn stack_after(st: StateV, i: int) -> StackV {
    if i + 1 < st.pending_line_start_shadows.len() {
        st.pending_line_start_shadows[i + 1]
    } else {
        st.shadow
    }
}

/// Whether the recorded stacks are those of a consumer that applied what it was
/// last told of each pending line.
pub open spec fn mirrored(st: StateV) -> bool {
    forall|i: int|
        0 <= i < st.pending_line_ops.len() ==> scope::applied_all(
            st.pending_line_start_shadows[i],
            #[trigger] st.pending_line_ops[i],
        ) == stack_after(st, i)
}

/// The stack `s` after the operations of `lines[i..]`, line by line.
pub open spec fn applied_lines(s: StackV, lines: Seq<Seq<Op>>, i: int) -> StackV
    decreases lines.len() - i,
{
    if i < 0 || i >= lines.len() {
        s
    } else {
        applied_lines(scope::applied_all(s, lines[i]), lines, i + 1)
    }
}

proof fn lemma_entered(st: StateV)
    requires
        anchored(st),
    ensures
        anchored(parser::entered(st)),
{
    lemma_filtered(
        st.branch_points,
        |bp: BranchV| parser::is_young(bp, st.line_number),
        st.pending_lines.len(),
    );
}

/// What the parse of a line does to the window.
pub(crate) proof fn lemma_parsed(
    fuel: nat,
    ss: Seq<SyntaxReference>,
    st: StateV,
    line: Seq<char>,
)
    requires
        anchored(st),
        parser::parsed(fuel, ss, st, line) is Some,
    ensures
        sound(parser::entered(st), (parser::parsed(fuel, ss, st, line)->0).0),
{
    reveal(parser::parsed);
    lemma_entered(st);
    lemma_line(fuel, ss, parser::entered(st), line, 0);
}

pub(crate) proof fn lemma_replaced(window: Seq<Seq<Op>>, lines: Seq<Seq<Op>>, first: int, i: int)
    requires
        0 <= i <= lines.len(),
        0 <= first,
        first + lines.len() == window.len(),
    ensures
        ({
            let r = parser::replaced(window, lines, first, i);
            &&& r.len() == window.len()
            &&& forall|j: int| 0 <= j < first + i ==> #[trigger] r[j] == window[j]
            &&& forall|j: int| first + i <= j < window.len() ==> #[trigger] r[j] == lines[j - first]
        }),
    decreases lines.len() - i,
{
    if i < lines.len() {
        lemma_replaced(window.update(first + i, lines[i]), lines, first, i + 1);
    }
}

proof fn lemma_resettled(
    stacks: Seq<StackV>,
    now: StackV,
    lines: Seq<Seq<Op>>,
    first: int,
    i: int,
)
    requires
        0 <= i <= lines.len(),
        0 <= first,
        first + lines.len() == stacks.len(),
        i < lines.len() ==> stacks[first + i] == now,
    ensures
        ({
            let (r, last) = parser::resettled(stacks, now, lines, first, i);
            &&& r.len() == stacks.len()
            &&& forall|j: int|
                0 <= j <= first + i && j < stacks.len() ==> #[trigger] r[j] == stacks[j]
            &&& forall|k: int|
                first + i <= k < stacks.len() ==> scope::applied_all(
                    #[trigger] r[k],
                    lines[k - first],
                ) == if k + 1 < stacks.len() {
                    r[k + 1]
                } else {
                    last
                }
        }),
    decreases lines.len() - i,
{
    if i < lines.len() {
        let after = scope::applied_all(now, lines[i]);
        let next = if first + i + 1 < stacks.len() {
            stacks.update(first + i + 1, after)
        } else {
            stacks
        };
        lemma_resettled(next, after, lines, first, i + 1);
        let (r, last) = parser::resettled(next, after, lines, first, i + 1);
        assert(r[first + i] == next[first + i]);
        assert forall|k: int| first + i <= k < stacks.len() implies scope::applied_all(
            #[trigger] r[k],
            lines[k - first],
        ) == if k + 1 < stacks.len() {
            r[k + 1]
        } else {
            last
        } by {
            if k == first + i && k + 1 < stacks.len() {
                assert(r[k + 1] == next[k + 1]);
            }
        }
    }
}

/// What `corrected` makes of a window whose corrections are aligned.
#[verifier::rlimit(40)]
proof fn lemma_corrected(st: StateV)
    requires
        anchored(st),
        st.pending_line_start_shadows.len() == st.pending_lines.len(),
        st.pending_line_ops.len() == st.pending_lines.len(),
        mirrored(st),
    ensures
        ({
            let mid = parser::corrected(st);
            &&& mid.pending_lines == st.pending_lines
            &&& mid.branch_points == st.branch_points
            &&& mid.pending_line_start_shadows.len() == st.pending_lines.len()
            &&& mid.pending_line_ops.len() == st.pending_lines.len()
            &&& st.pending_lines.len() > 0 ==> mid.pending_line_start_shadows[0]
                == st.pending_line_start_shadows[0]
            &&& mirrored(mid)
        }),
{
    let first = st.pending_lines.len() - st.flushed_ops.len();
    let lines = parser::placed(st.flushed_ops, st.pending_lines, first);
    let mid = parser::corrected(st);
    if lines.len() > 0 {
        assert(first == (st.pending_lines.len() as usize).saturating_sub(lines.len() as usize));
        lemma_resettled(
            st.pending_line_start_shadows,
            st.pending_line_start_shadows[first],
            lines,
            first,
            0,
        );
        lemma_replaced(st.pending_line_ops, lines, first, 0);
        let (stacks, now) = parser::resettled(
            st.pending_line_start_shadows,
            st.pending_line_start_shadows[first],
            lines,
            first,
            0,
        );
        assert(mid.pending_line_start_shadows == stacks);
        assert forall|i: int| 0 <= i < mid.pending_line_ops.len() implies scope::applied_all(
            mid.pending_line_start_shadows[i],
            #[trigger] mid.pending_line_ops[i],
        ) == stack_after(mid, i) by {
            assert(stacks[i] == mid.pending_line_start_shadows[i]);
            if i < first {
                assert(mid.pending_line_ops[i] == st.pending_line_ops[i]);
                assert(stacks[i] == st.pending_line_start_shadows[i]);
                assert(stacks[i + 1] == st.pending_line_start_shadows[i + 1]);
            } else {
                assert(mid.pending_line_ops[i] == lines[i - first]);
            }
        }
    } else {
        assert forall|i: int| 0 <= i < mid.pending_line_ops.len() implies scope::applied_all(
            mid.pending_line_start_shadows[i],
            #[trigger] mid.pending_line_ops[i],
        ) == stack_after(mid, i) by {
            assert(mid.pending_line_ops[i] == st.pending_line_ops[i]);
        }
    }
}

proof fn lemma_mirrored_end(st: StateV, i: int)
    requires
        mirrored(st),
        st.pending_line_start_shadows.len() == st.pending_line_ops.len(),
        0 <= i < st.pending_line_ops.len(),
    ensures
        applied_lines(st.pending_line_start_shadows[i], st.pending_line_ops, i) == st.shadow,
    decreases st.pending_line_ops.len() - i,
{
    reveal_with_fuel(applied_lines, 2);
    assert(scope::applied_all(st.pending_line_start_shadows[i], st.pending_line_ops[i])
        == stack_after(st, i));
    if i + 1 < st.pending_line_ops.len() {
        lemma_mirrored_end(st, i + 1);
    }
}

/// A fresh state stands between two lines.
pub proof fn law_fresh_state(syntax: SyntaxReference)
    ensures
        between_lines(parser::initial(parser::start_level(syntax))),
        mirrored(parser::initial(parser::start_level(syntax))),
        parser::open_lines(parser::initial(parser::start_level(syntax))) == 0,
{
}

/// Between two lines the parser is speculative exactly if lines are open.
pub proof fn law_speculative_means_open(st: StateV)
    requires
        between_lines(st),
    ensures
        st.branch_points.len() > 0 <==> parser::open_lines(st) > 0,
{
}

pub(crate) proof fn lemma_members(bps: Seq<BranchV>, p: spec_fn(BranchV) -> bool)
    ensures
        forall|i: int|
            0 <= i < bps.filter(p).len() ==> p(#[trigger] bps.filter(p)[i]) && bps.contains(
                bps.filter(p)[i],
            ),
    decreases bps.len(),
{
    reveal(Seq::filter);
    if bps.len() > 0 {
        let front = bps.drop_last();
        lemma_members(front, p);
        let left = bps.filter(p);
        assert forall|i: int| 0 <= i < left.len() implies p(#[trigger] left[i]) && bps.contains(
            left[i],
        ) by {
            if i < front.filter(p).len() {
                assert(left[i] == front.filter(p)[i]);
                let k = choose|k: int| 0 <= k < front.len() && front[k] == left[i];
                assert(bps[k] == left[i]);
            } else {
                assert(left[i] == bps[bps.len() - 1]);
            }
        }
    }
}

proof fn lemma_young(bps: Seq<BranchV>, line_number: usize)
    ensures
        forall|i: int|
            0 <= i < parser::young_branches(bps, line_number).len() ==> parser::is_young(
                #[trigger] parser::young_branches(bps, line_number)[i],
                line_number,
            ) && bps.contains(parser::young_branches(bps, line_number)[i]),
{
    lemma_members(bps, |bp: BranchV| parser::is_young(bp, line_number));
}

proof fn lemma_expiry_count(acc: Seq<WarningV>, bps: Seq<BranchV>, i: int, line_number: usize)
    requires
        0 <= i <= bps.len(),
    ensures
        acc.is_prefix_of(parser::expiry_warnings(acc, bps, i, line_number)),
        parser::expiry_warnings(acc, bps, i, line_number).len() == acc.len() + bps.len()
            - parser::young_branches(bps, line_number).len() - (i - parser::young_branches(
            bps.subrange(0, i),
            line_number,
        ).len()),
    decreases bps.len() - i,
{
    let r = parser::expiry_warnings(acc, bps, i, line_number);
    if i < bps.len() {
        let next = if parser::is_young(bps[i], line_number) {
            acc
        } else {
            acc.push(WarningV::BranchPointExpired { name: bps[i].name })
        };
        lemma_expiry_count(next, bps, i + 1, line_number);
        views::lemma_filter_step(bps, i, |bp: BranchV| parser::is_young(bp, line_number));
        assert(r.subrange(0, next.len() as int) == next);
        assert(r.subrange(0, acc.len() as int) =~= next.subrange(0, acc.len() as int));
        assert(next.subrange(0, acc.len() as int) =~= acc);
    } else {
        assert(bps.subrange(0, i) =~= bps);
        assert(acc.subrange(0, acc.len() as int) =~= acc);
    }
}

/// No line is parsed with a branch point of more than 128 lines before, and each
/// one that expires so gives a warning.
pub proof fn law_branch_points_expire(st: StateV)
    ensures
        ({
            let e = parser::entered(st);
            &&& forall|i: int|
                0 <= i < e.branch_points.len() ==> parser::is_young(
                    #[trigger] e.branch_points[i],
                    st.line_number,
                )
            &&& e.warnings.len() == st.warnings.len() + st.branch_points.len()
                - e.branch_points.len()
            &&& st.warnings.is_prefix_of(e.warnings)
        }),
{
    lemma_young(st.branch_points, st.line_number);
    lemma_expiry_count(st.warnings, st.branch_points, 0, st.line_number);
    reveal(Seq::filter);
    assert(st.branch_points.subrange(0, 0) =~= Seq::<BranchV>::empty());
}

/// A window that no younger branch point keeps open closes: once all branch points
/// are more than 128 lines old, none is left.
pub proof fn law_old_window_closes(st: StateV)
    requires
        forall|i: int|
            0 <= i < st.branch_points.len() ==> !parser::is_young(
                #[trigger] st.branch_points[i],
                st.line_number,
            ),
    ensures
        parser::entered(st).branch_points.len() == 0,
{
    lemma_young(st.branch_points, st.line_number);
    let left = parser::entered(st).branch_points;
    if left.len() > 0 {
        assert(parser::is_young(left[0], st.line_number));
        let k = choose|k: int| 0 <= k < st.branch_points.len() && st.branch_points[k] == left[0];
        assert(!parser::is_young(st.branch_points[k], st.line_number));
    }
}

/// `revised` replaces exactly the window: as many lines as were still open before
/// the call. After the call the window is closed, or one line longer.
#[verifier::rlimit(40)]
pub proof fn law_revision_covers_window(
    fuel: nat,
    ss: Seq<SyntaxReference>,
    st: StateV,
    line: Seq<char>,
)
    requires
        between_lines(st),
        st.pending_lines.len() < usize::MAX,
        parser::output_within(fuel, ss, st, line) is Some,
        (parser::output_within(fuel, ss, st, line)->0).1 is Ok,
    ensures
        ({
            let (next, out) = parser::output_within(fuel, ss, st, line)->0;
            &&& out->Ok_0.revised matches Some(lines) ==> lines.len() == parser::open_lines(st)
                && lines.len() > 0
            &&& parser::open_lines(next) == 0 || parser::open_lines(next) == parser::open_lines(st)
                + 1
            &&& between_lines(next)
        }),
{
    if st.stack.len() > 0 {
        lemma_parsed(fuel, ss, st, line);
        if let Some((st1, Ok(raw))) = parser::parsed(fuel, ss, st, line) {
            let ops = emit::levelled(raw, text::byte_len(line));
            let next = parser::closed_line(st1, line, ops);
            let first = st1.pending_lines.len() - st1.flushed_ops.len();
            let lines = parser::placed(st1.flushed_ops, st1.pending_lines, first);
            if st1.flushed_ops.len() > 0 {
                assert(first == (st1.pending_lines.len() as usize).saturating_sub(
                    st1.flushed_ops.len() as usize,
                ));
                lemma_replaced(st1.pending_line_ops, lines, first, 0);
                lemma_stacks_len(
                    st1.pending_line_start_shadows,
                    st1.pending_line_start_shadows[first],
                    lines,
                    first,
                    0,
                );
            }
            assert(within_window(next.branch_points, next.pending_lines.len()));
        }
    }
}

/// After a line the window holds what the consumer was told, and the new line.
pub(crate) proof fn lemma_window_ops(
    fuel: nat,
    ss: Seq<SyntaxReference>,
    st: StateV,
    line: Seq<char>,
)
    requires
        between_lines(st),
        parser::output_within(fuel, ss, st, line) is Some,
        (parser::output_within(fuel, ss, st, line)->0).1 is Ok,
    ensures
        ({
            let (next, out) = parser::output_within(fuel, ss, st, line)->0;
            next.pending_line_ops == if next.branch_points.len() > 0 {
                match out->Ok_0.revised {
                    Some(lines) => lines.push(out->Ok_0.ops),
                    None => st.pending_line_ops.push(out->Ok_0.ops),
                }
            } else {
                Seq::empty()
            }
        }),
{
    if st.stack.len() > 0 {
        lemma_parsed(fuel, ss, st, line);
        if let Some((st1, Ok(ops))) = parser::parsed(fuel, ss, st, line) {
            let mid = parser::corrected(st1);
            if st1.flushed_ops.len() > 0 {
                let first = st1.pending_lines.len() - st1.flushed_ops.len();
                assert(first == (st1.pending_lines.len() as usize).saturating_sub(
                    st1.flushed_ops.len() as usize,
                ));
                let lines = parser::placed(st1.flushed_ops, st1.pending_lines, first);
                lemma_replaced(st1.pending_line_ops, lines, first, 0);
                assert(mid.pending_line_ops.subrange(0, mid.pending_line_ops.len() as int)
                    =~= mid.pending_line_ops);
            }
        }
    }
}

proof fn lemma_stacks_len(
    stacks: Seq<StackV>,
    now: StackV,
    lines: Seq<Seq<Op>>,
    first: int,
    i: int,
)
    ensures
        parser::resettled(stacks, now, lines, first, i).0.len() == stacks.len(),
    decreases lines.len() - i,
{
    if 0 <= i < lines.len() {
        let after = scope::applied_all(now, lines[i]);
        let next = if 0 <= first + i + 1 < stacks.len() {
            stacks.update(first + i + 1, after)
        } else {
            stacks
        };
        lemma_stacks_len(next, after, lines, first, i + 1);
    }
}

/// A consumer that goes back to the stack it had at the start of the window,
/// applies `revised` and then `ops`, or only `ops` where nothing is revised, has
/// the stack that the parser takes it to have. The stack at the start of the
/// window never changes while the window is open.
#[verifier::rlimit(40)]
pub proof fn law_consumer_in_step(
    fuel: nat,
    ss: Seq<SyntaxReference>,
    st: StateV,
    line: Seq<char>,
)
    requires
        between_lines(st),
        mirrored(st),
        st.pending_lines.len() < usize::MAX,
        parser::output_within(fuel, ss, st, line) is Some,
        (parser::output_within(fuel, ss, st, line)->0).1 is Ok,
    ensures
        ({
            let (next, out) = parser::output_within(fuel, ss, st, line)->0;
            &&& next.shadow == scope::applied_all(
                match out->Ok_0.revised {
                    Some(lines) => applied_lines(st.pending_line_start_shadows[0], lines, 0),
                    None => st.shadow,
                },
                out->Ok_0.ops,
            )
            &&& mirrored(next)
            &&& next.pending_lines.len() > 0 ==> next.pending_line_start_shadows[0] == if parser::open_lines(
                st,
            ) > 0 {
                st.pending_line_start_shadows[0]
            } else {
                st.shadow
            }
        }),
{
    if st.stack.len() > 0 {
        lemma_parsed(fuel, ss, st, line);
        if let Some((st1, Ok(raw))) = parser::parsed(fuel, ss, st, line) {
            let ops = emit::levelled(raw, text::byte_len(line));
            let mid = parser::corrected(st1);
            let next = parser::closed_line(st1, line, ops);
            assert(mirrored(st1)) by {
                assert forall|i: int| 0 <= i < st1.pending_line_ops.len() implies scope::applied_all(
                    st1.pending_line_start_shadows[i],
                    #[trigger] st1.pending_line_ops[i],
                ) == stack_after(st1, i) by {
                    assert(st.pending_line_ops[i] == st1.pending_line_ops[i]);
                }
            }
            lemma_corrected(st1);
            let n = mid.pending_line_ops.len() as int;
            assert forall|i: int| 0 <= i < next.pending_line_ops.len() implies scope::applied_all(
                next.pending_line_start_shadows[i],
                #[trigger] next.pending_line_ops[i],
            ) == stack_after(next, i) by {
                if i < n {
                    assert(mid.pending_line_ops[i] == next.pending_line_ops[i]);
                    assert(stack_after(mid, i) == stack_after(next, i));
                }
            }
            if st1.flushed_ops.len() > 0 {
                assert(mid.pending_line_ops.subrange(0, n) =~= mid.pending_line_ops);
                lemma_mirrored_end(mid, 0);
            }
        }
    }
}

} // verus!
