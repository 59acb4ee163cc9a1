//! What a `fail` does: it goes back to the latest branch point of its name and takes
//! the first alternative that was not tried yet, on the same line or by parsing the
//! lines since once more.

use crate::cache::CacheV;
use crate::effects;
use crate::engine;
use crate::engine::{CursorV, ReplayPlanV, ReplayV};
use crate::parser;
use crate::perform;
use crate::scope;
use crate::scope::{Op, ScopeStackOp};
use crate::search::FoundV;
use crate::state::{BranchV, LevelV, StateV, WarningV};
use crate::syntax;
use crate::syntax::{ContextId, ErrorV, MatchOperation, MatchPattern, ReferenceV, SyntaxReference};
use crate::text;
use vstd::prelude::*;

verus! {

/// The number of the line that is being parsed, or parsed once more.
pub open spec fn line_now(st: StateV) -> usize {
    if st.replay_ctx is Some {
        (st.replay_ctx->0).line_number
    } else {
        st.line_number.saturating_sub(1)
    }
}

/// Whether the branch point at `index` is the latest one of that name whose alternative
/// is still on the stack.
pub open spec fn names(st: StateV, name: Seq<char>, index: int) -> bool {
    let depth = st.stack.len() as int;
    &&& 0 <= index < st.branch_points.len()
    &&& st.branch_points[index].name == name
    &&& effects::within_reach(st.branch_points[index], depth)
    &&& forall|j: int|
        index < j < st.branch_points.len() && (#[trigger] st.branch_points[j]).name == name
            ==> !effects::within_reach(st.branch_points[j], depth)
}

/// Whether a branch point is at most 128 lines old.
pub open spec fn recent(st: StateV, bp: BranchV) -> bool {
    line_now(st) <= bp.line_number + 128
}

proof fn lemma_latest(bps: Seq<BranchV>, n: int, name: Seq<char>, depth: int, index: int)
    requires
        0 <= index < n <= bps.len(),
        bps[index].name == name,
        effects::within_reach(bps[index], depth),
        forall|j: int|
            index < j < n && (#[trigger] bps[j]).name == name ==> !effects::within_reach(
                bps[j],
                depth,
            ),
    ensures
        engine::latest_branch(bps, n, name, depth) == Some(index),
    decreases n,
{
    if n - 1 > index {
        assert(bps[n - 1].name == name ==> !effects::within_reach(bps[n - 1], depth));
        lemma_latest(bps, n - 1, name, depth, index);
    }
}

/// The stack that goes on with alternative `alt`: the one of the branch match, less the
/// frames that the branch pops, with the frame of that alternative on top.
pub open spec fn goes_on_with(bp: BranchV, alt: int, stack: Seq<LevelV>) -> bool {
    let keep: int = if bp.pop_count >= bp.stack_snapshot.len() {
        0
    } else {
        bp.stack_snapshot.len() - bp.pop_count
    };
    &&& stack.len() == keep + 1
    &&& stack.subrange(0, keep) == bp.stack_snapshot.subrange(0, keep)
    &&& ReferenceV::Direct(stack.last().context) == bp.alternatives[alt]
    &&& match bp.with_prototype {
        None => stack.last().prototypes.len() == 0,
        Some(p) => stack.last().prototypes.len() == 1 && p == ReferenceV::Direct(
            stack.last().prototypes[0],
        ),
    }
    &&& stack.last().captures is None
}

/// Whether alternative `alt` can be followed.
pub open spec fn follows(bp: BranchV, alt: int) -> bool {
    bp.alternatives[alt] is Direct && (bp.with_prototype matches Some(p) ==> p is Direct)
}

/// The state that goes on with alternative `alt` of the branch point at `index`, having
/// this stack: what the branch point recorded comes back, and the alternative counts as
/// tried.
pub open spec fn gone_back(
    st: StateV,
    bps: Seq<BranchV>,
    index: int,
    alt: int,
    stack: Seq<LevelV>,
) -> StateV {
    let bp = bps[index];
    StateV {
        stack,
        proto_starts: bp.proto_starts_snapshot,
        escape_stack: bp.escape_stack_snapshot,
        first_line: bp.first_line_snapshot,
        branch_points: bps.update(index, BranchV { next_alternative: (alt + 1) as usize, ..bp }),
        ..st
    }
}

proof fn lemma_taken(
    st: StateV,
    bps: Seq<BranchV>,
    index: int,
    alt: int,
    stack: Seq<LevelV>,
)
    requires
        0 <= index < bps.len(),
        0 <= alt < bps[index].alternatives.len(),
        goes_on_with(bps[index], alt, stack),
    ensures
        follows(bps[index], alt),
        engine::alternative_taken(st, bps, index, alt) == (
            gone_back(st, bps, index, alt, stack),
            Ok::<(), ErrorV>(()),
        ),
{
    let bp = bps[index];
    let base = perform::without_top(bp.stack_snapshot, bp.pop_count as int);
    let level = stack.last();
    let keep = stack.len() - 1;
    assert(base =~= stack.subrange(0, keep));
    let prototypes: Seq<ContextId> = match bp.with_prototype {
        Some(p) => seq![syntax::reference_id(p)->Ok_0],
        None => Seq::empty(),
    };
    assert(level.prototypes =~= prototypes);
    assert(base.push(LevelV { context: level.context, prototypes, captures: None }) =~= stack);
}

/// The stack that goes on with an alternative exists where it can be followed.
proof fn lemma_stack_exists(bp: BranchV, alt: int) -> (stack: Seq<LevelV>)
    requires
        follows(bp, alt),
    ensures
        goes_on_with(bp, alt, stack),
{
    let keep: int = if bp.pop_count >= bp.stack_snapshot.len() {
        0
    } else {
        bp.stack_snapshot.len() - bp.pop_count
    };
    let prototypes: Seq<ContextId> = match bp.with_prototype {
        Some(p) => seq![p->Direct_0],
        None => Seq::empty(),
    };
    let level = LevelV { context: bp.alternatives[alt]->Direct_0, prototypes, captures: None };
    let stack = bp.stack_snapshot.subrange(0, keep).push(level);
    assert(stack.subrange(0, keep) =~= bp.stack_snapshot.subrange(0, keep));
    stack
}

/// The operations that a line had before the branch match, from what it has now.
pub open spec fn before_branch(ops: Seq<Op>, bp: BranchV) -> Seq<Op> {
    if bp.ops_snapshot_len < ops.len() {
        ops.subrange(0, bp.ops_snapshot_len as int)
    } else {
        ops
    }
}

/// The operations `acc`, then those of the branch match for alternative `alt`.
pub open spec fn with_alternative(acc: Seq<Op>, ss: Seq<SyntaxReference>, bp: BranchV, alt: int) -> Result<
    Seq<Op>,
    ErrorV,
> {
    engine::branch_ops(
        acc,
        ss,
        bp.stack_snapshot,
        bp.trigger_match_start,
        bp.match_start,
        bp.pat_scope,
        bp.capture_ops,
        seq![bp.alternatives[alt]],
        bp.pop_count,
    )
}

/// A `fail` on the line of a branch point that has an alternative left: whatever was
/// done since the branch match is forgotten, and the first alternative that was not
/// tried goes on from there. Which one that is counts up by one, so every alternative
/// is tried in its turn.
#[verifier::rlimit(30)]
pub proof fn law_fail_takes_next_alternative(
    fuel: nat,
    ss: Seq<SyntaxReference>,
    line: Seq<char>,
    st: StateV,
    cur: CursorV,
    starts: Seq<usize>,
    memory: CacheV,
    found: FoundV,
    pat: MatchPattern,
    name: Seq<char>,
    index: int,
) -> (stack: Seq<LevelV>)
    requires
        effects::finds(fuel, ss, line, st, cur, starts, memory, found, pat),
        pat.operation matches MatchOperation::Fail(n) && n@ == name,
        names(st, name, index),
        recent(st, st.branch_points[index]),
        st.branch_points[index].line_number >= line_now(st),
        st.branch_points[index].next_alternative < st.branch_points[index].alternatives.len(),
        cur.ops.len() <= usize::MAX,
    ensures
        ({
            let bp = st.branch_points[index];
            let alt = bp.next_alternative as int;
            let kept = before_branch(cur.ops, bp);
            let step = engine::stepped(fuel, ss, line, st, cur);
            &&& step is Some
            &&& follows(bp, alt) && with_alternative(kept, ss, bp, alt) is Ok <==> (step->0).1 is Ok
            &&& (step->0).1 matches Ok((cur1, more)) ==> {
                let next = (step->0).0;
                &&& more
                &&& goes_on_with(bp, alt, stack)
                &&& next == (StateV {
                    branch_points: st.branch_points.update(
                        index,
                        BranchV {
                            next_alternative: (alt + 1) as usize,
                            ops_snapshot_len: kept.len() as usize,
                            ..bp
                        },
                    ),
                    ..gone_back(st, st.branch_points, index, alt, stack)
                })
                &&& cur1.start == if bp.match_start == 0 && text::is_blank(line) {
                    text::byte_len(line)
                } else {
                    bp.match_start
                }
                &&& with_alternative(kept, ss, bp, alt) == Ok::<Seq<Op>, ErrorV>(cur1.ops)
                &&& cur1.push_mark == bp.non_consuming_push_at_snapshot
                &&& cur1.memory == CacheV::empty()
            }
        }),
{
    let bp = st.branch_points[index];
    let alt = bp.next_alternative as int;
    effects::lemma_trimmed(st.proto_starts, st.stack.len(), starts);
    lemma_latest(
        st.branch_points,
        st.branch_points.len() as int,
        name,
        st.stack.len() as int,
        index,
    );
    let st1 = StateV { proto_starts: starts, ..st };
    let kept = before_branch(cur.ops, bp);
    assert(kept =~= engine::ops_until(cur.ops, bp.ops_snapshot_len));
    if follows(bp, alt) {
        let stack = lemma_stack_exists(bp, alt);
        lemma_taken(st1, st.branch_points, index, alt, stack);
        let taken = gone_back(st1, st.branch_points, index, alt, stack);
        assert(taken.branch_points.update(
            index,
            BranchV { ops_snapshot_len: kept.len() as usize, ..taken.branch_points[index] },
        ) =~= st.branch_points.update(
            index,
            BranchV {
                next_alternative: (alt + 1) as usize,
                ops_snapshot_len: kept.len() as usize,
                ..bp
            },
        ));
        stack
    } else {
        Seq::empty()
    }
}

/// A `fail` on the line of a branch point all of whose alternatives were tried: the
/// branch point is given up, and the line goes on from the branch match as if it had
/// not matched; it is held off there.
pub proof fn law_tried_branch_is_given_up(
    fuel: nat,
    ss: Seq<SyntaxReference>,
    line: Seq<char>,
    st: StateV,
    cur: CursorV,
    starts: Seq<usize>,
    memory: CacheV,
    found: FoundV,
    pat: MatchPattern,
    name: Seq<char>,
    index: int,
)
    requires
        effects::finds(fuel, ss, line, st, cur, starts, memory, found, pat),
        pat.operation matches MatchOperation::Fail(n) && n@ == name,
        names(st, name, index),
        recent(st, st.branch_points[index]),
        st.branch_points[index].line_number >= line_now(st),
        st.branch_points[index].next_alternative >= st.branch_points[index].alternatives.len(),
    ensures
        ({
            let bp = st.branch_points[index];
            engine::stepped(fuel, ss, line, st, cur) == Some(
                (
                    StateV {
                        stack: bp.stack_snapshot,
                        proto_starts: bp.proto_starts_snapshot,
                        escape_stack: bp.escape_stack_snapshot,
                        first_line: bp.first_line_snapshot,
                        branch_points: st.branch_points.remove(index),
                        skipped_branches: st.skipped_branches.push((bp.match_start, name)),
                        ..st
                    },
                    Ok::<(CursorV, bool), ErrorV>(
                        (
                            CursorV {
                                start: bp.match_start,
                                push_mark: bp.non_consuming_push_at_snapshot,
                                ops: before_branch(cur.ops, bp),
                                memory: CacheV::empty(),
                            },
                            true,
                        ),
                    ),
                ),
            )
        }),
{
    let bp = st.branch_points[index];
    effects::lemma_trimmed(st.proto_starts, st.stack.len(), starts);
    lemma_latest(
        st.branch_points,
        st.branch_points.len() as int,
        name,
        st.stack.len() as int,
        index,
    );
    assert(before_branch(cur.ops, bp) =~= engine::ops_until(cur.ops, bp.ops_snapshot_len));
}

/// A `fail` that names no branch point with its alternative on the stack, or one that
/// is too old, changes nothing else: the line is over. One that is too old is dropped
/// with a warning.
pub proof fn law_fail_without_branch(
    fuel: nat,
    ss: Seq<SyntaxReference>,
    line: Seq<char>,
    st: StateV,
    cur: CursorV,
    starts: Seq<usize>,
    memory: CacheV,
    found: FoundV,
    pat: MatchPattern,
    name: Seq<char>,
)
    requires
        effects::finds(fuel, ss, line, st, cur, starts, memory, found, pat),
        pat.operation matches MatchOperation::Fail(n) && n@ == name,
    ensures
        (forall|j: int|
            0 <= j < st.branch_points.len() && (#[trigger] st.branch_points[j]).name == name
                ==> !effects::within_reach(st.branch_points[j], st.stack.len() as int))
            ==> engine::stepped(fuel, ss, line, st, cur) == Some(
            (
                StateV { proto_starts: starts, ..st },
                Ok::<(CursorV, bool), ErrorV>((CursorV { memory, ..cur }, false)),
            ),
        ),
        forall|index: int|
            #[trigger] names(st, name, index) && !recent(st, st.branch_points[index])
                ==> engine::stepped(fuel, ss, line, st, cur) == Some(
                (
                    StateV {
                        proto_starts: starts,
                        branch_points: st.branch_points.remove(index),
                        warnings: st.warnings.push(WarningV::BranchPointExpired { name }),
                        ..st
                    },
                    Ok::<(CursorV, bool), ErrorV>((CursorV { memory, ..cur }, false)),
                ),
            ),
{
    effects::lemma_trimmed(st.proto_starts, st.stack.len(), starts);
    let n = st.branch_points.len() as int;
    let depth = st.stack.len() as int;
    if forall|j: int|
        0 <= j < st.branch_points.len() && (#[trigger] st.branch_points[j]).name == name
            ==> !effects::within_reach(st.branch_points[j], st.stack.len() as int) {
        lemma_none(st.branch_points, n, name, depth);
    }
    assert forall|index: int|
        #[trigger] names(st, name, index) && !recent(
            st,
            st.branch_points[index],
        ) implies engine::stepped(fuel, ss, line, st, cur) == Some(
        (
            StateV {
                proto_starts: starts,
                branch_points: st.branch_points.remove(index),
                warnings: st.warnings.push(WarningV::BranchPointExpired { name }),
                ..st
            },
            Ok::<(CursorV, bool), ErrorV>((CursorV { memory, ..cur }, false)),
        ),
    ) by {
        lemma_latest(st.branch_points, n, name, depth, index);
    }
}

proof fn lemma_none(bps: Seq<BranchV>, n: int, name: Seq<char>, depth: int)
    requires
        n <= bps.len(),
        forall|j: int|
            0 <= j < bps.len() && (#[trigger] bps[j]).name == name ==> !effects::within_reach(
                bps[j],
                depth,
            ),
    ensures
        engine::latest_branch(bps, n, name, depth) is None,
    decreases n,
{
    if n > 0 {
        assert(bps[n - 1].name == name ==> !effects::within_reach(bps[n - 1], depth));
        lemma_none(bps, n - 1, name, depth);
    }
}

/// The lines since a branch point, its own first, to be parsed once more from the end
/// of the branch match on, with `prefix` before.
pub open spec fn lines_since(st: StateV, bp: BranchV, prefix: Seq<Op>, plan: ReplayPlanV) -> bool {
    let n = bp.pending_lines_snapshot_len;
    &&& n <= st.pending_lines.len() ==> plan.lines == st.pending_lines.subrange(
        n as int,
        st.pending_lines.len() as int,
    )
    &&& plan.prefix == prefix
    &&& plan.resume == bp.match_start
    &&& plan.line_number == bp.line_number
    &&& plan.offset == n
}

/// A cursor at the beginning of the line that has done nothing.
pub open spec fn at_the_beginning(cur: CursorV) -> bool {
    cur.start == 0 && cur.ops.len() == 0 && cur.memory == CacheV::empty() && cur.push_mark == (
        0usize,
        0usize,
        0usize,
    )
}

/// Whether a replay of the branch point `class-members` of Java shows that the field
/// alternative, its sixth, is the one to take: no nested branch point corrected it, it
/// met a deeper one, and its first line has a return type.
pub open spec fn shows_field(bp: BranchV, replay: ReplayV) -> bool {
    &&& bp.name == "class-members"@
    &&& bp.next_alternative < 5 && bp.alternatives.len() > 5
    &&& replay.corrections.len() == 0
    &&& replay.deepest.bp matches Some(deep) && deep.stack_depth > bp.stack_depth
    &&& replay.ops.len() > 0
    &&& exists|k: int|
        0 <= k < replay.ops[0].len() && ((#[trigger] replay.ops[0][k]).1 matches ScopeStackOp::Push(
            x,
        ) && scope::prefix_of(engine::return_type_scope(), x))
}

/// Whether `next` is the state `end` of a replay with its outcome taken over: where no
/// other corrections are there, the lines since the branch point are corrected to what
/// the replay gave.
pub open spec fn corrects(end: StateV, bp: BranchV, replay: ReplayV, next: StateV) -> bool {
    &&& next.stack == end.stack
    &&& next.proto_starts == end.proto_starts
    &&& next.escape_stack == end.escape_stack
    &&& next.first_line == end.first_line
    &&& next.pending_lines == end.pending_lines
    &&& next.warnings == end.warnings
    &&& next.skipped_branches == end.skipped_branches
    &&& end.flushed_ops_start is None && replay.corrections.len() == 0 ==> next.flushed_ops
        == replay.ops && next.flushed_ops_start == Some(bp.pending_lines_snapshot_len)
}

/// A `fail` on a later line than its branch point, which has an alternative left: the
/// lines since the branch match are parsed once more with the first alternative that
/// was not tried, and the current line from its beginning.
#[verifier::rlimit(40)]
pub proof fn law_fail_replays_with_next_alternative(
    fuel: nat,
    ss: Seq<SyntaxReference>,
    line: Seq<char>,
    st: StateV,
    cur: CursorV,
    starts: Seq<usize>,
    memory: CacheV,
    found: FoundV,
    pat: MatchPattern,
    name: Seq<char>,
    index: int,
    stack: Seq<LevelV>,
    prefix: Seq<Op>,
    plan: ReplayPlanV,
)
    requires
        effects::finds(fuel, ss, line, st, cur, starts, memory, found, pat),
        pat.operation matches MatchOperation::Fail(n) && n@ == name,
        names(st, name, index),
        recent(st, st.branch_points[index]),
        st.branch_points[index].line_number < line_now(st),
        st.branch_points[index].next_alternative < st.branch_points[index].alternatives.len(),
        st.branch_points[index].pending_lines_snapshot_len <= st.pending_lines.len(),
        goes_on_with(
            st.branch_points[index],
            st.branch_points[index].next_alternative as int,
            stack,
        ),
        with_alternative(
            st.branch_points[index].prefix_ops,
            ss,
            st.branch_points[index],
            st.branch_points[index].next_alternative as int,
        ) == Ok::<Seq<Op>, ErrorV>(prefix),
        lines_since(st, st.branch_points[index], prefix, plan),
        plan.skip is None,
    ensures
        ({
            let bp = st.branch_points[index];
            let alt = bp.next_alternative as int;
            let back = StateV {
                ..gone_back(st, st.branch_points, index, alt, stack)
            };
            engine::replayed(fuel, ss, back, plan) matches Some((end, Ok(replay))) ==> (
            !shows_field(bp, replay) ==> {
                let step = engine::stepped(fuel, ss, line, st, cur);
                &&& step matches Some((next, Ok((cur1, more)))) && more && at_the_beginning(cur1)
                    && corrects(end, bp, replay, next)
                &&& (step->0).0.branch_points.len() == end.branch_points.len()
                &&& forall|j: int|
                    0 <= j < end.branch_points.len() ==> #[trigger] (step->0).0.branch_points[j]
                        == if j == index {
                        BranchV { ops_snapshot_len: 0, ..end.branch_points[j] }
                    } else {
                        end.branch_points[j]
                    }
            })
        }),
{
    let bp = st.branch_points[index];
    let alt = bp.next_alternative as int;
    effects::lemma_trimmed(st.proto_starts, st.stack.len(), starts);
    lemma_latest(
        st.branch_points,
        st.branch_points.len() as int,
        name,
        st.stack.len() as int,
        index,
    );
    let st1 = StateV { proto_starts: starts, ..st };
    lemma_taken(st1, st.branch_points, index, alt, stack);
    let back = gone_back(st, st.branch_points, index, alt, stack);
    assert(gone_back(st1, st.branch_points, index, alt, stack) == back);
    assert(engine::lines_from(back.pending_lines, bp.pending_lines_snapshot_len) =~= plan.lines);
    assert(engine::alternative_plan(back, bp, prefix) == plan);
    if let Some((end, Ok(replay))) = engine::replayed(fuel, ss, back, plan) {
        lemma_field(bp, replay);
    }
}

proof fn lemma_field(bp: BranchV, replay: ReplayV)
    ensures
        engine::jumps_to_field(bp, replay) == shows_field(bp, replay),
{
    if shows_field(bp, replay) {
        let k = choose|k: int|
            0 <= k < replay.ops[0].len() && ((
            #[trigger] replay.ops[0][k]).1 matches ScopeStackOp::Push(x) && scope::prefix_of(
                engine::return_type_scope(),
                x,
            ));
        assert(replay.ops[0][k].1 is Push);
    }
    if engine::jumps_to_field(bp, replay) {
        let k = choose|k: int|
            0 <= k < replay.ops[0].len() && {
                &&& (#[trigger] replay.ops[0][k]).1 is Push
                &&& scope::prefix_of(engine::return_type_scope(), replay.ops[0][k].1->Push_0)
            };
        assert(replay.ops[0][k].1 is Push);
    }
}

/// Where such a replay shows that the field alternative is the one to take, the lines
/// are parsed yet once more, with that alternative.
#[verifier::rlimit(40)]
pub proof fn law_replay_turns_to_field(
    fuel: nat,
    ss: Seq<SyntaxReference>,
    line: Seq<char>,
    st: StateV,
    cur: CursorV,
    starts: Seq<usize>,
    memory: CacheV,
    found: FoundV,
    pat: MatchPattern,
    name: Seq<char>,
    index: int,
    stack: Seq<LevelV>,
    prefix: Seq<Op>,
    plan: ReplayPlanV,
    end: StateV,
    replay: ReplayV,
    field_stack: Seq<LevelV>,
    field_prefix: Seq<Op>,
    field_plan: ReplayPlanV,
)
    requires
        effects::finds(fuel, ss, line, st, cur, starts, memory, found, pat),
        pat.operation matches MatchOperation::Fail(n) && n@ == name,
        names(st, name, index),
        recent(st, st.branch_points[index]),
        st.branch_points[index].line_number < line_now(st),
        st.branch_points[index].next_alternative < st.branch_points[index].alternatives.len(),
        st.branch_points[index].pending_lines_snapshot_len <= st.pending_lines.len(),
        goes_on_with(
            st.branch_points[index],
            st.branch_points[index].next_alternative as int,
            stack,
        ),
        with_alternative(
            st.branch_points[index].prefix_ops,
            ss,
            st.branch_points[index],
            st.branch_points[index].next_alternative as int,
        ) == Ok::<Seq<Op>, ErrorV>(prefix),
        lines_since(st, st.branch_points[index], prefix, plan),
        plan.skip is None,
        engine::replayed(
            fuel,
            ss,
            gone_back(
                st,
                st.branch_points,
                index,
                st.branch_points[index].next_alternative as int,
                stack,
            ),
            plan,
        ) == Some((end, Ok::<ReplayV, ErrorV>(replay))),
        shows_field(st.branch_points[index], replay),
        goes_on_with(st.branch_points[index], 5, field_stack),
        with_alternative(
            st.branch_points[index].prefix_ops,
            ss,
            st.branch_points[index],
            5,
        ) == Ok::<Seq<Op>, ErrorV>(field_prefix),
        lines_since(end, st.branch_points[index], field_prefix, field_plan),
        st.branch_points[index].pending_lines_snapshot_len <= end.pending_lines.len(),
        field_plan.skip is None,
    ensures
        ({
            let bp = st.branch_points[index];
            let tried = gone_back(
                st,
                st.branch_points,
                index,
                bp.next_alternative as int,
                stack,
            ).branch_points;
            let back = StateV {
                stack: field_stack,
                proto_starts: bp.proto_starts_snapshot,
                escape_stack: bp.escape_stack_snapshot,
                first_line: bp.first_line_snapshot,
                branch_points: tried.update(index, BranchV { next_alternative: 6, ..bp }),
                ..end
            };
            engine::replayed(fuel, ss, back, field_plan) matches Some((last, Ok(second))) ==> (
            engine::stepped(fuel, ss, line, st, cur) matches Some((next, Ok((cur1, more)))) && more
                && at_the_beginning(cur1) && corrects(last, bp, second, next))
        }),
{
    let bp = st.branch_points[index];
    let alt = bp.next_alternative as int;
    effects::lemma_trimmed(st.proto_starts, st.stack.len(), starts);
    lemma_latest(
        st.branch_points,
        st.branch_points.len() as int,
        name,
        st.stack.len() as int,
        index,
    );
    let st1 = StateV { proto_starts: starts, ..st };
    let back = gone_back(st, st.branch_points, index, alt, stack);
    lemma_taken(st1, st.branch_points, index, alt, stack);
    assert(gone_back(st1, st.branch_points, index, alt, stack) == back);
    lemma_planned(back, bp, prefix, plan);
    lemma_field(bp, replay);
    let tried = back.branch_points;
    assert(goes_on_with(tried[index], 5, field_stack));
    lemma_taken(end, tried, index, 5, field_stack);
    let again = gone_back(end, tried, index, 5, field_stack);
    lemma_planned(again, bp, field_prefix, field_plan);
    lemma_turned(fuel, ss, st1, index, back, prefix, plan, end, replay, again, field_prefix, field_plan);
}

proof fn lemma_planned(st: StateV, bp: BranchV, prefix: Seq<Op>, plan: ReplayPlanV)
    requires
        bp.pending_lines_snapshot_len <= st.pending_lines.len(),
        lines_since(st, bp, prefix, plan),
        plan.skip is None,
    ensures
        engine::alternative_plan(st, bp, prefix) == plan,
{
    assert(engine::lines_from(st.pending_lines, bp.pending_lines_snapshot_len) =~= plan.lines);
}

/// The step that such a `fail` makes, given what the two replays come to.
#[verifier::rlimit(30)]
proof fn lemma_turned(
    fuel: nat,
    ss: Seq<SyntaxReference>,
    st: StateV,
    index: int,
    back: StateV,
    prefix: Seq<Op>,
    plan: ReplayPlanV,
    end: StateV,
    replay: ReplayV,
    again: StateV,
    field_prefix: Seq<Op>,
    field_plan: ReplayPlanV,
)
    requires
        0 <= index < st.branch_points.len(),
        engine::alternative_taken(
            st,
            st.branch_points,
            index,
            st.branch_points[index].next_alternative as int,
        ) == (back, Ok::<(), ErrorV>(())),
        engine::alternative_ops(
            st.branch_points[index].prefix_ops,
            ss,
            st.branch_points[index],
            st.branch_points[index].next_alternative as int,
        ) == Ok::<Seq<Op>, ErrorV>(prefix),
        engine::alternative_plan(back, st.branch_points[index], prefix) == plan,
        engine::replayed(fuel, ss, back, plan) == Some((end, Ok::<ReplayV, ErrorV>(replay))),
        engine::jumps_to_field(st.branch_points[index], replay),
        engine::alternative_taken(
            end,
            back.branch_points,
            index,
            engine::FIELD_ALTERNATIVE as int,
        ) == (again, Ok::<(), ErrorV>(())),
        engine::alternative_ops(
            st.branch_points[index].prefix_ops,
            ss,
            st.branch_points[index],
            engine::FIELD_ALTERNATIVE as int,
        ) == Ok::<Seq<Op>, ErrorV>(field_prefix),
        engine::alternative_plan(again, st.branch_points[index], field_prefix) == field_plan,
    ensures
        engine::replayed(fuel, ss, again, field_plan) matches Some((last, Ok(second))) ==> (
        engine::retried_across(fuel, ss, st, index) matches Some((next, Ok((cur1, more)))) && more
            && at_the_beginning(cur1) && corrects(last, st.branch_points[index], second, next)),
{
}

/// A `fail` on a later line than its branch point, all of whose alternatives were
/// tried: the branch point is given up, and the lines since the branch match are parsed
/// once more as if it had not matched.
#[verifier::rlimit(40)]
pub proof fn law_tried_branch_is_given_up_across_lines(
    fuel: nat,
    ss: Seq<SyntaxReference>,
    line: Seq<char>,
    st: StateV,
    cur: CursorV,
    starts: Seq<usize>,
    memory: CacheV,
    found: FoundV,
    pat: MatchPattern,
    name: Seq<char>,
    index: int,
    plan: ReplayPlanV,
)
    requires
        effects::finds(fuel, ss, line, st, cur, starts, memory, found, pat),
        pat.operation matches MatchOperation::Fail(n) && n@ == name,
        names(st, name, index),
        recent(st, st.branch_points[index]),
        st.branch_points[index].line_number < line_now(st),
        st.branch_points[index].next_alternative >= st.branch_points[index].alternatives.len(),
        st.branch_points[index].pending_lines_snapshot_len <= st.pending_lines.len(),
        lines_since(st, st.branch_points[index], st.branch_points[index].prefix_ops, plan),
        plan.skip == Some(name),
    ensures
        ({
            let bp = st.branch_points[index];
            let back = StateV {
                stack: bp.stack_snapshot,
                proto_starts: bp.proto_starts_snapshot,
                escape_stack: bp.escape_stack_snapshot,
                first_line: bp.first_line_snapshot,
                branch_points: st.branch_points.remove(index),
                ..st
            };
            engine::replayed(fuel, ss, back, plan) matches Some((end, Ok(replay))) ==> (
            engine::stepped(fuel, ss, line, st, cur) matches Some((next, Ok((cur1, more)))) && more
                && at_the_beginning(cur1) && corrects(end, bp, replay, next) && next.branch_points
                == end.branch_points)
        }),
{
    let bp = st.branch_points[index];
    effects::lemma_trimmed(st.proto_starts, st.stack.len(), starts);
    lemma_latest(
        st.branch_points,
        st.branch_points.len() as int,
        name,
        st.stack.len() as int,
        index,
    );
    assert(engine::lines_from(st.pending_lines, bp.pending_lines_snapshot_len) =~= plan.lines);
    assert(engine::exhausted_plan(st, bp) == plan);
}

/// The state in which line `i` of a replay starts.
pub open spec fn enters_replay(before: StateV, plan: ReplayPlanV, i: int, entry: StateV) -> bool {
    &&& entry == (StateV {
        replay_ctx: entry.replay_ctx,
        replay_prefix_ops: entry.replay_prefix_ops,
        skipped_branches: entry.skipped_branches,
        ..before
    })
    &&& entry.replay_ctx matches Some(ctx) && ctx.line_number == plan.line_number.saturating_add(
        i as usize,
    ) && ctx.pending_lines_snapshot_offset == plan.offset.saturating_add(i as usize)
    &&& entry.replay_prefix_ops == if i == 0 {
        Some(plan.prefix)
    } else {
        None
    }
    &&& entry.skipped_branches == if i == 0 && plan.skip is Some {
        before.skipped_branches.push((plan.resume, plan.skip->0))
    } else {
        before.skipped_branches
    }
}

/// Whether line `i` of a replay leads from `before` to `after` with these operations:
/// the first line resumes where the plan says and keeps its prefix, the others start at
/// their beginning.
#[verifier::opaque]
pub open spec fn replays_line(
    fuel: nat,
    ss: Seq<SyntaxReference>,
    plan: ReplayPlanV,
    i: int,
    before: StateV,
    after: StateV,
    ops: Seq<Op>,
) -> bool {
    exists|entry: StateV, out: StateV, tail: Seq<Op>|
        #![trigger enters_replay(before, plan, i, entry), finishes(before, out, after, tail)]
        enters_replay(before, plan, i, entry) && finishes(before, out, after, tail)
            && engine::line_parsed(
            fuel,
            ss,
            entry,
            plan.lines[i],
            if i == 0 {
                plan.resume
            } else {
                0
            },
        ) == Some((out, Ok::<Seq<Op>, ErrorV>(tail))) && ops == if i == 0 {
            plan.prefix + tail
        } else {
            tail
        }
}

/// Whether `after` is `out` back on the line that `before` was on.
pub open spec fn finishes(before: StateV, out: StateV, after: StateV, tail: Seq<Op>) -> bool {
    after == (StateV {
        replay_ctx: before.replay_ctx,
        replay_prefix_ops: before.replay_prefix_ops,
        ..out
    })
}

proof fn lemma_line_replayed(
    fuel: nat,
    ss: Seq<SyntaxReference>,
    plan: ReplayPlanV,
    i: int,
    st: StateV,
    entry: StateV,
    out: StateV,
    after: StateV,
    tail: Seq<Op>,
)
    requires
        entry == engine::replay_entry(st, plan, i),
        engine::line_parsed(
            fuel,
            ss,
            entry,
            plan.lines[i],
            if i == 0 {
                plan.resume
            } else {
                0
            },
        ) == Some((out, Ok::<Seq<Op>, ErrorV>(tail))),
        finishes(st, out, after, tail),
    ensures
        replays_line(
            fuel,
            ss,
            plan,
            i,
            st,
            after,
            if i == 0 {
                plan.prefix + tail
            } else {
                tail
            },
        ),
{
    reveal(replays_line);
    assert(enters_replay(st, plan, i, entry));
}

proof fn lemma_chained(
    fuel: nat,
    ss: Seq<SyntaxReference>,
    plan: ReplayPlanV,
    i: int,
    st: StateV,
    after: StateV,
    ops: Seq<Op>,
    rest: Seq<StateV>,
    acc: Seq<Seq<Op>>,
    all: Seq<Seq<Op>>,
)
    requires
        0 <= i < plan.lines.len(),
        acc.len() == i,
        all.len() == plan.lines.len(),
        all.subrange(0, i + 1) == acc.push(ops),
        rest.len() == plan.lines.len() - i,
        rest[0] == after,
        replays_line(fuel, ss, plan, i, st, after, ops),
        forall|k: int|
            i + 1 <= k < plan.lines.len() ==> #[trigger] replays_line(
                fuel,
                ss,
                plan,
                k,
                rest[k - (i + 1)],
                rest[k - (i + 1) + 1],
                all[k],
            ),
    ensures
        ({
            let states = seq![st] + rest;
            &&& all.subrange(0, i) == acc
            &&& states.len() == plan.lines.len() - i + 1
            &&& states[0] == st && states.last() == rest.last()
            &&& forall|k: int|
                i <= k < plan.lines.len() ==> #[trigger] replays_line(
                    fuel,
                    ss,
                    plan,
                    k,
                    states[k - i],
                    states[k - i + 1],
                    all[k],
                )
        }),
{
    let states = seq![st] + rest;
    assert(all.subrange(0, i + 1)[i] == ops);
    assert(all.subrange(0, i) =~= acc) by {
        assert forall|k: int| 0 <= k < i implies all[k] == acc[k] by {
            assert(all.subrange(0, i + 1)[k] == acc.push(ops)[k]);
        }
    }
    assert forall|k: int| i <= k < plan.lines.len() implies #[trigger] replays_line(
        fuel,
        ss,
        plan,
        k,
        states[k - i],
        states[k - i + 1],
        all[k],
    ) by {
        if k > i {
            assert(states[k - i] == rest[k - (i + 1)]);
            assert(states[k - i + 1] == rest[k - (i + 1) + 1]);
            assert(replays_line(
                fuel,
                ss,
                plan,
                k,
                rest[k - (i + 1)],
                rest[k - (i + 1) + 1],
                all[k],
            ));
        }
    }
}

proof fn lemma_replay_lines(
    fuel: nat,
    ss: Seq<SyntaxReference>,
    st: StateV,
    plan: ReplayPlanV,
    i: int,
    acc: Seq<Seq<Op>>,
) -> (states: Seq<StateV>)
    requires
        0 <= i <= plan.lines.len(),
        acc.len() == i,
    ensures
        engine::replay_lines(fuel, ss, st, plan, i, acc) matches Some((end, Ok(all))) ==> {
            &&& all.len() == plan.lines.len()
            &&& all.subrange(0, i) == acc
            &&& states.len() == plan.lines.len() - i + 1
            &&& states[0] == st && states.last() == end
            &&& forall|k: int|
                i <= k < plan.lines.len() ==> #[trigger] replays_line(
                    fuel,
                    ss,
                    plan,
                    k,
                    states[k - i],
                    states[k - i + 1],
                    all[k],
                )
        },
    decreases plan.lines.len() - i,
{
    if i == plan.lines.len() {
        assert(acc.subrange(0, i) =~= acc);
        seq![st]
    } else {
        let entry = engine::replay_entry(st, plan, i);
        let at: usize = if i == 0 {
            plan.resume
        } else {
            0
        };
        match engine::line_parsed(fuel, ss, entry, plan.lines[i], at) {
            Some((out, Ok(tail))) => {
                let after = StateV {
                    replay_ctx: st.replay_ctx,
                    replay_prefix_ops: st.replay_prefix_ops,
                    ..out
                };
                let ops = if i == 0 {
                    plan.prefix + tail
                } else {
                    tail
                };
                let rest = lemma_replay_lines(fuel, ss, after, plan, i + 1, acc.push(ops));
                let states = seq![st] + rest;
                lemma_line_replayed(fuel, ss, plan, i, st, entry, out, after, tail);
                if let Some((end, Ok(all))) = engine::replay_lines(fuel, ss, st, plan, i, acc) {
                    lemma_chained(fuel, ss, plan, i, st, after, ops, rest, acc, all);
                }
                states
            },
            _ => seq![st],
        }
    }
}

/// A replay parses its lines one after the other, each once and whole but for the
/// first, which keeps its prefix; what it corrects on the way counts for itself, and
/// corrections from before are kept.
pub proof fn law_replay_parses_every_line(
    fuel: nat,
    ss: Seq<SyntaxReference>,
    st: StateV,
    plan: ReplayPlanV,
) -> (states: Seq<StateV>)
    ensures
        engine::replayed(fuel, ss, st, plan) matches Some((end, Ok(replay))) ==> {
            let last = states.last();
            &&& replay.ops.len() == plan.lines.len()
            &&& states.len() == plan.lines.len() + 1
            &&& states[0] == (StateV {
                flushed_ops: Seq::empty(),
                flushed_ops_start: None,
                flushed_ops_bp_per_slot: Seq::empty(),
                inner_replay_max_depth: states[0].inner_replay_max_depth,
                ..st
            })
            &&& forall|k: int|
                0 <= k < plan.lines.len() ==> #[trigger] replays_line(
                    fuel,
                    ss,
                    plan,
                    k,
                    states[k],
                    states[k + 1],
                    replay.ops[k],
                )
            &&& replay.corrections == last.flushed_ops && replay.start == last.flushed_ops_start
                && replay.bps == last.flushed_ops_bp_per_slot
            &&& end == (StateV {
                flushed_ops: st.flushed_ops,
                flushed_ops_start: st.flushed_ops_start,
                flushed_ops_bp_per_slot: st.flushed_ops_bp_per_slot,
                inner_replay_max_depth: st.inner_replay_max_depth,
                ..last
            })
        },
{
    let begun = engine::replay_start(st);
    let states = lemma_replay_lines(fuel, ss, begun, plan, 0, Seq::empty());
    if let Some((end, Ok(replay))) = engine::replayed(fuel, ss, st, plan) {
        assert forall|k: int| 0 <= k < plan.lines.len() implies #[trigger] replays_line(
            fuel,
            ss,
            plan,
            k,
            states[k],
            states[k + 1],
            replay.ops[k],
        ) by {
            assert(replays_line(
                fuel,
                ss,
                plan,
                k,
                states[k - 0],
                states[k - 0 + 1],
                replay.ops[k],
            ));
        }
    }
    states
}

/// A line is parsed with exactly those branch points of the lines before that are at
/// most 128 lines old; the contexts and the escapes stay.
pub proof fn law_expiry_after_128_lines(st: StateV, bp: BranchV)
    ensures
        parser::entered(st).branch_points.contains(bp) <==> st.branch_points.contains(bp)
            && st.line_number <= bp.line_number + 128,
        parser::entered(st).line_number == st.line_number.saturating_add(1),
        parser::entered(st).skipped_branches.len() == 0,
        parser::entered(st).stack == st.stack,
        parser::entered(st).escape_stack == st.escape_stack,
        parser::entered(st).first_line == st.first_line,
{
    let p = |bp: BranchV| parser::is_young(bp, st.line_number);
    lemma_filtered(st.branch_points, p, bp);
}

proof fn lemma_filtered(bps: Seq<BranchV>, p: spec_fn(BranchV) -> bool, bp: BranchV)
    ensures
        bps.filter(p).contains(bp) <==> bps.contains(bp) && p(bp),
    decreases bps.len(),
{
    reveal(Seq::filter);
    if bps.len() > 0 {
        let front = bps.drop_last();
        lemma_filtered(front, p, bp);
        let last = bps.last();
        if bps.contains(bp) && !(bp == last) {
            let k = choose|k: int| 0 <= k < bps.len() && bps[k] == bp;
            assert(front[k] == bp);
        }
        if front.contains(bp) {
            let k = choose|k: int| 0 <= k < front.len() && front[k] == bp;
            assert(bps[k] == bp);
        }
        let kept = front.filter(p);
        if p(last) {
            assert(bps.filter(p) =~= kept.push(last));
            if kept.contains(bp) {
                let k = choose|k: int| 0 <= k < kept.len() && kept[k] == bp;
                assert(kept.push(last)[k] == bp);
            }
            if bp == last {
                assert(kept.push(last)[kept.len() as int] == bp);
                assert(bps[bps.len() - 1] == bp);
            }
            if kept.push(last).contains(bp) && bp != last {
                let k = choose|k: int| 0 <= k < kept.push(last).len() && kept.push(last)[k] == bp;
                assert(kept[k] == bp);
            }
        }
    }
}

} // verus!
