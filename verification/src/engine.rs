//! The token loop and the speculation that interrupts it: matching, executing
//! matches, and going back to a branch point on `fail`.

use crate::cache;
use crate::cache::{CacheV, SearchCache};
use crate::captures;
use crate::corrections;
use crate::emit;
use crate::embed;
use crate::perform;
use crate::regex;
use crate::scope;
use crate::scope::{Op, Scope, ScopeStackOp};
use crate::search;
use crate::search::FoundV;
use crate::semantics;
use crate::state;
use crate::state::{
    BpInfoV, BranchV, LevelV, MaxDepthV, PushMark, RegionV, ReplayCtx, StateV, WarningV,
};
use crate::syntax;
use crate::syntax::{
    Context, ErrorV, MatchOperation, MatchPattern, ParsingError, ReferenceV, SyntaxReference,
};
use crate::text;
use crate::views;
use vstd::prelude::*;
use vstd::string::*;

verus! {

broadcast use crate::views::group_views;

/// How many lines back a `fail` may reach.
pub const MAX_BRANCH_AGE: usize = 128;

/// How often an empty escape match may end an embed at the same position of a
/// line.
pub const ZERO_WIDTH_ESCAPE_FIRE_LIMIT: u32 = 100;

/// The alternative of `class-members` that a replay may jump to.
pub const FIELD_ALTERNATIVE: usize = 5;

/// The position in the line being parsed, and what goes with it.
#[verifier::ext_equal]
pub struct CursorV {
    pub start: usize,
    pub push_mark: PushMark,
    pub ops: Seq<Op>,
    pub memory: CacheV,
}

/// See [`CursorV`].
#[derive(Debug)]
pub(crate) struct Cursor {
    /// The byte that the search goes on from.
    pub(crate) start: usize,
    /// The latest push that consumed nothing.
    pub(crate) push_mark: PushMark,
    /// The operations of the line so far.
    pub(crate) ops: Vec<Op>,
    /// What searches of the line found.
    pub(crate) search_cache: SearchCache,
}

impl View for Cursor {
    type V = CursorV;

    open(crate) spec fn view(&self) -> CursorV {
        CursorV {
            start: self.start,
            push_mark: self.push_mark,
            ops: self.ops@,
            memory: cache::contents(self.search_cache),
        }
    }
}

impl Cursor {
    /// A cursor at the byte `start` of a line, with nothing done yet.
    pub(crate) fn at(start: usize) -> (r: Cursor)
        ensures
            r@ == (CursorV { start, ..fresh_cursor() }),
    {
        let r = Cursor {
            start,
            push_mark: (0, 0, 0),
            ops: Vec::new(),
            search_cache: cache::empty(),
        };
        assert(r@ =~= CursorV { start, ..fresh_cursor() });
        r
    }

    /// One character further; `false` at the last character.
    pub(crate) fn advance(&mut self, line: &str) -> (r: bool)
        ensures
            (final(self)@, r) == advanced(line@, old(self)@),
    {
        match text::next_char_start(line, self.start) {
            Some(n) => {
                self.start = n;
                true
            },
            None => false,
        }
    }

    /// Starts the line again.
    pub(crate) fn restart(&mut self)
        ensures
            final(self)@ == fresh_cursor(),
    {
        self.start = 0;
        self.push_mark = (0, 0, 0);
        self.ops.clear();
        cache::clear(&mut self.search_cache);
        assert(self@ =~= fresh_cursor());
    }

    /// Keeps the first operations only.
    pub(crate) fn keep_ops(&mut self, n: usize)
        ensures
            final(self)@ == (CursorV { ops: ops_until(old(self)@.ops, n), ..old(self)@ }),
    {
        self.ops.truncate(n);
        assert(self.ops@ =~= ops_until(old(self)@.ops, n));
    }
}

/// What a step of the parser yields: the state and, unless it failed, the
/// cursor and whether something happened.
pub type StepV = (StateV, Result<(CursorV, bool), ErrorV>);

/// Whether a step came out as the model says. `None` is a step that ran out of
/// its limit.
pub open spec fn step_agrees(
    r: Option<Result<bool, ParsingError>>,
    st: StateV,
    cur: CursorV,
    model: Option<StepV>,
) -> bool {
    match r {
        None => model is None,
        Some(Ok(more)) => model == Some((st, Ok::<(CursorV, bool), ErrorV>((cur, more)))),
        Some(Err(e)) => model == Some((st, Err::<(CursorV, bool), ErrorV>(e@))),
    }
}

/// Whether the parse of a line came out as the model says.
pub open spec fn line_agrees(
    r: Option<Result<Vec<Op>, ParsingError>>,
    st: StateV,
    model: Option<(StateV, Result<Seq<Op>, ErrorV>)>,
) -> bool {
    match r {
        None => model is None,
        Some(Ok(ops)) => model == Some((st, Ok::<Seq<Op>, ErrorV>(ops@))),
        Some(Err(e)) => model == Some((st, Err::<Seq<Op>, ErrorV>(e@))),
    }
}

/// The attribution of what a branch point's replay writes.
pub open spec fn info_of(bp: BranchV) -> BpInfoV {
    BpInfoV {
        name: bp.name,
        stack_depth: bp.stack_depth,
        line_number: bp.line_number,
        inner_producer: None,
    }
}

/// The line that the parser stands on.
pub open spec fn current_line(st: StateV) -> usize {
    match st.replay_ctx {
        Some(ctx) => ctx.line_number,
        None => st.line_number.saturating_sub(1),
    }
}

/// Whether two records are of one branch point, at two alternatives.
pub open spec fn same_branch(a: BranchV, b: BranchV) -> bool {
    BranchV { next_alternative: 0, ..a } == BranchV { next_alternative: 0, ..b }
}

/// The latest of the first `n` branch points of that name whose alternative is
/// still on the stack.
pub open spec fn latest_branch(bps: Seq<BranchV>, n: int, name: Seq<char>, stack_len: int) -> Option<int>
    decreases n,
{
    if n <= 0 || n > bps.len() {
        None
    } else if bps[n - 1].name == name && state::alive(bps[n - 1], stack_len) {
        Some(n - 1)
    } else {
        latest_branch(bps, n - 1, name, stack_len)
    }
}

/// `acc`, then the operations of the match of a branch point that takes the
/// alternatives `refs`, `stack` being the stack before it.
pub open spec fn branch_ops(
    acc: Seq<Op>,
    ss: Seq<SyntaxReference>,
    stack: Seq<LevelV>,
    first: usize,
    last: usize,
    scopes: Seq<Scope>,
    capture_ops: Seq<Op>,
    refs: Seq<ReferenceV>,
    pop_count: usize,
) -> Result<Seq<Op>, ErrorV> {
    if stack.len() == 0 {
        Ok(acc)
    } else {
        match syntax::context_of(ss, stack.last().context) {
            Err(e) => Err(e),
            Ok(context) => {
                let cur = semantics::leaving(context);
                match semantics::enter_ops(
                    acc,
                    ss,
                    stack,
                    true,
                    first,
                    cur,
                    false,
                    pop_count,
                    refs,
                ) {
                    Err(e) => Err(e),
                    Ok(a) => {
                        let b = emit::pushed(a, first, scopes) + capture_ops;
                        let c = emit::popped(b, last, scopes.len() as usize);
                        semantics::enter_ops(
                            c,
                            ss,
                            stack,
                            false,
                            last,
                            cur,
                            false,
                            pop_count,
                            refs,
                        )
                    },
                }
            },
        }
    }
}

/// The branch point that a match creates, `start` being where parsing resumes.
pub open spec fn new_branch(
    st: StateV,
    cur: CursorV,
    pat: MatchPattern,
    name: Seq<char>,
    alternatives: Seq<ReferenceV>,
    pop_count: usize,
    region: RegionV,
) -> BranchV {
    BranchV {
        name,
        next_alternative: 1,
        alternatives,
        stack_snapshot: st.stack,
        proto_starts_snapshot: st.proto_starts,
        match_start: cur.start,
        trigger_match_start: regex::whole(region).0,
        pat_scope: pat.scope@,
        line_number: current_line(st),
        ops_snapshot_len: cur.ops.len() as usize,
        stack_depth: st.stack.len() as usize,
        non_consuming_push_at_snapshot: cur.push_mark,
        first_line_snapshot: st.first_line,
        with_prototype: views::opt(pat.with_prototype),
        pending_lines_snapshot_len: match st.replay_ctx {
            Some(ctx) => ctx.pending_lines_snapshot_offset,
            None => st.pending_lines.len() as usize,
        },
        escape_stack_snapshot: st.escape_stack,
        pop_count,
        prefix_ops: match st.replay_prefix_ops {
            Some(outer) => outer + cur.ops,
            None => cur.ops,
        },
        capture_ops: captures::group_ops(state::mapping_view(pat.captures), region, true),
    }
}

/// The state with one more branch point, noted if it is the deepest of the
/// running replay.
pub open spec fn with_branch(st: StateV, bp: BranchV) -> StateV {
    StateV {
        branch_points: st.branch_points.push(bp),
        inner_replay_max_depth: match st.inner_replay_max_depth {
            Some(seen) => if bp.stack_depth > seen.depth {
                Some(MaxDepthV { depth: bp.stack_depth, bp: Some(info_of(bp)) })
            } else {
                Some(seen)
            },
            None => None,
        },
        ..st
    }
}

/// The first alternative, if there is one.
pub open spec fn first_alternative(alternatives: Seq<ReferenceV>) -> Seq<ReferenceV> {
    alternatives.subrange(0, scope::least(1, alternatives.len() as int))
}

/// The operations of a match that is no `fail` and no branch.
pub open spec fn rule_ops(
    acc: Seq<Op>,
    ss: Seq<SyntaxReference>,
    stack: Seq<LevelV>,
    context: Context,
    pat: MatchPattern,
    region: RegionV,
) -> Result<Seq<Op>, ErrorV> {
    let (first, last) = regex::whole(region);
    match semantics::meta_ops(acc, ss, stack, true, first, context, pat.operation) {
        Err(e) => Err(e),
        Ok(a) => {
            let b = emit::pushed(a, first, pat.scope@) + captures::group_ops(
                state::mapping_view(pat.captures),
                region,
                true,
            );
            let c = emit::popped(b, last, pat.scope@.len() as usize);
            semantics::meta_ops(c, ss, stack, false, last, context, pat.operation)
        },
    }
}

/// The step of executing a match of the rule `pat`.
pub open spec fn executed(
    fuel: nat,
    ss: Seq<SyntaxReference>,
    line: Seq<char>,
    st: StateV,
    cur: CursorV,
    pat: MatchPattern,
    region: RegionV,
) -> Option<StepV>
    decreases fuel, 6int, 0int,
{
    match pat.operation {
        MatchOperation::Fail(name) => failed(fuel, ss, line, st, cur, name@),
        MatchOperation::Branch { name, alternatives, pop_count } => {
            let bp = new_branch(st, cur, pat, name@, views::of(alternatives@), pop_count, region);
            let st1 = with_branch(st, bp);
            let refs = first_alternative(views::of(alternatives@));
            let (first, last) = regex::whole(region);
            match branch_ops(
                cur.ops,
                ss,
                st.stack,
                first,
                last,
                pat.scope@,
                bp.capture_ops,
                refs,
                pop_count,
            ) {
                Err(e) => Some((st1, Err(e))),
                Ok(ops) => {
                    let (st2, r) = perform::performed_push(
                        st1,
                        ss,
                        line,
                        region,
                        refs,
                        pop_count,
                        views::opt(pat.with_prototype),
                    );
                    Some(
                        (
                            st2,
                            match r {
                                Err(e) => Err(e),
                                Ok(b) => Ok((CursorV { ops, ..cur }, b)),
                            },
                        ),
                    )
                },
            }
        },
        _ => if st.stack.len() == 0 {
            Some((st, Err(ErrorV::MissingMainContext)))
        } else {
            match syntax::context_of(ss, st.stack.last().context) {
                Err(e) => Some((st, Err(e))),
                Ok(context) => match rule_ops(cur.ops, ss, st.stack, context, pat, region) {
                    Err(e) => Some((st, Err(e))),
                    Ok(ops) => {
                        let (st2, r) = perform::performed(
                            st,
                            ss,
                            line,
                            region,
                            pat.operation,
                            views::opt(pat.with_prototype),
                        );
                        Some(
                            (
                                st2,
                                match r {
                                    Err(e) => Err(e),
                                    Ok(b) => Ok((CursorV { ops, ..cur }, b)),
                                },
                            ),
                        )
                    },
                },
            }
        },
    }
}

/// What a replay of buffered lines found.
pub struct ReplayV {
    /// The operations of the lines.
    pub ops: Seq<Seq<Op>>,
    /// Corrections that nested replays delivered, from `start` on.
    pub corrections: Seq<Seq<Op>>,
    pub start: Option<usize>,
    pub bps: Seq<BpInfoV>,
    /// The deepest branch point created on the way.
    pub deepest: MaxDepthV,
}

/// How a replay goes.
pub struct ReplayPlanV {
    pub lines: Seq<Seq<char>>,
    /// The operations that the first line already has.
    pub prefix: Seq<Op>,
    /// Where the first line resumes.
    pub resume: usize,
    /// The number of the first line.
    pub line_number: usize,
    /// The index of the first line among the buffered ones.
    pub offset: usize,
    /// A branch point that must not fire where the first line resumes.
    pub skip: Option<Seq<char>>,
}

/// The state in which line `i` of a replay is parsed.
pub open spec fn replay_entry(st: StateV, plan: ReplayPlanV, i: int) -> StateV {
    StateV {
        replay_ctx: Some(
            ReplayCtx {
                line_number: plan.line_number.saturating_add(i as usize),
                pending_lines_snapshot_offset: plan.offset.saturating_add(i as usize),
            },
        ),
        replay_prefix_ops: if i == 0 {
            Some(plan.prefix)
        } else {
            None
        },
        skipped_branches: if i == 0 && plan.skip is Some {
            st.skipped_branches.push((plan.resume, plan.skip->0))
        } else {
            st.skipped_branches
        },
        ..st
    }
}

/// The state after the lines `i..` of a replay, and the operations of all lines,
/// those of the lines before being `acc`.
pub open spec fn replay_lines(
    fuel: nat,
    ss: Seq<SyntaxReference>,
    st: StateV,
    plan: ReplayPlanV,
    i: int,
    acc: Seq<Seq<Op>>,
) -> Option<(StateV, Result<Seq<Seq<Op>>, ErrorV>)>
    decreases fuel, 2int, plan.lines.len() - i,
{
    if i < 0 || i >= plan.lines.len() {
        Some((st, Ok(acc)))
    } else {
        match line_parsed(
            fuel,
            ss,
            replay_entry(st, plan, i),
            plan.lines[i],
            if i == 0 {
                plan.resume
            } else {
                0
            },
        ) {
            None => None,
            Some((st1, r)) => {
                let st2 = StateV {
                    replay_ctx: st.replay_ctx,
                    replay_prefix_ops: st.replay_prefix_ops,
                    ..st1
                };
                match r {
                    Err(e) => Some((st2, Err(e))),
                    Ok(tail) => replay_lines(
                        fuel,
                        ss,
                        st2,
                        plan,
                        i + 1,
                        acc.push(
                            if i == 0 {
                                plan.prefix + tail
                            } else {
                                tail
                            },
                        ),
                    ),
                }
            },
        }
    }
}

/// The state with no corrections yet and a fresh note of the deepest branch point.
pub open spec fn replay_start(st: StateV) -> StateV {
    StateV {
        flushed_ops: Seq::empty(),
        flushed_ops_start: None,
        flushed_ops_bp_per_slot: Seq::empty(),
        inner_replay_max_depth: Some(MaxDepthV { depth: 0, bp: None }),
        ..st
    }
}

/// A replay: what it found, and the state after it, in which the corrections are
/// those from before.
pub open spec fn replayed(fuel: nat, ss: Seq<SyntaxReference>, st: StateV, plan: ReplayPlanV) -> Option<
    (StateV, Result<ReplayV, ErrorV>),
>
    decreases fuel, 3int, 0int,
{
    match replay_lines(fuel, ss, replay_start(st), plan, 0, Seq::empty()) {
        None => None,
        Some((st1, Err(e))) => Some((st1, Err(e))),
        Some((st1, Ok(ops))) => Some(
            (
                StateV {
                    flushed_ops: st.flushed_ops,
                    flushed_ops_start: st.flushed_ops_start,
                    flushed_ops_bp_per_slot: st.flushed_ops_bp_per_slot,
                    inner_replay_max_depth: st.inner_replay_max_depth,
                    ..st1
                },
                Ok(
                    ReplayV {
                        ops,
                        corrections: st1.flushed_ops,
                        start: st1.flushed_ops_start,
                        bps: st1.flushed_ops_bp_per_slot,
                        deepest: match st1.inner_replay_max_depth {
                            Some(seen) => seen,
                            None => MaxDepthV { depth: 0, bp: None },
                        },
                    },
                ),
            ),
        ),
    }
}

/// The state after the outcome of a replay that started at `snap` is taken over.
pub open spec fn replay_taken(st: StateV, info: BpInfoV, snap: usize, replay: ReplayV) -> StateV {
    let bps = Seq::new(replay.ops.len(), |i: int| info);
    if replay.start is Some && replay.corrections.len() > 0 {
        let slot = |i: int|
            corrections::arbitrated_slot(
                i,
                snap,
                replay.ops,
                bps,
                replay.corrections,
                replay.start->0,
                info,
                replay.bps,
                st.shadow,
            );
        corrections::merged(
            st,
            snap,
            Seq::new(replay.ops.len(), |i: int| slot(i).0),
            Seq::new(replay.ops.len(), |i: int| slot(i).1),
        )
    } else {
        corrections::merged(st, snap, replay.ops, bps)
    }
}

/// The cursor at the beginning of the line, with nothing done yet.
pub open spec fn fresh_cursor() -> CursorV {
    CursorV { start: 0, push_mark: (0, 0, 0), ops: Seq::empty(), memory: CacheV::empty() }
}

/// The buffered lines from `snap` on.
pub open spec fn lines_from(lines: Seq<Seq<char>>, snap: usize) -> Seq<Seq<char>> {
    lines.subrange(scope::least(snap as int, lines.len() as int), lines.len() as int)
}

/// The replay of the lines since an exhausted branch point.
pub open spec fn exhausted_plan(st: StateV, bp: BranchV) -> ReplayPlanV {
    ReplayPlanV {
        lines: lines_from(st.pending_lines, bp.pending_lines_snapshot_len),
        prefix: bp.prefix_ops,
        resume: bp.match_start,
        line_number: bp.line_number,
        offset: bp.pending_lines_snapshot_len,
        skip: Some(bp.name),
    }
}

/// The replay of the lines since a branch point with another alternative, whose
/// first line starts with `prefix`.
pub open spec fn alternative_plan(st: StateV, bp: BranchV, prefix: Seq<Op>) -> ReplayPlanV {
    ReplayPlanV {
        lines: lines_from(st.pending_lines, bp.pending_lines_snapshot_len),
        prefix,
        resume: bp.match_start,
        line_number: bp.line_number,
        offset: bp.pending_lines_snapshot_len,
        skip: None,
    }
}

/// The state that a branch point recorded, except for the branch points.
pub open spec fn rewound(st: StateV, bp: BranchV) -> StateV {
    StateV {
        stack: bp.stack_snapshot,
        proto_starts: bp.proto_starts_snapshot,
        escape_stack: bp.escape_stack_snapshot,
        first_line: bp.first_line_snapshot,
        ..st
    }
}

/// The first operations of a line that a branch point recorded.
pub open spec fn ops_until(ops: Seq<Op>, n: usize) -> Seq<Op> {
    ops.subrange(0, scope::least(n as int, ops.len() as int))
}

/// The step of a `fail` when the branch point at `index` has no alternative
/// left: the branch point goes, and parsing goes on as if it had not matched.
pub open spec fn exhausted(
    fuel: nat,
    ss: Seq<SyntaxReference>,
    st: StateV,
    cur: CursorV,
    index: int,
) -> Option<StepV>
    decreases fuel, 4int, 0int,
{
    let bp = st.branch_points[index];
    let st1 = StateV { branch_points: st.branch_points.remove(index), ..rewound(st, bp) };
    if bp.line_number < current_line(st) {
        match replayed(fuel, ss, st1, exhausted_plan(st, bp)) {
            None => None,
            Some((st2, Err(e))) => Some((st2, Err(e))),
            Some((st2, Ok(replay))) => Some(
                (
                    replay_taken(st2, info_of(bp), bp.pending_lines_snapshot_len, replay),
                    Ok((fresh_cursor(), true)),
                ),
            ),
        }
    } else {
        Some(
            (
                StateV {
                    skipped_branches: st1.skipped_branches.push((bp.match_start, bp.name)),
                    ..st1
                },
                Ok(
                    (
                        CursorV {
                            start: bp.match_start,
                            push_mark: bp.non_consuming_push_at_snapshot,
                            ops: ops_until(cur.ops, bp.ops_snapshot_len),
                            memory: CacheV::empty(),
                        },
                        true,
                    ),
                ),
            ),
        )
    }
}

/// The state that goes on with alternative `alt` of the branch point at `index`
/// in `bps`. Where a reference cannot be followed, the state lacks the frame.
pub open spec fn alternative_taken(st: StateV, bps: Seq<BranchV>, index: int, alt: int) -> (
    StateV,
    Result<(), ErrorV>,
) {
    let bp = bps[index];
    let st1 = rewound(st, bp);
    let st2 = StateV {
        stack: perform::without_top(bp.stack_snapshot, bp.pop_count as int),
        branch_points: bps.update(
            index,
            BranchV { next_alternative: (alt + 1) as usize, ..bp },
        ),
        ..st1
    };
    match syntax::reference_id(bp.alternatives[alt]) {
        Err(e) => (st2, Err(e)),
        Ok(id) => {
            let protos = match bp.with_prototype {
                Some(p) => match syntax::reference_id(p) {
                    Err(e) => Err(e),
                    Ok(p) => Ok(seq![p]),
                },
                None => Ok(Seq::empty()),
            };
            match protos {
                Err(e) => (st2, Err(e)),
                Ok(prototypes) => (
                    StateV {
                        stack: st2.stack.push(LevelV { context: id, prototypes, captures: None }),
                        ..st2
                    },
                    Ok(()),
                ),
            }
        },
    }
}

/// `acc`, then the operations of the branch match for alternative `alt`.
pub open spec fn alternative_ops(acc: Seq<Op>, ss: Seq<SyntaxReference>, bp: BranchV, alt: int) -> Result<
    Seq<Op>,
    ErrorV,
> {
    branch_ops(
        acc,
        ss,
        bp.stack_snapshot,
        bp.trigger_match_start,
        bp.match_start,
        bp.pat_scope,
        bp.capture_ops,
        seq![bp.alternatives[alt]],
        bp.pop_count,
    )
}

/// A replay of the buffered lines with alternative `alt`, `st` being the state
/// that goes on with it. Where the branch match's operations fail, the stack is
/// the one before the branch.
pub open spec fn alternative_replayed(
    fuel: nat,
    ss: Seq<SyntaxReference>,
    st: StateV,
    bp: BranchV,
    alt: int,
) -> Option<(StateV, Result<ReplayV, ErrorV>)>
    decreases fuel, 4int, 0int,
{
    match alternative_ops(bp.prefix_ops, ss, bp, alt) {
        Err(e) => Some((StateV { stack: bp.stack_snapshot, ..st }, Err(e))),
        Ok(prefix) => replayed(fuel, ss, st, alternative_plan(st, bp, prefix)),
    }
}

/// The scope `meta.function.return-type.java`.
pub open spec fn return_type_scope() -> Scope {
    Scope {
        a0: scope::META_ATOM,
        a1: scope::FUNCTION_ATOM,
        a2: scope::RETURN_TYPE_ATOM,
        a3: scope::JAVA_ATOM,
        a4: 0,
        a5: 0,
        a6: 0,
        a7: 0,
    }
}

/// Whether a replay of `class-members` jumps to the field alternative: none of
/// the nested replays corrected it, it met a deeper branch point, and its first
/// line pushes a return type.
pub open spec fn jumps_to_field(bp: BranchV, replay: ReplayV) -> bool {
    &&& bp.name == "class-members"@
    &&& bp.next_alternative < FIELD_ALTERNATIVE
    &&& bp.alternatives.len() > FIELD_ALTERNATIVE
    &&& replay.corrections.len() == 0
    &&& replay.deepest.bp is Some
    &&& replay.deepest.bp->0.stack_depth > bp.stack_depth
    &&& replay.ops.len() > 0
    &&& exists|k: int|
        0 <= k < replay.ops[0].len() && {
            &&& (#[trigger] replay.ops[0][k]).1 is Push
            &&& scope::prefix_of(return_type_scope(), replay.ops[0][k].1->Push_0)
        }
}

/// The state with the operations before the branch match forgotten, for the
/// branch point now at `index`, if there is one.
pub open spec fn prefix_forgotten(st: StateV, index: int) -> StateV {
    if 0 <= index < st.branch_points.len() {
        StateV {
            branch_points: st.branch_points.update(
                index,
                BranchV { ops_snapshot_len: 0, ..st.branch_points[index] },
            ),
            ..st
        }
    } else {
        st
    }
}

/// The step of a `fail` on a later line than the branch point at `index`: the
/// buffered lines are replayed with the next alternative, and the current line
/// starts again.
pub open spec fn retried_across(
    fuel: nat,
    ss: Seq<SyntaxReference>,
    st: StateV,
    index: int,
) -> Option<StepV>
    decreases fuel, 5int, 0int,
{
    let bp = st.branch_points[index];
    let snap = bp.pending_lines_snapshot_len;
    let (st1, taken) = alternative_taken(
        st,
        st.branch_points,
        index,
        bp.next_alternative as int,
    );
    match taken {
        Err(e) => Some((st1, Err(e))),
        Ok(_) => match alternative_replayed(fuel, ss, st1, bp, bp.next_alternative as int) {
            None => None,
            Some((st2, Err(e))) => Some((st2, Err(e))),
            Some((st2, Ok(replay))) => if jumps_to_field(bp, replay) {
                let (st3, jumped) = alternative_taken(
                    st2,
                    st1.branch_points,
                    index,
                    FIELD_ALTERNATIVE as int,
                );
                match jumped {
                    Err(e) => Some((st3, Err(e))),
                    Ok(_) => match alternative_replayed(
                        fuel,
                        ss,
                        st3,
                        bp,
                        FIELD_ALTERNATIVE as int,
                    ) {
                        None => None,
                        Some((st4, Err(e))) => Some((st4, Err(e))),
                        Some((st4, Ok(second))) => Some(
                            (
                                prefix_forgotten(replay_taken(st4, info_of(bp), snap, second), index),
                                Ok((fresh_cursor(), true)),
                            ),
                        ),
                    },
                }
            } else {
                Some(
                    (
                        prefix_forgotten(replay_taken(st2, info_of(bp), snap, replay), index),
                        Ok((fresh_cursor(), true)),
                    ),
                )
            },
        },
    }
}

/// Where a line resumes after a `fail` of a branch point on the same line: an
/// empty line is over then.
pub open spec fn resumed_at(line: Seq<char>, match_start: usize) -> usize {
    if match_start == 0 && text::is_blank(line) {
        text::byte_len(line)
    } else {
        match_start
    }
}

/// The step of a `fail` on the line of the branch point at `index`: the line
/// goes back to the branch match and takes the next alternative.
pub open spec fn retried_within(
    ss: Seq<SyntaxReference>,
    line: Seq<char>,
    st: StateV,
    cur: CursorV,
    index: int,
) -> StepV {
    let bp = st.branch_points[index];
    let (st1, taken) = alternative_taken(
        st,
        st.branch_points,
        index,
        bp.next_alternative as int,
    );
    match taken {
        Err(e) => (st1, Err(e)),
        Ok(_) => {
            let kept = ops_until(cur.ops, bp.ops_snapshot_len);
            let st2 = StateV {
                branch_points: st1.branch_points.update(
                    index,
                    BranchV { ops_snapshot_len: kept.len() as usize, ..st1.branch_points[index] },
                ),
                ..st1
            };
            match alternative_ops(kept, ss, bp, bp.next_alternative as int) {
                Err(e) => (StateV { stack: bp.stack_snapshot, ..st2 }, Err(e)),
                Ok(ops) => (
                    st2,
                    Ok(
                        (
                            CursorV {
                                start: resumed_at(line, bp.match_start),
                                push_mark: bp.non_consuming_push_at_snapshot,
                                ops,
                                memory: CacheV::empty(),
                            },
                            true,
                        ),
                    ),
                ),
            }
        },
    }
}

/// The step of a `fail`. Without a live branch point of that name nothing
/// happens; one that is too old is dropped with a warning.
pub open spec fn failed(
    fuel: nat,
    ss: Seq<SyntaxReference>,
    line: Seq<char>,
    st: StateV,
    cur: CursorV,
    name: Seq<char>,
) -> Option<StepV>
    decreases fuel, 5int, 1int,
{
    match latest_branch(
        st.branch_points,
        st.branch_points.len() as int,
        name,
        st.stack.len() as int,
    ) {
        None => Some((st, Ok((cur, false)))),
        Some(index) => {
            let bp = st.branch_points[index];
            if current_line(st).saturating_sub(bp.line_number) > MAX_BRANCH_AGE {
                Some(
                    (
                        StateV {
                            branch_points: st.branch_points.remove(index),
                            warnings: st.warnings.push(
                                WarningV::BranchPointExpired { name: bp.name },
                            ),
                            ..st
                        },
                        Ok((cur, false)),
                    ),
                )
            } else if bp.next_alternative >= bp.alternatives.len() {
                exhausted(fuel, ss, st, cur, index)
            } else if bp.line_number < current_line(st) {
                retried_across(fuel, ss, st, index)
            } else {
                Some(retried_within(ss, line, st, cur, index))
            }
        },
    }
}

/// The starts that lie below the top of a stack of that depth.
pub open spec fn trimmed(starts: Seq<usize>, stack_len: int) -> Seq<usize>
    decreases starts.len(),
{
    if starts.len() > 0 && starts.last() >= stack_len {
        trimmed(starts.drop_last(), stack_len)
    } else {
        starts
    }
}

/// Whether the cursor stands where a push consumed nothing, with the pushed
/// frames still there.
pub open spec fn loop_armed(cur: CursorV, stack_len: int) -> bool {
    cur.push_mark.0 == cur.start && cur.push_mark.1 < stack_len && stack_len <= cur.push_mark.2
}

/// The cursor one character further, and `false` at the last character.
pub open spec fn advanced(line: Seq<char>, cur: CursorV) -> (CursorV, bool) {
    match text::next_char(line, cur.start) {
        Some(n) => (CursorV { start: n, ..cur }, true),
        None => (cur, false),
    }
}

/// How many frames an operation pushes on top of the current one.
pub open spec fn push_width(op: MatchOperation) -> nat {
    match op {
        MatchOperation::Push { ctx_refs, pop_count } => ctx_refs@.len(),
        MatchOperation::Branch { name, alternatives, pop_count } => 1,
        MatchOperation::Embed { contexts, escape, pop_count } => contexts@.len(),
        _ => 0,
    }
}

/// The mark of a match that ends at `last`.
pub open spec fn marked(cur: CursorV, op: MatchOperation, last: usize, stack_len: nat) -> PushMark {
    if last <= cur.start && push_width(op) > 0 {
        (
            last,
            stack_len as usize,
            (stack_len as usize).saturating_add(push_width(op) as usize),
        )
    } else {
        cur.push_mark
    }
}

/// Which exhausted branch points stay: those at other positions than `pos`, or
/// those that do not lie before it.
pub open spec fn skip_stays(pos: usize, elsewhere: bool) -> spec_fn((usize, Seq<char>)) -> bool {
    |s: (usize, Seq<char>)|
        if elsewhere {
            s.0 != pos
        } else {
            s.0 >= pos
        }
}

/// The step after no rule matched: at a position where a branch point was
/// skipped the cursor goes on by one character, else the line is over.
pub open spec fn nothing_found(line: Seq<char>, st: StateV, cur: CursorV) -> StepV {
    if exists|i: int| 0 <= i < st.skipped_branches.len() && (#[trigger] st.skipped_branches[i]).0
        == cur.start {
        let st1 = StateV {
            skipped_branches: st.skipped_branches.filter(skip_stays(cur.start, true)),
            ..st
        };
        match text::next_char(line, cur.start) {
            Some(n) => (
                st1,
                Ok((CursorV { start: n, memory: CacheV::empty(), ..cur }, true)),
            ),
            None => (st1, Ok((cur, false))),
        }
    } else {
        (st, Ok((cur, false)))
    }
}

/// How often an empty escape match has ended an embed at `pos`.
pub open spec fn fires_at(st: StateV, pos: usize) -> u32 {
    if st.zero_width_escape_fires.contains_key(pos) {
        st.zero_width_escape_fires[pos]
    } else {
        0
    }
}

/// The step of an escape match. An empty one that keeps coming back is passed
/// over.
pub open spec fn escape_step(
    ss: Seq<SyntaxReference>,
    line: Seq<char>,
    st: StateV,
    cur: CursorV,
    found: FoundV,
) -> StepV {
    let (first, last) = regex::whole(found.regions);
    if first == last && fires_at(st, first) >= ZERO_WIDTH_ESCAPE_FIRE_LIMIT {
        (st, Ok(advanced(line, cur)))
    } else {
        let (st1, r) = embed::escape_executed(
            st,
            ss,
            cur.ops,
            found.escape_index,
            first,
            found.regions,
        );
        match r {
            Err(e) => (st1, Err(e)),
            Ok(ops) => (
                StateV {
                    zero_width_escape_fires: if first == last {
                        st1.zero_width_escape_fires.insert(
                            first,
                            (fires_at(st1, first) + 1) as u32,
                        )
                    } else {
                        st1.zero_width_escape_fires
                    },
                    ..st1
                },
                Ok(
                    (
                        CursorV { start: last, ops, memory: CacheV::empty(), ..cur },
                        true,
                    ),
                ),
            ),
        }
    }
}

/// Whether a match is of a branch point at the end of a replayed line, consuming
/// nothing: the branch point is left to the next line then.
pub open spec fn eol_branch(
    line: Seq<char>,
    st: StateV,
    cur: CursorV,
    pat: MatchPattern,
    found: FoundV,
) -> bool {
    let last = regex::whole(found.regions).1;
    last <= cur.start && pat.operation is Branch && st.replay_ctx is Some && last
        >= text::byte_len(line)
}

/// The state in which a match is executed.
pub open spec fn rule_entry(st: StateV, found: FoundV) -> StateV {
    let last = regex::whole(found.regions).1;
    StateV {
        skipped_branches: st.skipped_branches.filter(skip_stays(last, false)),
        proto_starts: if found.from_with_prototype {
            st.proto_starts.push(st.stack.len() as usize)
        } else {
            st.proto_starts
        },
        ..st
    }
}

/// The cursor with which a match is executed.
pub open spec fn rule_cursor(st: StateV, cur: CursorV, pat: MatchPattern, found: FoundV) -> CursorV {
    let last = regex::whole(found.regions).1;
    CursorV {
        start: last,
        push_mark: marked(cur, pat.operation, last, st.stack.len()),
        ..cur
    }
}

/// The step of a match of a rule that would not loop.
pub open spec fn rule_step(
    fuel: nat,
    ss: Seq<SyntaxReference>,
    line: Seq<char>,
    st: StateV,
    cur: CursorV,
    pat: MatchPattern,
    found: FoundV,
) -> Option<StepV>
    decreases fuel, 7int, 0int,
{
    if pat.operation is Fail {
        executed(fuel, ss, line, st, cur, pat, found.regions)
    } else if eol_branch(line, st, cur, pat, found) {
        let mark = rule_cursor(st, cur, pat, found).push_mark;
        Some((st, Ok((CursorV { push_mark: mark, ..cur }, false))))
    } else {
        match executed(
            fuel,
            ss,
            line,
            rule_entry(st, found),
            rule_cursor(st, cur, pat, found),
            pat,
            found.regions,
        ) {
            None => None,
            Some((st2, Err(e))) => Some((st2, Err(e))),
            Some((st2, Ok((cur2, _)))) => Some((st2, Ok((cur2, true)))),
        }
    }
}

/// One step of the token loop: find the best match and execute it. `false` ends
/// the line.
pub open spec fn stepped(
    fuel: nat,
    ss: Seq<SyntaxReference>,
    line: Seq<char>,
    st: StateV,
    cur: CursorV,
) -> Option<StepV>
    decreases fuel, 8int, 0int,
{
    let len = st.stack.len() as int;
    let st1 = StateV { proto_starts: trimmed(st.proto_starts, len), ..st };
    match search::best_match(
        fuel,
        ss,
        line,
        st1,
        cur.start,
        cur.memory,
        loop_armed(cur, len),
        cur.push_mark.1,
    ) {
        None => None,
        Some(Err(e)) => Some((st1, Err(e))),
        Some(Ok((memory, best))) => {
            let cur1 = CursorV { memory, ..cur };
            match best {
                None => Some(nothing_found(line, st1, cur1)),
                Some(found) => match found.rule {
                    None => Some(escape_step(ss, line, st1, cur1, found)),
                    Some(rule) => if found.would_loop {
                        Some((st1, Ok(advanced(line, cur1))))
                    } else {
                        match syntax::context_of(ss, rule.0) {
                            Err(e) => Some((st1, Err(e))),
                            Ok(context) => match syntax::rule_at(context, rule.1) {
                                Err(e) => Some((st1, Err(e))),
                                Ok(pat) => rule_step(fuel, ss, line, st1, cur1, pat, found),
                            },
                        }
                    },
                },
            }
        },
    }
}

/// The state and the operations when the token loop ends, within `fuel` steps.
pub open spec fn tokens_parsed(
    fuel: nat,
    ss: Seq<SyntaxReference>,
    line: Seq<char>,
    st: StateV,
    cur: CursorV,
) -> Option<(StateV, Result<Seq<Op>, ErrorV>)>
    decreases fuel, 0int, 0int,
{
    if fuel == 0 {
        None
    } else {
        match stepped((fuel - 1) as nat, ss, line, st, cur) {
            None => None,
            Some((st1, Err(e))) => Some((st1, Err(e))),
            Some((st1, Ok((cur1, more)))) => if more {
                tokens_parsed((fuel - 1) as nat, ss, line, st1, cur1)
            } else {
                Some((st1, Ok(cur1.ops)))
            },
        }
    }
}

/// The operations that a line starts with: on the very first line, the scope of
/// the whole syntax.
pub open spec fn opening(ss: Seq<SyntaxReference>, st: StateV, start_at: usize) -> Result<Seq<Op>, ErrorV> {
    if start_at == 0 && st.first_line {
        if st.stack.len() == 0 {
            Err(ErrorV::MissingMainContext)
        } else {
            match syntax::context_of(ss, st.stack.last().context) {
                Err(e) => Err(e),
                Ok(context) => if context.meta_content_scope@.len() > 0 {
                    Ok(seq![(0usize, ScopeStackOp::Push(context.meta_content_scope@[0]))])
                } else {
                    Ok(Seq::empty())
                },
            }
        }
    } else {
        Ok(Seq::empty())
    }
}

/// The state in which the token loop of a line starts.
pub open spec fn opened(st: StateV, start_at: usize) -> StateV {
    StateV {
        first_line: st.first_line && start_at != 0,
        zero_width_escape_fires: Map::empty(),
        ..st
    }
}

/// The state and the operations after `line` is parsed from the byte `start_at`
/// on.
pub open spec fn line_parsed(
    fuel: nat,
    ss: Seq<SyntaxReference>,
    st: StateV,
    line: Seq<char>,
    start_at: usize,
) -> Option<(StateV, Result<Seq<Op>, ErrorV>)>
    decreases fuel, 1int, 0int,
{
    match opening(ss, st, start_at) {
        Err(e) => Some((st, Err(e))),
        Ok(ops) => tokens_parsed(
            fuel,
            ss,
            line,
            opened(st, start_at),
            CursorV { start: start_at, ops, ..fresh_cursor() },
        ),
    }
}

} // verus!
