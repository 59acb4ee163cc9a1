//! What a `fail` does: going back to a branch point, and replaying the lines
//! since.

use crate::branches::Replay;
use crate::cache;
use crate::emit;
use crate::engine;
use crate::engine::{Cursor, ReplayPlanV, ReplayV};
use crate::scope;
use crate::scope::Op;
use crate::semantics;
use crate::state::{
    clone_branch_points, clone_ops, clone_stack, BpInfo, BranchPoint, MaxDepthSeen, ParseState,
    ParseWarning, ReplayCtx, StateV,
};
use crate::syntax;
use crate::syntax::{ContextReference, ErrorV, ParsingError, SyntaxSet};
use crate::text;
use crate::views;
use vstd::prelude::*;
use vstd::string::*;

verus! {

broadcast use crate::views::group_views;

/// How a replay goes, see [`ReplayPlanV`].
pub(crate) struct ReplayPlan {
    pub(crate) lines: Vec<String>,
    pub(crate) prefix: Vec<Op>,
    pub(crate) resume: usize,
    pub(crate) line_number: usize,
    pub(crate) offset: usize,
    pub(crate) skip: Option<String>,
}

impl View for ReplayPlan {
    type V = ReplayPlanV;

    open(crate) spec fn view(&self) -> ReplayPlanV {
        ReplayPlanV {
            lines: views::of(self.lines@),
            prefix: self.prefix@,
            resume: self.resume,
            line_number: self.line_number,
            offset: self.offset,
            skip: views::opt(self.skip),
        }
    }
}

/// Whether a replay came out as the model says.
pub(crate) open(crate) spec fn replay_agrees(
    r: Option<Result<Replay, ParsingError>>,
    st: StateV,
    model: Option<(StateV, Result<ReplayV, ErrorV>)>,
) -> bool {
    match r {
        None => model is None,
        Some(Ok(replay)) => model == Some((st, Ok::<ReplayV, ErrorV>(replay@))),
        Some(Err(e)) => model == Some((st, Err::<ReplayV, ErrorV>(e@))),
    }
}

/// The buffered lines from `snap` on.
fn lines_after(lines: &Vec<String>, snap: usize) -> (r: Vec<String>)
    ensures
        views::of(r@) == engine::lines_from(views::of(lines@), snap),
{
    let mut r: Vec<String> = Vec::new();
    let first: usize = if snap < lines.len() {
        snap
    } else {
        lines.len()
    };
    let mut i: usize = first;
    while i < lines.len()
        invariant
            first == scope::least(snap as int, lines@.len() as int),
            first <= i <= lines@.len(),
            views::of(r@) =~= views::of(lines@).subrange(first as int, i as int),
        decreases lines@.len() - i,
    {
        r.push(lines[i].clone());
        i += 1;
    }
    r
}

impl ParseState {
    /// Parses the lines of a replay, see [`engine::replay_lines`].
    #[verifier::rlimit(40)]
    fn replay_each(
        &mut self,
        plan: &ReplayPlan,
        syntax_set: &SyntaxSet,
        limit: Option<u64>,
        Ghost(fuel): Ghost<nat>,
    ) -> (r: Option<Result<Vec<Vec<Op>>, ParsingError>>)
        requires
            syntax::covers(limit, fuel),
            limit is None ==> engine::replay_lines(
                fuel,
                syntax_set@,
                old(self)@,
                plan@,
                0,
                Seq::empty(),
            ) is Some,
        ensures
            ({
                let model = engine::replay_lines(
                    fuel,
                    syntax_set@,
                    old(self)@,
                    plan@,
                    0,
                    Seq::empty(),
                );
                match r {
                    None => model is None,
                    Some(Ok(ops)) => model == Some(
                        (final(self)@, Ok::<Seq<Seq<Op>>, ErrorV>(views::of(ops@))),
                    ),
                    Some(Err(e)) => model == Some((final(self)@, Err::<Seq<Seq<Op>>, ErrorV>(e@))),
                }
            }),
        decreases fuel, 2int, 0int,
    {
        let ghost goal = engine::replay_lines(
            fuel,
            syntax_set@,
            self@,
            plan@,
            0,
            Seq::empty(),
        );
        let mut acc: Vec<Vec<Op>> = Vec::with_capacity(plan.lines.len());
        let mut i: usize = 0;
        while i < plan.lines.len()
            invariant
                i <= plan.lines@.len(),
                syntax::covers(limit, fuel),
                limit is None ==> goal is Some,
                goal == engine::replay_lines(
                    fuel,
                    syntax_set@,
                    old(self)@,
                    plan@,
                    0,
                    Seq::empty(),
                ),
                goal == engine::replay_lines(
                    fuel,
                    syntax_set@,
                    self@,
                    plan@,
                    i as int,
                    views::of(acc@),
                ),
            decreases plan.lines@.len() - i,
        {
            let ghost before = self@;
            let outer_ctx = self.replay_ctx;
            let outer_prefix = self.replay_prefix_ops.take();
            self.replay_ctx = Some(
                ReplayCtx {
                    line_number: plan.line_number.saturating_add(i),
                    pending_lines_snapshot_offset: plan.offset.saturating_add(i),
                },
            );
            let mut start_at: usize = 0;
            if i == 0 {
                start_at = plan.resume;
                self.replay_prefix_ops = Some(clone_ops(&plan.prefix));
                if let Some(name) = &plan.skip {
                    self.skipped_branches.push((plan.resume, name.clone()));
                }
            }
            assert(self@ =~= engine::replay_entry(before, plan@, i as int));
            assert(plan@.lines[i as int] == plan.lines@[i as int]@);
            let parsed = self.parse_line_inner_from(
                plan.lines[i].as_str(),
                syntax_set,
                start_at,
                limit,
                Ghost(fuel),
            );
            let ghost after = self@;
            self.replay_ctx = outer_ctx;
            self.replay_prefix_ops = outer_prefix;
            assert(self@ =~= StateV {
                replay_ctx: before.replay_ctx,
                replay_prefix_ops: before.replay_prefix_ops,
                ..after
            });
            match parsed {
                None => {
                    return None;
                },
                Some(Err(e)) => {
                    return Some(Err(e));
                },
                Some(Ok(tail)) => {
                    if i == 0 {
                        let mut line_ops = clone_ops(&plan.prefix);
                        emit::emit_all(&mut line_ops, &tail);
                        acc.push(line_ops);
                    } else {
                        acc.push(tail);
                    }
                },
            }
            i += 1;
        }
        Some(Ok(acc))
    }

    /// Replays buffered lines, see [`engine::replayed`].
    #[verifier::rlimit(40)]
    fn replay(
        &mut self,
        plan: &ReplayPlan,
        syntax_set: &SyntaxSet,
        limit: Option<u64>,
        Ghost(fuel): Ghost<nat>,
    ) -> (r: Option<Result<Replay, ParsingError>>)
        requires
            syntax::covers(limit, fuel),
            limit is None ==> engine::replayed(fuel, syntax_set@, old(self)@, plan@) is Some,
        ensures
            replay_agrees(
                r,
                final(self)@,
                engine::replayed(fuel, syntax_set@, old(self)@, plan@),
            ),
        decreases fuel, 3int, 0int,
    {
        let ghost before = self@;
        let mut saved_ops: Vec<Vec<Op>> = Vec::new();
        std::mem::swap(&mut saved_ops, &mut self.flushed_ops);
        let mut saved_bps: Vec<BpInfo> = Vec::new();
        std::mem::swap(&mut saved_bps, &mut self.flushed_ops_bp_per_slot);
        let saved_start = self.flushed_ops_start.take();
        let saved_depth = self.inner_replay_max_depth.take();
        self.inner_replay_max_depth = Some(MaxDepthSeen { depth: 0, bp: None });
        assert(self@ =~= engine::replay_start(before));
        match self.replay_each(plan, syntax_set, limit, Ghost(fuel)) {
            None => None,
            Some(Err(e)) => Some(Err(e)),
            Some(Ok(ops)) => {
                std::mem::swap(&mut saved_ops, &mut self.flushed_ops);
                std::mem::swap(&mut saved_bps, &mut self.flushed_ops_bp_per_slot);
                let start = self.flushed_ops_start;
                self.flushed_ops_start = saved_start;
                let deepest = match self.inner_replay_max_depth.take() {
                    Some(seen) => seen,
                    None => MaxDepthSeen { depth: 0, bp: None },
                };
                self.inner_replay_max_depth = saved_depth;
                Some(
                    Ok(
                        Replay {
                            ops,
                            corrections: saved_ops,
                            start,
                            bps: saved_bps,
                            deepest,
                        },
                    ),
                )
            },
        }
    }

    /// A `fail` of a branch point without further alternatives, see
    /// [`engine::exhausted`].
    #[verifier::rlimit(40)]
    fn exhaust_branch(
        &mut self,
        cursor: &mut Cursor,
        index: usize,
        syntax_set: &SyntaxSet,
        limit: Option<u64>,
        Ghost(fuel): Ghost<nat>,
    ) -> (r: Option<Result<bool, ParsingError>>)
        requires
            index < old(self)@.branch_points.len(),
            syntax::covers(limit, fuel),
            limit is None ==> engine::exhausted(
                fuel,
                syntax_set@,
                old(self)@,
                old(cursor)@,
                index as int,
            ) is Some,
        ensures
            engine::step_agrees(
                r,
                final(self)@,
                final(cursor)@,
                engine::exhausted(fuel, syntax_set@, old(self)@, old(cursor)@, index as int),
            ),
        decreases fuel, 4int, 0int,
    {
        let ghost before = self@;
        let cur_line: usize = self.current_line();
        assert(self@.branch_points[index as int] == self.branch_points@[index as int]@);
        let bp = self.branch_points.remove(index);
        self.rewind_to(&bp);
        if bp.line_number < cur_line {
            let plan = ReplayPlan {
                lines: lines_after(&self.pending_lines, bp.pending_lines_snapshot_len),
                prefix: clone_ops(&bp.prefix_ops),
                resume: bp.match_start,
                line_number: bp.line_number,
                offset: bp.pending_lines_snapshot_len,
                skip: Some(bp.name.clone()),
            };
            match self.replay(&plan, syntax_set, limit, Ghost(fuel)) {
                None => None,
                Some(Err(e)) => Some(Err(e)),
                Some(Ok(replay)) => {
                    self.take_over(&bp.info(), bp.pending_lines_snapshot_len, replay);
                    cursor.restart();
                    Some(Ok(true))
                },
            }
        } else {
            self.skipped_branches.push((bp.match_start, bp.name.clone()));
            cursor.start = bp.match_start;
            cursor.push_mark = bp.non_consuming_push_at_snapshot;
            cursor.keep_ops(bp.ops_snapshot_len);
            cache::clear(&mut cursor.search_cache);
            Some(Ok(true))
        }
    }

    /// Appends the operations of a branch match for one of its alternatives, see
    /// [`engine::alternative_ops`]. On an error the stack is the one before the
    /// branch.
    #[verifier::rlimit(40)]
    fn emit_alternative(
        &mut self,
        bp: &BranchPoint,
        alt: usize,
        syntax_set: &SyntaxSet,
        ops: &mut Vec<Op>,
    ) -> (r: Result<(), ParsingError>)
        requires
            alt < bp@.alternatives.len(),
        ensures
            semantics::agrees(
                r,
                final(ops)@,
                engine::alternative_ops(old(ops)@, syntax_set@, bp@, alt as int),
            ),
            final(self)@ == match r {
                Ok(_) => old(self)@,
                Err(_) => StateV { stack: bp@.stack_snapshot, ..old(self)@ },
            },
    {
        let ghost before = self@;
        let mut stack = clone_stack(&bp.stack_snapshot);
        std::mem::swap(&mut stack, &mut self.stack);
        let mut refs: Vec<ContextReference> = Vec::new();
        refs.push(bp.alternatives[alt].clone());
        assert(views::of(refs@) =~= seq![bp@.alternatives[alt as int]]);
        match self.emit_branch(
            bp.trigger_match_start,
            bp.match_start,
            &bp.pat_scope,
            &bp.capture_ops,
            &refs,
            bp.pop_count,
            syntax_set,
            ops,
        ) {
            Ok(_) => {
                self.stack = stack;
                assert(self@ =~= before);
                Ok(())
            },
            Err(e) => Err(e),
        }
    }

    /// Replays the buffered lines with one of the alternatives, see
    /// [`engine::alternative_replayed`].
    #[verifier::rlimit(40)]
    fn replay_alternative(
        &mut self,
        bp: &BranchPoint,
        alt: usize,
        syntax_set: &SyntaxSet,
        limit: Option<u64>,
        Ghost(fuel): Ghost<nat>,
    ) -> (r: Option<Result<Replay, ParsingError>>)
        requires
            alt < bp@.alternatives.len(),
            syntax::covers(limit, fuel),
            limit is None ==> engine::alternative_replayed(
                fuel,
                syntax_set@,
                old(self)@,
                bp@,
                alt as int,
            ) is Some,
        ensures
            replay_agrees(
                r,
                final(self)@,
                engine::alternative_replayed(fuel, syntax_set@, old(self)@, bp@, alt as int),
            ),
        decreases fuel, 4int, 0int,
    {
        let mut prefix = clone_ops(&bp.prefix_ops);
        match self.emit_alternative(bp, alt, syntax_set, &mut prefix) {
            Ok(_) => {},
            Err(e) => {
                return Some(Err(e));
            },
        }
        let plan = ReplayPlan {
            lines: lines_after(&self.pending_lines, bp.pending_lines_snapshot_len),
            prefix,
            resume: bp.match_start,
            line_number: bp.line_number,
            offset: bp.pending_lines_snapshot_len,
            skip: None,
        };
        self.replay(&plan, syntax_set, limit, Ghost(fuel))
    }

    /// A `fail` on a later line than the branch point, see
    /// [`engine::retried_across`].
    #[verifier::rlimit(40)]
    fn retry_across(
        &mut self,
        cursor: &mut Cursor,
        index: usize,
        syntax_set: &SyntaxSet,
        limit: Option<u64>,
        Ghost(fuel): Ghost<nat>,
    ) -> (r: Option<Result<bool, ParsingError>>)
        requires
            index < old(self)@.branch_points.len(),
            old(self)@.branch_points[index as int].next_alternative < old(
                self,
            )@.branch_points[index as int].alternatives.len(),
            syntax::covers(limit, fuel),
            limit is None ==> engine::retried_across(
                fuel,
                syntax_set@,
                old(self)@,
                index as int,
            ) is Some,
        ensures
            engine::step_agrees(
                r,
                final(self)@,
                final(cursor)@,
                engine::retried_across(fuel, syntax_set@, old(self)@, index as int),
            ),
        decreases fuel, 5int, 0int,
    {
        assert(self@.branch_points[index as int] == self.branch_points@[index as int]@);
        let bp = self.branch_points[index].clone();
        let snap: usize = bp.pending_lines_snapshot_len;
        match self.take_alternative(&bp, index, bp.next_alternative) {
            Ok(_) => {},
            Err(e) => {
                return Some(Err(e));
            },
        }
        let tried = clone_branch_points(&self.branch_points);
        let mut replay = match self.replay_alternative(
            &bp,
            bp.next_alternative,
            syntax_set,
            limit,
            Ghost(fuel),
        ) {
            None => {
                return None;
            },
            Some(Err(e)) => {
                return Some(Err(e));
            },
            Some(Ok(replay)) => replay,
        };
        if ParseState::class_members_alt5_should_rewind(&bp, &replay) {
            self.branch_points = tried;
            match self.take_alternative(&bp, index, engine::FIELD_ALTERNATIVE) {
                Ok(_) => {},
                Err(e) => {
                    return Some(Err(e));
                },
            }
            replay = match self.replay_alternative(
                &bp,
                engine::FIELD_ALTERNATIVE,
                syntax_set,
                limit,
                Ghost(fuel),
            ) {
                None => {
                    return None;
                },
                Some(Err(e)) => {
                    return Some(Err(e));
                },
                Some(Ok(replay)) => replay,
            };
        }
        self.take_over(&bp.info(), snap, replay);
        self.forget_prefix(index);
        cursor.restart();
        Some(Ok(true))
    }

    /// A `fail` on the line of the branch point, see
    /// [`engine::retried_within`].
    #[verifier::rlimit(40)]
    fn retry_within(
        &mut self,
        line: &str,
        cursor: &mut Cursor,
        index: usize,
        syntax_set: &SyntaxSet,
    ) -> (r: Result<bool, ParsingError>)
        requires
            index < old(self)@.branch_points.len(),
            old(self)@.branch_points[index as int].next_alternative < old(
                self,
            )@.branch_points[index as int].alternatives.len(),
        ensures
            engine::step_agrees(
                Some(r),
                final(self)@,
                final(cursor)@,
                Some(
                    engine::retried_within(
                        syntax_set@,
                        line@,
                        old(self)@,
                        old(cursor)@,
                        index as int,
                    ),
                ),
            ),
    {
        assert(self@.branch_points[index as int] == self.branch_points@[index as int]@);
        let bp = self.branch_points[index].clone();
        match self.take_alternative(&bp, index, bp.next_alternative) {
            Ok(_) => {},
            Err(e) => {
                return Err(e);
            },
        }
        cursor.keep_ops(bp.ops_snapshot_len);
        cursor.start = if bp.match_start == 0 && text::is_blank_line(line) {
            line.len()
        } else {
            bp.match_start
        };
        cursor.push_mark = bp.non_consuming_push_at_snapshot;
        assert(self.branch_points@.len() == self@.branch_points.len());
        assert(self@.branch_points[index as int] == self.branch_points@[index as int]@);
        let mut tried = self.branch_points[index].clone();
        tried.ops_snapshot_len = cursor.ops.len();
        self.branch_points.set(index, tried);
        match self.emit_alternative(&bp, bp.next_alternative, syntax_set, &mut cursor.ops) {
            Ok(_) => {},
            Err(e) => {
                return Err(e);
            },
        }
        cache::clear(&mut cursor.search_cache);
        Ok(true)
    }

    /// Handles a `fail`: goes back to the named branch point and takes its next
    /// alternative. `false` where that has no effect. See [`engine::failed`].
    #[verifier::rlimit(40)]
    pub(crate) fn handle_fail(
        &mut self,
        name: &String,
        line: &str,
        cursor: &mut Cursor,
        syntax_set: &SyntaxSet,
        limit: Option<u64>,
        Ghost(fuel): Ghost<nat>,
    ) -> (r: Option<Result<bool, ParsingError>>)
        requires
            syntax::covers(limit, fuel),
            limit is None ==> engine::failed(
                fuel,
                syntax_set@,
                line@,
                old(self)@,
                old(cursor)@,
                name@,
            ) is Some,
        ensures
            engine::step_agrees(
                r,
                final(self)@,
                final(cursor)@,
                engine::failed(fuel, syntax_set@, line@, old(self)@, old(cursor)@, name@),
            ),
        decreases fuel, 5int, 1int,
    {
        let index: usize = match self.find_branch(name) {
            Some(index) => index,
            None => {
                return Some(Ok(false));
            },
        };
        let cur_line: usize = self.current_line();
        let bp = &self.branch_points[index];
        assert(self@.branch_points[index as int] == bp@);
        if cur_line.saturating_sub(bp.line_number) > engine::MAX_BRANCH_AGE {
            let expired = self.branch_points.remove(index);
            self.warnings.push(ParseWarning::BranchPointExpired { name: expired.name });
            return Some(Ok(false));
        }
        if bp.next_alternative >= bp.alternatives.len() {
            return self.exhaust_branch(cursor, index, syntax_set, limit, Ghost(fuel));
        }
        if bp.line_number < cur_line {
            return self.retry_across(cursor, index, syntax_set, limit, Ghost(fuel));
        }
        Some(self.retry_within(line, cursor, index, syntax_set))
    }
}

} // verus!
