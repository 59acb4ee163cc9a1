//! Branch points: their creation, and the way back to them.

use crate::captures;
use crate::corrections;
use crate::emit;
use crate::engine;
use crate::engine::{Cursor, ReplayV};
use crate::regex::Region;
use crate::scope;
use crate::scope::{Op, Scope, ScopeStackOp};
use crate::semantics;
use crate::state::{
    clone_depths, clone_escapes, clone_ops, clone_reference, clone_references, clone_scopes,
    clone_stack, BpInfo, BranchPoint, MaxDepthSeen, ParseState, StateLevel,
};
use crate::syntax::{ContextId, ContextReference, ErrorV, MatchPattern, ParsingError, SyntaxSet};
use crate::views;
use vstd::prelude::*;

verus! {

broadcast use crate::views::group_views;

/// What a replay of buffered lines found.
#[derive(Debug)]
pub(crate) struct Replay {
    pub(crate) ops: Vec<Vec<Op>>,
    pub(crate) corrections: Vec<Vec<Op>>,
    pub(crate) start: Option<usize>,
    pub(crate) bps: Vec<BpInfo>,
    pub(crate) deepest: MaxDepthSeen,
}

impl View for Replay {
    type V = ReplayV;

    open(crate) spec fn view(&self) -> ReplayV {
        ReplayV {
            ops: views::of(self.ops@),
            corrections: views::of(self.corrections@),
            start: self.start,
            bps: views::of(self.bps@),
            deepest: self.deepest@,
        }
    }
}

impl BranchPoint {
    /// See [`engine::info_of`].
    pub(crate) fn info(&self) -> (r: BpInfo)
        ensures
            r@ == engine::info_of(self@),
    {
        BpInfo {
            name: self.name.clone(),
            stack_depth: self.stack_depth,
            line_number: self.line_number,
            inner_producer: None,
        }
    }
}

/// `n` copies of an attribution.
fn repeat_info(info: &BpInfo, n: usize) -> (r: Vec<BpInfo>)
    ensures
        views::of(r@) == Seq::new(n as nat, |i: int| info@),
{
    let mut r: Vec<BpInfo> = Vec::with_capacity(n);
    for i in 0..n
        invariant
            views::of(r@) =~= Seq::new(i as nat, |k: int| info@),
    {
        r.push(info.clone());
    }
    r
}

/// The scope `meta.function.return-type.java`.
fn java_return_type() -> (r: Scope)
    ensures
        r == engine::return_type_scope(),
{
    Scope {
        a0: scope::META_ATOM,
        a1: scope::FUNCTION_ATOM,
        a2: scope::RETURN_TYPE_ATOM,
        a3: scope::JAVA_ATOM,
        a4: 0,
        a5: 0,
        a6: 0,
        a7: 0,
    }
}

/// Whether one of the operations pushes a return type.
fn pushes_return_type(ops: &Vec<Op>) -> (r: bool)
    ensures
        r == exists|k: int|
            0 <= k < ops@.len() && {
                &&& (#[trigger] ops@[k]).1 is Push
                &&& scope::prefix_of(engine::return_type_scope(), ops@[k].1->Push_0)
            },
{
    let wanted = java_return_type();
    for k in 0..ops.len()
        invariant
            wanted == engine::return_type_scope(),
            forall|j: int|
                0 <= j < k ==> !((#[trigger] ops@[j]).1 is Push && scope::prefix_of(
                    engine::return_type_scope(),
                    ops@[j].1->Push_0,
                )),
    {
        match ops[k].1 {
            ScopeStackOp::Push(s) => {
                if wanted.is_prefix_of(s) {
                    assert(ops@[k as int].1 is Push);
                    return true;
                }
            },
            _ => {},
        }
    }
    false
}

impl ParseState {
    /// See [`engine::current_line`].
    pub(crate) fn current_line(&self) -> (r: usize)
        ensures
            r == engine::current_line(self@),
    {
        match self.replay_ctx {
            Some(ctx) => ctx.line_number,
            None => self.line_number.saturating_sub(1),
        }
    }

    /// The latest live branch point of that name.
    pub(crate) fn find_branch(&self, name: &String) -> (r: Option<usize>)
        ensures
            match r {
                Some(i) => i < self@.branch_points.len() && engine::latest_branch(
                    self@.branch_points,
                    self@.branch_points.len() as int,
                    name@,
                    self@.stack.len() as int,
                ) == Some(i as int),
                None => engine::latest_branch(
                    self@.branch_points,
                    self@.branch_points.len() as int,
                    name@,
                    self@.stack.len() as int,
                ) is None,
            },
    {
        let mut n: usize = self.branch_points.len();
        while n > 0
            invariant
                n <= self.branch_points@.len(),
                engine::latest_branch(
                    self@.branch_points,
                    n as int,
                    name@,
                    self@.stack.len() as int,
                ) == engine::latest_branch(
                    self@.branch_points,
                    self@.branch_points.len() as int,
                    name@,
                    self@.stack.len() as int,
                ),
            decreases n,
        {
            assert(self@.branch_points[n - 1] == self.branch_points@[n - 1]@);
            if self.branch_points[n - 1].name == *name && self.branch_points[n - 1].is_alive(
                self.stack.len(),
            ) {
                return Some(n - 1);
            }
            n -= 1;
        }
        None
    }

    /// Appends the operations of the match of a branch point, see
    /// [`engine::branch_ops`].
    #[verifier::rlimit(40)]
    pub(crate) fn emit_branch(
        &self,
        first: usize,
        last: usize,
        scopes: &Vec<Scope>,
        capture_ops: &Vec<Op>,
        refs: &Vec<ContextReference>,
        pop_count: usize,
        syntax_set: &SyntaxSet,
        ops: &mut Vec<Op>,
    ) -> (r: Result<(), ParsingError>)
        ensures
            semantics::agrees(
                r,
                final(ops)@,
                engine::branch_ops(
                    old(ops)@,
                    syntax_set@,
                    self@.stack,
                    first,
                    last,
                    scopes@,
                    capture_ops@,
                    views::of(refs@),
                    pop_count,
                ),
            ),
    {
        if self.stack.len() == 0 {
            return Ok(());
        }
        let top: usize = self.stack.len() - 1;
        assert(self@.stack.last() == self.stack@[top as int]@);
        let context = match syntax_set.get_context(&self.stack[top].context) {
            Ok(context) => context,
            Err(e) => {
                return Err(e);
            },
        };
        match self.emit_enter(
            true,
            first,
            &context.meta_scope,
            &context.meta_content_scope,
            context.clear_scopes,
            false,
            pop_count,
            refs,
            syntax_set,
            ops,
        ) {
            Ok(_) => {},
            Err(e) => {
                return Err(e);
            },
        }
        emit::emit_pushes(ops, first, scopes);
        emit::emit_all(ops, capture_ops);
        emit::emit_pop(ops, last, scopes.len());
        self.emit_enter(
            false,
            last,
            &context.meta_scope,
            &context.meta_content_scope,
            context.clear_scopes,
            false,
            pop_count,
            refs,
            syntax_set,
            ops,
        )
    }

    /// The record of a branch match, see [`engine::new_branch`].
    #[verifier::rlimit(40)]
    pub(crate) fn snapshot_branch(
        &self,
        cursor: &Cursor,
        pat: &MatchPattern,
        name: &String,
        alternatives: &Vec<ContextReference>,
        pop_count: usize,
        region: &Region,
    ) -> (r: BranchPoint)
        ensures
            r@ == engine::new_branch(
                self@,
                cursor@,
                *pat,
                name@,
                views::of(alternatives@),
                pop_count,
                region@,
            ),
    {
        let pending_lines_snapshot_len: usize = match self.replay_ctx {
            Some(ctx) => ctx.pending_lines_snapshot_offset,
            None => self.pending_lines.len(),
        };
        let prefix_ops = match &self.replay_prefix_ops {
            Some(outer) => {
                let mut combined = clone_ops(outer);
                emit::emit_all(&mut combined, &cursor.ops);
                combined
            },
            None => clone_ops(&cursor.ops),
        };
        BranchPoint {
            name: name.clone(),
            next_alternative: 1,
            alternatives: clone_references(alternatives),
            stack_snapshot: clone_stack(&self.stack),
            proto_starts_snapshot: clone_depths(&self.proto_starts),
            match_start: cursor.start,
            trigger_match_start: region.whole_match().0,
            pat_scope: clone_scopes(&pat.scope),
            line_number: self.current_line(),
            ops_snapshot_len: cursor.ops.len(),
            stack_depth: self.stack.len(),
            non_consuming_push_at_snapshot: cursor.push_mark,
            first_line_snapshot: self.first_line,
            with_prototype: clone_reference(&pat.with_prototype),
            pending_lines_snapshot_len,
            escape_stack_snapshot: clone_escapes(&self.escape_stack),
            pop_count,
            prefix_ops,
            capture_ops: captures::build_capture_ops(&pat.captures, region, true),
        }
    }

    /// Records a branch point, see [`engine::with_branch`].
    pub(crate) fn add_branch(&mut self, bp: BranchPoint)
        ensures
            final(self)@ == engine::with_branch(old(self)@, bp@),
    {
        let deeper = match &self.inner_replay_max_depth {
            Some(seen) => bp.stack_depth > seen.depth,
            None => false,
        };
        if deeper {
            self.inner_replay_max_depth = Some(
                MaxDepthSeen { depth: bp.stack_depth, bp: Some(bp.info()) },
            );
        }
        self.branch_points.push(bp);
    }

    /// Goes back to the state that a branch point recorded, see
    /// [`engine::rewound`].
    pub(crate) fn rewind_to(&mut self, bp: &BranchPoint)
        ensures
            final(self)@ == engine::rewound(old(self)@, bp@),
    {
        self.stack = clone_stack(&bp.stack_snapshot);
        self.proto_starts = clone_depths(&bp.proto_starts_snapshot);
        self.escape_stack = clone_escapes(&bp.escape_stack_snapshot);
        self.first_line = bp.first_line_snapshot;
    }

    /// Goes on with another alternative of a branch point, see
    /// [`engine::alternative_taken`].
    #[verifier::rlimit(40)]
    pub(crate) fn take_alternative(&mut self, bp: &BranchPoint, index: usize, alt: usize) -> (r: Result<
        (),
        ParsingError,
    >)
        requires
            index < old(self)@.branch_points.len(),
            engine::same_branch(old(self)@.branch_points[index as int], bp@),
            alt < bp@.alternatives.len(),
        ensures
            ({
                let (st, model) = engine::alternative_taken(
                    old(self)@,
                    old(self)@.branch_points,
                    index as int,
                    alt as int,
                );
                final(self)@ == st && match r {
                    Ok(_) => model is Ok,
                    Err(e) => model == Err::<(), ErrorV>(e@),
                }
            }),
    {
        self.rewind_to(bp);
        let mut tried = bp.clone();
        assert(bp.alternatives@.len() == bp.alternatives.len());
        tried.next_alternative = alt + 1;
        self.branch_points.set(index, tried);
        self.drop_levels(bp.pop_count);
        assert(bp@.alternatives[alt as int] == bp.alternatives@[alt as int]@);
        let context = match bp.alternatives[alt].id() {
            Ok(id) => id,
            Err(e) => {
                return Err(e);
            },
        };
        let mut prototypes: Vec<ContextId> = Vec::new();
        match &bp.with_prototype {
            Some(p) => match p.id() {
                Ok(id) => {
                    prototypes.push(id);
                },
                Err(e) => {
                    return Err(e);
                },
            },
            None => {},
        }
        assert(bp@.with_prototype is Some ==> prototypes@ =~= seq![prototypes@[0]]);
        assert(bp@.with_prototype is None ==> prototypes@ =~= Seq::empty());
        self.stack.push(StateLevel { context, prototypes, captures: None });
        Ok(())
    }

    /// Takes over what a replay found, see [`engine::replay_taken`].
    #[verifier::rlimit(40)]
    pub(crate) fn take_over(&mut self, info: &BpInfo, snap: usize, replay: Replay)
        ensures
            final(self)@ == engine::replay_taken(old(self)@, info@, snap, replay@),
    {
        let Replay { ops, corrections, start, bps: inner_bps, deepest } = replay;
        let n: usize = ops.len();
        let bps = repeat_info(info, n);
        match start {
            Some(inner_start) if corrections.len() > 0 => {
                let (new_ops, new_bps) = self.prefer_inner_replay_corrections(
                    snap,
                    ops,
                    bps,
                    &corrections,
                    inner_start,
                    info,
                    &inner_bps,
                );
                proof {
                    let slot = |i: int|
                        corrections::arbitrated_slot(
                            i,
                            snap,
                            views::of(ops@),
                            Seq::new(n as nat, |k: int| info@),
                            views::of(corrections@),
                            inner_start,
                            info@,
                            views::of(inner_bps@),
                            self@.shadow,
                        );
                    assert(views::of(new_ops@) =~= Seq::new(n as nat, |i: int| slot(i).0));
                    assert forall|i: int| 0 <= i < n implies views::of(new_bps@)[i] == slot(i).1 by {
                        let paired = views::of(new_ops@)[i];
                    }
                    assert(views::of(new_bps@) =~= Seq::new(n as nat, |i: int| slot(i).1));
                }
                self.merge_flushed(snap, new_ops, new_bps);
            },
            _ => {
                self.merge_flushed(snap, ops, bps);
            },
        }
    }

    /// See [`engine::prefix_forgotten`].
    pub(crate) fn forget_prefix(&mut self, index: usize)
        ensures
            final(self)@ == engine::prefix_forgotten(old(self)@, index as int),
    {
        if index < self.branch_points.len() {
            let mut bp = self.branch_points[index].clone();
            bp.ops_snapshot_len = 0;
            self.branch_points.set(index, bp);
        }
    }

    /// Whether a replay jumps to the field alternative, see
    /// [`engine::jumps_to_field`].
    pub(crate) fn class_members_alt5_should_rewind(bp: &BranchPoint, replay: &Replay) -> (r: bool)
        ensures
            r == engine::jumps_to_field(bp@, replay@),
    {
        let gate: String = "class-members".to_owned();
        if bp.name != gate {
            return false;
        }
        if bp.next_alternative >= engine::FIELD_ALTERNATIVE || bp.alternatives.len()
            <= engine::FIELD_ALTERNATIVE {
            return false;
        }
        if replay.corrections.len() > 0 {
            return false;
        }
        match &replay.deepest.bp {
            Some(inner) => {
                if inner.stack_depth <= bp.stack_depth {
                    return false;
                }
            },
            None => {
                return false;
            },
        }
        if replay.ops.len() == 0 {
            return false;
        }
        let first = &replay.ops[0];
        assert(replay@.ops[0] == first@);
        pushes_return_type(first)
    }
}

} // verus!
