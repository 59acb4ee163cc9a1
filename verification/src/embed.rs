//! The end of an embed: its escape pattern matched.

use crate::captures;
use crate::emit;
use crate::perform;
use crate::regex::Region;
use crate::scope;
use crate::scope::Op;
use crate::semantics;
use crate::state::{clone_mapping, LevelV, ParseState, RegionV, StateV};
use crate::syntax;
use crate::syntax::{ErrorV, ParsingError, SyntaxReference, SyntaxSet};
use vstd::prelude::*;

verus! {

broadcast use crate::views::group_views;

/// `total` plus the number of scopes that the frames `stack[i..]` put on the
/// scope stack, `replaced` telling whether the frame below replaces the content
/// scope of the next one.
pub open spec fn expected_depth(
    ss: Seq<SyntaxReference>,
    stack: Seq<LevelV>,
    i: int,
    total: usize,
    replaced: bool,
) -> Result<usize, ErrorV>
    decreases stack.len() - i,
{
    if i < 0 || i >= stack.len() {
        Ok(total)
    } else {
        match syntax::context_of(ss, stack[i].context) {
            Err(e) => Err(e),
            Ok(context) => {
                let own = total.saturating_add(context.meta_scope@.len() as usize);
                let both = if replaced {
                    own
                } else {
                    own.saturating_add(context.meta_content_scope@.len() as usize)
                };
                expected_depth(ss, stack, i + 1, both, context.embed_scope_replaces)
            },
        }
    }
}

/// The operations that take the frames above `target` off the scope stack, top
/// first, and the stack that is left (all of it down to the frame that cannot be
/// looked up, if there is one).
pub open spec fn unwound_to(
    acc: Seq<Op>,
    ss: Seq<SyntaxReference>,
    stack: Seq<LevelV>,
    index: usize,
    target: usize,
) -> (Seq<LevelV>, Result<Seq<Op>, ErrorV>)
    decreases stack.len(),
{
    if stack.len() <= target {
        (stack, Ok(acc))
    } else {
        match syntax::context_of(ss, stack.last().context) {
            Err(e) => (stack, Err(e)),
            Ok(context) => unwound_to(
                semantics::frame_unwound(
                    acc,
                    index,
                    context,
                    semantics::replaced_by_below(ss, stack, stack.len() - 1),
                ),
                ss,
                stack.drop_last(),
                index,
                target,
            ),
        }
    }
}

/// `acc`, then a `Pop` of what the consumer has on its scope stack beyond what
/// the frames account for.
pub open spec fn without_orphans(acc: Seq<Op>, shadow: scope::StackV, index: usize, expected: usize) -> Seq<
    Op,
> {
    let depth = scope::applied_all(shadow, acc).scopes.len();
    if depth > expected {
        emit::popped(acc, index, (depth - expected) as usize)
    } else {
        acc
    }
}

/// The state and the operations after the escape `escape_idx` matched: orphans
/// and all frames of the embed are taken off the scope stack, then the groups of
/// the match get their scopes. Unlike those of a rule, the groups are not clipped to
/// the match: one in a look-ahead colours what it found there. The escapes inside
/// the embed are gone, and so are the branch points whose alternative was.
pub open spec fn escape_executed(
    st: StateV,
    ss: Seq<SyntaxReference>,
    acc: Seq<Op>,
    escape_idx: usize,
    match_start: usize,
    region: RegionV,
) -> (StateV, Result<Seq<Op>, ErrorV>) {
    if escape_idx >= st.escape_stack.len() {
        (st, Ok(acc))
    } else {
        let entry = st.escape_stack[escape_idx as int];
        match expected_depth(ss, st.stack, 0, 0, false) {
            Err(e) => (st, Err(e)),
            Ok(expected) => {
                let a = without_orphans(acc, st.shadow, match_start, expected);
                let (stack, r) = unwound_to(a, ss, st.stack, match_start, entry.stack_depth);
                match r {
                    Err(e) => (StateV { stack, ..st }, Err(e)),
                    Ok(b) => (
                        StateV {
                            stack,
                            escape_stack: st.escape_stack.subrange(0, escape_idx as int),
                            branch_points: perform::live_branches(
                                st.branch_points,
                                stack.len() as int,
                            ),
                            ..st
                        },
                        Ok(b + captures::group_ops(entry.captures, region, false)),
                    ),
                }
            },
        }
    }
}

impl ParseState {
    /// See [`expected_depth`].
    fn expected_scope_depth(&self, syntax_set: &SyntaxSet) -> (r: Result<usize, ParsingError>)
        ensures
            perform::same(r, expected_depth(syntax_set@, self@.stack, 0, 0, false)),
    {
        let mut total: usize = 0;
        let mut replaced = false;
        let mut i: usize = 0;
        while i < self.stack.len()
            invariant
                i <= self.stack@.len(),
                expected_depth(syntax_set@, self@.stack, i as int, total, replaced)
                    == expected_depth(syntax_set@, self@.stack, 0, 0, false),
            decreases self.stack@.len() - i,
        {
            match syntax_set.get_context(&self.stack[i].context) {
                Ok(context) => {
                    total = total.saturating_add(context.meta_scope.len());
                    if !replaced {
                        total = total.saturating_add(context.meta_content_scope.len());
                    }
                    replaced = context.embed_scope_replaces;
                },
                Err(e) => {
                    return Err(e);
                },
            }
            i += 1;
        }
        Ok(total)
    }

    /// See [`unwound_to`].
    fn unwind_to(
        &mut self,
        target: usize,
        index: usize,
        syntax_set: &SyntaxSet,
        ops: &mut Vec<Op>,
    ) -> (r: Result<(), ParsingError>)
        ensures
            ({
                let (stack, model) = unwound_to(
                    old(ops)@,
                    syntax_set@,
                    old(self)@.stack,
                    index,
                    target,
                );
                semantics::agrees(r, final(ops)@, model) && final(self)@ == (StateV {
                    stack,
                    ..old(self)@
                })
            }),
    {
        let ghost goal = unwound_to(ops@, syntax_set@, self@.stack, index, target);
        while self.stack.len() > target
            invariant
                goal == unwound_to(old(ops)@, syntax_set@, old(self)@.stack, index, target),
                goal == unwound_to(ops@, syntax_set@, self@.stack, index, target),
                self@ == (StateV { stack: self@.stack, ..old(self)@ }),
            decreases self.stack@.len(),
        {
            let top: usize = self.stack.len() - 1;
            let context = match syntax_set.get_context(&self.stack[top].context) {
                Ok(context) => context,
                Err(e) => {
                    return Err(e);
                },
            };
            if !self.is_replaced_by_below(syntax_set, top) {
                emit::emit_pop(ops, index, context.meta_content_scope.len());
            }
            emit::emit_pop(ops, index, context.meta_scope.len());
            emit::emit_restore(ops, index, context.clear_scopes.is_some());
            let ghost before = self@;
            let _ = self.stack.pop();
            assert(self@.stack =~= before.stack.drop_last());
            assert(self@ =~= StateV { stack: self@.stack, ..before });
        }
        Ok(())
    }

    /// Ends the embed whose escape matched. See [`escape_executed`].
    pub fn exec_escape(
        &mut self,
        escape_idx: usize,
        match_start: usize,
        region: &Region,
        syntax_set: &SyntaxSet,
        ops: &mut Vec<Op>,
    ) -> (r: Result<(), ParsingError>)
        ensures
            ({
                let (st, model) = escape_executed(
                    old(self)@,
                    syntax_set@,
                    old(ops)@,
                    escape_idx,
                    match_start,
                    region@,
                );
                semantics::agrees(r, final(ops)@, model) && final(self)@ == st
            }),
    {
        if escape_idx >= self.escape_stack.len() {
            return Ok(());
        }
        let target: usize = self.escape_stack[escape_idx].stack_depth;
        let escape_captures = clone_mapping(&self.escape_stack[escape_idx].captures);
        let expected: usize = match self.expected_scope_depth(syntax_set) {
            Ok(expected) => expected,
            Err(e) => {
                return Err(e);
            },
        };
        let mut shadow = self.shadow.clone();
        shadow.apply_all(ops);
        let depth: usize = shadow.as_slice().len();
        if depth > expected {
            emit::emit_pop(ops, match_start, depth - expected);
        }
        match self.unwind_to(target, match_start, syntax_set, ops) {
            Ok(_) => {},
            Err(e) => {
                return Err(e);
            },
        }
        let capture_ops = captures::build_capture_ops(&escape_captures, region, false);
        emit::emit_all(ops, &capture_ops);
        let ghost before = self@;
        self.escape_stack.truncate(escape_idx);
        assert(self@ =~= StateV {
            escape_stack: before.escape_stack.subrange(0, escape_idx as int),
            ..before
        });
        let stack_len: usize = self.stack.len();
        self.retain_branches(stack_len);
        Ok(())
    }
}

} // verus!
