//! What a match does to the stack of contexts.

use crate::regex;
use crate::regex::{Expression, ExpressionV, Region};
use crate::scope;
use crate::semantics;
use crate::state;
use crate::state::{
    clone_mapping, BranchV, EscapeEntry, EscapeV, LevelV, ParseState, RegionV, StateLevel, StateV,
};
use crate::syntax;
use crate::syntax::{
    ContextId, ContextReference, EmbedEscape, ErrorV, MatchOperation, ParsingError, ReferenceV,
    SyntaxReference, SyntaxSet,
};
use crate::views;
use vstd::prelude::*;

verus! {

broadcast use crate::views::group_views;

/// The stack without its topmost `n` frames.
pub open spec fn without_top(stack: Seq<LevelV>, n: int) -> Seq<LevelV> {
    stack.subrange(0, stack.len() - scope::least(n, stack.len() as int))
}

/// The branch points whose alternative is still on a stack of that depth.
pub open spec fn live_branches(bps: Seq<BranchV>, stack_len: int) -> Seq<BranchV> {
    bps.filter(|bp: BranchV| state::alive(bp, stack_len))
}

/// The escapes whose embed is still on a stack of that depth.
pub open spec fn live_escapes(escapes: Seq<EscapeV>, stack_len: int) -> Seq<EscapeV> {
    escapes.filter(|e: EscapeV| e.stack_depth < stack_len)
}

/// Whether a rule of one of the contexts refers back to the match that pushed it.
pub open spec fn any_backrefs(ss: Seq<SyntaxReference>, ids: Seq<ContextId>) -> bool {
    exists|i: int|
        0 <= i < ids.len() && match syntax::context_of(ss, #[trigger] ids[i]) {
            Ok(context) => context.uses_backrefs,
            Err(_) => false,
        }
}

/// The stack after the contexts `refs[i..]` are pushed on it, and the error that
/// stops this, if one does. The first frame takes over `protos`; the last one
/// gets the rules of `with_prototype`.
pub open spec fn pushed_levels(
    stack: Seq<LevelV>,
    ss: Seq<SyntaxReference>,
    refs: Seq<ReferenceV>,
    i: int,
    protos: Seq<ContextId>,
    with_prototype: Option<ReferenceV>,
    region: RegionV,
    line: Seq<char>,
) -> (Seq<LevelV>, Result<(), ErrorV>)
    decreases refs.len() - i,
{
    if i < 0 || i >= refs.len() {
        (stack, Ok(()))
    } else {
        let kept = if i == 0 {
            protos
        } else {
            Seq::empty()
        };
        let own = match with_prototype {
            Some(p) => if i == refs.len() - 1 {
                match syntax::reference_id(p) {
                    Ok(id) => Ok(kept.push(id)),
                    Err(e) => Err(e),
                }
            } else {
                Ok(kept)
            },
            None => Ok(kept),
        };
        match own {
            Err(e) => (stack, Err(e)),
            Ok(prototypes) => match syntax::reference_id(refs[i]) {
                Err(e) => (stack, Err(e)),
                Ok(id) => match syntax::context_of(ss, id) {
                    Err(e) => (stack, Err(e)),
                    Ok(context) => {
                        let captures = if context.uses_backrefs || any_backrefs(ss, prototypes) {
                            Some((region, line))
                        } else {
                            None
                        };
                        pushed_levels(
                            stack.push(LevelV { context: id, prototypes, captures }),
                            ss,
                            refs,
                            i + 1,
                            protos,
                            with_prototype,
                            region,
                            line,
                        )
                    },
                },
            },
        }
    }
}

/// The state after a `push` that first pops `pop_count` frames. The prototypes
/// of the topmost popped frame carry over.
pub open spec fn performed_push(
    st: StateV,
    ss: Seq<SyntaxReference>,
    line: Seq<char>,
    region: RegionV,
    refs: Seq<ReferenceV>,
    pop_count: usize,
    with_prototype: Option<ReferenceV>,
) -> (StateV, Result<bool, ErrorV>) {
    let base = without_top(st.stack, pop_count as int);
    let depth = (base.len() as usize).saturating_add(refs.len() as usize);
    let popped = if pop_count > 0 {
        StateV {
            stack: base,
            branch_points: live_branches(st.branch_points, depth as int),
            escape_stack: live_escapes(st.escape_stack, depth as int),
            ..st
        }
    } else {
        st
    };
    let protos = if pop_count > 0 && st.stack.len() > 0 {
        st.stack.last().prototypes
    } else {
        Seq::empty()
    };
    let (stack, r) = pushed_levels(base, ss, refs, 0, protos, with_prototype, region, line);
    (
        StateV { stack, ..popped },
        match r {
            Ok(_) => Ok(true),
            Err(e) => Err(e),
        },
    )
}

/// The expression that ends an embed, with the groups of the embedding match
/// substituted.
pub open spec fn escape_expression(escape: EmbedEscape, region: RegionV, line: Seq<char>) -> ExpressionV {
    if escape.has_captures {
        ExpressionV {
            pattern: regex::substituted(escape.escape_regex@.pattern, 0, false, region, line),
            allow_empty: true,
        }
    } else {
        escape.escape_regex@
    }
}

/// The state after an `embed` that first pops `pop_count` frames.
pub open spec fn performed_embed(
    st: StateV,
    ss: Seq<SyntaxReference>,
    line: Seq<char>,
    region: RegionV,
    refs: Seq<ReferenceV>,
    escape: EmbedEscape,
    pop_count: usize,
    with_prototype: Option<ReferenceV>,
) -> (StateV, Result<bool, ErrorV>) {
    let base = without_top(st.stack, pop_count as int);
    let depth = base.len() as int;
    let popped = if pop_count > 0 {
        StateV {
            stack: base,
            branch_points: live_branches(st.branch_points, depth),
            escape_stack: live_escapes(st.escape_stack, depth),
            ..st
        }
    } else {
        st
    };
    let (stack, r) = pushed_levels(base, ss, refs, 0, Seq::empty(), with_prototype, region, line);
    match r {
        Err(e) => (StateV { stack, ..popped }, Err(e)),
        Ok(_) => (
            StateV {
                stack,
                escape_stack: popped.escape_stack.push(
                    EscapeV {
                        regex: escape_expression(escape, region, line),
                        captures: state::mapping_view(escape.escape_captures),
                        stack_depth: depth as usize,
                    },
                ),
                ..popped
            },
            Ok(true),
        ),
    }
}

/// The state after a `pop` of `n` frames.
pub open spec fn performed_pop(st: StateV, n: usize) -> StateV {
    let base = without_top(st.stack, n as int);
    StateV {
        stack: base,
        branch_points: live_branches(st.branch_points, base.len() as int),
        escape_stack: live_escapes(st.escape_stack, base.len() as int),
        ..st
    }
}

/// The state after the operation of a match, and whether the stack changed.
/// `Branch` and `Fail` are not performed here.
pub open spec fn performed(
    st: StateV,
    ss: Seq<SyntaxReference>,
    line: Seq<char>,
    region: RegionV,
    op: MatchOperation,
    with_prototype: Option<ReferenceV>,
) -> (StateV, Result<bool, ErrorV>) {
    match op {
        MatchOperation::Push { ctx_refs, pop_count } => performed_push(
            st,
            ss,
            line,
            region,
            views::of(ctx_refs@),
            pop_count,
            with_prototype,
        ),
        MatchOperation::SetTo { ctx_refs, pop_count } => performed_push(
            st,
            ss,
            line,
            region,
            views::of(ctx_refs@),
            semantics::set_pops(pop_count),
            with_prototype,
        ),
        MatchOperation::Embed { contexts, escape, pop_count } => performed_embed(
            st,
            ss,
            line,
            region,
            views::of(contexts@),
            escape,
            pop_count,
            with_prototype,
        ),
        MatchOperation::Pop(n) => (performed_pop(st, n), Ok(true)),
        MatchOperation::Branch { .. } => (st, Ok(false)),
        MatchOperation::Fail(_) => (st, Ok(false)),
        MatchOperation::Nothing => (st, Ok(false)),
    }
}

/// Whether a result agrees with its model.
pub open spec fn same<T>(r: Result<T, ParsingError>, model: Result<T, ErrorV>) -> bool {
    match r {
        Ok(x) => model == Ok::<T, ErrorV>(x),
        Err(e) => model == Err::<T, ErrorV>(e@),
    }
}

fn uses_backrefs(syntax_set: &SyntaxSet, ids: &Vec<ContextId>) -> (r: bool)
    ensures
        r == any_backrefs(syntax_set@, ids@),
{
    for i in 0..ids.len()
        invariant
            forall|k: int|
                0 <= k < i ==> !(match syntax::context_of(syntax_set@, #[trigger] ids@[k]) {
                    Ok(context) => context.uses_backrefs,
                    Err(_) => false,
                }),
    {
        if let Ok(context) = syntax_set.get_context(&ids[i]) {
            if context.uses_backrefs {
                return true;
            }
        }
    }
    false
}

impl ParseState {
    /// Forgets the branch points whose alternative is gone.
    pub(crate) fn retain_branches(&mut self, stack_len: usize)
        ensures
            final(self)@ == (StateV {
                branch_points: live_branches(old(self)@.branch_points, stack_len as int),
                ..old(self)@
            }),
    {
        let ghost all = self@.branch_points;
        let ghost p = |bp: BranchV| state::alive(bp, stack_len as int);
        let ghost mut j: int = 0;
        let mut i: usize = 0;
        proof {
            reveal(Seq::filter);
            assert(all.subrange(0, 0).filter(p) =~= Seq::empty());
            assert(all =~= Seq::empty() + all.subrange(0, all.len() as int));
        }
        while i < self.branch_points.len()
            invariant
                p == (|bp: BranchV| state::alive(bp, stack_len as int)),
                0 <= j <= all.len(),
                i == all.subrange(0, j).filter(p).len(),
                i <= self.branch_points@.len(),
                views::of(self.branch_points@) == all.subrange(0, j).filter(p) + all.subrange(
                    j,
                    all.len() as int,
                ),
                self@ == (StateV { branch_points: self@.branch_points, ..old(self)@ }),
            decreases all.len() - j,
        {
            let ghost before = self@;
            let ghost kept = all.subrange(0, j).filter(p);
            proof {
                views::lemma_filter_step(all, j, p);
                assert(views::of(self.branch_points@)[i as int] == all[j]);
            }
            if self.branch_points[i].is_alive(stack_len) {
                i += 1;
                proof {
                    assert(kept + all.subrange(j, all.len() as int) =~= kept.push(all[j])
                        + all.subrange(j + 1, all.len() as int));
                }
            } else {
                let _ = self.branch_points.remove(i);
                proof {
                    assert((kept + all.subrange(j, all.len() as int)).remove(i as int) =~= kept
                        + all.subrange(j + 1, all.len() as int));
                }
            }
            proof {
                j = j + 1;
            }
        }
        proof {
            assert(j == all.len());
            assert(all.subrange(0, j) =~= all);
            assert(all.filter(p) + all.subrange(j, j) =~= all.filter(p));
        }
    }

    /// Forgets the escapes whose embed is gone.
    pub(crate) fn retain_escapes(&mut self, stack_len: usize)
        ensures
            final(self)@ == (StateV {
                escape_stack: live_escapes(old(self)@.escape_stack, stack_len as int),
                ..old(self)@
            }),
    {
        let ghost all = self@.escape_stack;
        let ghost p = |e: EscapeV| e.stack_depth < stack_len as int;
        let ghost mut j: int = 0;
        let mut i: usize = 0;
        proof {
            reveal(Seq::filter);
            assert(all.subrange(0, 0).filter(p) =~= Seq::empty());
            assert(all =~= Seq::empty() + all.subrange(0, all.len() as int));
        }
        while i < self.escape_stack.len()
            invariant
                p == (|e: EscapeV| e.stack_depth < stack_len as int),
                0 <= j <= all.len(),
                i == all.subrange(0, j).filter(p).len(),
                i <= self.escape_stack@.len(),
                views::of(self.escape_stack@) == all.subrange(0, j).filter(p) + all.subrange(
                    j,
                    all.len() as int,
                ),
                self@ == (StateV { escape_stack: self@.escape_stack, ..old(self)@ }),
            decreases all.len() - j,
        {
            let ghost kept = all.subrange(0, j).filter(p);
            proof {
                views::lemma_filter_step(all, j, p);
                assert(views::of(self.escape_stack@)[i as int] == all[j]);
            }
            if self.escape_stack[i].stack_depth < stack_len {
                i += 1;
                proof {
                    assert(kept + all.subrange(j, all.len() as int) =~= kept.push(all[j])
                        + all.subrange(j + 1, all.len() as int));
                }
            } else {
                let _ = self.escape_stack.remove(i);
                proof {
                    assert((kept + all.subrange(j, all.len() as int)).remove(i as int) =~= kept
                        + all.subrange(j + 1, all.len() as int));
                }
            }
            proof {
                j = j + 1;
            }
        }
        proof {
            assert(j == all.len());
            assert(all.subrange(0, j) =~= all);
            assert(all.filter(p) + all.subrange(j, j) =~= all.filter(p));
        }
    }

    /// Takes the topmost `n` frames off the stack.
    pub(crate) fn drop_levels(&mut self, n: usize)
        ensures
            final(self)@ == (StateV { stack: without_top(old(self)@.stack, n as int), ..old(self)@ }),
    {
        let len: usize = self.stack.len();
        let left: usize = if n < len {
            len - n
        } else {
            0
        };
        self.stack.truncate(left);
        assert(self@.stack =~= without_top(old(self)@.stack, n as int));
    }

    /// See [`pushed_levels`].
    fn push_levels(
        &mut self,
        refs: &Vec<ContextReference>,
        protos: Vec<ContextId>,
        with_prototype: &Option<ContextReference>,
        region: &Region,
        line: &str,
        syntax_set: &SyntaxSet,
    ) -> (r: Result<(), ParsingError>)
        ensures
            ({
                let (stack, model) = pushed_levels(
                    old(self)@.stack,
                    syntax_set@,
                    views::of(refs@),
                    0,
                    protos@,
                    views::opt(*with_prototype),
                    region@,
                    line@,
                );
                same(r, model) && final(self)@ == (StateV { stack, ..old(self)@ })
            }),
    {
        let ghost goal = pushed_levels(
            self@.stack,
            syntax_set@,
            views::of(refs@),
            0,
            protos@,
            views::opt(*with_prototype),
            region@,
            line@,
        );
        let mut i: usize = 0;
        while i < refs.len()
            invariant
                i <= refs@.len(),
                goal == pushed_levels(
                    old(self)@.stack,
                    syntax_set@,
                    views::of(refs@),
                    0,
                    protos@,
                    views::opt(*with_prototype),
                    region@,
                    line@,
                ),
                goal == pushed_levels(
                    self@.stack,
                    syntax_set@,
                    views::of(refs@),
                    i as int,
                    protos@,
                    views::opt(*with_prototype),
                    region@,
                    line@,
                ),
                self@ == (StateV { stack: self@.stack, ..old(self)@ }),
            decreases refs@.len() - i,
        {
            let mut prototypes: Vec<ContextId> = Vec::new();
            if i == 0 {
                prototypes = protos.clone();
            }
            assert(prototypes@ =~= if i == 0 {
                protos@
            } else {
                Seq::empty()
            });
            if i == refs.len() - 1 {
                if let Some(p) = with_prototype {
                    match p.id() {
                        Ok(id) => {
                            prototypes.push(id);
                        },
                        Err(e) => {
                            return Err(e);
                        },
                    }
                }
            }
            let id = match refs[i].id() {
                Ok(id) => id,
                Err(e) => {
                    return Err(e);
                },
            };
            let context = match syntax_set.get_context(&id) {
                Ok(context) => context,
                Err(e) => {
                    return Err(e);
                },
            };
            let captures = if context.uses_backrefs || uses_backrefs(syntax_set, &prototypes) {
                Some((region.clone(), line.to_owned()))
            } else {
                None
            };
            let ghost before = self@;
            self.stack.push(StateLevel { context: id, prototypes, captures });
            assert(self@ =~= StateV { stack: self@.stack, ..before });
            i += 1;
        }
        Ok(())
    }

    /// See [`performed_push`].
    pub(crate) fn perform_push(
        &mut self,
        line: &str,
        region: &Region,
        refs: &Vec<ContextReference>,
        pop_count: usize,
        with_prototype: &Option<ContextReference>,
        syntax_set: &SyntaxSet,
    ) -> (r: Result<bool, ParsingError>)
        ensures
            ({
                let (st, model) = performed_push(
                    old(self)@,
                    syntax_set@,
                    line@,
                    region@,
                    views::of(refs@),
                    pop_count,
                    views::opt(*with_prototype),
                );
                same(r, model) && final(self)@ == st
            }),
    {
        let mut protos: Vec<ContextId> = Vec::new();
        assert(protos@ =~= Seq::empty());
        proof {
            if pop_count == 0 {
                assert(without_top(self@.stack, 0) =~= self@.stack);
            }
        }
        if pop_count > 0 {
            if self.stack.len() > 0 {
                protos = self.stack[self.stack.len() - 1].prototypes.clone();
                assert(protos@ =~= self@.stack.last().prototypes);
            }
            self.drop_levels(pop_count);
            let depth: usize = self.stack.len().saturating_add(refs.len());
            self.retain_branches(depth);
            self.retain_escapes(depth);
        }
        match self.push_levels(refs, protos, with_prototype, region, line, syntax_set) {
            Ok(_) => Ok(true),
            Err(e) => Err(e),
        }
    }

    /// See [`performed_embed`].
    fn perform_embed(
        &mut self,
        line: &str,
        region: &Region,
        refs: &Vec<ContextReference>,
        escape: &EmbedEscape,
        pop_count: usize,
        with_prototype: &Option<ContextReference>,
        syntax_set: &SyntaxSet,
    ) -> (r: Result<bool, ParsingError>)
        ensures
            ({
                let (st, model) = performed_embed(
                    old(self)@,
                    syntax_set@,
                    line@,
                    region@,
                    views::of(refs@),
                    *escape,
                    pop_count,
                    views::opt(*with_prototype),
                );
                same(r, model) && final(self)@ == st
            }),
    {
        proof {
            if pop_count == 0 {
                assert(without_top(self@.stack, 0) =~= self@.stack);
            }
        }
        if pop_count > 0 {
            self.drop_levels(pop_count);
            let depth: usize = self.stack.len();
            self.retain_branches(depth);
            self.retain_escapes(depth);
        }
        let stack_depth: usize = self.stack.len();
        match self.push_levels(refs, Vec::new(), with_prototype, region, line, syntax_set) {
            Ok(_) => {},
            Err(e) => {
                return Err(e);
            },
        }
        let resolved = if escape.has_captures {
            Expression::new(
                regex::substitute_backrefs_in_regex(escape.escape_regex.regex_str(), region, line),
                true,
            )
        } else {
            escape.escape_regex.clone()
        };
        let ghost before = self@;
        self.escape_stack.push(
            EscapeEntry {
                regex: resolved,
                captures: clone_mapping(&escape.escape_captures),
                stack_depth,
            },
        );
        assert(self@ =~= StateV { escape_stack: self@.escape_stack, ..before });
        Ok(true)
    }

    /// Performs the operation of a match on the stack; says whether the stack
    /// changed. See [`performed`].
    pub fn perform_op(
        &mut self,
        line: &str,
        region: &Region,
        operation: &MatchOperation,
        with_prototype: &Option<ContextReference>,
        syntax_set: &SyntaxSet,
    ) -> (r: Result<bool, ParsingError>)
        ensures
            ({
                let (st, model) = performed(
                    old(self)@,
                    syntax_set@,
                    line@,
                    region@,
                    *operation,
                    views::opt(*with_prototype),
                );
                same(r, model) && final(self)@ == st
            }),
    {
        match operation {
            MatchOperation::Push { ctx_refs, pop_count } => self.perform_push(
                line,
                region,
                ctx_refs,
                *pop_count,
                with_prototype,
                syntax_set,
            ),
            MatchOperation::SetTo { ctx_refs, pop_count } => {
                // A `set` is a `push` that pops at least the current frame.
                let pops: usize = if *pop_count >= 1 {
                    *pop_count
                } else {
                    1
                };
                self.perform_push(line, region, ctx_refs, pops, with_prototype, syntax_set)
            },
            MatchOperation::Embed { contexts, escape, pop_count } => self.perform_embed(
                line,
                region,
                contexts,
                escape,
                *pop_count,
                with_prototype,
                syntax_set,
            ),
            MatchOperation::Pop(n) => {
                self.drop_levels(*n);
                let depth: usize = self.stack.len();
                self.retain_branches(depth);
                self.retain_escapes(depth);
                Ok(true)
            },
            MatchOperation::Branch { .. } => Ok(false),
            MatchOperation::Fail(_) => Ok(false),
            MatchOperation::Nothing => Ok(false),
        }
    }
}

} // verus!
