//! What a match does to the state: the frames that it takes off the stack of contexts
//! and puts there, and what it remembers for later.

use crate::cache::CacheV;
use crate::choice;
use crate::engine;
use crate::engine::CursorV;
use crate::perform;
use crate::regex;
use crate::scope::Op;
use crate::search;
use crate::search::FoundV;
use crate::state;
use crate::state::{BranchV, EscapeV, LevelV, RegionV, StateV};
use crate::syntax;
use crate::syntax::{ContextId, MatchOperation, MatchPattern, ReferenceV, SyntaxReference};
use crate::text;
use crate::views;
use vstd::prelude::*;

verus! {

/// Whether `kept` is what is left of `starts` when those that a stack of that depth
/// does not reach are taken off its end.
pub open spec fn trims(starts: Seq<usize>, depth: nat, kept: Seq<usize>) -> bool {
    &&& kept.is_prefix_of(starts)
    &&& kept.len() > 0 ==> kept.last() < depth
    &&& forall|i: int| kept.len() <= i < starts.len() ==> #[trigger] starts[i] >= depth
}

/// Whether the step that starts at the cursor finds a match of the rule `pat`, which
/// does more than take back what was pushed there.
pub open spec fn finds(
    fuel: nat,
    ss: Seq<SyntaxReference>,
    line: Seq<char>,
    st: StateV,
    cur: CursorV,
    starts: Seq<usize>,
    memory: CacheV,
    found: FoundV,
    pat: MatchPattern,
) -> bool {
    let len = st.stack.len();
    &&& trims(st.proto_starts, len, starts)
    &&& search::best_match(
        fuel,
        ss,
        line,
        StateV { proto_starts: starts, ..st },
        cur.start,
        cur.memory,
        cur.push_mark.0 == cur.start && cur.push_mark.1 < len <= cur.push_mark.2,
        cur.push_mark.1,
    ) == Some(Ok::<(CacheV, Option<FoundV>), syntax::ErrorV>((memory, Some(found))))
    &&& !found.would_loop
    &&& found.rule matches Some(rule) && choice::pattern_of(ss, rule) == Some(pat)
}

pub(crate) proof fn lemma_trimmed(starts: Seq<usize>, depth: nat, kept: Seq<usize>)
    requires
        trims(starts, depth, kept),
    ensures
        engine::trimmed(starts, depth as int) == kept,
    decreases starts.len(),
{
    if starts.len() > kept.len() {
        assert(starts[starts.len() - 1] >= depth);
        assert(kept.is_prefix_of(starts.drop_last()));
        lemma_trimmed(starts.drop_last(), depth, kept);
    } else {
        assert(kept =~= starts);
    }
}

/// How many frames an operation takes off the stack; a `set` takes one at least.
pub open spec fn takes(op: MatchOperation) -> int {
    match op {
        MatchOperation::Push { ctx_refs, pop_count } => pop_count as int,
        MatchOperation::SetTo { ctx_refs, pop_count } => if pop_count == 0 {
            1
        } else {
            pop_count as int
        },
        MatchOperation::Pop(n) => n as int,
        MatchOperation::Branch { name, alternatives, pop_count } => pop_count as int,
        MatchOperation::Embed { contexts, escape, pop_count } => pop_count as int,
        _ => 0,
    }
}

/// The contexts that an operation puts on the stack: of a branch point, the first
/// alternative.
pub open spec fn puts(op: MatchOperation) -> Seq<ReferenceV> {
    match op {
        MatchOperation::Push { ctx_refs, pop_count } => views::of(ctx_refs@),
        MatchOperation::SetTo { ctx_refs, pop_count } => views::of(ctx_refs@),
        MatchOperation::Branch { name, alternatives, pop_count } => if alternatives@.len() > 0 {
            seq![alternatives@[0]@]
        } else {
            Seq::empty()
        },
        MatchOperation::Embed { contexts, escape, pop_count } => views::of(contexts@),
        _ => Seq::empty(),
    }
}

/// How many frames of a stack stay below what an operation puts there.
pub open spec fn stays(stack: Seq<LevelV>, op: MatchOperation) -> int {
    if takes(op) >= stack.len() {
        0
    } else {
        stack.len() - takes(op)
    }
}

/// The prototypes of new frame `k` of `n`: the first takes over those of the frame that
/// was on top, if it goes, and the last gets that of the rule. An `embed` takes over
/// none.
pub open spec fn new_prototypes(
    stack: Seq<LevelV>,
    pat: MatchPattern,
    k: int,
    n: nat,
    p: Seq<ContextId>,
) -> bool {
    let over = if k == 0 && takes(pat.operation) > 0 && stack.len() > 0 && !(
    pat.operation is Embed) {
        stack.last().prototypes
    } else {
        Seq::empty()
    };
    if k == n - 1 && pat.with_prototype is Some {
        (pat.with_prototype->0)@ matches ReferenceV::Direct(id) && p == over.push(id)
    } else {
        p == over
    }
}

/// Whether a rule of the context, or of one of the prototypes, refers back to the match
/// that put the frame there.
pub open spec fn refers_to_match(ss: Seq<SyntaxReference>, id: ContextId, p: Seq<ContextId>) -> bool {
    ||| syntax::context_of(ss, id) matches Ok(c) && c.uses_backrefs
    ||| exists|i: int|
        0 <= i < p.len() && (syntax::context_of(ss, #[trigger] p[i]) matches Ok(c)
            && c.uses_backrefs)
}

/// Whether a frame is the one that a match puts on the stack for the reference `r`: of
/// that context, and with the groups and the line of the match exactly if a rule
/// refers back to it.
pub open spec fn frame_for(
    ss: Seq<SyntaxReference>,
    level: LevelV,
    r: ReferenceV,
    region: RegionV,
    line: Seq<char>,
) -> bool {
    &&& r == ReferenceV::Direct(level.context)
    &&& level.captures == if refers_to_match(ss, level.context, level.prototypes) {
        Some((region, line))
    } else {
        None
    }
}

/// Whether `next` is the stack after a match of the rule `pat`: the frames below stay
/// as they are, and each context that the rule pushes has its frame, in their order.
pub open spec fn restacked(
    ss: Seq<SyntaxReference>,
    stack: Seq<LevelV>,
    pat: MatchPattern,
    region: RegionV,
    line: Seq<char>,
    next: Seq<LevelV>,
) -> bool {
    let keep = stays(stack, pat.operation);
    let refs = puts(pat.operation);
    &&& next.len() == keep + refs.len()
    &&& next.subrange(0, keep) == stack.subrange(0, keep)
    &&& forall|k: int|
        0 <= k < refs.len() ==> {
            &&& frame_for(ss, #[trigger] next[keep + k], refs[k], region, line)
            &&& new_prototypes(stack, pat, k, refs.len(), next[keep + k].prototypes)
        }
}

proof fn lemma_levels(
    stack: Seq<LevelV>,
    ss: Seq<SyntaxReference>,
    refs: Seq<ReferenceV>,
    i: int,
    protos: Seq<ContextId>,
    with_prototype: Option<ReferenceV>,
    region: RegionV,
    line: Seq<char>,
)
    requires
        0 <= i <= refs.len(),
    ensures
        ({
            let (next, r) = perform::pushed_levels(
                stack,
                ss,
                refs,
                i,
                protos,
                with_prototype,
                region,
                line,
            );
            r is Ok ==> {
                &&& next.len() == stack.len() + refs.len() - i
                &&& next.subrange(0, stack.len() as int) == stack
                &&& forall|k: int|
                    i <= k < refs.len() ==> {
                        let level = #[trigger] next[stack.len() + k - i];
                        let over = if k == 0 {
                            protos
                        } else {
                            Seq::empty()
                        };
                        &&& frame_for(ss, level, refs[k], region, line)
                        &&& if k == refs.len() - 1 && with_prototype is Some {
                            with_prototype->0 matches ReferenceV::Direct(id) && level.prototypes
                                == over.push(id)
                        } else {
                            level.prototypes == over
                        }
                    }
            }
        }),
    decreases refs.len() - i,
{
    if i < refs.len() {
        let over = if i == 0 {
            protos
        } else {
            Seq::empty()
        };
        let own = match with_prototype {
            Some(p) => if i == refs.len() - 1 {
                match syntax::reference_id(p) {
                    Ok(id) => Ok(over.push(id)),
                    Err(e) => Err(e),
                }
            } else {
                Ok(over)
            },
            None => Ok(over),
        };
        if let Ok(prototypes) = own {
            if let Ok(id) = syntax::reference_id(refs[i]) {
                if let Ok(context) = syntax::context_of(ss, id) {
                    let captures = if refers_to_match(ss, id, prototypes) {
                        Some((region, line))
                    } else {
                        None
                    };
                    let level = LevelV { context: id, prototypes, captures };
                    let grown = stack.push(level);
                    lemma_levels(
                        grown,
                        ss,
                        refs,
                        i + 1,
                        protos,
                        with_prototype,
                        region,
                        line,
                    );
                    let (next, r) = perform::pushed_levels(
                        grown,
                        ss,
                        refs,
                        i + 1,
                        protos,
                        with_prototype,
                        region,
                        line,
                    );
                    assert(perform::pushed_levels(
                        stack,
                        ss,
                        refs,
                        i,
                        protos,
                        with_prototype,
                        region,
                        line,
                    ) == (next, r));
                    if r is Ok {
                        assert(next.subrange(0, grown.len() as int)[stack.len() as int] == level);
                        assert(next[stack.len() as int] == level);
                        assert(next.subrange(0, stack.len() as int) =~= stack) by {
                            assert forall|j: int| 0 <= j < stack.len() implies next[j]
                                == stack[j] by {
                                assert(next.subrange(0, grown.len() as int)[j] == grown[j]);
                            }
                        }
                        assert forall|k: int| i <= k < refs.len() implies {
                            let level = #[trigger] next[stack.len() + k - i];
                            let over = if k == 0 {
                                protos
                            } else {
                                Seq::empty()
                            };
                            &&& frame_for(ss, level, refs[k], region, line)
                            &&& if k == refs.len() - 1 && with_prototype is Some {
                                with_prototype->0 matches ReferenceV::Direct(id)
                                    && level.prototypes == over.push(id)
                            } else {
                                level.prototypes == over
                            }
                        } by {
                            if k > i {
                                assert(next[stack.len() + k - i] == next[grown.len() + k - (i
                                    + 1)]);
                            }
                        }
                    }
                }
            }
        }
    } else {
        assert(stack.subrange(0, stack.len() as int) =~= stack);
    }
}

/// Whether a branch point may still be gone back to from a stack of that depth: its
/// alternative is there, above what the branch match left.
pub open spec fn within_reach(bp: BranchV, depth: int) -> bool {
    depth > 0 && depth > bp.stack_depth - bp.pop_count
}

/// Those that are.
pub open spec fn reachable(depth: int) -> spec_fn(BranchV) -> bool {
    |bp: BranchV| within_reach(bp, depth)
}

/// The escapes whose embed is on a stack of that depth.
pub open spec fn embedded(depth: int) -> spec_fn(EscapeV) -> bool {
    |e: EscapeV| e.stack_depth < depth
}

/// The escapes after an operation that leaves a stack of that depth: where frames are
/// taken off, those whose embed is gone go. An `embed` adds its own.
pub open spec fn escapes_after(
    st: StateV,
    pat: MatchPattern,
    region: RegionV,
    line: Seq<char>,
    next: Seq<EscapeV>,
) -> bool {
    let keep = stays(st.stack, pat.operation);
    let depth = match pat.operation {
        MatchOperation::Pop(_) => keep,
        MatchOperation::Embed { .. } => keep,
        _ => keep + puts(pat.operation).len(),
    };
    let left = if takes(pat.operation) > 0 || pat.operation is Pop {
        st.escape_stack.filter(embedded(depth))
    } else {
        st.escape_stack
    };
    match pat.operation {
        MatchOperation::Embed { contexts, escape, pop_count } => next == left.push(
            EscapeV {
                regex: crate::regex::ExpressionV {
                    pattern: if escape.has_captures {
                        regex::substituted(escape.escape_regex@.pattern, 0, false, region, line)
                    } else {
                        escape.escape_regex@.pattern
                    },
                    allow_empty: escape.has_captures || escape.escape_regex@.allow_empty,
                },
                captures: state::mapping_view(escape.escape_captures),
                stack_depth: keep as usize,
            },
        ),
        _ => next == left,
    }
}

/// The branch points after an operation: where frames are taken off, those whose
/// alternative is gone go.
pub open spec fn branches_after(
    st: StateV,
    pat: MatchPattern,
    before: Seq<BranchV>,
    next: Seq<BranchV>,
) -> bool {
    let keep = stays(st.stack, pat.operation);
    let depth = match pat.operation {
        MatchOperation::Pop(_) => keep,
        MatchOperation::Embed { .. } => keep,
        _ => keep + puts(pat.operation).len(),
    };
    next == if takes(pat.operation) > 0 || pat.operation is Pop {
        before.filter(reachable(depth))
    } else {
        before
    }
}

proof fn lemma_filters(st: StateV, depth: int, d: usize)
    requires
        d == depth,
    ensures
        perform::live_escapes(st.escape_stack, d as int) == st.escape_stack.filter(embedded(depth)),
        forall|bps: Seq<BranchV>| #[trigger]
            perform::live_branches(bps, d as int) == bps.filter(reachable(depth)),
{
    let f = |e: EscapeV| e.stack_depth < d as int;
    assert(f =~= embedded(depth));
    assert forall|bps: Seq<BranchV>| #[trigger]
        perform::live_branches(bps, d as int) == bps.filter(reachable(depth)) by {
        let f = |bp: BranchV| state::alive(bp, d as int);
        assert(f =~= reachable(depth));
    }
}

proof fn lemma_performed_push(
    st: StateV,
    ss: Seq<SyntaxReference>,
    line: Seq<char>,
    region: RegionV,
    refs: Seq<ReferenceV>,
    pop_count: usize,
    pat: MatchPattern,
)
    requires
        pat.operation is Push || pat.operation is SetTo || pat.operation is Branch,
        refs == puts(pat.operation),
        pop_count == takes(pat.operation),
        st.stack.len() + refs.len() <= usize::MAX,
    ensures
        ({
            let (next, r) = perform::performed_push(
                st,
                ss,
                line,
                region,
                refs,
                pop_count,
                views::opt(pat.with_prototype),
            );
            r is Ok ==> {
                &&& restacked(ss, st.stack, pat, region, line, next.stack)
                &&& escapes_after(st, pat, region, line, next.escape_stack)
                &&& branches_after(st, pat, st.branch_points, next.branch_points)
                &&& next == (StateV {
                    stack: next.stack,
                    escape_stack: next.escape_stack,
                    branch_points: next.branch_points,
                    ..st
                })
            }
        }),
{
    let base = perform::without_top(st.stack, pop_count as int);
    let keep = stays(st.stack, pat.operation);
    assert(base.len() == keep);
    assert(base =~= st.stack.subrange(0, keep));
    let depth = (base.len() as usize).saturating_add(refs.len() as usize);
    let protos = if pop_count > 0 && st.stack.len() > 0 {
        st.stack.last().prototypes
    } else {
        Seq::empty()
    };
    lemma_filters(st, keep + refs.len(), depth);
    let wp = views::opt(pat.with_prototype);
    lemma_levels(base, ss, refs, 0, protos, wp, region, line);
    lemma_restacked(ss, st.stack, pat, protos, region, line);
}

/// The frames that `pushed_levels` puts on what stays are those that the rule asks for.
proof fn lemma_restacked(
    ss: Seq<SyntaxReference>,
    stack: Seq<LevelV>,
    pat: MatchPattern,
    protos: Seq<ContextId>,
    region: RegionV,
    line: Seq<char>,
)
    requires
        protos == if takes(pat.operation) > 0 && stack.len() > 0 && !(pat.operation is Embed) {
            stack.last().prototypes
        } else {
            Seq::empty()
        },
        takes(pat.operation) >= 0,
    ensures
        ({
            let keep = stays(stack, pat.operation);
            let (next, r) = perform::pushed_levels(
                stack.subrange(0, keep),
                ss,
                puts(pat.operation),
                0,
                protos,
                views::opt(pat.with_prototype),
                region,
                line,
            );
            r is Ok ==> restacked(ss, stack, pat, region, line, next)
        }),
{
    let keep = stays(stack, pat.operation);
    let base = stack.subrange(0, keep);
    let refs = puts(pat.operation);
    let wp = views::opt(pat.with_prototype);
    lemma_levels(base, ss, refs, 0, protos, wp, region, line);
    let (next, r) = perform::pushed_levels(base, ss, refs, 0, protos, wp, region, line);
    if r is Ok {
        assert forall|k: int| 0 <= k < refs.len() implies {
            &&& frame_for(ss, #[trigger] next[keep + k], refs[k], region, line)
            &&& new_prototypes(stack, pat, k, refs.len(), next[keep + k].prototypes)
        } by {
            assert(next[keep + k] == next[base.len() + k - 0]);
        }
    }
}

/// A match of a rule without `branch_point` and `fail` takes the frames off that it
/// pops and puts those there that it pushes; escapes and branch points whose frames are
/// gone go too. Nothing else changes, except what the match was found with.
proof fn lemma_performed(
    st: StateV,
    ss: Seq<SyntaxReference>,
    line: Seq<char>,
    region: RegionV,
    pat: MatchPattern,
)
    requires
        !(pat.operation is Branch),
        !(pat.operation is Fail),
        st.stack.len() + puts(pat.operation).len() <= usize::MAX,
    ensures
        ({
            let (next, r) = perform::performed(
                st,
                ss,
                line,
                region,
                pat.operation,
                views::opt(pat.with_prototype),
            );
            r is Ok ==> {
                &&& restacked(ss, st.stack, pat, region, line, next.stack)
                &&& escapes_after(st, pat, region, line, next.escape_stack)
                &&& branches_after(st, pat, st.branch_points, next.branch_points)
                &&& next == (StateV {
                    stack: next.stack,
                    escape_stack: next.escape_stack,
                    branch_points: next.branch_points,
                    ..st
                })
            }
        }),
{
    let keep = stays(st.stack, pat.operation);
    let wp = views::opt(pat.with_prototype);
    match pat.operation {
        MatchOperation::Push { ctx_refs, pop_count } => {
            lemma_performed_push(st, ss, line, region, views::of(ctx_refs@), pop_count, pat);
        },
        MatchOperation::SetTo { ctx_refs, pop_count } => {
            let n = crate::semantics::set_pops(pop_count);
            lemma_performed_push(st, ss, line, region, views::of(ctx_refs@), n, pat);
        },
        MatchOperation::Embed { contexts, escape, pop_count } => {
            let base = perform::without_top(st.stack, pop_count as int);
            assert(base.len() == keep);
            assert(base =~= st.stack.subrange(0, keep));
            lemma_filters(st, keep, base.len() as usize);
            lemma_restacked(ss, st.stack, pat, Seq::empty(), region, line);
        },
        MatchOperation::Pop(n) => {
            let base = perform::without_top(st.stack, n as int);
            assert(base.len() == keep);
            assert(base =~= st.stack.subrange(0, keep));
            lemma_filters(st, keep, base.len() as usize);
            assert(base.subrange(0, keep) =~= base);
        },
        _ => {
            assert(st.stack.subrange(0, keep) =~= st.stack);
        },
    }
}

/// Whether a match of a branch point is left to the next line: a replayed line ends
/// there, and it consumes nothing.
pub open spec fn left_to_next_line(
    line: Seq<char>,
    st: StateV,
    cur: CursorV,
    pat: MatchPattern,
    found: FoundV,
) -> bool {
    pat.operation is Branch && st.replay_ctx is Some && regex::whole(found.regions).1 <= cur.start
        && regex::whole(found.regions).1 >= text::byte_len(line)
}

/// Whether a branch point is the one that a match of `pat` makes: nothing but its first
/// alternative is taken, and it holds what going back to it needs.
pub open spec fn made_by(
    st: StateV,
    cur: CursorV,
    pat: MatchPattern,
    starts: Seq<usize>,
    region: RegionV,
    bp: BranchV,
) -> bool {
    &&& pat.operation matches MatchOperation::Branch { name, alternatives, pop_count } && bp.name
        == name@ && bp.alternatives == views::of(alternatives@) && bp.pop_count == pop_count
    &&& bp.next_alternative == 1
    &&& bp.stack_snapshot == st.stack
    &&& bp.stack_depth == st.stack.len()
    &&& bp.proto_starts_snapshot == starts
    &&& bp.escape_stack_snapshot == st.escape_stack
    &&& bp.first_line_snapshot == st.first_line
    &&& bp.match_start == regex::whole(region).1
    &&& bp.trigger_match_start == regex::whole(region).0
    &&& bp.pat_scope == pat.scope@
    &&& bp.with_prototype == views::opt(pat.with_prototype)
    &&& bp.ops_snapshot_len == cur.ops.len()
    &&& st.replay_prefix_ops is None ==> bp.prefix_ops == cur.ops
    &&& st.replay_prefix_ops matches Some(prefix) ==> bp.prefix_ops == prefix + cur.ops
    &&& match st.replay_ctx {
        None => bp.line_number == st.line_number.saturating_sub(1) && bp.pending_lines_snapshot_len
            == st.pending_lines.len(),
        Some(ctx) => bp.line_number == ctx.line_number && bp.pending_lines_snapshot_len
            == ctx.pending_lines_snapshot_offset,
    }
}

/// The starts of prototypes after a match: a rule of a `with_prototype` hides the
/// prototypes of the frames below what it pushes.
pub open spec fn starts_after(starts: Seq<usize>, st: StateV, found: FoundV) -> Seq<usize> {
    if found.from_with_prototype {
        starts.push(st.stack.len() as usize)
    } else {
        starts
    }
}

/// A step that finds a match of a rule other than a `fail`: the stack of contexts is
/// the one that the rule asks for, the cursor stands at the end of the match, and the
/// operations so far stay. A branch point is remembered.
#[verifier::rlimit(40)]
pub proof fn law_match_restacks(
    fuel: nat,
    ss: Seq<SyntaxReference>,
    line: Seq<char>,
    st: StateV,
    cur: CursorV,
    starts: Seq<usize>,
    memory: CacheV,
    found: FoundV,
    pat: MatchPattern,
)
    requires
        finds(fuel, ss, line, st, cur, starts, memory, found, pat),
        !(pat.operation is Fail),
        !left_to_next_line(line, st, cur, pat, found),
        st.stack.len() + puts(pat.operation).len() <= usize::MAX,
        st.pending_lines.len() <= usize::MAX,
        cur.ops.len() <= usize::MAX,
    ensures
        engine::stepped(fuel, ss, line, st, cur) matches Some((next, Ok((cur1, more)))) ==> {
            &&& more
            &&& restacked(ss, st.stack, pat, found.regions, line, next.stack)
            &&& escapes_after(st, pat, found.regions, line, next.escape_stack)
            &&& next.proto_starts == starts_after(starts, st, found)
            &&& cur1.start == regex::whole(found.regions).1
            &&& cur1.memory == memory
            &&& cur.ops.is_prefix_of(cur1.ops)
            &&& next.pending_lines == st.pending_lines
            &&& next.flushed_ops == st.flushed_ops
            &&& next.shadow == st.shadow
            &&& next.first_line == st.first_line
            &&& next.warnings == st.warnings
            &&& if pat.operation is Branch {
                exists|bp: BranchV|
                    made_by(
                        st,
                        cur,
                        pat,
                        starts_after(starts, st, found),
                        found.regions,
                        bp,
                    ) && #[trigger] branches_after(
                        st,
                        pat,
                        st.branch_points.push(bp),
                        next.branch_points,
                    )
            } else {
                branches_after(st, pat, st.branch_points, next.branch_points)
            }
        },
{
    let len = st.stack.len() as int;
    lemma_trimmed(st.proto_starts, st.stack.len(), starts);
    let rule = found.rule->0;
    let context = syntax::context_of(ss, rule.0)->Ok_0;
    assert(syntax::rule_at(context, rule.1) == Ok::<MatchPattern, syntax::ErrorV>(pat));
    let st1 = StateV { proto_starts: starts, ..st };
    let cur1 = CursorV { memory, ..cur };
    let entry = engine::rule_entry(st1, found);
    let at = engine::rule_cursor(st1, cur1, pat, found);
    match pat.operation {
        MatchOperation::Branch { name, alternatives, pop_count } => {
            let all = views::of(alternatives@);
            let bp = engine::new_branch(entry, at, pat, name@, all, pop_count, found.regions);
            let made = engine::with_branch(entry, bp);
            let refs = engine::first_alternative(all);
            assert(refs =~= puts(pat.operation)) by {
                if alternatives@.len() > 0 {
                    assert(all[0] == alternatives@[0]@);
                }
            }
            lemma_performed_push(made, ss, line, found.regions, refs, pop_count, pat);
            assert(made_by(st, cur, pat, starts_after(starts, st, found), found.regions, bp));
            let (after, _) = perform::performed_push(
                made,
                ss,
                line,
                found.regions,
                refs,
                pop_count,
                views::opt(pat.with_prototype),
            );
            assert(branches_after(made, pat, made.branch_points, after.branch_points)
                == branches_after(st, pat, st.branch_points.push(bp), after.branch_points));
            assert(escapes_after(made, pat, found.regions, line, after.escape_stack)
                == escapes_after(st, pat, found.regions, line, after.escape_stack));
            lemma_prefix_branch(ss, st.stack, cur.ops, pat, found.regions, bp, refs, pop_count);
        },
        _ => {
            lemma_performed(entry, ss, line, found.regions, pat);
            if st.stack.len() > 0 {
                if let Ok(top) = syntax::context_of(ss, st.stack.last().context) {
                    lemma_prefix_rule(ss, st.stack, cur.ops, top, pat, found.regions);
                }
            }
        },
    }
}

proof fn lemma_prefix_rule(
    ss: Seq<SyntaxReference>,
    stack: Seq<LevelV>,
    acc: Seq<Op>,
    context: syntax::Context,
    pat: MatchPattern,
    region: RegionV,
)
    ensures
        engine::rule_ops(acc, ss, stack, context, pat, region) matches Ok(r) ==> acc.is_prefix_of(r),
{
    let (first, last) = regex::whole(region);
    crate::order::lemma_rule_prefix(acc, ss, stack, context, pat, region);
}

proof fn lemma_prefix_branch(
    ss: Seq<SyntaxReference>,
    stack: Seq<LevelV>,
    acc: Seq<Op>,
    pat: MatchPattern,
    region: RegionV,
    bp: BranchV,
    refs: Seq<ReferenceV>,
    pop_count: usize,
)
    ensures
        engine::branch_ops(
            acc,
            ss,
            stack,
            regex::whole(region).0,
            regex::whole(region).1,
            pat.scope@,
            bp.capture_ops,
            refs,
            pop_count,
        ) matches Ok(r) ==> acc.is_prefix_of(r),
{
    let (first, last) = regex::whole(region);
    crate::order::lemma_branch_prefix(
        acc,
        ss,
        stack,
        first,
        last,
        pat.scope@,
        bp.capture_ops,
        refs,
        pop_count,
    );
}

/// A pop that would only take back what was just pushed moves the cursor on by one
/// character, and nothing else.
pub proof fn law_loops_are_stepped_over(
    fuel: nat,
    ss: Seq<SyntaxReference>,
    line: Seq<char>,
    st: StateV,
    cur: CursorV,
    starts: Seq<usize>,
    memory: CacheV,
    found: FoundV,
)
    requires
        trims(st.proto_starts, st.stack.len(), starts),
        search::best_match(
            fuel,
            ss,
            line,
            StateV { proto_starts: starts, ..st },
            cur.start,
            cur.memory,
            cur.push_mark.0 == cur.start && cur.push_mark.1 < st.stack.len() <= cur.push_mark.2,
            cur.push_mark.1,
        ) == Some(Ok::<(CacheV, Option<FoundV>), syntax::ErrorV>((memory, Some(found)))),
        found.would_loop,
        found.rule is Some,
    ensures
        ({
            let n = text::next_char(line, cur.start);
            engine::stepped(fuel, ss, line, st, cur) == Some(
                (
                    StateV { proto_starts: starts, ..st },
                    Ok::<(CursorV, bool), syntax::ErrorV>(
                        (
                            CursorV {
                                start: if n is Some {
                                    n->0
                                } else {
                                    cur.start
                                },
                                memory,
                                ..cur
                            },
                            n is Some,
                        ),
                    ),
                ),
            )
        }),
{
    lemma_trimmed(st.proto_starts, st.stack.len(), starts);
}

/// A match that consumes nothing and pushes frames is remembered, so that a pop of just
/// those frames is known; other matches leave what was remembered.
pub proof fn law_pushes_without_progress_are_marked(
    fuel: nat,
    ss: Seq<SyntaxReference>,
    line: Seq<char>,
    st: StateV,
    cur: CursorV,
    starts: Seq<usize>,
    memory: CacheV,
    found: FoundV,
    pat: MatchPattern,
)
    requires
        finds(fuel, ss, line, st, cur, starts, memory, found, pat),
        !(pat.operation is Fail),
        !left_to_next_line(line, st, cur, pat, found),
        st.stack.len() + 1 + puts(pat.operation).len() <= usize::MAX,
    ensures
        engine::stepped(fuel, ss, line, st, cur) matches Some((next, Ok((cur1, _)))) ==> {
            let width: nat = match pat.operation {
                MatchOperation::Push { ctx_refs, pop_count } => ctx_refs@.len(),
                MatchOperation::Branch { .. } => 1,
                MatchOperation::Embed { contexts, .. } => contexts@.len(),
                _ => 0,
            };
            let last = regex::whole(found.regions).1;
            cur1.push_mark == if last <= cur.start && width > 0 {
                (last, st.stack.len() as usize, (st.stack.len() + width) as usize)
            } else {
                cur.push_mark
            }
        },
{
    lemma_trimmed(st.proto_starts, st.stack.len(), starts);
}

/// While lines are parsed again, a branch point that matches nothing at the end of its
/// line is left for the next line: the line is over and the state stays as it was.
pub proof fn law_branch_is_left_to_next_line(
    fuel: nat,
    ss: Seq<SyntaxReference>,
    line: Seq<char>,
    st: StateV,
    cur: CursorV,
    starts: Seq<usize>,
    memory: CacheV,
    found: FoundV,
    pat: MatchPattern,
)
    requires
        finds(fuel, ss, line, st, cur, starts, memory, found, pat),
        left_to_next_line(line, st, cur, pat, found),
    ensures
        engine::stepped(fuel, ss, line, st, cur) matches Some((next, Ok((cur1, more)))) && {
            &&& !more
            &&& next == (StateV { proto_starts: starts, ..st })
            &&& cur1.ops == cur.ops
            &&& cur1.start == cur.start
        },
{
    lemma_trimmed(st.proto_starts, st.stack.len(), starts);
    let rule = found.rule->0;
    let context = syntax::context_of(ss, rule.0)->Ok_0;
    assert(syntax::rule_at(context, rule.1) == Ok::<MatchPattern, syntax::ErrorV>(pat));
}

} // verus!
