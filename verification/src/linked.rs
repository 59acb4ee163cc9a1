//! Linked sets: what can go wrong where nothing is missing.

use crate::cache::CacheV;
use crate::captures;
use crate::embed;
use crate::emit;
use crate::engine;
use crate::engine::{CursorV, ReplayPlanV};
use crate::parser;
use crate::perform;
use crate::regex;
use crate::scope;
use crate::scope::{Op, Scope};
use crate::search;
use crate::search::{ChainEntry, FoundV, QueryV, ScanV};
use crate::semantics;
use crate::semantics::LeavingV;
use crate::state;
use crate::state::{BranchV, LevelV, RegionV, StateV};
use crate::syntax;
use crate::syntax::{
    Context, ContextId, ErrorV, MatchOperation, MatchPattern, Pattern, ReferenceV, RuleId,
    SyntaxReference,
};
use crate::views;
use crate::window;
use vstd::prelude::*;

verus! {

/// Whether all references stand for contexts of the set.
pub open spec fn all_follow(ss: Seq<SyntaxReference>, refs: Seq<ReferenceV>) -> bool {
    forall|i: int| 0 <= i < refs.len() ==> syntax::resolved(ss, #[trigger] refs[i]) is Ok
}

/// Whether the references of a rule stand for contexts of the set.
pub open spec fn linked_rule(ss: Seq<SyntaxReference>, pat: MatchPattern) -> bool {
    &&& views::opt(pat.with_prototype) matches Some(p) ==> syntax::resolved(ss, p) is Ok
    &&& match pat.operation {
        MatchOperation::Push { ctx_refs, pop_count } => all_follow(ss, views::of(ctx_refs@)),
        MatchOperation::SetTo { ctx_refs, pop_count } => all_follow(ss, views::of(ctx_refs@)),
        MatchOperation::Branch { name, alternatives, pop_count } => all_follow(
            ss,
            views::of(alternatives@),
        ),
        MatchOperation::Embed { contexts, escape, pop_count } => all_follow(
            ss,
            views::of(contexts@),
        ),
        _ => true,
    }
}

/// Whether an entry of a context is linked. An `Include` that is not is skipped.
pub open spec fn linked_entry(ss: Seq<SyntaxReference>, entry: Pattern) -> bool {
    match entry {
        Pattern::Match(pat) => linked_rule(ss, pat),
        Pattern::Include(r) => r@ matches ReferenceV::Direct(id) ==> syntax::context_of(
            ss,
            id,
        ) is Ok,
    }
}

/// Whether all that a context refers to is in the set.
pub open spec fn linked_context(ss: Seq<SyntaxReference>, context: Context) -> bool {
    &&& context.prototype matches Some(id) ==> syntax::context_of(ss, id) is Ok
    &&& forall|i: int|
        0 <= i < context.patterns@.len() ==> linked_entry(ss, #[trigger] context.patterns@[i])
}

/// Whether all that the contexts of the set refer to is in the set.
pub open spec fn linked(ss: Seq<SyntaxReference>) -> bool {
    forall|id: ContextId|
        (#[trigger] syntax::context_of(ss, id)) matches Ok(context) ==> linked_context(ss, context)
}

/// Whether all of these are contexts of the set.
pub open spec fn all_known(ss: Seq<SyntaxReference>, ids: Seq<ContextId>) -> bool {
    forall|i: int| 0 <= i < ids.len() ==> syntax::context_of(ss, #[trigger] ids[i]) is Ok
}

/// Whether the contexts of a frame are in the set.
pub open spec fn known_level(ss: Seq<SyntaxReference>, level: LevelV) -> bool {
    syntax::context_of(ss, level.context) is Ok && all_known(ss, level.prototypes)
}

/// Whether this holds of all frames.
#[verifier::opaque]
pub open spec fn known_stack(ss: Seq<SyntaxReference>, stack: Seq<LevelV>) -> bool {
    forall|i: int| 0 <= i < stack.len() ==> known_level(ss, #[trigger] stack[i])
}

/// Whether all that a branch point goes back to is in the set.
pub open spec fn known_branch(ss: Seq<SyntaxReference>, bp: BranchV) -> bool {
    &&& known_stack(ss, bp.stack_snapshot)
    &&& all_follow(ss, bp.alternatives)
    &&& bp.with_prototype matches Some(p) ==> syntax::resolved(ss, p) is Ok
}

/// Whether this holds of all branch points.
#[verifier::opaque]
pub open spec fn known_branches(ss: Seq<SyntaxReference>, bps: Seq<BranchV>) -> bool {
    forall|i: int| 0 <= i < bps.len() ==> known_branch(ss, #[trigger] bps[i])
}

/// Whether all contexts that the state speaks of are in the set.
pub open spec fn knows(ss: Seq<SyntaxReference>, st: StateV) -> bool {
    known_stack(ss, st.stack) && known_branches(ss, st.branch_points)
}

/// Whether a call failed because the last frame of the stack was popped.
pub open spec fn ran_dry(st: StateV, e: ErrorV) -> bool {
    e == ErrorV::MissingMainContext && st.stack.len() == 0
}

/// Whether the outcome of a call is that, or none of the contexts is missing.
pub open spec fn known_or_dry<T>(
    ss: Seq<SyntaxReference>,
    st: StateV,
    r: Result<T, ErrorV>,
) -> bool {
    match r {
        Ok(_) => knows(ss, st),
        Err(e) => ran_dry(st, e),
    }
}

proof fn lemma_frame(ss: Seq<SyntaxReference>, stack: Seq<LevelV>, i: int)
    requires
        known_stack(ss, stack),
        0 <= i < stack.len(),
    ensures
        known_level(ss, stack[i]),
{
    reveal(known_stack);
}

proof fn lemma_lower(ss: Seq<SyntaxReference>, stack: Seq<LevelV>, n: int)
    requires
        known_stack(ss, stack),
        0 <= n <= stack.len(),
    ensures
        known_stack(ss, stack.subrange(0, n)),
{
    reveal(known_stack);
}

proof fn lemma_higher(ss: Seq<SyntaxReference>, stack: Seq<LevelV>, level: LevelV)
    requires
        known_stack(ss, stack),
        known_level(ss, level),
    ensures
        known_stack(ss, stack.push(level)),
{
    reveal(known_stack);
    let next = stack.push(level);
    assert forall|i: int| 0 <= i < next.len() implies known_level(ss, #[trigger] next[i]) by {
        if i < stack.len() {
            assert(next[i] == stack[i]);
        }
    }
}

proof fn lemma_without_top(ss: Seq<SyntaxReference>, stack: Seq<LevelV>, n: int)
    requires
        known_stack(ss, stack),
        n >= 0,
    ensures
        known_stack(ss, perform::without_top(stack, n)),
{
    lemma_lower(ss, stack, stack.len() - scope::least(n, stack.len() as int));
}

proof fn lemma_branch_at(ss: Seq<SyntaxReference>, bps: Seq<BranchV>, i: int)
    requires
        known_branches(ss, bps),
        0 <= i < bps.len(),
    ensures
        known_branch(ss, bps[i]),
{
    reveal(known_branches);
}

proof fn lemma_filtered(ss: Seq<SyntaxReference>, bps: Seq<BranchV>, p: spec_fn(BranchV) -> bool)
    requires
        known_branches(ss, bps),
    ensures
        known_branches(ss, bps.filter(p)),
{
    reveal(known_branches);
    window::lemma_members(bps, p);
    let left = bps.filter(p);
    assert forall|i: int| 0 <= i < left.len() implies known_branch(ss, #[trigger] left[i]) by {
        let k = choose|k: int| 0 <= k < bps.len() && bps[k] == left[i];
        assert(known_branch(ss, bps[k]));
    }
}

proof fn lemma_live(ss: Seq<SyntaxReference>, bps: Seq<BranchV>, depth: int)
    requires
        known_branches(ss, bps),
    ensures
        known_branches(ss, perform::live_branches(bps, depth)),
{
    lemma_filtered(ss, bps, |bp: BranchV| state::alive(bp, depth));
}

proof fn lemma_removed(ss: Seq<SyntaxReference>, bps: Seq<BranchV>, index: int)
    requires
        known_branches(ss, bps),
        0 <= index < bps.len(),
    ensures
        known_branches(ss, bps.remove(index)),
{
    reveal(known_branches);
    let left = bps.remove(index);
    assert forall|i: int| 0 <= i < left.len() implies known_branch(ss, #[trigger] left[i]) by {
        let j = if i < index {
            i
        } else {
            i + 1
        };
        assert(left[i] == bps[j]);
    }
}

proof fn lemma_updated(ss: Seq<SyntaxReference>, bps: Seq<BranchV>, index: int, bp: BranchV)
    requires
        known_branches(ss, bps),
        0 <= index < bps.len(),
        known_branch(ss, bp),
    ensures
        known_branches(ss, bps.update(index, bp)),
{
    reveal(known_branches);
    let next = bps.update(index, bp);
    assert forall|i: int| 0 <= i < next.len() implies known_branch(ss, #[trigger] next[i]) by {
        if i != index {
            assert(next[i] == bps[i]);
        }
    }
}

proof fn lemma_added(ss: Seq<SyntaxReference>, bps: Seq<BranchV>, bp: BranchV)
    requires
        known_branches(ss, bps),
        known_branch(ss, bp),
    ensures
        known_branches(ss, bps.push(bp)),
{
    reveal(known_branches);
    let next = bps.push(bp);
    assert forall|i: int| 0 <= i < next.len() implies known_branch(ss, #[trigger] next[i]) by {
        if i < bps.len() {
            assert(next[i] == bps[i]);
        }
    }
}

proof fn lemma_unwound(
    acc: Seq<Op>,
    ss: Seq<SyntaxReference>,
    stack: Seq<LevelV>,
    index: usize,
    respect_embed: bool,
    depth: int,
    n: int,
)
    requires
        known_stack(ss, stack),
        depth >= 0,
    ensures
        semantics::unwound(acc, ss, stack, index, respect_embed, depth, n) is Ok,
        semantics::clears_within(ss, stack, depth, n) is Ok,
    decreases n - depth,
{
    if !(depth >= n || depth >= stack.len()) {
        let level = stack.len() - 1 - depth;
        lemma_frame(ss, stack, level);
        let context = syntax::context_of(ss, stack[level].context)->Ok_0;
        let skip = respect_embed && semantics::replaced_by_below(ss, stack, level);
        let next = semantics::frame_unwound(acc, index, context, skip);
        lemma_unwound(next, ss, stack, index, respect_embed, depth + 1, n);
    }
}

proof fn lemma_resolved(
    ss: Seq<SyntaxReference>,
    refs: Seq<ReferenceV>,
    i: int,
    acc: Seq<ContextId>,
)
    requires
        all_follow(ss, refs),
    ensures
        semantics::resolved_ids(ss, refs, i, acc) is Ok,
    decreases refs.len() - i,
{
    if 0 <= i < refs.len() {
        assert(syntax::resolved(ss, refs[i]) is Ok);
        lemma_resolved(ss, refs, i + 1, acc.push(syntax::reference_id(refs[i])->Ok_0));
    }
}

proof fn lemma_enter(
    acc: Seq<Op>,
    ss: Seq<SyntaxReference>,
    stack: Seq<LevelV>,
    initial: bool,
    index: usize,
    cur: LeavingV,
    is_set: bool,
    pop_count: usize,
    refs: Seq<ReferenceV>,
)
    requires
        known_stack(ss, stack),
        all_follow(ss, refs),
    ensures
        semantics::enter_ops(acc, ss, stack, initial, index, cur, is_set, pop_count, refs) is Ok,
{
    lemma_resolved(ss, refs, 0, Seq::empty());
    assert forall|a: Seq<Op>, n: int|
        (#[trigger] semantics::unwound(a, ss, stack, index, false, 1, n)) is Ok
            && semantics::clears_within(ss, stack, 1, n) is Ok by {
        lemma_unwound(a, ss, stack, index, false, 1, n);
    }
    lemma_unwound(acc, ss, stack, index, false, 1, pop_count as int);
}

proof fn lemma_meta_ops(
    acc: Seq<Op>,
    ss: Seq<SyntaxReference>,
    stack: Seq<LevelV>,
    initial: bool,
    index: usize,
    cur: Context,
    pat: MatchPattern,
)
    requires
        known_stack(ss, stack),
        linked_rule(ss, pat),
    ensures
        semantics::meta_ops(acc, ss, stack, initial, index, cur, pat.operation) is Ok,
{
    let left = semantics::leaving(cur);
    match pat.operation {
        MatchOperation::Pop(n) => {
            let a = emit::popped(acc, index, cur.meta_scope@.len() as usize);
            let b = emit::restored(a, index, cur.clear_scopes is Some);
            let v2 = semantics::syntax_version(ss, stack) >= 2;
            lemma_unwound(b, ss, stack, index, v2, 1, n as int);
        },
        MatchOperation::Push { ctx_refs, pop_count } => {
            let refs = views::of(ctx_refs@);
            lemma_enter(acc, ss, stack, initial, index, left, false, pop_count, refs);
        },
        MatchOperation::SetTo { ctx_refs, pop_count } => {
            let refs = views::of(ctx_refs@);
            lemma_enter(acc, ss, stack, initial, index, left, true, pop_count, refs);
        },
        MatchOperation::Embed { contexts, escape, pop_count } => {
            let refs = views::of(contexts@);
            let m = emit::popped(acc, index, cur.meta_content_scope@.len() as usize);
            let n = emit::popped(m, index, cur.meta_scope@.len() as usize);
            let a = if initial {
                n
            } else {
                acc
            };
            let bare = semantics::stripped(cur);
            lemma_enter(a, ss, stack, initial, index, bare, false, pop_count, refs);
            lemma_enter(acc, ss, stack, initial, index, left, false, pop_count, refs);
        },
        MatchOperation::Branch { name, alternatives, pop_count } => {
            let refs = views::of(alternatives@);
            lemma_enter(acc, ss, stack, initial, index, left, false, pop_count, refs);
        },
        _ => {},
    }
}

proof fn lemma_rule_ops(
    acc: Seq<Op>,
    ss: Seq<SyntaxReference>,
    stack: Seq<LevelV>,
    context: Context,
    pat: MatchPattern,
    region: RegionV,
)
    requires
        known_stack(ss, stack),
        linked_rule(ss, pat),
    ensures
        engine::rule_ops(acc, ss, stack, context, pat, region) is Ok,
{
    let (first, last) = regex::whole(region);
    lemma_meta_ops(acc, ss, stack, true, first, context, pat);
    let a = semantics::meta_ops(acc, ss, stack, true, first, context, pat.operation)->Ok_0;
    let more = captures::group_ops(state::mapping_view(pat.captures), region, true);
    let b = emit::pushed(a, first, pat.scope@) + more;
    let c = emit::popped(b, last, pat.scope@.len() as usize);
    lemma_meta_ops(c, ss, stack, false, last, context, pat);
}

proof fn lemma_branch_ops(
    acc: Seq<Op>,
    ss: Seq<SyntaxReference>,
    stack: Seq<LevelV>,
    first: usize,
    last: usize,
    scopes: Seq<Scope>,
    capture_ops: Seq<Op>,
    refs: Seq<ReferenceV>,
    pop_count: usize,
)
    requires
        known_stack(ss, stack),
        all_follow(ss, refs),
    ensures
        engine::branch_ops(
            acc,
            ss,
            stack,
            first,
            last,
            scopes,
            capture_ops,
            refs,
            pop_count,
        ) is Ok,
{
    if stack.len() > 0 {
        lemma_frame(ss, stack, stack.len() - 1);
        let context = syntax::context_of(ss, stack.last().context)->Ok_0;
        let cur = semantics::leaving(context);
        lemma_enter(acc, ss, stack, true, first, cur, false, pop_count, refs);
        let a = semantics::enter_ops(
            acc,
            ss,
            stack,
            true,
            first,
            cur,
            false,
            pop_count,
            refs,
        )->Ok_0;
        let b = emit::pushed(a, first, scopes) + capture_ops;
        let c = emit::popped(b, last, scopes.len() as usize);
        lemma_enter(c, ss, stack, false, last, cur, false, pop_count, refs);
    }
}

proof fn lemma_expected(
    ss: Seq<SyntaxReference>,
    stack: Seq<LevelV>,
    i: int,
    total: usize,
    replaced: bool,
)
    requires
        known_stack(ss, stack),
    ensures
        embed::expected_depth(ss, stack, i, total, replaced) is Ok,
    decreases stack.len() - i,
{
    if 0 <= i < stack.len() {
        lemma_frame(ss, stack, i);
        let context = syntax::context_of(ss, stack[i].context)->Ok_0;
        let own = total.saturating_add(context.meta_scope@.len() as usize);
        let both = if replaced {
            own
        } else {
            own.saturating_add(context.meta_content_scope@.len() as usize)
        };
        lemma_expected(ss, stack, i + 1, both, context.embed_scope_replaces);
    }
}

proof fn lemma_unwound_to(
    acc: Seq<Op>,
    ss: Seq<SyntaxReference>,
    stack: Seq<LevelV>,
    index: usize,
    target: usize,
)
    requires
        known_stack(ss, stack),
    ensures
        embed::unwound_to(acc, ss, stack, index, target).1 is Ok,
        known_stack(ss, embed::unwound_to(acc, ss, stack, index, target).0),
    decreases stack.len(),
{
    if stack.len() > target {
        lemma_frame(ss, stack, stack.len() - 1);
        let context = syntax::context_of(ss, stack.last().context)->Ok_0;
        let skip = semantics::replaced_by_below(ss, stack, stack.len() - 1);
        let next = semantics::frame_unwound(acc, index, context, skip);
        lemma_lower(ss, stack, stack.len() - 1);
        assert(stack.drop_last() =~= stack.subrange(0, stack.len() - 1));
        lemma_unwound_to(next, ss, stack.drop_last(), index, target);
    }
}

proof fn lemma_levels(
    stack: Seq<LevelV>,
    ss: Seq<SyntaxReference>,
    refs: Seq<ReferenceV>,
    i: int,
    protos: Seq<ContextId>,
    with_prototype: Option<ReferenceV>,
    region: RegionV,
    line: Seq<char>,
)
    requires
        known_stack(ss, stack),
        all_follow(ss, refs),
        all_known(ss, protos),
        with_prototype matches Some(p) ==> syntax::resolved(ss, p) is Ok,
    ensures
        ({
            let (next, r) = perform::pushed_levels(
                stack,
                ss,
                refs,
                i,
                protos,
                with_prototype,
                region,
                line,
            );
            r is Ok && known_stack(ss, next)
        }),
    decreases refs.len() - i,
{
    if 0 <= i < refs.len() {
        assert(syntax::resolved(ss, refs[i]) is Ok);
        let id = syntax::reference_id(refs[i])->Ok_0;
        let kept = if i == 0 {
            protos
        } else {
            Seq::empty()
        };
        let prototypes = match with_prototype {
            Some(p) => if i == refs.len() - 1 {
                kept.push(syntax::reference_id(p)->Ok_0)
            } else {
                kept
            },
            None => kept,
        };
        assert(all_known(ss, prototypes)) by {
            assert forall|k: int| 0 <= k < prototypes.len() implies syntax::context_of(
                ss,
                #[trigger] prototypes[k],
            ) is Ok by {
                if k < kept.len() {
                    assert(prototypes[k] == kept[k]);
                }
            }
        }
        let context = syntax::context_of(ss, id)->Ok_0;
        let captures = if context.uses_backrefs || perform::any_backrefs(ss, prototypes) {
            Some((region, line))
        } else {
            None
        };
        let level = LevelV { context: id, prototypes, captures };
        lemma_higher(ss, stack, level);
        lemma_levels(
            stack.push(level),
            ss,
            refs,
            i + 1,
            protos,
            with_prototype,
            region,
            line,
        );
    }
}

proof fn lemma_performed_push(
    st: StateV,
    ss: Seq<SyntaxReference>,
    line: Seq<char>,
    region: RegionV,
    refs: Seq<ReferenceV>,
    pop_count: usize,
    with_prototype: Option<ReferenceV>,
)
    requires
        knows(ss, st),
        all_follow(ss, refs),
        with_prototype matches Some(p) ==> syntax::resolved(ss, p) is Ok,
    ensures
        ({
            let (next, r) = perform::performed_push(
                st,
                ss,
                line,
                region,
                refs,
                pop_count,
                with_prototype,
            );
            r is Ok && knows(ss, next)
        }),
{
    let base = perform::without_top(st.stack, pop_count as int);
    lemma_without_top(ss, st.stack, pop_count as int);
    let depth = (base.len() as usize).saturating_add(refs.len() as usize);
    lemma_live(ss, st.branch_points, depth as int);
    let protos = if pop_count > 0 && st.stack.len() > 0 {
        lemma_frame(ss, st.stack, st.stack.len() - 1);
        st.stack.last().prototypes
    } else {
        Seq::empty()
    };
    lemma_levels(base, ss, refs, 0, protos, with_prototype, region, line);
}

proof fn lemma_performed(
    st: StateV,
    ss: Seq<SyntaxReference>,
    line: Seq<char>,
    region: RegionV,
    pat: MatchPattern,
)
    requires
        knows(ss, st),
        linked_rule(ss, pat),
    ensures
        ({
            let (next, r) = perform::performed(
                st,
                ss,
                line,
                region,
                pat.operation,
                views::opt(pat.with_prototype),
            );
            r is Ok && knows(ss, next)
        }),
{
    let wp = views::opt(pat.with_prototype);
    match pat.operation {
        MatchOperation::Push { ctx_refs, pop_count } => {
            let refs = views::of(ctx_refs@);
            lemma_performed_push(st, ss, line, region, refs, pop_count, wp);
        },
        MatchOperation::SetTo { ctx_refs, pop_count } => {
            let refs = views::of(ctx_refs@);
            let pops = semantics::set_pops(pop_count);
            lemma_performed_push(st, ss, line, region, refs, pops, wp);
        },
        MatchOperation::Embed { contexts, escape, pop_count } => {
            let refs = views::of(contexts@);
            let base = perform::without_top(st.stack, pop_count as int);
            lemma_without_top(ss, st.stack, pop_count as int);
            lemma_live(ss, st.branch_points, base.len() as int);
            lemma_levels(base, ss, refs, 0, Seq::empty(), wp, region, line);
        },
        MatchOperation::Pop(n) => {
            let base = perform::without_top(st.stack, n as int);
            lemma_without_top(ss, st.stack, n as int);
            lemma_live(ss, st.branch_points, base.len() as int);
        },
        _ => {},
    }
}

/// Whether a rule is there, with all that it refers to.
pub open spec fn valid_rule(ss: Seq<SyntaxReference>, rule: RuleId) -> bool {
    match syntax::context_of(ss, rule.0) {
        Ok(context) => match syntax::rule_at(context, rule.1) {
            Ok(pat) => linked_rule(ss, pat),
            Err(_) => false,
        },
        Err(_) => false,
    }
}

/// Whether this holds of all of them.
#[verifier::opaque]
pub open spec fn valid_rules(ss: Seq<SyntaxReference>, rules: Seq<RuleId>) -> bool {
    forall|i: int| 0 <= i < rules.len() ==> valid_rule(ss, #[trigger] rules[i])
}

proof fn lemma_rules(
    fuel: nat,
    ss: Seq<SyntaxReference>,
    id: ContextId,
    i: nat,
    acc: Seq<RuleId>,
)
    requires
        linked(ss),
        syntax::context_of(ss, id) is Ok,
        valid_rules(ss, acc),
    ensures
        syntax::rules_onto(fuel, ss, id, i, acc) matches Some(r) ==> r is Ok && valid_rules(
            ss,
            r->Ok_0,
        ),
    decreases fuel, syntax::entry_count(ss, id) - i,
{
    let context = syntax::context_of(ss, id)->Ok_0;
    assert(linked_context(ss, context));
    if i < context.patterns@.len() {
        assert(context.patterns.len() == context.patterns@.len());
        assert(linked_entry(ss, context.patterns@[i as int]));
        match context.patterns@[i as int] {
            Pattern::Match(pat) => {
                let next = acc.push((id, i as usize));
                assert(valid_rules(ss, next)) by {
                    reveal(valid_rules);
                    assert forall|k: int| 0 <= k < next.len() implies valid_rule(
                        ss,
                        #[trigger] next[k],
                    ) by {
                        if k < acc.len() {
                            assert(next[k] == acc[k]);
                        }
                    }
                }
                lemma_rules(fuel, ss, id, i + 1, next);
            },
            Pattern::Include(r) => match r@ {
                ReferenceV::Direct(inner) => if fuel > 0 {
                    lemma_rules((fuel - 1) as nat, ss, inner, 0, acc);
                    if let Some(Ok(rules)) = syntax::rules_onto(
                        (fuel - 1) as nat,
                        ss,
                        inner,
                        0,
                        acc,
                    ) {
                        lemma_rules(fuel, ss, id, i + 1, rules);
                    }
                },
                _ => {
                    lemma_rules(fuel, ss, id, i + 1, acc);
                },
            },
        }
    }
}

/// Whether the rule of a match is there.
pub open spec fn valid_found(ss: Seq<SyntaxReference>, best: Option<FoundV>) -> bool {
    best matches Some(found) ==> (found.rule matches Some(rule) ==> valid_rule(ss, rule))
}

proof fn lemma_scan_rules(
    s: ScanV,
    ss: Seq<SyntaxReference>,
    line: Seq<char>,
    st: StateV,
    q: QueryV,
    entry: ChainEntry,
    rules: Seq<RuleId>,
    j: int,
)
    requires
        valid_rules(ss, rules),
        valid_found(ss, s.best),
    ensures
        search::scan_rules(s, ss, line, st, q, entry, rules, j) is Ok,
        valid_found(ss, search::scan_rules(s, ss, line, st, q, entry, rules, j)->Ok_0.best),
    decreases rules.len() - j,
{
    if !(s.stop || j < 0 || j >= rules.len()) {
        assert(valid_rule(ss, rules[j])) by {
            reveal(valid_rules);
        }
        let next = search::scan_rule(s, ss, line, st, q, entry, rules[j])->Ok_0;
        lemma_scan_rules(next, ss, line, st, q, entry, rules, j + 1);
    }
}

/// Whether the contexts of a chain are in the set.
#[verifier::opaque]
pub open spec fn known_chain(ss: Seq<SyntaxReference>, chain: Seq<ChainEntry>) -> bool {
    forall|k: int|
        0 <= k < chain.len() ==> syntax::context_of(ss, (#[trigger] chain[k]).context) is Ok
}

proof fn lemma_scan_chain(
    fuel: nat,
    s: ScanV,
    ss: Seq<SyntaxReference>,
    line: Seq<char>,
    st: StateV,
    q: QueryV,
    chain: Seq<ChainEntry>,
    k: int,
)
    requires
        linked(ss),
        known_chain(ss, chain),
        valid_found(ss, s.best),
    ensures
        search::scan_chain(fuel, s, ss, line, st, q, chain, k) matches Some(r) ==> r is Ok
            && valid_found(ss, r->Ok_0.best),
    decreases chain.len() - k,
{
    if !(s.stop || k < 0 || k >= chain.len()) {
        assert(syntax::context_of(ss, chain[k].context) is Ok) by {
            reveal(known_chain);
        }
        assert(valid_rules(ss, Seq::empty())) by {
            reveal(valid_rules);
        }
        lemma_rules(fuel, ss, chain[k].context, 0, Seq::empty());
        if let Some(Ok(rules)) = syntax::rules_onto(fuel, ss, chain[k].context, 0, Seq::empty()) {
            lemma_scan_rules(s, ss, line, st, q, chain[k], rules, 0);
            let next = search::scan_rules(s, ss, line, st, q, chain[k], rules, 0)->Ok_0;
            lemma_scan_chain(fuel, next, ss, line, st, q, chain, k + 1);
        }
    }
}

proof fn lemma_prototype_chain(
    ss: Seq<SyntaxReference>,
    acc: Seq<ChainEntry>,
    stack: Seq<LevelV>,
    k: int,
)
    requires
        known_stack(ss, stack),
        known_chain(ss, acc),
    ensures
        known_chain(ss, search::prototype_chain(acc, stack, k)),
    decreases stack.len() - k,
{
    if 0 <= k < stack.len() {
        lemma_frame(ss, stack, k);
        let own = Seq::new(
            stack[k].prototypes.len(),
            |i: int|
                ChainEntry {
                    with_prototype: true,
                    context: stack[k].prototypes[i],
                    level: Some(k as usize),
                },
        );
        assert(known_chain(ss, acc + own)) by {
            reveal(known_chain);
            let both = acc + own;
            assert forall|j: int| 0 <= j < both.len() implies syntax::context_of(
                ss,
                (#[trigger] both[j]).context,
            ) is Ok by {
                if j < acc.len() {
                    assert(both[j] == acc[j]);
                } else {
                    assert(both[j].context == stack[k].prototypes[j - acc.len()]);
                }
            }
        }
        lemma_prototype_chain(ss, acc + own, stack, k + 1);
    }
}

proof fn lemma_best(
    fuel: nat,
    ss: Seq<SyntaxReference>,
    line: Seq<char>,
    st: StateV,
    start: usize,
    memory: CacheV,
    check_pop_loop: bool,
    pre_push_depth: usize,
)
    requires
        linked(ss),
        knows(ss, st),
        st.stack.len() > 0,
    ensures
        search::best_match(fuel, ss, line, st, start, memory, check_pop_loop, pre_push_depth)
            matches Some(r) ==> r is Ok && valid_found(ss, (r->Ok_0).1),
{
    lemma_frame(ss, st.stack, st.stack.len() - 1);
    let context = syntax::context_of(ss, st.stack.last().context)->Ok_0;
    assert(linked_context(ss, context));
    let (search_end, escape) = search::escape_found(
        st.escape_stack,
        0,
        line,
        start,
        crate::text::byte_len(line),
        None,
    );
    let q = QueryV { start, search_end, check_pop_loop, pre_push_depth };
    let scan = ScanV { memory, min_start: usize::MAX, best: None, looping: false, stop: false };
    let first = if st.proto_starts.len() > 0 {
        st.proto_starts.last()
    } else {
        0
    };
    assert(known_chain(ss, Seq::empty())) by {
        reveal(known_chain);
    }
    lemma_prototype_chain(ss, Seq::empty(), st.stack, first as int);
    let chain = search::context_chain(st.stack, st.proto_starts, context.prototype);
    assert(known_chain(ss, chain)) by {
        reveal(known_chain);
    }
    lemma_scan_chain(fuel, scan, ss, line, st, q, chain, 0);
}

proof fn lemma_escape(
    ss: Seq<SyntaxReference>,
    line: Seq<char>,
    st: StateV,
    cur: CursorV,
    found: FoundV,
)
    requires
        knows(ss, st),
    ensures
        ({
            let step = engine::escape_step(ss, line, st, cur, found);
            step.1 is Ok && knows(ss, step.0)
        }),
{
    let (first, last) = regex::whole(found.regions);
    if found.escape_index < st.escape_stack.len() {
        let entry = st.escape_stack[found.escape_index as int];
        lemma_expected(ss, st.stack, 0, 0, false);
        let expected = embed::expected_depth(ss, st.stack, 0, 0, false)->Ok_0;
        let a = embed::without_orphans(cur.ops, st.shadow, first, expected);
        lemma_unwound_to(a, ss, st.stack, first, entry.stack_depth);
        let (stack, r) = embed::unwound_to(a, ss, st.stack, first, entry.stack_depth);
        lemma_live(ss, st.branch_points, stack.len() as int);
    }
}

proof fn lemma_alternative(
    ss: Seq<SyntaxReference>,
    st: StateV,
    bps: Seq<BranchV>,
    index: int,
    alt: int,
)
    requires
        known_branches(ss, bps),
        0 <= index < bps.len(),
        0 <= alt < bps[index].alternatives.len(),
    ensures
        engine::alternative_taken(st, bps, index, alt).1 is Ok,
        knows(ss, engine::alternative_taken(st, bps, index, alt).0),
{
    let bp = bps[index];
    lemma_branch_at(ss, bps, index);
    lemma_updated(ss, bps, index, BranchV { next_alternative: (alt + 1) as usize, ..bp });
    assert(syntax::resolved(ss, bp.alternatives[alt]) is Ok);
    let id = syntax::reference_id(bp.alternatives[alt])->Ok_0;
    let prototypes = match bp.with_prototype {
        Some(p) => seq![syntax::reference_id(p)->Ok_0],
        None => Seq::empty(),
    };
    let base = perform::without_top(bp.stack_snapshot, bp.pop_count as int);
    lemma_without_top(ss, bp.stack_snapshot, bp.pop_count as int);
    let level = LevelV { context: id, prototypes, captures: None };
    assert(known_level(ss, level));
    lemma_higher(ss, base, level);
}

proof fn lemma_alternative_ops(ss: Seq<SyntaxReference>, acc: Seq<Op>, bp: BranchV, alt: int)
    requires
        known_branch(ss, bp),
        0 <= alt < bp.alternatives.len(),
    ensures
        engine::alternative_ops(acc, ss, bp, alt) is Ok,
{
    let refs = seq![bp.alternatives[alt]];
    assert(all_follow(ss, refs)) by {
        assert(syntax::resolved(ss, bp.alternatives[alt]) is Ok);
    }
    lemma_branch_ops(
        acc,
        ss,
        bp.stack_snapshot,
        bp.trigger_match_start,
        bp.match_start,
        bp.pat_scope,
        bp.capture_ops,
        refs,
        bp.pop_count,
    );
}

proof fn lemma_tokens(
    fuel: nat,
    ss: Seq<SyntaxReference>,
    line: Seq<char>,
    st: StateV,
    cur: CursorV,
)
    requires
        linked(ss),
        knows(ss, st),
        engine::tokens_parsed(fuel, ss, line, st, cur) is Some,
    ensures
        ({
            let (next, r) = engine::tokens_parsed(fuel, ss, line, st, cur)->0;
            known_or_dry(ss, next, r)
        }),
    decreases fuel, 0int, 0int,
{
    let less = (fuel - 1) as nat;
    lemma_step(less, ss, line, st, cur);
    if let Some((st1, Ok((cur1, true)))) = engine::stepped(less, ss, line, st, cur) {
        lemma_tokens(less, ss, line, st1, cur1);
    }
}

proof fn lemma_line(
    fuel: nat,
    ss: Seq<SyntaxReference>,
    st: StateV,
    line: Seq<char>,
    start_at: usize,
)
    requires
        linked(ss),
        knows(ss, st),
        engine::line_parsed(fuel, ss, st, line, start_at) is Some,
    ensures
        ({
            let (next, r) = engine::line_parsed(fuel, ss, st, line, start_at)->0;
            known_or_dry(ss, next, r)
        }),
    decreases fuel, 1int, 0int,
{
    if st.stack.len() > 0 {
        lemma_frame(ss, st.stack, st.stack.len() - 1);
    }
    if let Ok(ops) = engine::opening(ss, st, start_at) {
        let cur = CursorV { start: start_at, ops, ..engine::fresh_cursor() };
        lemma_tokens(fuel, ss, line, engine::opened(st, start_at), cur);
    }
}

proof fn lemma_replay_lines(
    fuel: nat,
    ss: Seq<SyntaxReference>,
    st: StateV,
    plan: ReplayPlanV,
    i: int,
    acc: Seq<Seq<Op>>,
)
    requires
        linked(ss),
        knows(ss, st),
        engine::replay_lines(fuel, ss, st, plan, i, acc) is Some,
    ensures
        ({
            let (next, r) = engine::replay_lines(fuel, ss, st, plan, i, acc)->0;
            known_or_dry(ss, next, r)
        }),
    decreases fuel, 2int, plan.lines.len() - i,
{
    if 0 <= i < plan.lines.len() {
        let start_at = if i == 0 {
            plan.resume
        } else {
            0
        };
        let entry = engine::replay_entry(st, plan, i);
        lemma_line(fuel, ss, entry, plan.lines[i], start_at);
        if let Some((st1, Ok(tail))) = engine::line_parsed(
            fuel,
            ss,
            entry,
            plan.lines[i],
            start_at,
        ) {
            let st2 = StateV {
                replay_ctx: st.replay_ctx,
                replay_prefix_ops: st.replay_prefix_ops,
                ..st1
            };
            let line_ops = if i == 0 {
                plan.prefix + tail
            } else {
                tail
            };
            lemma_replay_lines(fuel, ss, st2, plan, i + 1, acc.push(line_ops));
        }
    }
}

proof fn lemma_replayed(fuel: nat, ss: Seq<SyntaxReference>, st: StateV, plan: ReplayPlanV)
    requires
        linked(ss),
        knows(ss, st),
        engine::replayed(fuel, ss, st, plan) is Some,
    ensures
        ({
            let (next, r) = engine::replayed(fuel, ss, st, plan)->0;
            known_or_dry(ss, next, r)
        }),
    decreases fuel, 3int, 0int,
{
    lemma_replay_lines(fuel, ss, engine::replay_start(st), plan, 0, Seq::empty());
}

proof fn lemma_exhausted(
    fuel: nat,
    ss: Seq<SyntaxReference>,
    st: StateV,
    cur: CursorV,
    index: int,
)
    requires
        linked(ss),
        knows(ss, st),
        0 <= index < st.branch_points.len(),
        engine::exhausted(fuel, ss, st, cur, index) is Some,
    ensures
        ({
            let (next, r) = engine::exhausted(fuel, ss, st, cur, index)->0;
            known_or_dry(ss, next, r)
        }),
    decreases fuel, 4int, 0int,
{
    let bp = st.branch_points[index];
    lemma_branch_at(ss, st.branch_points, index);
    lemma_removed(ss, st.branch_points, index);
    let st1 = StateV {
        branch_points: st.branch_points.remove(index),
        ..engine::rewound(st, bp)
    };
    if bp.line_number < engine::current_line(st) {
        lemma_replayed(fuel, ss, st1, engine::exhausted_plan(st, bp));
    }
}

proof fn lemma_alternative_replayed(
    fuel: nat,
    ss: Seq<SyntaxReference>,
    st: StateV,
    bp: BranchV,
    alt: int,
)
    requires
        linked(ss),
        knows(ss, st),
        known_branch(ss, bp),
        0 <= alt < bp.alternatives.len(),
        engine::alternative_replayed(fuel, ss, st, bp, alt) is Some,
    ensures
        ({
            let (next, r) = engine::alternative_replayed(fuel, ss, st, bp, alt)->0;
            known_or_dry(ss, next, r)
        }),
    decreases fuel, 4int, 0int,
{
    lemma_alternative_ops(ss, bp.prefix_ops, bp, alt);
    let prefix = engine::alternative_ops(bp.prefix_ops, ss, bp, alt)->Ok_0;
    lemma_replayed(fuel, ss, st, engine::alternative_plan(st, bp, prefix));
}

proof fn lemma_forgotten(ss: Seq<SyntaxReference>, st: StateV, index: int)
    requires
        knows(ss, st),
    ensures
        knows(ss, engine::prefix_forgotten(st, index)),
{
    if 0 <= index < st.branch_points.len() {
        let bp = st.branch_points[index];
        lemma_branch_at(ss, st.branch_points, index);
        lemma_updated(ss, st.branch_points, index, BranchV { ops_snapshot_len: 0, ..bp });
    }
}

#[verifier::rlimit(30)]
proof fn lemma_retried_across(fuel: nat, ss: Seq<SyntaxReference>, st: StateV, index: int)
    requires
        linked(ss),
        knows(ss, st),
        0 <= index < st.branch_points.len(),
        st.branch_points[index].next_alternative < st.branch_points[index].alternatives.len(),
        engine::retried_across(fuel, ss, st, index) is Some,
    ensures
        ({
            let (next, r) = engine::retried_across(fuel, ss, st, index)->0;
            known_or_dry(ss, next, r)
        }),
    decreases fuel, 5int, 0int,
{
    let bp = st.branch_points[index];
    let snap = bp.pending_lines_snapshot_len;
    let info = engine::info_of(bp);
    let next = bp.next_alternative as int;
    lemma_branch_at(ss, st.branch_points, index);
    let (st1, taken) = engine::alternative_taken(st, st.branch_points, index, next);
    lemma_alternative(ss, st, st.branch_points, index, next);
    lemma_alternative_replayed(fuel, ss, st1, bp, next);
    if let Some((st2, Ok(replay))) = engine::alternative_replayed(fuel, ss, st1, bp, next) {
        if engine::jumps_to_field(bp, replay) {
            let field = engine::FIELD_ALTERNATIVE as int;
            let (st3, jumped) = engine::alternative_taken(st2, st1.branch_points, index, field);
            lemma_alternative(ss, st2, st1.branch_points, index, field);
            lemma_alternative_replayed(fuel, ss, st3, bp, field);
            if let Some((st4, Ok(second))) = engine::alternative_replayed(
                fuel,
                ss,
                st3,
                bp,
                field,
            ) {
                lemma_forgotten(ss, engine::replay_taken(st4, info, snap, second), index);
            }
        } else {
            lemma_forgotten(ss, engine::replay_taken(st2, info, snap, replay), index);
        }
    }
}

proof fn lemma_retried_within(
    ss: Seq<SyntaxReference>,
    line: Seq<char>,
    st: StateV,
    cur: CursorV,
    index: int,
)
    requires
        knows(ss, st),
        0 <= index < st.branch_points.len(),
        st.branch_points[index].next_alternative < st.branch_points[index].alternatives.len(),
    ensures
        ({
            let step = engine::retried_within(ss, line, st, cur, index);
            step.1 is Ok && knows(ss, step.0)
        }),
{
    let bp = st.branch_points[index];
    let next = bp.next_alternative as int;
    lemma_branch_at(ss, st.branch_points, index);
    let (st1, taken) = engine::alternative_taken(st, st.branch_points, index, next);
    lemma_alternative(ss, st, st.branch_points, index, next);
    lemma_branch_at(ss, st1.branch_points, index);
    let kept = engine::ops_until(cur.ops, bp.ops_snapshot_len);
    lemma_updated(
        ss,
        st1.branch_points,
        index,
        BranchV { ops_snapshot_len: kept.len() as usize, ..st1.branch_points[index] },
    );
    lemma_alternative_ops(ss, kept, bp, next);
}

proof fn lemma_failed(
    fuel: nat,
    ss: Seq<SyntaxReference>,
    line: Seq<char>,
    st: StateV,
    cur: CursorV,
    name: Seq<char>,
)
    requires
        linked(ss),
        knows(ss, st),
        engine::failed(fuel, ss, line, st, cur, name) is Some,
    ensures
        ({
            let (next, r) = engine::failed(fuel, ss, line, st, cur, name)->0;
            known_or_dry(ss, next, r)
        }),
    decreases fuel, 5int, 1int,
{
    let n = st.branch_points.len() as int;
    window::lemma_latest(st.branch_points, n, name, st.stack.len() as int);
    if let Some(index) = engine::latest_branch(
        st.branch_points,
        n,
        name,
        st.stack.len() as int,
    ) {
        let bp = st.branch_points[index];
        if engine::current_line(st).saturating_sub(bp.line_number) > engine::MAX_BRANCH_AGE {
            lemma_removed(ss, st.branch_points, index);
        } else if bp.next_alternative >= bp.alternatives.len() {
            lemma_exhausted(fuel, ss, st, cur, index);
        } else if bp.line_number < engine::current_line(st) {
            lemma_retried_across(fuel, ss, st, index);
        } else {
            lemma_retried_within(ss, line, st, cur, index);
        }
    }
}

#[verifier::rlimit(30)]
proof fn lemma_executed(
    fuel: nat,
    ss: Seq<SyntaxReference>,
    line: Seq<char>,
    st: StateV,
    cur: CursorV,
    pat: MatchPattern,
    region: RegionV,
)
    requires
        knows(ss, st),
        st.stack.len() > 0,
        linked_rule(ss, pat),
        !(pat.operation is Fail),
        engine::executed(fuel, ss, line, st, cur, pat, region) is Some,
    ensures
        ({
            let (next, r) = engine::executed(fuel, ss, line, st, cur, pat, region)->0;
            r is Ok && knows(ss, next)
        }),
{
    let (first, last) = regex::whole(region);
    match pat.operation {
        MatchOperation::Branch { name, alternatives, pop_count } => {
            let all = views::of(alternatives@);
            let bp = engine::new_branch(st, cur, pat, name@, all, pop_count, region);
            let st1 = engine::with_branch(st, bp);
            let refs = engine::first_alternative(all);
            assert(known_branch(ss, bp));
            lemma_added(ss, st.branch_points, bp);
            assert(all_follow(ss, refs)) by {
                assert forall|i: int| 0 <= i < refs.len() implies syntax::resolved(
                    ss,
                    #[trigger] refs[i],
                ) is Ok by {
                    assert(refs[i] == all[i]);
                }
            }
            let wp = views::opt(pat.with_prototype);
            lemma_performed_push(st1, ss, line, region, refs, pop_count, wp);
            lemma_branch_ops(
                cur.ops,
                ss,
                st.stack,
                first,
                last,
                pat.scope@,
                bp.capture_ops,
                refs,
                pop_count,
            );
        },
        _ => {
            lemma_frame(ss, st.stack, st.stack.len() - 1);
            let context = syntax::context_of(ss, st.stack.last().context)->Ok_0;
            lemma_rule_ops(cur.ops, ss, st.stack, context, pat, region);
            lemma_performed(st, ss, line, region, pat);
        },
    }
}

proof fn lemma_step(
    fuel: nat,
    ss: Seq<SyntaxReference>,
    line: Seq<char>,
    st: StateV,
    cur: CursorV,
)
    requires
        linked(ss),
        knows(ss, st),
        engine::stepped(fuel, ss, line, st, cur) is Some,
    ensures
        ({
            let (next, r) = engine::stepped(fuel, ss, line, st, cur)->0;
            known_or_dry(ss, next, r)
        }),
    decreases fuel, 8int, 0int,
{
    let len = st.stack.len() as int;
    let st1 = StateV { proto_starts: engine::trimmed(st.proto_starts, len), ..st };
    let armed = engine::loop_armed(cur, len);
    let pre = cur.push_mark.1;
    if len > 0 {
        lemma_best(fuel, ss, line, st1, cur.start, cur.memory, armed, pre);
        if let Some(Ok((memory, Some(found)))) = search::best_match(
            fuel,
            ss,
            line,
            st1,
            cur.start,
            cur.memory,
            armed,
            pre,
        ) {
            let cur1 = CursorV { memory, ..cur };
            match found.rule {
                None => {
                    lemma_escape(ss, line, st1, cur1, found);
                },
                Some(rule) => {
                    assert(valid_rule(ss, rule));
                    let context = syntax::context_of(ss, rule.0)->Ok_0;
                    let pat = syntax::rule_at(context, rule.1)->Ok_0;
                    if !found.would_loop {
                        match pat.operation {
                            MatchOperation::Fail(name) => {
                                lemma_failed(fuel, ss, line, st1, cur1, name@);
                            },
                            _ => if !engine::eol_branch(line, st1, cur1, pat, found) {
                                lemma_executed(
                                    fuel,
                                    ss,
                                    line,
                                    engine::rule_entry(st1, found),
                                    engine::rule_cursor(st1, cur1, pat, found),
                                    pat,
                                    found.regions,
                                );
                            },
                        }
                    }
                },
            }
        }
    }
}

/// A fresh state of a syntax whose first context is in the set speaks of no other.
pub proof fn law_fresh_state_is_known(ss: Seq<SyntaxReference>, syntax: SyntaxReference)
    requires
        syntax::context_of(ss, syntax.start) is Ok,
    ensures
        knows(ss, parser::initial(parser::start_level(syntax))),
{
    reveal(known_stack);
    reveal(known_branches);
}

/// In a linked set the only error is that the rules pop the last frame of the
/// stack. Any other call succeeds, and so can the next one.
pub proof fn law_only_popping_everything_fails(
    fuel: nat,
    ss: Seq<SyntaxReference>,
    st: StateV,
    line: Seq<char>,
)
    requires
        linked(ss),
        knows(ss, st),
        parser::output_within(fuel, ss, st, line) is Some,
    ensures
        ({
            let (next, r) = parser::output_within(fuel, ss, st, line)->0;
            known_or_dry(ss, next, r)
        }),
{
    reveal(parser::parsed);
    let e = parser::entered(st);
    lemma_filtered(
        ss,
        st.branch_points,
        |bp: BranchV| parser::is_young(bp, st.line_number),
    );
    if st.stack.len() > 0 {
        lemma_line(fuel, ss, e, line, 0);
    }
}

} // verus!
