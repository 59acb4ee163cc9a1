//! Sets whose first context is never popped: every call succeeds.

use crate::committed;
use crate::embed;
use crate::engine;
use crate::engine::{CursorV, ReplayPlanV, StepV};
use crate::lines;
use crate::linked;
use crate::order;
use crate::parser;
use crate::perform;
use crate::scope::{Op, StackV};
use crate::search;
use crate::search::{ChainEntry, FoundV, QueryV, ScanV};
use crate::semantics;
use crate::state;
use crate::state::{BranchV, EscapeV, LevelV, RegionV, StateV};
use crate::syntax;
use crate::syntax::{ContextId, MatchOperation, MatchPattern, ReferenceV, RuleId, SyntaxReference};
use crate::views;
use crate::window;
use vstd::prelude::*;

verus! {

/// How many frames an operation pops.
pub open spec fn pops(op: MatchOperation) -> usize {
    match op {
        MatchOperation::Push { ctx_refs, pop_count } => pop_count,
        MatchOperation::SetTo { ctx_refs, pop_count } => semantics::set_pops(pop_count),
        MatchOperation::Pop(n) => n,
        MatchOperation::Branch { name, alternatives, pop_count } => pop_count,
        MatchOperation::Embed { contexts, escape, pop_count } => pop_count,
        _ => 0,
    }
}

/// Whether a rule pops nothing.
pub open spec fn pops_nothing(ss: Seq<SyntaxReference>, rule: RuleId) -> bool {
    syntax::context_of(ss, rule.0) matches Ok(context) ==> (syntax::rule_at(
        context,
        rule.1,
    ) matches Ok(pat) ==> pops(pat.operation) == 0)
}

/// Whether no rule of a context, its own or an included one, pops.
pub open spec fn all_pop_nothing(ss: Seq<SyntaxReference>, id: ContextId) -> bool {
    forall|fuel: nat, k: int|
        #![trigger syntax::rules_onto(fuel, ss, id, 0, Seq::empty())->0->Ok_0[k]]
        syntax::rules_onto(fuel, ss, id, 0, Seq::empty()) matches Some(Ok(rules)) ==> (0 <= k
            < rules.len() ==> pops_nothing(ss, rules[k]))
}

/// Whether a stack that starts with the context `root` never loses it: no rule pops
/// more than one frame, and none that `root` or its prototype has pops any.
pub open spec fn grounded(ss: Seq<SyntaxReference>, root: ContextId) -> bool {
    &&& forall|id: ContextId, index: usize| #[trigger]
        syntax::rule_at(syntax::context_of(ss, id)->Ok_0, index) matches Ok(pat) ==> (
        syntax::context_of(ss, id) is Ok ==> pops(pat.operation) <= 1)
    &&& all_pop_nothing(ss, root)
    &&& syntax::context_of(ss, root) matches Ok(context) ==> (context.prototype matches Some(p)
        ==> all_pop_nothing(ss, p))
}

/// Whether the bottom of a stack is `root`, without prototypes of its own.
pub open spec fn rests(root: ContextId, stack: Seq<LevelV>) -> bool {
    stack.len() > 0 && stack[0].context == root && stack[0].prototypes.len() == 0
}

/// Whether the escapes leave the bottom of the stack.
pub open spec fn above_ground(escapes: Seq<EscapeV>) -> bool {
    forall|i: int| 0 <= i < escapes.len() ==> (#[trigger] escapes[i]).stack_depth > 0
}

/// Whether going back to a branch point leaves the bottom of the stack.
pub open spec fn steady_branch(root: ContextId, bp: BranchV) -> bool {
    &&& rests(root, bp.stack_snapshot)
    &&& bp.pop_count < bp.stack_snapshot.len()
    &&& above_ground(bp.escape_stack_snapshot)
}

/// Whether this holds of all branch points.
pub open spec fn steady_branches(root: ContextId, bps: Seq<BranchV>) -> bool {
    forall|i: int| 0 <= i < bps.len() ==> steady_branch(root, #[trigger] bps[i])
}

/// What holds of the state at every step.
pub open spec fn steady(root: ContextId, st: StateV) -> bool {
    rests(root, st.stack) && above_ground(st.escape_stack) && steady_branches(
        root,
        st.branch_points,
    )
}

/// Whether an operation leaves the bottom of a stack of that depth.
pub open spec fn leaves_bottom(op: MatchOperation, depth: nat) -> bool {
    pops(op) < depth
}

/// Whether a rule that deepens a stack of that depth leaves it within its bound.
pub open spec fn within_bound(ss: Seq<SyntaxReference>, rule: RuleId, depth: nat) -> bool {
    syntax::context_of(ss, rule.0) matches Ok(context) ==> (syntax::rule_at(
        context,
        rule.1,
    ) matches Ok(pat) ==> (search::deepens(pat.operation) ==> depth < search::MAX_STACK_DEPTH))
}

/// What holds of the rule that a search with a stack of that depth found.
pub open spec fn found_steady(ss: Seq<SyntaxReference>, depth: nat, best: Option<FoundV>) -> bool {
    best matches Some(found) ==> (found.rule matches Some(rule) ==> {
        &&& depth == 1 ==> pops_nothing(ss, rule)
        &&& within_bound(ss, rule, depth)
    })
}

proof fn lemma_scan_rules(
    s: ScanV,
    ss: Seq<SyntaxReference>,
    line: Seq<char>,
    st: StateV,
    q: QueryV,
    entry: ChainEntry,
    rules: Seq<RuleId>,
    j: int,
)
    requires
        st.stack.len() == 1 ==> forall|k: int|
            0 <= k < rules.len() ==> pops_nothing(ss, #[trigger] rules[k]),
        found_steady(ss, st.stack.len(), s.best),
    ensures
        search::scan_rules(s, ss, line, st, q, entry, rules, j) matches Ok(next) ==> found_steady(
            ss,
            st.stack.len(),
            next.best,
        ),
    decreases rules.len() - j,
{
    if !(s.stop || j < 0 || j >= rules.len()) {
        assert(st.stack.len() == 1 ==> pops_nothing(ss, rules[j]));
        if let Ok(next) = search::scan_rule(s, ss, line, st, q, entry, rules[j]) {
            lemma_scan_rules(next, ss, line, st, q, entry, rules, j + 1);
        }
    }
}

proof fn lemma_scan_chain(
    fuel: nat,
    s: ScanV,
    ss: Seq<SyntaxReference>,
    line: Seq<char>,
    st: StateV,
    q: QueryV,
    chain: Seq<ChainEntry>,
    k: int,
)
    requires
        st.stack.len() == 1 ==> forall|k: int|
            0 <= k < chain.len() ==> all_pop_nothing(ss, (#[trigger] chain[k]).context),
        found_steady(ss, st.stack.len(), s.best),
    ensures
        search::scan_chain(fuel, s, ss, line, st, q, chain, k) matches Some(Ok(next))
            ==> found_steady(ss, st.stack.len(), next.best),
    decreases chain.len() - k,
{
    if !(s.stop || k < 0 || k >= chain.len()) {
        let id = chain[k].context;
        if let Some(Ok(rules)) = syntax::rules_onto(fuel, ss, id, 0, Seq::empty()) {
            assert(st.stack.len() == 1 ==> all_pop_nothing(ss, id));
            assert forall|j: int| st.stack.len() == 1 && 0 <= j < rules.len() implies pops_nothing(
                ss,
                #[trigger] rules[j],
            ) by {
                assert(syntax::rules_onto(fuel, ss, id, 0, Seq::empty())->0->Ok_0[j] == rules[j]);
            }
            lemma_scan_rules(s, ss, line, st, q, chain[k], rules, 0);
            if let Ok(next) = search::scan_rules(s, ss, line, st, q, chain[k], rules, 0) {
                lemma_scan_chain(fuel, next, ss, line, st, q, chain, k + 1);
            }
        }
    }
}

/// What holds of the best match; with `root` alone on the stack it pops nothing.
proof fn lemma_best(
    fuel: nat,
    ss: Seq<SyntaxReference>,
    root: ContextId,
    line: Seq<char>,
    st: StateV,
    cur: CursorV,
    check_pop_loop: bool,
)
    requires
        grounded(ss, root),
        rests(root, st.stack),
    ensures
        search::best_match(
            fuel,
            ss,
            line,
            st,
            cur.start,
            cur.memory,
            check_pop_loop,
            cur.push_mark.1,
        ) matches Some(Ok((_, best))) ==> found_steady(ss, st.stack.len(), best),
{
    if let Ok(context) = syntax::context_of(ss, st.stack.last().context) {
        let all = crate::text::byte_len(line);
        let (search_end, escape) = search::escape_found(
            st.escape_stack,
            0,
            line,
            cur.start,
            all,
            None,
        );
        let q = QueryV {
            start: cur.start,
            search_end,
            check_pop_loop,
            pre_push_depth: cur.push_mark.1,
        };
        let scan = ScanV {
            memory: cur.memory,
            min_start: usize::MAX,
            best: None,
            looping: false,
            stop: false,
        };
        let first = if st.proto_starts.len() > 0 {
            st.proto_starts.last()
        } else {
            0
        };
        let chain = search::context_chain(st.stack, st.proto_starts, context.prototype);
        if st.stack.len() == 1 {
            assert(search::prototype_chain(Seq::empty(), st.stack, first as int)
                =~= Seq::empty()) by {
                reveal_with_fuel(search::prototype_chain, 2);
            }
            assert forall|k: int| 0 <= k < chain.len() implies all_pop_nothing(
                ss,
                (#[trigger] chain[k]).context,
            ) by {}
        }
        lemma_scan_chain(fuel, scan, ss, line, st, q, chain, 0);
    }
}

proof fn lemma_filtered(root: ContextId, bps: Seq<BranchV>, p: spec_fn(BranchV) -> bool)
    requires
        steady_branches(root, bps),
    ensures
        steady_branches(root, bps.filter(p)),
{
    window::lemma_members(bps, p);
    let left = bps.filter(p);
    assert forall|i: int| 0 <= i < left.len() implies steady_branch(root, #[trigger] left[i]) by {
        let k = choose|k: int| 0 <= k < bps.len() && bps[k] == left[i];
        assert(steady_branch(root, bps[k]));
    }
}

proof fn lemma_live(root: ContextId, bps: Seq<BranchV>, depth: int)
    requires
        steady_branches(root, bps),
    ensures
        steady_branches(root, perform::live_branches(bps, depth)),
{
    lemma_filtered(root, bps, |bp: BranchV| state::alive(bp, depth));
}

proof fn lemma_removed(root: ContextId, bps: Seq<BranchV>, index: int)
    requires
        steady_branches(root, bps),
        0 <= index < bps.len(),
    ensures
        steady_branches(root, bps.remove(index)),
{
    let left = bps.remove(index);
    assert forall|i: int| 0 <= i < left.len() implies steady_branch(root, #[trigger] left[i]) by {
        let j = if i < index {
            i
        } else {
            i + 1
        };
        assert(left[i] == bps[j]);
    }
}

proof fn lemma_updated(root: ContextId, bps: Seq<BranchV>, index: int, bp: BranchV)
    requires
        steady_branches(root, bps),
        0 <= index < bps.len(),
        steady_branch(root, bp),
    ensures
        steady_branches(root, bps.update(index, bp)),
{
    let next = bps.update(index, bp);
    assert forall|i: int| 0 <= i < next.len() implies steady_branch(root, #[trigger] next[i]) by {
        if i != index {
            assert(next[i] == bps[i]);
        }
    }
}

proof fn lemma_live_escapes(escapes: Seq<EscapeV>, depth: int)
    requires
        above_ground(escapes),
    ensures
        above_ground(perform::live_escapes(escapes, depth)),
    decreases escapes.len(),
{
    reveal(Seq::filter);
    let live = perform::live_escapes(escapes, depth);
    if escapes.len() > 0 {
        let front = escapes.drop_last();
        assert forall|i: int| 0 <= i < front.len() implies (#[trigger] front[i]).stack_depth
            > 0 by {
            assert(front[i] == escapes[i]);
        }
        lemma_live_escapes(front, depth);
        assert(escapes[escapes.len() - 1].stack_depth > 0);
        assert forall|i: int| 0 <= i < live.len() implies (#[trigger] live[i]).stack_depth > 0 by {
            let kept = perform::live_escapes(front, depth);
            if i < kept.len() {
                assert(live[i] == kept[i]);
            }
        }
    }
}

proof fn lemma_levels(
    root: ContextId,
    stack: Seq<LevelV>,
    ss: Seq<SyntaxReference>,
    refs: Seq<ReferenceV>,
    i: int,
    protos: Seq<ContextId>,
    with_prototype: Option<ReferenceV>,
    region: RegionV,
    line: Seq<char>,
)
    requires
        rests(root, stack),
    ensures
        rests(
            root,
            perform::pushed_levels(stack, ss, refs, i, protos, with_prototype, region, line).0,
        ),
    decreases refs.len() - i,
{
    if 0 <= i < refs.len() {
        if let Ok(id) = syntax::reference_id(refs[i]) {
            let kept = if i == 0 {
                protos
            } else {
                Seq::empty()
            };
            let own = match with_prototype {
                Some(p) => if i == refs.len() - 1 {
                    match syntax::reference_id(p) {
                        Ok(id) => Ok(kept.push(id)),
                        Err(e) => Err(e),
                    }
                } else {
                    Ok(kept)
                },
                None => Ok(kept),
            };
            if let Ok(prototypes) = own {
                if let Ok(context) = syntax::context_of(ss, id) {
                    let captures = if context.uses_backrefs || perform::any_backrefs(
                        ss,
                        prototypes,
                    ) {
                        Some((region, line))
                    } else {
                        None
                    };
                    lemma_levels(
                        root,
                        stack.push(LevelV { context: id, prototypes, captures }),
                        ss,
                        refs,
                        i + 1,
                        protos,
                        with_prototype,
                        region,
                        line,
                    );
                }
            }
        }
    }
}

proof fn lemma_performed_push(
    root: ContextId,
    st: StateV,
    ss: Seq<SyntaxReference>,
    line: Seq<char>,
    region: RegionV,
    refs: Seq<ReferenceV>,
    pop_count: usize,
    with_prototype: Option<ReferenceV>,
)
    requires
        steady(root, st),
        pop_count < st.stack.len(),
    ensures
        steady(
            root,
            perform::performed_push(st, ss, line, region, refs, pop_count, with_prototype).0,
        ),
{
    let base = perform::without_top(st.stack, pop_count as int);
    let depth = (base.len() as usize).saturating_add(refs.len() as usize);
    let protos = if pop_count > 0 && st.stack.len() > 0 {
        st.stack.last().prototypes
    } else {
        Seq::empty()
    };
    lemma_live(root, st.branch_points, depth as int);
    lemma_live_escapes(st.escape_stack, depth as int);
    lemma_levels(root, base, ss, refs, 0, protos, with_prototype, region, line);
}

proof fn lemma_performed(
    root: ContextId,
    st: StateV,
    ss: Seq<SyntaxReference>,
    line: Seq<char>,
    region: RegionV,
    op: MatchOperation,
    with_prototype: Option<ReferenceV>,
)
    requires
        steady(root, st),
        leaves_bottom(op, st.stack.len()),
        search::deepens(op) ==> st.stack.len() < search::MAX_STACK_DEPTH,
    ensures
        steady(root, perform::performed(st, ss, line, region, op, with_prototype).0),
{
    let base = perform::without_top(st.stack, pops(op) as int);
    lemma_live(root, st.branch_points, base.len() as int);
    lemma_live_escapes(st.escape_stack, base.len() as int);
    match op {
        MatchOperation::Push { ctx_refs, pop_count } => {
            let refs = views::of(ctx_refs@);
            lemma_performed_push(root, st, ss, line, region, refs, pop_count, with_prototype);
        },
        MatchOperation::SetTo { ctx_refs, pop_count } => {
            let refs = views::of(ctx_refs@);
            let n = semantics::set_pops(pop_count);
            lemma_performed_push(root, st, ss, line, region, refs, n, with_prototype);
        },
        MatchOperation::Embed { contexts, escape, pop_count } => {
            let refs = views::of(contexts@);
            lemma_levels(root, base, ss, refs, 0, Seq::empty(), with_prototype, region, line);
        },
        _ => {},
    }
}

proof fn lemma_unwound(
    root: ContextId,
    acc: Seq<Op>,
    ss: Seq<SyntaxReference>,
    stack: Seq<LevelV>,
    index: usize,
    target: usize,
)
    requires
        rests(root, stack),
        target > 0,
    ensures
        rests(root, embed::unwound_to(acc, ss, stack, index, target).0),
    decreases stack.len(),
{
    if stack.len() > target {
        if let Ok(context) = syntax::context_of(ss, stack.last().context) {
            let skip = semantics::replaced_by_below(ss, stack, stack.len() - 1);
            let next = semantics::frame_unwound(acc, index, context, skip);
            lemma_unwound(root, next, ss, stack.drop_last(), index, target);
        }
    }
}

/// What holds after a step.
pub open spec fn steady_step(root: ContextId, step: StepV) -> bool {
    steady(root, step.0)
}

proof fn lemma_escape(
    ss: Seq<SyntaxReference>,
    root: ContextId,
    line: Seq<char>,
    st: StateV,
    cur: CursorV,
    found: FoundV,
)
    requires
        steady(root, st),
    ensures
        steady_step(root, engine::escape_step(ss, line, st, cur, found)),
{
    let first = crate::regex::whole(found.regions).0;
    if found.escape_index < st.escape_stack.len() {
        let entry = st.escape_stack[found.escape_index as int];
        if let Ok(expected) = embed::expected_depth(ss, st.stack, 0, 0, false) {
            let a = embed::without_orphans(cur.ops, st.shadow, first, expected);
            let (stack, r) = embed::unwound_to(a, ss, st.stack, first, entry.stack_depth);
            lemma_unwound(root, a, ss, st.stack, first, entry.stack_depth);
            lemma_live(root, st.branch_points, stack.len() as int);
            let left = st.escape_stack.subrange(0, found.escape_index as int);
            assert forall|i: int| 0 <= i < left.len() implies (#[trigger] left[i]).stack_depth
                > 0 by {
                assert(left[i] == st.escape_stack[i]);
            }
        }
    }
}

proof fn lemma_alternative(
    root: ContextId,
    st: StateV,
    bps: Seq<BranchV>,
    index: int,
    alt: int,
)
    requires
        steady(root, st),
        steady_branches(root, bps),
        0 <= index < bps.len(),
    ensures
        steady(root, engine::alternative_taken(st, bps, index, alt).0),
{
    let bp = bps[index];
    lemma_updated(root, bps, index, BranchV { next_alternative: (alt + 1) as usize, ..bp });
}

proof fn lemma_tokens(
    fuel: nat,
    ss: Seq<SyntaxReference>,
    root: ContextId,
    line: Seq<char>,
    st: StateV,
    cur: CursorV,
)
    requires
        grounded(ss, root),
        steady(root, st),
        engine::tokens_parsed(fuel, ss, line, st, cur) is Some,
    ensures
        steady(root, (engine::tokens_parsed(fuel, ss, line, st, cur)->0).0),
    decreases fuel, 0int, 0int,
{
    let less = (fuel - 1) as nat;
    lemma_step(less, ss, root, line, st, cur);
    if let Some((st1, Ok((cur1, true)))) = engine::stepped(less, ss, line, st, cur) {
        lemma_tokens(less, ss, root, line, st1, cur1);
    }
}

proof fn lemma_line(
    fuel: nat,
    ss: Seq<SyntaxReference>,
    root: ContextId,
    st: StateV,
    line: Seq<char>,
    start_at: usize,
)
    requires
        grounded(ss, root),
        steady(root, st),
        engine::line_parsed(fuel, ss, st, line, start_at) is Some,
    ensures
        steady(root, (engine::line_parsed(fuel, ss, st, line, start_at)->0).0),
    decreases fuel, 1int, 0int,
{
    if let Ok(ops) = engine::opening(ss, st, start_at) {
        let cur = CursorV { start: start_at, ops, ..engine::fresh_cursor() };
        lemma_tokens(fuel, ss, root, line, engine::opened(st, start_at), cur);
    }
}

proof fn lemma_replay_lines(
    fuel: nat,
    ss: Seq<SyntaxReference>,
    root: ContextId,
    st: StateV,
    plan: ReplayPlanV,
    i: int,
    acc: Seq<Seq<Op>>,
)
    requires
        grounded(ss, root),
        steady(root, st),
        0 <= i <= plan.lines.len(),
        engine::replay_lines(fuel, ss, st, plan, i, acc) is Some,
    ensures
        steady(root, (engine::replay_lines(fuel, ss, st, plan, i, acc)->0).0),
    decreases fuel, 2int, plan.lines.len() - i,
{
    if i < plan.lines.len() {
        let start_at = if i == 0 {
            plan.resume
        } else {
            0
        };
        let entry = engine::replay_entry(st, plan, i);
        lemma_line(fuel, ss, root, entry, plan.lines[i], start_at);
        if let Some((st1, Ok(tail))) = engine::line_parsed(
            fuel,
            ss,
            entry,
            plan.lines[i],
            start_at,
        ) {
            let st2 = StateV {
                replay_ctx: st.replay_ctx,
                replay_prefix_ops: st.replay_prefix_ops,
                ..st1
            };
            let line_ops = if i == 0 {
                plan.prefix + tail
            } else {
                tail
            };
            lemma_replay_lines(fuel, ss, root, st2, plan, i + 1, acc.push(line_ops));
        }
    }
}

proof fn lemma_replayed(
    fuel: nat,
    ss: Seq<SyntaxReference>,
    root: ContextId,
    st: StateV,
    plan: ReplayPlanV,
)
    requires
        grounded(ss, root),
        steady(root, st),
        engine::replayed(fuel, ss, st, plan) is Some,
    ensures
        steady(root, (engine::replayed(fuel, ss, st, plan)->0).0),
    decreases fuel, 3int, 0int,
{
    lemma_replay_lines(fuel, ss, root, engine::replay_start(st), plan, 0, Seq::empty());
}

proof fn lemma_exhausted(
    fuel: nat,
    ss: Seq<SyntaxReference>,
    root: ContextId,
    st: StateV,
    cur: CursorV,
    index: int,
)
    requires
        grounded(ss, root),
        steady(root, st),
        0 <= index < st.branch_points.len(),
        engine::exhausted(fuel, ss, st, cur, index) is Some,
    ensures
        steady_step(root, engine::exhausted(fuel, ss, st, cur, index)->0),
    decreases fuel, 4int, 0int,
{
    let bp = st.branch_points[index];
    let st1 = StateV {
        branch_points: st.branch_points.remove(index),
        ..engine::rewound(st, bp)
    };
    assert(steady_branch(root, bp));
    lemma_removed(root, st.branch_points, index);
    if bp.line_number < engine::current_line(st) {
        lemma_replayed(fuel, ss, root, st1, engine::exhausted_plan(st, bp));
    }
}

proof fn lemma_alternative_replayed(
    fuel: nat,
    ss: Seq<SyntaxReference>,
    root: ContextId,
    st: StateV,
    bp: BranchV,
    alt: int,
)
    requires
        grounded(ss, root),
        steady(root, st),
        steady_branch(root, bp),
        engine::alternative_replayed(fuel, ss, st, bp, alt) is Some,
    ensures
        steady(root, (engine::alternative_replayed(fuel, ss, st, bp, alt)->0).0),
    decreases fuel, 4int, 0int,
{
    if let Ok(prefix) = engine::alternative_ops(bp.prefix_ops, ss, bp, alt) {
        lemma_replayed(fuel, ss, root, st, engine::alternative_plan(st, bp, prefix));
    }
}

proof fn lemma_forgotten(root: ContextId, st: StateV, index: int)
    requires
        steady(root, st),
    ensures
        steady(root, engine::prefix_forgotten(st, index)),
{
    if 0 <= index < st.branch_points.len() {
        let bp = st.branch_points[index];
        assert(steady_branch(root, bp));
        lemma_updated(root, st.branch_points, index, BranchV { ops_snapshot_len: 0, ..bp });
    }
}

#[verifier::rlimit(30)]
proof fn lemma_retried_across(
    fuel: nat,
    ss: Seq<SyntaxReference>,
    root: ContextId,
    st: StateV,
    index: int,
)
    requires
        grounded(ss, root),
        steady(root, st),
        0 <= index < st.branch_points.len(),
        engine::retried_across(fuel, ss, st, index) is Some,
    ensures
        steady_step(root, engine::retried_across(fuel, ss, st, index)->0),
    decreases fuel, 5int, 0int,
{
    let bp = st.branch_points[index];
    let snap = bp.pending_lines_snapshot_len;
    let info = engine::info_of(bp);
    let next = bp.next_alternative as int;
    assert(steady_branch(root, bp));
    let (st1, taken) = engine::alternative_taken(st, st.branch_points, index, next);
    lemma_alternative(root, st, st.branch_points, index, next);
    if taken is Ok {
        lemma_alternative_replayed(fuel, ss, root, st1, bp, next);
        if let Some((st2, Ok(replay))) = engine::alternative_replayed(fuel, ss, st1, bp, next) {
            if engine::jumps_to_field(bp, replay) {
                let field = engine::FIELD_ALTERNATIVE as int;
                let (st3, jumped) = engine::alternative_taken(
                    st2,
                    st1.branch_points,
                    index,
                    field,
                );
                lemma_alternative(root, st2, st1.branch_points, index, field);
                if jumped is Ok {
                    lemma_alternative_replayed(fuel, ss, root, st3, bp, field);
                    if let Some((st4, Ok(second))) = engine::alternative_replayed(
                        fuel,
                        ss,
                        st3,
                        bp,
                        field,
                    ) {
                        lemma_forgotten(root, engine::replay_taken(st4, info, snap, second), index);
                    }
                }
            } else {
                lemma_forgotten(root, engine::replay_taken(st2, info, snap, replay), index);
            }
        }
    }
}

proof fn lemma_retried_within(
    ss: Seq<SyntaxReference>,
    root: ContextId,
    line: Seq<char>,
    st: StateV,
    cur: CursorV,
    index: int,
)
    requires
        steady(root, st),
        0 <= index < st.branch_points.len(),
    ensures
        steady_step(root, engine::retried_within(ss, line, st, cur, index)),
{
    let bp = st.branch_points[index];
    let next = bp.next_alternative as int;
    assert(steady_branch(root, bp));
    let (st1, taken) = engine::alternative_taken(st, st.branch_points, index, next);
    lemma_alternative(root, st, st.branch_points, index, next);
    let kept = engine::ops_until(cur.ops, bp.ops_snapshot_len);
    lemma_updated(
        root,
        st1.branch_points,
        index,
        BranchV { ops_snapshot_len: kept.len() as usize, ..st1.branch_points[index] },
    );
}

proof fn lemma_failed(
    fuel: nat,
    ss: Seq<SyntaxReference>,
    root: ContextId,
    line: Seq<char>,
    st: StateV,
    cur: CursorV,
    name: Seq<char>,
)
    requires
        grounded(ss, root),
        steady(root, st),
        engine::failed(fuel, ss, line, st, cur, name) is Some,
    ensures
        steady_step(root, engine::failed(fuel, ss, line, st, cur, name)->0),
    decreases fuel, 5int, 1int,
{
    let n = st.branch_points.len() as int;
    window::lemma_latest(st.branch_points, n, name, st.stack.len() as int);
    if let Some(index) = engine::latest_branch(
        st.branch_points,
        n,
        name,
        st.stack.len() as int,
    ) {
        let bp = st.branch_points[index];
        if engine::current_line(st).saturating_sub(bp.line_number) > engine::MAX_BRANCH_AGE {
            lemma_removed(root, st.branch_points, index);
        } else if bp.next_alternative >= bp.alternatives.len() {
            lemma_exhausted(fuel, ss, root, st, cur, index);
        } else if bp.line_number < engine::current_line(st) {
            lemma_retried_across(fuel, ss, root, st, index);
        } else {
            lemma_retried_within(ss, root, line, st, cur, index);
        }
    }
}

#[verifier::rlimit(30)]
proof fn lemma_executed(
    fuel: nat,
    ss: Seq<SyntaxReference>,
    root: ContextId,
    line: Seq<char>,
    st: StateV,
    cur: CursorV,
    pat: MatchPattern,
    region: RegionV,
)
    requires
        steady(root, st),
        !(pat.operation is Fail),
        leaves_bottom(pat.operation, st.stack.len()),
        search::deepens(pat.operation) ==> st.stack.len() < search::MAX_STACK_DEPTH,
        engine::executed(fuel, ss, line, st, cur, pat, region) is Some,
    ensures
        steady_step(root, engine::executed(fuel, ss, line, st, cur, pat, region)->0),
{
    match pat.operation {
        MatchOperation::Branch { name, alternatives, pop_count } => {
            let bp = engine::new_branch(
                st,
                cur,
                pat,
                name@,
                views::of(alternatives@),
                pop_count,
                region,
            );
            let st1 = engine::with_branch(st, bp);
            let refs = engine::first_alternative(views::of(alternatives@));
            assert(steady_branch(root, bp));
            assert forall|i: int| 0 <= i < st1.branch_points.len() implies steady_branch(
                root,
                #[trigger] st1.branch_points[i],
            ) by {
                if i < st.branch_points.len() {
                    assert(st1.branch_points[i] == st.branch_points[i]);
                }
            }
            lemma_performed_push(
                root,
                st1,
                ss,
                line,
                region,
                refs,
                pop_count,
                views::opt(pat.with_prototype),
            );
        },
        _ => {
            lemma_performed(
                root,
                st,
                ss,
                line,
                region,
                pat.operation,
                views::opt(pat.with_prototype),
            );
        },
    }
}

#[verifier::rlimit(30)]
proof fn lemma_step(
    fuel: nat,
    ss: Seq<SyntaxReference>,
    root: ContextId,
    line: Seq<char>,
    st: StateV,
    cur: CursorV,
)
    requires
        grounded(ss, root),
        steady(root, st),
        engine::stepped(fuel, ss, line, st, cur) is Some,
    ensures
        steady_step(root, engine::stepped(fuel, ss, line, st, cur)->0),
    decreases fuel, 8int, 0int,
{
    let len = st.stack.len() as int;
    let st1 = StateV { proto_starts: engine::trimmed(st.proto_starts, len), ..st };
    let armed = engine::loop_armed(cur, len);
    lemma_best(fuel, ss, root, line, st1, cur, armed);
    if let Some(Ok((memory, Some(found)))) = search::best_match(
        fuel,
        ss,
        line,
        st1,
        cur.start,
        cur.memory,
        armed,
        cur.push_mark.1,
    ) {
        let cur1 = CursorV { memory, ..cur };
        match found.rule {
            None => {
                lemma_escape(ss, root, line, st1, cur1, found);
            },
            Some(rule) => if !found.would_loop {
                if let Ok(context) = syntax::context_of(ss, rule.0) {
                    if let Ok(pat) = syntax::rule_at(context, rule.1) {
                        assert(pops(pat.operation) <= 1) by {
                            assert(syntax::rule_at(
                                syntax::context_of(ss, rule.0)->Ok_0,
                                rule.1,
                            ) is Ok);
                        }
                        match pat.operation {
                            MatchOperation::Fail(name) => {
                                lemma_failed(fuel, ss, root, line, st1, cur1, name@);
                            },
                            _ => if !engine::eol_branch(line, st1, cur1, pat, found) {
                                lemma_executed(
                                    fuel,
                                    ss,
                                    root,
                                    line,
                                    engine::rule_entry(st1, found),
                                    engine::rule_cursor(st1, cur1, pat, found),
                                    pat,
                                    found.regions,
                                );
                            },
                        }
                    }
                }
            },
        }
    }
}

proof fn lemma_parsed(
    fuel: nat,
    ss: Seq<SyntaxReference>,
    root: ContextId,
    st: StateV,
    line: Seq<char>,
)
    requires
        grounded(ss, root),
        steady(root, st),
        parser::parsed(fuel, ss, st, line) is Some,
    ensures
        steady(root, (parser::parsed(fuel, ss, st, line)->0).0),
{
    reveal(parser::parsed);
    lemma_filtered(
        root,
        st.branch_points,
        |bp: BranchV| parser::is_young(bp, st.line_number),
    );
    lemma_line(fuel, ss, root, parser::entered(st), line, 0);
}

/// A state from which every call succeeds: it speaks only of contexts of the set,
/// and the bottom of its stack stays.
pub open spec fn safe(ss: Seq<SyntaxReference>, root: ContextId, st: StateV) -> bool {
    linked::knows(ss, st) && steady(root, st)
}

/// A fresh state is one.
pub proof fn law_fresh_state_is_safe(ss: Seq<SyntaxReference>, syntax: SyntaxReference)
    requires
        syntax::context_of(ss, syntax.start) is Ok,
    ensures
        safe(ss, syntax.start, parser::initial(parser::start_level(syntax))),
{
    linked::law_fresh_state_is_known(ss, syntax);
}

/// In a linked set whose first context is never popped, every call whose parse comes
/// to an end succeeds, and so does the next one.
pub proof fn law_every_call_succeeds(
    fuel: nat,
    ss: Seq<SyntaxReference>,
    root: ContextId,
    st: StateV,
    line: Seq<char>,
)
    requires
        linked::linked(ss),
        grounded(ss, root),
        safe(ss, root, st),
        parser::output_within(fuel, ss, st, line) is Some,
    ensures
        ({
            let (next, r) = parser::output_within(fuel, ss, st, line)->0;
            r is Ok && safe(ss, root, next)
        }),
{
    linked::law_only_popping_everything_fails(fuel, ss, st, line);
    lemma_parsed(fuel, ss, root, st, line);
}

/// Whether the parses of `lines[i..]` come to an end, one after the other.
#[verifier::opaque]
pub open spec fn all_end(ss: Seq<SyntaxReference>, st: StateV, lines: Seq<Seq<char>>, i: int) -> bool
    decreases lines.len() - i,
{
    if i < 0 || i >= lines.len() {
        true
    } else {
        parser::terminates(ss, st, lines[i]) && all_end(
            ss,
            parser::output_of(ss, st, lines[i]).0,
            lines,
            i + 1,
        )
    }
}

/// In a linked set whose first context is never popped, all lines whose parses come
/// to an end are parsed without an error.
pub proof fn law_all_lines_are_parsed(
    ss: Seq<SyntaxReference>,
    root: ContextId,
    st: StateV,
    lines: Seq<Seq<char>>,
    i: int,
    log: Seq<Seq<Op>>,
)
    requires
        linked::linked(ss),
        grounded(ss, root),
        safe(ss, root, st),
        0 <= i <= lines.len(),
        all_end(ss, st, lines, i),
    ensures
        committed::parsed_eagerly(ss, st, lines, i, log) is Some,
    decreases lines.len() - i,
{
    committed::lemma_eager_step(ss, st, lines, i, log);
    if i < lines.len() {
        reveal(all_end);
        let fuel = parser::enough(ss, st, lines[i]);
        let (next, r) = parser::output_of(ss, st, lines[i]);
        assert(parser::output_within(fuel, ss, st, lines[i]) == Some((next, r)));
        law_every_call_succeeds(fuel, ss, root, st, lines[i]);
        law_all_lines_are_parsed(
            ss,
            root,
            next,
            lines,
            i + 1,
            committed::extended(log, r->Ok_0),
        );
    }
}

/// In such a set, where no context clears scopes, every line gets one list of
/// operations, and all of them, once revised, apply to an empty stack without an
/// error.
pub proof fn law_all_lines_are_parsed_and_apply(
    ss: Seq<SyntaxReference>,
    syntax: SyntaxReference,
    lines: Seq<Seq<char>>,
)
    requires
        linked::linked(ss),
        grounded(ss, syntax.start),
        syntax::context_of(ss, syntax.start) is Ok,
        order::clears_nothing(ss),
        lines.len() < usize::MAX,
        all_end(ss, parser::initial(parser::start_level(syntax)), lines, 0),
    ensures
        committed::parsed_eagerly(
            ss,
            parser::initial(parser::start_level(syntax)),
            lines,
            0,
            Seq::empty(),
        ) matches Some((_, all)) && all.len() == lines.len() && lines::lines_apply(
            StackV { scopes: Seq::empty(), cleared: Seq::empty() },
            all,
            0,
        ),
{
    let st = parser::initial(parser::start_level(syntax));
    law_fresh_state_is_safe(ss, syntax);
    law_all_lines_are_parsed(ss, syntax.start, st, lines, 0, Seq::empty());
    lines::law_lines_apply(ss, syntax, lines);
}

} // verus!
