//! A parse that comes to an end within some number of steps does the same within
//! any larger number.

use crate::cache::CacheV;
use crate::engine;
use crate::engine::{CursorV, ReplayPlanV};
use crate::parser;
use crate::scope::Op;
use crate::search;
use crate::search::{ChainEntry, FoundV, QueryV, ScanV};
use crate::state::{BranchV, RegionV, StateV};
use crate::syntax;
use crate::syntax::{
    ContextId, MatchOperation, MatchPattern, Pattern, ReferenceV, RuleId, SyntaxReference,
};
use vstd::prelude::*;

verus! {

proof fn lemma_rules(f: nat, g: nat, ss: Seq<SyntaxReference>, id: ContextId, i: nat, acc: Seq<RuleId>)
    requires
        f <= g,
        syntax::rules_onto(f, ss, id, i, acc) is Some,
    ensures
        syntax::rules_onto(g, ss, id, i, acc) == syntax::rules_onto(f, ss, id, i, acc),
    decreases f, syntax::entry_count(ss, id) - i,
{
    match syntax::context_of(ss, id) {
        Err(_) => {},
        Ok(context) => if i < context.patterns@.len() {
            match context.patterns@[i as int] {
                Pattern::Match(_) => {
                    lemma_rules(f, g, ss, id, i + 1, acc.push((id, i as usize)));
                },
                Pattern::Include(r) => match r@ {
                    ReferenceV::Direct(inner) => {
                        lemma_rules((f - 1) as nat, (g - 1) as nat, ss, inner, 0, acc);
                        if let Some(Ok(rules)) = syntax::rules_onto(
                            (f - 1) as nat,
                            ss,
                            inner,
                            0,
                            acc,
                        ) {
                            lemma_rules(f, g, ss, id, i + 1, rules);
                        }
                    },
                    _ => {
                        lemma_rules(f, g, ss, id, i + 1, acc);
                    },
                },
            }
        },
    }
}

proof fn lemma_chain(
    f: nat,
    g: nat,
    s: ScanV,
    ss: Seq<SyntaxReference>,
    line: Seq<char>,
    st: StateV,
    q: QueryV,
    chain: Seq<ChainEntry>,
    k: int,
)
    requires
        f <= g,
        search::scan_chain(f, s, ss, line, st, q, chain, k) is Some,
    ensures
        search::scan_chain(g, s, ss, line, st, q, chain, k) == search::scan_chain(
            f,
            s,
            ss,
            line,
            st,
            q,
            chain,
            k,
        ),
    decreases chain.len() - k,
{
    if !(s.stop || k < 0 || k >= chain.len()) {
        lemma_rules(f, g, ss, chain[k].context, 0, Seq::empty());
        if let Some(Ok(rules)) = syntax::rules_onto(f, ss, chain[k].context, 0, Seq::empty()) {
            if let Ok(next) = search::scan_rules(s, ss, line, st, q, chain[k], rules, 0) {
                lemma_chain(f, g, next, ss, line, st, q, chain, k + 1);
            }
        }
    }
}

proof fn lemma_best(
    f: nat,
    g: nat,
    ss: Seq<SyntaxReference>,
    line: Seq<char>,
    st: StateV,
    start: usize,
    memory: CacheV,
    check_pop_loop: bool,
    pre_push_depth: usize,
)
    requires
        f <= g,
        search::best_match(
            f,
            ss,
            line,
            st,
            start,
            memory,
            check_pop_loop,
            pre_push_depth,
        ) is Some,
    ensures
        search::best_match(g, ss, line, st, start, memory, check_pop_loop, pre_push_depth)
            == search::best_match(
            f,
            ss,
            line,
            st,
            start,
            memory,
            check_pop_loop,
            pre_push_depth,
        ),
{
    if st.stack.len() > 0 {
        if let Ok(context) = syntax::context_of(ss, st.stack.last().context) {
            let (search_end, escape) = search::escape_found(
                st.escape_stack,
                0,
                line,
                start,
                crate::text::byte_len(line),
                None,
            );
            if !(escape is Some && search_end == start) {
                let q = QueryV { start, search_end, check_pop_loop, pre_push_depth };
                let scan = ScanV {
                    memory,
                    min_start: usize::MAX,
                    best: None,
                    looping: false,
                    stop: false,
                };
                let chain = search::context_chain(st.stack, st.proto_starts, context.prototype);
                lemma_chain(f, g, scan, ss, line, st, q, chain, 0);
            }
        }
    }
}

proof fn lemma_tokens(
    f: nat,
    g: nat,
    ss: Seq<SyntaxReference>,
    line: Seq<char>,
    st: StateV,
    cur: CursorV,
)
    requires
        f <= g,
        engine::tokens_parsed(f, ss, line, st, cur) is Some,
    ensures
        engine::tokens_parsed(g, ss, line, st, cur) == engine::tokens_parsed(f, ss, line, st, cur),
    decreases f, 0int, 0int,
{
    lemma_step((f - 1) as nat, (g - 1) as nat, ss, line, st, cur);
    if let Some((st1, Ok((cur1, true)))) = engine::stepped((f - 1) as nat, ss, line, st, cur) {
        lemma_tokens((f - 1) as nat, (g - 1) as nat, ss, line, st1, cur1);
    }
}

proof fn lemma_line(
    f: nat,
    g: nat,
    ss: Seq<SyntaxReference>,
    st: StateV,
    line: Seq<char>,
    start_at: usize,
)
    requires
        f <= g,
        engine::line_parsed(f, ss, st, line, start_at) is Some,
    ensures
        engine::line_parsed(g, ss, st, line, start_at) == engine::line_parsed(
            f,
            ss,
            st,
            line,
            start_at,
        ),
    decreases f, 1int, 0int,
{
    match engine::opening(ss, st, start_at) {
        Err(_) => {},
        Ok(ops) => {
            lemma_tokens(
                f,
                g,
                ss,
                line,
                engine::opened(st, start_at),
                CursorV { start: start_at, ops, ..engine::fresh_cursor() },
            );
        },
    }
}

proof fn lemma_replay_lines(
    f: nat,
    g: nat,
    ss: Seq<SyntaxReference>,
    st: StateV,
    plan: ReplayPlanV,
    i: int,
    acc: Seq<Seq<Op>>,
)
    requires
        f <= g,
        engine::replay_lines(f, ss, st, plan, i, acc) is Some,
    ensures
        engine::replay_lines(g, ss, st, plan, i, acc) == engine::replay_lines(
            f,
            ss,
            st,
            plan,
            i,
            acc,
        ),
    decreases f, 2int, plan.lines.len() - i,
{
    if 0 <= i < plan.lines.len() {
        let start_at = if i == 0 {
            plan.resume
        } else {
            0
        };
        let entry = engine::replay_entry(st, plan, i);
        lemma_line(f, g, ss, entry, plan.lines[i], start_at);
        if let Some((st1, Ok(tail))) = engine::line_parsed(
            f,
            ss,
            entry,
            plan.lines[i],
            start_at,
        ) {
            let st2 = StateV {
                replay_ctx: st.replay_ctx,
                replay_prefix_ops: st.replay_prefix_ops,
                ..st1
            };
            let line_ops = if i == 0 {
                plan.prefix + tail
            } else {
                tail
            };
            lemma_replay_lines(f, g, ss, st2, plan, i + 1, acc.push(line_ops));
        }
    }
}

proof fn lemma_replayed(f: nat, g: nat, ss: Seq<SyntaxReference>, st: StateV, plan: ReplayPlanV)
    requires
        f <= g,
        engine::replayed(f, ss, st, plan) is Some,
    ensures
        engine::replayed(g, ss, st, plan) == engine::replayed(f, ss, st, plan),
    decreases f, 3int, 0int,
{
    lemma_replay_lines(f, g, ss, engine::replay_start(st), plan, 0, Seq::empty());
}

proof fn lemma_exhausted(
    f: nat,
    g: nat,
    ss: Seq<SyntaxReference>,
    st: StateV,
    cur: CursorV,
    index: int,
)
    requires
        f <= g,
        engine::exhausted(f, ss, st, cur, index) is Some,
    ensures
        engine::exhausted(g, ss, st, cur, index) == engine::exhausted(f, ss, st, cur, index),
    decreases f, 4int, 0int,
{
    let bp = st.branch_points[index];
    if bp.line_number < engine::current_line(st) {
        let st1 = StateV {
            branch_points: st.branch_points.remove(index),
            ..engine::rewound(st, bp)
        };
        lemma_replayed(f, g, ss, st1, engine::exhausted_plan(st, bp));
    }
}

proof fn lemma_alternative_replayed(
    f: nat,
    g: nat,
    ss: Seq<SyntaxReference>,
    st: StateV,
    bp: BranchV,
    alt: int,
)
    requires
        f <= g,
        engine::alternative_replayed(f, ss, st, bp, alt) is Some,
    ensures
        engine::alternative_replayed(g, ss, st, bp, alt) == engine::alternative_replayed(
            f,
            ss,
            st,
            bp,
            alt,
        ),
    decreases f, 4int, 0int,
{
    if let Ok(prefix) = engine::alternative_ops(bp.prefix_ops, ss, bp, alt) {
        lemma_replayed(f, g, ss, st, engine::alternative_plan(st, bp, prefix));
    }
}

#[verifier::rlimit(40)]
proof fn lemma_retried_across(f: nat, g: nat, ss: Seq<SyntaxReference>, st: StateV, index: int)
    requires
        f <= g,
        engine::retried_across(f, ss, st, index) is Some,
    ensures
        engine::retried_across(g, ss, st, index) == engine::retried_across(f, ss, st, index),
    decreases f, 5int, 0int,
{
    let bp = st.branch_points[index];
    let next = bp.next_alternative as int;
    let (st1, taken) = engine::alternative_taken(st, st.branch_points, index, next);
    if taken is Ok {
        lemma_alternative_replayed(f, g, ss, st1, bp, next);
        if let Some((st2, Ok(replay))) = engine::alternative_replayed(f, ss, st1, bp, next) {
            if engine::jumps_to_field(bp, replay) {
                let field = engine::FIELD_ALTERNATIVE as int;
                let (st3, jumped) = engine::alternative_taken(
                    st2,
                    st1.branch_points,
                    index,
                    field,
                );
                if jumped is Ok {
                    lemma_alternative_replayed(f, g, ss, st3, bp, field);
                }
            }
        }
    }
}

proof fn lemma_failed(
    f: nat,
    g: nat,
    ss: Seq<SyntaxReference>,
    line: Seq<char>,
    st: StateV,
    cur: CursorV,
    name: Seq<char>,
)
    requires
        f <= g,
        engine::failed(f, ss, line, st, cur, name) is Some,
    ensures
        engine::failed(g, ss, line, st, cur, name) == engine::failed(f, ss, line, st, cur, name),
    decreases f, 5int, 1int,
{
    let found = engine::latest_branch(
        st.branch_points,
        st.branch_points.len() as int,
        name,
        st.stack.len() as int,
    );
    if let Some(index) = found {
        let bp = st.branch_points[index];
        if engine::current_line(st).saturating_sub(bp.line_number) > engine::MAX_BRANCH_AGE {
        } else if bp.next_alternative >= bp.alternatives.len() {
            lemma_exhausted(f, g, ss, st, cur, index);
        } else if bp.line_number < engine::current_line(st) {
            lemma_retried_across(f, g, ss, st, index);
        }
    }
}

proof fn lemma_executed(
    f: nat,
    g: nat,
    ss: Seq<SyntaxReference>,
    line: Seq<char>,
    st: StateV,
    cur: CursorV,
    pat: MatchPattern,
    region: RegionV,
)
    requires
        f <= g,
        engine::executed(f, ss, line, st, cur, pat, region) is Some,
    ensures
        engine::executed(g, ss, line, st, cur, pat, region) == engine::executed(
            f,
            ss,
            line,
            st,
            cur,
            pat,
            region,
        ),
    decreases f, 6int, 0int,
{
    match pat.operation {
        MatchOperation::Fail(name) => {
            lemma_failed(f, g, ss, line, st, cur, name@);
        },
        _ => {},
    }
}

proof fn lemma_rule_step(
    f: nat,
    g: nat,
    ss: Seq<SyntaxReference>,
    line: Seq<char>,
    st: StateV,
    cur: CursorV,
    pat: MatchPattern,
    found: FoundV,
)
    requires
        f <= g,
        engine::rule_step(f, ss, line, st, cur, pat, found) is Some,
    ensures
        engine::rule_step(g, ss, line, st, cur, pat, found) == engine::rule_step(
            f,
            ss,
            line,
            st,
            cur,
            pat,
            found,
        ),
    decreases f, 7int, 0int,
{
    if pat.operation is Fail {
        lemma_executed(f, g, ss, line, st, cur, pat, found.regions);
    } else if !engine::eol_branch(line, st, cur, pat, found) {
        lemma_executed(
            f,
            g,
            ss,
            line,
            engine::rule_entry(st, found),
            engine::rule_cursor(st, cur, pat, found),
            pat,
            found.regions,
        );
    }
}

#[verifier::rlimit(40)]
proof fn lemma_step(
    f: nat,
    g: nat,
    ss: Seq<SyntaxReference>,
    line: Seq<char>,
    st: StateV,
    cur: CursorV,
)
    requires
        f <= g,
        engine::stepped(f, ss, line, st, cur) is Some,
    ensures
        engine::stepped(g, ss, line, st, cur) == engine::stepped(f, ss, line, st, cur),
    decreases f, 8int, 0int,
{
    let len = st.stack.len() as int;
    let st1 = StateV { proto_starts: engine::trimmed(st.proto_starts, len), ..st };
    let armed = engine::loop_armed(cur, len);
    let pre = cur.push_mark.1;
    lemma_best(f, g, ss, line, st1, cur.start, cur.memory, armed, pre);
    if let Some(Ok((memory, Some(found)))) = search::best_match(
        f,
        ss,
        line,
        st1,
        cur.start,
        cur.memory,
        armed,
        pre,
    ) {
        let cur1 = CursorV { memory, ..cur };
        if let Some(rule) = found.rule {
            if !found.would_loop {
                if let Ok(context) = syntax::context_of(ss, rule.0) {
                    if let Ok(pat) = syntax::rule_at(context, rule.1) {
                        lemma_rule_step(f, g, ss, line, st1, cur1, pat, found);
                    }
                }
            }
        }
    }
}

proof fn lemma_parsed(f: nat, g: nat, ss: Seq<SyntaxReference>, st: StateV, line: Seq<char>)
    requires
        f <= g,
        parser::parsed(f, ss, st, line) is Some,
    ensures
        parser::parsed(g, ss, st, line) == parser::parsed(f, ss, st, line),
{
    reveal(parser::parsed);
    lemma_line(f, g, ss, parser::entered(st), line, 0);
}

/// How a line parses does not depend on how many steps are allowed: with more
/// steps than a parse needs, it comes out the same.
pub proof fn law_more_steps_change_nothing(
    f: nat,
    g: nat,
    ss: Seq<SyntaxReference>,
    st: StateV,
    line: Seq<char>,
)
    requires
        f <= g,
        parser::output_within(f, ss, st, line) is Some,
    ensures
        parser::output_within(g, ss, st, line) == parser::output_within(f, ss, st, line),
{
    if st.stack.len() > 0 {
        lemma_parsed(f, g, ss, st, line);
    }
}

/// A parse that comes to an end within some number of steps is the parse that
/// `parse_line` performs.
pub proof fn law_output_is_unique(f: nat, ss: Seq<SyntaxReference>, st: StateV, line: Seq<char>)
    requires
        parser::output_within(f, ss, st, line) is Some,
    ensures
        parser::terminates(ss, st, line),
        parser::output_within(f, ss, st, line) == Some(parser::output_of(ss, st, line)),
{
    let g = parser::enough(ss, st, line);
    assert(parser::output_within(g, ss, st, line) is Some);
    if f <= g {
        law_more_steps_change_nothing(f, g, ss, st, line);
    } else {
        law_more_steps_change_nothing(g, f, ss, st, line);
    }
}

} // verus!
