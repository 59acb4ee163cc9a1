//! Lines on which nothing fails: the operations come in order by themselves.

use crate::cache;
use crate::cache::CacheV;
use crate::captures;
use crate::embed;
use crate::engine;
use crate::engine::CursorV;
use crate::order;
use crate::parser;
use crate::perform;
use crate::regex;
use crate::scope::{Op, Scope};
use crate::search;
use crate::search::{ChainEntry, FoundV, QueryV, ScanV};
use crate::state;
use crate::state::{EscapeV, RegionV, StateV};
use crate::syntax;
use crate::syntax::{MatchOperation, MatchPattern, RuleId, SyntaxReference};
use crate::text;
use crate::views;
use vstd::prelude::*;

verus! {

/// Whether a mapping gives scopes to the whole match only.
pub open spec fn whole_only(mapping: Option<Seq<(usize, Seq<Scope>)>>) -> bool {
    mapping matches Some(m) ==> forall|i: int| 0 <= i < m.len() ==> (#[trigger] m[i]).0 == 0
}

/// Whether a rule does not fail, and the escape of an `embed` colours only the
/// whole match.
pub open spec fn ordinary_rule(pat: MatchPattern) -> bool {
    match pat.operation {
        MatchOperation::Fail(_) => false,
        MatchOperation::Embed { contexts, escape, pop_count } => whole_only(
            state::mapping_view(escape.escape_captures),
        ),
        _ => true,
    }
}

/// Whether this holds of all rules of the set.
pub open spec fn ordinary(ss: Seq<SyntaxReference>) -> bool {
    forall|id: syntax::ContextId, index: usize| #[trigger]
        syntax::rule_at(syntax::context_of(ss, id)->Ok_0, index) matches Ok(pat) ==> (
        syntax::context_of(ss, id) is Ok ==> ordinary_rule(pat))
}

/// Whether the escapes that a state waits for colour only the whole match.
pub open spec fn plain_escapes(escapes: Seq<EscapeV>) -> bool {
    forall|i: int| 0 <= i < escapes.len() ==> whole_only((#[trigger] escapes[i]).captures)
}

/// Whether the remembered matches lie within the line.
pub open spec fn remembers_within(line: Seq<char>, memory: CacheV) -> bool {
    forall|key: cache::RuleKey| #[trigger]
        memory.contains_key(key) && memory[key] is Some ==> regex::whole(memory[key]->0).0
            <= regex::whole(memory[key]->0).1 <= text::byte_len(line)
}

/// What holds of the cursor at every step: the operations so far are in order, and
/// lie neither after the cursor nor after the end of the line.
pub open spec fn ready(line: Seq<char>, cur: CursorV) -> bool {
    &&& order::in_order(cur.ops)
    &&& order::up_to(cur.ops, cur.start)
    &&& order::up_to(cur.ops, text::byte_len(line))
    &&& remembers_within(line, cur.memory)
}

/// Whether a match starts at or after `start` and ends within the line.
pub open spec fn found_within(line: Seq<char>, start: usize, region: RegionV) -> bool {
    start <= regex::whole(region).0 <= regex::whole(region).1 <= text::byte_len(line)
}

spec fn scan_ok(line: Seq<char>, s: ScanV, start: usize) -> bool {
    &&& remembers_within(line, s.memory)
    &&& s.best matches Some(found) ==> found_within(line, start, found.regions)
}

proof fn lemma_scan_rule(
    s: ScanV,
    ss: Seq<SyntaxReference>,
    line: Seq<char>,
    st: StateV,
    q: QueryV,
    entry: ChainEntry,
    rule: RuleId,
)
    requires
        q.search_end <= text::byte_len(line),
        scan_ok(line, s, q.start),
    ensures
        search::scan_rule(s, ss, line, st, q, entry, rule) matches Ok(next) ==> scan_ok(
            line,
            next,
            q.start,
        ),
{
    if let Ok(context) = syntax::context_of(ss, rule.0) {
        if let Ok(pat) = syntax::rule_at(context, rule.1) {
            let captures = search::entry_captures(st.stack, entry);
            let (memory, found) = search::searched(
                line,
                q.start,
                q.search_end,
                rule,
                pat,
                captures,
                st.stack.len() as int,
                s.memory,
            );
            let key = cache::key_of(rule);
            assert forall|k: cache::RuleKey| #[trigger]
                memory.contains_key(k) && memory[k] is Some implies regex::whole(memory[k]->0).0
                <= regex::whole(memory[k]->0).1 <= text::byte_len(line) by {
                if k != key {
                    assert(s.memory.contains_key(k));
                } else if s.memory.contains_key(key) && memory == s.memory {
                    assert(s.memory.contains_key(k));
                }
            }
            if s.memory.contains_key(key) {
                assert(s.memory[key] is Some ==> regex::whole(s.memory[key]->0).0 <= regex::whole(
                    s.memory[key]->0,
                ).1 <= text::byte_len(line));
            }
        }
    }
}

proof fn lemma_scan_rules(
    s: ScanV,
    ss: Seq<SyntaxReference>,
    line: Seq<char>,
    st: StateV,
    q: QueryV,
    entry: ChainEntry,
    rules: Seq<RuleId>,
    j: int,
)
    requires
        q.search_end <= text::byte_len(line),
        scan_ok(line, s, q.start),
    ensures
        search::scan_rules(s, ss, line, st, q, entry, rules, j) matches Ok(next) ==> scan_ok(
            line,
            next,
            q.start,
        ),
    decreases rules.len() - j,
{
    if !(s.stop || j < 0 || j >= rules.len()) {
        lemma_scan_rule(s, ss, line, st, q, entry, rules[j]);
        if let Ok(next) = search::scan_rule(s, ss, line, st, q, entry, rules[j]) {
            lemma_scan_rules(next, ss, line, st, q, entry, rules, j + 1);
        }
    }
}

proof fn lemma_scan_chain(
    fuel: nat,
    s: ScanV,
    ss: Seq<SyntaxReference>,
    line: Seq<char>,
    st: StateV,
    q: QueryV,
    chain: Seq<ChainEntry>,
    k: int,
)
    requires
        q.search_end <= text::byte_len(line),
        scan_ok(line, s, q.start),
    ensures
        search::scan_chain(fuel, s, ss, line, st, q, chain, k) matches Some(Ok(next)) ==> scan_ok(
            line,
            next,
            q.start,
        ),
    decreases chain.len() - k,
{
    if !(s.stop || k < 0 || k >= chain.len()) {
        if let Some(Ok(rules)) = syntax::rules_onto(fuel, ss, chain[k].context, 0, Seq::empty()) {
            lemma_scan_rules(s, ss, line, st, q, chain[k], rules, 0);
            if let Ok(next) = search::scan_rules(s, ss, line, st, q, chain[k], rules, 0) {
                lemma_scan_chain(fuel, next, ss, line, st, q, chain, k + 1);
            }
        }
    }
}

proof fn lemma_escape_found(
    escapes: Seq<EscapeV>,
    i: int,
    line: Seq<char>,
    start: usize,
    end: usize,
    best: Option<(usize, RegionV)>,
)
    requires
        end <= text::byte_len(line),
        best matches Some((_, region)) ==> found_within(line, start, region),
    ensures
        search::escape_found(escapes, i, line, start, end, best).0 <= text::byte_len(line),
        search::escape_found(escapes, i, line, start, end, best).1 matches Some((_, region))
            ==> found_within(line, start, region),
    decreases escapes.len() - i,
{
    if 0 <= i < escapes.len() {
        match regex::search(
            search::escape_expression(escapes[i]),
            line,
            start,
            text::byte_len(line),
        ) {
            Some(region) => if regex::whole(region).0 < end {
                lemma_escape_found(
                    escapes,
                    i + 1,
                    line,
                    start,
                    regex::whole(region).0,
                    Some((i as usize, region)),
                );
            } else {
                lemma_escape_found(escapes, i + 1, line, start, end, best);
            },
            None => {
                lemma_escape_found(escapes, i + 1, line, start, end, best);
            },
        }
    }
}

/// The best match starts at or after the start of the search and ends within the
/// line.
proof fn lemma_best(
    fuel: nat,
    ss: Seq<SyntaxReference>,
    line: Seq<char>,
    st: StateV,
    start: usize,
    memory: CacheV,
    check_pop_loop: bool,
    pre_push_depth: usize,
)
    requires
        remembers_within(line, memory),
    ensures
        search::best_match(fuel, ss, line, st, start, memory, check_pop_loop, pre_push_depth)
            matches Some(Ok((next, best))) ==> {
            &&& remembers_within(line, next)
            &&& best matches Some(found) ==> found_within(line, start, found.regions)
        },
{
    if st.stack.len() > 0 {
        if let Ok(context) = syntax::context_of(ss, st.stack.last().context) {
            let all = text::byte_len(line);
            lemma_escape_found(st.escape_stack, 0, line, start, all, None);
            let (search_end, escape) = search::escape_found(
                st.escape_stack,
                0,
                line,
                start,
                all,
                None,
            );
            let q = QueryV { start, search_end, check_pop_loop, pre_push_depth };
            let scan = ScanV {
                memory,
                min_start: usize::MAX,
                best: None,
                looping: false,
                stop: false,
            };
            let chain = search::context_chain(st.stack, st.proto_starts, context.prototype);
            lemma_scan_chain(fuel, scan, ss, line, st, q, chain, 0);
        }
    }
}

proof fn lemma_whole_marks(
    acc: Seq<captures::Mark>,
    mapping: Seq<(usize, Seq<Scope>)>,
    i: int,
    region: RegionV,
)
    requires
        forall|k: int| 0 <= k < mapping.len() ==> (#[trigger] mapping[k]).0 == 0,
    ensures
        captures::mapping_marks(acc, mapping, i, region, None) == captures::mapping_marks(
            acc,
            mapping,
            i,
            region,
            Some(regex::whole(region)),
        ),
    decreases mapping.len() - i,
{
    if 0 <= i < mapping.len() {
        assert(mapping[i].0 == 0);
        let next = match regex::span(region, 0) {
            Some((s, e)) => captures::group_marks(acc, s, e, mapping[i].1),
            None => acc,
        };
        lemma_whole_marks(next, mapping, i + 1, region);
    }
}

proof fn lemma_whole_ops(mapping: Option<Seq<(usize, Seq<Scope>)>>, region: RegionV)
    requires
        whole_only(mapping),
    ensures
        captures::group_ops(mapping, region, false) == captures::group_ops(mapping, region, true),
{
    if let Some(m) = mapping {
        lemma_whole_marks(Seq::empty(), m, 0, region);
    }
}

proof fn lemma_live(escapes: Seq<EscapeV>, depth: int)
    requires
        plain_escapes(escapes),
    ensures
        plain_escapes(perform::live_escapes(escapes, depth)),
    decreases escapes.len(),
{
    reveal(Seq::filter);
    let live = perform::live_escapes(escapes, depth);
    if escapes.len() > 0 {
        let front = escapes.drop_last();
        assert forall|i: int| 0 <= i < front.len() implies whole_only(
            (#[trigger] front[i]).captures,
        ) by {
            assert(front[i] == escapes[i]);
        }
        lemma_live(front, depth);
        assert(whole_only(escapes[escapes.len() - 1].captures));
        assert forall|i: int| 0 <= i < live.len() implies whole_only(
            (#[trigger] live[i]).captures,
        ) by {
            let kept = perform::live_escapes(front, depth);
            if i < kept.len() {
                assert(live[i] == kept[i]);
            }
        }
    }
}

proof fn lemma_performed(
    st: StateV,
    ss: Seq<SyntaxReference>,
    line: Seq<char>,
    region: RegionV,
    pat: MatchPattern,
)
    requires
        ordinary_rule(pat),
        plain_escapes(st.escape_stack),
    ensures
        plain_escapes(
            perform::performed(
                st,
                ss,
                line,
                region,
                pat.operation,
                views::opt(pat.with_prototype),
            ).0.escape_stack,
        ),
{
    match pat.operation {
        MatchOperation::Push { ctx_refs, pop_count } => {
            lemma_pushed(st, ctx_refs@.len(), pop_count);
        },
        MatchOperation::SetTo { ctx_refs, pop_count } => {
            lemma_pushed(st, ctx_refs@.len(), crate::semantics::set_pops(pop_count));
        },
        MatchOperation::Embed { contexts, escape, pop_count } => {
            let base = perform::without_top(st.stack, pop_count as int);
            lemma_live(st.escape_stack, base.len() as int);
        },
        MatchOperation::Pop(n) => {
            let base = perform::without_top(st.stack, n as int);
            lemma_live(st.escape_stack, base.len() as int);
        },
        _ => {},
    }
}

proof fn lemma_pushed(st: StateV, width: nat, pop_count: usize)
    requires
        plain_escapes(st.escape_stack),
    ensures
        ({
            let base = perform::without_top(st.stack, pop_count as int);
            let depth = (base.len() as usize).saturating_add(width as usize);
            plain_escapes(perform::live_escapes(st.escape_stack, depth as int))
        }),
{
    let base = perform::without_top(st.stack, pop_count as int);
    let depth = (base.len() as usize).saturating_add(width as usize);
    lemma_live(st.escape_stack, depth as int);
}

#[verifier::rlimit(30)]
proof fn lemma_escape(
    ss: Seq<SyntaxReference>,
    line: Seq<char>,
    st: StateV,
    cur: CursorV,
    found: FoundV,
)
    requires
        plain_escapes(st.escape_stack),
        ready(line, cur),
        found_within(line, cur.start, found.regions),
    ensures
        ({
            let (next, r) = engine::escape_step(ss, line, st, cur, found);
            r matches Ok((cur1, _)) ==> plain_escapes(next.escape_stack) && ready(line, cur1)
        }),
{
    let (first, last) = regex::whole(found.regions);
    order::lemma_next_char(line, cur.start);
    if found.escape_index < st.escape_stack.len() {
        let entry = st.escape_stack[found.escape_index as int];
        if let Ok(expected) = embed::expected_depth(ss, st.stack, 0, 0, false) {
            let a = embed::without_orphans(cur.ops, st.shadow, first, expected);
            order::lemma_unwound_to(a, ss, st.stack, first, entry.stack_depth);
            let (stack, r) = embed::unwound_to(a, ss, st.stack, first, entry.stack_depth);
            if let Ok(b) = r {
                let more = captures::group_ops(entry.captures, found.regions, true);
                lemma_whole_ops(entry.captures, found.regions);
                captures::law_group_ops_in_order(entry.captures, found.regions, true);
                captures::law_clipped_groups_stay_within(entry.captures, found.regions, true);
                order::lemma_grown(cur.ops, a, b, first, first, first);
                order::lemma_colored(b, more, first, last);
                order::lemma_grown(cur.ops, b, b + more, first, first, last);
                order::lemma_tidied(cur.ops, b + more, cur.start, first, last);
            }
        }
    }
}

/// A match at `region`, the operations before it lying at or before `before`.
#[verifier::rlimit(40)]
proof fn lemma_executed(
    fuel: nat,
    ss: Seq<SyntaxReference>,
    line: Seq<char>,
    st: StateV,
    cur: CursorV,
    pat: MatchPattern,
    region: RegionV,
    before: usize,
)
    requires
        ordinary_rule(pat),
        plain_escapes(st.escape_stack),
        order::in_order(cur.ops),
        order::up_to(cur.ops, before),
        remembers_within(line, cur.memory),
        found_within(line, before, region),
        cur.start == regex::whole(region).1,
        engine::executed(fuel, ss, line, st, cur, pat, region) is Some,
    ensures
        ({
            let (next, r) = engine::executed(fuel, ss, line, st, cur, pat, region)->0;
            r matches Ok((cur1, _)) ==> plain_escapes(next.escape_stack) && ready(line, cur1)
        }),
{
    let (first, last) = regex::whole(region);
    match pat.operation {
        MatchOperation::Branch { name, alternatives, pop_count } => {
            let mapping = state::mapping_view(pat.captures);
            let more = captures::group_ops(mapping, region, true);
            captures::law_group_ops_in_order(mapping, region, true);
            captures::law_clipped_groups_stay_within(mapping, region, true);
            let refs = engine::first_alternative(views::of(alternatives@));
            lemma_pushed(st, refs.len(), pop_count);
            order::lemma_branch_ops(
                cur.ops,
                ss,
                st.stack,
                first,
                last,
                pat.scope@,
                more,
                refs,
                pop_count,
            );
            if let Ok(ops) = engine::branch_ops(
                cur.ops,
                ss,
                st.stack,
                first,
                last,
                pat.scope@,
                more,
                refs,
                pop_count,
            ) {
                order::lemma_tidied(cur.ops, ops, before, first, last);
            }
        },
        _ => if st.stack.len() > 0 {
            if let Ok(context) = syntax::context_of(ss, st.stack.last().context) {
                order::lemma_rule_ops(cur.ops, ss, st.stack, context, pat, region);
                if let Ok(ops) = engine::rule_ops(
                    cur.ops,
                    ss,
                    st.stack,
                    context,
                    pat,
                    region,
                ) {
                    order::lemma_tidied(cur.ops, ops, before, first, last);
                }
                lemma_performed(st, ss, line, region, pat);
            }
        },
    }
}

#[verifier::rlimit(30)]
proof fn lemma_step(
    fuel: nat,
    ss: Seq<SyntaxReference>,
    line: Seq<char>,
    st: StateV,
    cur: CursorV,
)
    requires
        ordinary(ss),
        plain_escapes(st.escape_stack),
        ready(line, cur),
        engine::stepped(fuel, ss, line, st, cur) is Some,
    ensures
        ({
            let (next, r) = engine::stepped(fuel, ss, line, st, cur)->0;
            r matches Ok((cur1, _)) ==> plain_escapes(next.escape_stack) && ready(line, cur1)
        }),
{
    let len = st.stack.len() as int;
    let st1 = StateV { proto_starts: engine::trimmed(st.proto_starts, len), ..st };
    let armed = engine::loop_armed(cur, len);
    let pre = cur.push_mark.1;
    lemma_best(fuel, ss, line, st1, cur.start, cur.memory, armed, pre);
    order::lemma_next_char(line, cur.start);
    if let Some(Ok((memory, Some(found)))) = search::best_match(
        fuel,
        ss,
        line,
        st1,
        cur.start,
        cur.memory,
        armed,
        pre,
    ) {
        let cur1 = CursorV { memory, ..cur };
        match found.rule {
            None => {
                lemma_escape(ss, line, st1, cur1, found);
            },
            Some(rule) => if !found.would_loop {
                if let Ok(context) = syntax::context_of(ss, rule.0) {
                    if let Ok(pat) = syntax::rule_at(context, rule.1) {
                        assert(ordinary_rule(pat)) by {
                            assert(syntax::rule_at(
                                syntax::context_of(ss, rule.0)->Ok_0,
                                rule.1,
                            ) is Ok);
                        }
                        if !engine::eol_branch(line, st1, cur1, pat, found) {
                            lemma_executed(
                                fuel,
                                ss,
                                line,
                                engine::rule_entry(st1, found),
                                engine::rule_cursor(st1, cur1, pat, found),
                                pat,
                                found.regions,
                                cur.start,
                            );
                        }
                    }
                }
            },
        }
    }
}

proof fn lemma_tokens(
    fuel: nat,
    ss: Seq<SyntaxReference>,
    line: Seq<char>,
    st: StateV,
    cur: CursorV,
)
    requires
        ordinary(ss),
        plain_escapes(st.escape_stack),
        ready(line, cur),
        engine::tokens_parsed(fuel, ss, line, st, cur) is Some,
    ensures
        ({
            let (next, r) = engine::tokens_parsed(fuel, ss, line, st, cur)->0;
            r matches Ok(ops) ==> {
                &&& plain_escapes(next.escape_stack)
                &&& order::in_order(ops)
                &&& order::up_to(ops, text::byte_len(line))
            }
        }),
    decreases fuel,
{
    let less = (fuel - 1) as nat;
    lemma_step(less, ss, line, st, cur);
    if let Some((st1, Ok((cur1, true)))) = engine::stepped(less, ss, line, st, cur) {
        lemma_tokens(less, ss, line, st1, cur1);
    }
}

proof fn lemma_parsed(fuel: nat, ss: Seq<SyntaxReference>, st: StateV, line: Seq<char>)
    requires
        ordinary(ss),
        plain_escapes(st.escape_stack),
        parser::parsed(fuel, ss, st, line) is Some,
    ensures
        ({
            let (next, r) = parser::parsed(fuel, ss, st, line)->0;
            r matches Ok(ops) ==> {
                &&& plain_escapes(next.escape_stack)
                &&& order::in_order(ops)
                &&& order::up_to(ops, text::byte_len(line))
            }
        }),
{
    reveal(parser::parsed);
    let e = parser::entered(st);
    if let Ok(ops) = engine::opening(ss, e, 0) {
        let cur = CursorV { start: 0, ops, ..engine::fresh_cursor() };
        assert(ready(line, cur));
        lemma_tokens(fuel, ss, line, engine::opened(e, 0), cur);
    }
}

/// Where no rule fails and escapes colour only what they match, the operations of a
/// line come in order by themselves: none is moved.
pub proof fn law_ordinary_ops_are_not_moved(
    fuel: nat,
    ss: Seq<SyntaxReference>,
    st: StateV,
    line: Seq<char>,
)
    requires
        ordinary(ss),
        plain_escapes(st.escape_stack),
        parser::output_within(fuel, ss, st, line) is Some,
    ensures
        ({
            let (next, r) = parser::output_within(fuel, ss, st, line)->0;
            r matches Ok(out) ==> {
                &&& plain_escapes(next.escape_stack)
                &&& (parser::parsed(fuel, ss, st, line)->0).1 == Ok::<Seq<Op>, syntax::ErrorV>(
                    out.ops,
                )
            }
        }),
{
    if st.stack.len() > 0 {
        lemma_parsed(fuel, ss, st, line);
        if let Some((st1, Ok(raw))) = parser::parsed(fuel, ss, st, line) {
            order::law_ordered_ops_stay(raw, text::byte_len(line));
        }
    }
}

} // verus!
