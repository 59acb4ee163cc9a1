//! Which match is chosen: the earliest, and of equally early ones the first in the
//! order of the rules.

use crate::cache;
use crate::cache::CacheV;
use crate::regex;
use crate::regex::ExpressionV;
use crate::search;
use crate::search::{ChainEntry, FoundV, QueryV, ScanV};
use crate::state::{EscapeV, LevelV, RegionV, StateV};
use crate::syntax;
use crate::syntax::{
    ContextId, ErrorV, MatchOperation, MatchPattern, Pattern, ReferenceV, RuleId, SyntaxReference,
};
use crate::text;
use vstd::prelude::*;

verus! {

/// The rules of a context, included ones in their places, if they can be listed.
pub open spec fn rules_of(fuel: nat, ss: Seq<SyntaxReference>, id: ContextId) -> Option<
    Seq<RuleId>,
> {
    match syntax::rules_onto(fuel, ss, id, 0, Seq::empty()) {
        Some(Ok(rules)) => Some(rules),
        _ => None,
    }
}

/// The rules that entry `i` of a context stands for: itself, or those of the context
/// that it includes. One that cannot be followed stands for none.
pub open spec fn piece(fuel: nat, ss: Seq<SyntaxReference>, id: ContextId, i: int) -> Option<
    Seq<RuleId>,
> {
    match syntax::context_of(ss, id)->Ok_0.patterns@[i] {
        Pattern::Match(_) => Some(seq![(id, i as usize)]),
        Pattern::Include(r) => match r@ {
            ReferenceV::Direct(inner) => if fuel == 0 {
                None
            } else {
                rules_of((fuel - 1) as nat, ss, inner)
            },
            _ => Some(Seq::empty()),
        },
    }
}

proof fn lemma_more_rules(
    fuel: nat,
    ss: Seq<SyntaxReference>,
    id: ContextId,
    i: nat,
    acc: Seq<RuleId>,
)
    ensures
        match syntax::rules_onto(fuel, ss, id, i, Seq::empty()) {
            Some(Ok(rules)) => syntax::rules_onto(fuel, ss, id, i, acc) == Some(
                Ok::<Seq<RuleId>, ErrorV>(acc + rules),
            ),
            other => syntax::rules_onto(fuel, ss, id, i, acc) == other,
        },
    decreases fuel, syntax::entry_count(ss, id) - i,
{
    if let Ok(context) = syntax::context_of(ss, id) {
        if i >= context.patterns@.len() {
            assert(acc + Seq::<RuleId>::empty() =~= acc);
        } else {
            assert(context.patterns.len() == context.patterns@.len());
            match context.patterns@[i as int] {
                Pattern::Match(_) => {
                    let one = seq![(id, i as usize)];
                    assert(Seq::<RuleId>::empty().push((id, i as usize)) =~= one);
                    lemma_more_rules(fuel, ss, id, i + 1, acc.push((id, i as usize)));
                    lemma_more_rules(fuel, ss, id, i + 1, one);
                    if let Some(Ok(rest)) = syntax::rules_onto(
                        fuel,
                        ss,
                        id,
                        i + 1,
                        Seq::empty(),
                    ) {
                        assert(acc.push((id, i as usize)) + rest =~= acc + (one + rest));
                    }
                },
                Pattern::Include(r) => match r@ {
                    ReferenceV::Direct(inner) => if fuel > 0 {
                        lemma_more_rules((fuel - 1) as nat, ss, inner, 0, acc);
                        if let Some(Ok(rules)) = syntax::rules_onto(
                            (fuel - 1) as nat,
                            ss,
                            inner,
                            0,
                            Seq::empty(),
                        ) {
                            lemma_more_rules(fuel, ss, id, i + 1, rules);
                            lemma_more_rules(fuel, ss, id, i + 1, acc + rules);
                            if let Some(Ok(rest)) = syntax::rules_onto(
                                fuel,
                                ss,
                                id,
                                i + 1,
                                Seq::empty(),
                            ) {
                                assert((acc + rules) + rest =~= acc + (rules + rest));
                            }
                        }
                    },
                    _ => {
                        lemma_more_rules(fuel, ss, id, i + 1, acc);
                    },
                },
            }
        }
    }
}

/// The rules of a context are those of its entries, in the order of the entries:
/// `cuts[i]` is where those of entry `i` start.
pub open spec fn cut_by_entries(
    fuel: nat,
    ss: Seq<SyntaxReference>,
    id: ContextId,
    from: int,
    rules: Seq<RuleId>,
    cuts: Seq<int>,
) -> bool {
    let n = syntax::context_of(ss, id)->Ok_0.patterns@.len();
    &&& cuts.len() == n - from + 1
    &&& cuts[0] == 0 && cuts.last() == rules.len()
    &&& forall|i: int|
        from <= i < n ==> {
            &&& 0 <= #[trigger] cuts[i - from] <= cuts[i - from + 1] <= rules.len()
            &&& piece(fuel, ss, id, i) == Some(
                rules.subrange(cuts[i - from], cuts[i - from + 1]),
            )
        }
}

proof fn lemma_cuts(fuel: nat, ss: Seq<SyntaxReference>, id: ContextId, i: nat) -> (cuts: Seq<int>)
    requires
        syntax::context_of(ss, id) is Ok,
        i <= syntax::context_of(ss, id)->Ok_0.patterns@.len(),
    ensures
        syntax::rules_onto(fuel, ss, id, i, Seq::empty()) matches Some(Ok(rules))
            ==> cut_by_entries(fuel, ss, id, i as int, rules, cuts),
    decreases syntax::context_of(ss, id)->Ok_0.patterns@.len() - i,
{
    let context = syntax::context_of(ss, id)->Ok_0;
    let n = context.patterns@.len();
    if i == n {
        seq![0]
    } else {
        let rest = lemma_cuts(fuel, ss, id, i + 1);
        let whole = syntax::rules_onto(fuel, ss, id, i, Seq::empty());
        let later = syntax::rules_onto(fuel, ss, id, i + 1, Seq::empty());
        let first: Seq<RuleId> = match piece(fuel, ss, id, i as int) {
            Some(rules) => rules,
            None => Seq::empty(),
        };
        assert(Seq::<RuleId>::empty().push((id, i as usize)) =~= seq![(id, i as usize)]);
        lemma_more_rules(fuel, ss, id, i + 1, first);
        let cuts = seq![0int] + Seq::new(rest.len(), |k: int| rest[k] + first.len());
        if let Some(Ok(rules)) = whole {
            let tail = later->0->Ok_0;
            assert(rules == first + tail);
            assert forall|j: int| i <= j < n implies {
                &&& 0 <= #[trigger] cuts[j - i] <= cuts[j - i + 1] <= rules.len()
                &&& piece(fuel, ss, id, j) == Some(rules.subrange(cuts[j - i], cuts[j - i + 1]))
            } by {
                if j == i {
                    assert(rules.subrange(0, first.len() as int) =~= first);
                } else {
                    let a = rest[j - (i + 1)];
                    let b = rest[j - (i + 1) + 1];
                    assert(cuts[j - i] == a + first.len());
                    assert(cuts[j - i + 1] == b + first.len());
                    assert(rules.subrange(a + first.len(), b + first.len()) =~= tail.subrange(
                        a,
                        b,
                    ));
                }
            }
        }
        cuts
    }
}

/// The rules of a context are listed in the order of its entries, those of an
/// included context where it is included.
pub proof fn law_rules_in_their_order(fuel: nat, ss: Seq<SyntaxReference>, id: ContextId) -> (cuts:
    Seq<int>)
    requires
        syntax::context_of(ss, id) is Ok,
    ensures
        rules_of(fuel, ss, id) matches Some(rules) ==> cut_by_entries(fuel, ss, id, 0, rules, cuts),
{
    lemma_cuts(fuel, ss, id, 0)
}

/// How many prototypes the frames `first..k` of a stack have together.
pub open spec fn prototypes_before(stack: Seq<LevelV>, first: int, k: int) -> int
    decreases k - first,
{
    if k <= first {
        0
    } else {
        prototypes_before(stack, first, k - 1) + stack[k - 1].prototypes.len()
    }
}

proof fn lemma_prototype_chain(acc: Seq<ChainEntry>, stack: Seq<LevelV>, first: int, k: int)
    requires
        0 <= first <= k <= stack.len(),
        acc.len() == prototypes_before(stack, first, k),
        forall|m: int, i: int|
            #![trigger stack[m].prototypes[i]]
            first <= m < k && 0 <= i < stack[m].prototypes.len() ==> {
                let at = prototypes_before(stack, first, m) + i;
                0 <= at < acc.len() && acc[at] == (ChainEntry {
                    with_prototype: true,
                    context: stack[m].prototypes[i],
                    level: Some(m as usize),
                })
            },
    ensures
        ({
            let r = search::prototype_chain(acc, stack, k);
            &&& r.len() == prototypes_before(stack, first, stack.len() as int)
            &&& forall|m: int, i: int|
                #![trigger stack[m].prototypes[i]]
                first <= m < stack.len() && 0 <= i < stack[m].prototypes.len() ==> {
                    let at = prototypes_before(stack, first, m) + i;
                    0 <= at < r.len() && r[at] == (ChainEntry {
                        with_prototype: true,
                        context: stack[m].prototypes[i],
                        level: Some(m as usize),
                    })
                }
        }),
    decreases stack.len() - k,
{
    if k < stack.len() {
        let own = Seq::new(
            stack[k].prototypes.len(),
            |i: int|
                ChainEntry {
                    with_prototype: true,
                    context: stack[k].prototypes[i],
                    level: Some(k as usize),
                },
        );
        let next = acc + own;
        assert forall|m: int, i: int|
            #![trigger stack[m].prototypes[i]]
            first <= m < k + 1 && 0 <= i < stack[m].prototypes.len() implies {
            let at = prototypes_before(stack, first, m) + i;
            0 <= at < next.len() && next[at] == (ChainEntry {
                with_prototype: true,
                context: stack[m].prototypes[i],
                level: Some(m as usize),
            })
        } by {
            let at = prototypes_before(stack, first, m) + i;
            if m < k {
                assert(acc[at] == next[at]);
            } else {
                assert(next[at] == own[i]);
            }
        }
        lemma_prototype_chain(next, stack, first, k + 1);
    }
}

/// Where rules are looked for, in this order: in the prototypes that came with the
/// frames since the last of them was used, frame by frame; in the prototype of the
/// current context; in the current context.
pub proof fn law_prototypes_then_context(
    stack: Seq<LevelV>,
    proto_starts: Seq<usize>,
    prototype: Option<ContextId>,
)
    requires
        0 < stack.len() <= usize::MAX,
        proto_starts.len() > 0 ==> proto_starts.last() <= stack.len(),
    ensures
        ({
            let chain = search::context_chain(stack, proto_starts, prototype);
            let first: int = if proto_starts.len() > 0 {
                proto_starts.last() as int
            } else {
                0
            };
            let n = prototypes_before(stack, first, stack.len() as int);
            &&& chain.len() == n + (if prototype is Some {
                2int
            } else {
                1
            })
            &&& forall|m: int, i: int|
                #![trigger stack[m].prototypes[i]]
                first <= m < stack.len() && 0 <= i < stack[m].prototypes.len() ==> {
                    let at = prototypes_before(stack, first, m) + i;
                    0 <= at < n && chain[at] == (ChainEntry {
                        with_prototype: true,
                        context: stack[m].prototypes[i],
                        level: Some(m as usize),
                    })
                }
            &&& forall|k: int| 0 <= k < n ==> (#[trigger] chain[k]).with_prototype
            &&& prototype matches Some(p) ==> chain[n] == (ChainEntry {
                with_prototype: false,
                context: p,
                level: None,
            })
            &&& chain.last() == (ChainEntry {
                with_prototype: false,
                context: stack.last().context,
                level: Some((stack.len() - 1) as usize),
            })
        }),
{
    let first: int = if proto_starts.len() > 0 {
        proto_starts.last() as int
    } else {
        0
    };
    lemma_prototype_chain(Seq::empty(), stack, first, first);
    lemma_marked(Seq::empty(), stack, first);
}

proof fn lemma_marked(acc: Seq<ChainEntry>, stack: Seq<LevelV>, k: int)
    requires
        forall|j: int| 0 <= j < acc.len() ==> (#[trigger] acc[j]).with_prototype,
    ensures
        ({
            let r = search::prototype_chain(acc, stack, k);
            forall|j: int| 0 <= j < r.len() ==> (#[trigger] r[j]).with_prototype
        }),
    decreases stack.len() - k,
{
    if 0 <= k < stack.len() {
        let own = Seq::new(
            stack[k].prototypes.len(),
            |i: int|
                ChainEntry {
                    with_prototype: true,
                    context: stack[k].prototypes[i],
                    level: Some(k as usize),
                },
        );
        lemma_marked(acc + own, stack, k + 1);
    }
}

/// The rule itself, if it is in the set.
pub open spec fn pattern_of(ss: Seq<SyntaxReference>, rule: RuleId) -> Option<MatchPattern> {
    match syntax::context_of(ss, rule.0) {
        Ok(context) => match syntax::rule_at(context, rule.1) {
            Ok(pat) => Some(pat),
            Err(_) => None,
        },
        Err(_) => None,
    }
}

/// The groups and the line to which a rule found at `level` may refer back.
pub open spec fn referred(st: StateV, level: Option<usize>) -> Option<(RegionV, Seq<char>)> {
    if level is Some && level->0 < st.stack.len() {
        st.stack[level->0 as int].captures
    } else {
        None
    }
}

/// Whether the rule is searched for with back-references substituted.
pub open spec fn refers_back(st: StateV, pat: MatchPattern, level: Option<usize>) -> bool {
    pat.has_captures && referred(st, level) is Some
}

/// What a rule found at `level` searches for.
pub open spec fn sought(st: StateV, pat: MatchPattern, level: Option<usize>) -> ExpressionV {
    ExpressionV {
        pattern: if refers_back(st, pat, level) {
            regex::substituted(
                pat.regex@.pattern,
                0,
                false,
                (referred(st, level)->0).0,
                (referred(st, level)->0).1,
            )
        } else {
            pat.regex@.pattern
        },
        allow_empty: !(pat.operation is Nothing),
    }
}

/// Whether a match of the rule would change anything: a rule without an operation has
/// to match some text, and the stack of contexts holds a hundred frames.
pub open spec fn useful(pat: MatchPattern, region: RegionV, depth: nat) -> bool {
    match pat.operation {
        MatchOperation::Nothing => regex::whole(region).0 != regex::whole(region).1,
        MatchOperation::Push { .. } => depth < 100,
        MatchOperation::Branch { .. } => depth < 100,
        MatchOperation::Embed { .. } => depth < 100,
        _ => true,
    }
}

/// Whether the rule is a branch point that must not fire at `start`.
pub open spec fn held_off(st: StateV, pat: MatchPattern, start: usize) -> bool {
    pat.operation matches MatchOperation::Branch { name, .. } && st.skipped_branches.contains(
        (start, name@),
    )
}

/// Whether what is remembered of the rule counts: the whole line is searched, and the
/// match, if there is one, does not lie before `start`.
pub open spec fn recalled(line: Seq<char>, start: usize, end: usize, memory: CacheV, rule: RuleId) -> bool {
    let key = (rule.0.syntax_index, rule.0.context_index, rule.1);
    end == text::byte_len(line) && memory.contains_key(key) && (memory[key] matches Some(r)
        ==> regex::whole(r).0 >= start)
}

/// The match that a rule found at `level` has in the bytes `start..end` of the line.
pub open spec fn offer(
    ss: Seq<SyntaxReference>,
    line: Seq<char>,
    st: StateV,
    start: usize,
    end: usize,
    memory: CacheV,
    level: Option<usize>,
    rule: RuleId,
) -> Option<RegionV> {
    match pattern_of(ss, rule) {
        None => None,
        Some(pat) => if held_off(st, pat, start) {
            None
        } else if recalled(line, start, end, memory, rule) {
            memory[(rule.0.syntax_index, rule.0.context_index, rule.1)]
        } else {
            match regex::search(sought(st, pat, level), line, start, end) {
                Some(region) => if useful(pat, region, st.stack.len()) {
                    Some(region)
                } else {
                    None
                },
                None => None,
            }
        },
    }
}

/// Whether a match only takes back the frames that were just pushed without moving:
/// it pops the stack to `depth` and ends no later than `start`.
pub open spec fn takes_back(
    ss: Seq<SyntaxReference>,
    st: StateV,
    start: usize,
    armed: bool,
    depth: usize,
    rule: RuleId,
    region: RegionV,
) -> bool {
    &&& armed
    &&& regex::whole(region).1 <= start
    &&& pattern_of(ss, rule) matches Some(pat) && (pat.operation matches MatchOperation::Pop(n)
        && depth == if st.stack.len() >= n {
        st.stack.len() - n
    } else {
        0
    })
}

/// Whether `rule` stands at place `j` of the rules of entry `k` of the chain.
pub open spec fn listed(
    fuel: nat,
    ss: Seq<SyntaxReference>,
    chain: Seq<ChainEntry>,
    k: int,
    j: int,
    rule: RuleId,
) -> bool {
    0 <= k < chain.len() && (rules_of(fuel, ss, chain[k].context) matches Some(rules) && 0 <= j
        < rules.len() && rules[j] == rule)
}

/// Whether the place `(k, j)` comes before `(m, i)`.
pub open spec fn comes_before(k: int, j: int, m: int, i: int) -> bool {
    k < m || (k == m && j < i)
}

/// Whether a rule that stands at several places of the chain refers back at all of
/// them or at none.
pub open spec fn refers_alike(
    fuel: nat,
    ss: Seq<SyntaxReference>,
    st: StateV,
    chain: Seq<ChainEntry>,
) -> bool {
    forall|k: int, j: int, m: int, i: int, rule: RuleId|
        #![trigger listed(fuel, ss, chain, k, j, rule), listed(fuel, ss, chain, m, i, rule)]
        listed(fuel, ss, chain, k, j, rule) && listed(fuel, ss, chain, m, i, rule) ==> (pattern_of(
            ss,
            rule,
        ) matches Some(pat) ==> refers_back(st, pat, chain[k].level) == refers_back(
            st,
            pat,
            chain[m].level,
        ))
}

/// Where the rules' part of the line ends: where the first escape matches, else at the
/// end of the line.
pub open spec fn bounds_rules(
    escapes: Seq<EscapeV>,
    line: Seq<char>,
    start: usize,
    end: usize,
) -> bool {
    &&& end <= text::byte_len(line)
    &&& forall|i: int|
        0 <= i < escapes.len() ==> (#[trigger] escape_at(escapes, i, line, start) matches Some(r)
            ==> end <= regex::whole(r).0)
    &&& end == text::byte_len(line) || exists|i: int|
        0 <= i < escapes.len() && (#[trigger] escape_at(escapes, i, line, start) matches Some(r)
            && regex::whole(r).0 == end)
}

/// The match that escape `i` has in the line from `start` on.
pub open spec fn escape_at(escapes: Seq<EscapeV>, i: int, line: Seq<char>, start: usize) -> Option<
    RegionV,
> {
    regex::search(
        ExpressionV { pattern: escapes[i].regex.pattern, allow_empty: true },
        line,
        start,
        text::byte_len(line),
    )
}

proof fn lemma_escapes(
    escapes: Seq<EscapeV>,
    i: int,
    line: Seq<char>,
    start: usize,
    end: usize,
    best: Option<(usize, RegionV)>,
)
    requires
        0 <= i <= escapes.len() <= usize::MAX,
        end <= text::byte_len(line),
        forall|j: int|
            0 <= j < i ==> (#[trigger] escape_at(escapes, j, line, start) matches Some(r) ==> end
                <= regex::whole(r).0),
        match best {
            None => end == text::byte_len(line),
            Some((b, r)) => {
                &&& b < i
                &&& escape_at(escapes, b as int, line, start) == Some(r)
                &&& regex::whole(r).0 == end < text::byte_len(line)
                &&& forall|j: int|
                    0 <= j < b ==> (#[trigger] escape_at(escapes, j, line, start) matches Some(q)
                        ==> end < regex::whole(q).0)
            },
        },
    ensures
        ({
            let (end, best) = search::escape_found(escapes, i, line, start, end, best);
            &&& bounds_rules(escapes, line, start, end)
            &&& match best {
                None => end == text::byte_len(line),
                Some((b, r)) => {
                    &&& b < escapes.len()
                    &&& escape_at(escapes, b as int, line, start) == Some(r)
                    &&& regex::whole(r).0 == end < text::byte_len(line)
                    &&& forall|j: int|
                        0 <= j < b ==> (#[trigger] escape_at(escapes, j, line, start) matches Some(
                            q,
                        ) ==> end < regex::whole(q).0)
                },
            }
        }),
    decreases escapes.len() - i,
{
    if i < escapes.len() {
        let here = escape_at(escapes, i, line, start);
        match here {
            Some(region) => if regex::whole(region).0 < end {
                lemma_escapes(
                    escapes,
                    i + 1,
                    line,
                    start,
                    regex::whole(region).0,
                    Some((i as usize, region)),
                );
            } else {
                lemma_escapes(escapes, i + 1, line, start, end, best);
            },
            None => {
                lemma_escapes(escapes, i + 1, line, start, end, best);
            },
        }
    }
}

proof fn lemma_one_bound(
    escapes: Seq<EscapeV>,
    line: Seq<char>,
    start: usize,
    a: usize,
    b: usize,
)
    requires
        bounds_rules(escapes, line, start, a),
        bounds_rules(escapes, line, start, b),
    ensures
        a == b,
{
    if a < b {
        let i = choose|i: int|
            0 <= i < escapes.len() && (#[trigger] escape_at(escapes, i, line, start) matches Some(r)
                && regex::whole(r).0 == a);
        assert(escape_at(escapes, i, line, start) is Some);
    } else if b < a {
        let i = choose|i: int|
            0 <= i < escapes.len() && (#[trigger] escape_at(escapes, i, line, start) matches Some(r)
                && regex::whole(r).0 == b);
        assert(escape_at(escapes, i, line, start) is Some);
    }
}

/// What a search is about.
pub struct Hunt {
    pub fuel: nat,
    pub ss: Seq<SyntaxReference>,
    pub line: Seq<char>,
    pub st: StateV,
    pub start: usize,
    pub end: usize,
    pub memory: CacheV,
    pub armed: bool,
    pub depth: usize,
    pub chain: Seq<ChainEntry>,
}

/// What the rule at a place of the chain offers.
pub open spec fn offered(h: Hunt, k: int, rule: RuleId) -> Option<RegionV> {
    offer(h.ss, h.line, h.st, h.start, h.end, h.memory, h.chain[k].level, rule)
}

/// Whether that match only takes back what was pushed.
pub open spec fn loops(h: Hunt, rule: RuleId, region: RegionV) -> bool {
    takes_back(h.ss, h.st, h.start, h.armed, h.depth, rule, region)
}

/// Whether memory `m` holds what it held, or what a search of the line from `start` on
/// gave for a rule that does not refer back.
pub open spec fn still_true(h: Hunt, m: CacheV) -> bool {
    forall|rule: RuleId| #[trigger] kept_true(h, m, rule)
}

/// Whether this holds of one rule.
pub open spec fn kept_true(h: Hunt, m: CacheV, rule: RuleId) -> bool {
    let key = (rule.0.syntax_index, rule.0.context_index, rule.1);
    ||| m.contains_key(key) == h.memory.contains_key(key) && (m.contains_key(key) ==> m[key]
        == h.memory[key])
    ||| {
        &&& h.end == text::byte_len(h.line)
        &&& m.contains_key(key)
        &&& !recalled(h.line, h.start, h.end, h.memory, rule)
        &&& pattern_of(h.ss, rule) matches Some(pat) && m[key] == regex::search(
            ExpressionV {
                pattern: pat.regex@.pattern,
                allow_empty: !(pat.operation is Nothing),
            },
            h.line,
            h.start,
            h.end,
        ) && (m[key] matches Some(r) ==> useful(pat, r, h.st.stack.len())) && exists|
            k: int,
            j: int,
        |
            #[trigger] listed(h.fuel, h.ss, h.chain, k, j, rule) && !refers_back(
                h.st,
                pat,
                h.chain[k].level,
            )
    }
}

proof fn lemma_searched(h: Hunt, m: CacheV, k: int, j: int, rule: RuleId, pat: MatchPattern)
    requires
        still_true(h, m),
        refers_alike(h.fuel, h.ss, h.st, h.chain),
        listed(h.fuel, h.ss, h.chain, k, j, rule),
        pattern_of(h.ss, rule) == Some(pat),
        !held_off(h.st, pat, h.start),
    ensures
        ({
            let (next, found) = search::searched(
                h.line,
                h.start,
                h.end,
                rule,
                pat,
                search::entry_captures(h.st.stack, h.chain[k]),
                h.st.stack.len() as int,
                m,
            );
            still_true(h, next) && found == offered(h, k, rule)
        }),
{
    let captures = search::entry_captures(h.st.stack, h.chain[k]);
    let (next, found) = search::searched(
        h.line,
        h.start,
        h.end,
        rule,
        pat,
        captures,
        h.st.stack.len() as int,
        m,
    );
    assert(captures == referred(h.st, h.chain[k].level));
    assert(kept_true(h, m, rule));
    let key = (rule.0.syntax_index, rule.0.context_index, rule.1);
    assert(cache::key_of(rule) == key);
    assert(!(m.contains_key(key) == h.memory.contains_key(key) && (m.contains_key(key) ==> m[key]
        == h.memory[key])) ==> !refers_back(h.st, pat, h.chain[k].level)) by {
        if !(m.contains_key(key) == h.memory.contains_key(key) && (m.contains_key(key) ==> m[key]
            == h.memory[key])) {
            let (a, b) = choose|a: int, b: int|
                #[trigger] listed(h.fuel, h.ss, h.chain, a, b, rule) && !refers_back(
                    h.st,
                    pat,
                    h.chain[a].level,
                );
            assert(listed(h.fuel, h.ss, h.chain, a, b, rule));
        }
    }
    assert forall|other: RuleId| #[trigger] kept_true(h, next, other) by {
        assert(kept_true(h, m, other));
        if other != rule {
            let okey = (other.0.syntax_index, other.0.context_index, other.1);
            assert(okey != key);
            assert(next.contains_key(okey) == m.contains_key(okey));
            assert(next.contains_key(okey) ==> next[okey] == m[okey]);
        } else if next != m {
            assert(listed(h.fuel, h.ss, h.chain, k, j, rule));
        }
    }
}

/// What holds once the places before `(k, j)` are looked at.
spec fn scanned(h: Hunt, s: ScanV, k: int, j: int) -> bool {
    &&& still_true(h, s.memory)
    &&& match s.best {
        None => s.stop || (s.min_start == usize::MAX && !s.looping),
        Some(found) => found.rule is Some && s.min_start == regex::whole(found.regions).0
            && s.looping == found.would_loop && s.looping == loops(
            h,
            found.rule->0,
            found.regions,
        ) && exists|m: int, i: int| #[trigger] chosen_at(h, found, k, j, m, i),
    }
    &&& s.stop ==> {
        ||| s.best is None && h.st.stack.len() >= 100
        ||| s.best is Some && s.min_start == h.start && !s.looping
    }
    &&& !s.stop ==> forall|m: int, i: int, rule: RuleId| #[trigger]
        listed(h.fuel, h.ss, h.chain, m, i, rule) && comes_before(m, i, k, j) ==> (offered(
            h,
            m,
            rule,
        ) matches Some(r) ==> regex::whole(r).0 >= s.min_start)
    &&& !s.stop && s.looping ==> forall|m: int, i: int, rule: RuleId| #[trigger]
        listed(h.fuel, h.ss, h.chain, m, i, rule) && comes_before(m, i, k, j) ==> (offered(
            h,
            m,
            rule,
        ) matches Some(r) ==> (regex::whole(r).0 == s.min_start ==> loops(h, rule, r)))
}

/// Whether the match stands at the place `(m, i)`, which comes before `(k, j)`, and
/// nothing as early before it but what loops.
spec fn chosen_at(h: Hunt, found: FoundV, k: int, j: int, m: int, i: int) -> bool {
    &&& comes_before(m, i, k, j)
    &&& listed(h.fuel, h.ss, h.chain, m, i, found.rule->0)
    &&& offered(h, m, found.rule->0) == Some(found.regions)
    &&& found.from_with_prototype == h.chain[m].with_prototype
    &&& pattern_of(h.ss, found.rule->0) matches Some(pat) && (search::deepens(pat.operation)
        ==> h.st.stack.len() < 100)
    &&& forall|a: int, b: int, rule: RuleId| #[trigger]
        listed(h.fuel, h.ss, h.chain, a, b, rule) && comes_before(a, b, m, i) ==> (offered(
            h,
            a,
            rule,
        ) matches Some(r) ==> {
            ||| regex::whole(r).0 > regex::whole(found.regions).0
            ||| regex::whole(r).0 == regex::whole(found.regions).0 && loops(h, rule, r)
        })
}

proof fn lemma_forward(h: Hunt, k: int, rule: RuleId)
    ensures
        offered(h, k, rule) matches Some(r) ==> regex::whole(r).0 >= h.start,
{
}

spec fn query(h: Hunt) -> QueryV {
    QueryV {
        start: h.start,
        search_end: h.end,
        check_pop_loop: h.armed,
        pre_push_depth: h.depth,
    }
}

#[verifier::rlimit(40)]
proof fn lemma_scan_rule(h: Hunt, s: ScanV, k: int, j: int, rule: RuleId)
    requires
        scanned(h, s, k, j),
        !s.stop,
        refers_alike(h.fuel, h.ss, h.st, h.chain),
        listed(h.fuel, h.ss, h.chain, k, j, rule),
    ensures
        search::scan_rule(s, h.ss, h.line, h.st, query(h), h.chain[k], rule) matches Ok(next)
            ==> scanned(h, next, k, j + 1),
{
    if let Ok(next) = search::scan_rule(s, h.ss, h.line, h.st, query(h), h.chain[k], rule) {
        let pat = pattern_of(h.ss, rule)->0;
        let mine = offered(h, k, rule);
        if !held_off(h.st, pat, h.start) {
            lemma_searched(h, s.memory, k, j, rule, pat);
        }
        assert(search::is_skipped(h.st.skipped_branches, h.start, pat.operation) == held_off(
            h.st,
            pat,
            h.start,
        ));
        lemma_forward(h, k, rule);
        // The places before `(k, j + 1)` are those before `(k, j)` and `(k, j)` itself.
        assert forall|m: int, i: int, other: RuleId| #[trigger]
            listed(h.fuel, h.ss, h.chain, m, i, other) && comes_before(
                m,
                i,
                k,
                j + 1,
            ) implies comes_before(m, i, k, j) || (m == k && i == j && other == rule) by {}
        if next.best is Some && next.best == s.best {
            let found = s.best->0;
            let (m, i) = choose|m: int, i: int| #[trigger] chosen_at(h, found, k, j, m, i);
            assert(chosen_at(h, found, k, j + 1, m, i));
        } else if next.best is Some {
            let found = next.best->0;
            assert forall|a: int, b: int, other: RuleId| #[trigger]
                listed(h.fuel, h.ss, h.chain, a, b, other) && comes_before(
                    a,
                    b,
                    k,
                    j,
                ) implies (offered(h, a, other) matches Some(r) ==> {
                ||| regex::whole(r).0 > regex::whole(found.regions).0
                ||| regex::whole(r).0 == regex::whole(found.regions).0 && loops(h, other, r)
            }) by {
                assert(offered(h, a, other) matches Some(r) ==> regex::whole(r).0 >= s.min_start);
            }
            assert(chosen_at(h, found, k, j + 1, k, j));
        }
    }
}

proof fn lemma_scan_rules(h: Hunt, s: ScanV, k: int, rules: Seq<RuleId>, j: int)
    requires
        scanned(h, s, k, j),
        refers_alike(h.fuel, h.ss, h.st, h.chain),
        0 <= k < h.chain.len(),
        rules_of(h.fuel, h.ss, h.chain[k].context) == Some(rules),
        0 <= j <= rules.len(),
    ensures
        search::scan_rules(s, h.ss, h.line, h.st, query(h), h.chain[k], rules, j) matches Ok(next)
            ==> scanned(h, next, k + 1, 0),
    decreases rules.len() - j,
{
    if s.stop || j >= rules.len() {
        lemma_next_entry(h, s, k, rules, j);
    } else {
        assert(listed(h.fuel, h.ss, h.chain, k, j, rules[j]));
        lemma_scan_rule(h, s, k, j, rules[j]);
        if let Ok(next) = search::scan_rule(
            s,
            h.ss,
            h.line,
            h.st,
            query(h),
            h.chain[k],
            rules[j],
        ) {
            lemma_scan_rules(h, next, k, rules, j + 1);
        }
    }
}

proof fn lemma_next_entry(h: Hunt, s: ScanV, k: int, rules: Seq<RuleId>, j: int)
    requires
        scanned(h, s, k, j),
        0 <= k < h.chain.len(),
        rules_of(h.fuel, h.ss, h.chain[k].context) == Some(rules),
        0 <= j <= rules.len(),
        s.stop || j == rules.len(),
    ensures
        scanned(h, s, k + 1, 0),
{
    assert forall|m: int, i: int, other: RuleId| #[trigger]
        listed(h.fuel, h.ss, h.chain, m, i, other) && comes_before(m, i, k + 1, 0) implies s.stop
        || comes_before(m, i, k, j) by {}
    if s.best is Some {
        let found = s.best->0;
        let (m, i) = choose|m: int, i: int| #[trigger] chosen_at(h, found, k, j, m, i);
        assert(chosen_at(h, found, k + 1, 0, m, i));
    }
}

proof fn lemma_scan_chain(h: Hunt, s: ScanV, k: int)
    requires
        scanned(h, s, k, 0),
        refers_alike(h.fuel, h.ss, h.st, h.chain),
        0 <= k <= h.chain.len(),
    ensures
        search::scan_chain(h.fuel, s, h.ss, h.line, h.st, query(h), h.chain, k) matches Some(
            Ok(next),
        ) ==> scanned(h, next, h.chain.len() as int, 0),
    decreases h.chain.len() - k,
{
    if s.stop {
        lemma_stopped(h, s, k);
    } else if k < h.chain.len() {
        if let Some(Ok(rules)) = syntax::rules_onto(
            h.fuel,
            h.ss,
            h.chain[k].context,
            0,
            Seq::empty(),
        ) {
            lemma_scan_rules(h, s, k, rules, 0);
            if let Ok(next) = search::scan_rules(
                s,
                h.ss,
                h.line,
                h.st,
                query(h),
                h.chain[k],
                rules,
                0,
            ) {
                lemma_scan_chain(h, next, k + 1);
            }
        }
    }
}

proof fn lemma_stopped(h: Hunt, s: ScanV, k: int)
    requires
        scanned(h, s, k, 0),
        s.stop,
        0 <= k <= h.chain.len(),
    ensures
        scanned(h, s, h.chain.len() as int, 0),
{
    if s.best is Some {
        let found = s.best->0;
        let (m, i) = choose|m: int, i: int| #[trigger] chosen_at(h, found, k, 0, m, i);
        assert(chosen_at(h, found, h.chain.len() as int, 0, m, i));
    }
}

/// Whether a search for the best match is the one that `h` describes.
pub open spec fn hunts(h: Hunt) -> bool {
    &&& h.st.stack.len() > 0
    &&& h.st.escape_stack.len() <= usize::MAX
    &&& bounds_rules(h.st.escape_stack, h.line, h.start, h.end)
    &&& syntax::context_of(h.ss, h.st.stack.last().context) matches Ok(context) && h.chain
        == search::context_chain(h.st.stack, h.st.proto_starts, context.prototype)
    &&& refers_alike(h.fuel, h.ss, h.st, h.chain)
}

/// What that search gives.
pub open spec fn caught(h: Hunt) -> Option<Result<(CacheV, Option<FoundV>), ErrorV>> {
    search::best_match(h.fuel, h.ss, h.line, h.st, h.start, h.memory, h.armed, h.depth)
}

/// Whether the place `(m, i)` is that of the best match of a rule: its match is the one
/// found, no rule matches earlier, and as early and before it only what takes back
/// frames that were just pushed. If it does so itself, all that match as early do.
pub open spec fn best_at(h: Hunt, found: FoundV, m: int, i: int) -> bool {
    &&& found.rule matches Some(rule) && listed(h.fuel, h.ss, h.chain, m, i, rule) && offered(
        h,
        m,
        rule,
    ) == Some(found.regions) && found.would_loop == loops(h, rule, found.regions)
    &&& found.from_with_prototype == h.chain[m].with_prototype
    &&& forall|a: int, b: int, other: RuleId| #[trigger]
        listed(h.fuel, h.ss, h.chain, a, b, other) ==> (offered(h, a, other) matches Some(r) ==> {
            &&& regex::whole(r).0 >= regex::whole(found.regions).0
            &&& regex::whole(r).0 == regex::whole(found.regions).0 && (comes_before(a, b, m, i)
                || found.would_loop) ==> loops(h, other, r)
        })
}

/// Of the rules, the one with the earliest match is chosen, and of equally early ones
/// the first: in the order of the chain, then in that of the rules. What is remembered
/// of earlier searches counts only where the whole line is searched and its match
/// still lies ahead.
pub proof fn law_earliest_then_first(h: Hunt) -> (at: (int, int))
    requires
        hunts(h),
    ensures
        caught(h) matches Some(Ok((memory, best))) ==> still_true(h, memory) && (best matches Some(
            found,
        ) ==> (found.rule is Some ==> best_at(h, found, at.0, at.1))),
{
    let (end, escape) = search::escape_found(
        h.st.escape_stack,
        0,
        h.line,
        h.start,
        text::byte_len(h.line),
        None,
    );
    lemma_escapes(h.st.escape_stack, 0, h.line, h.start, text::byte_len(h.line), None);
    lemma_one_bound(h.st.escape_stack, h.line, h.start, end, h.end);
    let scan = ScanV {
        memory: h.memory,
        min_start: usize::MAX,
        best: None,
        looping: false,
        stop: false,
    };
    assert(still_true(h, h.memory));
    assert(scanned(h, scan, 0, 0));
    lemma_scan_chain(h, scan, 0);
    let n = h.chain.len() as int;
    if let Some(Ok((memory, Some(found)))) = caught(h) {
        if found.rule is Some {
            let s = search::scan_chain(h.fuel, scan, h.ss, h.line, h.st, query(h), h.chain, 0)->0->Ok_0;
            assert(s.best == Some(found));
            assert(exists|m: int, i: int| #[trigger] chosen_at(h, found, n, 0, m, i));
            let (m, i) = choose|m: int, i: int| #[trigger] chosen_at(h, found, n, 0, m, i);
            assert forall|a: int, b: int, other: RuleId| #[trigger]
                listed(h.fuel, h.ss, h.chain, a, b, other) implies (offered(h, a, other) matches Some(
                r,
            ) ==> {
                &&& regex::whole(r).0 >= regex::whole(found.regions).0
                &&& regex::whole(r).0 == regex::whole(found.regions).0 && (comes_before(a, b, m, i)
                    || found.would_loop) ==> loops(h, other, r)
            }) by {
                lemma_forward(h, a, other);
                assert(comes_before(a, b, n, 0));
            }
            (m, i)
        } else {
            (0, 0)
        }
    } else {
        (0, 0)
    }
}

/// An escape is chosen exactly where it matches before all rules: the first of the
/// earliest, unless a rule matches there or before without taking back what was just
/// pushed.
pub proof fn law_escapes_end_embeds(h: Hunt)
    requires
        hunts(h),
        h.end < text::byte_len(h.line),
    ensures
        caught(h) matches Some(Ok((_, best))) ==> {
            &&& h.end == h.start ==> best is Some && (best->0).rule is None
            &&& best matches Some(found) ==> (found.rule is None ==> {
                &&& found.escape_index < h.st.escape_stack.len()
                &&& escape_at(
                    h.st.escape_stack,
                    found.escape_index as int,
                    h.line,
                    h.start,
                ) == Some(found.regions)
                &&& regex::whole(found.regions).0 == h.end
                &&& forall|j: int|
                    0 <= j < found.escape_index ==> (#[trigger] escape_at(
                        h.st.escape_stack,
                        j,
                        h.line,
                        h.start,
                    ) matches Some(q) ==> h.end < regex::whole(q).0)
                &&& h.end > h.start ==> forall|a: int, b: int, other: RuleId| #[trigger]
                    listed(h.fuel, h.ss, h.chain, a, b, other) ==> (offered(
                        h,
                        a,
                        other,
                    ) matches Some(r) ==> {
                        ||| regex::whole(r).0 > h.end
                        ||| regex::whole(r).0 == h.end && loops(h, other, r)
                    })
            })
            &&& best is None ==> h.st.stack.len() >= 100
            &&& best matches Some(found) ==> (found.rule is Some ==> regex::whole(found.regions).0
                <= h.end)
        },
{
    let (end, escape) = search::escape_found(
        h.st.escape_stack,
        0,
        h.line,
        h.start,
        text::byte_len(h.line),
        None,
    );
    lemma_escapes(h.st.escape_stack, 0, h.line, h.start, text::byte_len(h.line), None);
    lemma_one_bound(h.st.escape_stack, h.line, h.start, end, h.end);
    let scan = ScanV {
        memory: h.memory,
        min_start: usize::MAX,
        best: None,
        looping: false,
        stop: false,
    };
    assert(still_true(h, h.memory));
    assert(scanned(h, scan, 0, 0));
    lemma_scan_chain(h, scan, 0);
    let n = h.chain.len() as int;
    assert(escape is Some);
    assert(h.start <= h.end);
    if let Some(Ok(s)) = search::scan_chain(
        h.fuel,
        scan,
        h.ss,
        h.line,
        h.st,
        query(h),
        h.chain,
        0,
    ) {
        assert forall|a: int, b: int, other: RuleId| #[trigger]
            listed(h.fuel, h.ss, h.chain, a, b, other) && !s.stop implies (offered(
            h,
            a,
            other,
        ) matches Some(r) ==> regex::whole(r).0 >= s.min_start && (s.looping && regex::whole(r).0
            == s.min_start ==> loops(h, other, r))) by {
            assert(comes_before(a, b, n, 0));
        }
    }
}

/// Nothing is chosen only where nothing matches: no escape before the end of the line,
/// and no rule, unless the stack is full.
pub proof fn law_nothing_only_where_nothing_matches(h: Hunt)
    requires
        hunts(h),
        h.st.stack.len() < 100,
    ensures
        caught(h) matches Some(Ok((_, None))) ==> {
            &&& h.end == text::byte_len(h.line)
            &&& forall|a: int, b: int, other: RuleId| #[trigger]
                listed(h.fuel, h.ss, h.chain, a, b, other) ==> (offered(h, a, other) matches Some(r)
                    ==> regex::whole(r).0 == usize::MAX)
        },
{
    let (end, escape) = search::escape_found(
        h.st.escape_stack,
        0,
        h.line,
        h.start,
        text::byte_len(h.line),
        None,
    );
    lemma_escapes(h.st.escape_stack, 0, h.line, h.start, text::byte_len(h.line), None);
    lemma_one_bound(h.st.escape_stack, h.line, h.start, end, h.end);
    let scan = ScanV {
        memory: h.memory,
        min_start: usize::MAX,
        best: None,
        looping: false,
        stop: false,
    };
    assert(still_true(h, h.memory));
    assert(scanned(h, scan, 0, 0));
    lemma_scan_chain(h, scan, 0);
    let n = h.chain.len() as int;
    if let Some(Ok((_, None))) = caught(h) {
        let s = search::scan_chain(h.fuel, scan, h.ss, h.line, h.st, query(h), h.chain, 0)->0->Ok_0;
        assert(s.best is None && !s.stop);
        assert forall|a: int, b: int, other: RuleId| #[trigger]
            listed(h.fuel, h.ss, h.chain, a, b, other) implies (offered(h, a, other) matches Some(r)
            ==> regex::whole(r).0 == usize::MAX) by {
            assert(comes_before(a, b, n, 0));
        }
    }
}

/// A rule of the current context's prototype that matches at the cursor wins over the
/// rules of the context, unless an escape or a rule of a `with_prototype` matches there
/// too: what is chosen is a rule of the prototype.
pub proof fn law_prototype_before_context(h: Hunt, p: ContextId, rules: Seq<RuleId>, j: int) -> (i:
    int)
    requires
        hunts(h),
        h.st.stack.len() < 100,
        h.st.proto_starts.len() > 0 ==> h.st.proto_starts.last() <= h.st.stack.len(),
        (syntax::context_of(h.ss, h.st.stack.last().context)->Ok_0).prototype == Some(p),
        rules_of(h.fuel, h.ss, p) == Some(rules),
        0 <= j < rules.len(),
        offer(
            h.ss,
            h.line,
            h.st,
            h.start,
            h.end,
            h.memory,
            None,
            rules[j],
        ) matches Some(r) && regex::whole(r).0 == h.start < usize::MAX && !loops(h, rules[j], r),
        h.start < h.end || h.start == text::byte_len(h.line),
        forall|a: int, b: int, other: RuleId| #[trigger]
            listed(h.fuel, h.ss, h.chain, a, b, other) && h.chain[a].with_prototype ==> (offered(
                h,
                a,
                other,
            ) matches Some(r) ==> regex::whole(r).0 > h.start),
    ensures
        caught(h) matches Some(Ok((_, best))) ==> (best matches Some(found) && found.rule
            == Some(rules[i]) && 0 <= i < rules.len() && regex::whole(found.regions).0 == h.start
            && i <= j && !found.from_with_prototype),
{
    let first: int = if h.st.proto_starts.len() > 0 {
        h.st.proto_starts.last() as int
    } else {
        0
    };
    law_prototypes_then_context(h.st.stack, h.st.proto_starts, Some(p));
    let n = prototypes_before(h.st.stack, first, h.st.stack.len() as int);
    lemma_prototypes_count(h.st.stack, first, h.st.stack.len() as int);
    assert(h.chain[n].context == p);
    assert(listed(h.fuel, h.ss, h.chain, n, j, rules[j]));
    assert(offered(h, n, rules[j]) is Some);
    law_nothing_only_where_nothing_matches(h);
    let (m, i) = law_earliest_then_first(h);
    if let Some(Ok((_, Some(found)))) = caught(h) {
        if h.end < text::byte_len(h.line) {
            law_escapes_end_embeds(h);
        } else {
            lemma_no_escape(h);
        }
        assert(found.rule is Some);
        assert(best_at(h, found, m, i));
        assert(regex::whole(found.regions).0 == h.start) by {
            assert(listed(h.fuel, h.ss, h.chain, n, j, rules[j]));
            lemma_forward(h, m, found.rule->0);
        }
        assert(!comes_before(n, j, m, i));
        assert(listed(h.fuel, h.ss, h.chain, m, i, found.rule->0));
        assert(m == n);
    }
    i
}

proof fn lemma_prototypes_count(stack: Seq<LevelV>, first: int, k: int)
    ensures
        prototypes_before(stack, first, k) >= 0,
    decreases k - first,
{
    if k > first {
        lemma_prototypes_count(stack, first, k - 1);
    }
}

proof fn lemma_no_escape(h: Hunt)
    requires
        hunts(h),
        h.end == text::byte_len(h.line),
    ensures
        caught(h) matches Some(Ok((_, Some(found)))) ==> found.rule is Some,
{
    let (end, escape) = search::escape_found(
        h.st.escape_stack,
        0,
        h.line,
        h.start,
        text::byte_len(h.line),
        None,
    );
    lemma_escapes(h.st.escape_stack, 0, h.line, h.start, text::byte_len(h.line), None);
    lemma_one_bound(h.st.escape_stack, h.line, h.start, end, h.end);
    let scan = ScanV {
        memory: h.memory,
        min_start: usize::MAX,
        best: None,
        looping: false,
        stop: false,
    };
    assert(still_true(h, h.memory));
    assert(scanned(h, scan, 0, 0));
    lemma_scan_chain(h, scan, 0);
}

} // verus!
