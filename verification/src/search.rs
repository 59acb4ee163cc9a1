//! Which rule matches next: pattern search and the choice of the best match.

use crate::cache;
use crate::cache::{CacheV, SearchCache};
use crate::regex;
use crate::regex::{Expression, ExpressionV, Region};
use crate::state::{EscapeV, LevelV, ParseState, RegionV, StateV};
use crate::syntax;
use crate::syntax::{
    ContextId, ErrorV, MatchOperation, MatchPattern, ParsingError, RuleId, SyntaxReference,
    SyntaxSet,
};
use crate::text;
use crate::views;
use vstd::prelude::*;
use vstd::string::*;

verus! {

broadcast use crate::views::group_views;

/// How deep the stack of contexts may get.
pub const MAX_STACK_DEPTH: usize = 100;

/// The model of a [`RegexMatch`].
pub struct FoundV {
    pub regions: RegionV,
    pub rule: Option<RuleId>,
    pub from_with_prototype: bool,
    pub would_loop: bool,
    pub escape_index: usize,
}

/// A match of a rule, or of the escape of an embed.
#[derive(Debug)]
pub(crate) struct RegexMatch {
    pub(crate) regions: Region,
    /// The rule; `None` for an escape.
    pub(crate) rule: Option<RuleId>,
    /// Whether the rule came from a `with_prototype`.
    pub(crate) from_with_prototype: bool,
    /// Whether the match would undo a push that consumed nothing.
    pub(crate) would_loop: bool,
    /// Which escape matched.
    pub(crate) escape_index: usize,
}

impl View for RegexMatch {
    type V = FoundV;

    open(crate) spec fn view(&self) -> FoundV {
        FoundV {
            regions: self.regions@,
            rule: self.rule,
            from_with_prototype: self.from_with_prototype,
            would_loop: self.would_loop,
            escape_index: self.escape_index,
        }
    }
}

/// Whether the operation pushes contexts on top of the current one.
pub open spec fn deepens(op: MatchOperation) -> bool {
    op is Push || op is Branch || op is Embed
}

/// Whether a match gets the parser anywhere: a plain match must consume
/// something, and a push must not exceed the depth limit.
pub open spec fn does_something(op: MatchOperation, region: RegionV, depth: int) -> bool {
    if op is Nothing {
        regex::whole(region).0 != regex::whole(region).1
    } else if deepens(op) {
        depth < MAX_STACK_DEPTH
    } else {
        true
    }
}

/// The expression to search for, with the groups of the match that pushed the
/// context substituted if the rule refers to them. Only a rule that does
/// something else than match may match empty.
pub open spec fn rule_expression(pat: MatchPattern, captures: Option<(RegionV, Seq<char>)>) -> ExpressionV {
    ExpressionV {
        pattern: if pat.has_captures && captures is Some {
            regex::substituted(
                pat.regex@.pattern,
                0,
                false,
                (captures->0).0,
                (captures->0).1,
            )
        } else {
            pat.regex@.pattern
        },
        allow_empty: !(pat.operation is Nothing),
    }
}

/// The expression that ends an embed; it may match empty.
pub open spec fn escape_expression(escape: EscapeV) -> ExpressionV {
    ExpressionV { pattern: escape.regex.pattern, allow_empty: true }
}

/// The match of a rule in the bytes `start..search_end` of the line, and what is
/// remembered then. Searches of the whole rest of the line are remembered, unless
/// their expression was made for the occasion.
pub open spec fn searched(
    line: Seq<char>,
    start: usize,
    search_end: usize,
    rule: RuleId,
    pat: MatchPattern,
    captures: Option<(RegionV, Seq<char>)>,
    depth: int,
    memory: CacheV,
) -> (CacheV, Option<RegionV>) {
    let full = search_end == text::byte_len(line);
    let key = cache::key_of(rule);
    if full && memory.contains_key(key) && memory[key] is None {
        (memory, None)
    } else if full && memory.contains_key(key) && regex::whole(memory[key]->0).0 >= start {
        (memory, memory[key])
    } else {
        let keeps = full && !(pat.has_captures && captures is Some);
        let found = regex::search(rule_expression(pat, captures), line, start, search_end);
        match found {
            Some(region) => if does_something(pat.operation, region, depth) {
                (
                    if keeps {
                        memory.insert(key, Some(region))
                    } else {
                        memory
                    },
                    Some(region),
                )
            } else {
                (memory, None)
            },
            None => (
                if keeps {
                    memory.insert(key, None)
                } else {
                    memory
                },
                None,
            ),
        }
    }
}

/// A context whose rules are tried, and the frame whose match its rules may
/// refer back to.
#[derive(Clone, Copy, Debug)]
pub struct ChainEntry {
    pub with_prototype: bool,
    pub context: ContextId,
    pub level: Option<usize>,
}

/// `acc`, then the `with_prototype` contexts of the frames `stack[k..]`.
pub open spec fn prototype_chain(acc: Seq<ChainEntry>, stack: Seq<LevelV>, k: int) -> Seq<ChainEntry>
    decreases stack.len() - k,
{
    if k < 0 || k >= stack.len() {
        acc
    } else {
        let own = Seq::new(
            stack[k].prototypes.len(),
            |i: int|
                ChainEntry {
                    with_prototype: true,
                    context: stack[k].prototypes[i],
                    level: Some(k as usize),
                },
        );
        prototype_chain(acc + own, stack, k + 1)
    }
}

/// The contexts whose rules are tried, in order: the `with_prototype`s that
/// apply, the prototype of the current context, the current context.
pub open spec fn context_chain(
    stack: Seq<LevelV>,
    proto_starts: Seq<usize>,
    prototype: Option<ContextId>,
) -> Seq<ChainEntry>
    recommends
        stack.len() > 0,
{
    let first = if proto_starts.len() > 0 {
        proto_starts.last()
    } else {
        0
    };
    let a = prototype_chain(Seq::empty(), stack, first as int);
    let b = match prototype {
        Some(p) => a.push(ChainEntry { with_prototype: false, context: p, level: None }),
        None => a,
    };
    b.push(
        ChainEntry {
            with_prototype: false,
            context: stack.last().context,
            level: Some((stack.len() - 1) as usize),
        },
    )
}

/// The match that a chain entry's rules may refer back to.
pub open spec fn entry_captures(stack: Seq<LevelV>, entry: ChainEntry) -> Option<(RegionV, Seq<char>)> {
    match entry.level {
        Some(k) => if k < stack.len() {
            stack[k as int].captures
        } else {
            None
        },
        None => None,
    }
}

/// The earliest escape match among `escapes[i..]` and what was found before,
/// and where it starts (`end`).
pub open spec fn escape_found(
    escapes: Seq<EscapeV>,
    i: int,
    line: Seq<char>,
    start: usize,
    end: usize,
    best: Option<(usize, RegionV)>,
) -> (usize, Option<(usize, RegionV)>)
    decreases escapes.len() - i,
{
    if i < 0 || i >= escapes.len() {
        (end, best)
    } else {
        match regex::search(escape_expression(escapes[i]), line, start, text::byte_len(line)) {
            Some(region) => if regex::whole(region).0 < end {
                escape_found(
                    escapes,
                    i + 1,
                    line,
                    start,
                    regex::whole(region).0,
                    Some((i as usize, region)),
                )
            } else {
                escape_found(escapes, i + 1, line, start, end, best)
            },
            None => escape_found(escapes, i + 1, line, start, end, best),
        }
    }
}

/// Whether the operation is a branch that is exhausted at this position.
pub open spec fn is_skipped(skipped: Seq<(usize, Seq<char>)>, start: usize, op: MatchOperation) -> bool {
    match op {
        MatchOperation::Branch { name, alternatives, pop_count } => skipped.contains((start, name@)),
        _ => false,
    }
}

/// Whether a match that consumes nothing would take the stack back to the depth
/// before a push that consumed nothing.
pub open spec fn undoes_push(op: MatchOperation, stack_len: int, pre_push_depth: usize) -> bool {
    match op {
        MatchOperation::Pop(n) => (if stack_len >= n {
            stack_len - n
        } else {
            0
        }) == pre_push_depth,
        _ => false,
    }
}

/// The best match so far.
pub struct ScanV {
    pub memory: CacheV,
    pub min_start: usize,
    pub best: Option<FoundV>,
    pub looping: bool,
    pub stop: bool,
}

/// What stays the same while the rules are tried.
pub struct QueryV {
    pub start: usize,
    pub search_end: usize,
    pub check_pop_loop: bool,
    pub pre_push_depth: usize,
}

/// The scan after one more rule.
pub open spec fn scan_rule(
    s: ScanV,
    ss: Seq<SyntaxReference>,
    line: Seq<char>,
    st: StateV,
    q: QueryV,
    entry: ChainEntry,
    rule: RuleId,
) -> Result<ScanV, ErrorV> {
    match syntax::context_of(ss, rule.0) {
        Err(e) => Err(e),
        Ok(context) => match syntax::rule_at(context, rule.1) {
            Err(e) => Err(e),
            Ok(pat) => if is_skipped(st.skipped_branches, q.start, pat.operation) {
                Ok(s)
            } else {
                let (memory, found) = searched(
                    line,
                    q.start,
                    q.search_end,
                    rule,
                    pat,
                    entry_captures(st.stack, entry),
                    st.stack.len() as int,
                    s.memory,
                );
                match found {
                    None => Ok(ScanV { memory, ..s }),
                    Some(region) => {
                        let (first, last) = regex::whole(region);
                        if first < s.min_start || (first == s.min_start && s.looping) {
                            let looping = q.check_pop_loop && last <= q.start && undoes_push(
                                pat.operation,
                                st.stack.len() as int,
                                q.pre_push_depth,
                            );
                            if deepens(pat.operation) && st.stack.len() >= MAX_STACK_DEPTH {
                                Ok(
                                    ScanV {
                                        memory,
                                        min_start: first,
                                        best: None,
                                        looping,
                                        stop: true,
                                    },
                                )
                            } else {
                                Ok(
                                    ScanV {
                                        memory,
                                        min_start: first,
                                        best: Some(
                                            FoundV {
                                                regions: region,
                                                rule: Some(rule),
                                                from_with_prototype: entry.with_prototype,
                                                would_loop: looping,
                                                escape_index: 0,
                                            },
                                        ),
                                        looping,
                                        stop: first == q.start && !looping,
                                    },
                                )
                            }
                        } else {
                            Ok(ScanV { memory, ..s })
                        }
                    },
                }
            },
        },
    }
}

/// The scan after the rules `rules[j..]`, unless it stops earlier.
pub open spec fn scan_rules(
    s: ScanV,
    ss: Seq<SyntaxReference>,
    line: Seq<char>,
    st: StateV,
    q: QueryV,
    entry: ChainEntry,
    rules: Seq<RuleId>,
    j: int,
) -> Result<ScanV, ErrorV>
    decreases rules.len() - j,
{
    if s.stop || j < 0 || j >= rules.len() {
        Ok(s)
    } else {
        match scan_rule(s, ss, line, st, q, entry, rules[j]) {
            Err(e) => Err(e),
            Ok(next) => scan_rules(next, ss, line, st, q, entry, rules, j + 1),
        }
    }
}

/// The scan after the contexts `chain[k..]`, unless it stops earlier. `None`
/// where includes nest deeper than `fuel`.
pub open spec fn scan_chain(
    fuel: nat,
    s: ScanV,
    ss: Seq<SyntaxReference>,
    line: Seq<char>,
    st: StateV,
    q: QueryV,
    chain: Seq<ChainEntry>,
    k: int,
) -> Option<Result<ScanV, ErrorV>>
    decreases chain.len() - k,
{
    if s.stop || k < 0 || k >= chain.len() {
        Some(Ok(s))
    } else {
        match syntax::rules_onto(fuel, ss, chain[k].context, 0, Seq::empty()) {
            None => None,
            Some(Err(e)) => Some(Err(e)),
            Some(Ok(rules)) => match scan_rules(s, ss, line, st, q, chain[k], rules, 0) {
                Err(e) => Some(Err(e)),
                Ok(next) => scan_chain(fuel, next, ss, line, st, q, chain, k + 1),
            },
        }
    }
}

/// The match of an escape.
pub open spec fn escape_match(index: usize, region: RegionV) -> FoundV {
    FoundV {
        regions: region,
        rule: None,
        from_with_prototype: false,
        would_loop: false,
        escape_index: index,
    }
}

/// The best match at or after `start`, and what is remembered then. Escapes come
/// first: one that matches at `start` wins, and one that matches later hides
/// what lies behind it from the rules. Among the rules the earliest match wins,
/// and of equally early ones the first that would not loop.
pub open spec fn best_match(
    fuel: nat,
    ss: Seq<SyntaxReference>,
    line: Seq<char>,
    st: StateV,
    start: usize,
    memory: CacheV,
    check_pop_loop: bool,
    pre_push_depth: usize,
) -> Option<Result<(CacheV, Option<FoundV>), ErrorV>> {
    if st.stack.len() == 0 {
        Some(Err(ErrorV::MissingMainContext))
    } else {
        match syntax::context_of(ss, st.stack.last().context) {
            Err(e) => Some(Err(e)),
            Ok(context) => {
                let (search_end, escape) = escape_found(
                    st.escape_stack,
                    0,
                    line,
                    start,
                    text::byte_len(line),
                    None,
                );
                if escape is Some && search_end == start {
                    Some(Ok((memory, Some(escape_match((escape->0).0, (escape->0).1)))))
                } else {
                    let q = QueryV { start, search_end, check_pop_loop, pre_push_depth };
                    let scan = ScanV {
                        memory,
                        min_start: usize::MAX,
                        best: None,
                        looping: false,
                        stop: false,
                    };
                    let chain = context_chain(st.stack, st.proto_starts, context.prototype);
                    match scan_chain(fuel, scan, ss, line, st, q, chain, 0) {
                        None => None,
                        Some(Err(e)) => Some(Err(e)),
                        Some(Ok(s)) => if !s.stop && escape is Some && (search_end < s.min_start
                            || (search_end == s.min_start && s.looping)) {
                            Some(
                                Ok(
                                    (
                                        s.memory,
                                        Some(escape_match((escape->0).0, (escape->0).1)),
                                    ),
                                ),
                            )
                        } else {
                            Some(Ok((s.memory, s.best)))
                        },
                    }
                }
            },
        }
    }
}

fn op_deepens(op: &MatchOperation) -> (r: bool)
    ensures
        r == deepens(*op),
{
    match op {
        MatchOperation::Push { .. } => true,
        MatchOperation::Branch { .. } => true,
        MatchOperation::Embed { .. } => true,
        _ => false,
    }
}

fn gets_anywhere(op: &MatchOperation, region: &Region, depth: usize) -> (r: bool)
    ensures
        r == does_something(*op, region@, depth as int),
{
    match op {
        MatchOperation::Nothing => {
            let (first, last) = region.whole_match();
            first != last
        },
        _ => !op_deepens(op) || depth < MAX_STACK_DEPTH,
    }
}

impl ParseState {
    /// See [`entry_captures`].
    fn captures_of(&self, entry: &ChainEntry) -> (r: Option<&(Region, String)>)
        ensures
            match r {
                Some(c) => entry_captures(self@.stack, *entry) == Some(c@),
                None => entry_captures(self@.stack, *entry) is None,
            },
    {
        match entry.level {
            Some(k) => if k < self.stack.len() {
                match &self.stack[k].captures {
                    Some(c) => Some(c),
                    None => None,
                }
            } else {
                None
            },
            None => None,
        }
    }

    /// Searches for a rule, through what is remembered. See [`searched`].
    fn search_with_end(
        &self,
        line: &str,
        start: usize,
        search_end: usize,
        rule: RuleId,
        match_pat: &MatchPattern,
        captures: Option<&(Region, String)>,
        search_cache: &mut SearchCache,
    ) -> (r: Option<Region>)
        ensures
            ({
                let (memory, found) = searched(
                    line@,
                    start,
                    search_end,
                    rule,
                    *match_pat,
                    match captures {
                        Some(c) => Some(c@),
                        None => None,
                    },
                    self@.stack.len() as int,
                    cache::contents(*old(search_cache)),
                );
                views::opt(r) == found && cache::contents(*final(search_cache)) == memory
            }),
    {
        let full = search_end == line.len();
        if full {
            match cache::look_up(search_cache, rule) {
                Some(Some(region)) => {
                    if region.whole_match().0 >= start {
                        return Some(region);
                    }
                },
                Some(None) => {
                    return None;
                },
                None => {},
            }
        }
        let allow_empty = match &match_pat.operation {
            MatchOperation::Nothing => false,
            _ => true,
        };
        let substitutes = match_pat.has_captures && captures.is_some();
        let found = match captures {
            Some(c) => if match_pat.has_captures {
                let pattern = regex::substitute_backrefs_in_regex(
                    match_pat.regex.regex_str(),
                    &c.0,
                    c.1.as_str(),
                );
                let expression = Expression::new(pattern, allow_empty);
                expression.search(line, start, search_end, allow_empty)
            } else {
                match_pat.regex.search(line, start, search_end, allow_empty)
            },
            None => match_pat.regex.search(line, start, search_end, allow_empty),
        };
        match found {
            Some(region) => {
                if gets_anywhere(&match_pat.operation, &region, self.stack.len()) {
                    if full && !substitutes {
                        cache::remember(search_cache, rule, Some(region.clone()));
                    }
                    Some(region)
                } else {
                    None
                }
            },
            None => {
                if full && !substitutes {
                    cache::remember(search_cache, rule, None);
                }
                None
            },
        }
    }
}

/// See [`ScanV`].
struct Scan {
    min_start: usize,
    best: Option<RegexMatch>,
    looping: bool,
    stop: bool,
}

spec fn scan_view(scan: Scan, memory: CacheV) -> ScanV {
    ScanV {
        memory,
        min_start: scan.min_start,
        best: views::opt(scan.best),
        looping: scan.looping,
        stop: scan.stop,
    }
}

/// See [`QueryV`].
#[derive(Clone, Copy)]
struct Query {
    start: usize,
    search_end: usize,
    check_pop_loop: bool,
    pre_push_depth: usize,
}

spec fn query_view(q: Query) -> QueryV {
    QueryV {
        start: q.start,
        search_end: q.search_end,
        check_pop_loop: q.check_pop_loop,
        pre_push_depth: q.pre_push_depth,
    }
}

impl ParseState {
    /// See [`is_skipped`].
    fn branch_skipped(&self, start: usize, op: &MatchOperation) -> (r: bool)
        ensures
            r == is_skipped(self@.skipped_branches, start, *op),
    {
        if let MatchOperation::Branch { name, alternatives: _, pop_count: _ } = op {
            for i in 0..self.skipped_branches.len()
                invariant
                    op is Branch && op->Branch_name == *name,
                    forall|k: int|
                        0 <= k < i ==> self@.skipped_branches[k] != (start, name@),
            {
                assert(self@.skipped_branches[i as int] == self.skipped_branches@[i as int]@);
                if self.skipped_branches[i].0 == start && self.skipped_branches[i].1 == *name {
                    assert(self@.skipped_branches[i as int] == (start, name@));
                    return true;
                }
            }
            assert(!self@.skipped_branches.contains((start, name@)));
        }
        false
    }

    /// See [`escape_found`].
    fn find_escape(&self, line: &str, start: usize) -> (r: (usize, Option<(usize, Region)>))
        ensures
            ({
                let (end, found) = escape_found(
                    self@.escape_stack,
                    0,
                    line@,
                    start,
                    text::byte_len(line@),
                    None,
                );
                r.0 == end && match r.1 {
                    Some((i, region)) => found == Some((i, region@)),
                    None => found is None,
                }
            }),
    {
        let len: usize = line.len();
        let mut end: usize = len;
        let mut best: Option<(usize, Region)> = None;
        let mut i: usize = 0;
        while i < self.escape_stack.len()
            invariant
                i <= self.escape_stack@.len(),
                len == text::byte_len(line@),
                escape_found(
                    self@.escape_stack,
                    i as int,
                    line@,
                    start,
                    end,
                    match best {
                        Some((k, region)) => Some((k, region@)),
                        None => None,
                    },
                ) == escape_found(
                    self@.escape_stack,
                    0,
                    line@,
                    start,
                    text::byte_len(line@),
                    None,
                ),
            decreases self.escape_stack@.len() - i,
        {
            assert(self@.escape_stack[i as int] == self.escape_stack@[i as int]@);
            if let Some(region) = self.escape_stack[i].regex.search(line, start, len, true) {
                let first: usize = region.whole_match().0;
                if first < end {
                    end = first;
                    best = Some((i, region));
                }
            }
            i += 1;
        }
        (end, best)
    }

    /// See [`context_chain`].
    fn chain(&self, prototype: Option<ContextId>) -> (r: Vec<ChainEntry>)
        requires
            self@.stack.len() > 0,
        ensures
            r@ == context_chain(self@.stack, self@.proto_starts, prototype),
    {
        let first: usize = if self.proto_starts.len() > 0 {
            self.proto_starts[self.proto_starts.len() - 1]
        } else {
            0
        };
        let mut chain: Vec<ChainEntry> = Vec::new();
        let mut k: usize = first;
        while k < self.stack.len()
            invariant
                prototype_chain(chain@, self@.stack, k as int) == prototype_chain(
                    Seq::empty(),
                    self@.stack,
                    first as int,
                ),
            decreases self.stack@.len() - k,
        {
            let ghost acc = chain@;
            let protos = &self.stack[k].prototypes;
            assert(self@.stack[k as int] == self.stack@[k as int]@);
            for i in 0..protos.len()
                invariant
                    chain@ == acc + Seq::new(
                        i as nat,
                        |n: int|
                            ChainEntry {
                                with_prototype: true,
                                context: protos@[n],
                                level: Some(k),
                            },
                    ),
            {
                chain.push(ChainEntry { with_prototype: true, context: protos[i], level: Some(k) });
                assert(chain@ =~= acc + Seq::new(
                    (i + 1) as nat,
                    |n: int|
                        ChainEntry { with_prototype: true, context: protos@[n], level: Some(k) },
                ));
            }
            assert(chain@ =~= acc + Seq::new(
                self@.stack[k as int].prototypes.len(),
                |i: int|
                    ChainEntry {
                        with_prototype: true,
                        context: self@.stack[k as int].prototypes[i],
                        level: Some(k as int as usize),
                    },
            ));
            k += 1;
        }
        if let Some(p) = prototype {
            chain.push(ChainEntry { with_prototype: false, context: p, level: None });
        }
        let top: usize = self.stack.len() - 1;
        assert(self@.stack.last() == self.stack@[top as int]@);
        chain.push(
            ChainEntry {
                with_prototype: false,
                context: self.stack[top].context,
                level: Some(top),
            },
        );
        chain
    }

    /// See [`scan_rule`].
    fn try_rule(
        &self,
        scan: &mut Scan,
        line: &str,
        q: Query,
        entry: &ChainEntry,
        rule: RuleId,
        syntax_set: &SyntaxSet,
        search_cache: &mut SearchCache,
    ) -> (r: Result<(), ParsingError>)
        ensures
            match r {
                Ok(_) => scan_rule(
                    scan_view(*old(scan), cache::contents(*old(search_cache))),
                    syntax_set@,
                    line@,
                    self@,
                    query_view(q),
                    *entry,
                    rule,
                ) == Ok::<ScanV, ErrorV>(
                    scan_view(*final(scan), cache::contents(*final(search_cache))),
                ),
                Err(e) => scan_rule(
                    scan_view(*old(scan), cache::contents(*old(search_cache))),
                    syntax_set@,
                    line@,
                    self@,
                    query_view(q),
                    *entry,
                    rule,
                ) == Err::<ScanV, ErrorV>(e@),
            },
    {
        let context = match syntax_set.get_context(&rule.0) {
            Ok(context) => context,
            Err(e) => {
                return Err(e);
            },
        };
        let pat = match context.match_at(rule.1) {
            Ok(pat) => pat,
            Err(e) => {
                return Err(e);
            },
        };
        if self.branch_skipped(q.start, &pat.operation) {
            return Ok(());
        }
        let captures = self.captures_of(entry);
        let found = self.search_with_end(
            line,
            q.start,
            q.search_end,
            rule,
            pat,
            captures,
            search_cache,
        );
        if let Some(region) = found {
            let (first, last) = region.whole_match();
            if first < scan.min_start || (first == scan.min_start && scan.looping) {
                let depth: usize = self.stack.len();
                let undoes = match &pat.operation {
                    MatchOperation::Pop(n) => depth.saturating_sub(*n) == q.pre_push_depth,
                    _ => false,
                };
                let looping = q.check_pop_loop && last <= q.start && undoes;
                scan.min_start = first;
                scan.looping = looping;
                if op_deepens(&pat.operation) && depth >= MAX_STACK_DEPTH {
                    scan.best = None;
                    scan.stop = true;
                } else {
                    scan.best = Some(
                        RegexMatch {
                            regions: region,
                            rule: Some(rule),
                            from_with_prototype: entry.with_prototype,
                            would_loop: looping,
                            escape_index: 0,
                        },
                    );
                    scan.stop = first == q.start && !looping;
                }
            }
        }
        Ok(())
    }

    /// See [`scan_rules`].
    fn try_rules(
        &self,
        scan: &mut Scan,
        line: &str,
        q: Query,
        entry: &ChainEntry,
        rules: &Vec<RuleId>,
        syntax_set: &SyntaxSet,
        search_cache: &mut SearchCache,
    ) -> (r: Result<(), ParsingError>)
        ensures
            match r {
                Ok(_) => scan_rules(
                    scan_view(*old(scan), cache::contents(*old(search_cache))),
                    syntax_set@,
                    line@,
                    self@,
                    query_view(q),
                    *entry,
                    rules@,
                    0,
                ) == Ok::<ScanV, ErrorV>(
                    scan_view(*final(scan), cache::contents(*final(search_cache))),
                ),
                Err(e) => scan_rules(
                    scan_view(*old(scan), cache::contents(*old(search_cache))),
                    syntax_set@,
                    line@,
                    self@,
                    query_view(q),
                    *entry,
                    rules@,
                    0,
                ) == Err::<ScanV, ErrorV>(e@),
            },
    {
        let mut j: usize = 0;
        while !scan.stop && j < rules.len()
            invariant
                j <= rules@.len(),
                scan_rules(
                    scan_view(*scan, cache::contents(*search_cache)),
                    syntax_set@,
                    line@,
                    self@,
                    query_view(q),
                    *entry,
                    rules@,
                    j as int,
                ) == scan_rules(
                    scan_view(*old(scan), cache::contents(*old(search_cache))),
                    syntax_set@,
                    line@,
                    self@,
                    query_view(q),
                    *entry,
                    rules@,
                    0,
                ),
            decreases rules@.len() - j,
        {
            match self.try_rule(scan, line, q, entry, rules[j], syntax_set, search_cache) {
                Ok(_) => {},
                Err(e) => {
                    return Err(e);
                },
            }
            j += 1;
        }
        Ok(())
    }

    /// See [`scan_chain`].
    fn try_chain(
        &self,
        scan: &mut Scan,
        line: &str,
        q: Query,
        chain: &Vec<ChainEntry>,
        syntax_set: &SyntaxSet,
        search_cache: &mut SearchCache,
        limit: Option<u64>,
        Ghost(fuel): Ghost<nat>,
    ) -> (r: Option<Result<(), ParsingError>>)
        requires
            syntax::covers(limit, fuel),
            limit is None ==> scan_chain(
                fuel,
                scan_view(*old(scan), cache::contents(*old(search_cache))),
                syntax_set@,
                line@,
                self@,
                query_view(q),
                chain@,
                0,
            ) is Some,
        ensures
            ({
                let model = scan_chain(
                    fuel,
                    scan_view(*old(scan), cache::contents(*old(search_cache))),
                    syntax_set@,
                    line@,
                    self@,
                    query_view(q),
                    chain@,
                    0,
                );
                match r {
                    None => model is None,
                    Some(Ok(_)) => model == Some(
                        Ok::<ScanV, ErrorV>(
                            scan_view(*final(scan), cache::contents(*final(search_cache))),
                        ),
                    ),
                    Some(Err(e)) => model == Some(Err::<ScanV, ErrorV>(e@)),
                }
            }),
    {
        let ghost goal = scan_chain(
            fuel,
            scan_view(*scan, cache::contents(*search_cache)),
            syntax_set@,
            line@,
            self@,
            query_view(q),
            chain@,
            0,
        );
        let mut k: usize = 0;
        while !scan.stop && k < chain.len()
            invariant
                k <= chain@.len(),
                syntax::covers(limit, fuel),
                limit is None ==> goal is Some,
                goal == scan_chain(
                    fuel,
                    scan_view(*old(scan), cache::contents(*old(search_cache))),
                    syntax_set@,
                    line@,
                    self@,
                    query_view(q),
                    chain@,
                    0,
                ),
                goal == scan_chain(
                    fuel,
                    scan_view(*scan, cache::contents(*search_cache)),
                    syntax_set@,
                    line@,
                    self@,
                    query_view(q),
                    chain@,
                    k as int,
                ),
            decreases chain@.len() - k,
        {
            let mut rules: Vec<RuleId> = Vec::new();
            match syntax_set.rules_of(chain[k].context, limit, Ghost(fuel), &mut rules) {
                None => {
                    return None;
                },
                Some(Err(e)) => {
                    return Some(Err(e));
                },
                Some(Ok(_)) => {},
            }
            match self.try_rules(scan, line, q, &chain[k], &rules, syntax_set, search_cache) {
                Ok(_) => {},
                Err(e) => {
                    return Some(Err(e));
                },
            }
            k += 1;
        }
        Some(Ok(()))
    }

    /// The best match at or after `start`. See [`best_match`].
    pub(crate) fn find_best_match(
        &self,
        line: &str,
        start: usize,
        syntax_set: &SyntaxSet,
        search_cache: &mut SearchCache,
        check_pop_loop: bool,
        pre_push_depth: usize,
        limit: Option<u64>,
        Ghost(fuel): Ghost<nat>,
    ) -> (r: Option<Result<Option<RegexMatch>, ParsingError>>)
        requires
            syntax::covers(limit, fuel),
            limit is None ==> best_match(
                fuel,
                syntax_set@,
                line@,
                self@,
                start,
                cache::contents(*old(search_cache)),
                check_pop_loop,
                pre_push_depth,
            ) is Some,
        ensures
            ({
                let model = best_match(
                    fuel,
                    syntax_set@,
                    line@,
                    self@,
                    start,
                    cache::contents(*old(search_cache)),
                    check_pop_loop,
                    pre_push_depth,
                );
                match r {
                    None => model is None,
                    Some(Ok(found)) => model == Some(
                        Ok::<(CacheV, Option<FoundV>), ErrorV>(
                            (cache::contents(*final(search_cache)), views::opt(found)),
                        ),
                    ),
                    Some(Err(e)) => model == Some(Err::<(CacheV, Option<FoundV>), ErrorV>(e@)),
                }
            }),
    {
        if self.stack.len() == 0 {
            return Some(Err(ParsingError::MissingMainContext));
        }
        let top: usize = self.stack.len() - 1;
        assert(self@.stack.last() == self.stack@[top as int]@);
        let context = match syntax_set.get_context(&self.stack[top].context) {
            Ok(context) => context,
            Err(e) => {
                return Some(Err(e));
            },
        };
        let (search_end, escape) = self.find_escape(line, start);
        if search_end == start {
            if let Some((escape_index, regions)) = escape {
                return Some(
                    Ok(
                        Some(
                            RegexMatch {
                                regions,
                                rule: None,
                                from_with_prototype: false,
                                would_loop: false,
                                escape_index,
                            },
                        ),
                    ),
                );
            }
        }
        let q = Query { start, search_end, check_pop_loop, pre_push_depth };
        let chain = self.chain(context.prototype);
        let mut scan = Scan {
            min_start: usize::MAX,
            best: None,
            looping: false,
            stop: false,
        };
        match self.try_chain(
            &mut scan,
            line,
            q,
            &chain,
            syntax_set,
            search_cache,
            limit,
            Ghost(fuel),
        ) {
            None => {
                return None;
            },
            Some(Err(e)) => {
                return Some(Err(e));
            },
            Some(Ok(_)) => {},
        }
        if !scan.stop && (search_end < scan.min_start || (search_end == scan.min_start
            && scan.looping)) {
            if let Some((escape_index, regions)) = escape {
                return Some(
                    Ok(
                        Some(
                            RegexMatch {
                                regions,
                                rule: None,
                                from_with_prototype: false,
                                would_loop: false,
                                escape_index,
                            },
                        ),
                    ),
                );
            }
        }
        Some(Ok(scan.best))
    }
}

} // verus!
