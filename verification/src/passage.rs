//! How a line goes on where no rule has its say: an escape ends its embed, nothing is
//! found, the line is over.

use crate::cache::CacheV;
use crate::captures;
use crate::effects;
use crate::embed;
use crate::engine;
use crate::engine::CursorV;
use crate::layers;
use crate::order;
use crate::regex;
use crate::scope;
use crate::scope::{Op, ScopeStackOp, StackV};
use crate::search;
use crate::search::FoundV;
use crate::semantics;
use crate::state;
use crate::state::{BranchV, EscapeV, LevelV, StateV};
use crate::syntax;
use crate::syntax::SyntaxReference;
use crate::text;
use vstd::prelude::*;
use vstd::utf8::*;

verus! {

/// Whether `n` is where the character after the one at `pos` starts: the first
/// boundary behind `pos`, and not the end of the line.
pub open spec fn starts_next(line: Seq<char>, pos: usize, n: usize) -> bool {
    &&& pos < n < encode_utf8(line).len()
    &&& is_char_boundary(encode_utf8(line), n as int)
    &&& forall|k: int| pos < k < n ==> !#[trigger] is_char_boundary(encode_utf8(line), k)
}

proof fn lemma_boundary(line: Seq<char>, from: int, n: int)
    requires
        0 <= from <= n <= encode_utf8(line).len(),
        n < encode_utf8(line).len() ==> is_char_boundary(encode_utf8(line), n),
        forall|k: int| from <= k < n ==> !#[trigger] is_char_boundary(encode_utf8(line), k),
    ensures
        text::boundary_from(line, from) == n,
    decreases n - from,
{
    if from < n {
        lemma_boundary(line, from + 1, n);
    }
}

proof fn lemma_boundary_is_first(line: Seq<char>, from: int)
    requires
        0 <= from <= encode_utf8(line).len(),
    ensures
        ({
            let n = text::boundary_from(line, from);
            &&& from <= n <= encode_utf8(line).len()
            &&& n < encode_utf8(line).len() ==> is_char_boundary(encode_utf8(line), n)
            &&& forall|k: int| from <= k < n ==> !#[trigger] is_char_boundary(encode_utf8(line), k)
        }),
    decreases encode_utf8(line).len() - from,
{
    if from < encode_utf8(line).len() && !is_char_boundary(encode_utf8(line), from) {
        lemma_boundary_is_first(line, from + 1);
    }
}

/// The character after the one at a position is found exactly where there is one, and
/// none is passed over.
pub proof fn law_next_character(line: Seq<char>, pos: usize)
    requires
        encode_utf8(line).len() <= usize::MAX,
    ensures
        match text::next_char(line, pos) {
            Some(n) => starts_next(line, pos, n),
            None => forall|n: usize| !#[trigger] starts_next(line, pos, n),
        },
{
    let len = encode_utf8(line).len() as int;
    if pos + 1 <= len {
        lemma_boundary_is_first(line, pos + 1);
        assert forall|n: usize| #[trigger] starts_next(line, pos, n) implies text::next_char(
            line,
            pos,
        ) == Some(n) by {
            lemma_boundary(line, pos + 1, n as int);
        }
    }
}

/// Whether the step that starts at the cursor finds the end of an embed.
pub open spec fn finds_escape(
    fuel: nat,
    ss: Seq<SyntaxReference>,
    line: Seq<char>,
    st: StateV,
    cur: CursorV,
    starts: Seq<usize>,
    memory: CacheV,
    found: FoundV,
) -> bool {
    let len = st.stack.len();
    &&& effects::trims(st.proto_starts, len, starts)
    &&& search::best_match(
        fuel,
        ss,
        line,
        StateV { proto_starts: starts, ..st },
        cur.start,
        cur.memory,
        cur.push_mark.0 == cur.start && cur.push_mark.1 < len <= cur.push_mark.2,
        cur.push_mark.1,
    ) == Some(Ok::<(CacheV, Option<FoundV>), syntax::ErrorV>((memory, Some(found))))
    &&& found.rule is None
    &&& found.escape_index < st.escape_stack.len()
}

/// How often an embed has ended with nothing at a position of this line.
pub open spec fn ended_at(st: StateV, pos: usize) -> int {
    if st.zero_width_escape_fires.dom().contains(pos) {
        st.zero_width_escape_fires[pos] as int
    } else {
        0
    }
}

/// How many frames an embed leaves on the stack when it ends.
pub open spec fn below_embed(stack: Seq<LevelV>, e: EscapeV) -> int {
    if e.stack_depth < stack.len() {
        e.stack_depth as int
    } else {
        stack.len() as int
    }
}

proof fn lemma_unwound_to(
    acc: Seq<Op>,
    ss: Seq<SyntaxReference>,
    stack: Seq<LevelV>,
    index: usize,
    target: usize,
)
    ensures
        ({
            let (left, r) = embed::unwound_to(acc, ss, stack, index, target);
            r matches Ok(ops) ==> {
                &&& left == stack.subrange(
                    0,
                    if target < stack.len() {
                        target as int
                    } else {
                        stack.len() as int
                    },
                )
                &&& order::grown(acc, ops, index, index)
            }
        }),
    decreases stack.len(),
{
    if stack.len() > target {
        if let Ok(context) = syntax::context_of(ss, stack.last().context) {
            let over = semantics::replaced_by_below(ss, stack, stack.len() - 1);
            let next = semantics::frame_unwound(acc, index, context, over);
            lemma_unwound_to(next, ss, stack.drop_last(), index, target);
            let (left, r) = embed::unwound_to(next, ss, stack.drop_last(), index, target);
            if let Ok(ops) = r {
                assert(order::grown(acc, next, index, index));
                order::lemma_grown(acc, next, ops, index, index, index);
                assert(left =~= stack.subrange(0, target as int));
            }
        }
    } else {
        assert(stack.subrange(0, stack.len() as int) =~= stack);
    }
}

/// The end of an embed takes off the stack every frame of it, and the escapes of the
/// embeds inside it; the branch points whose alternative is gone go too. Then the
/// groups of the match are coloured, and parsing goes on behind the match, with nothing
/// remembered of earlier searches. That the match was empty is counted.
pub proof fn law_escape_leaves_embed(
    fuel: nat,
    ss: Seq<SyntaxReference>,
    line: Seq<char>,
    st: StateV,
    cur: CursorV,
    starts: Seq<usize>,
    memory: CacheV,
    found: FoundV,
) -> (before: Seq<Op>)
    requires
        finds_escape(fuel, ss, line, st, cur, starts, memory, found),
        ({
            let (first, last) = regex::whole(found.regions);
            first != last || ended_at(st, first) < 100
        }),
    ensures
        ({
            let (first, last) = regex::whole(found.regions);
            let e = st.escape_stack[found.escape_index as int];
            engine::stepped(fuel, ss, line, st, cur) matches Some((next, Ok((cur1, more)))) ==> {
                &&& more
                &&& next.stack == st.stack.subrange(0, below_embed(st.stack, e))
                &&& next.escape_stack == st.escape_stack.subrange(0, found.escape_index as int)
                &&& next.branch_points == st.branch_points.filter(
                    effects::reachable(below_embed(st.stack, e)),
                )
                &&& next.proto_starts == starts
                &&& cur1.start == last
                &&& cur1.memory == CacheV::empty()
                &&& cur1.push_mark == cur.push_mark
                &&& cur1.ops == cur.ops + before + captures::group_ops(
                    e.captures,
                    found.regions,
                    false,
                )
                &&& forall|k: int| 0 <= k < before.len() ==> (#[trigger] before[k]).0 == first
                &&& ended_at(next, first) == ended_at(st, first) + if first == last {
                    1int
                } else {
                    0
                }
                &&& forall|p: usize| p != first ==> #[trigger] ended_at(next, p) == ended_at(st, p)
                &&& next.pending_lines == st.pending_lines
                &&& next.flushed_ops == st.flushed_ops
                &&& next.shadow == st.shadow
                &&& next.warnings == st.warnings
                &&& next.skipped_branches == st.skipped_branches
            }
        }),
{
    effects::lemma_trimmed(st.proto_starts, st.stack.len(), starts);
    let (first, last) = regex::whole(found.regions);
    let e = st.escape_stack[found.escape_index as int];
    let depth = below_embed(st.stack, e);
    match embed::expected_depth(ss, st.stack, 0, 0, false) {
        Ok(expected) => {
            let a = embed::without_orphans(cur.ops, st.shadow, first, expected);
            assert(order::grown(cur.ops, a, first, first));
            lemma_unwound_to(a, ss, st.stack, first, e.stack_depth);
            let (left, r) = embed::unwound_to(a, ss, st.stack, first, e.stack_depth);
            match r {
                Ok(b) => {
                    order::lemma_grown(cur.ops, a, b, first, first, first);
                    let before = b.subrange(cur.ops.len() as int, b.len() as int);
                    assert(cur.ops + before =~= b);
                    assert forall|k: int| 0 <= k < before.len() implies (
                    #[trigger] before[k]).0 == first by {
                        assert(before[k] == b[cur.ops.len() + k]);
                    }
                    let f = |bp: BranchV| state::alive(bp, left.len() as int);
                    assert(f =~= effects::reachable(depth));
                    before
                },
                Err(_) => Seq::empty(),
            }
        },
        Err(_) => Seq::empty(),
    }
}

/// An empty match that has ended an embed a hundred times at one place is stepped over,
/// one character on, and ends the line at its last character.
pub proof fn law_empty_escapes_come_to_an_end(
    fuel: nat,
    ss: Seq<SyntaxReference>,
    line: Seq<char>,
    st: StateV,
    cur: CursorV,
    starts: Seq<usize>,
    memory: CacheV,
    found: FoundV,
)
    requires
        finds_escape(fuel, ss, line, st, cur, starts, memory, found),
        encode_utf8(line).len() <= usize::MAX,
        ({
            let (first, last) = regex::whole(found.regions);
            first == last && ended_at(st, first) >= 100
        }),
    ensures
        engine::stepped(fuel, ss, line, st, cur) matches Some((next, Ok((cur1, more)))) && {
            &&& next == (StateV { proto_starts: starts, ..st })
            &&& cur1 == (CursorV { memory, start: cur1.start, ..cur })
            &&& if more {
                starts_next(line, cur.start, cur1.start)
            } else {
                cur1.start == cur.start && forall|n: usize|
                    !#[trigger] starts_next(line, cur.start, n)
            }
        },
{
    effects::lemma_trimmed(st.proto_starts, st.stack.len(), starts);
    law_next_character(line, cur.start);
}

/// Whether a branch point is not tried again at a position.
pub open spec fn tried_at(st: StateV, pos: usize) -> bool {
    exists|i: int| 0 <= i < st.skipped_branches.len() && (#[trigger] st.skipped_branches[i]).0 == pos
}

proof fn lemma_kept<A>(s: Seq<A>, f: spec_fn(A) -> bool, i: int)
    requires
        0 <= i < s.filter(f).len(),
    ensures
        s.contains(s.filter(f)[i]),
    decreases s.len(),
{
    reveal(Seq::filter);
    if s.len() > 0 {
        let front = s.drop_last();
        if i < front.filter(f).len() {
            lemma_kept(front, f, i);
            let j = choose|j: int| 0 <= j < front.len() && front[j] == front.filter(f)[i];
            assert(s[j] == s.filter(f)[i]);
        } else {
            assert(s[s.len() - 1] == s.filter(f)[i]);
        }
    }
}

/// Where nothing matches, the line is over; but where a branch point was not tried
/// again, it is from now on, and parsing goes on with the next character.
pub proof fn law_nothing_found_ends_the_line(
    fuel: nat,
    ss: Seq<SyntaxReference>,
    line: Seq<char>,
    st: StateV,
    cur: CursorV,
    starts: Seq<usize>,
    memory: CacheV,
)
    requires
        effects::trims(st.proto_starts, st.stack.len(), starts),
        encode_utf8(line).len() <= usize::MAX,
        search::best_match(
            fuel,
            ss,
            line,
            StateV { proto_starts: starts, ..st },
            cur.start,
            cur.memory,
            cur.push_mark.0 == cur.start && cur.push_mark.1 < st.stack.len() <= cur.push_mark.2,
            cur.push_mark.1,
        ) == Some(Ok::<(CacheV, Option<FoundV>), syntax::ErrorV>((memory, None))),
    ensures
        engine::stepped(fuel, ss, line, st, cur) matches Some((next, Ok((cur1, more)))) && {
            &&& next == (StateV {
                proto_starts: starts,
                skipped_branches: next.skipped_branches,
                ..st
            })
            &&& cur1.ops == cur.ops && cur1.push_mark == cur.push_mark
            &&& !tried_at(next, cur.start)
            &&& forall|p: usize| p != cur.start ==> #[trigger] tried_at(next, p) == tried_at(st, p)
            &&& more ==> tried_at(st, cur.start) && starts_next(line, cur.start, cur1.start)
                && cur1.memory == CacheV::empty()
            &&& !more ==> cur1.start == cur.start && (tried_at(st, cur.start) ==> forall|n: usize|
                !#[trigger] starts_next(line, cur.start, n))
        },
{
    effects::lemma_trimmed(st.proto_starts, st.stack.len(), starts);
    law_next_character(line, cur.start);
    let keep = engine::skip_stays(cur.start, true);
    let left = st.skipped_branches.filter(keep);
    if tried_at(st, cur.start) {
        let next = StateV { proto_starts: starts, skipped_branches: left, ..st };
        broadcast use vstd::seq_lib::group_filter_ensures;

        assert(!tried_at(next, cur.start)) by {
            if tried_at(next, cur.start) {
                let i = choose|i: int|
                    0 <= i < left.len() && (#[trigger] left[i]).0 == cur.start;
                assert(keep(left[i]));
            }
        }
        assert forall|p: usize| p != cur.start implies #[trigger] tried_at(next, p) == tried_at(
            st,
            p,
        ) by {
            if tried_at(st, p) {
                let i = choose|i: int|
                    0 <= i < st.skipped_branches.len() && (
                    #[trigger] st.skipped_branches[i]).0 == p;
                assert(keep(st.skipped_branches[i]));
                assert(left.contains(st.skipped_branches[i]));
                let j = choose|j: int| 0 <= j < left.len() && left[j] == st.skipped_branches[i];
                assert(left[j].0 == p);
            }
            if tried_at(next, p) {
                let i = choose|i: int| 0 <= i < left.len() && (#[trigger] left[i]).0 == p;
                lemma_kept(st.skipped_branches, keep, i);
                let j = choose|j: int|
                    0 <= j < st.skipped_branches.len() && st.skipped_branches[j] == left[i];
                assert(st.skipped_branches[j].0 == p);
            }
        }
    }
}

proof fn lemma_depth(
    ss: Seq<SyntaxReference>,
    root: StackV,
    stack: Seq<LevelV>,
    i: int,
    total: usize,
)
    requires
        0 <= i <= stack.len(),
        layers::laid(ss, root, stack.subrange(0, i)).scopes.len() <= total || total == usize::MAX,
    ensures
        embed::expected_depth(
            ss,
            stack,
            i,
            total,
            i > 0 && layers::replaces(ss, stack[i - 1].context),
        ) matches Ok(n) ==> layers::laid(
            ss,
            root,
            stack,
        ).scopes.len() <= n || n == usize::MAX,
    decreases stack.len() - i,
{
    if i < stack.len() {
        if let Ok(context) = syntax::context_of(ss, stack[i].context) {
            let here = stack.subrange(0, i + 1);
            assert(here.drop_last() =~= stack.subrange(0, i));
            assert(here.last() == stack[i]);
            assert(context.meta_scope.len() == context.meta_scope@.len());
            assert(context.meta_content_scope.len() == context.meta_content_scope@.len());
            let own = total.saturating_add(context.meta_scope@.len() as usize);
            let over = i > 0 && layers::replaces(ss, stack[i - 1].context);
            if i > 0 {
                assert(here[here.len() - 2] == stack[i - 1]);
            }
            let both = if over {
                own
            } else {
                own.saturating_add(context.meta_content_scope@.len() as usize)
            };
            lemma_depth(ss, root, stack, i + 1, both);
        }
    } else {
        assert(stack.subrange(0, i) =~= stack);
    }
}

proof fn lemma_unlaid(
    s: StackV,
    root: StackV,
    acc: Seq<Op>,
    ss: Seq<SyntaxReference>,
    stack: Seq<LevelV>,
    index: usize,
    target: usize,
)
    requires
        scope::applied_all(s, acc) == layers::laid(ss, root, stack),
    ensures
        ({
            let (left, r) = embed::unwound_to(acc, ss, stack, index, target);
            r matches Ok(ops) ==> scope::applied_all(s, ops) == layers::laid(ss, root, left)
        }),
    decreases stack.len(),
{
    if stack.len() > target {
        if let Ok(context) = syntax::context_of(ss, stack.last().context) {
            let over = semantics::replaced_by_below(ss, stack, stack.len() - 1);
            assert(over == layers::top_replaced(ss, stack));
            let below = layers::laid(ss, root, stack.drop_last());
            layers::lemma_frame(s, acc, index, context, over, below);
            let next = semantics::frame_unwound(acc, index, context, over);
            lemma_unlaid(s, root, next, ss, stack.drop_last(), index, target);
        }
    }
}

/// When an embed ends, its scopes are gone before the groups of the match are coloured:
/// the scope stack is again what the contexts below the embed lay one on the other.
pub proof fn law_escape_leaves_scopes(
    fuel: nat,
    ss: Seq<SyntaxReference>,
    line: Seq<char>,
    st: StateV,
    cur: CursorV,
    starts: Seq<usize>,
    memory: CacheV,
    found: FoundV,
    root: StackV,
) -> (before: Seq<Op>)
    requires
        finds_escape(fuel, ss, line, st, cur, starts, memory, found),
        ({
            let (first, last) = regex::whole(found.regions);
            first != last || ended_at(st, first) < 100
        }),
        root.scopes.len() == 0,
        scope::applied_all(st.shadow, cur.ops) == layers::laid(ss, root, st.stack),
        layers::laid(ss, root, st.stack).scopes.len() <= usize::MAX,
    ensures
        ({
            let e = st.escape_stack[found.escape_index as int];
            engine::stepped(fuel, ss, line, st, cur) matches Some((next, Ok((cur1, more)))) ==> {
                &&& cur1.ops == cur.ops + before + captures::group_ops(
                    e.captures,
                    found.regions,
                    false,
                )
                &&& scope::applied_all(st.shadow, cur.ops + before) == layers::laid(
                    ss,
                    root,
                    next.stack,
                )
            }
        }),
{
    effects::lemma_trimmed(st.proto_starts, st.stack.len(), starts);
    let (first, last) = regex::whole(found.regions);
    let e = st.escape_stack[found.escape_index as int];
    match embed::expected_depth(ss, st.stack, 0, 0, false) {
        Ok(expected) => {
            assert(st.stack.subrange(0, 0) =~= Seq::<LevelV>::empty());
            lemma_depth(ss, root, st.stack, 0, 0);
            let a = embed::without_orphans(cur.ops, st.shadow, first, expected);
            assert(a == cur.ops);
            lemma_unwound_to(a, ss, st.stack, first, e.stack_depth);
            lemma_unlaid(st.shadow, root, a, ss, st.stack, first, e.stack_depth);
            let (left, r) = embed::unwound_to(a, ss, st.stack, first, e.stack_depth);
            match r {
                Ok(b) => {
                    let before = b.subrange(cur.ops.len() as int, b.len() as int);
                    assert(cur.ops + before =~= b);
                    before
                },
                Err(_) => Seq::empty(),
            }
        },
        Err(_) => Seq::empty(),
    }
}

/// How many scopes the frames of a stack account for.
pub open spec fn accounted(ss: Seq<SyntaxReference>, stack: Seq<LevelV>) -> nat
    decreases stack.len(),
{
    if stack.len() == 0 {
        0
    } else {
        let context = syntax::context_of(ss, stack.last().context)->Ok_0;
        accounted(ss, stack.drop_last()) + context.meta_scope@.len() + layers::content_of(
            context,
            layers::top_replaced(ss, stack),
        ).len()
    }
}

proof fn lemma_accounted(ss: Seq<SyntaxReference>, stack: Seq<LevelV>, i: int, total: usize)
    requires
        0 <= i <= stack.len(),
        accounted(ss, stack.subrange(0, i)) == total,
        accounted(ss, stack) <= usize::MAX,
    ensures
        embed::expected_depth(
            ss,
            stack,
            i,
            total,
            i > 0 && layers::replaces(ss, stack[i - 1].context),
        ) matches Ok(n) ==> n == accounted(ss, stack),
    decreases stack.len() - i,
{
    if i < stack.len() {
        if let Ok(context) = syntax::context_of(ss, stack[i].context) {
            let here = stack.subrange(0, i + 1);
            assert(here.drop_last() =~= stack.subrange(0, i));
            assert(here.last() == stack[i]);
            if i > 0 {
                assert(here[here.len() - 2] == stack[i - 1]);
            }
            lemma_accounted_grows(ss, stack, i + 1);
            lemma_accounted(ss, stack, i + 1, accounted(ss, here) as usize);
        }
    } else {
        assert(stack.subrange(0, i) =~= stack);
    }
}

proof fn lemma_accounted_grows(ss: Seq<SyntaxReference>, stack: Seq<LevelV>, i: int)
    requires
        0 <= i <= stack.len(),
    ensures
        accounted(ss, stack.subrange(0, i)) <= accounted(ss, stack),
    decreases stack.len() - i,
{
    if i < stack.len() {
        let here = stack.subrange(0, i + 1);
        assert(here.drop_last() =~= stack.subrange(0, i));
        lemma_accounted_grows(ss, stack, i + 1);
    } else {
        assert(stack.subrange(0, i) =~= stack);
    }
}

/// If the consumer has more scopes than the frames account for when an embed ends, the
/// others go first, exactly as many as there are.
pub proof fn law_orphans_go_first(
    fuel: nat,
    ss: Seq<SyntaxReference>,
    line: Seq<char>,
    st: StateV,
    cur: CursorV,
    starts: Seq<usize>,
    memory: CacheV,
    found: FoundV,
)
    requires
        finds_escape(fuel, ss, line, st, cur, starts, memory, found),
        ({
            let (first, last) = regex::whole(found.regions);
            first != last || ended_at(st, first) < 100
        }),
        accounted(ss, st.stack) < scope::applied_all(st.shadow, cur.ops).scopes.len()
            <= usize::MAX,
    ensures
        engine::stepped(fuel, ss, line, st, cur) matches Some((next, Ok((cur1, more)))) ==> {
            let orphans = scope::applied_all(st.shadow, cur.ops).scopes.len() - accounted(
                ss,
                st.stack,
            );
            &&& cur.ops.len() < cur1.ops.len()
            &&& cur1.ops[cur.ops.len() as int] == (
                regex::whole(found.regions).0,
                ScopeStackOp::Pop(orphans as usize),
            )
        },
{
    effects::lemma_trimmed(st.proto_starts, st.stack.len(), starts);
    let (first, last) = regex::whole(found.regions);
    let e = st.escape_stack[found.escape_index as int];
    assert(st.stack.subrange(0, 0) =~= Seq::<LevelV>::empty());
    lemma_accounted(ss, st.stack, 0, 0);
    if let Ok(expected) = embed::expected_depth(ss, st.stack, 0, 0, false) {
        let a = embed::without_orphans(cur.ops, st.shadow, first, expected);
        lemma_unwound_to(a, ss, st.stack, first, e.stack_depth);
        let (left, r) = embed::unwound_to(a, ss, st.stack, first, e.stack_depth);
        if let Ok(b) = r {
            assert(b[cur.ops.len() as int] == a[cur.ops.len() as int]);
        }
    }
}

} // verus!
