//! What a call of `parse_line` hands out, and how the parse of a line comes by it.

use crate::emit;
use crate::engine;
use crate::engine::CursorV;
use crate::parser;
use crate::scope::{Op, ScopeStackOp};
use crate::state::{BranchV, StateV, WarningV};
use crate::syntax;
use crate::syntax::{ErrorV, SyntaxReference};
use crate::text;
use crate::window;
use vstd::prelude::*;

verus! {

/// The branch points that are at most 128 lines old on the line after `line_number`
/// lines.
pub open spec fn young(line_number: usize) -> spec_fn(BranchV) -> bool {
    |bp: BranchV| line_number <= bp.line_number + 128
}

/// Those that are older.
pub open spec fn old_ones(line_number: usize) -> spec_fn(BranchV) -> bool {
    |bp: BranchV| line_number > bp.line_number + 128
}

/// What is said of a branch point that is too old.
pub open spec fn said_of(bp: BranchV) -> WarningV {
    WarningV::BranchPointExpired { name: bp.name }
}

proof fn lemma_warned(acc: Seq<WarningV>, bps: Seq<BranchV>, n: int, line_number: usize)
    requires
        0 <= n <= bps.len(),
    ensures
        parser::expiry_warnings(acc, bps, n, line_number) == acc + bps.subrange(
            n,
            bps.len() as int,
        ).filter(old_ones(line_number)).map_values(|bp: BranchV| said_of(bp)),
    decreases bps.len() - n,
{
    let f = old_ones(line_number);
    let say = |bp: BranchV| said_of(bp);
    let rest = bps.subrange(n, bps.len() as int);
    if n < bps.len() {
        let tail = bps.subrange(n + 1, bps.len() as int);
        assert(rest =~= seq![bps[n]] + tail);
        crate::versions::lemma_filter_front(bps[n], tail, f);
        let next = if parser::is_young(bps[n], line_number) {
            acc
        } else {
            acc.push(said_of(bps[n]))
        };
        lemma_warned(next, bps, n + 1, line_number);
        assert(parser::is_young(bps[n], line_number) == !f(bps[n]));
        assert(parser::expiry_warnings(acc, bps, n, line_number) =~= acc + rest.filter(
            f,
        ).map_values(say));
    } else {
        assert(rest =~= Seq::<BranchV>::empty());
        reveal(Seq::filter);
        assert(acc + rest.filter(f).map_values(say) =~= acc);
    }
}

/// A line starts with the branch points that are young enough, in their order. Each of
/// the others gives a warning, in their order too.
pub proof fn law_old_branch_points_are_warned_of(st: StateV)
    ensures
        parser::entered(st).branch_points == st.branch_points.filter(young(st.line_number)),
        parser::entered(st).warnings == st.warnings + st.branch_points.filter(
            old_ones(st.line_number),
        ).map_values(|bp: BranchV| said_of(bp)),
{
    let f = |bp: BranchV| parser::is_young(bp, st.line_number);
    assert(f =~= young(st.line_number));
    lemma_warned(st.warnings, st.branch_points, 0, st.line_number);
    assert(st.branch_points.subrange(0, st.branch_points.len() as int) =~= st.branch_points);
}

/// The steps of a line: each goes on from where the one before came to, and only the
/// last ends the line.
pub open spec fn goes_through(
    fuel: nat,
    ss: Seq<SyntaxReference>,
    line: Seq<char>,
    states: Seq<StateV>,
    cursors: Seq<CursorV>,
) -> bool {
    &&& states.len() == cursors.len()
    &&& 2 <= states.len() <= fuel + 1
    &&& forall|k: int|
        0 <= k < states.len() - 1 ==> #[trigger] steps_on(fuel, ss, line, states, cursors, k)
}

/// Whether step `k` of them is one.
pub open spec fn steps_on(
    fuel: nat,
    ss: Seq<SyntaxReference>,
    line: Seq<char>,
    states: Seq<StateV>,
    cursors: Seq<CursorV>,
    k: int,
) -> bool {
    engine::stepped((fuel - 1 - k) as nat, ss, line, states[k], cursors[k]) == Some(
        (
            states[k + 1],
            Ok::<(CursorV, bool), ErrorV>((cursors[k + 1], k + 2 < states.len())),
        ),
    )
}

proof fn lemma_through(
    fuel: nat,
    ss: Seq<SyntaxReference>,
    line: Seq<char>,
    states: Seq<StateV>,
    cursors: Seq<CursorV>,
    k: int,
)
    requires
        goes_through(fuel, ss, line, states, cursors),
        0 <= k < states.len() - 1,
    ensures
        engine::tokens_parsed((fuel - k) as nat, ss, line, states[k], cursors[k]) == Some(
            (
                states[states.len() - 1],
                Ok::<Seq<Op>, ErrorV>(cursors[cursors.len() - 1].ops),
            ),
        ),
    decreases states.len() - k,
{
    assert(steps_on(fuel, ss, line, states, cursors, k));
    if k + 2 < states.len() {
        lemma_through(fuel, ss, line, states, cursors, k + 1);
    }
}

/// Whether a state and a cursor are those with which the parse of a line starts: no step
/// is done, no empty end of an embed is counted, and on the very first line there is the
/// operation that pushes the scope of the whole syntax.
pub open spec fn starts_line(
    ss: Seq<SyntaxReference>,
    before: StateV,
    st: StateV,
    cur: CursorV,
) -> bool {
    &&& st == (StateV { first_line: false, zero_width_escape_fires: Map::empty(), ..before })
    &&& cur.start == 0
    &&& cur.push_mark == (0usize, 0usize, 0usize)
    &&& cur.memory == crate::cache::CacheV::empty()
    &&& if before.first_line {
        before.stack.len() > 0 && (syntax::context_of(ss, before.stack.last().context) matches Ok(
            top,
        ) && if top.meta_content_scope@.len() > 0 {
            cur.ops == seq![(0usize, ScopeStackOp::Push(top.meta_content_scope@[0]))]
        } else {
            cur.ops.len() == 0
        })
    } else {
        cur.ops.len() == 0
    }
}

/// A line is parsed by its steps: what it hands out are the operations of all of them,
/// and what is left is the state after the last.
pub proof fn law_line_is_its_steps(
    fuel: nat,
    ss: Seq<SyntaxReference>,
    st: StateV,
    line: Seq<char>,
    states: Seq<StateV>,
    cursors: Seq<CursorV>,
)
    requires
        goes_through(fuel, ss, line, states, cursors),
        starts_line(ss, parser::entered(st), states[0], cursors[0]),
        st.stack.len() > 0,
    ensures
        parser::output_within(fuel, ss, st, line) matches Some((next, Ok(out))) && {
            &&& out.ops == emit::levelled(cursors[cursors.len() - 1].ops, text::byte_len(line))
            &&& out.warnings == states[states.len() - 1].warnings
            &&& next.stack == states[states.len() - 1].stack
            &&& next.branch_points == states[states.len() - 1].branch_points
            &&& next.escape_stack == states[states.len() - 1].escape_stack
            &&& next.proto_starts == states[states.len() - 1].proto_starts
            &&& !next.first_line || states[states.len() - 1].first_line
            &&& next.line_number == states[states.len() - 1].line_number
            &&& next.warnings.len() == 0
        },
{
    reveal(parser::parsed);
    lemma_through(fuel, ss, line, states, cursors, 0);
    let before = parser::entered(st);
    if before.first_line {
        assert(engine::opening(ss, before, 0) matches Ok(ops) && ops =~= cursors[0].ops);
    } else {
        assert(engine::opening(ss, before, 0) matches Ok(ops) && ops =~= cursors[0].ops);
    }
    assert(engine::opened(before, 0) == states[0]);
}

/// The lines of the window after a line: those that were corrected have their new
/// operations, each within its line, and the others those they had. If something was
/// corrected, all of them are handed out. While there are branch points, the line joins
/// them; else nothing is held back any more.
pub proof fn law_corrections_are_handed_out(
    fuel: nat,
    ss: Seq<SyntaxReference>,
    st: StateV,
    line: Seq<char>,
    end: StateV,
    raw: Seq<Op>,
    i: int,
)
    requires
        window::between_lines(st),
        st.stack.len() > 0,
        st.pending_lines.len() < usize::MAX,
        parser::parsed(fuel, ss, st, line) == Some((end, Ok::<Seq<Op>, ErrorV>(raw))),
        0 <= i < st.pending_lines.len(),
    ensures
        parser::output_within(fuel, ss, st, line) matches Some((next, Ok(out))) && {
            let n = st.pending_lines.len();
            let first = n - end.flushed_ops.len();
            let now = if i < first {
                st.pending_line_ops[i]
            } else {
                emit::levelled(end.flushed_ops[i - first], text::byte_len(st.pending_lines[i]))
            };
            &&& 0 <= first
            &&& out.revised is Some <==> end.flushed_ops.len() > 0
            &&& out.revised matches Some(lines) ==> lines.len() == n && lines[i] == now
            &&& end.branch_points.len() > 0 ==> {
                &&& next.pending_lines == st.pending_lines.push(line)
                &&& next.pending_line_ops.len() == n + 1
                &&& next.pending_line_ops[i] == now
                &&& next.pending_line_ops[n as int] == out.ops
            }
            &&& end.branch_points.len() == 0 ==> next.pending_lines.len() == 0
                && next.pending_line_ops.len() == 0
        },
{
    window::lemma_parsed(fuel, ss, st, line);
    let first = end.pending_lines.len() - end.flushed_ops.len();
    let lines = parser::placed(end.flushed_ops, end.pending_lines, first);
    if lines.len() > 0 {
        assert(first == (end.pending_lines.len() as usize).saturating_sub(
            end.flushed_ops.len() as usize,
        ));
        window::lemma_replaced(end.pending_line_ops, lines, first, 0);
    }
}

} // verus!
