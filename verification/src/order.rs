//! The order of the operations of a line.

use crate::captures;
use crate::embed;
use crate::emit;
use crate::engine;
use crate::regex;
use crate::scope::{Op, Scope};
use crate::semantics;
use crate::semantics::LeavingV;
use crate::state;
use crate::state::{LevelV, RegionV};
use crate::syntax;
use crate::syntax::{Context, ContextId, MatchOperation, MatchPattern, ReferenceV, SyntaxReference};
use crate::text;
use crate::views;
use vstd::prelude::*;

verus! {

/// Whether `r` is `acc` with further operations behind it, these in order and at
/// the bytes `low..=high`.
pub open spec fn grown(acc: Seq<Op>, r: Seq<Op>, low: usize, high: usize) -> bool {
    &&& acc.len() <= r.len()
    &&& forall|k: int| 0 <= k < acc.len() ==> #[trigger] r[k] == acc[k]
    &&& forall|k: int| acc.len() <= k < r.len() ==> low <= (#[trigger] r[k]).0 <= high
    &&& forall|j: int, k: int|
        acc.len() <= j <= k < r.len() ==> (#[trigger] r[j]).0 <= (#[trigger] r[k]).0
}

/// Whether a result, unless it is an error, is `acc` with operations at `index`
/// behind it.
pub open spec fn stays_at<E>(acc: Seq<Op>, r: Result<Seq<Op>, E>, index: usize) -> bool {
    r matches Ok(ops) ==> grown(acc, ops, index, index)
}

pub(crate) proof fn lemma_grown(a: Seq<Op>, b: Seq<Op>, c: Seq<Op>, low: usize, mid: usize, high: usize)
    requires
        grown(a, b, low, mid),
        grown(b, c, mid, high),
        low <= mid <= high,
    ensures
        grown(a, c, low, high),
{
    assert forall|k: int| 0 <= k < a.len() implies #[trigger] c[k] == a[k] by {
        assert(c[k] == b[k]);
    }
    assert forall|k: int| a.len() <= k < c.len() implies low <= (#[trigger] c[k]).0 <= high by {
        if k < b.len() {
            assert(c[k] == b[k]);
        }
    }
    assert forall|j: int, k: int| a.len() <= j <= k < c.len() implies (#[trigger] c[j]).0 <= (
    #[trigger] c[k]).0 by {
        if j < b.len() {
            assert(c[j] == b[j]);
            if k < b.len() {
                assert(c[k] == b[k]);
            }
        }
    }
}

proof fn lemma_frame(acc: Seq<Op>, index: usize, context: Context, skip_content: bool)
    ensures
        grown(
            acc,
            semantics::frame_unwound(acc, index, context, skip_content),
            index,
            index,
        ),
{
}

proof fn lemma_unwound(
    acc: Seq<Op>,
    ss: Seq<SyntaxReference>,
    stack: Seq<LevelV>,
    index: usize,
    respect_embed: bool,
    depth: int,
    n: int,
)
    ensures
        stays_at(
            acc,
            semantics::unwound(acc, ss, stack, index, respect_embed, depth, n),
            index,
        ),
    decreases n - depth,
{
    if !(depth >= n || depth >= stack.len()) {
        let level = stack.len() - 1 - depth;
        if let Ok(context) = syntax::context_of(ss, stack[level].context) {
            let skip = respect_embed && semantics::replaced_by_below(ss, stack, level);
            let next = semantics::frame_unwound(acc, index, context, skip);
            lemma_frame(acc, index, context, skip);
            lemma_unwound(next, ss, stack, index, respect_embed, depth + 1, n);
            if let Ok(r) = semantics::unwound(
                next,
                ss,
                stack,
                index,
                respect_embed,
                depth + 1,
                n,
            ) {
                lemma_grown(acc, next, r, index, index, index);
            }
        }
    }
}

proof fn lemma_entered_before(
    acc: Seq<Op>,
    ss: Seq<SyntaxReference>,
    ids: Seq<ContextId>,
    i: int,
    index: usize,
    preview: bool,
    emit_clear: bool,
    atoms: usize,
)
    ensures
        grown(
            acc,
            semantics::entered_before(acc, ss, ids, i, index, preview, emit_clear, atoms),
            index,
            index,
        ),
    decreases ids.len() - i,
{
    if 0 <= i < ids.len() {
        let context = semantics::known(ss, ids[i]);
        let amount = if preview {
            semantics::preview_amount(context, atoms)
        } else {
            0
        };
        let a = if amount > 0 {
            acc.push(
                (
                    index,
                    crate::scope::ScopeStackOp::Clear(crate::scope::ClearAmount::TopN(amount)),
                ),
            )
        } else {
            acc
        };
        let b = if emit_clear {
            emit::cleared(a, index, context.clear_scopes)
        } else {
            a
        };
        let c = emit::pushed(b, index, context.meta_scope@);
        let more = ((atoms - amount) as usize).saturating_add(context.meta_scope@.len() as usize);
        lemma_grown(acc, a, b, index, index, index);
        lemma_grown(acc, b, c, index, index, index);
        lemma_entered_before(c, ss, ids, i + 1, index, preview, emit_clear, more);
        lemma_grown(
            acc,
            c,
            semantics::entered_before(c, ss, ids, i + 1, index, preview, emit_clear, more),
            index,
            index,
            index,
        );
    }
}

proof fn lemma_entered_after(
    acc: Seq<Op>,
    ss: Seq<SyntaxReference>,
    ids: Seq<ContextId>,
    i: int,
    index: usize,
    emit_clear: bool,
    respect_embed: bool,
    replaced: bool,
)
    ensures
        grown(
            acc,
            semantics::entered_after(
                acc,
                ss,
                ids,
                i,
                index,
                emit_clear,
                respect_embed,
                replaced,
            ),
            index,
            index,
        ),
    decreases ids.len() - i,
{
    if 0 <= i < ids.len() {
        let context = semantics::known(ss, ids[i]);
        let a = if emit_clear {
            emit::cleared(acc, index, context.clear_scopes)
        } else {
            acc
        };
        let b = emit::pushed(a, index, context.meta_scope@);
        let c = if respect_embed && replaced {
            b
        } else {
            emit::pushed(b, index, context.meta_content_scope@)
        };
        lemma_grown(acc, a, b, index, index, index);
        lemma_grown(acc, b, c, index, index, index);
        let replaces = context.embed_scope_replaces;
        lemma_entered_after(c, ss, ids, i + 1, index, emit_clear, respect_embed, replaces);
        lemma_grown(
            acc,
            c,
            semantics::entered_after(
                c,
                ss,
                ids,
                i + 1,
                index,
                emit_clear,
                respect_embed,
                replaces,
            ),
            index,
            index,
            index,
        );
    }
}

proof fn lemma_left_before(
    acc: Seq<Op>,
    ss: Seq<SyntaxReference>,
    stack: Seq<LevelV>,
    index: usize,
    cur: LeavingV,
    is_set: bool,
    pop_count: usize,
)
    ensures
        stays_at(
            acc,
            semantics::left_before(acc, ss, stack, index, cur, is_set, pop_count),
            index,
        ),
{
    let v2 = semantics::syntax_version(ss, stack) >= 2;
    let a = if is_set && v2 && !semantics::replaced_by_below(ss, stack, stack.len() - 1) {
        emit::popped(acc, index, semantics::declared_content(ss, stack, cur))
    } else {
        acc
    };
    let p = emit::popped(a, index, cur.meta_scope.len() as usize);
    lemma_grown(acc, a, p, index, index, index);
    lemma_unwound(p, ss, stack, index, false, 1, pop_count as int);
    if let Ok(b) = semantics::unwound(p, ss, stack, index, false, 1, pop_count as int) {
        let c = emit::pushed(b, index, cur.meta_scope);
        lemma_grown(acc, p, b, index, index, index);
        lemma_grown(acc, b, c, index, index, index);
    }
}

proof fn lemma_enter_before(
    acc: Seq<Op>,
    ss: Seq<SyntaxReference>,
    stack: Seq<LevelV>,
    index: usize,
    cur: LeavingV,
    is_set: bool,
    pop_count: usize,
    refs: Seq<ReferenceV>,
)
    ensures
        stays_at(
            acc,
            semantics::enter_before(acc, ss, stack, index, cur, is_set, pop_count, refs),
            index,
        ),
{
    let v2 = semantics::syntax_version(ss, stack) >= 2;
    lemma_left_before(acc, ss, stack, index, cur, is_set, pop_count);
    if let Ok(a) = semantics::left_before(acc, ss, stack, index, cur, is_set, pop_count) {
        if let Ok(ids) = semantics::resolved_ids(ss, refs, 0, Seq::empty()) {
            let b = if v2 && semantics::drops_extra(ss, ids, cur, is_set, pop_count) {
                a.push(
                    (
                        index,
                        crate::scope::ScopeStackOp::Clear(
                            crate::scope::ClearAmount::TopN(
                                semantics::anchored_clear(ss, ids, 0)->0.saturating_add(1),
                            ),
                        ),
                    ),
                )
            } else {
                a
            };
            let preview = v2 && is_set && ids.len() > 1;
            let clears = !is_set || (v2 && semantics::clears_early(ids, cur, is_set));
            lemma_grown(acc, a, b, index, index, index);
            lemma_entered_before(b, ss, ids, 0, index, preview, clears, 0);
            lemma_grown(
                acc,
                b,
                semantics::entered_before(b, ss, ids, 0, index, preview, clears, 0),
                index,
                index,
                index,
            );
        }
    }
}

#[verifier::rlimit(40)]
proof fn lemma_enter_after(
    acc: Seq<Op>,
    ss: Seq<SyntaxReference>,
    stack: Seq<LevelV>,
    index: usize,
    cur: LeavingV,
    is_set: bool,
    pop_count: usize,
    refs: Seq<ReferenceV>,
)
    ensures
        stays_at(
            acc,
            semantics::enter_after(acc, ss, stack, index, cur, is_set, pop_count, refs),
            index,
        ),
{
    let v2 = semantics::syntax_version(ss, stack) >= 2;
    let pops = semantics::set_pops(pop_count);
    if let Ok(ids) = semantics::resolved_ids(ss, refs, 0, Seq::empty()) {
        let targets = semantics::meta_scope_count(ss, ids, 0, 0);
        let head = if !is_set {
            targets
        } else if v2 {
            targets.saturating_add(cur.meta_scope.len() as usize)
        } else {
            targets.saturating_add(cur.meta_content_scope.len() as usize).saturating_add(
                cur.meta_scope.len() as usize,
            )
        };
        let early = is_set && pops > 1 && cur.clear_scopes is Some;
        let a = emit::restored(acc, index, early);
        let b = if is_set && v2 && ids.len() > 1 {
            emit::restored_times(a, index, semantics::preview_count(ss, ids, 0, 0))
        } else {
            a
        };
        let c = emit::popped(b, index, head);
        let d = emit::restored(c, index, is_set && cur.clear_scopes is Some && !early);
        lemma_grown(acc, a, b, index, index, index);
        lemma_grown(acc, b, c, index, index, index);
        lemma_grown(acc, c, d, index, index, index);
        lemma_unwound(d, ss, stack, index, false, 1, pops as int);
        let e = if is_set && pops > 1 {
            semantics::unwound(d, ss, stack, index, false, 1, pops as int)
        } else {
            Ok(d)
        };
        if let Ok(f) = e {
            let g = emit::restored(
                f,
                index,
                v2 && semantics::drops_extra(ss, ids, cur, is_set, pop_count),
            );
            let clears = is_set && !(v2 && semantics::clears_early(ids, cur, is_set));
            lemma_grown(acc, d, f, index, index, index);
            lemma_grown(acc, f, g, index, index, index);
            lemma_entered_after(g, ss, ids, 0, index, clears, v2, false);
            lemma_grown(
                acc,
                g,
                semantics::entered_after(g, ss, ids, 0, index, clears, v2, false),
                index,
                index,
                index,
            );
        }
    }
}

pub(crate) proof fn lemma_enter(
    acc: Seq<Op>,
    ss: Seq<SyntaxReference>,
    stack: Seq<LevelV>,
    initial: bool,
    index: usize,
    cur: LeavingV,
    is_set: bool,
    pop_count: usize,
    refs: Seq<ReferenceV>,
)
    ensures
        stays_at(
            acc,
            semantics::enter_ops(acc, ss, stack, initial, index, cur, is_set, pop_count, refs),
            index,
        ),
{
    lemma_enter_before(acc, ss, stack, index, cur, is_set, pop_count, refs);
    lemma_enter_after(acc, ss, stack, index, cur, is_set, pop_count, refs);
}

/// The meta scopes of a match change where the match starts, or where it ends,
/// and nowhere else.
pub proof fn law_meta_ops_stay_put(
    acc: Seq<Op>,
    ss: Seq<SyntaxReference>,
    stack: Seq<LevelV>,
    initial: bool,
    index: usize,
    cur: Context,
    op: MatchOperation,
)
    ensures
        semantics::meta_ops(acc, ss, stack, initial, index, cur, op) matches Ok(ops) ==> grown(
            acc,
            ops,
            index,
            index,
        ),
{
    let left = semantics::leaving(cur);
    match op {
        MatchOperation::Pop(n) => {
            let a = emit::popped(acc, index, cur.meta_scope@.len() as usize);
            let b = emit::restored(a, index, cur.clear_scopes is Some);
            let v2 = semantics::syntax_version(ss, stack) >= 2;
            lemma_grown(acc, a, b, index, index, index);
            lemma_unwound(b, ss, stack, index, v2, 1, n as int);
            if let Ok(c) = semantics::unwound(b, ss, stack, index, v2, 1, n as int) {
                lemma_grown(acc, b, c, index, index, index);
            }
        },
        MatchOperation::Push { ctx_refs, pop_count } => {
            lemma_enter(
                acc,
                ss,
                stack,
                initial,
                index,
                left,
                false,
                pop_count,
                views::of(ctx_refs@),
            );
        },
        MatchOperation::SetTo { ctx_refs, pop_count } => {
            lemma_enter(
                acc,
                ss,
                stack,
                initial,
                index,
                left,
                true,
                pop_count,
                views::of(ctx_refs@),
            );
        },
        MatchOperation::Embed { contexts, escape, pop_count } => {
            let refs = views::of(contexts@);
            if pop_count > 0 {
                let m = emit::popped(acc, index, cur.meta_content_scope@.len() as usize);
                let n = emit::popped(m, index, cur.meta_scope@.len() as usize);
                lemma_grown(acc, m, n, index, index, index);
                let a = if initial {
                    n
                } else {
                    acc
                };
                let bare = semantics::stripped(cur);
                lemma_enter(a, ss, stack, initial, index, bare, false, pop_count, refs);
                if let Ok(r) = semantics::enter_ops(
                    a,
                    ss,
                    stack,
                    initial,
                    index,
                    bare,
                    false,
                    pop_count,
                    refs,
                ) {
                    lemma_grown(acc, a, r, index, index, index);
                }
            } else {
                lemma_enter(acc, ss, stack, initial, index, left, false, pop_count, refs);
            }
        },
        MatchOperation::Branch { name, alternatives, pop_count } => {
            lemma_enter(
                acc,
                ss,
                stack,
                initial,
                index,
                left,
                false,
                pop_count,
                views::of(alternatives@),
            );
        },
        _ => {},
    }
}

/// Whether operations come in order of their positions.
pub open spec fn in_order(ops: Seq<Op>) -> bool {
    forall|i: int, j: int| 0 <= i < j < ops.len() ==> (#[trigger] ops[i]).0 <= (#[trigger] ops[j]).0
}

/// Whether no operation lies after `pos`.
pub open spec fn up_to(ops: Seq<Op>, pos: usize) -> bool {
    forall|i: int| 0 <= i < ops.len() ==> (#[trigger] ops[i]).0 <= pos
}

proof fn lemma_earliest(ops: Seq<Op>, i: int, j: int, end: usize)
    requires
        0 <= i <= j <= ops.len(),
    ensures
        emit::earliest(ops, i, end) <= emit::earliest(ops, j, end) <= end,
        i < ops.len() ==> emit::earliest(ops, i, end) <= ops[i].0,
    decreases ops.len() - i,
{
    if i < ops.len() {
        lemma_earliest(ops, i + 1, if i < j { j } else { i + 1 }, end);
        if i == j {
            lemma_earliest(ops, i + 1, ops.len() as int, end);
        }
    }
}

/// Levelled operations are in order and within the line, and each stays the
/// operation that it was.
pub proof fn law_levelled_in_order(ops: Seq<Op>, end: usize)
    ensures
        in_order(emit::levelled(ops, end)),
        up_to(emit::levelled(ops, end), end),
        emit::levelled(ops, end).len() == ops.len(),
        forall|i: int|
            0 <= i < ops.len() ==> {
                &&& (#[trigger] emit::levelled(ops, end)[i]).1 == ops[i].1
                &&& emit::levelled(ops, end)[i].0 <= ops[i].0
            },
{
    let r = emit::levelled(ops, end);
    assert forall|i: int, j: int| 0 <= i < j < r.len() implies (#[trigger] r[i]).0 <= (
    #[trigger] r[j]).0 by {
        lemma_earliest(ops, i, j, end);
    }
    assert forall|i: int| 0 <= i < r.len() implies (#[trigger] r[i]).0 <= end && r[i].0
        <= ops[i].0 by {
        lemma_earliest(ops, i, i, end);
    }
}

proof fn lemma_settled(ops: Seq<Op>, i: int, end: usize)
    requires
        in_order(ops),
        up_to(ops, end),
        0 <= i < ops.len(),
    ensures
        emit::earliest(ops, i, end) == ops[i].0,
    decreases ops.len() - i,
{
    if i + 1 < ops.len() {
        lemma_settled(ops, i + 1, end);
        assert(ops[i].0 <= ops[i + 1].0);
    } else {
        reveal_with_fuel(emit::earliest, 2);
    }
}

/// Operations that are in order and within the line are levelled.
pub proof fn law_ordered_ops_stay(ops: Seq<Op>, end: usize)
    requires
        in_order(ops),
        up_to(ops, end),
    ensures
        emit::levelled(ops, end) == ops,
{
    assert forall|i: int| 0 <= i < ops.len() implies #[trigger] emit::levelled(ops, end)[i]
        == ops[i] by {
        lemma_settled(ops, i, end);
    }
    assert(emit::levelled(ops, end) =~= ops);
}

pub(crate) proof fn lemma_tidied(acc: Seq<Op>, r: Seq<Op>, pos: usize, low: usize, high: usize)
    requires
        in_order(acc),
        up_to(acc, pos),
        pos <= low <= high,
        grown(acc, r, low, high),
    ensures
        in_order(r),
        up_to(r, high),
{
    assert forall|i: int, j: int| 0 <= i < j < r.len() implies (#[trigger] r[i]).0 <= (
    #[trigger] r[j]).0 by {
        if i < acc.len() {
            assert(r[i] == acc[i]);
            if j < acc.len() {
                assert(r[j] == acc[j]);
            }
        }
    }
    assert forall|i: int| 0 <= i < r.len() implies (#[trigger] r[i]).0 <= high by {
        if i < acc.len() {
            assert(r[i] == acc[i]);
        }
    }
}

pub(crate) proof fn lemma_colored(acc: Seq<Op>, more: Seq<Op>, low: usize, high: usize)
    requires
        in_order(more),
        forall|i: int| 0 <= i < more.len() ==> low <= (#[trigger] more[i]).0 <= high,
    ensures
        grown(acc, acc + more, low, high),
{
    let r = acc + more;
    assert forall|k: int| acc.len() <= k < r.len() implies low <= (#[trigger] r[k]).0 <= high by {
        assert(r[k] == more[k - acc.len()]);
    }
    assert forall|j: int, k: int| acc.len() <= j <= k < r.len() implies (#[trigger] r[j]).0 <= (
    #[trigger] r[k]).0 by {
        assert(r[j] == more[j - acc.len()]);
        assert(r[k] == more[k - acc.len()]);
    }
}

pub(crate) proof fn lemma_rule_ops(
    acc: Seq<Op>,
    ss: Seq<SyntaxReference>,
    stack: Seq<LevelV>,
    context: Context,
    pat: MatchPattern,
    region: RegionV,
)
    requires
        regex::whole(region).0 <= regex::whole(region).1,
    ensures
        engine::rule_ops(acc, ss, stack, context, pat, region) matches Ok(r) ==> grown(
            acc,
            r,
            regex::whole(region).0,
            regex::whole(region).1,
        ),
{
    let (first, last) = regex::whole(region);
    let op = pat.operation;
    law_meta_ops_stay_put(acc, ss, stack, true, first, context, op);
    if let Ok(a) = semantics::meta_ops(acc, ss, stack, true, first, context, op) {
        let mapping = state::mapping_view(pat.captures);
        let more = captures::group_ops(mapping, region, true);
        captures::law_group_ops_in_order(mapping, region, true);
        captures::law_clipped_groups_stay_within(mapping, region, true);
        let p = emit::pushed(a, first, pat.scope@);
        let b = p + more;
        let c = emit::popped(b, last, pat.scope@.len() as usize);
        lemma_grown(acc, a, p, first, first, first);
        lemma_colored(p, more, first, last);
        lemma_grown(acc, p, b, first, first, last);
        lemma_grown(acc, b, c, first, last, last);
        law_meta_ops_stay_put(c, ss, stack, false, last, context, op);
        if let Ok(d) = semantics::meta_ops(c, ss, stack, false, last, context, op) {
            lemma_grown(acc, c, d, first, last, last);
        }
    }
}

pub(crate) proof fn lemma_branch_ops(
    acc: Seq<Op>,
    ss: Seq<SyntaxReference>,
    stack: Seq<LevelV>,
    first: usize,
    last: usize,
    scopes: Seq<Scope>,
    capture_ops: Seq<Op>,
    refs: Seq<ReferenceV>,
    pop_count: usize,
)
    requires
        first <= last,
        grown(Seq::empty(), capture_ops, first, last),
    ensures
        engine::branch_ops(
            acc,
            ss,
            stack,
            first,
            last,
            scopes,
            capture_ops,
            refs,
            pop_count,
        ) matches Ok(r) ==> grown(acc, r, first, last),
{
    if stack.len() > 0 {
        if let Ok(context) = syntax::context_of(ss, stack.last().context) {
            let cur = semantics::leaving(context);
            lemma_enter(acc, ss, stack, true, first, cur, false, pop_count, refs);
            if let Ok(a) = semantics::enter_ops(
                acc,
                ss,
                stack,
                true,
                first,
                cur,
                false,
                pop_count,
                refs,
            ) {
                let p = emit::pushed(a, first, scopes);
                let b = p + capture_ops;
                let c = emit::popped(b, last, scopes.len() as usize);
                lemma_grown(acc, a, p, first, first, first);
                lemma_colored(p, capture_ops, first, last);
                lemma_grown(acc, p, b, first, first, last);
                lemma_grown(acc, b, c, first, last, last);
                lemma_enter(c, ss, stack, false, last, cur, false, pop_count, refs);
                if let Ok(d) = semantics::enter_ops(
                    c,
                    ss,
                    stack,
                    false,
                    last,
                    cur,
                    false,
                    pop_count,
                    refs,
                ) {
                    lemma_grown(acc, c, d, first, last, last);
                }
            }
        }
    }
}

pub(crate) proof fn lemma_rule_prefix(
    acc: Seq<Op>,
    ss: Seq<SyntaxReference>,
    stack: Seq<LevelV>,
    context: Context,
    pat: MatchPattern,
    region: RegionV,
)
    ensures
        engine::rule_ops(acc, ss, stack, context, pat, region) matches Ok(r) ==> acc.is_prefix_of(r),
{
    let (first, last) = regex::whole(region);
    let op = pat.operation;
    law_meta_ops_stay_put(acc, ss, stack, true, first, context, op);
    if let Ok(a) = semantics::meta_ops(acc, ss, stack, true, first, context, op) {
        let more = captures::group_ops(state::mapping_view(pat.captures), region, true);
        let b = emit::pushed(a, first, pat.scope@) + more;
        let c = emit::popped(b, last, pat.scope@.len() as usize);
        law_meta_ops_stay_put(c, ss, stack, false, last, context, op);
        if let Ok(d) = semantics::meta_ops(c, ss, stack, false, last, context, op) {
            lemma_prefix(acc, a, c, d);
        }
    }
}

proof fn lemma_prefix(acc: Seq<Op>, a: Seq<Op>, c: Seq<Op>, d: Seq<Op>)
    requires
        acc.len() <= a.len() <= c.len() <= d.len(),
        forall|k: int| 0 <= k < acc.len() ==> #[trigger] a[k] == acc[k],
        forall|k: int| 0 <= k < a.len() ==> #[trigger] c[k] == a[k],
        forall|k: int| 0 <= k < c.len() ==> #[trigger] d[k] == c[k],
    ensures
        acc.is_prefix_of(d),
{
    assert forall|k: int| 0 <= k < acc.len() implies #[trigger] d[k] == acc[k] by {
        assert(a[k] == acc[k]);
        assert(c[k] == a[k]);
        assert(d[k] == c[k]);
    }
    assert(d.subrange(0, acc.len() as int) =~= acc);
}

pub(crate) proof fn lemma_branch_prefix(
    acc: Seq<Op>,
    ss: Seq<SyntaxReference>,
    stack: Seq<LevelV>,
    first: usize,
    last: usize,
    scopes: Seq<Scope>,
    capture_ops: Seq<Op>,
    refs: Seq<ReferenceV>,
    pop_count: usize,
)
    ensures
        engine::branch_ops(
            acc,
            ss,
            stack,
            first,
            last,
            scopes,
            capture_ops,
            refs,
            pop_count,
        ) matches Ok(r) ==> acc.is_prefix_of(r),
{
    if stack.len() == 0 {
        assert(acc.subrange(0, acc.len() as int) =~= acc);
    } else if let Ok(context) = syntax::context_of(ss, stack.last().context) {
        let cur = semantics::leaving(context);
        lemma_enter(acc, ss, stack, true, first, cur, false, pop_count, refs);
        if let Ok(a) = semantics::enter_ops(
            acc,
            ss,
            stack,
            true,
            first,
            cur,
            false,
            pop_count,
            refs,
        ) {
            let b = emit::pushed(a, first, scopes) + capture_ops;
            let c = emit::popped(b, last, scopes.len() as usize);
            lemma_enter(c, ss, stack, false, last, cur, false, pop_count, refs);
            if let Ok(d) = semantics::enter_ops(
                c,
                ss,
                stack,
                false,
                last,
                cur,
                false,
                pop_count,
                refs,
            ) {
                lemma_prefix(acc, a, c, d);
            }
        }
    }
}

pub(crate) proof fn lemma_unwound_to(
    acc: Seq<Op>,
    ss: Seq<SyntaxReference>,
    stack: Seq<LevelV>,
    index: usize,
    target: usize,
)
    ensures
        stays_at(acc, embed::unwound_to(acc, ss, stack, index, target).1, index),
    decreases stack.len(),
{
    if stack.len() > target {
        if let Ok(context) = syntax::context_of(ss, stack.last().context) {
            let skip = semantics::replaced_by_below(ss, stack, stack.len() - 1);
            let next = semantics::frame_unwound(acc, index, context, skip);
            lemma_frame(acc, index, context, skip);
            lemma_unwound_to(next, ss, stack.drop_last(), index, target);
            if let Ok(r) = embed::unwound_to(next, ss, stack.drop_last(), index, target).1 {
                lemma_grown(acc, next, r, index, index, index);
            }
        }
    }
}

proof fn lemma_boundary(line: Seq<char>, n: int)
    requires
        n <= vstd::utf8::encode_utf8(line).len(),
    ensures
        text::boundary_from(line, n) >= n,
    decreases vstd::utf8::encode_utf8(line).len() - n,
{
    if n < vstd::utf8::encode_utf8(line).len() {
        lemma_boundary(line, n + 1);
    }
}

pub(crate) proof fn lemma_next_char(line: Seq<char>, pos: usize)
    ensures
        text::next_char(line, pos) matches Some(n) ==> n > pos,
{
    if pos + 1 < vstd::utf8::encode_utf8(line).len() {
        lemma_boundary(line, pos + 1);
    }
}

/// Whether no context of the set clears scopes.
pub open spec fn clears_nothing(ss: Seq<SyntaxReference>) -> bool {
    forall|id: ContextId|
        (#[trigger] syntax::context_of(ss, id)) matches Ok(context) ==> context.clear_scopes is None
}

/// Whether no operation restores scopes.
pub open spec fn restores_nothing(ops: Seq<Op>) -> bool {
    forall|i: int| 0 <= i < ops.len() ==> !((#[trigger] ops[i]).1 is Restore)
}

proof fn lemma_resolved_known(
    ss: Seq<SyntaxReference>,
    refs: Seq<ReferenceV>,
    i: int,
    acc: Seq<ContextId>,
)
    requires
        semantics::all_known(ss, acc),
    ensures
        semantics::resolved_ids(ss, refs, i, acc) matches Ok(ids) ==> semantics::all_known(ss, ids),
    decreases refs.len() - i,
{
    if 0 <= i < refs.len() {
        if let Ok(id) = syntax::reference_id(refs[i]) {
            if syntax::context_of(ss, id) is Ok {
                lemma_resolved_known(ss, refs, i + 1, acc.push(id));
            }
        }
    }
}

proof fn lemma_no_preview(ss: Seq<SyntaxReference>, ids: Seq<ContextId>, i: int, atoms: usize)
    requires
        clears_nothing(ss),
        semantics::all_known(ss, ids),
    ensures
        semantics::preview_count(ss, ids, i, atoms) == 0,
        semantics::anchored_clear(ss, ids, i) is None,
    decreases ids.len() - i,
{
    if 0 <= i < ids.len() {
        let context = semantics::known(ss, ids[i]);
        assert(syntax::context_of(ss, ids[i]) is Ok);
        assert(context.clear_scopes is None);
        lemma_no_preview(
            ss,
            ids,
            i + 1,
            atoms.saturating_add(context.meta_scope@.len() as usize),
        );
    }
}

proof fn lemma_calm_unwound(
    acc: Seq<Op>,
    ss: Seq<SyntaxReference>,
    stack: Seq<LevelV>,
    index: usize,
    respect_embed: bool,
    depth: int,
    n: int,
)
    requires
        clears_nothing(ss),
        restores_nothing(acc),
    ensures
        semantics::unwound(acc, ss, stack, index, respect_embed, depth, n) matches Ok(r)
            ==> restores_nothing(r),
    decreases n - depth,
{
    if !(depth >= n || depth >= stack.len()) {
        let level = stack.len() - 1 - depth;
        if let Ok(context) = syntax::context_of(ss, stack[level].context) {
            let skip = respect_embed && semantics::replaced_by_below(ss, stack, level);
            let next = semantics::frame_unwound(acc, index, context, skip);
            lemma_calm_unwound(next, ss, stack, index, respect_embed, depth + 1, n);
        }
    }
}

proof fn lemma_calm_entered(
    acc: Seq<Op>,
    ss: Seq<SyntaxReference>,
    ids: Seq<ContextId>,
    i: int,
    index: usize,
    preview: bool,
    emit_clear: bool,
    atoms: usize,
    respect_embed: bool,
    replaced: bool,
)
    requires
        restores_nothing(acc),
    ensures
        restores_nothing(
            semantics::entered_before(acc, ss, ids, i, index, preview, emit_clear, atoms),
        ),
        restores_nothing(
            semantics::entered_after(
                acc,
                ss,
                ids,
                i,
                index,
                emit_clear,
                respect_embed,
                replaced,
            ),
        ),
    decreases ids.len() - i,
{
    if 0 <= i < ids.len() {
        let context = semantics::known(ss, ids[i]);
        let amount = if preview {
            semantics::preview_amount(context, atoms)
        } else {
            0
        };
        let a = if amount > 0 {
            acc.push(
                (
                    index,
                    crate::scope::ScopeStackOp::Clear(crate::scope::ClearAmount::TopN(amount)),
                ),
            )
        } else {
            acc
        };
        let b = if emit_clear {
            emit::cleared(a, index, context.clear_scopes)
        } else {
            a
        };
        let more = ((atoms - amount) as usize).saturating_add(context.meta_scope@.len() as usize);
        let replaces = context.embed_scope_replaces;
        lemma_calm_entered(
            emit::pushed(b, index, context.meta_scope@),
            ss,
            ids,
            i + 1,
            index,
            preview,
            emit_clear,
            more,
            respect_embed,
            replaces,
        );
        let d = if emit_clear {
            emit::cleared(acc, index, context.clear_scopes)
        } else {
            acc
        };
        let e = emit::pushed(d, index, context.meta_scope@);
        let f = if respect_embed && replaced {
            e
        } else {
            emit::pushed(e, index, context.meta_content_scope@)
        };
        lemma_calm_entered(
            f,
            ss,
            ids,
            i + 1,
            index,
            preview,
            emit_clear,
            more,
            respect_embed,
            replaces,
        );
    }
}

#[verifier::rlimit(40)]
proof fn lemma_calm_enter(
    acc: Seq<Op>,
    ss: Seq<SyntaxReference>,
    stack: Seq<LevelV>,
    initial: bool,
    index: usize,
    cur: LeavingV,
    is_set: bool,
    pop_count: usize,
    refs: Seq<ReferenceV>,
)
    requires
        clears_nothing(ss),
        cur.clear_scopes is None,
        restores_nothing(acc),
    ensures
        semantics::enter_ops(acc, ss, stack, initial, index, cur, is_set, pop_count, refs)
            matches Ok(r) ==> restores_nothing(r),
{
    let v2 = semantics::syntax_version(ss, stack) >= 2;
    let pops = semantics::set_pops(pop_count);
    lemma_resolved_known(ss, refs, 0, Seq::empty());
    if let Ok(ids) = semantics::resolved_ids(ss, refs, 0, Seq::empty()) {
        lemma_no_preview(ss, ids, 0, 0);
        if initial {
            let a = if is_set && v2 && !semantics::replaced_by_below(ss, stack, stack.len() - 1) {
                emit::popped(acc, index, semantics::declared_content(ss, stack, cur))
            } else {
                acc
            };
            let p = emit::popped(a, index, cur.meta_scope.len() as usize);
            lemma_calm_unwound(p, ss, stack, index, false, 1, pop_count as int);
            if let Ok(left) = semantics::left_before(
                acc,
                ss,
                stack,
                index,
                cur,
                is_set,
                pop_count,
            ) {
                assert(restores_nothing(left));
                lemma_calm_entered(
                    left,
                    ss,
                    ids,
                    0,
                    index,
                    v2 && is_set && ids.len() > 1,
                    !is_set || (v2 && semantics::clears_early(ids, cur, is_set)),
                    0,
                    v2,
                    false,
                );
            }
        } else {
            let targets = semantics::meta_scope_count(ss, ids, 0, 0);
            let head = if !is_set {
                targets
            } else if v2 {
                targets.saturating_add(cur.meta_scope.len() as usize)
            } else {
                targets.saturating_add(cur.meta_content_scope.len() as usize).saturating_add(
                    cur.meta_scope.len() as usize,
                )
            };
            let b = if is_set && v2 && ids.len() > 1 {
                emit::restored_times(acc, index, 0)
            } else {
                acc
            };
            assert(b =~= acc);
            let c = emit::popped(b, index, head);
            lemma_calm_unwound(c, ss, stack, index, false, 1, pops as int);
            let e = if is_set && pops > 1 {
                semantics::unwound(c, ss, stack, index, false, 1, pops as int)
            } else {
                Ok(c)
            };
            if let Ok(f) = e {
                lemma_calm_entered(
                    f,
                    ss,
                    ids,
                    0,
                    index,
                    false,
                    is_set && !(v2 && semantics::clears_early(ids, cur, is_set)),
                    0,
                    v2,
                    false,
                );
            }
        }
    }
}

/// Where no context clears scopes, the meta scopes of a match restore none.
pub proof fn law_nothing_cleared_nothing_restored(
    acc: Seq<Op>,
    ss: Seq<SyntaxReference>,
    stack: Seq<LevelV>,
    initial: bool,
    index: usize,
    cur: Context,
    op: MatchOperation,
)
    requires
        clears_nothing(ss),
        cur.clear_scopes is None,
        restores_nothing(acc),
    ensures
        semantics::meta_ops(acc, ss, stack, initial, index, cur, op) matches Ok(ops)
            ==> restores_nothing(ops),
{
    let left = semantics::leaving(cur);
    match op {
        MatchOperation::Pop(n) => {
            let a = emit::popped(acc, index, cur.meta_scope@.len() as usize);
            let v2 = semantics::syntax_version(ss, stack) >= 2;
            lemma_calm_unwound(a, ss, stack, index, v2, 1, n as int);
        },
        MatchOperation::Push { ctx_refs, pop_count } => {
            let refs = views::of(ctx_refs@);
            lemma_calm_enter(acc, ss, stack, initial, index, left, false, pop_count, refs);
        },
        MatchOperation::SetTo { ctx_refs, pop_count } => {
            let refs = views::of(ctx_refs@);
            lemma_calm_enter(acc, ss, stack, initial, index, left, true, pop_count, refs);
        },
        MatchOperation::Embed { contexts, escape, pop_count } => {
            let refs = views::of(contexts@);
            let m = emit::popped(acc, index, cur.meta_content_scope@.len() as usize);
            let n = emit::popped(m, index, cur.meta_scope@.len() as usize);
            let a = if initial {
                n
            } else {
                acc
            };
            let bare = semantics::stripped(cur);
            lemma_calm_enter(a, ss, stack, initial, index, bare, false, pop_count, refs);
            lemma_calm_enter(acc, ss, stack, initial, index, left, false, pop_count, refs);
        },
        MatchOperation::Branch { name, alternatives, pop_count } => {
            let refs = views::of(alternatives@);
            lemma_calm_enter(acc, ss, stack, initial, index, left, false, pop_count, refs);
        },
        _ => {},
    }
}

pub(crate) proof fn lemma_calm_rule(
    acc: Seq<Op>,
    ss: Seq<SyntaxReference>,
    stack: Seq<LevelV>,
    context: Context,
    pat: MatchPattern,
    region: RegionV,
)
    requires
        clears_nothing(ss),
        context.clear_scopes is None,
        restores_nothing(acc),
    ensures
        engine::rule_ops(acc, ss, stack, context, pat, region) matches Ok(r) ==> restores_nothing(r),
{
    let (first, last) = regex::whole(region);
    let op = pat.operation;
    law_nothing_cleared_nothing_restored(acc, ss, stack, true, first, context, op);
    if let Ok(a) = semantics::meta_ops(acc, ss, stack, true, first, context, op) {
        let mapping = state::mapping_view(pat.captures);
        let more = captures::group_ops(mapping, region, true);
        captures::law_clipped_groups_stay_within(mapping, region, true);
        let b = emit::pushed(a, first, pat.scope@) + more;
        assert(restores_nothing(b));
        let c = emit::popped(b, last, pat.scope@.len() as usize);
        law_nothing_cleared_nothing_restored(c, ss, stack, false, last, context, op);
    }
}

pub(crate) proof fn lemma_calm_branch(
    acc: Seq<Op>,
    ss: Seq<SyntaxReference>,
    stack: Seq<LevelV>,
    first: usize,
    last: usize,
    scopes: Seq<Scope>,
    capture_ops: Seq<Op>,
    refs: Seq<ReferenceV>,
    pop_count: usize,
)
    requires
        clears_nothing(ss),
        restores_nothing(acc),
        restores_nothing(capture_ops),
    ensures
        engine::branch_ops(
            acc,
            ss,
            stack,
            first,
            last,
            scopes,
            capture_ops,
            refs,
            pop_count,
        ) matches Ok(r) ==> restores_nothing(r),
{
    if stack.len() > 0 {
        if let Ok(context) = syntax::context_of(ss, stack.last().context) {
            let cur = semantics::leaving(context);
            lemma_calm_enter(acc, ss, stack, true, first, cur, false, pop_count, refs);
            if let Ok(a) = semantics::enter_ops(
                acc,
                ss,
                stack,
                true,
                first,
                cur,
                false,
                pop_count,
                refs,
            ) {
                let b = emit::pushed(a, first, scopes) + capture_ops;
                assert(restores_nothing(b));
                let c = emit::popped(b, last, scopes.len() as usize);
                lemma_calm_enter(c, ss, stack, false, last, cur, false, pop_count, refs);
            }
        }
    }
}

pub(crate) proof fn lemma_calm_unwound_to(
    acc: Seq<Op>,
    ss: Seq<SyntaxReference>,
    stack: Seq<LevelV>,
    index: usize,
    target: usize,
)
    requires
        clears_nothing(ss),
        restores_nothing(acc),
    ensures
        embed::unwound_to(acc, ss, stack, index, target).1 matches Ok(r) ==> restores_nothing(r),
    decreases stack.len(),
{
    if stack.len() > target {
        if let Ok(context) = syntax::context_of(ss, stack.last().context) {
            let skip = semantics::replaced_by_below(ss, stack, stack.len() - 1);
            let next = semantics::frame_unwound(acc, index, context, skip);
            lemma_calm_unwound_to(next, ss, stack.drop_last(), index, target);
        }
    }
}

/// Operations are placed as late as that allows: any other placement of them that is in
/// order, within the line and never later than where they were, is no later.
pub proof fn law_levelled_latest(ops: Seq<Op>, end: usize, r: Seq<Op>, i: int)
    requires
        r.len() == ops.len(),
        in_order(r),
        up_to(r, end),
        forall|k: int| 0 <= k < ops.len() ==> (#[trigger] r[k]).0 <= ops[k].0,
        0 <= i < ops.len(),
    ensures
        r[i].0 <= emit::levelled(ops, end)[i].0,
    decreases ops.len() - i,
{
    if i + 1 < ops.len() {
        law_levelled_latest(ops, end, r, i + 1);
        assert(r[i].0 <= r[i + 1].0);
    } else {
        reveal_with_fuel(emit::earliest, 2);
    }
}

} // verus!
