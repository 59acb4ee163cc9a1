//! `clear_scopes`: every `Restore` finds a `Clear` before it.

use crate::captures;
use crate::committed;
use crate::embed;
use crate::emit;
use crate::engine;
use crate::engine::CursorV;
use crate::lines;
use crate::order;
use crate::parser;
use crate::perform;
use crate::regex;
use crate::scope;
use crate::scope::{ClearAmount, Op, Scope, ScopeStackOp, StackV};
use crate::search;
use crate::search::FoundV;
use crate::semantics;
use crate::semantics::LeavingV;
use crate::state;
use crate::state::{LevelV, RegionV, StateV};
use crate::syntax;
use crate::syntax::{
    Context, ContextId, MatchOperation, MatchPattern, ReferenceV, SyntaxReference,
};
use crate::text;
use crate::views;
use crate::window;
use vstd::prelude::*;

verus! {

/// How many `Clear`s are open after an operation, `n` being open before. `None`
/// where a `Restore` finds none.
pub open spec fn open_then(n: Option<int>, op: ScopeStackOp) -> Option<int> {
    match n {
        None => None,
        Some(n) => match op {
            ScopeStackOp::Clear(_) => Some(n + 1),
            ScopeStackOp::Restore => if n <= 0 {
                None
            } else {
                Some(n - 1)
            },
            _ => Some(n),
        },
    }
}

/// The same after all operations.
pub open spec fn open_after(n: int, ops: Seq<Op>) -> Option<int>
    decreases ops.len(),
{
    if ops.len() == 0 {
        Some(n)
    } else {
        open_then(open_after(n, ops.drop_last()), ops.last().1)
    }
}

/// Whether, `n` being open before the line, the operations find what they restore
/// and leave at least `least` open.
pub open spec fn leaves(n: int, ops: Seq<Op>, least: int) -> bool {
    open_after(n, ops) matches Some(m) && m >= least
}

/// Whether the context of a frame clears scopes.
pub open spec fn clears(ss: Seq<SyntaxReference>, id: ContextId) -> int {
    match syntax::context_of(ss, id) {
        Ok(context) => if context.clear_scopes is Some {
            1
        } else {
            0
        },
        Err(_) => 0,
    }
}

/// How many frames of the stack have a context that clears scopes.
pub open spec fn clearing(ss: Seq<SyntaxReference>, stack: Seq<LevelV>) -> int
    decreases stack.len(),
{
    if stack.len() == 0 {
        0
    } else {
        clearing(ss, stack.drop_last()) + clears(ss, stack.last().context)
    }
}

/// How many of the contexts `ids[i..]` clear scopes.
pub open spec fn clearing_ids(ss: Seq<SyntaxReference>, ids: Seq<ContextId>, i: int) -> int
    decreases ids.len() - i,
{
    if i < 0 || i >= ids.len() {
        0
    } else {
        clears(ss, ids[i]) + clearing_ids(ss, ids, i + 1)
    }
}

proof fn lemma_push(n: int, ops: Seq<Op>, op: Op)
    ensures
        open_after(n, ops.push(op)) == open_then(open_after(n, ops), op.1),
{
    assert(ops.push(op).drop_last() =~= ops);
}

/// Operations that neither clear nor restore change nothing.
proof fn lemma_neutral(n: int, ops: Seq<Op>, more: Seq<Op>)
    requires
        forall|i: int|
            0 <= i < more.len() ==> (#[trigger] more[i]).1 is Push || more[i].1 is Pop,
    ensures
        open_after(n, ops + more) == open_after(n, ops),
    decreases more.len(),
{
    if more.len() > 0 {
        let less = more.drop_last();
        assert forall|i: int| 0 <= i < less.len() implies (#[trigger] less[i]).1 is Push
            || less[i].1 is Pop by {
            assert(less[i] == more[i]);
        }
        lemma_neutral(n, ops, less);
        assert((ops + more).drop_last() =~= ops + less);
        assert((ops + more).last() == more[more.len() - 1]);
    } else {
        assert(ops + more =~= ops);
    }
}

proof fn lemma_pushed(n: int, acc: Seq<Op>, index: usize, scopes: Seq<Scope>)
    ensures
        open_after(n, emit::pushed(acc, index, scopes)) == open_after(n, acc),
{
    lemma_neutral(
        n,
        acc,
        Seq::new(scopes.len(), |i: int| (index, ScopeStackOp::Push(scopes[i]))),
    );
}

proof fn lemma_popped(n: int, acc: Seq<Op>, index: usize, count: usize)
    ensures
        open_after(n, emit::popped(acc, index, count)) == open_after(n, acc),
{
    lemma_push(n, acc, (index, ScopeStackOp::Pop(count)));
}

proof fn lemma_restored(n: int, acc: Seq<Op>, index: usize, b: bool, rest: int)
    requires
        rest >= 0,
        leaves(
            n,
            acc,
            rest + if b {
                1int
            } else {
                0
            },
        ),
    ensures
        leaves(n, emit::restored(acc, index, b), rest),
{
    lemma_push(n, acc, (index, ScopeStackOp::Restore));
}

proof fn lemma_cleared(n: int, acc: Seq<Op>, index: usize, amount: Option<ClearAmount>, rest: int)
    requires
        leaves(n, acc, rest),
    ensures
        leaves(
            n,
            emit::cleared(acc, index, amount),
            rest + if amount is Some {
                1int
            } else {
                0
            },
        ),
{
    if let Some(amount) = amount {
        lemma_push(n, acc, (index, ScopeStackOp::Clear(amount)));
    }
}

proof fn lemma_restored_times(n: int, acc: Seq<Op>, index: usize, count: nat, rest: int)
    requires
        rest >= 0,
        leaves(n, acc, rest + count),
    ensures
        leaves(n, emit::restored_times(acc, index, count), rest),
    decreases count,
{
    let r = emit::restored_times(acc, index, count);
    if count > 0 {
        let less = (count - 1) as nat;
        lemma_restored_times(n, acc, index, less, rest + 1);
        assert(r.drop_last() =~= emit::restored_times(acc, index, less));
        assert(r.last() == (index, ScopeStackOp::Restore));
    } else {
        assert(r =~= acc);
    }
}

proof fn lemma_clearing_not_negative(ss: Seq<SyntaxReference>, stack: Seq<LevelV>)
    ensures
        clearing(ss, stack) >= 0,
    decreases stack.len(),
{
    if stack.len() > 0 {
        lemma_clearing_not_negative(ss, stack.drop_last());
    }
}

proof fn lemma_clearing_below(ss: Seq<SyntaxReference>, stack: Seq<LevelV>, a: int, b: int)
    requires
        0 <= a <= b <= stack.len(),
    ensures
        0 <= clearing(ss, stack.subrange(0, a)) <= clearing(ss, stack.subrange(0, b)),
    decreases b - a,
{
    lemma_clearing_not_negative(ss, stack.subrange(0, a));
    if a < b {
        lemma_clearing_below(ss, stack, a, b - 1);
        assert(stack.subrange(0, b).drop_last() =~= stack.subrange(0, b - 1));
    }
}

proof fn lemma_clearing_top(ss: Seq<SyntaxReference>, stack: Seq<LevelV>, b: int)
    requires
        0 < b <= stack.len(),
    ensures
        clearing(ss, stack.subrange(0, b)) == clearing(ss, stack.subrange(0, b - 1)) + clears(
            ss,
            stack[b - 1].context,
        ),
{
    assert(stack.subrange(0, b).drop_last() =~= stack.subrange(0, b - 1));
}

proof fn lemma_clearing_base(ss: Seq<SyntaxReference>, stack: Seq<LevelV>, n: int)
    requires
        n >= 0,
    ensures
        0 <= clearing(ss, perform::without_top(stack, n)) <= clearing(ss, stack),
{
    lemma_clearing_below(
        ss,
        stack,
        stack.len() - scope::least(n, stack.len() as int),
        stack.len() as int,
    );
    assert(stack.subrange(0, stack.len() as int) =~= stack);
}

proof fn lemma_clearing_ids_not_negative(ss: Seq<SyntaxReference>, ids: Seq<ContextId>, i: int)
    ensures
        clearing_ids(ss, ids, i) >= 0,
    decreases ids.len() - i,
{
    if 0 <= i < ids.len() {
        lemma_clearing_ids_not_negative(ss, ids, i + 1);
    }
}

/// The frames at the depths `depth..n` restore what they have cleared.
proof fn lemma_unwound(
    k: int,
    acc: Seq<Op>,
    ss: Seq<SyntaxReference>,
    stack: Seq<LevelV>,
    index: usize,
    respect_embed: bool,
    depth: int,
    n: int,
    slack: int,
)
    requires
        0 <= depth <= stack.len(),
        slack >= 0,
        leaves(k, acc, clearing(ss, stack.subrange(0, stack.len() - depth)) + slack),
    ensures
        semantics::unwound(acc, ss, stack, index, respect_embed, depth, n) matches Ok(r) ==> leaves(
            k,
            r,
            clearing(
                ss,
                stack.subrange(
                    0,
                    stack.len() - if n <= depth {
                        depth
                    } else {
                        scope::least(n, stack.len() as int)
                    },
                ),
            ) + slack,
        ),
    decreases n - depth,
{
    if !(depth >= n || depth >= stack.len()) {
        let level = stack.len() - 1 - depth;
        if let Ok(context) = syntax::context_of(ss, stack[level].context) {
            let skip = respect_embed && semantics::replaced_by_below(ss, stack, level);
            let next = semantics::frame_unwound(acc, index, context, skip);
            let a = if skip {
                acc
            } else {
                emit::popped(acc, index, context.meta_content_scope@.len() as usize)
            };
            let b = emit::popped(a, index, context.meta_scope@.len() as usize);
            lemma_popped(k, acc, index, context.meta_content_scope@.len() as usize);
            lemma_popped(k, a, index, context.meta_scope@.len() as usize);
            lemma_clearing_top(ss, stack, stack.len() - depth);
            let rest = clearing(ss, stack.subrange(0, level)) + slack;
            lemma_clearing_not_negative(ss, stack.subrange(0, level));
            lemma_restored(k, b, index, context.clear_scopes is Some, rest);
            lemma_unwound(k, next, ss, stack, index, respect_embed, depth + 1, n, slack);
        }
    }
}

proof fn lemma_entered_before(
    k: int,
    acc: Seq<Op>,
    ss: Seq<SyntaxReference>,
    ids: Seq<ContextId>,
    i: int,
    index: usize,
    preview: bool,
    emit_clear: bool,
    atoms: usize,
    rest: int,
)
    requires
        semantics::all_known(ss, ids),
        leaves(k, acc, rest),
    ensures
        leaves(
            k,
            semantics::entered_before(acc, ss, ids, i, index, preview, emit_clear, atoms),
            rest + if emit_clear {
                clearing_ids(ss, ids, i)
            } else {
                0
            } + if preview {
                semantics::preview_count(ss, ids, i, atoms) as int
            } else {
                0
            },
        ),
    decreases ids.len() - i,
{
    if 0 <= i < ids.len() {
        assert(syntax::context_of(ss, ids[i]) is Ok);
        let context = semantics::known(ss, ids[i]);
        let amount = if preview {
            semantics::preview_amount(context, atoms)
        } else {
            0
        };
        let clear = (index, ScopeStackOp::Clear(ClearAmount::TopN(amount)));
        let a = if amount > 0 {
            acc.push(clear)
        } else {
            acc
        };
        lemma_push(k, acc, clear);
        let extra = if amount > 0 {
            1int
        } else {
            0
        };
        let b = if emit_clear {
            emit::cleared(a, index, context.clear_scopes)
        } else {
            a
        };
        lemma_cleared(k, a, index, context.clear_scopes, rest + extra);
        let own = if emit_clear {
            clears(ss, ids[i])
        } else {
            0
        };
        lemma_pushed(k, b, index, context.meta_scope@);
        lemma_entered_before(
            k,
            emit::pushed(b, index, context.meta_scope@),
            ss,
            ids,
            i + 1,
            index,
            preview,
            emit_clear,
            ((atoms - amount) as usize).saturating_add(context.meta_scope@.len() as usize),
            rest + extra + own,
        );
    }
}

proof fn lemma_entered_after(
    k: int,
    acc: Seq<Op>,
    ss: Seq<SyntaxReference>,
    ids: Seq<ContextId>,
    i: int,
    index: usize,
    emit_clear: bool,
    respect_embed: bool,
    replaced: bool,
    rest: int,
)
    requires
        semantics::all_known(ss, ids),
        leaves(k, acc, rest),
    ensures
        leaves(
            k,
            semantics::entered_after(
                acc,
                ss,
                ids,
                i,
                index,
                emit_clear,
                respect_embed,
                replaced,
            ),
            rest + if emit_clear {
                clearing_ids(ss, ids, i)
            } else {
                0
            },
        ),
    decreases ids.len() - i,
{
    if 0 <= i < ids.len() {
        assert(syntax::context_of(ss, ids[i]) is Ok);
        let context = semantics::known(ss, ids[i]);
        let a = if emit_clear {
            emit::cleared(acc, index, context.clear_scopes)
        } else {
            acc
        };
        lemma_cleared(k, acc, index, context.clear_scopes, rest);
        let own = if emit_clear {
            clears(ss, ids[i])
        } else {
            0
        };
        let b = emit::pushed(a, index, context.meta_scope@);
        lemma_pushed(k, a, index, context.meta_scope@);
        lemma_pushed(k, b, index, context.meta_content_scope@);
        let c = if respect_embed && replaced {
            b
        } else {
            emit::pushed(b, index, context.meta_content_scope@)
        };
        lemma_entered_after(
            k,
            c,
            ss,
            ids,
            i + 1,
            index,
            emit_clear,
            respect_embed,
            context.embed_scope_replaces,
            rest + own,
        );
    }
}

/// What is open, at least, between the two halves of a `push` (or `set`).
pub open spec fn open_between(
    ss: Seq<SyntaxReference>,
    stack: Seq<LevelV>,
    cur: LeavingV,
    is_set: bool,
    pop_count: usize,
    ids: Seq<ContextId>,
) -> int {
    let v2 = semantics::syntax_version(ss, stack) >= 2;
    if is_set {
        clearing(ss, stack) + if v2 && semantics::drops_extra(ss, ids, cur, is_set, pop_count) {
            1int
        } else {
            0
        } + if v2 && ids.len() > 1 {
            semantics::preview_count(ss, ids, 0, 0) as int
        } else {
            0
        } + if v2 && semantics::clears_early(ids, cur, is_set) {
            clearing_ids(ss, ids, 0)
        } else {
            0
        }
    } else {
        clearing(ss, perform::without_top(stack, pop_count as int)) + clearing_ids(ss, ids, 0)
    }
}

#[verifier::rlimit(30)]
proof fn lemma_enter_before(
    k: int,
    acc: Seq<Op>,
    ss: Seq<SyntaxReference>,
    stack: Seq<LevelV>,
    index: usize,
    cur: LeavingV,
    is_set: bool,
    pop_count: usize,
    refs: Seq<ReferenceV>,
    ids: Seq<ContextId>,
)
    requires
        leaves(k, acc, clearing(ss, stack)),
        semantics::resolved_ids(ss, refs, 0, Seq::empty()) == Ok::<Seq<ContextId>, syntax::ErrorV>(ids),
        semantics::all_known(ss, ids),
    ensures
        semantics::enter_before(acc, ss, stack, index, cur, is_set, pop_count, refs) matches Ok(r)
            ==> leaves(k, r, open_between(ss, stack, cur, is_set, pop_count, ids)),
{
    let v2 = semantics::syntax_version(ss, stack) >= 2;
    let base = perform::without_top(stack, pop_count as int);
    lemma_clearing_base(ss, stack, pop_count as int);
    let a = if is_set && v2 && !semantics::replaced_by_below(ss, stack, stack.len() - 1) {
        emit::popped(acc, index, semantics::declared_content(ss, stack, cur))
    } else {
        acc
    };
    lemma_popped(k, acc, index, semantics::declared_content(ss, stack, cur));
    let p = emit::popped(a, index, cur.meta_scope.len() as usize);
    lemma_popped(k, a, index, cur.meta_scope.len() as usize);
    let start = if is_set {
        clearing(ss, stack)
    } else {
        clearing(ss, base)
    };
    if let Ok(left) = semantics::left_before(acc, ss, stack, index, cur, is_set, pop_count) {
        assert(leaves(k, left, start)) by {
            if !is_set && pop_count > 1 && stack.len() > 0 {
                lemma_clearing_below(ss, stack, stack.len() - 1, stack.len() as int);
                assert(stack.subrange(0, stack.len() as int) =~= stack);
                lemma_unwound(k, p, ss, stack, index, false, 1, pop_count as int, 0);
                if let Ok(b) = semantics::unwound(
                    p,
                    ss,
                    stack,
                    index,
                    false,
                    1,
                    pop_count as int,
                ) {
                    lemma_pushed(k, b, index, cur.meta_scope);
                }
            } else if stack.len() == 0 {
                lemma_pushed(k, p, index, cur.meta_scope);
            }
        }
        let extra = v2 && semantics::drops_extra(ss, ids, cur, is_set, pop_count);
        let amount = semantics::anchored_clear(ss, ids, 0)->0.saturating_add(1);
        let clear = (index, ScopeStackOp::Clear(ClearAmount::TopN(amount)));
        let b = if extra {
            left.push(clear)
        } else {
            left
        };
        lemma_push(k, left, clear);
        lemma_entered_before(
            k,
            b,
            ss,
            ids,
            0,
            index,
            v2 && is_set && ids.len() > 1,
            !is_set || (v2 && semantics::clears_early(ids, cur, is_set)),
            0,
            start + if extra {
                1int
            } else {
                0
            },
        );
    }
}

proof fn lemma_no_target(ss: Seq<SyntaxReference>, ids: Seq<ContextId>, i: int, atoms: usize)
    requires
        semantics::all_known(ss, ids),
        !semantics::needs_repush(ss, ids, true),
        i >= 0,
    ensures
        clearing_ids(ss, ids, i) == 0,
        semantics::preview_count(ss, ids, i, atoms) == 0,
        semantics::anchored_clear(ss, ids, i) is None,
    decreases ids.len() - i,
{
    if i < ids.len() {
        let context = semantics::known(ss, ids[i]);
        assert(syntax::context_of(ss, ids[i]) is Ok);
        assert(context.clear_scopes is None);
        lemma_no_target(
            ss,
            ids,
            i + 1,
            atoms.saturating_add(context.meta_scope@.len() as usize),
        );
    }
}

#[verifier::rlimit(40)]
proof fn lemma_enter_after(
    k: int,
    acc: Seq<Op>,
    ss: Seq<SyntaxReference>,
    stack: Seq<LevelV>,
    index: usize,
    cur: LeavingV,
    is_set: bool,
    pop_count: usize,
    refs: Seq<ReferenceV>,
    ids: Seq<ContextId>,
)
    requires
        leaves(k, acc, open_between(ss, stack, cur, is_set, pop_count, ids)),
        semantics::resolved_ids(ss, refs, 0, Seq::empty()) == Ok::<Seq<ContextId>, syntax::ErrorV>(ids),
        semantics::all_known(ss, ids),
        stack.len() > 0,
        is_set ==> (cur.clear_scopes is Some <==> clears(ss, stack.last().context) == 1),
    ensures
        semantics::enter_after(acc, ss, stack, index, cur, is_set, pop_count, refs) matches Ok(r)
            ==> leaves(
            k,
            r,
            clearing(
                ss,
                perform::without_top(
                    stack,
                    if is_set {
                        semantics::set_pops(pop_count) as int
                    } else {
                        pop_count as int
                    },
                ),
            ) + clearing_ids(ss, ids, 0),
        ),
{
    let v2 = semantics::syntax_version(ss, stack) >= 2;
    let pops = semantics::set_pops(pop_count);
    let len = stack.len() as int;
    let leaves_some = cur.meta_scope.len() > 0 || cur.meta_content_scope.len() > 0
        || cur.clear_scopes is Some;
    let top = clears(ss, stack.last().context);
    assert(stack.subrange(0, len) =~= stack);
    lemma_clearing_top(ss, stack, len);
    lemma_clearing_below(ss, stack, len - 1, len);
    lemma_clearing_ids_not_negative(ss, ids, 0);
    let below = clearing(ss, stack.subrange(0, len - 1));
    if (is_set && (pops > 1 || leaves_some)) || semantics::needs_repush(ss, ids, is_set) {
        let targets = semantics::meta_scope_count(ss, ids, 0, 0);
        let head = if !is_set {
            targets
        } else if v2 {
            targets.saturating_add(cur.meta_scope.len() as usize)
        } else {
            targets.saturating_add(cur.meta_content_scope.len() as usize).saturating_add(
                cur.meta_scope.len() as usize,
            )
        };
        if is_set {
            let extra = v2 && semantics::drops_extra(ss, ids, cur, is_set, pop_count);
            let x = if extra {
                1int
            } else {
                0
            };
            let previews = if v2 && ids.len() > 1 {
                semantics::preview_count(ss, ids, 0, 0)
            } else {
                0
            };
            let soon = v2 && semantics::clears_early(ids, cur, is_set);
            let e0 = if soon {
                clearing_ids(ss, ids, 0)
            } else {
                0
            };
            let early = pops > 1 && cur.clear_scopes is Some;
            let late = cur.clear_scopes is Some && !early;
            let still = if late {
                1int
            } else {
                0
            };
            let a = emit::restored(acc, index, early);
            lemma_restored(k, acc, index, early, below + still + x + previews + e0);
            let b = if v2 && ids.len() > 1 {
                emit::restored_times(a, index, previews)
            } else {
                a
            };
            lemma_restored_times(k, a, index, previews, below + still + x + e0);
            let c = emit::popped(b, index, head);
            lemma_popped(k, b, index, head);
            let d = emit::restored(c, index, late);
            lemma_restored(k, c, index, late, below + x + e0);
            lemma_unwound(k, d, ss, stack, index, false, 1, pops as int, x + e0);
            let e = if pops > 1 {
                semantics::unwound(d, ss, stack, index, false, 1, pops as int)
            } else {
                Ok(d)
            };
            let base = clearing(ss, perform::without_top(stack, pops as int));
            lemma_clearing_base(ss, stack, pops as int);
            if let Ok(f) = e {
                assert(leaves(k, f, base + x + e0));
                let g = emit::restored(f, index, extra);
                lemma_restored(k, f, index, extra, base + e0);
                lemma_entered_after(k, g, ss, ids, 0, index, !soon, v2, false, base + e0);
            }
        } else {
            let base = clearing(ss, perform::without_top(stack, pop_count as int));
            let rest = base + clearing_ids(ss, ids, 0);
            let c = emit::popped(acc, index, head);
            lemma_popped(k, acc, index, head);
            lemma_entered_after(k, c, ss, ids, 0, index, false, v2, false, rest);
        }
    } else if is_set {
        lemma_no_target(ss, ids, 0, 0);
        assert(perform::without_top(stack, 1) =~= stack.subrange(0, len - 1));
    }
}

proof fn lemma_resolved(
    ss: Seq<SyntaxReference>,
    refs: Seq<ReferenceV>,
    i: int,
    acc: Seq<ContextId>,
)
    requires
        0 <= i <= refs.len(),
        acc.len() == i,
        semantics::all_known(ss, acc),
        forall|j: int|
            0 <= j < i ==> syntax::reference_id(refs[j]) == Ok::<ContextId, syntax::ErrorV>(
                #[trigger] acc[j],
            ),
    ensures
        semantics::resolved_ids(ss, refs, i, acc) matches Ok(ids) ==> {
            &&& ids.len() == refs.len()
            &&& semantics::all_known(ss, ids)
            &&& forall|j: int|
                0 <= j < ids.len() ==> syntax::reference_id(refs[j]) == Ok::<
                    ContextId,
                    syntax::ErrorV,
                >(#[trigger] ids[j])
        },
    decreases refs.len() - i,
{
    if i < refs.len() {
        if let Ok(id) = syntax::reference_id(refs[i]) {
            if syntax::context_of(ss, id) is Ok {
                lemma_resolved(ss, refs, i + 1, acc.push(id));
            }
        }
    }
}

/// A `push` (or `set`): both halves of its operations, with others in between that
/// neither clear nor restore.
proof fn lemma_enter(
    k: int,
    acc: Seq<Op>,
    between: Seq<Op>,
    ss: Seq<SyntaxReference>,
    stack: Seq<LevelV>,
    first: usize,
    last: usize,
    cur: LeavingV,
    is_set: bool,
    pop_count: usize,
    refs: Seq<ReferenceV>,
)
    requires
        stack.len() > 0,
        leaves(k, acc, clearing(ss, stack)),
        is_set ==> (cur.clear_scopes is Some <==> clears(ss, stack.last().context) == 1),
        semantics::enter_ops(acc, ss, stack, true, first, cur, is_set, pop_count, refs) matches Ok(
            a,
        ) ==> open_after(k, between) == open_after(k, a),
    ensures
        ({
            let a = semantics::enter_ops(
                acc,
                ss,
                stack,
                true,
                first,
                cur,
                is_set,
                pop_count,
                refs,
            );
            let b = semantics::enter_ops(
                between,
                ss,
                stack,
                false,
                last,
                cur,
                is_set,
                pop_count,
                refs,
            );
            a is Ok && b is Ok ==> {
                let ids = semantics::resolved_ids(ss, refs, 0, Seq::empty())->Ok_0;
                &&& semantics::resolved_ids(ss, refs, 0, Seq::empty()) is Ok
                &&& leaves(
                    k,
                    b->Ok_0,
                    clearing(
                        ss,
                        perform::without_top(
                            stack,
                            if is_set {
                                semantics::set_pops(pop_count) as int
                            } else {
                                pop_count as int
                            },
                        ),
                    ) + clearing_ids(ss, ids, 0),
                )
            }
        }),
{
    lemma_resolved(ss, refs, 0, Seq::empty());
    if let Ok(ids) = semantics::resolved_ids(ss, refs, 0, Seq::empty()) {
        lemma_enter_before(k, acc, ss, stack, first, cur, is_set, pop_count, refs, ids);
        if let Ok(a) = semantics::enter_ops(
            acc,
            ss,
            stack,
            true,
            first,
            cur,
            is_set,
            pop_count,
            refs,
        ) {
            lemma_enter_after(k, between, ss, stack, last, cur, is_set, pop_count, refs, ids);
        }
    }
}

proof fn lemma_levels(
    stack: Seq<LevelV>,
    ss: Seq<SyntaxReference>,
    refs: Seq<ReferenceV>,
    i: int,
    protos: Seq<ContextId>,
    with_prototype: Option<ReferenceV>,
    region: RegionV,
    line: Seq<char>,
    ids: Seq<ContextId>,
)
    requires
        i >= 0,
        ids.len() == refs.len(),
        forall|j: int|
            0 <= j < ids.len() ==> syntax::reference_id(refs[j]) == Ok::<ContextId, syntax::ErrorV>(
                #[trigger] ids[j],
            ),
    ensures
        ({
            let (next, r) = perform::pushed_levels(
                stack,
                ss,
                refs,
                i,
                protos,
                with_prototype,
                region,
                line,
            );
            r is Ok ==> clearing(ss, next) == clearing(ss, stack) + clearing_ids(ss, ids, i)
        }),
    decreases refs.len() - i,
{
    if i < refs.len() {
        let id = ids[i];
        assert(syntax::reference_id(refs[i]) == Ok::<ContextId, syntax::ErrorV>(id));
        let kept = if i == 0 {
            protos
        } else {
            Seq::empty()
        };
        let own = match with_prototype {
            Some(p) => if i == refs.len() - 1 {
                match syntax::reference_id(p) {
                    Ok(id) => Ok(kept.push(id)),
                    Err(e) => Err(e),
                }
            } else {
                Ok(kept)
            },
            None => Ok(kept),
        };
        if let Ok(prototypes) = own {
            if let Ok(context) = syntax::context_of(ss, id) {
                let captures = if context.uses_backrefs || perform::any_backrefs(ss, prototypes) {
                    Some((region, line))
                } else {
                    None
                };
                let level = LevelV { context: id, prototypes, captures };
                assert(stack.push(level).drop_last() =~= stack);
                lemma_levels(
                    stack.push(level),
                    ss,
                    refs,
                    i + 1,
                    protos,
                    with_prototype,
                    region,
                    line,
                    ids,
                );
            }
        }
    }
}

proof fn lemma_performed_push(
    st: StateV,
    ss: Seq<SyntaxReference>,
    line: Seq<char>,
    region: RegionV,
    refs: Seq<ReferenceV>,
    pop_count: usize,
    with_prototype: Option<ReferenceV>,
)
    requires
        semantics::resolved_ids(ss, refs, 0, Seq::empty()) is Ok,
    ensures
        ({
            let (next, r) = perform::performed_push(
                st,
                ss,
                line,
                region,
                refs,
                pop_count,
                with_prototype,
            );
            let ids = semantics::resolved_ids(ss, refs, 0, Seq::empty())->Ok_0;
            &&& next.flushed_ops == st.flushed_ops
            &&& r is Ok ==> clearing(ss, next.stack) == clearing(
                ss,
                perform::without_top(st.stack, pop_count as int),
            ) + clearing_ids(ss, ids, 0)
        }),
{
    lemma_resolved(ss, refs, 0, Seq::empty());
    let ids = semantics::resolved_ids(ss, refs, 0, Seq::empty())->Ok_0;
    let base = perform::without_top(st.stack, pop_count as int);
    let protos = if pop_count > 0 && st.stack.len() > 0 {
        st.stack.last().prototypes
    } else {
        Seq::empty()
    };
    lemma_levels(base, ss, refs, 0, protos, with_prototype, region, line, ids);
}

/// Whether a rule neither fails nor pops nothing.
pub open spec fn plain_rule(pat: MatchPattern) -> bool {
    match pat.operation {
        MatchOperation::Fail(_) => false,
        MatchOperation::Pop(n) => n > 0,
        _ => true,
    }
}

/// Whether this holds of all rules of the set.
pub open spec fn fails_nowhere(ss: Seq<SyntaxReference>) -> bool {
    forall|id: ContextId, index: usize| #[trigger]
        syntax::rule_at(syntax::context_of(ss, id)->Ok_0, index) matches Ok(pat) ==> (
        syntax::context_of(ss, id) is Ok ==> plain_rule(pat))
}

#[verifier::rlimit(40)]
proof fn lemma_rule(
    k: int,
    acc: Seq<Op>,
    ss: Seq<SyntaxReference>,
    st: StateV,
    line: Seq<char>,
    context: Context,
    pat: MatchPattern,
    region: RegionV,
)
    requires
        st.stack.len() > 0,
        syntax::context_of(ss, st.stack.last().context) == Ok::<Context, syntax::ErrorV>(context),
        leaves(k, acc, clearing(ss, st.stack)),
        plain_rule(pat),
        !(pat.operation is Branch),
    ensures
        ({
            let (next, r) = perform::performed(
                st,
                ss,
                line,
                region,
                pat.operation,
                views::opt(pat.with_prototype),
            );
            &&& next.flushed_ops == st.flushed_ops
            &&& r is Ok ==> (engine::rule_ops(acc, ss, st.stack, context, pat, region) matches Ok(
                ops,
            ) ==> leaves(k, ops, clearing(ss, next.stack)))
        }),
{
    let (first, last) = regex::whole(region);
    let stack = st.stack;
    let left = semantics::leaving(context);
    let wp = views::opt(pat.with_prototype);
    let op = pat.operation;
    let mapping = state::mapping_view(pat.captures);
    let groups = captures::group_ops(mapping, region, true);
    captures::law_clipped_groups_stay_within(mapping, region, true);
    let a = semantics::meta_ops(acc, ss, stack, true, first, context, op);
    let p = emit::pushed(a->Ok_0, first, pat.scope@);
    let b = p + groups;
    let c = emit::popped(b, last, pat.scope@.len() as usize);
    lemma_pushed(k, a->Ok_0, first, pat.scope@);
    lemma_neutral(k, p, groups);
    lemma_popped(k, b, last, pat.scope@.len() as usize);
    if a is Ok {
        match op {
            MatchOperation::Push { ctx_refs, pop_count } => {
                let refs = views::of(ctx_refs@);
                lemma_enter(k, acc, c, ss, stack, first, last, left, false, pop_count, refs);
                if semantics::resolved_ids(ss, refs, 0, Seq::empty()) is Ok {
                    lemma_performed_push(st, ss, line, region, refs, pop_count, wp);
                }
            },
            MatchOperation::SetTo { ctx_refs, pop_count } => {
                let refs = views::of(ctx_refs@);
                let pops = semantics::set_pops(pop_count);
                lemma_enter(k, acc, c, ss, stack, first, last, left, true, pop_count, refs);
                if semantics::resolved_ids(ss, refs, 0, Seq::empty()) is Ok {
                    lemma_performed_push(st, ss, line, region, refs, pops, wp);
                }
            },
            MatchOperation::Embed { contexts, escape, pop_count } => {
                let refs = views::of(contexts@);
                let m = emit::popped(acc, first, context.meta_content_scope@.len() as usize);
                let n = emit::popped(m, first, context.meta_scope@.len() as usize);
                lemma_popped(k, acc, first, context.meta_content_scope@.len() as usize);
                lemma_popped(k, m, first, context.meta_scope@.len() as usize);
                let start = if pop_count > 0 {
                    n
                } else {
                    acc
                };
                let cur = if pop_count > 0 {
                    semantics::stripped(context)
                } else {
                    left
                };
                lemma_enter(k, start, c, ss, stack, first, last, cur, false, pop_count, refs);
                lemma_resolved(ss, refs, 0, Seq::empty());
                if let Ok(ids) = semantics::resolved_ids(ss, refs, 0, Seq::empty()) {
                    let base = perform::without_top(stack, pop_count as int);
                    lemma_levels(base, ss, refs, 0, Seq::empty(), wp, region, line, ids);
                }
            },
            MatchOperation::Pop(n) => {
                let len = stack.len() as int;
                let v2 = semantics::syntax_version(ss, stack) >= 2;
                lemma_popped(k, acc, first, context.meta_content_scope@.len() as usize);
                assert(stack.subrange(0, len) =~= stack);
                lemma_clearing_top(ss, stack, len);
                lemma_clearing_not_negative(ss, stack.subrange(0, len - 1));
                let d = emit::popped(c, last, context.meta_scope@.len() as usize);
                lemma_popped(k, c, last, context.meta_scope@.len() as usize);
                let e = emit::restored(d, last, context.clear_scopes is Some);
                let below = clearing(ss, stack.subrange(0, len - 1));
                lemma_restored(k, d, last, context.clear_scopes is Some, below);
                lemma_unwound(k, e, ss, stack, last, v2, 1, n as int, 0);
            },
            _ => {},
        }
    }
}

#[verifier::rlimit(30)]
proof fn lemma_executed(
    k: int,
    fuel: nat,
    ss: Seq<SyntaxReference>,
    line: Seq<char>,
    st: StateV,
    cur: CursorV,
    pat: MatchPattern,
    region: RegionV,
)
    requires
        st.stack.len() > 0,
        leaves(k, cur.ops, clearing(ss, st.stack)),
        plain_rule(pat),
        engine::executed(fuel, ss, line, st, cur, pat, region) is Some,
    ensures
        ({
            let (next, r) = engine::executed(fuel, ss, line, st, cur, pat, region)->0;
            r matches Ok((cur1, _)) ==> next.flushed_ops == st.flushed_ops && leaves(
                k,
                cur1.ops,
                clearing(ss, next.stack),
            )
        }),
{
    let (first, last) = regex::whole(region);
    if let Ok(context) = syntax::context_of(ss, st.stack.last().context) {
        match pat.operation {
            MatchOperation::Branch { name, alternatives, pop_count } => {
                let all = views::of(alternatives@);
                let bp = engine::new_branch(st, cur, pat, name@, all, pop_count, region);
                let st1 = engine::with_branch(st, bp);
                let refs = engine::first_alternative(all);
                let left = semantics::leaving(context);
                let stack = st.stack;
                captures::law_clipped_groups_stay_within(
                    state::mapping_view(pat.captures),
                    region,
                    true,
                );
                let a = semantics::enter_ops(
                    cur.ops,
                    ss,
                    stack,
                    true,
                    first,
                    left,
                    false,
                    pop_count,
                    refs,
                );
                let p = emit::pushed(a->Ok_0, first, pat.scope@);
                let b = p + bp.capture_ops;
                let c = emit::popped(b, last, pat.scope@.len() as usize);
                lemma_pushed(k, a->Ok_0, first, pat.scope@);
                lemma_neutral(k, p, bp.capture_ops);
                lemma_popped(k, b, last, pat.scope@.len() as usize);
                lemma_enter(k, cur.ops, c, ss, stack, first, last, left, false, pop_count, refs);
                if semantics::resolved_ids(ss, refs, 0, Seq::empty()) is Ok {
                    let wp = views::opt(pat.with_prototype);
                    lemma_performed_push(st1, ss, line, region, refs, pop_count, wp);
                }
            },
            _ => {
                lemma_rule(k, cur.ops, ss, st, line, context, pat, region);
            },
        }
    }
}

proof fn lemma_unwound_to(
    k: int,
    acc: Seq<Op>,
    ss: Seq<SyntaxReference>,
    stack: Seq<LevelV>,
    index: usize,
    target: usize,
)
    requires
        leaves(k, acc, clearing(ss, stack)),
    ensures
        ({
            let (next, r) = embed::unwound_to(acc, ss, stack, index, target);
            r matches Ok(ops) ==> leaves(k, ops, clearing(ss, next))
        }),
    decreases stack.len(),
{
    if stack.len() > target {
        if let Ok(context) = syntax::context_of(ss, stack.last().context) {
            let skip = semantics::replaced_by_below(ss, stack, stack.len() - 1);
            let next = semantics::frame_unwound(acc, index, context, skip);
            let a = if skip {
                acc
            } else {
                emit::popped(acc, index, context.meta_content_scope@.len() as usize)
            };
            let b = emit::popped(a, index, context.meta_scope@.len() as usize);
            lemma_popped(k, acc, index, context.meta_content_scope@.len() as usize);
            lemma_popped(k, a, index, context.meta_scope@.len() as usize);
            let rest = clearing(ss, stack.drop_last());
            lemma_clearing_not_negative(ss, stack.drop_last());
            lemma_restored(k, b, index, context.clear_scopes is Some, rest);
            lemma_unwound_to(k, next, ss, stack.drop_last(), index, target);
        }
    }
}

proof fn lemma_escape(
    k: int,
    ss: Seq<SyntaxReference>,
    line: Seq<char>,
    st: StateV,
    cur: CursorV,
    found: FoundV,
)
    requires
        leaves(k, cur.ops, clearing(ss, st.stack)),
    ensures
        ({
            let (next, r) = engine::escape_step(ss, line, st, cur, found);
            r matches Ok((cur1, _)) ==> next.flushed_ops == st.flushed_ops && leaves(
                k,
                cur1.ops,
                clearing(ss, next.stack),
            )
        }),
{
    let (first, last) = regex::whole(found.regions);
    if found.escape_index < st.escape_stack.len() {
        let entry = st.escape_stack[found.escape_index as int];
        if let Ok(expected) = embed::expected_depth(ss, st.stack, 0, 0, false) {
            let a = embed::without_orphans(cur.ops, st.shadow, first, expected);
            let depth = scope::applied_all(st.shadow, cur.ops).scopes.len();
            lemma_popped(k, cur.ops, first, (depth - expected) as usize);
            lemma_unwound_to(k, a, ss, st.stack, first, entry.stack_depth);
            if let Ok(b) = embed::unwound_to(a, ss, st.stack, first, entry.stack_depth).1 {
                captures::law_clipped_groups_stay_within(entry.captures, found.regions, false);
                lemma_neutral(k, b, captures::group_ops(entry.captures, found.regions, false));
            }
        }
    }
}

proof fn lemma_step(
    k: int,
    fuel: nat,
    ss: Seq<SyntaxReference>,
    line: Seq<char>,
    st: StateV,
    cur: CursorV,
)
    requires
        fails_nowhere(ss),
        leaves(k, cur.ops, clearing(ss, st.stack)),
        engine::stepped(fuel, ss, line, st, cur) is Some,
    ensures
        ({
            let (next, r) = engine::stepped(fuel, ss, line, st, cur)->0;
            r matches Ok((cur1, _)) ==> next.flushed_ops == st.flushed_ops && leaves(
                k,
                cur1.ops,
                clearing(ss, next.stack),
            )
        }),
{
    let len = st.stack.len() as int;
    let st1 = StateV { proto_starts: engine::trimmed(st.proto_starts, len), ..st };
    if let Some(Ok((memory, Some(found)))) = search::best_match(
        fuel,
        ss,
        line,
        st1,
        cur.start,
        cur.memory,
        engine::loop_armed(cur, len),
        cur.push_mark.1,
    ) {
        let cur1 = CursorV { memory, ..cur };
        match found.rule {
            None => {
                lemma_escape(k, ss, line, st1, cur1, found);
            },
            Some(rule) => if !found.would_loop {
                if let Ok(context) = syntax::context_of(ss, rule.0) {
                    if let Ok(pat) = syntax::rule_at(context, rule.1) {
                        assert(plain_rule(pat)) by {
                            assert(syntax::rule_at(
                                syntax::context_of(ss, rule.0)->Ok_0,
                                rule.1,
                            ) is Ok);
                        }
                        if !engine::eol_branch(line, st1, cur1, pat, found) {
                            lemma_executed(
                                k,
                                fuel,
                                ss,
                                line,
                                engine::rule_entry(st1, found),
                                engine::rule_cursor(st1, cur1, pat, found),
                                pat,
                                found.regions,
                            );
                        }
                    }
                }
            },
        }
    }
}

proof fn lemma_tokens(
    k: int,
    fuel: nat,
    ss: Seq<SyntaxReference>,
    line: Seq<char>,
    st: StateV,
    cur: CursorV,
)
    requires
        fails_nowhere(ss),
        leaves(k, cur.ops, clearing(ss, st.stack)),
        engine::tokens_parsed(fuel, ss, line, st, cur) is Some,
    ensures
        ({
            let (next, r) = engine::tokens_parsed(fuel, ss, line, st, cur)->0;
            r matches Ok(ops) ==> next.flushed_ops == st.flushed_ops && leaves(
                k,
                ops,
                clearing(ss, next.stack),
            )
        }),
    decreases fuel,
{
    let less = (fuel - 1) as nat;
    lemma_step(k, less, ss, line, st, cur);
    if let Some((st1, Ok((cur1, true)))) = engine::stepped(less, ss, line, st, cur) {
        lemma_tokens(k, less, ss, line, st1, cur1);
    }
}

proof fn lemma_prefix(n: int, ops: Seq<Op>, i: int)
    requires
        0 <= i <= ops.len(),
        open_after(n, ops) is Some,
    ensures
        open_after(n, ops.subrange(0, i)) is Some,
    decreases ops.len() - i,
{
    if i < ops.len() {
        lemma_prefix(n, ops, i + 1);
        assert(ops.subrange(0, i + 1).drop_last() =~= ops.subrange(0, i));
    } else {
        assert(ops.subrange(0, i) =~= ops);
    }
}

/// A scope stack counts its open `Clear`s.
proof fn lemma_applies(n: int, s: StackV, ops: Seq<Op>, i: int)
    requires
        0 <= i <= ops.len(),
        open_after(n, ops) is Some,
        open_after(n, ops.subrange(0, i)) == Some(s.cleared.len() as int),
    ensures
        scope::applies(s, ops, i),
        open_after(n, ops) == Some(scope::applied_from(s, ops, i).cleared.len() as int),
    decreases ops.len() - i,
{
    if i < ops.len() {
        lemma_prefix(n, ops, i + 1);
        let next = ops.subrange(0, i + 1);
        assert(next.drop_last() =~= ops.subrange(0, i));
        assert(next.last() == ops[i]);
        lemma_applies(n, scope::applied(s, ops[i].1), ops, i + 1);
    } else {
        assert(ops.subrange(0, i) =~= ops);
    }
}

/// Positions do not matter to what is open.
proof fn lemma_same_open(n: int, a: Seq<Op>, b: Seq<Op>)
    requires
        a.len() == b.len(),
        forall|i: int| 0 <= i < a.len() ==> (#[trigger] b[i]).1 == a[i].1,
    ensures
        open_after(n, a) == open_after(n, b),
    decreases a.len(),
{
    if a.len() > 0 {
        assert(b[b.len() - 1].1 == a[a.len() - 1].1);
        assert forall|i: int| 0 <= i < a.drop_last().len() implies (#[trigger] b.drop_last()[i]).1
            == a.drop_last()[i].1 by {
            assert(b[i].1 == a[i].1);
        }
        lemma_same_open(n, a.drop_last(), b.drop_last());
    }
}

/// What holds between two lines: the consumer has as many open `Clear`s as there
/// are frames that clear scopes, or more.
pub open spec fn covered(ss: Seq<SyntaxReference>, st: StateV) -> bool {
    st.flushed_ops.len() == 0 && st.shadow.cleared.len() >= clearing(ss, st.stack)
}

proof fn lemma_parsed(n: int, fuel: nat, ss: Seq<SyntaxReference>, st: StateV, line: Seq<char>)
    requires
        fails_nowhere(ss),
        n >= clearing(ss, st.stack),
        parser::parsed(fuel, ss, st, line) is Some,
    ensures
        ({
            let (next, r) = parser::parsed(fuel, ss, st, line)->0;
            r matches Ok(ops) ==> next.flushed_ops == st.flushed_ops && leaves(
                n,
                ops,
                clearing(ss, next.stack),
            )
        }),
{
    reveal(parser::parsed);
    let e = parser::entered(st);
    if let Ok(ops) = engine::opening(ss, e, 0) {
        let cur = CursorV { start: 0, ops, ..engine::fresh_cursor() };
        assert(open_after(n, ops) == Some(n)) by {
            reveal_with_fuel(open_after, 3);
            if ops.len() > 0 {
                assert(ops.drop_last() =~= Seq::empty());
            }
        }
        lemma_tokens(n, fuel, ss, line, engine::opened(e, 0), cur);
    }
}

/// Where no rule fails, the operations of a line apply to the consumer's stack, and
/// the next line finds enough `Clear`s open.
#[verifier::rlimit(30)]
pub proof fn law_restores_are_covered(
    fuel: nat,
    ss: Seq<SyntaxReference>,
    st: StateV,
    line: Seq<char>,
)
    requires
        fails_nowhere(ss),
        window::between_lines(st),
        covered(ss, st),
        parser::output_within(fuel, ss, st, line) is Some,
    ensures
        ({
            let (next, r) = parser::output_within(fuel, ss, st, line)->0;
            r matches Ok(out) ==> {
                &&& out.revised is None
                &&& scope::applies(st.shadow, out.ops, 0)
                &&& next.shadow == scope::applied_all(st.shadow, out.ops)
                &&& covered(ss, next)
            }
        }),
{
    if st.stack.len() > 0 {
        window::lemma_parsed(fuel, ss, st, line);
        let n = st.shadow.cleared.len() as int;
        lemma_parsed(n, fuel, ss, st, line);
        if let Some((st1, Ok(raw))) = parser::parsed(fuel, ss, st, line) {
            let ops = emit::levelled(raw, text::byte_len(line));
            order::law_levelled_in_order(raw, text::byte_len(line));
            lemma_same_open(n, raw, ops);
            assert(ops.subrange(0, 0) =~= Seq::empty());
            lemma_applies(n, st.shadow, ops, 0);
        }
    }
}

/// Once all lines are parsed, where no rule fails: what the consumer has of the
/// lines `i..` applies to its stack.
proof fn lemma_run_applies(
    ss: Seq<SyntaxReference>,
    st: StateV,
    lines: Seq<Seq<char>>,
    i: int,
    log: Seq<Seq<Op>>,
)
    requires
        fails_nowhere(ss),
        window::between_lines(st),
        covered(ss, st),
        0 <= i <= lines.len(),
        log.len() == i,
        st.pending_lines.len() + lines.len() - i < usize::MAX,
    ensures
        committed::parsed_eagerly(ss, st, lines, i, log) matches Some((_, all)) ==> {
            &&& all.len() == lines.len()
            &&& forall|k: int| 0 <= k < i ==> #[trigger] all[k] == log[k]
            &&& lines::lines_apply(st.shadow, all, i)
        },
    decreases lines.len() - i,
{
    committed::lemma_eager_step(ss, st, lines, i, log);
    if i < lines.len() && parser::terminates(ss, st, lines[i]) {
        let fuel = parser::enough(ss, st, lines[i]);
        let (next, r) = parser::output_of(ss, st, lines[i]);
        assert(parser::output_within(fuel, ss, st, lines[i]) == Some((next, r)));
        if let Ok(out) = r {
            law_restores_are_covered(fuel, ss, st, lines[i]);
            window::law_revision_covers_window(fuel, ss, st, lines[i]);
            let more = committed::extended(log, out);
            lemma_run_applies(ss, next, lines, i + 1, more);
            if let Some((_, all)) = committed::parsed_eagerly(ss, next, lines, i + 1, more) {
                assert(all[i] == more[i]);
                assert forall|k: int| 0 <= k < i implies #[trigger] all[k] == log[k] by {
                    assert(all[k] == more[k]);
                }
            }
        }
    }
}

/// Where no rule fails and the first context of the syntax clears no scopes, the
/// operations of all lines apply to an empty stack without an error: one list for
/// every line.
pub proof fn law_lines_apply_without_fail(
    ss: Seq<SyntaxReference>,
    syntax: SyntaxReference,
    lines: Seq<Seq<char>>,
)
    requires
        fails_nowhere(ss),
        clears(ss, syntax.start) == 0,
        lines.len() < usize::MAX,
    ensures
        committed::parsed_eagerly(
            ss,
            parser::initial(parser::start_level(syntax)),
            lines,
            0,
            Seq::empty(),
        ) matches Some((_, all)) ==> {
            &&& all.len() == lines.len()
            &&& lines::lines_apply(
                StackV { scopes: Seq::empty(), cleared: Seq::empty() },
                all,
                0,
            )
        },
{
    let st = parser::initial(parser::start_level(syntax));
    window::law_fresh_state(syntax);
    assert(clearing(ss, st.stack) == 0) by {
        reveal_with_fuel(clearing, 3);
        assert(st.stack.drop_last() =~= Seq::empty());
    }
    lemma_run_applies(ss, st, lines, 0, Seq::empty());
}

} // verus!
