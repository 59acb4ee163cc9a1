//! The scope stack follows the stack of contexts: every frame lays its meta scope and
//! its content scope on those below, having hidden what it clears.

use crate::cache::CacheV;
use crate::captures;
use crate::coloring;
use crate::effects;
use crate::emit;
use crate::engine;
use crate::engine::CursorV;
use crate::order;
use crate::regex;
use crate::scope;
use crate::scope::{ClearAmount, Op, Scope, ScopeStackOp, StackV};
use crate::search::FoundV;
use crate::semantics;
use crate::semantics::LeavingV;
use crate::state;
use crate::state::{LevelV, RegionV, StateV};
use crate::syntax;
use crate::syntax::{
    Context, ContextId, MatchOperation, MatchPattern, ReferenceV, SyntaxReference,
};
use crate::views;
use vstd::prelude::*;

verus! {

/// A scope stack with so many scopes hidden, which a `Restore` brings back.
pub open spec fn hidden(s: StackV, amount: Option<ClearAmount>) -> StackV {
    let len = s.scopes.len() as int;
    match amount {
        None => s,
        Some(ClearAmount::All) => StackV {
            scopes: Seq::empty(),
            cleared: s.cleared.push(s.scopes),
        },
        Some(ClearAmount::TopN(n)) => {
            let left = if n < len {
                len - n
            } else {
                0
            };
            StackV {
                scopes: s.scopes.subrange(0, left),
                cleared: s.cleared.push(s.scopes.subrange(left, len)),
            }
        },
    }
}

/// A scope stack with these scopes on top.
pub open spec fn topped(s: StackV, scopes: Seq<Scope>) -> StackV {
    StackV { scopes: s.scopes + scopes, ..s }
}

/// A scope stack without its topmost `n` scopes.
pub open spec fn cropped(s: StackV, n: int) -> StackV {
    StackV { scopes: s.scopes.subrange(0, s.scopes.len() - n), ..s }
}

/// The content scope of a context, or none where the context below replaces it.
pub open spec fn content_of(context: Context, replaced: bool) -> Seq<Scope> {
    if replaced {
        Seq::empty()
    } else {
        context.meta_content_scope@
    }
}

/// The scope stack `s` under a frame of the context: what it clears is hidden, then
/// come its meta scope and its content scope, unless that is replaced.
pub open spec fn laid_on(s: StackV, context: Context, replaced: bool) -> StackV {
    topped(
        topped(hidden(s, context.clear_scopes), context.meta_scope@),
        content_of(context, replaced),
    )
}

/// Whether a context replaces the content scope of the one above it.
pub open spec fn replaces(ss: Seq<SyntaxReference>, id: ContextId) -> bool {
    syntax::context_of(ss, id) matches Ok(context) && context.embed_scope_replaces
}

/// Whether the frame below the topmost one replaces its content scope.
pub open spec fn top_replaced(ss: Seq<SyntaxReference>, stack: Seq<LevelV>) -> bool {
    stack.len() > 1 && replaces(ss, stack[stack.len() - 2].context)
}

/// The scope stack of a stack of contexts on top of `s`.
pub open spec fn laid(ss: Seq<SyntaxReference>, s: StackV, stack: Seq<LevelV>) -> StackV
    decreases stack.len(),
{
    if stack.len() == 0 {
        s
    } else {
        laid_on(
            laid(ss, s, stack.drop_last()),
            syntax::context_of(ss, stack.last().context)->Ok_0,
            top_replaced(ss, stack),
        )
    }
}

proof fn lemma_snoc(s: StackV, ops: Seq<Op>, op: Op)
    ensures
        scope::applied_all(s, ops.push(op)) == scope::applied(scope::applied_all(s, ops), op.1),
{
    lemma_snoc_from(s, ops, op, 0);
}

proof fn lemma_snoc_from(s: StackV, ops: Seq<Op>, op: Op, i: int)
    requires
        0 <= i <= ops.len(),
    ensures
        scope::applied_from(s, ops.push(op), i) == scope::applied(
            scope::applied_from(s, ops, i),
            op.1,
        ),
    decreases ops.len() - i,
{
    reveal_with_fuel(scope::applied_from, 2);
    if i < ops.len() {
        assert(ops.push(op)[i] == ops[i]);
        lemma_snoc_from(scope::applied(s, ops[i].1), ops, op, i + 1);
    }
}

proof fn lemma_pushed(s: StackV, acc: Seq<Op>, index: usize, scopes: Seq<Scope>)
    ensures
        scope::applied_all(s, emit::pushed(acc, index, scopes)) == topped(
            scope::applied_all(s, acc),
            scopes,
        ),
    decreases scopes.len(),
{
    let r = emit::pushed(acc, index, scopes);
    let t = scope::applied_all(s, acc);
    if scopes.len() == 0 {
        assert(r =~= acc);
        assert(t.scopes + scopes =~= t.scopes);
    } else {
        let front = scopes.drop_last();
        lemma_pushed(s, acc, index, front);
        let before = emit::pushed(acc, index, front);
        assert(r =~= before.push((index, ScopeStackOp::Push(scopes.last()))));
        lemma_snoc(s, before, (index, ScopeStackOp::Push(scopes.last())));
        assert((t.scopes + front).push(scopes.last()) =~= t.scopes + scopes);
    }
}

proof fn lemma_popped(s: StackV, acc: Seq<Op>, index: usize, n: usize)
    requires
        n <= scope::applied_all(s, acc).scopes.len(),
    ensures
        scope::applied_all(s, emit::popped(acc, index, n)) == cropped(
            scope::applied_all(s, acc),
            n as int,
        ),
{
    let t = scope::applied_all(s, acc);
    if n > 0 {
        lemma_snoc(s, acc, (index, ScopeStackOp::Pop(n)));
    } else {
        assert(t.scopes.subrange(0, t.scopes.len() as int) =~= t.scopes);
    }
}

proof fn lemma_cleared(s: StackV, acc: Seq<Op>, index: usize, amount: Option<ClearAmount>)
    ensures
        scope::applied_all(s, emit::cleared(acc, index, amount)) == hidden(
            scope::applied_all(s, acc),
            amount,
        ),
{
    if let Some(a) = amount {
        lemma_snoc(s, acc, (index, ScopeStackOp::Clear(a)));
    }
}

/// A `Restore` undoes what was hidden.
proof fn lemma_restored(
    s: StackV,
    acc: Seq<Op>,
    index: usize,
    below: StackV,
    amount: Option<ClearAmount>,
)
    requires
        scope::applied_all(s, acc) == hidden(below, amount),
    ensures
        scope::applied_all(s, emit::restored(acc, index, amount is Some)) == below,
{
    if let Some(a) = amount {
        lemma_snoc(s, acc, (index, ScopeStackOp::Restore));
        let h = hidden(below, amount);
        assert(h.cleared.drop_last() =~= below.cleared);
        assert(h.scopes + h.cleared.last() =~= below.scopes);
    }
}

proof fn lemma_cropped(s: StackV, scopes: Seq<Scope>)
    ensures
        cropped(topped(s, scopes), scopes.len() as int) == s,
{
    assert((s.scopes + scopes).subrange(0, s.scopes.len() as int) =~= s.scopes);
}

/// The lengths of the lists that a context holds fit.
proof fn lemma_fits(context: Context)
    ensures
        context.meta_scope@.len() <= usize::MAX,
        context.meta_content_scope@.len() <= usize::MAX,
{
    assert(context.meta_scope.len() == context.meta_scope@.len());
    assert(context.meta_content_scope.len() == context.meta_content_scope@.len());
}

/// A frame's scopes are taken off as they were laid.
pub(crate) proof fn lemma_frame(
    s: StackV,
    acc: Seq<Op>,
    index: usize,
    context: Context,
    replaced: bool,
    below: StackV,
)
    requires
        scope::applied_all(s, acc) == laid_on(below, context, replaced),
    ensures
        scope::applied_all(s, semantics::frame_unwound(acc, index, context, replaced)) == below,
{
    lemma_fits(context);
    let n = context.meta_content_scope@.len() as usize;
    let m = context.meta_scope@.len() as usize;
    let h = hidden(below, context.clear_scopes);
    let a = if replaced {
        acc
    } else {
        emit::popped(acc, index, n)
    };
    let hm = topped(h, context.meta_scope@);
    if replaced {
        assert(hm.scopes + Seq::<Scope>::empty() =~= hm.scopes);
    } else {
        lemma_popped(s, acc, index, n);
        lemma_cropped(hm, context.meta_content_scope@);
    }
    let b = emit::popped(a, index, m);
    lemma_popped(s, a, index, m);
    lemma_cropped(h, context.meta_scope@);
    lemma_restored(s, b, index, below, context.clear_scopes);
}

/// Whether none of the frames replaces the content scope of the one above it.
pub open spec fn none_replaces(ss: Seq<SyntaxReference>, stack: Seq<LevelV>) -> bool {
    forall|k: int| 0 <= k < stack.len() ==> !replaces(ss, (#[trigger] stack[k]).context)
}

/// Whether none of the contexts does.
pub open spec fn no_id_replaces(ss: Seq<SyntaxReference>, ids: Seq<ContextId>) -> bool {
    forall|k: int| 0 <= k < ids.len() ==> !replaces(ss, #[trigger] ids[k])
}

proof fn lemma_unwound(
    s: StackV,
    root: StackV,
    acc: Seq<Op>,
    ss: Seq<SyntaxReference>,
    stack: Seq<LevelV>,
    index: usize,
    respect_embed: bool,
    depth: int,
    n: int,
)
    requires
        respect_embed || none_replaces(ss, stack),
        0 <= depth <= stack.len(),
        depth <= n,
        scope::applied_all(s, acc) == laid(ss, root, stack.subrange(0, stack.len() - depth)),
    ensures
        semantics::unwound(acc, ss, stack, index, respect_embed, depth, n) matches Ok(r)
            ==> scope::applied_all(s, r) == laid(
            ss,
            root,
            stack.subrange(0, stack.len() - scope::least(n, stack.len() as int)),
        ),
    decreases n - depth,
{
    if !(depth >= n || depth >= stack.len()) {
        let level = stack.len() - 1 - depth;
        if let Ok(context) = syntax::context_of(ss, stack[level].context) {
            let here = stack.subrange(0, stack.len() - depth);
            assert(here.drop_last() =~= stack.subrange(0, stack.len() - (depth + 1)));
            assert(here.last() == stack[level]);
            let below = laid(ss, root, here.drop_last());
            let over = semantics::replaced_by_below(ss, stack, level);
            if level >= 1 {
                assert(here[here.len() - 2] == stack[level - 1]);
            }
            assert(top_replaced(ss, here) == over);
            lemma_frame(s, acc, index, context, over, below);
            lemma_unwound(
                s,
                root,
                semantics::frame_unwound(acc, index, context, respect_embed && over),
                ss,
                stack,
                index,
                respect_embed,
                depth + 1,
                n,
            );
        }
    }
}

/// The meta scopes of the contexts `ids[i..]`, one after the other.
pub open spec fn all_metas(ss: Seq<SyntaxReference>, ids: Seq<ContextId>, i: int) -> Seq<Scope>
    decreases ids.len() - i,
{
    if i < 0 || i >= ids.len() {
        Seq::empty()
    } else {
        syntax::context_of(ss, ids[i])->Ok_0.meta_scope@ + all_metas(ss, ids, i + 1)
    }
}

/// The scope stack of frames of the contexts `ids[i..]` on top of `s`; what they clear is
/// hidden if `clear`, and the content scope of the first is left out if `replaced`.
spec fn frames_on(
    ss: Seq<SyntaxReference>,
    s: StackV,
    ids: Seq<ContextId>,
    i: int,
    clear: bool,
    replaced: bool,
) -> StackV
    decreases ids.len() - i,
{
    if i < 0 || i >= ids.len() {
        s
    } else {
        let context = syntax::context_of(ss, ids[i])->Ok_0;
        let h = if clear {
            hidden(s, context.clear_scopes)
        } else {
            s
        };
        frames_on(
            ss,
            topped(topped(h, context.meta_scope@), content_of(context, replaced)),
            ids,
            i + 1,
            clear,
            replaces(ss, ids[i]),
        )
    }
}

proof fn lemma_laid_frames(
    ss: Seq<SyntaxReference>,
    root: StackV,
    stack: Seq<LevelV>,
    next: Seq<LevelV>,
    ids: Seq<ContextId>,
    i: int,
)
    requires
        0 <= i <= ids.len(),
        next.len() == stack.len() + ids.len(),
        next.subrange(0, stack.len() as int) == stack,
        forall|k: int| 0 <= k < ids.len() ==> #[trigger] next[stack.len() + k].context == ids[k],
    ensures
        laid(ss, root, next) == frames_on(
            ss,
            laid(ss, root, next.subrange(0, stack.len() + i)),
            ids,
            i,
            true,
            stack.len() + i > 0 && replaces(ss, next[stack.len() + i - 1].context),
        ),
    decreases ids.len() - i,
{
    if i < ids.len() {
        let here = next.subrange(0, stack.len() + i + 1);
        assert(here.drop_last() =~= next.subrange(0, stack.len() + i));
        assert(here.last() == next[stack.len() + i]);
        assert(next[stack.len() + i].context == ids[i]);
        if stack.len() + i > 0 {
            assert(here[here.len() - 2] == next[stack.len() + i - 1]);
        }
        lemma_laid_frames(ss, root, stack, next, ids, i + 1);
    } else {
        assert(next.subrange(0, stack.len() + i) =~= next);
    }
}

/// What the meta operations before the matched text lay for the contexts `ids[i..]`.
spec fn metas_on(
    ss: Seq<SyntaxReference>,
    s: StackV,
    ids: Seq<ContextId>,
    i: int,
    clear: bool,
) -> StackV
    decreases ids.len() - i,
{
    if i < 0 || i >= ids.len() {
        s
    } else {
        let context = syntax::context_of(ss, ids[i])->Ok_0;
        let h = if clear {
            hidden(s, context.clear_scopes)
        } else {
            s
        };
        metas_on(ss, topped(h, context.meta_scope@), ids, i + 1, clear)
    }
}

/// Whether the contexts `ids[i..]` clear no scopes.
pub open spec fn clear_none(ss: Seq<SyntaxReference>, ids: Seq<ContextId>, i: int) -> bool {
    forall|k: int|
        i <= k < ids.len() ==> (syntax::context_of(
            ss,
            #[trigger] ids[k],
        )->Ok_0).clear_scopes is None
}

proof fn lemma_entered_before(
    s: StackV,
    acc: Seq<Op>,
    ss: Seq<SyntaxReference>,
    ids: Seq<ContextId>,
    i: int,
    index: usize,
    preview: bool,
    emit_clear: bool,
    atoms: usize,
)
    requires
        0 <= i <= ids.len(),
        preview ==> clear_none(ss, ids, i),
    ensures
        scope::applied_all(
            s,
            semantics::entered_before(acc, ss, ids, i, index, preview, emit_clear, atoms),
        ) == metas_on(ss, scope::applied_all(s, acc), ids, i, emit_clear),
    decreases ids.len() - i,
{
    if i < ids.len() {
        let context = semantics::known(ss, ids[i]);
        let amount = if preview {
            semantics::preview_amount(context, atoms)
        } else {
            0
        };
        if preview {
            assert((syntax::context_of(ss, ids[i])->Ok_0).clear_scopes is None);
        }
        assert(amount == 0);
        let b = if emit_clear {
            emit::cleared(acc, index, context.clear_scopes)
        } else {
            acc
        };
        lemma_cleared(s, acc, index, context.clear_scopes);
        lemma_pushed(s, b, index, context.meta_scope@);
        lemma_entered_before(
            s,
            emit::pushed(b, index, context.meta_scope@),
            ss,
            ids,
            i + 1,
            index,
            preview,
            emit_clear,
            ((atoms - amount) as usize).saturating_add(context.meta_scope@.len() as usize),
        );
    }
}

proof fn lemma_entered_after(
    s: StackV,
    acc: Seq<Op>,
    ss: Seq<SyntaxReference>,
    ids: Seq<ContextId>,
    i: int,
    index: usize,
    emit_clear: bool,
    respect_embed: bool,
    replaced: bool,
)
    requires
        0 <= i <= ids.len(),
        semantics::all_known(ss, ids),
        respect_embed || (!replaced && no_id_replaces(ss, ids)),
    ensures
        scope::applied_all(
            s,
            semantics::entered_after(
                acc,
                ss,
                ids,
                i,
                index,
                emit_clear,
                respect_embed,
                replaced,
            ),
        ) == frames_on(ss, scope::applied_all(s, acc), ids, i, emit_clear, replaced),
    decreases ids.len() - i,
{
    if i < ids.len() {
        let context = semantics::known(ss, ids[i]);
        assert(syntax::context_of(ss, ids[i]) is Ok);
        let a = if emit_clear {
            emit::cleared(acc, index, context.clear_scopes)
        } else {
            acc
        };
        lemma_cleared(s, acc, index, context.clear_scopes);
        let b = emit::pushed(a, index, context.meta_scope@);
        lemma_pushed(s, a, index, context.meta_scope@);
        let c = if respect_embed && replaced {
            b
        } else {
            emit::pushed(b, index, context.meta_content_scope@)
        };
        lemma_pushed(s, b, index, context.meta_content_scope@);
        let t = scope::applied_all(s, b);
        assert(t.scopes + Seq::<Scope>::empty() =~= t.scopes);
        lemma_entered_after(
            s,
            c,
            ss,
            ids,
            i + 1,
            index,
            emit_clear,
            respect_embed,
            context.embed_scope_replaces,
        );
    }
}

/// Where only the first of the contexts may clear, their meta scopes lie together.
proof fn lemma_metas(ss: Seq<SyntaxReference>, s: StackV, ids: Seq<ContextId>, i: int, clear: bool)
    requires
        0 <= i <= ids.len(),
        clear ==> clear_none(ss, ids, i),
    ensures
        metas_on(ss, s, ids, i, clear) == topped(s, all_metas(ss, ids, i)),
    decreases ids.len() - i,
{
    if i < ids.len() {
        let context = syntax::context_of(ss, ids[i])->Ok_0;
        if clear {
            assert((syntax::context_of(ss, ids[i])->Ok_0).clear_scopes is None);
        }
        lemma_metas(ss, topped(s, context.meta_scope@), ids, i + 1, clear);
        assert((s.scopes + context.meta_scope@) + all_metas(ss, ids, i + 1) =~= s.scopes + (
        context.meta_scope@ + all_metas(ss, ids, i + 1)));
    } else {
        assert(s.scopes + Seq::<Scope>::empty() =~= s.scopes);
    }
}

proof fn lemma_same_frames(
    ss: Seq<SyntaxReference>,
    s: StackV,
    ids: Seq<ContextId>,
    i: int,
    replaced: bool,
)
    requires
        0 <= i <= ids.len(),
        clear_none(ss, ids, i),
    ensures
        frames_on(ss, s, ids, i, true, replaced) == frames_on(ss, s, ids, i, false, replaced),
    decreases ids.len() - i,
{
    if i < ids.len() {
        let context = syntax::context_of(ss, ids[i])->Ok_0;
        assert((syntax::context_of(ss, ids[i])->Ok_0).clear_scopes is None);
        lemma_same_frames(
            ss,
            topped(topped(s, context.meta_scope@), content_of(context, replaced)),
            ids,
            i + 1,
            replaces(ss, ids[i]),
        );
    }
}

/// Without content scopes, meta scopes are all that frames lay.
proof fn lemma_no_content(
    ss: Seq<SyntaxReference>,
    s: StackV,
    ids: Seq<ContextId>,
    i: int,
    clear: bool,
    replaced: bool,
)
    requires
        0 <= i <= ids.len(),
        forall|k: int|
            0 <= k < ids.len() ==> (syntax::context_of(
                ss,
                #[trigger] ids[k],
            )->Ok_0).meta_content_scope@.len() == 0,
    ensures
        frames_on(ss, s, ids, i, clear, replaced) == metas_on(ss, s, ids, i, clear),
    decreases ids.len() - i,
{
    if i < ids.len() {
        let context = syntax::context_of(ss, ids[i])->Ok_0;
        assert((syntax::context_of(ss, ids[i])->Ok_0).meta_content_scope@.len() == 0);
        let h = if clear {
            hidden(s, context.clear_scopes)
        } else {
            s
        };
        let t = topped(h, context.meta_scope@);
        assert(t.scopes + content_of(context, replaced) =~= t.scopes);
        assert(topped(t, content_of(context, replaced)) == t);
        lemma_no_content(ss, t, ids, i + 1, clear, replaces(ss, ids[i]));
    }
}

proof fn lemma_count(ss: Seq<SyntaxReference>, ids: Seq<ContextId>, i: int, acc: usize)
    requires
        0 <= i <= ids.len(),
        acc + all_metas(ss, ids, i).len() <= usize::MAX,
    ensures
        semantics::meta_scope_count(ss, ids, i, acc) == acc + all_metas(ss, ids, i).len(),
    decreases ids.len() - i,
{
    if i < ids.len() {
        let context = semantics::known(ss, ids[i]);
        lemma_fits(context);
        lemma_count(ss, ids, i + 1, (acc + context.meta_scope@.len()) as usize);
    }
}

/// The contexts that references stand for.
pub open spec fn stand_for(ss: Seq<SyntaxReference>, refs: Seq<ReferenceV>, ids: Seq<ContextId>) -> bool {
    &&& ids.len() == refs.len()
    &&& forall|k: int|
        0 <= k < ids.len() ==> #[trigger] refs[k] == ReferenceV::Direct(ids[k])
            && syntax::context_of(ss, ids[k]) is Ok
}

proof fn lemma_resolved(
    ss: Seq<SyntaxReference>,
    refs: Seq<ReferenceV>,
    i: int,
    acc: Seq<ContextId>,
    ids: Seq<ContextId>,
)
    requires
        stand_for(ss, refs, ids),
        0 <= i <= refs.len(),
        acc == ids.subrange(0, i),
    ensures
        semantics::resolved_ids(ss, refs, i, acc) == Ok::<Seq<ContextId>, syntax::ErrorV>(ids),
    decreases refs.len() - i,
{
    if i < refs.len() {
        assert(refs[i] == ReferenceV::Direct(ids[i]));
        assert(acc.push(ids[i]) =~= ids.subrange(0, i + 1));
        lemma_resolved(ss, refs, i + 1, acc.push(ids[i]), ids);
    } else {
        assert(ids.subrange(0, i) =~= ids);
    }
}

proof fn lemma_laid_top(ss: Seq<SyntaxReference>, root: StackV, stack: Seq<LevelV>)
    requires
        stack.len() > 0,
    ensures
        laid(ss, root, stack) == laid_on(
            laid(ss, root, stack.subrange(0, stack.len() - 1)),
            syntax::context_of(ss, stack.last().context)->Ok_0,
            top_replaced(ss, stack),
        ),
{
    assert(stack.drop_last() =~= stack.subrange(0, stack.len() - 1));
}

/// The scopes of a stack of contexts are those of its upper part on those of the lower.
proof fn lemma_laid_split(
    ss: Seq<SyntaxReference>,
    root: StackV,
    lower: Seq<LevelV>,
    upper: Seq<LevelV>,
)
    requires
        upper.len() > 0 && lower.len() > 0 ==> !replaces(ss, lower.last().context),
    ensures
        laid(ss, root, lower + upper) == laid(ss, laid(ss, root, lower), upper),
    decreases upper.len(),
{
    let all = lower + upper;
    if upper.len() == 0 {
        assert(all =~= lower);
    } else {
        assert(all.drop_last() =~= lower + upper.drop_last());
        assert(all.last() == upper.last());
        lemma_laid_split(ss, root, lower, upper.drop_last());
        if upper.len() > 1 {
            assert(all[all.len() - 2] == upper[upper.len() - 2]);
        } else if lower.len() > 0 {
            assert(all[all.len() - 2] == lower.last());
        }
    }
}

proof fn lemma_known(ss: Seq<SyntaxReference>, refs: Seq<ReferenceV>, ids: Seq<ContextId>)
    requires
        stand_for(ss, refs, ids),
    ensures
        semantics::all_known(ss, ids),
        semantics::resolved_ids(ss, refs, 0, Seq::empty()) == Ok::<Seq<ContextId>, syntax::ErrorV>(
            ids,
        ),
{
    assert(ids.subrange(0, 0) =~= Seq::<ContextId>::empty());
    lemma_resolved(ss, refs, 0, Seq::empty(), ids);
    assert forall|k: int| 0 <= k < ids.len() implies syntax::context_of(
        ss,
        #[trigger] ids[k],
    ) is Ok by {
        assert(refs[k] == ReferenceV::Direct(ids[k]));
    }
}

/// What the first of the contexts clears.
pub open spec fn first_clear(ss: Seq<SyntaxReference>, ids: Seq<ContextId>) -> Option<ClearAmount> {
    if ids.len() > 0 {
        (syntax::context_of(ss, ids[0])->Ok_0).clear_scopes
    } else {
        None
    }
}

/// A `push` on top of `base`: the operations before and after the matched text, with
/// what comes in between leaving the scope stack as it was.
#[verifier::rlimit(30)]
proof fn lemma_push(
    s: StackV,
    base: StackV,
    acc: Seq<Op>,
    between: Seq<Op>,
    ss: Seq<SyntaxReference>,
    stack: Seq<LevelV>,
    first: usize,
    last: usize,
    cur: LeavingV,
    pop_count: usize,
    refs: Seq<ReferenceV>,
    ids: Seq<ContextId>,
)
    requires
        semantics::syntax_version(ss, stack) >= 2 || no_id_replaces(ss, ids),
        stand_for(ss, refs, ids),
        clear_none(ss, ids, 1),
        all_metas(ss, ids, 0).len() <= usize::MAX,
        semantics::left_before(acc, ss, stack, first, cur, false, pop_count) matches Ok(a0)
            && scope::applied_all(s, a0) == base,
        semantics::enter_ops(acc, ss, stack, true, first, cur, false, pop_count, refs) matches Ok(a)
            ==> scope::applied_all(s, between) == scope::applied_all(s, a),
    ensures
        ({
            let a = semantics::enter_ops(acc, ss, stack, true, first, cur, false, pop_count, refs);
            let b = semantics::enter_ops(
                between,
                ss,
                stack,
                false,
                last,
                cur,
                false,
                pop_count,
                refs,
            );
            &&& a is Ok && scope::applied_all(s, a->Ok_0) == topped(
                hidden(base, first_clear(ss, ids)),
                all_metas(ss, ids, 0),
            )
            &&& b is Ok && scope::applied_all(s, b->Ok_0) == frames_on(
                ss,
                base,
                ids,
                0,
                true,
                false,
            )
        }),
{
    let a0 = semantics::left_before(acc, ss, stack, first, cur, false, pop_count)->Ok_0;
    lemma_known(ss, refs, ids);
    lemma_entered_before(s, a0, ss, ids, 0, first, false, true, 0);
    let h = hidden(base, first_clear(ss, ids));
    assert(metas_on(ss, base, ids, 0, true) == topped(h, all_metas(ss, ids, 0))) by {
        if ids.len() > 0 {
            let context = syntax::context_of(ss, ids[0])->Ok_0;
            lemma_metas(ss, topped(h, context.meta_scope@), ids, 1, true);
            assert((h.scopes + context.meta_scope@) + all_metas(ss, ids, 1) =~= h.scopes + (
            context.meta_scope@ + all_metas(ss, ids, 1)));
        } else {
            assert(h.scopes + Seq::<Scope>::empty() =~= h.scopes);
        }
    }
    if semantics::needs_repush(ss, ids, false) {
        lemma_count(ss, ids, 0, 0);
        let n = all_metas(ss, ids, 0).len() as usize;
        lemma_popped(s, between, last, n);
        lemma_cropped(h, all_metas(ss, ids, 0));
        let g = emit::popped(between, last, n);
        let v2 = semantics::syntax_version(ss, stack) >= 2;
        lemma_entered_after(s, g, ss, ids, 0, last, false, v2, false);
        assert(frames_on(ss, h, ids, 0, false, false) == frames_on(ss, base, ids, 0, true, false))
            by {
            if ids.len() > 0 {
                let context = syntax::context_of(ss, ids[0])->Ok_0;
                lemma_same_frames(
                    ss,
                    topped(topped(h, context.meta_scope@), context.meta_content_scope@),
                    ids,
                    1,
                    replaces(ss, ids[0]),
                );
            }
        }
    } else {
        assert forall|k: int| 0 <= k < ids.len() implies (syntax::context_of(
            ss,
            #[trigger] ids[k],
        )->Ok_0).meta_content_scope@.len() == 0 by {
            let context = semantics::known(ss, ids[k]);
        }
        lemma_no_content(ss, base, ids, 0, true, false);
    }
}

/// Whether one of the `n` topmost frames clears scopes.
pub open spec fn clears_among(ss: Seq<SyntaxReference>, stack: Seq<LevelV>, n: int) -> bool {
    exists|k: int|
        0 <= k < stack.len() && stack.len() - n <= k && (syntax::context_of(
            ss,
            (#[trigger] stack[k]).context,
        ) matches Ok(context) && context.clear_scopes is Some)
}

proof fn lemma_clears_within(ss: Seq<SyntaxReference>, stack: Seq<LevelV>, depth: int, n: int)
    requires
        0 <= depth,
    ensures
        semantics::clears_within(ss, stack, depth, n) matches Ok(b) ==> b == exists|k: int|
            0 <= k <= stack.len() - 1 - depth && stack.len() - n <= k && (syntax::context_of(
                ss,
                (#[trigger] stack[k]).context,
            ) matches Ok(context) && context.clear_scopes is Some),
    decreases n - depth,
{
    if !(depth >= n || depth >= stack.len()) {
        let at = stack.len() - 1 - depth;
        if let Ok(context) = syntax::context_of(ss, stack[at].context) {
            if context.clear_scopes is None {
                lemma_clears_within(ss, stack, depth + 1, n);
            }
        }
    }
}

/// Whether the content scope of a context starts with the scope of its whole syntax.
pub open spec fn whole_syntax(ss: Seq<SyntaxReference>, stack: Seq<LevelV>, top: Context) -> bool {
    top.meta_content_scope@.len() > 0 && ss[stack.last().context.syntax_index as int].scope
        == top.meta_content_scope@[0]
}

/// A `set` into contexts that clear nothing, or in a syntax of the first version.
#[verifier::rlimit(40)]
proof fn lemma_set(
    s: StackV,
    root: StackV,
    acc: Seq<Op>,
    between: Seq<Op>,
    ss: Seq<SyntaxReference>,
    stack: Seq<LevelV>,
    first: usize,
    last: usize,
    top: Context,
    pop_count: usize,
    refs: Seq<ReferenceV>,
    ids: Seq<ContextId>,
)
    requires
        none_replaces(ss, stack),
        semantics::syntax_version(ss, stack) >= 2 || no_id_replaces(ss, ids),
        stand_for(ss, refs, ids),
        stack.len() > 0,
        pop_count <= 1 || top.clear_scopes is None,
        syntax::context_of(ss, stack.last().context) == Ok::<Context, syntax::ErrorV>(top),
        scope::applied_all(s, acc) == laid(ss, root, stack),
        all_metas(ss, ids, 0).len() + top.meta_scope@.len() + top.meta_content_scope@.len()
            <= usize::MAX,
        semantics::syntax_version(ss, stack) < 2 || (clear_none(ss, ids, 0)
            && semantics::declared_content(ss, stack, semantics::leaving(top))
            == top.meta_content_scope@.len()),
        semantics::enter_ops(
            acc,
            ss,
            stack,
            true,
            first,
            semantics::leaving(top),
            true,
            pop_count,
            refs,
        ) matches Ok(a) ==> scope::applied_all(s, between) == scope::applied_all(s, a),
    ensures
        ({
            let t = scope::applied_all(s, acc);
            let cur = semantics::leaving(top);
            let a = semantics::enter_ops(acc, ss, stack, true, first, cur, true, pop_count, refs);
            let b = semantics::enter_ops(
                between,
                ss,
                stack,
                false,
                last,
                cur,
                true,
                pop_count,
                refs,
            );
            let n = if pop_count > 1 {
                pop_count as int
            } else {
                1
            };
            &&& a is Ok && scope::applied_all(s, a->Ok_0) == topped(
                if semantics::syntax_version(ss, stack) >= 2 {
                    cropped(t, top.meta_content_scope@.len() as int)
                } else {
                    t
                },
                all_metas(ss, ids, 0),
            )
            &&& b matches Ok(ops) ==> scope::applied_all(s, ops) == frames_on(
                ss,
                laid(
                    ss,
                    root,
                    stack.subrange(0, stack.len() - scope::least(n, stack.len() as int)),
                ),
                ids,
                0,
                true,
                false,
            )
        }),
{
    let v2 = semantics::syntax_version(ss, stack) >= 2;
    let cur = semantics::leaving(top);
    let t = scope::applied_all(s, acc);
    let below = laid(ss, root, stack.subrange(0, stack.len() - 1));
    lemma_laid_top(ss, root, stack);
    lemma_fits(top);
    let n = top.meta_content_scope@.len() as usize;
    let m = top.meta_scope@.len() as usize;
    let k = all_metas(ss, ids, 0).len() as usize;
    let h = hidden(below, top.clear_scopes);
    let hm = topped(h, top.meta_scope@);
    lemma_known(ss, refs, ids);
    assert(!semantics::replaced_by_below(ss, stack, stack.len() - 1));
    let a0 = if v2 {
        emit::popped(acc, first, n)
    } else {
        acc
    };
    lemma_popped(s, acc, first, n);
    lemma_cropped(hm, top.meta_content_scope@);
    let base = if v2 {
        hm
    } else {
        t
    };
    assert(scope::applied_all(s, a0) == base);
    if v2 {
        lemma_no_anchor(ss, ids, 0);
    }
    let clear = v2 && semantics::clears_early(ids, cur, true);
    lemma_entered_before(s, a0, ss, ids, 0, first, v2 && ids.len() > 1, clear, 0);
    lemma_metas(ss, base, ids, 0, clear);
    let mid = topped(base, all_metas(ss, ids, 0));
    let leaves = m > 0 || n > 0 || top.clear_scopes is Some;
    let pops = semantics::set_pops(pop_count);
    if pops > 1 || leaves || semantics::needs_repush(ss, ids, true) {
        lemma_count(ss, ids, 0, 0);
        let c0 = if v2 && ids.len() > 1 {
            emit::restored_times(between, last, semantics::preview_count(ss, ids, 0, 0))
        } else {
            between
        };
        if v2 {
            lemma_no_preview(ss, ids, 0, 0);
        }
        assert(c0 =~= between);
        let head: usize = if v2 {
            (k + m) as usize
        } else {
            (k + n + m) as usize
        };
        lemma_popped(s, c0, last, head);
        assert(cropped(mid, head as int) == h) by {
            assert(cropped(mid, head as int).scopes =~= h.scopes);
        }
        let d0 = emit::popped(c0, last, head);
        lemma_restored(s, d0, last, below, top.clear_scopes);
        let e0 = emit::restored(d0, last, top.clear_scopes is Some);
        let f = if pops > 1 {
            semantics::unwound(e0, ss, stack, last, false, 1, pops as int)
        } else {
            Ok(e0)
        };
        lemma_unwound(s, root, e0, ss, stack, last, false, 1, pops as int);
        if let Ok(g) = f {
            lemma_entered_after(s, g, ss, ids, 0, last, !clear, v2, false);
            if v2 {
                lemma_same_frames(ss, scope::applied_all(s, g), ids, 0, false);
            }
        }
    } else {
        assert forall|k: int| 0 <= k < ids.len() implies (syntax::context_of(
            ss,
            #[trigger] ids[k],
        )->Ok_0).meta_content_scope@.len() == 0 by {
            let context = semantics::known(ss, ids[k]);
        }
        assert(clear_none(ss, ids, 0)) by {
            assert forall|k: int| 0 <= k < ids.len() implies (syntax::context_of(
                ss,
                #[trigger] ids[k],
            )->Ok_0).clear_scopes is None by {
                let context = semantics::known(ss, ids[k]);
            }
        }
        lemma_no_content(ss, below, ids, 0, true, false);
        lemma_metas(ss, below, ids, 0, true);
        assert(t == below) by {
            assert(t.scopes =~= below.scopes);
        }
        assert(base == below) by {
            assert(base.scopes =~= below.scopes);
        }
    }
}

/// A `set` out of the context of the whole syntax, in the second version: the scope of
/// the syntax stays.
#[verifier::rlimit(40)]
proof fn lemma_set_whole(
    s: StackV,
    root: StackV,
    acc: Seq<Op>,
    between: Seq<Op>,
    ss: Seq<SyntaxReference>,
    stack: Seq<LevelV>,
    first: usize,
    last: usize,
    top: Context,
    pop_count: usize,
    refs: Seq<ReferenceV>,
    ids: Seq<ContextId>,
)
    requires
        none_replaces(ss, stack),
        semantics::syntax_version(ss, stack) >= 2,
        stand_for(ss, refs, ids),
        stack.len() > 0,
        pop_count <= 1,
        syntax::context_of(ss, stack.last().context) == Ok::<Context, syntax::ErrorV>(top),
        scope::applied_all(s, acc) == laid(ss, root, stack),
        all_metas(ss, ids, 0).len() + top.meta_content_scope@.len() <= usize::MAX,
        whole_syntax(ss, stack, top),
        top.meta_scope@.len() == 0,
        top.clear_scopes is None,
        clear_none(ss, ids, 0),
        semantics::enter_ops(
            acc,
            ss,
            stack,
            true,
            first,
            semantics::leaving(top),
            true,
            pop_count,
            refs,
        ) matches Ok(a) ==> scope::applied_all(s, between) == scope::applied_all(s, a),
    ensures
        ({
            let cur = semantics::leaving(top);
            let a = semantics::enter_ops(acc, ss, stack, true, first, cur, true, pop_count, refs);
            let b = semantics::enter_ops(
                between,
                ss,
                stack,
                false,
                last,
                cur,
                true,
                pop_count,
                refs,
            );
            let base = topped(
                laid(ss, root, stack.subrange(0, stack.len() - 1)),
                seq![top.meta_content_scope@[0]],
            );
            &&& a is Ok && scope::applied_all(s, a->Ok_0) == topped(base, all_metas(ss, ids, 0))
            &&& b matches Ok(ops) ==> scope::applied_all(s, ops) == frames_on(
                ss,
                base,
                ids,
                0,
                true,
                false,
            )
        }),
{
    let cur = semantics::leaving(top);
    let t = scope::applied_all(s, acc);
    let below = laid(ss, root, stack.subrange(0, stack.len() - 1));
    let base = topped(below, seq![top.meta_content_scope@[0]]);
    lemma_laid_top(ss, root, stack);
    lemma_fits(top);
    let n = (top.meta_content_scope@.len() - 1) as usize;
    let k = all_metas(ss, ids, 0).len() as usize;
    lemma_known(ss, refs, ids);
    assert(!semantics::replaced_by_below(ss, stack, stack.len() - 1));
    let a0 = emit::popped(acc, first, n);
    lemma_popped(s, acc, first, n);
    assert(cropped(t, n as int) == base) by {
        assert(cropped(t, n as int).scopes =~= base.scopes);
    }
    lemma_no_anchor(ss, ids, 0);
    lemma_entered_before(s, a0, ss, ids, 0, first, ids.len() > 1, false, 0);
    lemma_metas(ss, base, ids, 0, false);
    lemma_count(ss, ids, 0, 0);
    let c0 = if ids.len() > 1 {
        emit::restored_times(between, last, semantics::preview_count(ss, ids, 0, 0))
    } else {
        between
    };
    lemma_no_preview(ss, ids, 0, 0);
    assert(c0 =~= between);
    lemma_popped(s, c0, last, k);
    lemma_cropped(base, all_metas(ss, ids, 0));
    let d0 = emit::popped(c0, last, k);
    lemma_entered_after(s, d0, ss, ids, 0, last, true, true, false);
}

/// A `set` of one context that clears scopes, in the second version.
#[verifier::rlimit(40)]
proof fn lemma_set_one(
    s: StackV,
    root: StackV,
    acc: Seq<Op>,
    between: Seq<Op>,
    ss: Seq<SyntaxReference>,
    stack: Seq<LevelV>,
    first: usize,
    last: usize,
    top: Context,
    pop_count: usize,
    refs: Seq<ReferenceV>,
    ids: Seq<ContextId>,
)
    requires
        none_replaces(ss, stack),
        semantics::syntax_version(ss, stack) >= 2,
        stand_for(ss, refs, ids),
        stack.len() > 0,
        ids.len() == 1,
        first_clear(ss, ids) is Some,
        pop_count <= 1 || top.clear_scopes is None,
        top.meta_scope@.len() == 0 && top.meta_content_scope@.len() == 0 ==> top.clear_scopes is None
            && pop_count <= 1,
        syntax::context_of(ss, stack.last().context) == Ok::<Context, syntax::ErrorV>(top),
        scope::applied_all(s, acc) == laid(ss, root, stack),
        all_metas(ss, ids, 0).len() + top.meta_scope@.len() + top.meta_content_scope@.len()
            <= usize::MAX,
        !whole_syntax(ss, stack, top),
        semantics::enter_ops(
            acc,
            ss,
            stack,
            true,
            first,
            semantics::leaving(top),
            true,
            pop_count,
            refs,
        ) matches Ok(a) ==> scope::applied_all(s, between) == scope::applied_all(s, a),
    ensures
        ({
            let t = scope::applied_all(s, acc);
            let cur = semantics::leaving(top);
            let a = semantics::enter_ops(acc, ss, stack, true, first, cur, true, pop_count, refs);
            let b = semantics::enter_ops(
                between,
                ss,
                stack,
                false,
                last,
                cur,
                true,
                pop_count,
                refs,
            );
            let n = if pop_count > 1 {
                pop_count as int
            } else {
                1
            };
            let base = cropped(t, top.meta_content_scope@.len() as int);
            &&& a is Ok && scope::applied_all(s, a->Ok_0) == topped(
                if top.meta_scope@.len() == 0 && top.meta_content_scope@.len() == 0 {
                    hidden(base, first_clear(ss, ids))
                } else {
                    base
                },
                all_metas(ss, ids, 0),
            )
            &&& b matches Ok(ops) ==> scope::applied_all(s, ops) == frames_on(
                ss,
                laid(
                    ss,
                    root,
                    stack.subrange(0, stack.len() - scope::least(n, stack.len() as int)),
                ),
                ids,
                0,
                true,
                false,
            )
        }),
{
    let cur = semantics::leaving(top);
    let t = scope::applied_all(s, acc);
    let below = laid(ss, root, stack.subrange(0, stack.len() - 1));
    lemma_laid_top(ss, root, stack);
    lemma_fits(top);
    let n = top.meta_content_scope@.len() as usize;
    let m = top.meta_scope@.len() as usize;
    let k = all_metas(ss, ids, 0).len() as usize;
    let h = hidden(below, top.clear_scopes);
    let hm = topped(h, top.meta_scope@);
    lemma_known(ss, refs, ids);
    assert(!semantics::replaced_by_below(ss, stack, stack.len() - 1));
    let a0 = emit::popped(acc, first, n);
    lemma_popped(s, acc, first, n);
    lemma_cropped(hm, top.meta_content_scope@);
    assert(scope::applied_all(s, a0) == hm);
    let early = semantics::clears_early(ids, cur, true);
    let context = syntax::context_of(ss, ids[0])->Ok_0;
    lemma_entered_before(s, a0, ss, ids, 0, first, false, early, 0);
    let base = if early {
        hidden(hm, context.clear_scopes)
    } else {
        hm
    };
    assert(all_metas(ss, ids, 0) =~= context.meta_scope@) by {
        reveal_with_fuel(all_metas, 2);
    }
    assert(metas_on(ss, hm, ids, 0, early) == topped(base, context.meta_scope@)) by {
        reveal_with_fuel(metas_on, 2);
    }
    let pops = semantics::set_pops(pop_count);
    assert(semantics::needs_repush(ss, ids, true)) by {
        assert(semantics::known(ss, ids[0]).clear_scopes is Some);
    }
    lemma_count(ss, ids, 0, 0);
    let head: usize = (k + m) as usize;
    lemma_popped(s, between, last, head);
    let d0 = emit::popped(between, last, head);
    if early {
        assert(hm == below) by {
            assert(hm.scopes =~= below.scopes);
        }
        lemma_cropped(base, context.meta_scope@);
        lemma_entered_after(s, d0, ss, ids, 0, last, false, true, false);
        assert(frames_on(ss, base, ids, 0, false, false) == frames_on(
            ss,
            below,
            ids,
            0,
            true,
            false,
        )) by {
            reveal_with_fuel(frames_on, 2);
        }
    } else {
        assert(cropped(topped(hm, context.meta_scope@), head as int) == h) by {
            assert(cropped(topped(hm, context.meta_scope@), head as int).scopes =~= h.scopes);
        }
        lemma_restored(s, d0, last, below, top.clear_scopes);
        let e0 = emit::restored(d0, last, top.clear_scopes is Some);
        let f = if pops > 1 {
            semantics::unwound(e0, ss, stack, last, false, 1, pops as int)
        } else {
            Ok(e0)
        };
        lemma_unwound(s, root, e0, ss, stack, last, false, 1, pops as int);
        if let Ok(g) = f {
            lemma_entered_after(s, g, ss, ids, 0, last, true, true, false);
        }
    }
}

/// How many scopes are hidden in the uppermost batches.
spec fn total_hidden(cleared: Seq<Seq<Scope>>, from: int) -> nat
    decreases cleared.len() - from,
{
    if from < 0 || from >= cleared.len() {
        0
    } else {
        cleared[from].len() + total_hidden(cleared, from + 1)
    }
}

proof fn lemma_total_push(cleared: Seq<Seq<Scope>>, x: Seq<Scope>, from: int)
    requires
        0 <= from <= cleared.len(),
    ensures
        total_hidden(cleared.push(x), from) == total_hidden(cleared, from) + x.len(),
    decreases cleared.len() - from,
{
    reveal_with_fuel(total_hidden, 2);
    if from < cleared.len() {
        assert(cleared.push(x)[from] == cleared[from]);
        lemma_total_push(cleared, x, from + 1);
    }
}

/// Whether `t` is `base` with `visible` more scopes on it, and `count` more batches
/// hidden, of `all` scopes together.
spec fn grown_from(base: StackV, t: StackV, visible: int, count: int, all: int) -> bool {
    &&& t.scopes.len() == base.scopes.len() + visible
    &&& t.scopes.subrange(0, base.scopes.len() as int) == base.scopes
    &&& t.cleared.len() == base.cleared.len() + count
    &&& t.cleared.subrange(0, base.cleared.len() as int) == base.cleared
    &&& visible >= 0 && count >= 0
    &&& visible + total_hidden(t.cleared, base.cleared.len() as int) == all
}

proof fn lemma_previewed(
    s: StackV,
    base: StackV,
    acc: Seq<Op>,
    ss: Seq<SyntaxReference>,
    ids: Seq<ContextId>,
    i: int,
    index: usize,
    atoms: usize,
    count: int,
    all: int,
) -> (visible: int)
    requires
        0 <= i <= ids.len(),
        grown_from(base, scope::applied_all(s, acc), atoms as int, count, all),
        all + all_metas(ss, ids, i).len() <= usize::MAX,
    ensures
        grown_from(
            base,
            scope::applied_all(
                s,
                semantics::entered_before(acc, ss, ids, i, index, true, false, atoms),
            ),
            visible,
            count + semantics::preview_count(ss, ids, i, atoms),
            all + all_metas(ss, ids, i).len(),
        ),
    decreases ids.len() - i,
{
    let t = scope::applied_all(s, acc);
    if i < ids.len() {
        let context = semantics::known(ss, ids[i]);
        lemma_fits(context);
        let amount = semantics::preview_amount(context, atoms);
        let op = (index, ScopeStackOp::Clear(ClearAmount::TopN(amount)));
        let a = if amount > 0 {
            acc.push(op)
        } else {
            acc
        };
        let u = scope::applied_all(s, a);
        let count1: int = if amount > 0 {
            count + 1
        } else {
            count
        };
        let left = (atoms - amount) as usize;
        assert(grown_from(base, u, left as int, count1, all)) by {
            if amount > 0 {
                lemma_snoc(s, acc, op);
                let len = t.scopes.len() as int;
                assert(u.scopes =~= t.scopes.subrange(0, len - amount));
                assert(u.cleared =~= t.cleared.push(t.scopes.subrange(len - amount, len)));
                lemma_total_push(
                    t.cleared,
                    t.scopes.subrange(len - amount, len),
                    base.cleared.len() as int,
                );
                assert(u.scopes.subrange(0, base.scopes.len() as int) =~= t.scopes.subrange(
                    0,
                    base.scopes.len() as int,
                ));
                assert(u.cleared.subrange(0, base.cleared.len() as int) =~= t.cleared.subrange(
                    0,
                    base.cleared.len() as int,
                ));
            }
        }
        lemma_pushed(s, a, index, context.meta_scope@);
        let b = emit::pushed(a, index, context.meta_scope@);
        let w = scope::applied_all(s, b);
        assert(w.scopes.subrange(0, base.scopes.len() as int) =~= u.scopes.subrange(
            0,
            base.scopes.len() as int,
        ));
        let atoms1 = left.saturating_add(context.meta_scope@.len() as usize);
        let all1 = all + context.meta_scope@.len();
        assert(grown_from(base, w, atoms1 as int, count1, all1));
        lemma_previewed(s, base, b, ss, ids, i + 1, index, atoms1, count1, all1)
    } else {
        atoms as int
    }
}

proof fn lemma_total_last(cleared: Seq<Seq<Scope>>, from: int)
    requires
        0 <= from < cleared.len(),
    ensures
        total_hidden(cleared, from) == total_hidden(cleared.drop_last(), from)
            + cleared.last().len(),
{
    lemma_total_push(cleared.drop_last(), cleared.last(), from);
    assert(cleared.drop_last().push(cleared.last()) =~= cleared);
}

/// What was hidden comes back, so that as many scopes are on `base` as were pushed.
proof fn lemma_all_restored(
    s: StackV,
    base: StackV,
    acc: Seq<Op>,
    index: usize,
    visible: int,
    count: nat,
    all: int,
)
    requires
        grown_from(base, scope::applied_all(s, acc), visible, count as int, all),
    ensures
        grown_from(
            base,
            scope::applied_all(s, emit::restored_times(acc, index, count)),
            all,
            0,
            all,
        ),
    decreases count,
{
    let t = scope::applied_all(s, acc);
    let op = (index, ScopeStackOp::Restore);
    if count == 0 {
        assert(emit::restored_times(acc, index, 0) =~= acc);
        assert(total_hidden(t.cleared, base.cleared.len() as int) == 0);
    } else {
        let next = acc.push(op);
        lemma_snoc(s, acc, op);
        let u = scope::applied_all(s, next);
        lemma_total_last(t.cleared, base.cleared.len() as int);
        assert(u.scopes =~= t.scopes + t.cleared.last());
        assert(u.cleared =~= t.cleared.drop_last());
        assert(u.scopes.subrange(0, base.scopes.len() as int) =~= t.scopes.subrange(
            0,
            base.scopes.len() as int,
        ));
        assert(u.cleared.subrange(0, base.cleared.len() as int) =~= t.cleared.subrange(
            0,
            base.cleared.len() as int,
        ));
        let more = visible + t.cleared.last().len();
        assert(grown_from(base, u, more, count - 1, all));
        lemma_all_restored(s, base, next, index, more, (count - 1) as nat, all);
        assert(emit::restored_times(next, index, (count - 1) as nat) =~= emit::restored_times(
            acc,
            index,
            count,
        ));
    }
}

/// A `set` of several contexts, in the second version: whatever they clear, and whatever
/// of that is done ahead of the matched text.
#[verifier::rlimit(60)]
proof fn lemma_set_many(
    s: StackV,
    root: StackV,
    acc: Seq<Op>,
    between: Seq<Op>,
    ss: Seq<SyntaxReference>,
    stack: Seq<LevelV>,
    first: usize,
    last: usize,
    top: Context,
    pop_count: usize,
    refs: Seq<ReferenceV>,
    ids: Seq<ContextId>,
)
    requires
        none_replaces(ss, stack),
        semantics::syntax_version(ss, stack) >= 2,
        stand_for(ss, refs, ids),
        stack.len() > 0,
        ids.len() > 1,
        !clear_none(ss, ids, 0),
        pop_count <= 1 || top.clear_scopes is None,
        syntax::context_of(ss, stack.last().context) == Ok::<Context, syntax::ErrorV>(top),
        scope::applied_all(s, acc) == laid(ss, root, stack),
        all_metas(ss, ids, 0).len() + top.meta_scope@.len() + top.meta_content_scope@.len()
            <= usize::MAX,
        !whole_syntax(ss, stack, top),
        semantics::enter_ops(
            acc,
            ss,
            stack,
            true,
            first,
            semantics::leaving(top),
            true,
            pop_count,
            refs,
        ) matches Ok(a) ==> scope::applied_all(s, between) == scope::applied_all(s, a),
    ensures
        ({
            let cur = semantics::leaving(top);
            let a = semantics::enter_ops(acc, ss, stack, true, first, cur, true, pop_count, refs);
            let b = semantics::enter_ops(
                between,
                ss,
                stack,
                false,
                last,
                cur,
                true,
                pop_count,
                refs,
            );
            let n = if pop_count > 1 {
                pop_count as int
            } else {
                1
            };
            &&& a is Ok
            &&& b matches Ok(ops) ==> scope::applied_all(s, ops) == frames_on(
                ss,
                laid(
                    ss,
                    root,
                    stack.subrange(0, stack.len() - scope::least(n, stack.len() as int)),
                ),
                ids,
                0,
                true,
                false,
            )
        }),
{
    let cur = semantics::leaving(top);
    let t = scope::applied_all(s, acc);
    let below = laid(ss, root, stack.subrange(0, stack.len() - 1));
    lemma_laid_top(ss, root, stack);
    lemma_fits(top);
    let n = top.meta_content_scope@.len() as usize;
    let m = top.meta_scope@.len() as usize;
    let k = all_metas(ss, ids, 0).len() as usize;
    let h = hidden(below, top.clear_scopes);
    let hm = topped(h, top.meta_scope@);
    lemma_known(ss, refs, ids);
    assert(!semantics::replaced_by_below(ss, stack, stack.len() - 1));
    let a0 = emit::popped(acc, first, n);
    lemma_popped(s, acc, first, n);
    lemma_cropped(hm, top.meta_content_scope@);
    assert(scope::applied_all(s, a0) == hm);
    let drops = semantics::drops_extra(ss, ids, cur, true, pop_count);
    let extra = Some(
        ClearAmount::TopN(semantics::anchored_clear(ss, ids, 0)->0.saturating_add(1)),
    );
    let b0 = if drops {
        emit::cleared(a0, first, extra)
    } else {
        a0
    };
    lemma_cleared(s, a0, first, extra);
    let base = if drops {
        hidden(hm, extra)
    } else {
        hm
    };
    assert(scope::applied_all(s, b0) == base);
    assert(base.scopes.subrange(0, base.scopes.len() as int) =~= base.scopes);
    assert(base.cleared.subrange(0, base.cleared.len() as int) =~= base.cleared);
    assert(grown_from(base, base, 0, 0, 0));
    let visible = lemma_previewed(s, base, b0, ss, ids, 0, first, 0, 0, 0);
    let a = semantics::entered_before(b0, ss, ids, 0, first, true, false, 0);
    let count = semantics::preview_count(ss, ids, 0, 0);
    assert(semantics::enter_ops(acc, ss, stack, true, first, cur, true, pop_count, refs) == Ok::<
        Seq<Op>,
        syntax::ErrorV,
    >(a));
    assert(semantics::needs_repush(ss, ids, true)) by {
        let j = choose|j: int|
            0 <= j < ids.len() && !((syntax::context_of(
                ss,
                #[trigger] ids[j],
            )->Ok_0).clear_scopes is None);
        assert(semantics::known(ss, ids[j]).clear_scopes is Some);
    }
    lemma_count(ss, ids, 0, 0);
    lemma_all_restored(s, base, between, last, visible, count, k as int);
    let c0 = emit::restored_times(between, last, count);
    let u = scope::applied_all(s, c0);
    let head: usize = (k + m) as usize;
    assert(base.scopes.len() >= m);
    lemma_popped(s, c0, last, head);
    let d0 = emit::popped(c0, last, head);
    let bottom = if drops {
        base
    } else {
        h
    };
    assert(cropped(u, head as int) == bottom) by {
        assert(u.cleared =~= base.cleared) by {
            assert(u.cleared.subrange(0, base.cleared.len() as int) =~= u.cleared);
        }
        assert forall|j: int| 0 <= j < bottom.scopes.len() implies #[trigger] cropped(
            u,
            head as int,
        ).scopes[j] == bottom.scopes[j] by {
            assert(u.scopes.subrange(0, base.scopes.len() as int)[j] == base.scopes[j]);
        }
        assert(cropped(u, head as int).scopes =~= bottom.scopes);
    }
    let pops = semantics::set_pops(pop_count);
    if drops {
        assert(hm == below) by {
            assert(hm.scopes =~= below.scopes);
        }
        lemma_restored(s, d0, last, below, extra);
        let g = emit::restored(d0, last, true);
        lemma_entered_after(s, g, ss, ids, 0, last, true, true, false);
    } else {
        lemma_restored(s, d0, last, below, top.clear_scopes);
        let e0 = emit::restored(d0, last, top.clear_scopes is Some);
        let f = if pops > 1 {
            semantics::unwound(e0, ss, stack, last, false, 1, pops as int)
        } else {
            Ok(e0)
        };
        lemma_unwound(s, root, e0, ss, stack, last, false, 1, pops as int);
        if let Ok(g) = f {
            lemma_entered_after(s, g, ss, ids, 0, last, true, true, false);
        }
    }
}

proof fn lemma_no_anchor(ss: Seq<SyntaxReference>, ids: Seq<ContextId>, i: int)
    requires
        0 <= i <= ids.len(),
        clear_none(ss, ids, 0),
    ensures
        semantics::anchored_clear(ss, ids, i) is None,
    decreases ids.len() - i,
{
    if i < ids.len() {
        assert((syntax::context_of(ss, ids[i])->Ok_0).clear_scopes is None);
        lemma_no_anchor(ss, ids, i + 1);
    }
}

proof fn lemma_no_preview(ss: Seq<SyntaxReference>, ids: Seq<ContextId>, i: int, atoms: usize)
    requires
        0 <= i <= ids.len(),
        clear_none(ss, ids, 0),
    ensures
        semantics::preview_count(ss, ids, i, atoms) == 0,
    decreases ids.len() - i,
{
    if i < ids.len() {
        let context = semantics::known(ss, ids[i]);
        assert((syntax::context_of(ss, ids[i])->Ok_0).clear_scopes is None);
        lemma_no_preview(
            ss,
            ids,
            i + 1,
            ((atoms - 0) as usize).saturating_add(context.meta_scope@.len() as usize),
        );
    }
}

/// The scopes of the matched text: those of the rule and of its groups come and go.
proof fn lemma_text(
    s: StackV,
    a: Seq<Op>,
    pat: MatchPattern,
    region: RegionV,
    more: Seq<Op>,
)
    requires
        region.len() > 0 && region[0] is Some,
        more == captures::group_ops(state::mapping_view(pat.captures), region, true),
    ensures
        ({
            let (first, last) = regex::whole(region);
            let p = emit::pushed(a, first, pat.scope@);
            let c = emit::popped(p + more, last, pat.scope@.len() as usize);
            &&& scope::applied_all(s, p) == topped(scope::applied_all(s, a), pat.scope@)
            &&& scope::applied_all(s, c) == scope::applied_all(s, a)
        }),
{
    let (first, last) = regex::whole(region);
    let p = emit::pushed(a, first, pat.scope@);
    lemma_pushed(s, a, first, pat.scope@);
    assert(pat.scope.len() == pat.scope@.len());
    lemma_mapping_fits(pat);
    coloring::lemma_groups_come_and_go(s, p, state::mapping_view(pat.captures), region);
    lemma_popped(s, p + more, last, pat.scope@.len() as usize);
    lemma_cropped(scope::applied_all(s, a), pat.scope@);
}

proof fn lemma_mapping_fits(pat: MatchPattern)
    ensures
        state::mapping_view(pat.captures) matches Some(m) ==> forall|i: int|
            0 <= i < m.len() ==> (#[trigger] m[i]).1.len() <= usize::MAX,
{
    if let Some(m) = state::mapping_view(pat.captures) {
        assert forall|i: int| 0 <= i < m.len() implies (#[trigger] m[i]).1.len() <= usize::MAX by {
            let v = (pat.captures->0)@[i].1;
            assert(v.len() == v@.len());
            assert(m[i].1 == v@);
        }
    }
}

/// What a match of the rule `pat` adds to the operations: `before` where it starts, the
/// rule's own scopes, those of its groups, the end of the rule's scopes, and `after`
/// where it ends.
pub open spec fn wrapped(
    ops: Seq<Op>,
    before: Seq<Op>,
    pat: MatchPattern,
    region: RegionV,
    after: Seq<Op>,
    next: Seq<Op>,
) -> bool {
    let (first, last) = regex::whole(region);
    let n = pat.scope@.len();
    let begins = Seq::new(n, |k: int| (first, ScopeStackOp::Push(pat.scope@[k])));
    let groups = captures::group_ops(state::mapping_view(pat.captures), region, true);
    let ends = if n > 0 {
        seq![(last, ScopeStackOp::Pop(n as usize))]
    } else {
        Seq::empty()
    };
    &&& next == ops + before + begins + groups + ends + after
    &&& forall|k: int| 0 <= k < before.len() ==> (#[trigger] before[k]).0 == first
    &&& forall|k: int| 0 <= k < after.len() ==> (#[trigger] after[k]).0 == last
}

proof fn lemma_wrapped(
    ops: Seq<Op>,
    a: Seq<Op>,
    pat: MatchPattern,
    region: RegionV,
    next: Seq<Op>,
)
    requires
        ({
            let (first, last) = regex::whole(region);
            let more = captures::group_ops(state::mapping_view(pat.captures), region, true);
            let b = emit::pushed(a, first, pat.scope@) + more;
            let c = emit::popped(b, last, pat.scope@.len() as usize);
            order::grown(ops, a, first, first) && order::grown(c, next, last, last)
        }),
    ensures
        ({
            let (first, last) = regex::whole(region);
            let more = captures::group_ops(state::mapping_view(pat.captures), region, true);
            let b = emit::pushed(a, first, pat.scope@) + more;
            let c = emit::popped(b, last, pat.scope@.len() as usize);
            wrapped(
                ops,
                a.subrange(ops.len() as int, a.len() as int),
                pat,
                region,
                next.subrange(c.len() as int, next.len() as int),
                next,
            )
        }),
{
    let (first, last) = regex::whole(region);
    let more = captures::group_ops(state::mapping_view(pat.captures), region, true);
    let b = emit::pushed(a, first, pat.scope@) + more;
    let c = emit::popped(b, last, pat.scope@.len() as usize);
    assert(pat.scope.len() == pat.scope@.len());
    let before = a.subrange(ops.len() as int, a.len() as int);
    let after = next.subrange(c.len() as int, next.len() as int);
    assert(ops + before =~= a);
    assert(c + after =~= next);
    let begins = Seq::new(
        pat.scope@.len(),
        |k: int| (first, ScopeStackOp::Push(pat.scope@[k])),
    );
    assert(emit::pushed(a, first, pat.scope@) =~= a + begins);
    let ends = if pat.scope@.len() > 0 {
        seq![(last, ScopeStackOp::Pop(pat.scope@.len() as usize))]
    } else {
        Seq::<Op>::empty()
    };
    assert(c =~= a + begins + more + ends);
    assert forall|k: int| 0 <= k < before.len() implies (#[trigger] before[k]).0 == first by {
        assert(before[k] == a[ops.len() + k]);
    }
    assert forall|k: int| 0 <= k < after.len() implies (#[trigger] after[k]).0 == last by {
        assert(after[k] == next[c.len() + k]);
    }
}

/// The operations of a match when its text starts: the meta scopes that come before it.
spec fn entered(
    ops: Seq<Op>,
    ss: Seq<SyntaxReference>,
    stack: Seq<LevelV>,
    top: Context,
    pat: MatchPattern,
    region: RegionV,
) -> Result<Seq<Op>, syntax::ErrorV> {
    let (first, last) = regex::whole(region);
    match pat.operation {
        MatchOperation::Branch { name, alternatives, pop_count } => semantics::enter_ops(
            ops,
            ss,
            stack,
            true,
            first,
            semantics::leaving(top),
            false,
            pop_count,
            effects::puts(pat.operation),
        ),
        _ => semantics::meta_ops(ops, ss, stack, true, first, top, pat.operation),
    }
}

/// The operations of a match when all is done, if `ops` are those when its text ends.
spec fn finished(
    ops: Seq<Op>,
    ss: Seq<SyntaxReference>,
    stack: Seq<LevelV>,
    top: Context,
    pat: MatchPattern,
    region: RegionV,
) -> Result<Seq<Op>, syntax::ErrorV> {
    let (first, last) = regex::whole(region);
    match pat.operation {
        MatchOperation::Branch { name, alternatives, pop_count } => semantics::enter_ops(
            ops,
            ss,
            stack,
            false,
            last,
            semantics::leaving(top),
            false,
            pop_count,
            effects::puts(pat.operation),
        ),
        _ => semantics::meta_ops(ops, ss, stack, false, last, top, pat.operation),
    }
}

/// The operations from the start to the end of a match's text.
spec fn texted(a: Seq<Op>, pat: MatchPattern, region: RegionV) -> Seq<Op> {
    let (first, last) = regex::whole(region);
    let more = captures::group_ops(state::mapping_view(pat.captures), region, true);
    emit::popped(emit::pushed(a, first, pat.scope@) + more, last, pat.scope@.len() as usize)
}

proof fn lemma_sites(
    ops: Seq<Op>,
    ss: Seq<SyntaxReference>,
    stack: Seq<LevelV>,
    top: Context,
    pat: MatchPattern,
    region: RegionV,
)
    ensures
        order::stays_at(
            ops,
            entered(ops, ss, stack, top, pat, region),
            regex::whole(region).0,
        ),
        order::stays_at(
            ops,
            finished(ops, ss, stack, top, pat, region),
            regex::whole(region).1,
        ),
{
    let (first, last) = regex::whole(region);
    let cur = semantics::leaving(top);
    match pat.operation {
        MatchOperation::Branch { name, alternatives, pop_count } => {
            let refs = effects::puts(pat.operation);
            order::lemma_enter(ops, ss, stack, true, first, cur, false, pop_count, refs);
            order::lemma_enter(ops, ss, stack, false, last, cur, false, pop_count, refs);
        },
        _ => {
            order::law_meta_ops_stay_put(ops, ss, stack, true, first, top, pat.operation);
            order::law_meta_ops_stay_put(ops, ss, stack, false, last, top, pat.operation);
        },
    }
}

/// How a step that finds a match of a rule comes by its operations.
proof fn lemma_step_ops(
    fuel: nat,
    ss: Seq<SyntaxReference>,
    line: Seq<char>,
    st: StateV,
    cur: CursorV,
    starts: Seq<usize>,
    memory: CacheV,
    found: FoundV,
    pat: MatchPattern,
    top: Context,
)
    requires
        effects::finds(fuel, ss, line, st, cur, starts, memory, found, pat),
        !(pat.operation is Fail),
        !effects::left_to_next_line(line, st, cur, pat, found),
        st.stack.len() > 0,
        syntax::context_of(ss, st.stack.last().context) == Ok::<Context, syntax::ErrorV>(top),
    ensures
        engine::stepped(fuel, ss, line, st, cur) matches Some((next, Ok((cur1, more)))) ==> {
            let a = entered(cur.ops, ss, st.stack, top, pat, found.regions);
            &&& a is Ok
            &&& finished(
                texted(a->Ok_0, pat, found.regions),
                ss,
                st.stack,
                top,
                pat,
                found.regions,
            ) == Ok::<Seq<Op>, syntax::ErrorV>(cur1.ops)
        },
{
    effects::lemma_trimmed(st.proto_starts, st.stack.len(), starts);
    let rule = found.rule->0;
    let context = syntax::context_of(ss, rule.0)->Ok_0;
    assert(syntax::rule_at(context, rule.1) == Ok::<MatchPattern, syntax::ErrorV>(pat));
    match pat.operation {
        MatchOperation::Branch { name, alternatives, pop_count } => {
            let all = views::of(alternatives@);
            assert(engine::first_alternative(all) =~= effects::puts(pat.operation)) by {
                if alternatives@.len() > 0 {
                    assert(all[0] == alternatives@[0]@);
                }
            }
        },
        _ => {},
    }
}

/// A match wraps its text: the scopes of its rule start where it starts, the groups come
/// inside them, and they end where it ends. Around that, the meta scopes change where
/// it starts and where it ends, and nothing else is added.
pub proof fn law_match_wraps_its_text(
    fuel: nat,
    ss: Seq<SyntaxReference>,
    line: Seq<char>,
    st: StateV,
    cur: CursorV,
    starts: Seq<usize>,
    memory: CacheV,
    found: FoundV,
    pat: MatchPattern,
    top: Context,
) -> (r: (Seq<Op>, Seq<Op>))
    requires
        effects::finds(fuel, ss, line, st, cur, starts, memory, found, pat),
        !(pat.operation is Fail),
        !effects::left_to_next_line(line, st, cur, pat, found),
        st.stack.len() > 0,
        syntax::context_of(ss, st.stack.last().context) == Ok::<Context, syntax::ErrorV>(top),
    ensures
        engine::stepped(fuel, ss, line, st, cur) matches Some((next, Ok((cur1, more)))) ==> {
            &&& wrapped(cur.ops, r.0, pat, found.regions, r.1, cur1.ops)
            &&& pat.operation is Nothing ==> r.0.len() == 0 && r.1.len() == 0
        },
{
    lemma_step_ops(fuel, ss, line, st, cur, starts, memory, found, pat, top);
    let a = entered(cur.ops, ss, st.stack, top, pat, found.regions)->Ok_0;
    let c = texted(a, pat, found.regions);
    lemma_sites(cur.ops, ss, st.stack, top, pat, found.regions);
    lemma_sites(c, ss, st.stack, top, pat, found.regions);
    match engine::stepped(fuel, ss, line, st, cur) {
        Some((next, Ok((cur1, more)))) => {
            lemma_wrapped(cur.ops, a, pat, found.regions, cur1.ops);
            (
                a.subrange(cur.ops.len() as int, a.len() as int),
                cur1.ops.subrange(c.len() as int, cur1.ops.len() as int),
            )
        },
        _ => (Seq::empty(), Seq::empty()),
    }
}

/// The scope stack below the contexts that an operation puts on the stack: that of the
/// frames that stay. A `push` that pops one frame leaves its scopes, and one that pops
/// several keeps the meta scope of the topmost, unless one of them clears scopes: then it
/// leaves them all. An `embed` leaves what the topmost clears. A `set` out of the context
/// of the whole syntax keeps the scope of the syntax, in the second version.
pub open spec fn under(
    ss: Seq<SyntaxReference>,
    root: StackV,
    stack: Seq<LevelV>,
    top: Context,
    op: MatchOperation,
) -> StackV {
    let kept = laid(ss, root, stack.subrange(0, effects::stays(stack, op)));
    let n = effects::takes(op);
    match op {
        MatchOperation::SetTo { .. } => if ss[stack.last().context.syntax_index as int].version
            >= 2 && whole_syntax(ss, stack, top) {
            topped(kept, seq![top.meta_content_scope@[0]])
        } else {
            kept
        },
        MatchOperation::Embed { .. } => if n >= 1 && !(n >= 2 && !clears_among(ss, stack, n)) {
            hidden(laid(ss, root, stack.subrange(0, stack.len() - 1)), top.clear_scopes)
        } else {
            kept
        },
        MatchOperation::Pop(_) => kept,
        _ => if n >= 2 && !clears_among(ss, stack, n) {
            topped(kept, top.meta_scope@)
        } else {
            laid(ss, root, stack)
        },
    }
}

/// What the text of a match lies under, apart from the rule's own scopes.
pub open spec fn around_text(
    ss: Seq<SyntaxReference>,
    root: StackV,
    stack: Seq<LevelV>,
    top: Context,
    op: MatchOperation,
    ids: Seq<ContextId>,
) -> StackV {
    let s = laid(ss, root, stack);
    let n = top.meta_content_scope@.len() as int;
    match op {
        MatchOperation::Pop(_) => cropped(s, content_of(top, top_replaced(ss, stack)).len() as int),
        MatchOperation::Nothing => s,
        MatchOperation::SetTo { .. } => topped(
            if ss[stack.last().context.syntax_index as int].version < 2 {
                s
            } else if whole_syntax(ss, stack, top) {
                cropped(s, n - 1)
            } else if n == 0 && top.meta_scope@.len() == 0 && ids.len() == 1 {
                hidden(s, first_clear(ss, ids))
            } else {
                cropped(s, n)
            },
            all_metas(ss, ids, 0),
        ),
        _ => topped(
            hidden(under(ss, root, stack, top, op), first_clear(ss, ids)),
            all_metas(ss, ids, 0),
        ),
    }
}

/// Whether [`around_text`] is stated: a `set` of several contexts that clear scopes does
/// part of that before the text, in the second version.
pub open spec fn text_stated(
    ss: Seq<SyntaxReference>,
    stack: Seq<LevelV>,
    op: MatchOperation,
    ids: Seq<ContextId>,
) -> bool {
    op is SetTo && ss[stack.last().context.syntax_index as int].version >= 2 && ids.len() > 1
        ==> clear_none(ss, ids, 0)
}

/// The matches for which the scope stack is stated. Left out are those that mix what
/// frames clear or replace: a `push` of contexts of which a later one clears scopes; one
/// that pops several frames, the topmost with a content scope; a `set` that pops several
/// frames, the topmost of which clears scopes; a `set` between contexts that both clear
/// scopes, the first without scopes of its own; frames whose content scope is replaced,
/// where the operation does not look at that.
pub open spec fn followed(
    ss: Seq<SyntaxReference>,
    stack: Seq<LevelV>,
    top: Context,
    op: MatchOperation,
    ids: Seq<ContextId>,
) -> bool {
    let v2 = ss[stack.last().context.syntax_index as int].version >= 2;
    let n = effects::takes(op);
    let bare = top.meta_scope@.len() == 0 && top.meta_content_scope@.len() == 0;
    &&& v2 || no_id_replaces(ss, ids)
    &&& match op {
        MatchOperation::Pop(_) => n >= 1 && (v2 || none_replaces(ss, stack)),
        MatchOperation::Nothing => true,
        MatchOperation::Fail(_) => false,
        MatchOperation::SetTo { .. } => {
            &&& none_replaces(ss, stack)
            &&& n == 1 || top.clear_scopes is None
            &&& v2 && whole_syntax(ss, stack, top) ==> n == 1 && top.meta_scope@.len() == 0
                && top.clear_scopes is None && clear_none(ss, ids, 0)
            &&& v2 && bare && ids.len() == 1 && first_clear(ss, ids) is Some
                ==> top.clear_scopes is None && n == 1
        },
        MatchOperation::Embed { .. } => clear_none(ss, ids, 1) && (n >= 1 ==> none_replaces(
            ss,
            stack,
        )),
        _ => clear_none(ss, ids, 1) && (n >= 2 && !clears_among(ss, stack, n) ==> none_replaces(
            ss,
            stack,
        ) && top.meta_content_scope@.len() == 0),
    }
}

/// What is under the contexts that a `push` puts on the stack.
proof fn lemma_left_before(
    s: StackV,
    root: StackV,
    acc: Seq<Op>,
    ss: Seq<SyntaxReference>,
    stack: Seq<LevelV>,
    first: usize,
    top: Context,
    pop_count: usize,
)
    requires
        stack.len() > 0,
        syntax::context_of(ss, stack.last().context) == Ok::<Context, syntax::ErrorV>(top),
        pop_count >= 2 && !clears_among(ss, stack, pop_count as int) ==> none_replaces(ss, stack)
            && top.meta_content_scope@.len() == 0,
        scope::applied_all(s, acc) == laid(ss, root, stack),
    ensures
        semantics::left_before(
            acc,
            ss,
            stack,
            first,
            semantics::leaving(top),
            false,
            pop_count,
        ) matches Ok(a0) ==> scope::applied_all(s, a0) == if pop_count >= 2 && !clears_among(
            ss,
            stack,
            pop_count as int,
        ) {
            topped(
                laid(
                    ss,
                    root,
                    stack.subrange(
                        0,
                        stack.len() - scope::least(pop_count as int, stack.len() as int),
                    ),
                ),
                top.meta_scope@,
            )
        } else {
            laid(ss, root, stack)
        },
{
    lemma_fits(top);
    lemma_laid_top(ss, root, stack);
    lemma_clears_within(ss, stack, 1, pop_count as int);
    let at = stack.len() - 1;
    assert(stack[at].context == stack.last().context);
    if pop_count >= 2 && top.clear_scopes is None {
        if semantics::clears_within(ss, stack, 1, pop_count as int) == Ok::<bool, syntax::ErrorV>(
            false,
        ) {
            assert(!clears_among(ss, stack, pop_count as int)) by {
                if clears_among(ss, stack, pop_count as int) {
                    let k = choose|k: int|
                        0 <= k < stack.len() && stack.len() - pop_count <= k && (syntax::context_of(
                            ss,
                            (#[trigger] stack[k]).context,
                        ) matches Ok(context) && context.clear_scopes is Some);
                    assert(k != at);
                }
            }
            let below = laid(ss, root, stack.subrange(0, stack.len() - 1));
            let hm = topped(below, top.meta_scope@);
            assert(laid(ss, root, stack) == hm) by {
                assert(laid(ss, root, stack).scopes =~= hm.scopes);
            }
            let m = top.meta_scope@.len() as usize;
            lemma_popped(s, acc, first, m);
            lemma_cropped(below, top.meta_scope@);
            let a = emit::popped(acc, first, m);
            lemma_unwound(s, root, a, ss, stack, first, false, 1, pop_count as int);
            if let Ok(b) = semantics::unwound(a, ss, stack, first, false, 1, pop_count as int) {
                lemma_pushed(s, b, first, top.meta_scope@);
            }
        }
    }
}

/// The same for an `embed` that pops frames.
proof fn lemma_left_by_embed(
    s: StackV,
    root: StackV,
    acc: Seq<Op>,
    ss: Seq<SyntaxReference>,
    stack: Seq<LevelV>,
    first: usize,
    top: Context,
    pop_count: usize,
)
    requires
        stack.len() > 0,
        syntax::context_of(ss, stack.last().context) == Ok::<Context, syntax::ErrorV>(top),
        pop_count >= 1,
        none_replaces(ss, stack),
        scope::applied_all(s, acc) == laid(ss, root, stack),
    ensures
        ({
            let a = emit::popped(
                emit::popped(acc, first, top.meta_content_scope@.len() as usize),
                first,
                top.meta_scope@.len() as usize,
            );
            semantics::left_before(
                a,
                ss,
                stack,
                first,
                semantics::stripped(top),
                false,
                pop_count,
            ) matches Ok(a0) ==> scope::applied_all(s, a0) == if pop_count >= 2 && !clears_among(
                ss,
                stack,
                pop_count as int,
            ) {
                laid(
                    ss,
                    root,
                    stack.subrange(
                        0,
                        stack.len() - scope::least(pop_count as int, stack.len() as int),
                    ),
                )
            } else {
                hidden(laid(ss, root, stack.subrange(0, stack.len() - 1)), top.clear_scopes)
            }
        }),
{
    lemma_fits(top);
    lemma_laid_top(ss, root, stack);
    lemma_clears_within(ss, stack, 1, pop_count as int);
    let at = stack.len() - 1;
    assert(stack[at].context == stack.last().context);
    let below = laid(ss, root, stack.subrange(0, stack.len() - 1));
    let h = hidden(below, top.clear_scopes);
    let n = top.meta_content_scope@.len() as usize;
    let m = top.meta_scope@.len() as usize;
    lemma_popped(s, acc, first, n);
    lemma_cropped(topped(h, top.meta_scope@), top.meta_content_scope@);
    let b = emit::popped(acc, first, n);
    lemma_popped(s, b, first, m);
    lemma_cropped(h, top.meta_scope@);
    let a = emit::popped(b, first, m);
    if pop_count >= 2 && top.clear_scopes is None {
        if semantics::clears_within(ss, stack, 1, pop_count as int) == Ok::<bool, syntax::ErrorV>(
            false,
        ) {
            assert(!clears_among(ss, stack, pop_count as int)) by {
                if clears_among(ss, stack, pop_count as int) {
                    let k = choose|k: int|
                        0 <= k < stack.len() && stack.len() - pop_count <= k && (syntax::context_of(
                            ss,
                            (#[trigger] stack[k]).context,
                        ) matches Ok(context) && context.clear_scopes is Some);
                    assert(k != at);
                }
            }
            lemma_unwound(s, root, a, ss, stack, first, false, 1, pop_count as int);
            if let Ok(c) = semantics::unwound(a, ss, stack, first, false, 1, pop_count as int) {
                lemma_pushed(s, c, first, Seq::empty());
                let t = scope::applied_all(s, c);
                assert(t.scopes + Seq::<Scope>::empty() =~= t.scopes);
            }
        }
    }
}

/// The scopes around the text of a match, and after it.
#[verifier::rlimit(40)]
proof fn lemma_follows(
    s: StackV,
    root: StackV,
    ops: Seq<Op>,
    ss: Seq<SyntaxReference>,
    stack: Seq<LevelV>,
    top: Context,
    pat: MatchPattern,
    region: RegionV,
    ids: Seq<ContextId>,
)
    requires
        stack.len() > 0,
        syntax::context_of(ss, stack.last().context) == Ok::<Context, syntax::ErrorV>(top),
        followed(ss, stack, top, pat.operation, ids),
        stand_for(ss, effects::puts(pat.operation), ids),
        all_metas(ss, ids, 0).len() + top.meta_scope@.len() + top.meta_content_scope@.len()
            <= usize::MAX,
        region.len() > 0 && region[0] is Some,
        scope::applied_all(s, ops) == laid(ss, root, stack),
    ensures
        ({
            let a = entered(ops, ss, stack, top, pat, region);
            let b = finished(texted(a->Ok_0, pat, region), ss, stack, top, pat, region);
            a is Ok && b is Ok ==> {
                &&& text_stated(ss, stack, pat.operation, ids) ==> scope::applied_all(s, a->Ok_0)
                    == around_text(ss, root, stack, top, pat.operation, ids)
                &&& scope::applied_all(s, b->Ok_0) == frames_on(
                    ss,
                    under(ss, root, stack, top, pat.operation),
                    ids,
                    0,
                    true,
                    false,
                )
            }
        }),
{
    let (first, last) = regex::whole(region);
    let a = entered(ops, ss, stack, top, pat, region);
    let more = captures::group_ops(state::mapping_view(pat.captures), region, true);
    if let Ok(a0) = a {
        lemma_text(s, a0, pat, region, more);
        let c = texted(a0, pat, region);
        let refs = effects::puts(pat.operation);
        let cur = semantics::leaving(top);
        let keep = effects::stays(stack, pat.operation);
        let base = under(ss, root, stack, top, pat.operation);
        match pat.operation {
            MatchOperation::Push { ctx_refs, pop_count } => {
                lemma_left_before(s, root, ops, ss, stack, first, top, pop_count);
                lemma_push(s, base, ops, c, ss, stack, first, last, cur, pop_count, refs, ids);
            },
            MatchOperation::Branch { name, alternatives, pop_count } => {
                lemma_left_before(s, root, ops, ss, stack, first, top, pop_count);
                lemma_push(s, base, ops, c, ss, stack, first, last, cur, pop_count, refs, ids);
            },
            MatchOperation::Embed { contexts, escape, pop_count } => {
                if pop_count == 0 {
                    assert(stack.subrange(0, keep) =~= stack);
                    lemma_left_before(s, root, ops, ss, stack, first, top, pop_count);
                    lemma_push(s, base, ops, c, ss, stack, first, last, cur, pop_count, refs, ids);
                } else {
                    lemma_left_by_embed(s, root, ops, ss, stack, first, top, pop_count);
                    let left = emit::popped(
                        emit::popped(ops, first, top.meta_content_scope@.len() as usize),
                        first,
                        top.meta_scope@.len() as usize,
                    );
                    let bare = semantics::stripped(top);
                    lemma_push(
                        s,
                        base,
                        left,
                        c,
                        ss,
                        stack,
                        first,
                        last,
                        bare,
                        pop_count,
                        refs,
                        ids,
                    );
                }
            },
            MatchOperation::SetTo { ctx_refs, pop_count } => {
                lemma_follows_set(s, root, ops, c, ss, stack, first, last, top, pat.operation, ids);
            },
            MatchOperation::Pop(n) => {
                lemma_fits(top);
                lemma_laid_top(ss, root, stack);
                let below = laid(ss, root, stack.subrange(0, stack.len() - 1));
                let h = hidden(below, top.clear_scopes);
                let v2 = semantics::syntax_version(ss, stack) >= 2;
                let over = semantics::replaced_by_below(ss, stack, stack.len() - 1);
                assert(over == top_replaced(ss, stack));
                let content = content_of(top, over);
                if over {
                    assert(v2);
                    let t = laid(ss, root, stack);
                    assert(t.scopes.subrange(0, t.scopes.len() as int) =~= t.scopes);
                } else {
                    lemma_popped(s, ops, first, top.meta_content_scope@.len() as usize);
                }
                lemma_cropped(topped(h, top.meta_scope@), content);
                lemma_popped(s, c, last, top.meta_scope@.len() as usize);
                lemma_cropped(h, top.meta_scope@);
                let d = emit::popped(c, last, top.meta_scope@.len() as usize);
                lemma_restored(s, d, last, below, top.clear_scopes);
                let e = emit::restored(d, last, top.clear_scopes is Some);
                lemma_unwound(s, root, e, ss, stack, last, v2, 1, n as int);
                assert(ids.len() == 0);
            },
            _ => {
                assert(ids.len() == 0);
            },
        }
    }
}

/// The case of a `set`.
proof fn lemma_follows_set(
    s: StackV,
    root: StackV,
    ops: Seq<Op>,
    c: Seq<Op>,
    ss: Seq<SyntaxReference>,
    stack: Seq<LevelV>,
    first: usize,
    last: usize,
    top: Context,
    op: MatchOperation,
    ids: Seq<ContextId>,
)
    requires
        stack.len() > 0,
        op is SetTo,
        syntax::context_of(ss, stack.last().context) == Ok::<Context, syntax::ErrorV>(top),
        followed(ss, stack, top, op, ids),
        stand_for(ss, effects::puts(op), ids),
        all_metas(ss, ids, 0).len() + top.meta_scope@.len() + top.meta_content_scope@.len()
            <= usize::MAX,
        scope::applied_all(s, ops) == laid(ss, root, stack),
        semantics::meta_ops(ops, ss, stack, true, first, top, op) matches Ok(a)
            ==> scope::applied_all(s, c) == scope::applied_all(s, a),
    ensures
        ({
            let a = semantics::meta_ops(ops, ss, stack, true, first, top, op);
            let b = semantics::meta_ops(c, ss, stack, false, last, top, op);
            a is Ok && b is Ok ==> {
                &&& text_stated(ss, stack, op, ids) ==> scope::applied_all(s, a->Ok_0)
                    == around_text(ss, root, stack, top, op, ids)
                &&& scope::applied_all(s, b->Ok_0) == frames_on(
                    ss,
                    under(ss, root, stack, top, op),
                    ids,
                    0,
                    true,
                    false,
                )
            }
        }),
{
    let refs = effects::puts(op);
    let v2 = semantics::syntax_version(ss, stack) >= 2;
    let n = top.meta_content_scope@.len() as int;
    let t = laid(ss, root, stack);
    match op {
        MatchOperation::SetTo { ctx_refs, pop_count } => {
            assert(refs == views::of(ctx_refs@));
            if v2 && whole_syntax(ss, stack, top) {
                lemma_set_whole(
                    s,
                    root,
                    ops,
                    c,
                    ss,
                    stack,
                    first,
                    last,
                    top,
                    pop_count,
                    refs,
                    ids,
                );
                lemma_laid_top(ss, root, stack);
                let below = laid(ss, root, stack.subrange(0, stack.len() - 1));
                assert(!semantics::replaced_by_below(ss, stack, stack.len() - 1));
                assert(cropped(t, n - 1) == topped(below, seq![top.meta_content_scope@[0]])) by {
                    assert(cropped(t, n - 1).scopes =~= below.scopes
                        + seq![top.meta_content_scope@[0]]);
                }
            } else if !v2 || clear_none(ss, ids, 0) {
                lemma_set(s, root, ops, c, ss, stack, first, last, top, pop_count, refs, ids);
                if n == 0 {
                    assert(t.scopes.subrange(0, t.scopes.len() as int) =~= t.scopes);
                }
                if ids.len() > 0 && clear_none(ss, ids, 0) {
                    assert((syntax::context_of(ss, ids[0])->Ok_0).clear_scopes is None);
                }
            } else if ids.len() == 1 {
                assert(first_clear(ss, ids) is Some);
                lemma_set_one(s, root, ops, c, ss, stack, first, last, top, pop_count, refs, ids);
                if n == 0 {
                    assert(t.scopes.subrange(0, t.scopes.len() as int) =~= t.scopes);
                }
            } else {
                lemma_set_many(s, root, ops, c, ss, stack, first, last, top, pop_count, refs, ids);
            }
        },
        _ => {},
    }
}

/// The scopes of the frames that a match puts on the stack.
proof fn lemma_new_frames(
    ss: Seq<SyntaxReference>,
    stack: Seq<LevelV>,
    pat: MatchPattern,
    region: RegionV,
    line: Seq<char>,
    next: Seq<LevelV>,
    ids: Seq<ContextId>,
    base: StackV,
)
    requires
        effects::restacked(ss, stack, pat, region, line, next),
        stand_for(ss, effects::puts(pat.operation), ids),
    ensures
        laid(
            ss,
            base,
            next.subrange(effects::stays(stack, pat.operation), next.len() as int),
        ) == frames_on(ss, base, ids, 0, true, false),
{
    let keep = effects::stays(stack, pat.operation);
    let frames = next.subrange(keep, next.len() as int);
    let none = Seq::<LevelV>::empty();
    let refs = effects::puts(pat.operation);
    assert forall|k: int| 0 <= k < ids.len() implies #[trigger] frames[none.len() + k].context
        == ids[k] by {
        assert(effects::frame_for(ss, next[keep + k], refs[k], region, line));
        assert(refs[k] == ReferenceV::Direct(ids[k]));
    }
    assert(frames.subrange(0, 0) =~= none);
    lemma_laid_frames(ss, base, none, frames, ids, 0);
}

/// The scope stack follows the stack of contexts. If before a match it is what the
/// contexts on the stack lay one on the other, then after it the new contexts lie on
/// what is [`under`] them; and when the text of the match starts it is, below the scopes
/// of the rule, what the operation makes of it: with the meta scopes of the contexts that
/// are pushed, without the content scope of the context that is left.
pub proof fn law_scopes_follow_contexts(
    fuel: nat,
    ss: Seq<SyntaxReference>,
    line: Seq<char>,
    st: StateV,
    cur: CursorV,
    starts: Seq<usize>,
    memory: CacheV,
    found: FoundV,
    pat: MatchPattern,
    top: Context,
    ids: Seq<ContextId>,
    s: StackV,
    root: StackV,
) -> (r: (Seq<Op>, Seq<Op>))
    requires
        effects::finds(fuel, ss, line, st, cur, starts, memory, found, pat),
        !effects::left_to_next_line(line, st, cur, pat, found),
        found.regions.len() > 0 && found.regions[0] is Some,
        st.stack.len() > 0,
        syntax::context_of(ss, st.stack.last().context) == Ok::<Context, syntax::ErrorV>(top),
        followed(ss, st.stack, top, pat.operation, ids),
        stand_for(ss, effects::puts(pat.operation), ids),
        all_metas(ss, ids, 0).len() + top.meta_scope@.len() + top.meta_content_scope@.len()
            <= usize::MAX,
        st.stack.len() + ids.len() <= usize::MAX,
        st.pending_lines.len() <= usize::MAX,
        cur.ops.len() <= usize::MAX,
        scope::applied_all(s, cur.ops) == laid(ss, root, st.stack),
    ensures
        engine::stepped(fuel, ss, line, st, cur) matches Some((next, Ok((cur1, more)))) ==> {
            let keep = effects::stays(st.stack, pat.operation);
            &&& wrapped(cur.ops, r.0, pat, found.regions, r.1, cur1.ops)
            &&& text_stated(ss, st.stack, pat.operation, ids) ==> scope::applied_all(
                s,
                cur.ops + r.0,
            ) == around_text(ss, root, st.stack, top, pat.operation, ids)
            &&& scope::applied_all(s, cur1.ops) == laid(
                ss,
                under(ss, root, st.stack, top, pat.operation),
                next.stack.subrange(keep, next.stack.len() as int),
            )
        },
{
    lemma_step_ops(fuel, ss, line, st, cur, starts, memory, found, pat, top);
    let a = entered(cur.ops, ss, st.stack, top, pat, found.regions)->Ok_0;
    let c = texted(a, pat, found.regions);
    lemma_sites(cur.ops, ss, st.stack, top, pat, found.regions);
    lemma_sites(c, ss, st.stack, top, pat, found.regions);
    match engine::stepped(fuel, ss, line, st, cur) {
        Some((next, Ok((cur1, more)))) => {
            lemma_wrapped(cur.ops, a, pat, found.regions, cur1.ops);
            let before = a.subrange(cur.ops.len() as int, a.len() as int);
            assert(cur.ops + before =~= a);
            lemma_follows(s, root, cur.ops, ss, st.stack, top, pat, found.regions, ids);
            effects::law_match_restacks(
                fuel,
                ss,
                line,
                st,
                cur,
                starts,
                memory,
                found,
                pat,
            );
            let base = under(ss, root, st.stack, top, pat.operation);
            lemma_new_frames(ss, st.stack, pat, found.regions, line, next.stack, ids, base);
            (before, cur1.ops.subrange(c.len() as int, cur1.ops.len() as int))
        },
        _ => (Seq::empty(), Seq::empty()),
    }
}

/// Whether nothing of what a match takes off the stack stays on the scope stack, and
/// nothing that it puts there is replaced.
pub open spec fn leaves_nothing(
    ss: Seq<SyntaxReference>,
    stack: Seq<LevelV>,
    top: Context,
    op: MatchOperation,
    ids: Seq<ContextId>,
) -> bool {
    match op {
        MatchOperation::Pop(_) => true,
        MatchOperation::SetTo { .. } => none_replaces(ss, stack) && (!whole_syntax(ss, stack, top)
            || ss[stack.last().context.syntax_index as int].version < 2),
        _ => effects::takes(op) == 0 && (ids.len() > 0 ==> !replaces(ss, stack.last().context)),
    }
}

proof fn lemma_rejoined(
    ss: Seq<SyntaxReference>,
    root: StackV,
    stack: Seq<LevelV>,
    pat: MatchPattern,
    region: RegionV,
    line: Seq<char>,
    next: Seq<LevelV>,
    top: Context,
    ids: Seq<ContextId>,
)
    requires
        stack.len() > 0,
        effects::restacked(ss, stack, pat, region, line, next),
        leaves_nothing(ss, stack, top, pat.operation, ids),
        stand_for(ss, effects::puts(pat.operation), ids),
    ensures
        laid(ss, root, next) == laid(
            ss,
            under(ss, root, stack, top, pat.operation),
            next.subrange(effects::stays(stack, pat.operation), next.len() as int),
        ),
{
    let keep = effects::stays(stack, pat.operation);
    let lower = stack.subrange(0, keep);
    let upper = next.subrange(keep, next.len() as int);
    assert(lower + upper =~= next) by {
        assert forall|k: int| 0 <= k < keep implies next[k] == #[trigger] lower[k] by {
            assert(next.subrange(0, keep)[k] == next[k]);
        }
    }
    if keep == stack.len() {
        assert(lower =~= stack);
    }
    if keep > 0 {
        assert(lower.last() == stack[keep - 1]);
    }
    lemma_laid_split(ss, root, lower, upper);
}

/// A `push` or an `embed` that pops nothing, a `set` that leaves nothing behind and a
/// `pop` keep the scope stack exactly what the contexts on the stack lay.
pub proof fn law_scopes_stay_those_of_the_stack(
    fuel: nat,
    ss: Seq<SyntaxReference>,
    line: Seq<char>,
    st: StateV,
    cur: CursorV,
    starts: Seq<usize>,
    memory: CacheV,
    found: FoundV,
    pat: MatchPattern,
    top: Context,
    ids: Seq<ContextId>,
    s: StackV,
    root: StackV,
)
    requires
        effects::finds(fuel, ss, line, st, cur, starts, memory, found, pat),
        !effects::left_to_next_line(line, st, cur, pat, found),
        found.regions.len() > 0 && found.regions[0] is Some,
        st.stack.len() > 0,
        syntax::context_of(ss, st.stack.last().context) == Ok::<Context, syntax::ErrorV>(top),
        followed(ss, st.stack, top, pat.operation, ids),
        stand_for(ss, effects::puts(pat.operation), ids),
        leaves_nothing(ss, st.stack, top, pat.operation, ids),
        all_metas(ss, ids, 0).len() + top.meta_scope@.len() + top.meta_content_scope@.len()
            <= usize::MAX,
        st.stack.len() + ids.len() <= usize::MAX,
        st.pending_lines.len() <= usize::MAX,
        cur.ops.len() <= usize::MAX,
        scope::applied_all(s, cur.ops) == laid(ss, root, st.stack),
    ensures
        engine::stepped(fuel, ss, line, st, cur) matches Some((next, Ok((cur1, more))))
            ==> scope::applied_all(s, cur1.ops) == laid(ss, root, next.stack),
{
    let r = law_scopes_follow_contexts(
        fuel,
        ss,
        line,
        st,
        cur,
        starts,
        memory,
        found,
        pat,
        top,
        ids,
        s,
        root,
    );
    if let Some((next, Ok((cur1, more)))) = engine::stepped(fuel, ss, line, st, cur) {
        effects::law_match_restacks(fuel, ss, line, st, cur, starts, memory, found, pat);
        lemma_rejoined(ss, root, st.stack, pat, found.regions, line, next.stack, top, ids);
    }
}

} // verus!
