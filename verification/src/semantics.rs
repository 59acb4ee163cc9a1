//! Scope semantics: the operations that meta scopes and captures cause, and
//! what a match does to the stack of contexts.

use crate::emit;
use crate::scope::{ClearAmount, Op, Scope, ScopeStackOp};
use crate::state::{LevelV, ParseState};
use crate::syntax;
use crate::syntax::{
    Context, ContextId, ContextReference, ErrorV, MatchOperation, ParsingError, ReferenceV,
    SyntaxReference, SyntaxSet,
};
use crate::views;
use vstd::prelude::*;

verus! {

broadcast use crate::views::group_views;

/// What the meta operations need of the context that a match leaves.
pub struct LeavingV {
    pub meta_scope: Seq<Scope>,
    pub meta_content_scope: Seq<Scope>,
    pub clear_scopes: Option<ClearAmount>,
}

/// See [`LeavingV`].
pub open spec fn leaving(context: Context) -> LeavingV {
    LeavingV {
        meta_scope: context.meta_scope@,
        meta_content_scope: context.meta_content_scope@,
        clear_scopes: context.clear_scopes,
    }
}

/// A context that leaves nothing on the scope stack.
pub open spec fn stripped(context: Context) -> LeavingV {
    LeavingV {
        meta_scope: Seq::empty(),
        meta_content_scope: Seq::empty(),
        clear_scopes: context.clear_scopes,
    }
}

/// The version of the syntax on top of the stack; 1 where there is none.
pub open spec fn syntax_version(ss: Seq<SyntaxReference>, stack: Seq<LevelV>) -> u32 {
    if stack.len() > 0 && stack.last().context.syntax_index < ss.len() {
        ss[stack.last().context.syntax_index as int].version
    } else {
        1
    }
}

/// Whether the frame below `level` replaces the content scope of that at `level`.
pub open spec fn replaced_by_below(ss: Seq<SyntaxReference>, stack: Seq<LevelV>, level: int) -> bool {
    1 <= level < stack.len() && match syntax::context_of(ss, stack[level - 1].context) {
        Ok(context) => context.embed_scope_replaces,
        Err(_) => false,
    }
}

/// The operations that take one frame's scopes off the scope stack: its content
/// scope (unless it was never pushed), its meta scope, and what it had cleared.
pub open spec fn frame_unwound(acc: Seq<Op>, index: usize, context: Context, skip_content: bool) -> Seq<
    Op,
> {
    let a = if skip_content {
        acc
    } else {
        emit::popped(acc, index, context.meta_content_scope@.len() as usize)
    };
    let b = emit::popped(a, index, context.meta_scope@.len() as usize);
    emit::restored(b, index, context.clear_scopes is Some)
}

/// The operations that unwind the frames at the depths `depth..n` below the top.
/// With `respect_embed`, a content scope that an embed replaced is not popped.
pub open spec fn unwound(
    acc: Seq<Op>,
    ss: Seq<SyntaxReference>,
    stack: Seq<LevelV>,
    index: usize,
    respect_embed: bool,
    depth: int,
    n: int,
) -> Result<Seq<Op>, ErrorV>
    decreases n - depth,
{
    if depth >= n || depth >= stack.len() {
        Ok(acc)
    } else {
        let level = stack.len() - 1 - depth;
        match syntax::context_of(ss, stack[level].context) {
            Err(e) => Err(e),
            Ok(context) => unwound(
                frame_unwound(
                    acc,
                    index,
                    context,
                    respect_embed && replaced_by_below(ss, stack, level),
                ),
                ss,
                stack,
                index,
                respect_embed,
                depth + 1,
                n,
            ),
        }
    }
}

/// Whether a frame at one of the depths `depth..n` below the top clears scopes.
pub open spec fn clears_within(
    ss: Seq<SyntaxReference>,
    stack: Seq<LevelV>,
    depth: int,
    n: int,
) -> Result<bool, ErrorV>
    decreases n - depth,
{
    if depth >= n || depth >= stack.len() {
        Ok(false)
    } else {
        match syntax::context_of(ss, stack[stack.len() - 1 - depth].context) {
            Err(e) => Err(e),
            Ok(context) => if context.clear_scopes is Some {
                Ok(true)
            } else {
                clears_within(ss, stack, depth + 1, n)
            },
        }
    }
}

/// The ids of the contexts that the references `refs[i..]` stand for, after
/// `acc`; the first that cannot be followed decides the error.
pub open spec fn resolved_ids(
    ss: Seq<SyntaxReference>,
    refs: Seq<ReferenceV>,
    i: int,
    acc: Seq<ContextId>,
) -> Result<Seq<ContextId>, ErrorV>
    decreases refs.len() - i,
{
    if i < 0 || i >= refs.len() {
        Ok(acc)
    } else {
        match syntax::reference_id(refs[i]) {
            Err(e) => Err(e),
            Ok(id) => match syntax::context_of(ss, id) {
                Err(e) => Err(e),
                Ok(_) => resolved_ids(ss, refs, i + 1, acc.push(id)),
            },
        }
    }
}

/// A context that is known to be in the set.
pub open spec fn known(ss: Seq<SyntaxReference>, id: ContextId) -> Context {
    syntax::context_of(ss, id)->Ok_0
}

/// Whether all the ids are those of contexts of the set.
pub open spec fn all_known(ss: Seq<SyntaxReference>, ids: Seq<ContextId>) -> bool {
    forall|i: int| 0 <= i < ids.len() ==> syntax::context_of(ss, #[trigger] ids[i]) is Ok
}

/// The amount that the first context with a meta scope and a positive
/// `clear_scopes` clears.
pub open spec fn anchored_clear(ss: Seq<SyntaxReference>, ids: Seq<ContextId>, i: int) -> Option<usize>
    decreases ids.len() - i,
{
    if i < 0 || i >= ids.len() {
        None
    } else {
        let context = known(ss, ids[i]);
        match context.clear_scopes {
            Some(ClearAmount::TopN(n)) => if n > 0 && context.meta_scope@.len() > 0 {
                Some(n)
            } else {
                anchored_clear(ss, ids, i + 1)
            },
            _ => anchored_clear(ss, ids, i + 1),
        }
    }
}

/// How many of `atoms` freshly pushed scopes a context without a meta scope
/// clears ahead of the match.
pub open spec fn preview_amount(context: Context, atoms: usize) -> usize {
    match context.clear_scopes {
        Some(ClearAmount::TopN(n)) => if context.meta_scope@.len() > 0 {
            0
        } else if n < atoms {
            n
        } else {
            atoms
        },
        _ => 0,
    }
}

/// The operations that entering the contexts `ids[i..]` causes before the
/// matched text: clears (`emit_clear`) and meta scopes, and with `preview` the
/// clears of what earlier contexts pushed.
pub open spec fn entered_before(
    acc: Seq<Op>,
    ss: Seq<SyntaxReference>,
    ids: Seq<ContextId>,
    i: int,
    index: usize,
    preview: bool,
    emit_clear: bool,
    atoms: usize,
) -> Seq<Op>
    decreases ids.len() - i,
{
    if i < 0 || i >= ids.len() {
        acc
    } else {
        let context = known(ss, ids[i]);
        let amount = if preview {
            preview_amount(context, atoms)
        } else {
            0
        };
        let a = if amount > 0 {
            acc.push((index, ScopeStackOp::Clear(ClearAmount::TopN(amount))))
        } else {
            acc
        };
        let b = if emit_clear {
            emit::cleared(a, index, context.clear_scopes)
        } else {
            a
        };
        entered_before(
            emit::pushed(b, index, context.meta_scope@),
            ss,
            ids,
            i + 1,
            index,
            preview,
            emit_clear,
            ((atoms - amount) as usize).saturating_add(context.meta_scope@.len() as usize),
        )
    }
}

/// How many clears `entered_before` previews.
pub open spec fn preview_count(
    ss: Seq<SyntaxReference>,
    ids: Seq<ContextId>,
    i: int,
    atoms: usize,
) -> nat
    decreases ids.len() - i,
{
    if i < 0 || i >= ids.len() {
        0
    } else {
        let context = known(ss, ids[i]);
        let amount = preview_amount(context, atoms);
        let rest = preview_count(
            ss,
            ids,
            i + 1,
            ((atoms - amount) as usize).saturating_add(context.meta_scope@.len() as usize),
        );
        if amount > 0 {
            rest + 1
        } else {
            rest
        }
    }
}

/// `acc` plus the number of meta scopes of the contexts `ids[i..]`.
pub open spec fn meta_scope_count(ss: Seq<SyntaxReference>, ids: Seq<ContextId>, i: int, acc: usize) -> usize
    decreases ids.len() - i,
{
    if i < 0 || i >= ids.len() {
        acc
    } else {
        meta_scope_count(
            ss,
            ids,
            i + 1,
            acc.saturating_add(known(ss, ids[i]).meta_scope@.len() as usize),
        )
    }
}

/// Whether one of the contexts `ids[i..]` has a content scope, or clears scopes
/// while it is set.
pub open spec fn needs_repush(ss: Seq<SyntaxReference>, ids: Seq<ContextId>, is_set: bool) -> bool {
    exists|i: int|
        0 <= i < ids.len() && {
            let context = known(ss, #[trigger] ids[i]);
            context.meta_content_scope@.len() > 0 || (is_set && context.clear_scopes is Some)
        }
}

/// The operations that entering the contexts `ids[i..]` causes after the
/// matched text: clears (`emit_clear`), meta scopes and content scopes, except a
/// content scope that the context before replaces (`respect_embed`).
pub open spec fn entered_after(
    acc: Seq<Op>,
    ss: Seq<SyntaxReference>,
    ids: Seq<ContextId>,
    i: int,
    index: usize,
    emit_clear: bool,
    respect_embed: bool,
    replaced: bool,
) -> Seq<Op>
    decreases ids.len() - i,
{
    if i < 0 || i >= ids.len() {
        acc
    } else {
        let context = known(ss, ids[i]);
        let a = if emit_clear {
            emit::cleared(acc, index, context.clear_scopes)
        } else {
            acc
        };
        let b = emit::pushed(a, index, context.meta_scope@);
        let c = if respect_embed && replaced {
            b
        } else {
            emit::pushed(b, index, context.meta_content_scope@)
        };
        entered_after(
            c,
            ss,
            ids,
            i + 1,
            index,
            emit_clear,
            respect_embed,
            context.embed_scope_replaces,
        )
    }
}

/// How many scopes of the leaving context's content scope a `set` pops before
/// the matched text: all but the scope of the whole syntax.
pub open spec fn declared_content(ss: Seq<SyntaxReference>, stack: Seq<LevelV>, cur: LeavingV) -> usize {
    let n = cur.meta_content_scope.len() as usize;
    if n > 0 && stack.len() > 0 && stack.last().context.syntax_index < ss.len()
        && ss[stack.last().context.syntax_index as int].scope == cur.meta_content_scope[0] {
        (n - 1) as usize
    } else {
        n
    }
}

/// How many frames a `set` replaces.
pub open spec fn set_pops(pop_count: usize) -> usize {
    if pop_count >= 1 {
        pop_count
    } else {
        1
    }
}

/// Whether a `set` of several contexts drops one more scope from the matched
/// text than its target clears.
pub open spec fn drops_extra(
    ss: Seq<SyntaxReference>,
    ids: Seq<ContextId>,
    cur: LeavingV,
    is_set: bool,
    pop_count: usize,
) -> bool {
    &&& is_set
    &&& set_pops(pop_count) == 1
    &&& ids.len() > 1
    &&& cur.meta_scope.len() == 0
    &&& cur.meta_content_scope.len() == 0
    &&& cur.clear_scopes is None
    &&& anchored_clear(ss, ids, 0) is Some
}

/// Whether a `set` of one context from a context without meta scopes clears
/// before the matched text.
pub open spec fn clears_early(ids: Seq<ContextId>, cur: LeavingV, is_set: bool) -> bool {
    is_set && ids.len() == 1 && cur.meta_scope.len() == 0 && cur.meta_content_scope.len() == 0
}

/// The operations of a `push` (or `set`) before the matched text that concern
/// the frames being left: a `set` drops the declared content scope; a `push`
/// that pops several frames takes their scopes off first, keeping the leaving
/// context's own meta scope on top.
pub open spec fn left_before(
    acc: Seq<Op>,
    ss: Seq<SyntaxReference>,
    stack: Seq<LevelV>,
    index: usize,
    cur: LeavingV,
    is_set: bool,
    pop_count: usize,
) -> Result<Seq<Op>, ErrorV> {
    let v2 = syntax_version(ss, stack) >= 2;
    let a = if is_set && v2 && !replaced_by_below(ss, stack, stack.len() - 1) {
        emit::popped(acc, index, declared_content(ss, stack, cur))
    } else {
        acc
    };
    if !is_set && pop_count > 1 && cur.clear_scopes is None {
        match clears_within(ss, stack, 1, pop_count as int) {
            Err(e) => Err(e),
            Ok(true) => Ok(a),
            Ok(false) => match unwound(
                emit::popped(a, index, cur.meta_scope.len() as usize),
                ss,
                stack,
                index,
                false,
                1,
                pop_count as int,
            ) {
                Err(e) => Err(e),
                Ok(b) => Ok(emit::pushed(b, index, cur.meta_scope)),
            },
        }
    } else {
        Ok(a)
    }
}

/// All operations of a `push` (or `set`) before the matched text.
pub open spec fn enter_before(
    acc: Seq<Op>,
    ss: Seq<SyntaxReference>,
    stack: Seq<LevelV>,
    index: usize,
    cur: LeavingV,
    is_set: bool,
    pop_count: usize,
    refs: Seq<ReferenceV>,
) -> Result<Seq<Op>, ErrorV> {
    let v2 = syntax_version(ss, stack) >= 2;
    match left_before(acc, ss, stack, index, cur, is_set, pop_count) {
        Err(e) => Err(e),
        Ok(a) => match resolved_ids(ss, refs, 0, Seq::empty()) {
            Err(e) => Err(e),
            Ok(ids) => {
                let b = if v2 && drops_extra(ss, ids, cur, is_set, pop_count) {
                    a.push(
                        (
                            index,
                            ScopeStackOp::Clear(
                                ClearAmount::TopN(anchored_clear(ss, ids, 0)->0.saturating_add(1)),
                            ),
                        ),
                    )
                } else {
                    a
                };
                Ok(
                    entered_before(
                        b,
                        ss,
                        ids,
                        0,
                        index,
                        v2 && is_set && ids.len() > 1,
                        !is_set || (v2 && clears_early(ids, cur, is_set)),
                        0,
                    ),
                )
            },
        },
    }
}

/// All operations of a `push` (or `set`) after the matched text.
pub open spec fn enter_after(
    acc: Seq<Op>,
    ss: Seq<SyntaxReference>,
    stack: Seq<LevelV>,
    index: usize,
    cur: LeavingV,
    is_set: bool,
    pop_count: usize,
    refs: Seq<ReferenceV>,
) -> Result<Seq<Op>, ErrorV> {
    let v2 = syntax_version(ss, stack) >= 2;
    let pops = set_pops(pop_count);
    match resolved_ids(ss, refs, 0, Seq::empty()) {
        Err(e) => Err(e),
        Ok(ids) => {
            let leaves = cur.meta_scope.len() > 0 || cur.meta_content_scope.len() > 0
                || cur.clear_scopes is Some;
            if (is_set && (pops > 1 || leaves)) || needs_repush(ss, ids, is_set) {
                let targets = meta_scope_count(ss, ids, 0, 0);
                let head = if !is_set {
                    targets
                } else if v2 {
                    targets.saturating_add(cur.meta_scope.len() as usize)
                } else {
                    targets.saturating_add(cur.meta_content_scope.len() as usize).saturating_add(
                        cur.meta_scope.len() as usize,
                    )
                };
                let early = is_set && pops > 1 && cur.clear_scopes is Some;
                let a = emit::restored(acc, index, early);
                let b = if is_set && v2 && ids.len() > 1 {
                    emit::restored_times(a, index, preview_count(ss, ids, 0, 0))
                } else {
                    a
                };
                let c = emit::popped(b, index, head);
                let d = emit::restored(c, index, is_set && cur.clear_scopes is Some && !early);
                let e = if is_set && pops > 1 {
                    unwound(d, ss, stack, index, false, 1, pops as int)
                } else {
                    Ok(d)
                };
                match e {
                    Err(err) => Err(err),
                    Ok(f) => {
                        let g = emit::restored(
                            f,
                            index,
                            v2 && drops_extra(ss, ids, cur, is_set, pop_count),
                        );
                        Ok(
                            entered_after(
                                g,
                                ss,
                                ids,
                                0,
                                index,
                                is_set && !(v2 && clears_early(ids, cur, is_set)),
                                v2,
                                false,
                            ),
                        )
                    },
                }
            } else {
                Ok(acc)
            }
        },
    }
}

/// The operations of a `push` (or `set`), before or after the matched text.
pub open spec fn enter_ops(
    acc: Seq<Op>,
    ss: Seq<SyntaxReference>,
    stack: Seq<LevelV>,
    initial: bool,
    index: usize,
    cur: LeavingV,
    is_set: bool,
    pop_count: usize,
    refs: Seq<ReferenceV>,
) -> Result<Seq<Op>, ErrorV> {
    if initial {
        enter_before(acc, ss, stack, index, cur, is_set, pop_count, refs)
    } else {
        enter_after(acc, ss, stack, index, cur, is_set, pop_count, refs)
    }
}

/// The operations of a `pop` of `n` frames. Before the matched text the top
/// context's content scope goes; after it, the rest in the order of the stack.
pub open spec fn leave_ops(
    acc: Seq<Op>,
    ss: Seq<SyntaxReference>,
    stack: Seq<LevelV>,
    initial: bool,
    index: usize,
    cur: LeavingV,
    n: usize,
) -> Result<Seq<Op>, ErrorV> {
    let v2 = syntax_version(ss, stack) >= 2;
    if initial {
        if v2 && replaced_by_below(ss, stack, stack.len() - 1) {
            Ok(acc)
        } else {
            Ok(emit::popped(acc, index, cur.meta_content_scope.len() as usize))
        }
    } else {
        let a = emit::popped(acc, index, cur.meta_scope.len() as usize);
        let b = emit::restored(a, index, cur.clear_scopes is Some);
        unwound(b, ss, stack, index, v2, 1, n as int)
    }
}

/// The operations of a match's meta scopes, before (`initial`) or after the
/// matched text.
pub open spec fn meta_ops(
    acc: Seq<Op>,
    ss: Seq<SyntaxReference>,
    stack: Seq<LevelV>,
    initial: bool,
    index: usize,
    cur: Context,
    op: MatchOperation,
) -> Result<Seq<Op>, ErrorV> {
    match op {
        MatchOperation::Pop(n) => leave_ops(acc, ss, stack, initial, index, leaving(cur), n),
        MatchOperation::Push { ctx_refs, pop_count } => enter_ops(
            acc,
            ss,
            stack,
            initial,
            index,
            leaving(cur),
            false,
            pop_count,
            views::of(ctx_refs@),
        ),
        MatchOperation::SetTo { ctx_refs, pop_count } => enter_ops(
            acc,
            ss,
            stack,
            initial,
            index,
            leaving(cur),
            true,
            pop_count,
            views::of(ctx_refs@),
        ),
        MatchOperation::Embed { contexts, escape, pop_count } => if pop_count > 0 {
            let a = if initial {
                emit::popped(
                    emit::popped(acc, index, cur.meta_content_scope@.len() as usize),
                    index,
                    cur.meta_scope@.len() as usize,
                )
            } else {
                acc
            };
            enter_ops(
                a,
                ss,
                stack,
                initial,
                index,
                stripped(cur),
                false,
                pop_count,
                views::of(contexts@),
            )
        } else {
            enter_ops(
                acc,
                ss,
                stack,
                initial,
                index,
                leaving(cur),
                false,
                pop_count,
                views::of(contexts@),
            )
        },
        MatchOperation::Branch { name, alternatives, pop_count } => enter_ops(
            acc,
            ss,
            stack,
            initial,
            index,
            leaving(cur),
            false,
            pop_count,
            views::of(alternatives@),
        ),
        MatchOperation::Fail(_) => Ok(acc),
        MatchOperation::Nothing => Ok(acc),
    }
}

/// The ids of the referenced contexts.
fn resolve_all(syntax_set: &SyntaxSet, refs: &Vec<ContextReference>) -> (r: Result<
    Vec<ContextId>,
    ParsingError,
>)
    ensures
        match r {
            Ok(ids) => resolved_ids(syntax_set@, views::of(refs@), 0, Seq::empty()) == Ok::<
                Seq<ContextId>,
                ErrorV,
            >(ids@) && all_known(syntax_set@, ids@),
            Err(e) => resolved_ids(syntax_set@, views::of(refs@), 0, Seq::empty()) == Err::<
                Seq<ContextId>,
                ErrorV,
            >(e@),
        },
{
    let mut ids: Vec<ContextId> = Vec::new();
    let mut i: usize = 0;
    while i < refs.len()
        invariant
            i <= refs@.len(),
            resolved_ids(syntax_set@, views::of(refs@), i as int, ids@) == resolved_ids(
                syntax_set@,
                views::of(refs@),
                0,
                Seq::empty(),
            ),
            all_known(syntax_set@, ids@),
        decreases refs@.len() - i,
    {
        let id = match refs[i].id() {
            Ok(id) => id,
            Err(e) => {
                return Err(e);
            },
        };
        match syntax_set.get_context(&id) {
            Ok(_) => {},
            Err(e) => {
                return Err(e);
            },
        }
        ids.push(id);
        i += 1;
    }
    Ok(ids)
}

/// See [`known`].
fn known_context(syntax_set: &SyntaxSet, id: ContextId) -> (r: &Context)
    requires
        syntax::context_of(syntax_set@, id) is Ok,
    ensures
        *r == known(syntax_set@, id),
{
    let syntax = &syntax_set.syntaxes()[id.syntax_index];
    &syntax.contexts[id.context_index]
}

/// See [`anchored_clear`].
fn find_anchored_clear(syntax_set: &SyntaxSet, ids: &Vec<ContextId>) -> (r: Option<usize>)
    requires
        all_known(syntax_set@, ids@),
    ensures
        r == anchored_clear(syntax_set@, ids@, 0),
{
    let mut i: usize = 0;
    while i < ids.len()
        invariant
            i <= ids@.len(),
            all_known(syntax_set@, ids@),
            anchored_clear(syntax_set@, ids@, i as int) == anchored_clear(syntax_set@, ids@, 0),
        decreases ids@.len() - i,
    {
        let context = known_context(syntax_set, ids[i]);
        if let Some(ClearAmount::TopN(n)) = context.clear_scopes {
            if n > 0 && context.meta_scope.len() > 0 {
                return Some(n);
            }
        }
        i += 1;
    }
    None
}

/// See [`preview_amount`].
fn preview(context: &Context, atoms: usize) -> (r: usize)
    ensures
        r == preview_amount(*context, atoms),
        r <= atoms,
{
    match context.clear_scopes {
        Some(ClearAmount::TopN(n)) => if context.meta_scope.len() > 0 {
            0
        } else if n < atoms {
            n
        } else {
            atoms
        },
        _ => 0,
    }
}

/// See [`entered_before`].
fn emit_entered_before(
    ops: &mut Vec<Op>,
    syntax_set: &SyntaxSet,
    ids: &Vec<ContextId>,
    index: usize,
    with_preview: bool,
    with_clear: bool,
)
    requires
        all_known(syntax_set@, ids@),
    ensures
        final(ops)@ == entered_before(
            old(ops)@,
            syntax_set@,
            ids@,
            0,
            index,
            with_preview,
            with_clear,
            0,
        ),
{
    let mut atoms: usize = 0;
    let mut i: usize = 0;
    while i < ids.len()
        invariant
            i <= ids@.len(),
            all_known(syntax_set@, ids@),
            entered_before(
                ops@,
                syntax_set@,
                ids@,
                i as int,
                index,
                with_preview,
                with_clear,
                atoms,
            ) == entered_before(
                old(ops)@,
                syntax_set@,
                ids@,
                0,
                index,
                with_preview,
                with_clear,
                0,
            ),
        decreases ids@.len() - i,
    {
        let context = known_context(syntax_set, ids[i]);
        let amount: usize = if with_preview {
            preview(context, atoms)
        } else {
            0
        };
        if amount > 0 {
            ops.push((index, ScopeStackOp::Clear(ClearAmount::TopN(amount))));
        }
        if with_clear {
            emit::emit_clear(ops, index, context.clear_scopes);
        }
        emit::emit_pushes(ops, index, &context.meta_scope);
        atoms = (atoms - amount).saturating_add(context.meta_scope.len());
        i += 1;
    }
}

/// See [`preview_count`].
fn count_previews(syntax_set: &SyntaxSet, ids: &Vec<ContextId>) -> (r: usize)
    requires
        all_known(syntax_set@, ids@),
    ensures
        r == preview_count(syntax_set@, ids@, 0, 0),
{
    let mut atoms: usize = 0;
    let mut count: usize = 0;
    let mut i: usize = 0;
    while i < ids.len()
        invariant
            i <= ids@.len(),
            all_known(syntax_set@, ids@),
            count <= i,
            count + preview_count(syntax_set@, ids@, i as int, atoms) == preview_count(
                syntax_set@,
                ids@,
                0,
                0,
            ),
        decreases ids@.len() - i,
    {
        let context = known_context(syntax_set, ids[i]);
        let amount: usize = preview(context, atoms);
        if amount > 0 {
            count += 1;
        }
        atoms = (atoms - amount).saturating_add(context.meta_scope.len());
        i += 1;
    }
    count
}

/// See [`meta_scope_count`].
fn count_meta_scopes(syntax_set: &SyntaxSet, ids: &Vec<ContextId>) -> (r: usize)
    requires
        all_known(syntax_set@, ids@),
    ensures
        r == meta_scope_count(syntax_set@, ids@, 0, 0),
{
    let mut count: usize = 0;
    let mut i: usize = 0;
    while i < ids.len()
        invariant
            i <= ids@.len(),
            all_known(syntax_set@, ids@),
            meta_scope_count(syntax_set@, ids@, i as int, count) == meta_scope_count(
                syntax_set@,
                ids@,
                0,
                0,
            ),
        decreases ids@.len() - i,
    {
        let context = known_context(syntax_set, ids[i]);
        count = count.saturating_add(context.meta_scope.len());
        i += 1;
    }
    count
}

/// See [`needs_repush`].
fn must_repush(syntax_set: &SyntaxSet, ids: &Vec<ContextId>, is_set: bool) -> (r: bool)
    requires
        all_known(syntax_set@, ids@),
    ensures
        r == needs_repush(syntax_set@, ids@, is_set),
{
    for i in 0..ids.len()
        invariant
            all_known(syntax_set@, ids@),
            forall|k: int|
                0 <= k < i ==> {
                    let context = known(syntax_set@, #[trigger] ids@[k]);
                    !(context.meta_content_scope@.len() > 0 || (is_set
                        && context.clear_scopes is Some))
                },
    {
        let context = known_context(syntax_set, ids[i]);
        if context.meta_content_scope.len() > 0 || (is_set && context.clear_scopes.is_some()) {
            return true;
        }
    }
    false
}

/// See [`entered_after`].
fn emit_entered_after(
    ops: &mut Vec<Op>,
    syntax_set: &SyntaxSet,
    ids: &Vec<ContextId>,
    index: usize,
    with_clear: bool,
    respect_embed: bool,
)
    requires
        all_known(syntax_set@, ids@),
    ensures
        final(ops)@ == entered_after(
            old(ops)@,
            syntax_set@,
            ids@,
            0,
            index,
            with_clear,
            respect_embed,
            false,
        ),
{
    let mut replaced = false;
    let mut i: usize = 0;
    while i < ids.len()
        invariant
            i <= ids@.len(),
            all_known(syntax_set@, ids@),
            entered_after(
                ops@,
                syntax_set@,
                ids@,
                i as int,
                index,
                with_clear,
                respect_embed,
                replaced,
            ) == entered_after(
                old(ops)@,
                syntax_set@,
                ids@,
                0,
                index,
                with_clear,
                respect_embed,
                false,
            ),
        decreases ids@.len() - i,
    {
        let context = known_context(syntax_set, ids[i]);
        if with_clear {
            emit::emit_clear(ops, index, context.clear_scopes);
        }
        emit::emit_pushes(ops, index, &context.meta_scope);
        if !(respect_embed && replaced) {
            emit::emit_pushes(ops, index, &context.meta_content_scope);
        }
        replaced = context.embed_scope_replaces;
        i += 1;
    }
}

impl ParseState {
    /// The version of the syntax that the parser is in.
    pub(crate) fn current_syntax_version(&self, syntax_set: &SyntaxSet) -> (r: u32)
        ensures
            r == syntax_version(syntax_set@, self@.stack),
    {
        if self.stack.len() > 0 {
            let syntax_index: usize = self.stack[self.stack.len() - 1].context.syntax_index;
            if syntax_index < syntax_set.syntaxes().len() {
                return syntax_set.syntaxes()[syntax_index].version;
            }
        }
        1
    }

    /// See [`replaced_by_below`].
    pub(crate) fn is_replaced_by_below(&self, syntax_set: &SyntaxSet, level: usize) -> (r: bool)
        ensures
            r == replaced_by_below(syntax_set@, self@.stack, level as int),
    {
        if level >= 1 && level < self.stack.len() {
            match syntax_set.get_context(&self.stack[level - 1].context) {
                Ok(context) => context.embed_scope_replaces,
                Err(_) => false,
            }
        } else {
            false
        }
    }

    /// Whether the content scope of the top frame was replaced by the frame
    /// below it.
    fn is_top_replaced(&self, syntax_set: &SyntaxSet) -> (r: bool)
        ensures
            r == replaced_by_below(syntax_set@, self@.stack, self@.stack.len() - 1),
    {
        self.stack.len() > 0 && self.is_replaced_by_below(syntax_set, self.stack.len() - 1)
    }

    /// See [`unwound`].
    fn emit_unwound(
        &self,
        ops: &mut Vec<Op>,
        syntax_set: &SyntaxSet,
        index: usize,
        respect_embed: bool,
        n: usize,
    ) -> (r: Result<(), ParsingError>)
        ensures
            match r {
                Ok(_) => unwound(
                    old(ops)@,
                    syntax_set@,
                    self@.stack,
                    index,
                    respect_embed,
                    1,
                    n as int,
                ) == Ok::<Seq<Op>, ErrorV>(final(ops)@),
                Err(e) => unwound(
                    old(ops)@,
                    syntax_set@,
                    self@.stack,
                    index,
                    respect_embed,
                    1,
                    n as int,
                ) == Err::<Seq<Op>, ErrorV>(e@),
            },
    {
        let mut depth: usize = 1;
        while depth < n && depth < self.stack.len()
            invariant
                1 <= depth,
                unwound(
                    ops@,
                    syntax_set@,
                    self@.stack,
                    index,
                    respect_embed,
                    depth as int,
                    n as int,
                ) == unwound(
                    old(ops)@,
                    syntax_set@,
                    self@.stack,
                    index,
                    respect_embed,
                    1,
                    n as int,
                ),
            decreases n - depth,
        {
            let level: usize = self.stack.len() - 1 - depth;
            let context = match syntax_set.get_context(&self.stack[level].context) {
                Ok(context) => context,
                Err(e) => {
                    return Err(e);
                },
            };
            if !(respect_embed && self.is_replaced_by_below(syntax_set, level)) {
                emit::emit_pop(ops, index, context.meta_content_scope.len());
            }
            emit::emit_pop(ops, index, context.meta_scope.len());
            emit::emit_restore(ops, index, context.clear_scopes.is_some());
            depth += 1;
        }
        Ok(())
    }

    /// See [`clears_within`].
    fn frames_clear(&self, syntax_set: &SyntaxSet, n: usize) -> (r: Result<bool, ParsingError>)
        ensures
            match r {
                Ok(b) => clears_within(syntax_set@, self@.stack, 1, n as int) == Ok::<
                    bool,
                    ErrorV,
                >(b),
                Err(e) => clears_within(syntax_set@, self@.stack, 1, n as int) == Err::<
                    bool,
                    ErrorV,
                >(e@),
            },
    {
        let mut depth: usize = 1;
        while depth < n && depth < self.stack.len()
            invariant
                1 <= depth,
                clears_within(syntax_set@, self@.stack, depth as int, n as int) == clears_within(
                    syntax_set@,
                    self@.stack,
                    1,
                    n as int,
                ),
            decreases n - depth,
        {
            let level: usize = self.stack.len() - 1 - depth;
            match syntax_set.get_context(&self.stack[level].context) {
                Ok(context) => {
                    if context.clear_scopes.is_some() {
                        return Ok(true);
                    }
                },
                Err(e) => {
                    return Err(e);
                },
            }
            depth += 1;
        }
        Ok(false)
    }
}

/// Whether a result agrees with its model, the operations of an `Ok` being `ops`.
pub open spec fn agrees(r: Result<(), ParsingError>, ops: Seq<Op>, model: Result<Seq<Op>, ErrorV>) -> bool {
    match r {
        Ok(_) => model == Ok::<Seq<Op>, ErrorV>(ops),
        Err(e) => model == Err::<Seq<Op>, ErrorV>(e@),
    }
}

impl ParseState {
    /// See [`left_before`].
    fn emit_left_before(
        &self,
        ops: &mut Vec<Op>,
        syntax_set: &SyntaxSet,
        index: usize,
        meta_scope: &Vec<Scope>,
        meta_content_scope: &Vec<Scope>,
        clear_scopes: Option<ClearAmount>,
        is_set: bool,
        pop_count: usize,
    ) -> (r: Result<(), ParsingError>)
        ensures
            agrees(
                r,
                final(ops)@,
                left_before(
                    old(ops)@,
                    syntax_set@,
                    self@.stack,
                    index,
                    LeavingV {
                        meta_scope: meta_scope@,
                        meta_content_scope: meta_content_scope@,
                        clear_scopes,
                    },
                    is_set,
                    pop_count,
                ),
            ),
    {
        let v2 = self.current_syntax_version(syntax_set) >= 2;
        if is_set && v2 && !self.is_top_replaced(syntax_set) {
            let mut declared: usize = meta_content_scope.len();
            if declared > 0 && self.stack.len() > 0 {
                let syntax_index: usize = self.stack[self.stack.len() - 1].context.syntax_index;
                if syntax_index < syntax_set.syntaxes().len()
                    && syntax_set.syntaxes()[syntax_index].scope == meta_content_scope[0] {
                    declared = declared - 1;
                }
            }
            emit::emit_pop(ops, index, declared);
        }
        if !is_set && pop_count > 1 && clear_scopes.is_none() {
            match self.frames_clear(syntax_set, pop_count) {
                Err(e) => {
                    return Err(e);
                },
                Ok(true) => {},
                Ok(false) => {
                    emit::emit_pop(ops, index, meta_scope.len());
                    match self.emit_unwound(ops, syntax_set, index, false, pop_count) {
                        Err(e) => {
                            return Err(e);
                        },
                        Ok(_) => {},
                    }
                    emit::emit_pushes(ops, index, meta_scope);
                },
            }
        }
        Ok(())
    }

    /// See [`enter_before`].
    fn emit_enter_before(
        &self,
        ops: &mut Vec<Op>,
        syntax_set: &SyntaxSet,
        index: usize,
        meta_scope: &Vec<Scope>,
        meta_content_scope: &Vec<Scope>,
        clear_scopes: Option<ClearAmount>,
        is_set: bool,
        pop_count: usize,
        refs: &Vec<ContextReference>,
    ) -> (r: Result<(), ParsingError>)
        ensures
            agrees(
                r,
                final(ops)@,
                enter_before(
                    old(ops)@,
                    syntax_set@,
                    self@.stack,
                    index,
                    LeavingV {
                        meta_scope: meta_scope@,
                        meta_content_scope: meta_content_scope@,
                        clear_scopes,
                    },
                    is_set,
                    pop_count,
                    views::of(refs@),
                ),
            ),
    {
        let ghost cur = LeavingV {
            meta_scope: meta_scope@,
            meta_content_scope: meta_content_scope@,
            clear_scopes,
        };
        let v2 = self.current_syntax_version(syntax_set) >= 2;
        match self.emit_left_before(
            ops,
            syntax_set,
            index,
            meta_scope,
            meta_content_scope,
            clear_scopes,
            is_set,
            pop_count,
        ) {
            Err(e) => {
                return Err(e);
            },
            Ok(_) => {},
        }
        let ids = match resolve_all(syntax_set, refs) {
            Err(e) => {
                return Err(e);
            },
            Ok(ids) => ids,
        };
        let bare = meta_scope.len() == 0 && meta_content_scope.len() == 0;
        if v2 && is_set && pop_count <= 1 && ids.len() > 1 && bare && clear_scopes.is_none() {
            if let Some(amount) = find_anchored_clear(syntax_set, &ids) {
                ops.push(
                    (
                        index,
                        ScopeStackOp::Clear(ClearAmount::TopN(amount.saturating_add(1))),
                    ),
                );
            }
        }
        let early = v2 && is_set && ids.len() == 1 && bare;
        emit_entered_before(
            ops,
            syntax_set,
            &ids,
            index,
            v2 && is_set && ids.len() > 1,
            !is_set || early,
        );
        Ok(())
    }

    /// See [`enter_after`].
    fn emit_enter_after(
        &self,
        ops: &mut Vec<Op>,
        syntax_set: &SyntaxSet,
        index: usize,
        meta_scope: &Vec<Scope>,
        meta_content_scope: &Vec<Scope>,
        clear_scopes: Option<ClearAmount>,
        is_set: bool,
        pop_count: usize,
        refs: &Vec<ContextReference>,
    ) -> (r: Result<(), ParsingError>)
        ensures
            agrees(
                r,
                final(ops)@,
                enter_after(
                    old(ops)@,
                    syntax_set@,
                    self@.stack,
                    index,
                    LeavingV {
                        meta_scope: meta_scope@,
                        meta_content_scope: meta_content_scope@,
                        clear_scopes,
                    },
                    is_set,
                    pop_count,
                    views::of(refs@),
                ),
            ),
    {
        let v2 = self.current_syntax_version(syntax_set) >= 2;
        let pops: usize = if pop_count >= 1 {
            pop_count
        } else {
            1
        };
        let ids = match resolve_all(syntax_set, refs) {
            Err(e) => {
                return Err(e);
            },
            Ok(ids) => ids,
        };
        let bare = meta_scope.len() == 0 && meta_content_scope.len() == 0;
        let leaves = !bare || clear_scopes.is_some();
        if !((is_set && (pops > 1 || leaves)) || must_repush(syntax_set, &ids, is_set)) {
            return Ok(());
        }
        let targets: usize = count_meta_scopes(syntax_set, &ids);
        let head: usize = if !is_set {
            targets
        } else if v2 {
            targets.saturating_add(meta_scope.len())
        } else {
            targets.saturating_add(meta_content_scope.len()).saturating_add(meta_scope.len())
        };
        let early = is_set && pops > 1 && clear_scopes.is_some();
        emit::emit_restore(ops, index, early);
        if is_set && v2 && ids.len() > 1 {
            emit::emit_restores(ops, index, count_previews(syntax_set, &ids));
        }
        emit::emit_pop(ops, index, head);
        emit::emit_restore(ops, index, is_set && clear_scopes.is_some() && !early);
        if is_set && pops > 1 {
            match self.emit_unwound(ops, syntax_set, index, false, pops) {
                Err(e) => {
                    return Err(e);
                },
                Ok(_) => {},
            }
        }
        let extra = v2 && is_set && pops == 1 && ids.len() > 1 && !leaves && find_anchored_clear(
            syntax_set,
            &ids,
        ).is_some();
        emit::emit_restore(ops, index, extra);
        let clears_before = v2 && is_set && ids.len() == 1 && bare;
        emit_entered_after(ops, syntax_set, &ids, index, is_set && !clears_before, v2);
        Ok(())
    }

    /// See [`enter_ops`].
    pub(crate) fn emit_enter(
        &self,
        initial: bool,
        index: usize,
        meta_scope: &Vec<Scope>,
        meta_content_scope: &Vec<Scope>,
        clear_scopes: Option<ClearAmount>,
        is_set: bool,
        pop_count: usize,
        refs: &Vec<ContextReference>,
        syntax_set: &SyntaxSet,
        ops: &mut Vec<Op>,
    ) -> (r: Result<(), ParsingError>)
        ensures
            agrees(
                r,
                final(ops)@,
                enter_ops(
                    old(ops)@,
                    syntax_set@,
                    self@.stack,
                    initial,
                    index,
                    LeavingV {
                        meta_scope: meta_scope@,
                        meta_content_scope: meta_content_scope@,
                        clear_scopes,
                    },
                    is_set,
                    pop_count,
                    views::of(refs@),
                ),
            ),
    {
        if initial {
            self.emit_enter_before(
                ops,
                syntax_set,
                index,
                meta_scope,
                meta_content_scope,
                clear_scopes,
                is_set,
                pop_count,
                refs,
            )
        } else {
            self.emit_enter_after(
                ops,
                syntax_set,
                index,
                meta_scope,
                meta_content_scope,
                clear_scopes,
                is_set,
                pop_count,
                refs,
            )
        }
    }

    /// See [`leave_ops`].
    fn emit_leave(
        &self,
        initial: bool,
        index: usize,
        cur_context: &Context,
        n: usize,
        syntax_set: &SyntaxSet,
        ops: &mut Vec<Op>,
    ) -> (r: Result<(), ParsingError>)
        ensures
            agrees(
                r,
                final(ops)@,
                leave_ops(
                    old(ops)@,
                    syntax_set@,
                    self@.stack,
                    initial,
                    index,
                    leaving(*cur_context),
                    n,
                ),
            ),
    {
        let v2 = self.current_syntax_version(syntax_set) >= 2;
        if initial {
            if !(v2 && self.is_top_replaced(syntax_set)) {
                emit::emit_pop(ops, index, cur_context.meta_content_scope.len());
            }
            Ok(())
        } else {
            emit::emit_pop(ops, index, cur_context.meta_scope.len());
            emit::emit_restore(ops, index, cur_context.clear_scopes.is_some());
            self.emit_unwound(ops, syntax_set, index, v2, n)
        }
    }

    /// Appends the operations that the meta scopes of a match cause, before
    /// (`initial`) or after the matched text. See [`meta_ops`].
    pub fn push_meta_ops(
        &self,
        initial: bool,
        index: usize,
        cur_context: &Context,
        match_op: &MatchOperation,
        syntax_set: &SyntaxSet,
        ops: &mut Vec<Op>,
    ) -> (r: Result<(), ParsingError>)
        ensures
            agrees(
                r,
                final(ops)@,
                meta_ops(
                    old(ops)@,
                    syntax_set@,
                    self@.stack,
                    initial,
                    index,
                    *cur_context,
                    *match_op,
                ),
            ),
    {
        match match_op {
            MatchOperation::Pop(n) => self.emit_leave(
                initial,
                index,
                cur_context,
                *n,
                syntax_set,
                ops,
            ),
            MatchOperation::Push { ctx_refs, pop_count } => self.emit_enter(
                initial,
                index,
                &cur_context.meta_scope,
                &cur_context.meta_content_scope,
                cur_context.clear_scopes,
                false,
                *pop_count,
                ctx_refs,
                syntax_set,
                ops,
            ),
            MatchOperation::SetTo { ctx_refs, pop_count } => self.emit_enter(
                initial,
                index,
                &cur_context.meta_scope,
                &cur_context.meta_content_scope,
                cur_context.clear_scopes,
                true,
                *pop_count,
                ctx_refs,
                syntax_set,
                ops,
            ),
            MatchOperation::Embed { contexts, escape: _, pop_count } => {
                if *pop_count > 0 {
                    // The embed replaces the current context: the matched text
                    // sees neither of its scopes, and they do not come back.
                    if initial {
                        emit::emit_pop(ops, index, cur_context.meta_content_scope.len());
                        emit::emit_pop(ops, index, cur_context.meta_scope.len());
                    }
                    let none: Vec<Scope> = Vec::new();
                    self.emit_enter(
                        initial,
                        index,
                        &none,
                        &none,
                        cur_context.clear_scopes,
                        false,
                        *pop_count,
                        contexts,
                        syntax_set,
                        ops,
                    )
                } else {
                    self.emit_enter(
                        initial,
                        index,
                        &cur_context.meta_scope,
                        &cur_context.meta_content_scope,
                        cur_context.clear_scopes,
                        false,
                        *pop_count,
                        contexts,
                        syntax_set,
                        ops,
                    )
                }
            },
            MatchOperation::Branch { name: _, alternatives, pop_count } => self.emit_enter(
                initial,
                index,
                &cur_context.meta_scope,
                &cur_context.meta_content_scope,
                cur_context.clear_scopes,
                false,
                *pop_count,
                alternatives,
                syntax_set,
                ops,
            ),
            MatchOperation::Fail(_) => Ok(()),
            MatchOperation::Nothing => Ok(()),
        }
    }
}

} // verus!
