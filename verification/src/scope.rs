//! Scopes, the operations on a stack of scopes, and the stack itself.

use crate::views;
use vstd::prelude::*;

verus! {

broadcast use crate::views::group_views;

/// A scope such as `meta.function.java`: up to eight atoms, each the number
/// that a [`ScopeRepository`](crate::repository::ScopeRepository) gave to the
/// atom's text. `0` stands for "no atom"; the atoms come first, the zeros after.
#[derive(Clone, Copy, Debug, PartialEq, Eq, Hash, Structural)]
pub struct Scope {
    pub a0: u16,
    pub a1: u16,
    pub a2: u16,
    pub a3: u16,
    pub a4: u16,
    pub a5: u16,
    pub a6: u16,
    pub a7: u16,
}

/// The atom `meta`.
pub const META_ATOM: u16 = 1;

/// The atom `function`.
pub const FUNCTION_ATOM: u16 = 2;

/// The atom `return-type`.
pub const RETURN_TYPE_ATOM: u16 = 3;

/// The atom `java`.
pub const JAVA_ATOM: u16 = 4;

/// Whether the atom of a prefix allows the atom of a scope.
pub open spec fn atom_allows(prefix: u16, atom: u16) -> bool {
    prefix == 0 || prefix == atom
}

/// Whether `p` is a prefix of `s`, atom by atom.
pub open spec fn prefix_of(p: Scope, s: Scope) -> bool {
    &&& atom_allows(p.a0, s.a0)
    &&& atom_allows(p.a1, s.a1)
    &&& atom_allows(p.a2, s.a2)
    &&& atom_allows(p.a3, s.a3)
    &&& atom_allows(p.a4, s.a4)
    &&& atom_allows(p.a5, s.a5)
    &&& atom_allows(p.a6, s.a6)
    &&& atom_allows(p.a7, s.a7)
}

/// Whether the text of the scope starts with `meta.`.
pub open spec fn is_meta(s: Scope) -> bool {
    s.a0 == META_ATOM && s.a1 != 0
}

impl Scope {
    /// See [`prefix_of`].
    pub fn is_prefix_of(self, s: Scope) -> (r: bool)
        ensures
            r == prefix_of(self, s),
    {
        (self.a0 == 0 || self.a0 == s.a0) && (self.a1 == 0 || self.a1 == s.a1) && (self.a2 == 0
            || self.a2 == s.a2) && (self.a3 == 0 || self.a3 == s.a3) && (self.a4 == 0 || self.a4
            == s.a4) && (self.a5 == 0 || self.a5 == s.a5) && (self.a6 == 0 || self.a6 == s.a6) && (
        self.a7 == 0 || self.a7 == s.a7)
    }

    /// See [`is_meta`].
    pub fn is_meta_scope(self) -> (r: bool)
        ensures
            r == is_meta(self),
    {
        self.a0 == META_ATOM && self.a1 != 0
    }
}

/// How many scopes a `Clear` hides.
#[derive(Clone, Copy, Debug, PartialEq, Eq, Hash, Structural)]
pub enum ClearAmount {
    TopN(usize),
    All,
}

/// A change to a [`ScopeStack`].
#[derive(Clone, Copy, Debug, PartialEq, Eq, Hash, Structural)]
pub enum ScopeStackOp {
    Push(Scope),
    Pop(usize),
    /// Hides the topmost scopes, to be brought back by `Restore`.
    Clear(ClearAmount),
    /// Brings back the scopes that the latest open `Clear` hid.
    Restore,
    Noop,
}

/// An operation together with the byte offset of the line at which it applies.
pub type Op = (usize, ScopeStackOp);

/// An error of [`ScopeStack::apply`].
#[derive(Clone, Copy, Debug, PartialEq, Eq, Structural)]
pub enum ScopeError {
    /// A `Restore` without an open `Clear`.
    NoClearedScopesToRestore,
}

/// The model of a [`ScopeStack`].
#[verifier::ext_equal]
pub struct StackV {
    pub scopes: Seq<Scope>,
    pub cleared: Seq<Seq<Scope>>,
}

/// A stack of scopes, with the batches of scopes that open `Clear`s hid.
#[derive(Debug, PartialEq, Eq)]
pub struct ScopeStack {
    scopes: Vec<Scope>,
    clear_stack: Vec<Vec<Scope>>,
}

impl View for ScopeStack {
    type V = StackV;

    closed spec fn view(&self) -> StackV {
        StackV { scopes: self.scopes@, cleared: views::of(self.clear_stack@) }
    }
}

/// The smaller of two numbers.
pub open spec fn least(a: int, b: int) -> int {
    if a <= b {
        a
    } else {
        b
    }
}

/// The stack `s` after `op`; a `Restore` with nothing to restore changes nothing.
pub open spec fn applied(s: StackV, op: ScopeStackOp) -> StackV {
    let len = s.scopes.len() as int;
    match op {
        ScopeStackOp::Push(scope) => StackV { scopes: s.scopes.push(scope), ..s },
        ScopeStackOp::Pop(n) => StackV { scopes: s.scopes.subrange(0, len - least(n as int, len)), ..s },
        ScopeStackOp::Clear(ClearAmount::TopN(n)) => {
            let left = len - least(n as int, len);
            StackV {
                scopes: s.scopes.subrange(0, left),
                cleared: s.cleared.push(s.scopes.subrange(left, len)),
            }
        },
        ScopeStackOp::Clear(ClearAmount::All) => StackV {
            scopes: Seq::empty(),
            cleared: s.cleared.push(s.scopes),
        },
        ScopeStackOp::Restore => if s.cleared.len() == 0 {
            s
        } else {
            StackV { scopes: s.scopes + s.cleared.last(), cleared: s.cleared.drop_last() }
        },
        ScopeStackOp::Noop => s,
    }
}

/// The stack `s` after the operations `ops[i..]`, in order.
pub open spec fn applied_from(s: StackV, ops: Seq<Op>, i: int) -> StackV
    decreases ops.len() - i,
{
    if i < 0 || i >= ops.len() {
        s
    } else {
        applied_from(applied(s, ops[i].1), ops, i + 1)
    }
}

/// The stack `s` after all of `ops`.
pub open spec fn applied_all(s: StackV, ops: Seq<Op>) -> StackV {
    applied_from(s, ops, 0)
}

/// Whether the operations `ops[i..]` apply to the stack `s` without an error.
pub open spec fn applies(s: StackV, ops: Seq<Op>, i: int) -> bool
    decreases ops.len() - i,
{
    if i < 0 || i >= ops.len() {
        true
    } else {
        !(ops[i].1 is Restore && s.cleared.len() == 0) && applies(
            applied(s, ops[i].1),
            ops,
            i + 1,
        )
    }
}

impl Clone for ScopeStack {
    fn clone(&self) -> (r: Self)
        ensures
            r@ == self@,
    {
        let scopes = self.scopes.clone();
        let clear_stack = clone_batches(&self.clear_stack);
        let r = ScopeStack { scopes, clear_stack };
        assert(r.scopes@ =~= self.scopes@);
        r
    }
}

/// A copy of a vector of batches of scopes.
fn clone_batches(v: &Vec<Vec<Scope>>) -> (r: Vec<Vec<Scope>>)
    ensures
        views::of(r@) == views::of(v@),
{
    let mut r: Vec<Vec<Scope>> = Vec::new();
    for i in 0..v.len()
        invariant
            r@.len() == i,
            forall|k: int| 0 <= k < i ==> #[trigger] r@[k]@ == v@[k]@,
    {
        let item = v[i].clone();
        assert(item@ =~= v@[i as int]@);
        r.push(item);
    }
    assert(views::of(r@) =~= views::of(v@));
    r
}

impl ScopeStack {
    /// An empty stack.
    pub fn new() -> (r: ScopeStack)
        ensures
            r@ == (StackV { scopes: Seq::empty(), cleared: Seq::empty() }),
    {
        let r = ScopeStack { scopes: Vec::new(), clear_stack: Vec::new() };
        assert(r@ =~= StackV { scopes: Seq::empty(), cleared: Seq::empty() });
        r
    }

    /// The visible scopes, bottom first.
    pub fn as_slice(&self) -> (r: &[Scope])
        ensures
            r@ == self@.scopes,
    {
        self.scopes.as_slice()
    }

    /// Applies one operation. The stack changes as [`applied`] says; an error
    /// comes exactly for a `Restore` without an open `Clear`.
    pub fn apply(&mut self, op: &ScopeStackOp) -> (r: Result<(), ScopeError>)
        ensures
            final(self)@ == applied(old(self)@, *op),
            r is Err <==> *op == ScopeStackOp::Restore && old(self)@.cleared.len() == 0,
    {
        match *op {
            ScopeStackOp::Push(scope) => {
                self.scopes.push(scope);
            },
            ScopeStackOp::Pop(count) => {
                let len: usize = self.scopes.len();
                let k: usize = if count < len { count } else { len };
                self.scopes.truncate(len - k);
            },
            ScopeStackOp::Clear(amount) => {
                let len: usize = self.scopes.len();
                let left: usize = match amount {
                    ClearAmount::TopN(n) => if n < len { len - n } else { 0 },
                    ClearAmount::All => 0,
                };
                let cleared = self.scopes.split_off(left);
                assert(left == 0 ==> cleared@ =~= old(self).scopes@);
                self.clear_stack.push(cleared);
            },
            ScopeStackOp::Restore => {
                match self.clear_stack.pop() {
                    Some(batch) => {
                        let mut batch = batch;
                        self.scopes.append(&mut batch);
                    },
                    None => {
                        assert(self@ =~= old(self)@);
                        return Err(ScopeError::NoClearedScopesToRestore);
                    },
                }
            },
            ScopeStackOp::Noop => {},
        }
        assert(self@ =~= applied(old(self)@, *op));
        Ok(())
    }

    /// Applies every operation of a line, ignoring those that cannot apply.
    pub fn apply_all(&mut self, ops: &Vec<Op>)
        ensures
            final(self)@ == applied_all(old(self)@, ops@),
    {
        let mut i: usize = 0;
        while i < ops.len()
            invariant
                i <= ops@.len(),
                applied_from(self@, ops@, i as int) == applied_all(old(self)@, ops@),
            decreases ops@.len() - i,
        {
            let _ = self.apply(&ops[i].1);
            i += 1;
        }
    }
}

/// A `Pop` takes off what a `Push` put on.
pub proof fn law_pop_undoes_push(s: StackV, scope: Scope)
    ensures
        applied(applied(s, ScopeStackOp::Push(scope)), ScopeStackOp::Pop(1)) == s,
{
    assert(applied(applied(s, ScopeStackOp::Push(scope)), ScopeStackOp::Pop(1)) =~= s);
}

/// A `Restore` brings back what a `Clear` hid.
pub proof fn law_restore_undoes_clear(s: StackV, amount: ClearAmount)
    ensures
        applied(applied(s, ScopeStackOp::Clear(amount)), ScopeStackOp::Restore) == s,
{
    let hidden = applied(s, ScopeStackOp::Clear(amount));
    assert(hidden.cleared.drop_last() =~= s.cleared);
    assert(hidden.scopes + hidden.cleared.last() =~= s.scopes);
}

/// A `Push` puts its scope on top.
pub proof fn law_push_goes_on_top(s: StackV, scope: Scope)
    ensures
        applied(s, ScopeStackOp::Push(scope)).scopes.len() == s.scopes.len() + 1,
        applied(s, ScopeStackOp::Push(scope)).scopes.last() == scope,
        forall|i: int|
            0 <= i < s.scopes.len() ==> #[trigger] applied(s, ScopeStackOp::Push(scope)).scopes[i]
                == s.scopes[i],
{
}

/// A `Pop` takes as many scopes off the top as it says, all of them if there are fewer,
/// and hides nothing.
pub proof fn law_pop_takes_the_top(s: StackV, top: Seq<Scope>, n: usize)
    requires
        n == top.len(),
    ensures
        applied(StackV { scopes: s.scopes + top, ..s }, ScopeStackOp::Pop(n)) == s,
        n > s.scopes.len() ==> applied(s, ScopeStackOp::Pop(n)) == (StackV {
            scopes: Seq::empty(),
            ..s
        }),
{
    assert(applied(StackV { scopes: s.scopes + top, ..s }, ScopeStackOp::Pop(n)) =~= s);
    if n > s.scopes.len() {
        assert(applied(s, ScopeStackOp::Pop(n)).scopes =~= Seq::empty());
    }
}

/// A `Clear` hides as many scopes as it says, all of them if there are fewer, and leaves
/// those below.
pub proof fn law_clear_hides_the_top(s: StackV, top: Seq<Scope>, n: usize)
    requires
        n == top.len(),
    ensures
        applied(
            StackV { scopes: s.scopes + top, ..s },
            ScopeStackOp::Clear(ClearAmount::TopN(n)),
        ).scopes == s.scopes,
        n > s.scopes.len() ==> applied(
            s,
            ScopeStackOp::Clear(ClearAmount::TopN(n)),
        ).scopes.len() == 0,
        applied(s, ScopeStackOp::Clear(ClearAmount::All)).scopes.len() == 0,
        applied(s, ScopeStackOp::Noop) == s,
{
    assert(applied(
        StackV { scopes: s.scopes + top, ..s },
        ScopeStackOp::Clear(ClearAmount::TopN(n)),
    ).scopes =~= s.scopes);
}

/// Operations apply one after the other.
pub proof fn law_operations_in_sequence(s: StackV, a: Seq<Op>, b: Seq<Op>)
    ensures
        applied_all(s, a + b) == applied_all(applied_all(s, a), b),
{
    lemma_in_sequence(s, a, b, 0);
}

proof fn lemma_in_sequence(s: StackV, a: Seq<Op>, b: Seq<Op>, i: int)
    requires
        0 <= i <= a.len(),
    ensures
        applied_from(s, a + b, i) == applied_all(applied_from(s, a, i), b),
    decreases a.len() - i,
{
    if i < a.len() {
        assert((a + b)[i] == a[i]);
        lemma_in_sequence(applied(s, a[i].1), a, b, i + 1);
    } else {
        lemma_behind(s, a, b, 0);
    }
}

proof fn lemma_behind(s: StackV, a: Seq<Op>, b: Seq<Op>, k: int)
    requires
        0 <= k <= b.len(),
    ensures
        applied_from(s, a + b, a.len() + k) == applied_from(s, b, k),
    decreases b.len() - k,
{
    if k < b.len() {
        assert((a + b)[a.len() + k] == b[k]);
        lemma_behind(applied(s, b[k].1), a, b, k + 1);
    }
}

} // verus!
