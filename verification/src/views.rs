//! Sequences of views: the mathematical model of a vector of viewed items.

use vstd::prelude::*;

verus! {

/// The sequence of the views of the items of `s`.
pub open spec fn of<T: View>(s: Seq<T>) -> Seq<T::V> {
    Seq::new(s.len(), |i: int| s[i].view())
}

pub broadcast proof fn lemma_views_len<T: View>(s: Seq<T>)
    ensures
        #[trigger] of(s).len() == s.len(),
{
}

pub broadcast proof fn lemma_views_empty<T: View>(s: Seq<T>)
    requires
        s.len() == 0,
    ensures
        #[trigger] of(s) == Seq::<T::V>::empty(),
{
    assert(of(s) =~= Seq::<T::V>::empty());
}

pub broadcast proof fn lemma_views_push<T: View>(s: Seq<T>, x: T)
    ensures
        #[trigger] of(s.push(x)) == of(s).push(x.view()),
{
    assert(of(s.push(x)) =~= of(s).push(x.view()));
}

pub broadcast proof fn lemma_views_subrange<T: View>(s: Seq<T>, a: int, b: int)
    requires
        0 <= a <= b <= s.len(),
    ensures
        #[trigger] of(s.subrange(a, b)) == of(s).subrange(a, b),
{
    assert(of(s.subrange(a, b)) =~= of(s).subrange(a, b));
}

pub broadcast proof fn lemma_views_update<T: View>(s: Seq<T>, i: int, x: T)
    requires
        0 <= i < s.len(),
    ensures
        #[trigger] of(s.update(i, x)) == of(s).update(i, x.view()),
{
    assert(of(s.update(i, x)) =~= of(s).update(i, x.view()));
}

pub broadcast proof fn lemma_views_remove<T: View>(s: Seq<T>, i: int)
    requires
        0 <= i < s.len(),
    ensures
        #[trigger] of(s.remove(i)) == of(s).remove(i),
{
    assert(of(s.remove(i)) =~= of(s).remove(i));
}

pub broadcast proof fn lemma_views_add<T: View>(s: Seq<T>, t: Seq<T>)
    ensures
        #[trigger] of(s + t) == of(s) + of(t),
{
    assert(of(s + t) =~= of(s) + of(t));
}

pub broadcast group group_views {
    lemma_views_len,
    lemma_views_empty,
    lemma_views_push,
    lemma_views_subrange,
    lemma_views_update,
    lemma_views_remove,
    lemma_views_add,
}

/// The view of an optional value.
pub open spec fn opt<T: View>(o: Option<T>) -> Option<T::V> {
    match o {
        Some(x) => Some(x.view()),
        None => None,
    }
}

/// What the next item adds to a filtered prefix.
pub proof fn lemma_filter_step<A>(s: Seq<A>, j: int, p: spec_fn(A) -> bool)
    requires
        0 <= j < s.len(),
    ensures
        s.subrange(0, j + 1).filter(p) == if p(s[j]) {
            s.subrange(0, j).filter(p).push(s[j])
        } else {
            s.subrange(0, j).filter(p)
        },
{
    reveal(Seq::filter);
    assert(s.subrange(0, j + 1).drop_last() =~= s.subrange(0, j));
}

} // verus!
