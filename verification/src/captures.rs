//! The operations of a match's capture groups.

use crate::regex;
use crate::regex::Region;
use crate::scope::{Op, Scope, ScopeStackOp};
use crate::state;
use crate::state::RegionV;
use crate::syntax::CaptureMapping;
use crate::views;
use vstd::prelude::*;

verus! {

broadcast use crate::views::group_views;

/// An operation of a capture group with what decides its place among the
/// others.
#[derive(Clone, Copy, Debug)]
pub struct Mark {
    /// The byte offset at which the operation applies.
    pub pos: usize,
    /// Whether the operation ends a group.
    pub ends: bool,
    /// The length of the group, if the operation starts it.
    pub len: usize,
    pub op: ScopeStackOp,
}

/// Whether `a` may stand before `b`: positions ascend; where they are equal,
/// groups end before others start, and longer groups start first.
pub open spec fn not_after(a: Mark, b: Mark) -> bool {
    a.pos < b.pos || (a.pos == b.pos && (a.ends || (!b.ends && a.len >= b.len)))
}

/// The place of `x` in the ordered sequence `s`, after all that may stand
/// before it.
pub open spec fn place(s: Seq<Mark>, x: Mark) -> int
    decreases s.len(),
{
    if s.len() == 0 || not_after(s.last(), x) {
        s.len() as int
    } else {
        place(s.drop_last(), x)
    }
}

/// The marks of `s` in order; equals keep the order that they have in `s`.
pub open spec fn ordered(s: Seq<Mark>) -> Seq<Mark>
    decreases s.len(),
{
    if s.len() == 0 {
        s
    } else {
        let rest = ordered(s.drop_last());
        rest.insert(place(rest, s.last()), s.last())
    }
}

/// The marks of a group that spans `s..e`: none if it is empty.
pub open spec fn group_marks(acc: Seq<Mark>, s: usize, e: usize, scopes: Seq<Scope>) -> Seq<Mark> {
    if s >= e {
        acc
    } else {
        let starts = Seq::new(
            scopes.len(),
            |i: int|
                Mark {
                    pos: s,
                    ends: false,
                    len: (e - s) as usize,
                    op: ScopeStackOp::Push(scopes[i]),
                },
        );
        (acc + starts).push(
            Mark { pos: e, ends: true, len: 0, op: ScopeStackOp::Pop(scopes.len() as usize) },
        )
    }
}

/// The part of `s..e` that lies within the bounds, if there are any.
pub open spec fn clipped(s: usize, e: usize, bounds: Option<(usize, usize)>) -> (usize, usize) {
    match bounds {
        None => (s, e),
        Some((low, high)) => (
            if s >= low {
                s
            } else {
                low
            },
            if e <= high {
                e
            } else {
                high
            },
        ),
    }
}

/// `acc`, then the marks of the groups `mapping[i..]` that took part.
pub open spec fn mapping_marks(
    acc: Seq<Mark>,
    mapping: Seq<(usize, Seq<Scope>)>,
    i: int,
    region: RegionV,
    bounds: Option<(usize, usize)>,
) -> Seq<Mark>
    decreases mapping.len() - i,
{
    if i < 0 || i >= mapping.len() {
        acc
    } else {
        let next = match regex::span(region, mapping[i].0 as int) {
            Some((s, e)) => {
                let (s, e) = clipped(s, e, bounds);
                group_marks(acc, s, e, mapping[i].1)
            },
            None => acc,
        };
        mapping_marks(next, mapping, i + 1, region, bounds)
    }
}

/// The operations of marks.
pub open spec fn mark_ops(marks: Seq<Mark>) -> Seq<Op> {
    Seq::new(marks.len(), |i: int| (marks[i].pos, marks[i].op))
}

/// The bounds of a match, or none.
pub open spec fn bounds_of(region: RegionV, clip: bool) -> Option<(usize, usize)> {
    if clip {
        Some(regex::whole(region))
    } else {
        None
    }
}

/// The operations of the groups of a match, in order. With `clip`, a group that
/// reaches beyond the match, as one in a look-around may, colours only what lies
/// within it.
pub open spec fn group_ops(
    mapping: Option<Seq<(usize, Seq<Scope>)>>,
    region: RegionV,
    clip: bool,
) -> Seq<Op> {
    match mapping {
        None => Seq::empty(),
        Some(mapping) => mark_ops(
            ordered(mapping_marks(Seq::empty(), mapping, 0, region, bounds_of(region, clip))),
        ),
    }
}

fn collect_group(marks: &mut Vec<Mark>, s: usize, e: usize, scopes: &Vec<Scope>)
    ensures
        final(marks)@ == group_marks(old(marks)@, s, e, scopes@),
{
    if s < e {
        let ghost acc = marks@;
        for i in 0..scopes.len()
            invariant
                s < e,
                marks@ == acc + Seq::new(
                    i as nat,
                    |k: int|
                        Mark {
                            pos: s,
                            ends: false,
                            len: (e - s) as usize,
                            op: ScopeStackOp::Push(scopes@[k]),
                        },
                ),
        {
            let ghost before = marks@;
            marks.push(Mark { pos: s, ends: false, len: e - s, op: ScopeStackOp::Push(scopes[i]) });
            assert(marks@ =~= acc + Seq::new(
                (i + 1) as nat,
                |k: int|
                    Mark {
                        pos: s,
                        ends: false,
                        len: (e - s) as usize,
                        op: ScopeStackOp::Push(scopes@[k]),
                    },
            ));
        }
        marks.push(Mark { pos: e, ends: true, len: 0, op: ScopeStackOp::Pop(scopes.len()) });
    }
}

fn collect_marks(mapping: &CaptureMapping, region: &Region, bounds: Option<(usize, usize)>) -> (r: Vec<
    Mark,
>)
    ensures
        r@ == mapping_marks(Seq::empty(), views::of(mapping@), 0, region@, bounds),
{
    let mut marks: Vec<Mark> = Vec::new();
    let mut i: usize = 0;
    while i < mapping.len()
        invariant
            i <= mapping@.len(),
            mapping_marks(marks@, views::of(mapping@), i as int, region@, bounds) == mapping_marks(
                Seq::empty(),
                views::of(mapping@),
                0,
                region@,
                bounds,
            ),
        decreases mapping@.len() - i,
    {
        match region.pos(mapping[i].0) {
            Some((s, e)) => {
                let mut s: usize = s;
                let mut e: usize = e;
                if let Some((low, high)) = bounds {
                    if s < low {
                        s = low;
                    }
                    if e > high {
                        e = high;
                    }
                }
                collect_group(&mut marks, s, e, &mapping[i].1);
            },
            None => {},
        }
        i += 1;
    }
    marks
}

fn stands_before(a: &Mark, b: &Mark) -> (r: bool)
    ensures
        r == not_after(*a, *b),
{
    a.pos < b.pos || (a.pos == b.pos && (a.ends || (!b.ends && a.len >= b.len)))
}

fn insert_mark(marks: &mut Vec<Mark>, x: Mark)
    ensures
        final(marks)@ == old(marks)@.insert(place(old(marks)@, x), x),
{
    let mut at: usize = marks.len();
    assert(marks@.subrange(0, at as int) =~= marks@);
    while at > 0 && !stands_before(&marks[at - 1], &x)
        invariant
            at <= marks@.len(),
            place(marks@.subrange(0, at as int), x) == place(marks@, x),
        decreases at,
    {
        assert(marks@.subrange(0, at as int).drop_last() =~= marks@.subrange(0, at - 1));
        at -= 1;
    }
    marks.insert(at, x);
}

fn sort_marks(marks: &Vec<Mark>) -> (r: Vec<Mark>)
    ensures
        r@ == ordered(marks@),
{
    let mut r: Vec<Mark> = Vec::new();
    assert(marks@.subrange(0, 0) =~= Seq::<Mark>::empty());
    for i in 0..marks.len()
        invariant
            r@ == ordered(marks@.subrange(0, i as int)),
    {
        insert_mark(&mut r, marks[i]);
        assert(marks@.subrange(0, i + 1).drop_last() =~= marks@.subrange(0, i as int));
    }
    assert(marks@.subrange(0, marks@.len() as int) =~= marks@);
    r
}

/// The ordered operations of the groups of a match. See [`group_ops`].
pub fn build_capture_ops(mapping: &Option<CaptureMapping>, region: &Region, clip: bool) -> (r:
    Vec<Op>)
    ensures
        r@ == group_ops(state::mapping_view(*mapping), region@, clip),
{
    let mut ops: Vec<Op> = Vec::new();
    if let Some(mapping) = mapping {
        let bounds = if clip {
            Some(region.whole_match())
        } else {
            None
        };
        let marks = sort_marks(&collect_marks(mapping, region, bounds));
        for i in 0..marks.len()
            invariant
                ops@ == mark_ops(marks@).subrange(0, i as int),
        {
            ops.push((marks[i].pos, marks[i].op));
            assert(ops@ =~= mark_ops(marks@).subrange(0, i + 1));
        }
        assert(ops@ =~= mark_ops(marks@));
    }
    ops
}

/// Whether the marks are in order.
pub open spec fn in_order(s: Seq<Mark>) -> bool {
    forall|i: int, j: int| 0 <= i < j < s.len() ==> not_after(#[trigger] s[i], #[trigger] s[j])
}

/// Whether a mark lies within the bounds and pushes or pops scopes.
pub open spec fn fits(m: Mark, low: usize, high: usize) -> bool {
    low <= m.pos <= high && (m.op is Push || m.op is Pop)
}

/// Whether this holds of all marks.
pub open spec fn within(s: Seq<Mark>, low: usize, high: usize) -> bool {
    forall|i: int| 0 <= i < s.len() ==> fits(#[trigger] s[i], low, high)
}

proof fn lemma_place(s: Seq<Mark>, x: Mark)
    requires
        in_order(s),
    ensures
        0 <= place(s, x) <= s.len(),
        forall|i: int| 0 <= i < place(s, x) ==> not_after(#[trigger] s[i], x),
        forall|i: int| place(s, x) <= i < s.len() ==> not_after(x, #[trigger] s[i]),
    decreases s.len(),
{
    if s.len() > 0 {
        let last = s.last();
        if not_after(last, x) {
            assert forall|i: int| 0 <= i < s.len() implies not_after(#[trigger] s[i], x) by {
                if i < s.len() - 1 {
                    assert(not_after(s[i], s[s.len() - 1]));
                }
            }
        } else {
            let rest = s.drop_last();
            assert forall|i: int, j: int| 0 <= i < j < rest.len() implies not_after(
                #[trigger] rest[i],
                #[trigger] rest[j],
            ) by {
                assert(rest[i] == s[i] && rest[j] == s[j]);
            }
            lemma_place(rest, x);
            assert forall|i: int| 0 <= i < place(s, x) implies not_after(#[trigger] s[i], x) by {
                assert(rest[i] == s[i]);
            }
            assert forall|i: int| place(s, x) <= i < s.len() implies not_after(
                x,
                #[trigger] s[i],
            ) by {
                if i < rest.len() {
                    assert(rest[i] == s[i]);
                }
            }
        }
    }
}

proof fn lemma_ordered(s: Seq<Mark>)
    ensures
        in_order(ordered(s)),
        ordered(s).len() == s.len(),
        ordered(s).to_multiset() == s.to_multiset(),
    decreases s.len(),
{
    broadcast use vstd::seq_lib::group_to_multiset_ensures;

    if s.len() > 0 {
        let rest = ordered(s.drop_last());
        let x = s.last();
        lemma_ordered(s.drop_last());
        lemma_place(rest, x);
        let p = place(rest, x);
        let r = rest.insert(p, x);
        assert forall|i: int, j: int| 0 <= i < j < r.len() implies not_after(
            #[trigger] r[i],
            #[trigger] r[j],
        ) by {
            if i < p && j < p {
                assert(r[i] == rest[i] && r[j] == rest[j]);
            } else if i < p && j == p {
                assert(r[i] == rest[i]);
            } else if i < p {
                assert(r[i] == rest[i] && r[j] == rest[j - 1]);
            } else if i == p {
                assert(r[j] == rest[j - 1]);
            } else {
                assert(r[i] == rest[i - 1] && r[j] == rest[j - 1]);
            }
        }
        vstd::seq_lib::to_multiset_insert(rest, p, x);
        assert(s =~= s.drop_last().push(x));
    }
}

proof fn lemma_ordered_within(s: Seq<Mark>, low: usize, high: usize)
    requires
        within(s, low, high),
    ensures
        within(ordered(s), low, high),
    decreases s.len(),
{
    if s.len() > 0 {
        let front = s.drop_last();
        let rest = ordered(front);
        let x = s.last();
        assert forall|i: int| 0 <= i < front.len() implies fits(#[trigger] front[i], low, high) by {
            assert(front[i] == s[i]);
        }
        lemma_ordered(front);
        lemma_ordered_within(front, low, high);
        lemma_place(rest, x);
        let p = place(rest, x);
        let r = rest.insert(p, x);
        assert(x == s[s.len() - 1]);
        assert forall|i: int| 0 <= i < r.len() implies fits(#[trigger] r[i], low, high) by {
            if i < p {
                assert(r[i] == rest[i]);
            } else if i > p {
                assert(r[i] == rest[i - 1]);
            }
        }
    }
}

proof fn lemma_marks_within(
    acc: Seq<Mark>,
    mapping: Seq<(usize, Seq<Scope>)>,
    i: int,
    region: RegionV,
    bounds: Option<(usize, usize)>,
    low: usize,
    high: usize,
)
    requires
        within(acc, low, high),
        match bounds {
            Some(b) => b == (low, high),
            None => low == 0 && high == usize::MAX,
        },
    ensures
        within(mapping_marks(acc, mapping, i, region, bounds), low, high),
    decreases mapping.len() - i,
{
    if 0 <= i < mapping.len() {
        let next = match regex::span(region, mapping[i].0 as int) {
            Some((s, e)) => {
                let (s, e) = clipped(s, e, bounds);
                group_marks(acc, s, e, mapping[i].1)
            },
            None => acc,
        };
        assert forall|k: int| 0 <= k < next.len() implies fits(#[trigger] next[k], low, high) by {
            if k < acc.len() {
                assert(next[k] == acc[k]);
            }
        }
        lemma_marks_within(next, mapping, i + 1, region, bounds, low, high);
    }
}

/// The order of marks: positions ascend; where they are equal, groups end before
/// others start, and longer groups start first. Nothing is lost, nothing is added.
pub proof fn law_marks_are_ordered(marks: Seq<Mark>)
    ensures
        in_order(ordered(marks)),
        ordered(marks).to_multiset() == marks.to_multiset(),
{
    lemma_ordered(marks);
}

/// The operations of a match's groups come in that order.
pub proof fn law_group_ops_in_order(
    mapping: Option<Seq<(usize, Seq<Scope>)>>,
    region: RegionV,
    clip: bool,
)
    ensures
        ({
            let ops = group_ops(mapping, region, clip);
            &&& forall|i: int, j: int|
                0 <= i < j < ops.len() ==> (#[trigger] ops[i]).0 <= (#[trigger] ops[j]).0
            &&& mapping matches Some(m) ==> {
                let marks = mapping_marks(Seq::empty(), m, 0, region, bounds_of(region, clip));
                ops == mark_ops(ordered(marks)) && in_order(ordered(marks))
            }
        }),
{
    if let Some(m) = mapping {
        let marks = mapping_marks(Seq::empty(), m, 0, region, bounds_of(region, clip));
        lemma_ordered(marks);
        let ops = group_ops(mapping, region, clip);
        assert forall|i: int, j: int| 0 <= i < j < ops.len() implies (#[trigger] ops[i]).0 <= (
        #[trigger] ops[j]).0 by {
            assert(not_after(ordered(marks)[i], ordered(marks)[j]));
        }
    }
}

/// The groups of a match push and pop scopes; where they are clipped, they colour
/// nothing outside it.
pub proof fn law_clipped_groups_stay_within(
    mapping: Option<Seq<(usize, Seq<Scope>)>>,
    region: RegionV,
    clip: bool,
)
    ensures
        ({
            let ops = group_ops(mapping, region, clip);
            let (first, last) = regex::whole(region);
            forall|i: int|
                0 <= i < ops.len() ==> {
                    &&& clip ==> first <= (#[trigger] ops[i]).0 <= last
                    &&& ops[i].1 is Push || ops[i].1 is Pop
                }
        }),
{
    if let Some(m) = mapping {
        let bounds = bounds_of(region, clip);
        let (low, high) = match bounds {
            Some(b) => b,
            None => (0, usize::MAX),
        };
        let marks = mapping_marks(Seq::empty(), m, 0, region, bounds);
        lemma_marks_within(Seq::empty(), m, 0, region, bounds, low, high);
        lemma_ordered_within(marks, low, high);
        let ops = group_ops(mapping, region, clip);
        assert forall|i: int| 0 <= i < ops.len() implies low <= (#[trigger] ops[i]).0 <= high && (
        ops[i].1 is Push || ops[i].1 is Pop) by {
            assert(fits(ordered(marks)[i], low, high));
        }
    }
}

} // verus!
