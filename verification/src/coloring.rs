//! What the groups of a match colour: at every byte of the line, the scopes of the
//! groups that hold it, outer groups first.

use crate::captures;
use crate::captures::Mark;
use crate::scope;
use crate::scope::{Op, Scope, ScopeStackOp, StackV};
use crate::state::RegionV;
use vstd::prelude::*;

verus! {

/// A scope stack with nothing on it.
pub open spec fn bare() -> StackV {
    StackV { scopes: Seq::empty(), cleared: Seq::empty() }
}

/// The bytes to which the mapping's entry `i` gives its scopes: those of its group,
/// within the match if `clip`. `None` if the group took no part, or holds no byte.
pub open spec fn reaches(
    mapping: Seq<(usize, Seq<Scope>)>,
    region: RegionV,
    clip: bool,
    i: int,
) -> Option<(int, int)> {
    let n = mapping[i].0;
    if n < region.len() && region[n as int] is Some {
        let (s, e) = region[n as int]->0;
        let (low, high) = region[0]->0;
        let first: int = if clip && s < low {
            low as int
        } else {
            s as int
        };
        let end: int = if clip && e > high {
            high as int
        } else {
            e as int
        };
        if first < end {
            Some((first, end))
        } else {
            None
        }
    } else {
        None
    }
}

/// Whether entry `i` gives its scopes to the byte `b`.
pub open spec fn holds(
    mapping: Seq<(usize, Seq<Scope>)>,
    region: RegionV,
    clip: bool,
    i: int,
    b: int,
) -> bool {
    reaches(mapping, region, clip, i) matches Some((s, e)) && s <= b < e
}

/// Whether two stretches of bytes are apart, or one lies within the other.
pub open spec fn apart_or_nested(a: (int, int), b: (int, int)) -> bool {
    a.1 <= b.0 || b.1 <= a.0 || (a.0 <= b.0 && b.1 <= a.1) || (b.0 <= a.0 && a.1 <= b.1)
}

/// Whether this holds of all groups. Those outside look-arounds are always so.
pub open spec fn well_nested(
    mapping: Seq<(usize, Seq<Scope>)>,
    region: RegionV,
    clip: bool,
) -> bool {
    forall|i: int, j: int|
        #![trigger reaches(mapping, region, clip, i), reaches(mapping, region, clip, j)]
        0 <= i < mapping.len() && 0 <= j < mapping.len() ==> (reaches(
            mapping,
            region,
            clip,
            i,
        ) matches Some(a) ==> (reaches(mapping, region, clip, j) matches Some(b)
            ==> apart_or_nested(a, b)))
}

/// The sum of `f` over the first `n` numbers.
pub open spec fn tally(n: int, f: spec_fn(int) -> int) -> int
    decreases n,
{
    if n <= 0 {
        0
    } else {
        tally(n - 1, f) + f(n - 1)
    }
}

/// How many scopes the byte `b` gets from the groups together.
pub open spec fn height(
    mapping: Seq<(usize, Seq<Scope>)>,
    region: RegionV,
    clip: bool,
    b: int,
) -> int {
    tally(
        mapping.len() as int,
        |j: int|
            if holds(mapping, region, clip, j, b) {
                mapping[j].1.len() as int
            } else {
                0
            },
    )
}

/// Whether entry `j` colours from further out than entry `i`: its group is longer,
/// or as long and listed earlier.
pub open spec fn outside(
    mapping: Seq<(usize, Seq<Scope>)>,
    region: RegionV,
    clip: bool,
    j: int,
    i: int,
) -> bool {
    let (s, e) = reaches(mapping, region, clip, i)->0;
    reaches(mapping, region, clip, j) matches Some((t, f)) && (f - t > e - s || (f - t == e - s && j
        < i))
}

/// How many scopes the byte `b` gets from groups further out than that of entry `i`.
pub open spec fn height_below(
    mapping: Seq<(usize, Seq<Scope>)>,
    region: RegionV,
    clip: bool,
    i: int,
    b: int,
) -> int {
    tally(
        mapping.len() as int,
        |j: int|
            if holds(mapping, region, clip, j, b) && outside(mapping, region, clip, j, i) {
                mapping[j].1.len() as int
            } else {
                0
            },
    )
}

proof fn lemma_tally_same(n: int, f: spec_fn(int) -> int, g: spec_fn(int) -> int)
    requires
        forall|i: int| 0 <= i < n ==> #[trigger] f(i) == g(i),
    ensures
        tally(n, f) == tally(n, g),
    decreases n,
{
    if n > 0 {
        lemma_tally_same(n - 1, f, g);
        assert(f(n - 1) == g(n - 1));
    }
}

proof fn lemma_tally_most(n: int, f: spec_fn(int) -> int, g: spec_fn(int) -> int)
    requires
        forall|i: int| 0 <= i < n ==> #[trigger] f(i) <= g(i),
    ensures
        tally(n, f) <= tally(n, g),
    decreases n,
{
    if n > 0 {
        lemma_tally_most(n - 1, f, g);
        assert(f(n - 1) <= g(n - 1));
    }
}

proof fn lemma_tally_sum(
    n: int,
    f: spec_fn(int) -> int,
    g: spec_fn(int) -> int,
    h: spec_fn(int) -> int,
)
    requires
        forall|i: int| 0 <= i < n ==> #[trigger] h(i) == f(i) + g(i),
    ensures
        tally(n, h) == tally(n, f) + tally(n, g),
    decreases n,
{
    if n > 0 {
        lemma_tally_sum(n - 1, f, g, h);
        assert(h(n - 1) == f(n - 1) + g(n - 1));
    }
}

proof fn lemma_tally_first(n: int, m: int, f: spec_fn(int) -> int, g: spec_fn(int) -> int)
    requires
        0 <= n <= m,
        forall|i: int|
            0 <= i < m ==> #[trigger] g(i) == if i < n {
                f(i)
            } else {
                0
            },
    ensures
        tally(m, g) == tally(n, f),
    decreases m,
{
    if m > n {
        assert(g(m - 1) == 0);
        lemma_tally_first(n, m - 1, f, g);
    } else {
        assert forall|i: int| 0 <= i < n implies #[trigger] f(i) == g(i) by {
            assert(g(i) == f(i));
        }
        lemma_tally_same(n, f, g);
    }
}

/// Which marks come first, by position, whether they end a group, and length.
pub type Cut = spec_fn((usize, bool, usize)) -> bool;

spec fn key(m: Mark) -> (usize, bool, usize) {
    (m.pos, m.ends, m.len)
}

spec fn weight(m: Mark) -> int {
    match m.op {
        ScopeStackOp::Push(_) => 1,
        ScopeStackOp::Pop(n) => -(n as int),
        _ => 0,
    }
}

spec fn total(s: Seq<Mark>, c: Cut) -> int
    decreases s.len(),
{
    if s.len() == 0 {
        0
    } else {
        total(s.drop_last(), c) + if c(key(s.last())) {
            weight(s.last())
        } else {
            0
        }
    }
}

spec fn climbed(s: Seq<Mark>, n: int) -> int
    decreases n,
{
    if n <= 0 {
        0
    } else {
        climbed(s, n - 1) + weight(s[n - 1])
    }
}

spec fn plain(m: Mark) -> bool {
    if m.ends {
        m.op is Pop
    } else {
        m.op is Push
    }
}

spec fn all_plain(s: Seq<Mark>) -> bool {
    forall|k: int| 0 <= k < s.len() ==> plain(#[trigger] s[k])
}

spec fn picked(s: Seq<Mark>, k: (usize, bool, usize)) -> Seq<ScopeStackOp>
    decreases s.len(),
{
    if s.len() == 0 {
        Seq::empty()
    } else if key(s.last()) == k {
        picked(s.drop_last(), k).push(s.last().op)
    } else {
        picked(s.drop_last(), k)
    }
}

proof fn lemma_place(s: Seq<Mark>, x: Mark)
    ensures
        0 <= captures::place(s, x) <= s.len(),
        forall|k: int|
            captures::place(s, x) <= k < s.len() ==> !captures::not_after(#[trigger] s[k], x),
    decreases s.len(),
{
    if s.len() > 0 && !captures::not_after(s.last(), x) {
        lemma_place(s.drop_last(), x);
        assert forall|k: int| captures::place(s, x) <= k < s.len() implies !captures::not_after(
            #[trigger] s[k],
            x,
        ) by {
            if k < s.len() - 1 {
                assert(s.drop_last()[k] == s[k]);
            }
        }
    }
}

proof fn lemma_total_insert(s: Seq<Mark>, p: int, x: Mark, c: Cut)
    requires
        0 <= p <= s.len(),
    ensures
        total(s.insert(p, x), c) == total(s, c) + if c(key(x)) {
            weight(x)
        } else {
            0
        },
    decreases s.len(),
{
    let r = s.insert(p, x);
    if p == s.len() {
        assert(r.drop_last() =~= s);
    } else {
        assert(r.drop_last() =~= s.drop_last().insert(p, x));
        assert(r.last() == s.last());
        lemma_total_insert(s.drop_last(), p, x, c);
    }
}

proof fn lemma_picked_insert(s: Seq<Mark>, p: int, x: Mark, k: (usize, bool, usize))
    requires
        0 <= p <= s.len(),
        key(x) == k ==> forall|j: int| p <= j < s.len() ==> key(#[trigger] s[j]) != k,
    ensures
        picked(s.insert(p, x), k) == if key(x) == k {
            picked(s, k).push(x.op)
        } else {
            picked(s, k)
        },
    decreases s.len(),
{
    let r = s.insert(p, x);
    if p == s.len() {
        assert(r.drop_last() =~= s);
    } else {
        assert(r.drop_last() =~= s.drop_last().insert(p, x));
        assert(r.last() == s.last());
        if key(x) == k {
            assert(key(s[s.len() - 1]) != k);
            assert forall|j: int| p <= j < s.drop_last().len() implies key(
                #[trigger] s.drop_last()[j],
            ) != k by {
                assert(s.drop_last()[j] == s[j]);
            }
        }
        lemma_picked_insert(s.drop_last(), p, x, k);
    }
}

proof fn lemma_ordered(s: Seq<Mark>, c: Cut, k: (usize, bool, usize))
    requires
        all_plain(s),
    ensures
        total(captures::ordered(s), c) == total(s, c),
        picked(captures::ordered(s), k) == picked(s, k),
        all_plain(captures::ordered(s)),
    decreases s.len(),
{
    if s.len() > 0 {
        let rest = captures::ordered(s.drop_last());
        let x = s.last();
        assert(plain(s[s.len() - 1]));
        assert forall|j: int| 0 <= j < s.drop_last().len() implies plain(
            #[trigger] s.drop_last()[j],
        ) by {
            assert(s.drop_last()[j] == s[j]);
        }
        lemma_ordered(s.drop_last(), c, k);
        lemma_place(rest, x);
        let p = captures::place(rest, x);
        lemma_total_insert(rest, p, x, c);
        lemma_picked_insert(rest, p, x, k);
        let r = rest.insert(p, x);
        assert forall|j: int| 0 <= j < r.len() implies plain(#[trigger] r[j]) by {
            if j < p {
                assert(r[j] == rest[j]);
            } else if j > p {
                assert(r[j] == rest[j - 1]);
            }
        }
    }
}

proof fn lemma_total_prefix(s: Seq<Mark>, n: int, c: Cut)
    requires
        0 <= n <= s.len(),
        forall|k: int| 0 <= k < n ==> c(key(#[trigger] s[k])),
        forall|k: int| n <= k < s.len() ==> !c(key(#[trigger] s[k])),
    ensures
        total(s, c) == climbed(s, n),
    decreases s.len(),
{
    if s.len() > 0 {
        let f = s.drop_last();
        assert forall|k: int| 0 <= k < f.len() implies f[k] == #[trigger] s[k] by {}
        if n == s.len() {
            lemma_total_prefix(f, n - 1, c);
            lemma_climbed_same(f, s, n - 1);
            assert(c(key(s[n - 1])));
        } else {
            lemma_total_prefix(f, n, c);
            lemma_climbed_same(f, s, n);
            assert(!c(key(s[s.len() - 1])));
        }
    }
}

proof fn lemma_climbed_same(a: Seq<Mark>, b: Seq<Mark>, n: int)
    requires
        n <= a.len(),
        n <= b.len(),
        forall|k: int| 0 <= k < n ==> #[trigger] a[k] == b[k],
    ensures
        climbed(a, n) == climbed(b, n),
    decreases n,
{
    if n > 0 {
        lemma_climbed_same(a, b, n - 1);
        assert(a[n - 1] == b[n - 1]);
    }
}

/// Where the marks that come first end, `c` asking of each mark no more than of
/// those before it.
proof fn lemma_cut(s: Seq<Mark>, c: Cut) -> (n: int)
    requires
        forall|i: int, j: int|
            0 <= i < j < s.len() ==> (c(key(#[trigger] s[j])) ==> c(key(#[trigger] s[i]))),
    ensures
        0 <= n <= s.len(),
        forall|k: int| 0 <= k < n ==> c(key(#[trigger] s[k])),
        forall|k: int| n <= k < s.len() ==> !c(key(#[trigger] s[k])),
        total(s, c) == climbed(s, n),
    decreases s.len(),
{
    let n = lemma_cut_point(s, c);
    lemma_total_prefix(s, n, c);
    n
}

proof fn lemma_cut_point(s: Seq<Mark>, c: Cut) -> (n: int)
    requires
        forall|i: int, j: int|
            0 <= i < j < s.len() ==> (c(key(#[trigger] s[j])) ==> c(key(#[trigger] s[i]))),
    ensures
        0 <= n <= s.len(),
        forall|k: int| 0 <= k < n ==> c(key(#[trigger] s[k])),
        forall|k: int| n <= k < s.len() ==> !c(key(#[trigger] s[k])),
    decreases s.len(),
{
    if s.len() == 0 {
        0
    } else if c(key(s[s.len() - 1])) {
        s.len() as int
    } else {
        let f = s.drop_last();
        assert forall|i: int, j: int| 0 <= i < j < f.len() && c(key(#[trigger] f[j])) implies c(key(#[trigger] f[i])) by {
            assert(f[i] == s[i] && f[j] == s[j]);
        }
        let n = lemma_cut_point(f, c);
        assert forall|k: int| 0 <= k < n implies c(key(#[trigger] s[k])) by {
            assert(f[k] == s[k]);
        }
        assert forall|k: int| n <= k < s.len() implies !c(key(#[trigger] s[k])) by {
            if k < f.len() {
                assert(f[k] == s[k]);
            }
        }
        n
    }
}

spec fn share(
    mapping: Seq<(usize, Seq<Scope>)>,
    region: RegionV,
    clip: bool,
    c: Cut,
    j: int,
) -> int {
    match reaches(mapping, region, clip, j) {
        None => 0,
        Some((s, e)) => (if c((s as usize, false, (e - s) as usize)) {
            mapping[j].1.len() as int
        } else {
            0
        }) - (if c((e as usize, true, 0)) {
            mapping[j].1.len() as int
        } else {
            0
        }),
    }
}

/// What the law asks of a mapping and a match: there is a match, and the lists of
/// scopes are no longer than a list can be.
pub open spec fn sound(mapping: Seq<(usize, Seq<Scope>)>, region: RegionV) -> bool {
    &&& region.len() > 0 && region[0] is Some
    &&& forall|i: int| 0 <= i < mapping.len() ==> (#[trigger] mapping[i]).1.len() <= usize::MAX
}

proof fn lemma_starts(acc: Seq<Mark>, s: usize, l: usize, scopes: Seq<Scope>, n: int, c: Cut)
    requires
        0 <= n <= scopes.len(),
        all_plain(acc),
    ensures
        ({
            let starts = Seq::new(
                n as nat,
                |i: int| Mark { pos: s, ends: false, len: l, op: ScopeStackOp::Push(scopes[i]) },
            );
            let r = acc + starts;
            &&& all_plain(r)
            &&& total(r, c) == total(acc, c) + if c((s, false, l)) {
                n
            } else {
                0
            }
            &&& forall|k: (usize, bool, usize)| #[trigger]
                picked(r, k) == if k == (s, false, l) {
                    picked(acc, k) + Seq::new(n as nat, |i: int| ScopeStackOp::Push(scopes[i]))
                } else {
                    picked(acc, k)
                }
        }),
    decreases n,
{
    let starts = Seq::new(
        n as nat,
        |i: int| Mark { pos: s, ends: false, len: l, op: ScopeStackOp::Push(scopes[i]) },
    );
    let r = acc + starts;
    if n == 0 {
        assert(r =~= acc);
        assert forall|k: (usize, bool, usize)| #[trigger]
            picked(r, k) == if k == (s, false, l) {
                picked(acc, k) + Seq::new(n as nat, |i: int| ScopeStackOp::Push(scopes[i]))
            } else {
                picked(acc, k)
            } by {
            assert(picked(acc, k) + Seq::new(0, |i: int| ScopeStackOp::Push(scopes[i]))
                =~= picked(acc, k));
        }
    } else {
        lemma_starts(acc, s, l, scopes, n - 1, c);
        let before = acc + Seq::new(
            (n - 1) as nat,
            |i: int| Mark { pos: s, ends: false, len: l, op: ScopeStackOp::Push(scopes[i]) },
        );
        assert(r.drop_last() =~= before);
        assert forall|j: int| 0 <= j < r.len() implies plain(#[trigger] r[j]) by {
            if j < before.len() {
                assert(r[j] == before[j]);
            }
        }
        assert forall|k: (usize, bool, usize)| #[trigger]
            picked(r, k) == if k == (s, false, l) {
                picked(acc, k) + Seq::new(n as nat, |i: int| ScopeStackOp::Push(scopes[i]))
            } else {
                picked(acc, k)
            } by {
            let b = picked(before, k);
            if k == (s, false, l) {
                assert(b.push(ScopeStackOp::Push(scopes[n - 1])) =~= picked(acc, k) + Seq::new(
                    n as nat,
                    |i: int| ScopeStackOp::Push(scopes[i]),
                ));
            }
        }
    }
}

proof fn lemma_group(acc: Seq<Mark>, s: usize, e: usize, scopes: Seq<Scope>, c: Cut)
    requires
        s < e,
        all_plain(acc),
        scopes.len() <= usize::MAX,
    ensures
        ({
            let r = captures::group_marks(acc, s, e, scopes);
            let l = (e - s) as usize;
            &&& all_plain(r)
            &&& total(r, c) == total(acc, c) + (if c((s, false, l)) {
                scopes.len() as int
            } else {
                0
            }) - (if c((e, true, 0)) {
                scopes.len() as int
            } else {
                0
            })
            &&& forall|k: (usize, bool, usize)|
                !k.1 ==> #[trigger] picked(r, k) == if k == (s, false, l) {
                    picked(acc, k) + Seq::new(
                        scopes.len(),
                        |i: int| ScopeStackOp::Push(scopes[i]),
                    )
                } else {
                    picked(acc, k)
                }
        }),
{
    let r = captures::group_marks(acc, s, e, scopes);
    let l = (e - s) as usize;
    lemma_starts(acc, s, l, scopes, scopes.len() as int, c);
    let before = acc + Seq::new(
        scopes.len(),
        |i: int| Mark { pos: s, ends: false, len: l, op: ScopeStackOp::Push(scopes[i]) },
    );
    assert(r.drop_last() =~= before);
    assert forall|j: int| 0 <= j < r.len() implies plain(#[trigger] r[j]) by {
        if j < before.len() {
            assert(r[j] == before[j]);
        }
    }
    assert forall|k: (usize, bool, usize)| !k.1 implies #[trigger] picked(r, k) == if k == (
        s,
        false,
        l,
    ) {
        picked(acc, k) + Seq::new(scopes.len(), |i: int| ScopeStackOp::Push(scopes[i]))
    } else {
        picked(acc, k)
    } by {
        assert(picked(r, k) == picked(before, k));
    }
}

/// One entry's marks: none where it reaches no byte.
proof fn lemma_entry(
    acc: Seq<Mark>,
    mapping: Seq<(usize, Seq<Scope>)>,
    region: RegionV,
    clip: bool,
    i: int,
)
    requires
        sound(mapping, region),
        0 <= i < mapping.len(),
    ensures
        captures::mapping_marks(acc, mapping, i, region, captures::bounds_of(region, clip))
            == captures::mapping_marks(
            match reaches(mapping, region, clip, i) {
                None => acc,
                Some((s, e)) => captures::group_marks(acc, s as usize, e as usize, mapping[i].1),
            },
            mapping,
            i + 1,
            region,
            captures::bounds_of(region, clip),
        ),
{
}

spec fn all_entries(
    mapping: Seq<(usize, Seq<Scope>)>,
    region: RegionV,
    clip: bool,
    acc: Seq<Mark>,
    i: int,
) -> Seq<Mark> {
    captures::mapping_marks(acc, mapping, i, region, captures::bounds_of(region, clip))
}

spec fn same_span(
    mapping: Seq<(usize, Seq<Scope>)>,
    region: RegionV,
    clip: bool,
    k: (usize, bool, usize),
    j: int,
) -> int {
    if reaches(mapping, region, clip, j) matches Some((s, e)) && s == k.0 && e - s == k.2 {
        mapping[j].1.len() as int
    } else {
        0
    }
}

spec fn sames(
    mapping: Seq<(usize, Seq<Scope>)>,
    region: RegionV,
    clip: bool,
    k: (usize, bool, usize),
    n: int,
) -> int {
    tally(n, |j: int| same_span(mapping, region, clip, k, j))
}

spec fn shares(
    mapping: Seq<(usize, Seq<Scope>)>,
    region: RegionV,
    clip: bool,
    c: Cut,
    n: int,
) -> int {
    tally(n, |j: int| share(mapping, region, clip, c, j))
}

/// Whether the scope `t` of entry `j`, if its span is the one of `k`, is at its place
/// among those of that span.
spec fn slotted(
    mapping: Seq<(usize, Seq<Scope>)>,
    region: RegionV,
    clip: bool,
    k: (usize, bool, usize),
    found: Seq<ScopeStackOp>,
    j: int,
    t: int,
) -> bool {
    0 <= t < mapping[j].1.len() && (reaches(mapping, region, clip, j) matches Some((s, e)) && s
        == k.0 && e - s == k.2) ==> {
        let at = sames(mapping, region, clip, k, j) + t;
        0 <= at < found.len() && found[at] == ScopeStackOp::Push(mapping[j].1[t])
    }
}

proof fn lemma_entries(
    mapping: Seq<(usize, Seq<Scope>)>,
    region: RegionV,
    clip: bool,
    acc: Seq<Mark>,
    i: int,
    c: Cut,
    k: (usize, bool, usize),
)
    requires
        sound(mapping, region),
        0 <= i <= mapping.len(),
        all_plain(acc),
        !k.1,
        total(acc, c) == shares(mapping, region, clip, c, i),
        picked(acc, k).len() == sames(mapping, region, clip, k, i),
        forall|j: int, t: int| 0 <= j < i ==> #[trigger] slotted(mapping, region, clip, k, picked(acc, k), j, t),
    ensures
        ({
            let all = all_entries(mapping, region, clip, acc, i);
            let n = mapping.len() as int;
            &&& all_plain(all)
            &&& total(all, c) == shares(mapping, region, clip, c, n)
            &&& picked(all, k).len() == sames(mapping, region, clip, k, n)
            &&& forall|j: int, t: int| 0 <= j < n ==> #[trigger] slotted(mapping, region, clip, k, picked(all, k), j, t)
        }),
    decreases mapping.len() - i,
{
    if i < mapping.len() {
        lemma_entry(acc, mapping, region, clip, i);
        assert(sames(mapping, region, clip, k, i + 1) == sames(mapping, region, clip, k, i)
            + same_span(mapping, region, clip, k, i));
        assert(shares(mapping, region, clip, c, i + 1) == shares(mapping, region, clip, c, i)
            + share(mapping, region, clip, c, i));
        assert(mapping[i].1.len() <= usize::MAX);
        match reaches(mapping, region, clip, i) {
            None => {
                assert forall|j: int, t: int| 0 <= j < i + 1 implies #[trigger] slotted(mapping, region, clip, k, picked(acc, k), j, t) by {}
                lemma_entries(mapping, region, clip, acc, i + 1, c, k);
            },
            Some((s, e)) => {
                let next = captures::group_marks(acc, s as usize, e as usize, mapping[i].1);
                lemma_group(acc, s as usize, e as usize, mapping[i].1, c);
                let old_picked = picked(acc, k);
                let new_picked = picked(next, k);
                assert forall|j: int, t: int| 0 <= j < i + 1 implies #[trigger] slotted(mapping, region, clip, k, picked(next, k), j, t) by {
                    if j < i {
                        assert(slotted(mapping, region, clip, k, old_picked, j, t));
                    }
                }
                lemma_entries(mapping, region, clip, next, i + 1, c, k);
            },
        }
    }
}

spec fn stack_of(s: Seq<Mark>, m: int) -> Seq<Scope> {
    scope::applied_all(bare(), captures::mark_ops(s).subrange(0, m)).scopes
}

proof fn lemma_applied_snoc(s: StackV, ops: Seq<Op>, i: int)
    requires
        0 <= i < ops.len(),
    ensures
        scope::applied_from(s, ops, i) == scope::applied(
            scope::applied_from(s, ops.drop_last(), i),
            ops.last().1,
        ),
    decreases ops.len() - i,
{
    reveal_with_fuel(scope::applied_from, 2);
    if i + 1 < ops.len() {
        assert(ops.drop_last()[i] == ops[i]);
        lemma_applied_snoc(scope::applied(s, ops[i].1), ops, i + 1);
    }
}

proof fn lemma_stack_step(s: Seq<Mark>, m: int)
    requires
        0 <= m < s.len(),
        plain(s[m]),
    ensures
        stack_of(s, 0) == Seq::<Scope>::empty(),
        match s[m].op {
            ScopeStackOp::Push(x) => stack_of(s, m + 1) == stack_of(s, m).push(x),
            ScopeStackOp::Pop(n) => n <= stack_of(s, m).len() ==> stack_of(s, m + 1) == stack_of(
                s,
                m,
            ).subrange(0, stack_of(s, m).len() - n),
            _ => true,
        },
{
    let ops = captures::mark_ops(s);
    let next = ops.subrange(0, m + 1);
    assert(next.drop_last() =~= ops.subrange(0, m));
    lemma_applied_snoc(bare(), next, 0);
    assert(next.last() == ops[m]);
}

/// The stack is as high as the marks so far make it.
proof fn lemma_heights(s: Seq<Mark>, m: int)
    requires
        all_plain(s),
        0 <= m <= s.len(),
        forall|k: int| 0 <= k <= m ==> #[trigger] climbed(s, k) >= 0,
    ensures
        stack_of(s, m).len() == climbed(s, m),
    decreases m,
{
    assert(captures::mark_ops(s).subrange(0, 0) =~= Seq::<Op>::empty());
    if m > 0 {
        lemma_heights(s, m - 1);
        assert(plain(s[m - 1]));
        lemma_stack_step(s, m - 1);
        assert(climbed(s, m) >= 0);
    }
}

/// What lies below the heights that the stack keeps stays.
proof fn lemma_stays(s: Seq<Mark>, u: int, m: int, d: int)
    requires
        all_plain(s),
        0 <= u <= m <= s.len(),
        0 <= d,
        forall|k: int| 0 <= k <= m ==> #[trigger] climbed(s, k) >= 0,
        forall|k: int| u <= k <= m ==> #[trigger] climbed(s, k) > d,
    ensures
        d < stack_of(s, u).len(),
        d < stack_of(s, m).len(),
        stack_of(s, m)[d] == stack_of(s, u)[d],
    decreases m - u,
{
    lemma_heights(s, u);
    lemma_heights(s, m);
    assert(climbed(s, u) > d);
    assert(climbed(s, m) > d);
    if u < m {
        lemma_stays(s, u, m - 1, d);
        lemma_heights(s, m - 1);
        assert(plain(s[m - 1]));
        lemma_stack_step(s, m - 1);
    }
}

spec fn ends_cut(p: usize) -> Cut {
    |k: (usize, bool, usize)| k.0 < p || (k.0 == p && k.1)
}

spec fn before_cut(s: usize, l: usize) -> Cut {
    |k: (usize, bool, usize)| k.0 < s || (k.0 == s && (k.1 || k.2 > l))
}

spec fn through_cut(s: usize, l: usize) -> Cut {
    |k: (usize, bool, usize)| k.0 < s || (k.0 == s && (k.1 || k.2 >= l))
}

spec fn byte_cut(b: usize) -> Cut {
    |k: (usize, bool, usize)| k.0 <= b
}

/// Between the marks the stack is never lower than where its position's groups have
/// ended.
proof fn lemma_lowest(s: Seq<Mark>, m: int)
    requires
        captures::in_order(s),
        all_plain(s),
        0 < m <= s.len(),
    ensures
        climbed(s, m) >= total(s, ends_cut(s[m - 1].pos)),
{
    let p = s[m - 1].pos;
    let c = ends_cut(p);
    assert forall|i: int, j: int| 0 <= i < j < s.len() && c(key(#[trigger] s[j])) implies c(key(#[trigger] s[i])) by {
        assert(captures::not_after(s[i], s[j]));
    }
    let n = lemma_cut(s, c);
    if m <= n {
        lemma_falls(s, m, n, p);
    } else {
        lemma_rises(s, n, m, p);
    }
}

proof fn lemma_falls(s: Seq<Mark>, m: int, n: int, p: usize)
    requires
        captures::in_order(s),
        all_plain(s),
        0 < m <= n <= s.len(),
        s[m - 1].pos == p,
        forall|k: int| 0 <= k < n ==> ends_cut(p)(key(#[trigger] s[k])),
    ensures
        climbed(s, m) >= climbed(s, n),
    decreases n - m,
{
    if m < n {
        lemma_falls(s, m, n - 1, p);
        assert(captures::not_after(s[m - 1], s[n - 1]));
        assert(ends_cut(p)(key(s[n - 1])));
        assert(plain(s[n - 1]));
    }
}

proof fn lemma_rises(s: Seq<Mark>, n: int, m: int, p: usize)
    requires
        captures::in_order(s),
        all_plain(s),
        0 <= n <= m <= s.len(),
        m > 0 ==> s[m - 1].pos <= p,
        forall|k: int| n <= k < s.len() ==> !ends_cut(p)(key(#[trigger] s[k])),
    ensures
        climbed(s, m) >= climbed(s, n),
    decreases m - n,
{
    if n < m {
        assert(!ends_cut(p)(key(s[m - 1])));
        assert(plain(s[m - 1]));
        if m - 1 > 0 {
            assert(captures::not_after(s[m - 2], s[m - 1]));
        }
        lemma_rises(s, n, m - 1, p);
    }
}

proof fn lemma_picked_range(s: Seq<Mark>, n1: int, n2: int, k: (usize, bool, usize))
    requires
        0 <= n1 <= n2 <= s.len(),
        forall|j: int| 0 <= j < n1 ==> key(#[trigger] s[j]) != k,
        forall|j: int| n1 <= j < n2 ==> key(#[trigger] s[j]) == k,
        forall|j: int| n2 <= j < s.len() ==> key(#[trigger] s[j]) != k,
    ensures
        picked(s, k).len() == n2 - n1,
        forall|t: int| 0 <= t < n2 - n1 ==> #[trigger] picked(s, k)[t] == s[n1 + t].op,
    decreases s.len(),
{
    if s.len() > 0 {
        let f = s.drop_last();
        assert forall|j: int| 0 <= j < f.len() implies f[j] == #[trigger] s[j] by {}
        if n2 == s.len() && n1 < n2 {
            lemma_picked_range(f, n1, n2 - 1, k);
            assert(key(s[n2 - 1]) == k);
        } else if n2 == s.len() {
            lemma_picked_range(f, n1 - 1, n2 - 1, k);
            assert(key(s[n2 - 1]) != k);
        } else {
            lemma_picked_range(f, n1, n2, k);
            assert(key(s[s.len() - 1]) != k);
        }
    }
}

proof fn lemma_block(s: Seq<Mark>, n1: int, m: int)
    requires
        0 <= n1 <= m <= s.len(),
        forall|j: int| n1 <= j < m ==> (#[trigger] s[j]).op is Push,
    ensures
        climbed(s, m) == climbed(s, n1) + (m - n1),
    decreases m - n1,
{
    if n1 < m {
        lemma_block(s, n1, m - 1);
        assert(s[m - 1].op is Push);
    }
}

proof fn lemma_none_yet(
    mapping: Seq<(usize, Seq<Scope>)>,
    region: RegionV,
    clip: bool,
    c: Cut,
    k: (usize, bool, usize),
)
    requires
        sound(mapping, region),
        !k.1,
    ensures
        ({
            let all = all_entries(mapping, region, clip, Seq::empty(), 0);
            let n = mapping.len() as int;
            &&& all_plain(all)
            &&& total(all, c) == shares(mapping, region, clip, c, n)
            &&& picked(all, k).len() == sames(mapping, region, clip, k, n)
            &&& forall|j: int, t: int| 0 <= j < n ==> #[trigger] slotted(mapping, region, clip, k, picked(all, k), j, t)
        }),
{
    lemma_entries(mapping, region, clip, Seq::empty(), 0, c, k);
}

/// The stack never falls below the ground, and after all marks up to the byte `b` it
/// is as high as the groups that hold `b` make it.
proof fn lemma_byte(
    mapping: Seq<(usize, Seq<Scope>)>,
    region: RegionV,
    clip: bool,
    b: usize,
) -> (n: int)
    requires
        sound(mapping, region),
    ensures
        ({
            let s = captures::ordered(all_entries(mapping, region, clip, Seq::empty(), 0));
            &&& all_plain(s)
            &&& captures::in_order(s)
            &&& 0 <= n <= s.len()
            &&& forall|k: int| 0 <= k < n ==> (#[trigger] s[k]).pos <= b
            &&& forall|k: int| n <= k < s.len() ==> (#[trigger] s[k]).pos > b
            &&& forall|k: int| 0 <= k <= s.len() ==> #[trigger] climbed(s, k) >= 0
            &&& climbed(s, n) == height(mapping, region, clip, b as int)
        }),
{
    let all = all_entries(mapping, region, clip, Seq::empty(), 0);
    let s = captures::ordered(all);
    let none = (0usize, false, 0usize);
    captures::law_marks_are_ordered(all);
    let c = byte_cut(b);
    lemma_none_yet(mapping, region, clip, c, none);
    lemma_ordered(all, c, none);
    assert forall|i: int, j: int| 0 <= i < j < s.len() && c(key(#[trigger] s[j])) implies c(key(#[trigger] s[i])) by {
        assert(captures::not_after(s[i], s[j]));
    }
    let n = lemma_cut(s, c);
    assert forall|k: int| 0 <= k < n implies (#[trigger] s[k]).pos <= b by {
        assert(c(key(s[k])));
    }
    assert forall|k: int| n <= k < s.len() implies (#[trigger] s[k]).pos > b by {
        assert(!c(key(s[k])));
    }
    let f = |j: int| share(mapping, region, clip, c, j);
    let g = |j: int|
        if holds(mapping, region, clip, j, b as int) {
            mapping[j].1.len() as int
        } else {
            0
        };
    lemma_tally_same(mapping.len() as int, f, g);
    assert forall|k: int| 0 <= k <= s.len() implies #[trigger] climbed(s, k) >= 0 by {
        if k > 0 {
            let p = s[k - 1].pos;
            lemma_lowest(s, k);
            lemma_ends(mapping, region, clip, p);
        }
    }
    n
}

/// Where the groups that end at `p` have ended, and none has started there.
proof fn lemma_ends(mapping: Seq<(usize, Seq<Scope>)>, region: RegionV, clip: bool, p: usize)
    requires
        sound(mapping, region),
    ensures
        ({
            let s = captures::ordered(all_entries(mapping, region, clip, Seq::empty(), 0));
            let g = |j: int|
                if reaches(mapping, region, clip, j) matches Some((a, e)) && a < p < e {
                    mapping[j].1.len() as int
                } else {
                    0
                };
            &&& total(s, ends_cut(p)) == tally(mapping.len() as int, g)
            &&& total(s, ends_cut(p)) >= 0
        }),
{
    let all = all_entries(mapping, region, clip, Seq::empty(), 0);
    let none = (0usize, false, 0usize);
    let c = ends_cut(p);
    lemma_none_yet(mapping, region, clip, c, none);
    lemma_ordered(all, c, none);
    let f = |j: int| share(mapping, region, clip, c, j);
    let g = |j: int|
        if reaches(mapping, region, clip, j) matches Some((a, e)) && a < p < e {
            mapping[j].1.len() as int
        } else {
            0
        };
    lemma_tally_same(mapping.len() as int, f, g);
    let zero = |j: int| 0int;
    lemma_tally_most(mapping.len() as int, zero, g);
    lemma_tally_zero(mapping.len() as int, zero);
}

proof fn lemma_tally_zero(n: int, f: spec_fn(int) -> int)
    requires
        forall|i: int| 0 <= i < n ==> #[trigger] f(i) == 0,
    ensures
        tally(n, f) == 0,
    decreases n,
{
    if n > 0 {
        lemma_tally_zero(n - 1, f);
        assert(f(n - 1) == 0);
    }
}

/// The depth at which the scopes of entry `i` start, before any of its span.
spec fn under(
    mapping: Seq<(usize, Seq<Scope>)>,
    region: RegionV,
    clip: bool,
    k: (usize, bool, usize),
) -> int {
    tally(
        mapping.len() as int,
        |j: int| share(mapping, region, clip, before_cut(k.0, k.2), j),
    )
}

proof fn lemma_under(
    mapping: Seq<(usize, Seq<Scope>)>,
    region: RegionV,
    clip: bool,
    i: int,
    b: int,
)
    requires
        sound(mapping, region),
        well_nested(mapping, region, clip),
        0 <= i < mapping.len(),
        holds(mapping, region, clip, i, b),
    ensures
        ({
            let (s, e) = reaches(mapping, region, clip, i)->0;
            let k = (s as usize, false, (e - s) as usize);
            height_below(mapping, region, clip, i, b) == under(mapping, region, clip, k) + tally(
                i,
                |j: int| same_span(mapping, region, clip, k, j),
            )
        }),
{
    let (s, e) = reaches(mapping, region, clip, i)->0;
    let k = (s as usize, false, (e - s) as usize);
    let n = mapping.len() as int;
    let f = |j: int| share(mapping, region, clip, before_cut(k.0, k.2), j);
    let same = |j: int| same_span(mapping, region, clip, k, j);
    let early = |j: int|
        if j < i {
            same(j)
        } else {
            0
        };
    let h = |j: int|
        if holds(mapping, region, clip, j, b) && outside(mapping, region, clip, j, i) {
            mapping[j].1.len() as int
        } else {
            0
        };
    lemma_tally_first(i, n, same, early);
    assert forall|j: int| 0 <= j < n implies #[trigger] h(j) == f(j) + early(j) by {
        if let Some((t, g)) = reaches(mapping, region, clip, j) {
            assert(apart_or_nested((s, e), (t, g)));
        }
    }
    lemma_tally_sum(n, f, early, h);
}

/// Above a span's start, up to its end, its containers and itself stay on the stack.
proof fn lemma_over(
    mapping: Seq<(usize, Seq<Scope>)>,
    region: RegionV,
    clip: bool,
    i: int,
    p: usize,
)
    requires
        sound(mapping, region),
        well_nested(mapping, region, clip),
        0 <= i < mapping.len(),
        reaches(mapping, region, clip, i) matches Some((s, e)) && s < p < e,
    ensures
        ({
            let (s, e) = reaches(mapping, region, clip, i)->0;
            let k = (s as usize, false, (e - s) as usize);
            let g = |j: int|
                if reaches(mapping, region, clip, j) matches Some((a, e)) && a < p < e {
                    mapping[j].1.len() as int
                } else {
                    0
                };
            under(mapping, region, clip, k) + tally(
                mapping.len() as int,
                |j: int| same_span(mapping, region, clip, k, j),
            ) <= tally(mapping.len() as int, g)
        }),
{
    let (s, e) = reaches(mapping, region, clip, i)->0;
    let k = (s as usize, false, (e - s) as usize);
    let n = mapping.len() as int;
    let f = |j: int| share(mapping, region, clip, before_cut(k.0, k.2), j);
    let same = |j: int| same_span(mapping, region, clip, k, j);
    let h = |j: int| f(j) + same(j);
    let g = |j: int|
        if reaches(mapping, region, clip, j) matches Some((a, e)) && a < p < e {
            mapping[j].1.len() as int
        } else {
            0
        };
    lemma_tally_sum(n, f, same, h);
    assert forall|j: int| 0 <= j < n implies #[trigger] h(j) <= g(j) by {
        if let Some((t, u)) = reaches(mapping, region, clip, j) {
            assert(apart_or_nested((s, e), (t, u)));
        }
    }
    lemma_tally_most(n, h, g);
}

/// The scope `t` of entry `i`, at the byte `b` that its group holds.
#[verifier::rlimit(40)]
proof fn lemma_scope_at(
    mapping: Seq<(usize, Seq<Scope>)>,
    region: RegionV,
    clip: bool,
    i: int,
    t: int,
    b: usize,
    n: int,
)
    requires
        sound(mapping, region),
        well_nested(mapping, region, clip),
        0 <= i < mapping.len(),
        0 <= t < mapping[i].1.len(),
        holds(mapping, region, clip, i, b as int),
        ({
            let s = captures::ordered(all_entries(mapping, region, clip, Seq::empty(), 0));
            &&& all_plain(s)
            &&& captures::in_order(s)
            &&& 0 <= n <= s.len()
            &&& forall|k: int| 0 <= k < n ==> (#[trigger] s[k]).pos <= b
            &&& forall|k: int| n <= k < s.len() ==> (#[trigger] s[k]).pos > b
            &&& forall|k: int| 0 <= k <= s.len() ==> #[trigger] climbed(s, k) >= 0
        }),
    ensures
        ({
            let s = captures::ordered(all_entries(mapping, region, clip, Seq::empty(), 0));
            let d = height_below(mapping, region, clip, i, b as int) + t;
            0 <= d < stack_of(s, n).len() && stack_of(s, n)[d] == mapping[i].1[t]
        }),
{
    let all = all_entries(mapping, region, clip, Seq::empty(), 0);
    let s = captures::ordered(all);
    let (first, end) = reaches(mapping, region, clip, i)->0;
    let k = (first as usize, false, (end - first) as usize);
    let c1 = before_cut(k.0, k.2);
    let c2 = through_cut(k.0, k.2);
    lemma_none_yet(mapping, region, clip, c1, k);
    lemma_ordered(all, c1, k);
    assert forall|i: int, j: int| 0 <= i < j < s.len() && c1(key(#[trigger] s[j])) implies c1(key(#[trigger] s[i])) by {
        assert(captures::not_after(s[i], s[j]));
    }
    assert forall|i: int, j: int| 0 <= i < j < s.len() && c2(key(#[trigger] s[j])) implies c2(key(#[trigger] s[i])) by {
        assert(captures::not_after(s[i], s[j]));
    }
    let n1 = lemma_cut(s, c1);
    let n2 = lemma_cut(s, c2);
    assert(n1 <= n2) by {
        if n2 < n1 {
            assert(c1(key(s[n2])));
            assert(!c2(key(s[n2])));
        }
    }
    assert(n2 <= n) by {
        if n < n2 {
            assert(c2(key(s[n])));
            assert(s[n].pos > b);
        }
    }
    assert forall|j: int| n1 <= j < n2 implies key(#[trigger] s[j]) == k by {
        assert(c2(key(s[j])) && !c1(key(s[j])));
    }
    assert forall|j: int| 0 <= j < n1 implies key(#[trigger] s[j]) != k by {
        assert(c1(key(s[j])));
    }
    assert forall|j: int| n2 <= j < s.len() implies key(#[trigger] s[j]) != k by {
        assert(!c2(key(s[j])));
    }
    lemma_picked_range(s, n1, n2, k);
    let off = sames(mapping, region, clip, k, i);
    let q = off + t;
    assert(slotted(mapping, region, clip, k, picked(all, k), i, t));
    assert(picked(all, k)[q] == ScopeStackOp::Push(mapping[i].1[t]));
    assert(s[n1 + q].op == ScopeStackOp::Push(mapping[i].1[t]));
    let d = climbed(s, n1) + q;
    assert(climbed(s, n1) == under(mapping, region, clip, k));
    lemma_under(mapping, region, clip, i, b as int);
    assert forall|j: int| n1 <= j < n2 implies (#[trigger] s[j]).op is Push by {
        assert(plain(s[j]));
        assert(key(s[j]) == k);
    }
    lemma_block(s, n1, n1 + q);
    lemma_block(s, n1, n1 + q + 1);
    lemma_heights(s, n1 + q);
    lemma_stack_step(s, n1 + q);
    assert(stack_of(s, n1 + q + 1)[d] == mapping[i].1[t]);
    assert forall|m: int| n1 + q + 1 <= m <= n implies #[trigger] climbed(s, m) > d by {
        if m <= n2 {
            lemma_block(s, n1, m);
        } else {
            let p = s[m - 1].pos;
            assert(!c2(key(s[m - 1])));
            assert(p <= b);
            lemma_block(s, n1, n2);
            if p == k.0 {
                lemma_starts_rise(s, n2, m, k);
            } else {
                lemma_lowest(s, m);
                lemma_ends(mapping, region, clip, p);
                lemma_over(mapping, region, clip, i, p);
            }
        }
    }
    lemma_stays(s, n1 + q + 1, n, d);
}

proof fn lemma_starts_rise(s: Seq<Mark>, n: int, m: int, k: (usize, bool, usize))
    requires
        captures::in_order(s),
        all_plain(s),
        0 <= n <= m <= s.len(),
        m > n ==> s[m - 1].pos == k.0,
        forall|j: int| n <= j < s.len() ==> !through_cut(k.0, k.2)(key(#[trigger] s[j])),
    ensures
        climbed(s, m) >= climbed(s, n),
    decreases m - n,
{
    if n < m {
        assert(!through_cut(k.0, k.2)(key(s[m - 1])));
        assert(plain(s[m - 1]));
        if n < m - 1 {
            assert(!through_cut(k.0, k.2)(key(s[m - 2])));
            assert(captures::not_after(s[m - 2], s[m - 1]));
        }
        lemma_starts_rise(s, n, m - 1, k);
    }
}

/// Whether the scope `t` of entry `i` lies on the stack at the byte `b`, above those of
/// the groups further out, if the group of `i` holds `b`.
pub open spec fn shows(
    mapping: Seq<(usize, Seq<Scope>)>,
    region: RegionV,
    clip: bool,
    b: int,
    stack: Seq<Scope>,
    i: int,
    t: int,
) -> bool {
    0 <= t < mapping[i].1.len() && holds(mapping, region, clip, i, b) ==> {
        let d = height_below(mapping, region, clip, i, b) + t;
        0 <= d < stack.len() && stack[d] == mapping[i].1[t]
    }
}

/// What the groups of a match colour. The operations up to the byte `b` are the first
/// `n`; applied to a bare stack they leave the scopes of the entries whose groups hold
/// `b`, and no others. Where groups are apart or nested, as all are outside
/// look-arounds, each entry has all its scopes there, above those of the groups that
/// lie further out.
pub proof fn law_groups_colour_their_bytes(
    mapping: Seq<(usize, Seq<Scope>)>,
    region: RegionV,
    clip: bool,
    b: usize,
) -> (n: int)
    requires
        sound(mapping, region),
    ensures
        ({
            let ops = captures::group_ops(Some(mapping), region, clip);
            let stack = scope::applied_all(bare(), ops.subrange(0, n));
            &&& 0 <= n <= ops.len()
            &&& forall|k: int| 0 <= k < n ==> (#[trigger] ops[k]).0 <= b
            &&& forall|k: int| n <= k < ops.len() ==> (#[trigger] ops[k]).0 > b
            &&& stack.scopes.len() == height(mapping, region, clip, b as int)
            &&& well_nested(mapping, region, clip) ==> forall|i: int, t: int|
                0 <= i < mapping.len() ==> #[trigger] shows(
                    mapping,
                    region,
                    clip,
                    b as int,
                    stack.scopes,
                    i,
                    t,
                )
        }),
{
    let s = captures::ordered(all_entries(mapping, region, clip, Seq::empty(), 0));
    let ops = captures::group_ops(Some(mapping), region, clip);
    assert(ops == captures::mark_ops(s));
    let n = lemma_byte(mapping, region, clip, b);
    lemma_heights(s, n);
    assert forall|k: int| 0 <= k < n implies (#[trigger] ops[k]).0 <= b by {
        assert(s[k].pos <= b);
    }
    assert forall|k: int| n <= k < ops.len() implies (#[trigger] ops[k]).0 > b by {
        assert(s[k].pos > b);
    }
    let stack = scope::applied_all(bare(), ops.subrange(0, n));
    if well_nested(mapping, region, clip) {
        assert forall|i: int, t: int| 0 <= i < mapping.len() implies #[trigger] shows(
            mapping,
            region,
            clip,
            b as int,
            stack.scopes,
            i,
            t,
        ) by {
            if 0 <= t < mapping[i].1.len() && holds(mapping, region, clip, i, b as int) {
                lemma_scope_at(mapping, region, clip, i, t, b, n);
            }
        }
    }
    n
}

/// On any scope stack, what the marks so far have left lies on top.
proof fn lemma_on_top(s: StackV, acc: Seq<Op>, marks: Seq<Mark>, m: int)
    requires
        all_plain(marks),
        0 <= m <= marks.len(),
        forall|k: int| 0 <= k <= marks.len() ==> #[trigger] climbed(marks, k) >= 0,
    ensures
        ({
            let t = scope::applied_all(s, acc);
            scope::applied_all(s, acc + captures::mark_ops(marks).subrange(0, m)) == (StackV {
                scopes: t.scopes + stack_of(marks, m),
                ..t
            })
        }),
    decreases m,
{
    let ops = captures::mark_ops(marks);
    let t = scope::applied_all(s, acc);
    if m == 0 {
        assert(acc + ops.subrange(0, 0) =~= acc);
        assert(ops.subrange(0, 0) =~= Seq::<Op>::empty());
        assert(t.scopes + stack_of(marks, 0) =~= t.scopes);
    } else {
        lemma_on_top(s, acc, marks, m - 1);
        let before = acc + ops.subrange(0, m - 1);
        let after = acc + ops.subrange(0, m);
        assert(after.drop_last() =~= before);
        assert(after.last() == ops[m - 1]);
        lemma_applied_snoc(s, after, 0);
        assert(plain(marks[m - 1]));
        lemma_stack_step(marks, m - 1);
        lemma_heights(marks, m - 1);
        assert(climbed(marks, m) >= 0);
        let old_top = stack_of(marks, m - 1);
        let new_top = stack_of(marks, m);
        assert(scope::applied_all(s, after).scopes =~= t.scopes + new_top);
    }
}

/// The operations of a match's groups leave a scope stack as it was.
pub(crate) proof fn lemma_groups_come_and_go(
    s: StackV,
    acc: Seq<Op>,
    mapping: Option<Seq<(usize, Seq<Scope>)>>,
    region: RegionV,
)
    requires
        region.len() > 0 && region[0] is Some,
        mapping matches Some(m) ==> sound(m, region),
    ensures
        scope::applied_all(s, acc + captures::group_ops(mapping, region, true))
            == scope::applied_all(s, acc),
{
    match mapping {
        None => {
            assert(acc + Seq::<Op>::empty() =~= acc);
        },
        Some(m) => {
            let marks = captures::ordered(all_entries(m, region, true, Seq::empty(), 0));
            let ops = captures::mark_ops(marks);
            let n = lemma_byte(m, region, true, usize::MAX);
            assert(n == marks.len()) by {
                if n < marks.len() {
                    assert(marks[n].pos > usize::MAX);
                }
            }
            lemma_heights(marks, n);
            lemma_on_top(s, acc, marks, n);
            assert(ops.subrange(0, n) =~= ops);
            let zero = |j: int|
                if holds(m, region, true, j, usize::MAX as int) {
                    m[j].1.len() as int
                } else {
                    0
                };
            assert forall|j: int| 0 <= j < m.len() implies #[trigger] zero(j) == 0 by {}
            lemma_tally_zero(m.len() as int, zero);
            let t = scope::applied_all(s, acc);
            assert(t.scopes + stack_of(marks, n) =~= t.scopes);
        },
    }
}

} // verus!
