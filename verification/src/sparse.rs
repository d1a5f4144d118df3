//! A dense, ordered collection of disjoint integer intervals carrying
//! values, with overwrite-on-insert semantics.
//!
//! Inserting over `[start, end]` replaces whatever part of older entries
//! it overlaps; the uncovered remainders of the clipped entries survive.
//! Because parents are inserted before children when location tables are
//! built, a point lookup finds the innermost enclosing entity.

use vstd::prelude::*;
use vstd::pervasive::VecAdditionalExecFns;

verus! {

/// An inclusive interval of points.
#[derive(Clone, Copy, Debug, PartialEq, Eq, Structural)]
pub struct Interval {
    pub start: usize,
    pub end: usize,
}

impl Interval {
    /// An interval from `start` to `end`, which must not be empty.
    pub fn new(start: usize, end: usize) -> (r: Interval)
        requires
            start <= end,
        ensures
            r == (Interval { start, end }),
    {
        Interval { start, end }
    }

    /// An interval from `start` to `end`, or nothing when reversed.
    pub fn try_new(start: usize, end: usize) -> (r: Option<Interval>)
        ensures
            r == if start <= end {
                Some(Interval { start, end })
            } else {
                None::<Interval>
            },
    {
        if start <= end {
            Some(Interval { start, end })
        } else {
            None
        }
    }
}

/// One interval of the index together with its value.
#[derive(Clone, Copy, Debug, PartialEq, Eq, Structural)]
pub struct Entry {
    pub key: Interval,
    pub value: usize,
}

impl Entry {
    pub fn new(key: Interval, value: usize) -> (r: Entry)
        ensures
            r == (Entry { key, value }),
    {
        Entry { key, value }
    }

    /// An entry from a `(start, end, value)` triple, or nothing when the
    /// interval would be empty.
    pub fn try_from_triple(triple: (usize, usize, usize)) -> (r: Option<Entry>)
        ensures
            r == if triple.0 <= triple.1 {
                Some(Entry { key: Interval { start: triple.0, end: triple.1 }, value: triple.2 })
            } else {
                None::<Entry>
            },
    {
        let (start, end, value) = triple;
        match Interval::try_new(start, end) {
            Some(key) => Some(Entry { key, value }),
            None => None,
        }
    }
}

/// The entry covers point `p`.
pub open spec fn covers(e: Entry, p: int) -> bool {
    e.key.start <= p <= e.key.end
}

/// Entries are in order, pairwise disjoint, and each interval non-empty.
pub open spec fn wf_entries(s: Seq<Entry>) -> bool {
    (forall|i: int| 0 <= i < s.len() ==> (#[trigger] s[i]).key.start <= s[i].key.end) && (forall|
        i: int,
        j: int,
    |
        0 <= i < j < s.len() ==> (#[trigger] s[i]).key.end < (#[trigger] s[j]).key.start)
}

/// Some entry covers point `p`.
pub open spec fn covered(s: Seq<Entry>, p: int) -> bool {
    exists|i: int| 0 <= i < s.len() && covers(#[trigger] s[i], p)
}

/// The index of the entry covering `p`; unique when the entries are
/// disjoint.
pub open spec fn covering_index(s: Seq<Entry>, p: int) -> int {
    choose|i: int| 0 <= i < s.len() && covers(#[trigger] s[i], p)
}

/// The value stored at point `p`.
pub open spec fn value_at(s: Seq<Entry>, p: int) -> usize {
    s[covering_index(s, p)].value
}

/// In a well-formed index the covering entry is unique, so any covering
/// index determines the value at the point.
pub proof fn lemma_unique_cover(s: Seq<Entry>, p: int, k: int)
    requires
        wf_entries(s),
        0 <= k < s.len(),
        covers(s[k], p),
    ensures
        covered(s, p),
        covering_index(s, p) == k,
        value_at(s, p) == s[k].value,
{
    assert(covered(s, p));
    let i = covering_index(s, p);
    if i < k {
        assert(s[i].key.end < s[k].key.start);
    } else if i > k {
        assert(s[k].key.end < s[i].key.start);
    }
}

/// The number of points the interval `[a, b]` shares with `[qs, qe]`.
pub open spec fn olen(a: int, b: int, qs: int, qe: int) -> int {
    let lo = if a >= qs {
        a
    } else {
        qs
    };
    let hi = if b <= qe {
        b
    } else {
        qe
    };
    if lo <= hi {
        hi - lo + 1
    } else {
        0
    }
}

/// Total overlap of all entries with the query `[qs, qe]`.
pub open spec fn overlap_total(s: Seq<Entry>, qs: int, qe: int) -> int
    decreases s.len(),
{
    if s.len() == 0 {
        0
    } else {
        olen(s[0].key.start as int, s[0].key.end as int, qs, qe) + overlap_total(
            s.drop_first(),
            qs,
            qe,
        )
    }
}

/// Overlap of the entries holding value `v` with the query `[qs, qe]`.
pub open spec fn overlap_count(s: Seq<Entry>, qs: int, qe: int, v: usize) -> int
    decreases s.len(),
{
    if s.len() == 0 {
        0
    } else {
        (if s[0].value == v {
            olen(s[0].key.start as int, s[0].key.end as int, qs, qe)
        } else {
            0
        }) + overlap_count(s.drop_first(), qs, qe, v)
    }
}

/// Extending the entries on the right adds that entry's own overlap.
pub proof fn lemma_overlap_snoc(s: Seq<Entry>, e: Entry, qs: int, qe: int)
    ensures
        overlap_total(s.push(e), qs, qe) == overlap_total(s, qs, qe) + olen(
            e.key.start as int,
            e.key.end as int,
            qs,
            qe,
        ),
        forall|v: usize|
            overlap_count(s.push(e), qs, qe, v) == overlap_count(s, qs, qe, v) + (if e.value == v {
                olen(e.key.start as int, e.key.end as int, qs, qe)
            } else {
                0
            }),
    decreases s.len(),
{
    let c = s.push(e);
    if s.len() == 0 {
        assert(c.drop_first() =~= Seq::<Entry>::empty());
        assert(c[0] == e);
        assert(overlap_total(c, qs, qe) == olen(e.key.start as int, e.key.end as int, qs, qe)
            + overlap_total(c.drop_first(), qs, qe));
        assert(overlap_total(c.drop_first(), qs, qe) == 0);
        assert forall|v: usize|
            overlap_count(c, qs, qe, v) == overlap_count(s, qs, qe, v) + (if e.value == v {
                olen(e.key.start as int, e.key.end as int, qs, qe)
            } else {
                0
            }) by {
            assert(overlap_count(c.drop_first(), qs, qe, v) == 0);
        }
    } else {
        assert(c.drop_first() =~= s.drop_first().push(e));
        assert(c[0] == s[0]);
        lemma_overlap_snoc(s.drop_first(), e, qs, qe);
        assert(overlap_total(c, qs, qe) == olen(s[0].key.start as int, s[0].key.end as int, qs, qe)
            + overlap_total(s.drop_first().push(e), qs, qe));
        assert forall|v: usize|
            overlap_count(c, qs, qe, v) == overlap_count(s, qs, qe, v) + (if e.value == v {
                olen(e.key.start as int, e.key.end as int, qs, qe)
            } else {
                0
            }) by {
            assert(overlap_count(s.drop_first().push(e), qs, qe, v) == overlap_count(
                s.drop_first(),
                qs,
                qe,
                v,
            ) + (if e.value == v {
                olen(e.key.start as int, e.key.end as int, qs, qe)
            } else {
                0
            }));
        }
    }
}

/// Entries that do not overlap the query contribute nothing.
pub proof fn lemma_overlap_none(s: Seq<Entry>, qs: int, qe: int)
    requires
        forall|k: int|
            0 <= k < s.len() ==> olen(
                (#[trigger] s[k]).key.start as int,
                s[k].key.end as int,
                qs,
                qe,
            ) == 0,
    ensures
        overlap_total(s, qs, qe) == 0,
        forall|v: usize| overlap_count(s, qs, qe, v) == 0,
    decreases s.len(),
{
    if s.len() > 0 {
        assert forall|k: int|
            0 <= k < s.drop_first().len() implies olen(
            (#[trigger] s.drop_first()[k]).key.start as int,
            s.drop_first()[k].key.end as int,
            qs,
            qe,
        ) == 0 by {
            assert(s.drop_first()[k] == s[k + 1]);
        }
        lemma_overlap_none(s.drop_first(), qs, qe);
        assert(olen(s[0].key.start as int, s[0].key.end as int, qs, qe) == 0);
        assert forall|v: usize| overlap_count(s, qs, qe, v) == 0 by {
            assert(overlap_count(s.drop_first(), qs, qe, v) == 0);
        }
    }
}

/// Entries entirely to the right of the query contribute nothing.
pub proof fn lemma_overlap_zero(s: Seq<Entry>, qs: int, qe: int)
    requires
        forall|k: int| 0 <= k < s.len() ==> (#[trigger] s[k]).key.start > qe,
    ensures
        overlap_total(s, qs, qe) == 0,
        forall|v: usize| overlap_count(s, qs, qe, v) == 0,
{
    assert(forall|k: int|
        0 <= k < s.len() ==> olen((#[trigger] s[k]).key.start as int, s[k].key.end as int, qs, qe)
            == 0);
    lemma_overlap_none(s, qs, qe);
}

/// Overlap of a concatenation is the sum of the parts' overlaps.
pub proof fn lemma_overlap_concat(a: Seq<Entry>, b: Seq<Entry>, qs: int, qe: int)
    ensures
        overlap_total(a + b, qs, qe) == overlap_total(a, qs, qe) + overlap_total(b, qs, qe),
        forall|v: usize|
            overlap_count(a + b, qs, qe, v) == overlap_count(a, qs, qe, v) + overlap_count(
                b,
                qs,
                qe,
                v,
            ),
    decreases a.len(),
{
    if a.len() == 0 {
        assert(a + b =~= b);
    } else {
        assert((a + b).drop_first() =~= a.drop_first() + b);
        assert((a + b)[0] == a[0]);
        lemma_overlap_concat(a.drop_first(), b, qs, qe);
        assert forall|v: usize|
            overlap_count(a + b, qs, qe, v) == overlap_count(a, qs, qe, v) + overlap_count(
                b,
                qs,
                qe,
                v,
            ) by {
            assert(overlap_count(a.drop_first() + b, qs, qe, v) == overlap_count(
                a.drop_first(),
                qs,
                qe,
                v,
            ) + overlap_count(b, qs, qe, v));
        }
    }
}

/// A well-formed index overlaps a query by at most the query's size.
pub proof fn lemma_overlap_total_bound(s: Seq<Entry>, qs: int, qe: int)
    requires
        wf_entries(s),
        qs <= qe,
    ensures
        0 <= overlap_total(s, qs, qe) <= qe - qs + 1,
    decreases s.len(),
{
    if s.len() == 0 {
    } else {
        let e0 = s[0];
        let rest = s.drop_first();
        assert(wf_entries(rest)) by {
            assert(forall|k: int| 0 <= k < rest.len() ==> rest[k] == s[k + 1]);
        }
        if e0.key.end < qs {
            lemma_overlap_total_bound(rest, qs, qe);
        } else if e0.key.end >= qe {
            // everything after starts beyond the query
            assert(forall|k: int|
                0 <= k < rest.len() ==> (#[trigger] rest[k]).key.start > e0.key.end >= qe) by {
                assert(forall|k: int| 0 <= k < rest.len() ==> rest[k] == s[k + 1]);
            }
            lemma_overlap_zero(rest, qs, qe);
        } else {
            // the tail competes only for points past this entry's end
            let qs2 = e0.key.end + 1;
            lemma_overlap_total_bound(rest, qs2, qe);
            lemma_overlap_shift(rest, qs, qs2, qe);
        }
    }
}

/// When every entry starts at or beyond `qs2`, tightening the query's left
/// edge from `qs1` up to `qs2` changes nothing.
pub proof fn lemma_overlap_shift(s: Seq<Entry>, qs1: int, qs2: int, qe: int)
    requires
        qs1 <= qs2,
        forall|k: int| 0 <= k < s.len() ==> (#[trigger] s[k]).key.start >= qs2,
    ensures
        overlap_total(s, qs1, qe) == overlap_total(s, qs2, qe),
        forall|v: usize| overlap_count(s, qs1, qe, v) == overlap_count(s, qs2, qe, v),
    decreases s.len(),
{
    if s.len() > 0 {
        assert forall|k: int|
            0 <= k < s.drop_first().len() implies (#[trigger] s.drop_first()[k]).key.start
            >= qs2 by {
            assert(s.drop_first()[k] == s[k + 1]);
        }
        lemma_overlap_shift(s.drop_first(), qs1, qs2, qe);
        assert(olen(s[0].key.start as int, s[0].key.end as int, qs1, qe) == olen(
            s[0].key.start as int,
            s[0].key.end as int,
            qs2,
            qe,
        ));
        assert forall|v: usize| overlap_count(s, qs1, qe, v) == overlap_count(s, qs2, qe, v) by {
            assert(overlap_count(s.drop_first(), qs1, qe, v) == overlap_count(
                s.drop_first(),
                qs2,
                qe,
                v,
            ));
        }
    }
}

/// When the entries cover every point of the query, the total overlap is
/// exactly the query's size: each queried point is counted once.
pub proof fn lemma_overlap_total_cover(s: Seq<Entry>, qs: int, qe: int)
    requires
        wf_entries(s),
        qs <= qe,
        forall|p: int| qs <= p <= qe ==> covered(s, p),
    ensures
        overlap_total(s, qs, qe) == qe - qs + 1,
    decreases s.len(),
{
    assert(covered(s, qs));
    let c = choose|i: int| 0 <= i < s.len() && covers(#[trigger] s[i], qs);
    let e0 = s[0];
    let rest = s.drop_first();
    assert(forall|k: int| 0 <= k < rest.len() ==> rest[k] == s[k + 1]);
    assert(wf_entries(rest));
    if e0.key.end < qs {
        // the first entry covers nothing queried; the rest covers it all
        assert forall|p: int| qs <= p <= qe implies covered(rest, p) by {
            assert(covered(s, p));
            let i = choose|i: int| 0 <= i < s.len() && covers(#[trigger] s[i], p);
            assert(covers(s[i], p));
            assert(i >= 1);
            assert(covers(rest[i - 1], p));
        }
        lemma_overlap_total_cover(rest, qs, qe);
    } else {
        // the first entry must reach the query's left edge
        assert(e0.key.start <= qs) by {
            if c > 0 {
                assert(s[c].key.start > e0.key.end);
            }
        }
        if e0.key.end >= qe {
            assert(forall|k: int|
                0 <= k < rest.len() ==> (#[trigger] rest[k]).key.start > e0.key.end >= qe);
            lemma_overlap_zero(rest, qs, qe);
        } else {
            let qs2 = e0.key.end + 1;
            assert forall|p: int| qs2 <= p <= qe implies covered(rest, p) by {
                assert(covered(s, p));
                let i = choose|i: int| 0 <= i < s.len() && covers(#[trigger] s[i], p);
                assert(covers(s[i], p));
                assert(i >= 1);
                assert(covers(rest[i - 1], p));
            }
            lemma_overlap_total_cover(rest, qs2, qe);
            lemma_overlap_shift(rest, qs, qs2, qe);
        }
    }
}

/// When exactly one entry holds value `v`, the count for `v` is that
/// entry's own overlap with the query.
pub proof fn lemma_overlap_count_single(s: Seq<Entry>, qs: int, qe: int, v: usize, k: int)
    requires
        0 <= k < s.len(),
        s[k].value == v,
        forall|i: int| 0 <= i < s.len() && i != k ==> (#[trigger] s[i]).value != v,
    ensures
        overlap_count(s, qs, qe, v) == olen(s[k].key.start as int, s[k].key.end as int, qs, qe),
    decreases s.len(),
{
    let rest = s.drop_first();
    assert(forall|i: int| 0 <= i < rest.len() ==> rest[i] == s[i + 1]);
    if k == 0 {
        lemma_overlap_count_none(rest, qs, qe, v);
    } else {
        lemma_overlap_count_single(rest, qs, qe, v, k - 1);
    }
}

/// When no entry holds value `v`, the count for `v` is zero.
pub proof fn lemma_overlap_count_none(s: Seq<Entry>, qs: int, qe: int, v: usize)
    requires
        forall|i: int| 0 <= i < s.len() ==> (#[trigger] s[i]).value != v,
    ensures
        overlap_count(s, qs, qe, v) == 0,
    decreases s.len(),
{
    if s.len() > 0 {
        assert(forall|i: int|
            0 <= i < s.drop_first().len() ==> (#[trigger] s.drop_first()[i]).value != v);
        lemma_overlap_count_none(s.drop_first(), qs, qe, v);
    }
}

/// Counts of how many points of a query each value covers.
pub struct Counts {
    items: Vec<(usize, usize)>,
}

/// The count for `v` in an item sequence, zero when absent.
pub open spec fn items_count(s: Seq<(usize, usize)>, v: usize) -> int {
    if exists|i: int| 0 <= i < s.len() && (#[trigger] s[i]).0 == v {
        s[choose|i: int| 0 <= i < s.len() && (#[trigger] s[i]).0 == v].1 as int
    } else {
        0
    }
}

/// No value occurs twice in the item sequence.
pub open spec fn items_unique(s: Seq<(usize, usize)>) -> bool {
    forall|i: int, j: int| 0 <= i < j < s.len() ==> (#[trigger] s[i]).0 != (#[trigger] s[j]).0
}

/// In a duplicate-free item sequence, any position holding `v` gives the
/// count for `v`.
pub proof fn lemma_items_count_at(s: Seq<(usize, usize)>, v: usize, k: int)
    requires
        items_unique(s),
        0 <= k < s.len(),
        s[k].0 == v,
    ensures
        items_count(s, v) == s[k].1,
{
    let c = choose|i: int| 0 <= i < s.len() && (#[trigger] s[i]).0 == v;
    if c < k {
        assert(s[c].0 != s[k].0);
    } else if c > k {
        assert(s[k].0 != s[c].0);
    }
}

/// The sum of all stored counts.
pub open spec fn items_total(s: Seq<(usize, usize)>) -> int
    decreases s.len(),
{
    if s.len() == 0 {
        0
    } else {
        s[0].1 + items_total(s.drop_first())
    }
}

impl Counts {
    /// The items, as (value, count) pairs with distinct values.
    pub closed spec fn items_view(self) -> Seq<(usize, usize)> {
        self.items@
    }

    /// Values occur at most once.
    pub open spec fn wf(self) -> bool {
        items_unique(self.items_view())
    }

    /// The count recorded for value `v`, zero when absent.
    pub open spec fn count(self, v: usize) -> int {
        items_count(self.items_view(), v)
    }

    /// The sum of all counts.
    pub open spec fn total(self) -> int {
        items_total(self.items_view())
    }

    /// An empty tally.
    pub fn new() -> (r: Counts)
        ensures
            r.wf(),
            r.total() == 0,
            forall|v: usize| r.count(v) == 0,
            r.items_view().len() == 0,
    {
        Counts { items: Vec::new() }
    }

    /// The number of distinct values counted.
    pub fn len(&self) -> (n: usize)
        ensures
            n == self.items_view().len(),
    {
        self.items.len()
    }

    /// The pair at a position.
    pub fn item_at(&self, i: usize) -> (r: (usize, usize))
        requires
            i < self.items_view().len(),
        ensures
            r == self.items_view()[i as int],
    {
        self.items[i]
    }

    /// Read the count for a value.
    pub fn get(&self, v: usize) -> (n: usize)
        requires
            self.wf(),
        ensures
            n == self.count(v),
    {
        let len = self.items.len();
        let mut i: usize = 0;
        while i < len
            invariant
                len == self.items@.len(),
                i <= len,
                forall|j: int| 0 <= j < i ==> (#[trigger] self.items@[j]).0 != v,
                self.wf(),
            decreases len - i,
        {
            if self.items[i].0 == v {
                proof {
                    let c = choose|k: int|
                        0 <= k < self.items@.len() && (#[trigger] self.items@[k]).0 == v;
                    assert(c == i);
                }
                return self.items[i].1;
            }
            i = i + 1;
        }
        0
    }
}

/// Adding to a tally: one value's count grows, the others stay.
impl Counts {
    /// Add `n` points to the count of `v`.
    pub fn add(&mut self, v: usize, n: usize)
        requires
            old(self).wf(),
            old(self).total() + n <= usize::MAX,
        ensures
            final(self).wf(),
            final(self).count(v) == old(self).count(v) + n,
            forall|w: usize| w != v ==> final(self).count(w) == old(self).count(w),
            final(self).total() == old(self).total() + n,
    {
        let len = self.items.len();
        let mut i: usize = 0;
        while i < len
            invariant
                len == self.items@.len(),
                i <= len,
                forall|j: int| 0 <= j < i ==> (#[trigger] self.items@[j]).0 != v,
                self == old(self),
                items_unique(self.items@),
                items_total(self.items@) + n <= usize::MAX,
            decreases len - i,
        {
            if self.items[i].0 == v {
                let ghost before = self.items@;
                proof {
                    lemma_items_count_at(before, v, i as int);
                    lemma_items_total_update(before, i as int, n as int);
                    lemma_total_bounds_entry(before, i as int);
                }
                let cur = self.items[i].1;
                self.items.set(i, (v, cur + n));
                proof {
                    let after = self.items@;
                    assert(after =~= before.update(i as int, (v, (before[i as int].1 + n) as usize)));
                    assert(items_unique(after)) by {
                        assert(forall|k: int| 0 <= k < after.len() ==> after[k].0 == before[k].0);
                    }
                    lemma_items_count_at(after, v, i as int);
                    assert forall|w: usize| w != v implies items_count(after, w) == items_count(
                        before,
                        w,
                    ) by {
                        lemma_count_same(before, after, w);
                    }
                }
                return ;
            }
            i = i + 1;
        }
        let ghost before = self.items@;
        self.items.push((v, n));
        proof {
            let after = self.items@;
            lemma_items_total_snoc(before, (v, n));
            assert(items_unique(after)) by {
                assert(forall|k: int| 0 <= k < before.len() ==> after[k] == before[k]);
                assert(after[before.len() as int].0 == v);
            }
            lemma_items_count_at(after, v, before.len() as int);
            assert(items_count(before, v) == 0);
            assert forall|w: usize| w != v implies items_count(after, w) == items_count(
                before,
                w,
            ) by {
                lemma_count_same(before, after, w);
            }
        }
    }
}

/// Two duplicate-free item sequences that agree on every position
/// holding `w` hold the same count for `w`.
proof fn lemma_count_same(s1: Seq<(usize, usize)>, s2: Seq<(usize, usize)>, w: usize)
    requires
        items_unique(s1),
        items_unique(s2),
        forall|k: int|
            0 <= k < s1.len() && (#[trigger] s1[k]).0 == w ==> k < s2.len() && s2[k] == s1[k],
        forall|k: int|
            0 <= k < s2.len() && (#[trigger] s2[k]).0 == w ==> k < s1.len() && s1[k] == s2[k],
    ensures
        items_count(s2, w) == items_count(s1, w),
{
    if exists|k: int| 0 <= k < s1.len() && (#[trigger] s1[k]).0 == w {
        let k1 = choose|k: int| 0 <= k < s1.len() && (#[trigger] s1[k]).0 == w;
        lemma_items_count_at(s1, w, k1);
        assert(s2[k1].0 == w);
        lemma_items_count_at(s2, w, k1);
    } else {
        if exists|k: int| 0 <= k < s2.len() && (#[trigger] s2[k]).0 == w {
            let k2 = choose|k: int| 0 <= k < s2.len() && (#[trigger] s2[k]).0 == w;
            assert(s1[k2].0 == w);
        }
    }
}

proof fn lemma_items_total_update(s: Seq<(usize, usize)>, i: int, n: int)
    requires
        0 <= i < s.len(),
        0 <= n,
    ensures
        items_total(s.update(i, (s[i].0, (s[i].1 + n) as usize))) == items_total(s) - s[i].1 + ((
        s[i].1 + n) as usize),
    decreases s.len(),
{
    if i == 0 {
        assert(s.update(0, (s[0].0, (s[0].1 + n) as usize)).drop_first() =~= s.drop_first());
    } else {
        assert(s.update(i, (s[i].0, (s[i].1 + n) as usize)).drop_first() =~= s.drop_first().update(
            i - 1,
            (s[i].0, (s[i].1 + n) as usize),
        ));
        lemma_items_total_update(s.drop_first(), i - 1, n);
    }
}

pub proof fn lemma_items_total_snoc(s: Seq<(usize, usize)>, x: (usize, usize))
    ensures
        items_total(s.push(x)) == items_total(s) + x.1,
    decreases s.len(),
{
    let c = s.push(x);
    if s.len() == 0 {
        assert(c.drop_first() =~= Seq::<(usize, usize)>::empty());
        assert(c[0] == x);
        assert(items_total(c) == x.1 + items_total(c.drop_first()));
    } else {
        assert(c.drop_first() =~= s.drop_first().push(x));
        assert(c[0] == s[0]);
        lemma_items_total_snoc(s.drop_first(), x);
        assert(items_total(c) == s[0].1 + items_total(s.drop_first().push(x)));
    }
}

/// Every stored count is bounded by the total of all counts.
proof fn lemma_total_bounds_entry(s: Seq<(usize, usize)>, i: int)
    requires
        0 <= i < s.len(),
    ensures
        s[i].1 <= items_total(s),
        0 <= items_total(s),
    decreases s.len(),
{
    if i == 0 {
        lemma_items_total_nonneg(s.drop_first());
    } else {
        lemma_total_bounds_entry(s.drop_first(), i - 1);
    }
}

pub proof fn lemma_items_total_nonneg(s: Seq<(usize, usize)>)
    ensures
        0 <= items_total(s),
    decreases s.len(),
{
    if s.len() > 0 {
        lemma_items_total_nonneg(s.drop_first());
    }
}

/// A prefix's total never exceeds the whole total.
pub proof fn lemma_items_total_prefix(s: Seq<(usize, usize)>, k: int)
    requires
        0 <= k <= s.len(),
    ensures
        0 <= items_total(s.take(k)) <= items_total(s),
    decreases s.len() - k,
{
    if k == s.len() {
        assert(s.take(k) =~= s);
        lemma_items_total_nonneg(s);
    } else {
        lemma_items_total_prefix(s, k + 1);
        assert(s.take(k + 1) =~= s.take(k).push(s[k]));
        lemma_items_total_snoc(s.take(k), s[k]);
        lemma_items_total_nonneg(s.take(k));
    }
}

/// Within a well-formed index, every entry ends before a later one starts,
/// so ends and starts are both increasing.
proof fn lemma_wf_concat(a: Seq<Entry>, b: Seq<Entry>)
    requires
        wf_entries(a),
        wf_entries(b),
        a.len() == 0 || b.len() == 0 || a.last().key.end < b.first().key.start,
    ensures
        wf_entries(a + b),
{
    let c = a + b;
    assert forall|i: int, j: int| 0 <= i < j < c.len() implies (#[trigger] c[i]).key.end < (
    #[trigger] c[j]).key.start by {
        if j < a.len() {
            assert(c[i] == a[i] && c[j] == a[j]);
        } else if i >= a.len() {
            assert(c[i] == b[i - a.len()] && c[j] == b[j - a.len()]);
        } else {
            assert(c[i] == a[i] && c[j] == b[j - a.len()]);
            if i < a.len() - 1 {
                assert(a[i].key.end < a[a.len() - 1].key.start);
            }
            if j - a.len() > 0 {
                assert(b[0].key.end < b[j - a.len()].key.start);
            }
        }
    }
    assert(forall|i: int| 0 <= i < c.len() ==> (#[trigger] c[i]).key.start <= c[i].key.end) by {
        assert(forall|i: int| 0 <= i < a.len() ==> c[i] == a[i]);
        assert(forall|i: int| a.len() <= i < c.len() ==> c[i] == b[i - a.len()]);
    }
}

/// A dense, ordered collection of disjoint intervals with values.
#[derive(Clone, Debug)]
pub struct SparseVec {
    entries: Vec<Entry>,
}

impl SparseVec {
    /// The entries, in order and pairwise disjoint.
    pub closed spec fn view_entries(self) -> Seq<Entry> {
        self.entries@
    }

    /// The structural invariant: ordered, disjoint, non-empty intervals.
    pub open spec fn wf(self) -> bool {
        wf_entries(self.view_entries())
    }

    /// An empty index.
    pub fn new() -> (r: SparseVec)
        ensures
            r.wf(),
            r.view_entries().len() == 0,
    {
        SparseVec { entries: Vec::new() }
    }

    /// An empty index with room reserved.
    pub fn with_capacity(capacity: usize) -> (r: SparseVec)
        ensures
            r.wf(),
            r.view_entries().len() == 0,
    {
        SparseVec { entries: Vec::with_capacity(capacity) }
    }

    /// Binary search for the entry containing `point`; on failure, the
    /// position where such an entry would sit.
    fn search(&self, point: usize) -> (r: Result<usize, usize>)
        requires
            self.wf(),
        ensures
            match r {
                Ok(i) => i < self.view_entries().len() && covers(
                    self.view_entries()[i as int],
                    point as int,
                ),
                Err(i) => i <= self.view_entries().len() && (forall|k: int|
                    0 <= k < i ==> (#[trigger] self.view_entries()[k]).key.end < point) && (forall|
                    k: int,
                |
                    i <= k < self.view_entries().len() ==> (
                    #[trigger] self.view_entries()[k]).key.start > point),
            },
    {
        let ghost s = self.entries@;
        let mut lo: usize = 0;
        let mut hi: usize = self.entries.len();
        while lo < hi
            invariant
                s == self.entries@,
                self.wf(),
                lo <= hi <= s.len(),
                forall|k: int| 0 <= k < lo ==> (#[trigger] s[k]).key.end < point,
                forall|k: int| hi <= k < s.len() ==> (#[trigger] s[k]).key.start > point,
            decreases hi - lo,
        {
            let mid = lo + (hi - lo) / 2;
            let e = self.entries[mid];
            if e.key.end < point {
                proof {
                    assert forall|k: int| 0 <= k < mid + 1 implies (#[trigger] s[k]).key.end
                        < point by {
                        if k < mid {
                            assert(s[k].key.end < s[mid as int].key.start);
                        }
                    }
                }
                lo = mid + 1;
            } else if e.key.start > point {
                proof {
                    assert forall|k: int| mid <= k < s.len() implies (#[trigger] s[k]).key.start
                        > point by {
                        if k > mid {
                            assert(s[mid as int].key.end < s[k].key.start);
                        }
                    }
                }
                hi = mid;
            } else {
                return Ok(mid);
            }
        }
        Err(lo)
    }

    /// The value at a point, if any interval covers it.
    pub fn get(&self, point: usize) -> (r: Option<usize>)
        requires
            self.wf(),
        ensures
            r == if covered(self.view_entries(), point as int) {
                Some(value_at(self.view_entries(), point as int))
            } else {
                None::<usize>
            },
    {
        match self.search(point) {
            Ok(i) => {
                proof {
                    lemma_unique_cover(self.entries@, point as int, i as int);
                }
                Some(self.entries[i].value)
            },
            Err(i) => {
                proof {
                    assert(!covered(self.entries@, point as int)) by {
                        if covered(self.entries@, point as int) {
                            let k = covering_index(self.entries@, point as int);
                            assert(covers(self.entries@[k], point as int));
                        }
                    }
                }
                None
            },
        }
    }

    /// The indices of the entries overlapping `[qs, qe]`, as a half-open
    /// range: everything before it ends left of the query, everything in
    /// it overlaps, everything after starts right of it.
    fn find_overlapping_indices(&self, qs: usize, qe: usize) -> (r: (usize, usize))
        requires
            self.wf(),
            qs <= qe,
        ensures
            r.0 <= r.1 <= self.view_entries().len(),
            forall|k: int| 0 <= k < r.0 ==> (#[trigger] self.view_entries()[k]).key.end < qs,
            forall|k: int|
                r.0 <= k < r.1 ==> (#[trigger] self.view_entries()[k]).key.start <= qe
                    && self.view_entries()[k].key.end >= qs,
            forall|k: int|
                r.1 <= k < self.view_entries().len() ==> (
                #[trigger] self.view_entries()[k]).key.start > qe,
    {
        let ghost s = self.entries@;
        let n = self.entries.len();
        let i = match self.search(qs) {
            Ok(i) => i,
            Err(i) => i,
        };
        let j = match self.search(qe) {
            Ok(j) => j + 1,
            Err(j) => j,
        };
        proof {
            assert(forall|k: int| 0 <= k < i ==> (#[trigger] s[k]).key.end < qs);
            assert(forall|k: int| j <= k < s.len() ==> (#[trigger] s[k]).key.start > qe);
            if i > j {
                assert(s[j as int].key.end < qs);
                assert(s[j as int].key.start > qe);
            }
            assert forall|k: int| i <= k < j implies (#[trigger] s[k]).key.start <= qe
                && s[k].key.end >= qs by {
                // every entry from i on reaches at least qs
                if k > i || !covers(s[i as int], qs as int) {
                    if k == i {
                    } else {
                        assert(s[i as int].key.end < s[k].key.start);
                    }
                }
                // every entry before j starts at or before qe
                if j > 0 && k < j - 1 {
                    assert(s[k].key.end < s[j - 1].key.start);
                }
            }
        }
        (i, j)
    }

    /// How many points of `[start, end]` each value covers, one count per
    /// value found.
    pub fn get_overlaps(&self, start: usize, end: usize) -> (r: Counts)
        requires
            self.wf(),
            start <= end,
            end - start < usize::MAX,
        ensures
            r.wf(),
            forall|v: usize|
                r.count(v) == overlap_count(self.view_entries(), start as int, end as int, v),
            r.total() == overlap_total(self.view_entries(), start as int, end as int),
    {
        let ghost s = self.entries@;
        let ghost qs = start as int;
        let ghost qe = end as int;
        let (i, j) = self.find_overlapping_indices(start, end);
        let mut counts = Counts::new();
        proof {
            assert(forall|k: int|
                0 <= k < s.take(i as int).len() ==> olen(
                    (#[trigger] s.take(i as int)[k]).key.start as int,
                    s.take(i as int)[k].key.end as int,
                    qs,
                    qe,
                ) == 0);
            lemma_overlap_none(s.take(i as int), qs, qe);
        }
        let mut k: usize = i;
        while k < j
            invariant
                s == self.entries@,
                self.wf(),
                start <= end,
                end - start < usize::MAX,
                qs == start as int,
                qe == end as int,
                i <= k <= j <= s.len(),
                forall|t: int| i <= t < j ==> (#[trigger] s[t]).key.start <= qe && s[t].key.end >= qs,
                counts.wf(),
                counts.total() == overlap_total(s.take(k as int), qs, qe),
                forall|v: usize| counts.count(v) == overlap_count(s.take(k as int), qs, qe, v),
            decreases j - k,
        {
            let e = self.entries[k];
            let lo = if e.key.start >= start {
                e.key.start
            } else {
                start
            };
            let hi = if e.key.end <= end {
                e.key.end
            } else {
                end
            };
            proof {
                assert(lo <= hi);
                assert(s.take(k + 1) =~= s.take(k as int).push(s[k as int]));
                lemma_overlap_snoc(s.take(k as int), s[k as int], qs, qe);
                assert(wf_entries(s.take(k + 1))) by {
                    assert(forall|t: int| 0 <= t < k + 1 ==> s.take(k + 1)[t] == s[t]);
                }
                lemma_overlap_total_bound(s.take(k + 1), qs, qe);
                assert(olen(e.key.start as int, e.key.end as int, qs, qe) == hi - lo + 1);
            }
            counts.add(e.value, hi - lo + 1);
            k = k + 1;
        }
        proof {
            assert(s =~= s.take(j as int) + s.skip(j as int));
            assert(forall|t: int|
                0 <= t < s.skip(j as int).len() ==> (#[trigger] s.skip(j as int)[t])
                    == s[t + j as int]);
            lemma_overlap_zero(s.skip(j as int), qs, qe);
            lemma_overlap_concat(s.take(j as int), s.skip(j as int), qs, qe);
        }
        counts
    }

    /// The values of the entries overlapping `[start, end]`, in order,
    /// with consecutive repeats collapsed.
    pub fn get_many(&self, start: usize, end: usize) -> (r: Vec<usize>)
        requires
            self.wf(),
            start <= end,
        ensures
            exists|lo: int, hi: int|
                #![trigger self.view_entries().subrange(lo, hi)]
                0 <= lo <= hi <= self.view_entries().len() && (forall|k: int|
                    0 <= k < lo ==> (#[trigger] self.view_entries()[k]).key.end < start) && (forall|
                    k: int,
                |
                    lo <= k < hi ==> (#[trigger] self.view_entries()[k]).key.start <= end
                        && self.view_entries()[k].key.end >= start) && (forall|k: int|
                    hi <= k < self.view_entries().len() ==> (
                    #[trigger] self.view_entries()[k]).key.start > end) && r@ == dedup_vals(
                    self.view_entries().subrange(lo, hi).map_values(|e: Entry| e.value),
                ),
    {
        let ghost s = self.entries@;
        let (lo, hi) = self.find_overlapping_indices(start, end);
        let mut out: Vec<usize> = Vec::new();
        let mut k: usize = lo;
        proof {
            assert(s.subrange(lo as int, lo as int).map_values(|e: Entry| e.value)
                =~= Seq::<usize>::empty());
        }
        while k < hi
            invariant
                s == self.entries@,
                lo <= k <= hi <= s.len(),
                out@ == dedup_vals(s.subrange(lo as int, k as int).map_values(|e: Entry| e.value)),
            decreases hi - k,
        {
            let v = self.entries[k].value;
            let ghost vals = s.subrange(lo as int, k as int).map_values(|e: Entry| e.value);
            let ghost vals2 = s.subrange(lo as int, k + 1).map_values(|e: Entry| e.value);
            proof {
                assert(vals2 =~= vals.push(s[k as int].value));
                if vals.len() > 0 {
                    lemma_dedup_last(vals);
                }
            }
            if out.len() == 0 {
                out.push(v);
                proof {
                    assert(vals.len() == 0);
                    assert(vals2.len() == 1);
                    assert(out@ =~= vals2);
                }
            } else {
                let last = out[out.len() - 1];
                if last != v {
                    out.push(v);
                    proof {
                        assert(vals2.last() != vals2[vals2.len() - 2]);
                        assert(vals2.drop_last() =~= vals);
                        assert(out@ =~= dedup_vals(vals).push(v));
                    }
                } else {
                    proof {
                        assert(vals2.last() == vals2[vals2.len() - 2]);
                        assert(vals2.drop_last() =~= vals);
                    }
                }
            }
            k = k + 1;
        }
        proof {
            assert(self.view_entries().subrange(lo as int, hi as int).len() == hi - lo);
        }
        out
    }

    /// Insert a value over a single point.
    pub fn insert(&mut self, point: usize, value: usize)
        requires
            old(self).wf(),
        ensures
            final(self).wf(),
            forall|p: int|
                covered(final(self).view_entries(), p) <==> (covered(old(self).view_entries(), p)
                    || p == point),
            forall|p: int|
                p == point ==> value_at(final(self).view_entries(), p) == value,
            forall|p: int|
                p != point && covered(old(self).view_entries(), p) ==> value_at(
                    final(self).view_entries(),
                    p,
                ) == value_at(old(self).view_entries(), p),
    {
        self.insert_many(point, point, value)
    }

    /// Insert a value over `[start, end]`, overwriting that range and
    /// clipping whatever older entries it overlaps.
    #[verifier::spinoff_prover]
    #[verifier::rlimit(100)]
    pub fn insert_many(&mut self, start: usize, end: usize, value: usize)
        requires
            old(self).wf(),
            start <= end,
        ensures
            final(self).wf(),
            forall|p: int|
                covered(final(self).view_entries(), p) <==> (covered(old(self).view_entries(), p)
                    || start <= p <= end),
            forall|p: int|
                start <= p <= end ==> value_at(final(self).view_entries(), p) == value,
            forall|p: int|
                !(start <= p <= end) && covered(old(self).view_entries(), p) ==> value_at(
                    final(self).view_entries(),
                    p,
                ) == value_at(old(self).view_entries(), p),
            (forall|k: int|
                0 <= k < old(self).view_entries().len() ==> olen(
                    (#[trigger] old(self).view_entries()[k]).key.start as int,
                    old(self).view_entries()[k].key.end as int,
                    start as int,
                    end as int,
                ) == 0) ==> exists|t: int|
                0 <= t <= old(self).view_entries().len() && final(self).view_entries() == old(
                    self,
                ).view_entries().insert(
                    t,
                    (Entry { key: Interval { start, end }, value }),
                ),
    {
        let ghost s = self.entries@;
        let ghost qs = start as int;
        let ghost qe = end as int;
        let m = Entry { key: Interval { start, end }, value };
        let (i, j) = self.find_overlapping_indices(start, end);

        if i == j {
            self.entries.insert(i, m);
            proof {
                let out = self.entries@;
                assert(out =~= s.take(i as int) + seq![m] + s.skip(i as int));
                lemma_wf_concat(s.take(i as int), seq![m]);
                lemma_wf_concat(s.take(i as int) + seq![m], s.skip(i as int));
                lemma_splice_points(s, out, i as int, j as int, m, None, None, qs, qe);
            }
            return ;
        }
        let entry_a = self.entries[i];
        let entry_z = self.entries[j - 1];

        let mut out: Vec<Entry> = Vec::new();
        let mut k: usize = 0;
        while k < i
            invariant
                s == self.entries@,
                k <= i <= s.len(),
                out@ =~= s.take(k as int),
            decreases i - k,
        {
            out.push(self.entries[k]);
            proof {
                assert(s.take(k + 1) =~= s.take(k as int).push(s[k as int]));
            }
            k = k + 1;
        }
        let left: Option<Entry> = if entry_a.key.start < start {
            let l = Entry {
                key: Interval { start: entry_a.key.start, end: start - 1 },
                value: entry_a.value,
            };
            out.push(l);
            Some(l)
        } else {
            None
        };
        let ghost lseq: Seq<Entry> = match left {
            Some(l) => seq![l],
            None => Seq::<Entry>::empty(),
        };
        proof {
            assert(out@ =~= s.take(i as int) + lseq);
        }
        out.push(m);
        let right: Option<Entry> = if entry_z.key.end > end {
            let r = Entry {
                key: Interval { start: end + 1, end: entry_z.key.end },
                value: entry_z.value,
            };
            out.push(r);
            Some(r)
        } else {
            None
        };
        let ghost rseq: Seq<Entry> = match right {
            Some(r) => seq![r],
            None => Seq::<Entry>::empty(),
        };
        let ghost mid = lseq + seq![m] + rseq;
        let ghost base = s.take(i as int) + mid;
        proof {
            assert(out@ =~= base);
        }
        let mut k: usize = j;
        let n = self.entries.len();
        while k < n
            invariant
                s == self.entries@,
                j <= k <= n == s.len(),
                out@ =~= base + s.subrange(j as int, k as int),
            decreases n - k,
        {
            out.push(self.entries[k]);
            proof {
                assert(s.subrange(j as int, k + 1) =~= s.subrange(j as int, k as int).push(
                    s[k as int],
                ));
                assert(base + s.subrange(j as int, k as int).push(s[k as int]) =~= (base
                    + s.subrange(j as int, k as int)).push(s[k as int]));
            }
            k = k + 1;
        }
        proof {
            assert(s.subrange(j as int, s.len() as int) =~= s.skip(j as int));
            assert(out@ =~= s.take(i as int) + mid + s.skip(j as int));
            lemma_mid_wf(mid, left, m, right);
            assert(wf_entries(s.take(i as int))) by {
                assert(forall|t: int| 0 <= t < i ==> s.take(i as int)[t] == s[t]);
            }
            assert(wf_entries(s.skip(j as int))) by {
                assert(forall|t: int|
                    0 <= t < s.len() - j ==> s.skip(j as int)[t] == s[t + j as int]);
            }
            // the kept prefix ends before the middle begins
            if i > 0 {
                assert(s[i - 1].key.end < qs);
                assert(s[i - 1].key.end < s[i as int].key.start);
            }
            lemma_wf_concat(s.take(i as int), mid);
            assert((s.take(i as int) + mid).last() == mid.last());
            // the middle ends before the kept suffix begins
            if j < s.len() {
                assert(s[j - 1].key.end < s[j as int].key.start);
            }
            lemma_wf_concat(s.take(i as int) + mid, s.skip(j as int));
        }
        self.entries = out;
        proof {
            assert(self.entries@ =~= s.take(i as int) + lseq + seq![m] + rseq + s.skip(j as int));
            lemma_splice_points(s, self.entries@, i as int, j as int, m, left, right, qs, qe);
            assert(olen(s[i as int].key.start as int, s[i as int].key.end as int, qs, qe) > 0);
        }
    }
}

/// The middle section of a splice is well formed: an optional left clip,
/// the new entry, an optional right clip, in strictly increasing order.
proof fn lemma_mid_wf(mid: Seq<Entry>, left: Option<Entry>, m: Entry, right: Option<Entry>)
    requires
        m.key.start <= m.key.end,
        mid == (match left {
            Some(l) => seq![l],
            None => Seq::<Entry>::empty(),
        }) + seq![m] + (match right {
            Some(r) => seq![r],
            None => Seq::<Entry>::empty(),
        }),
        left matches Some(l) ==> l.key.start <= l.key.end && l.key.end + 1 == m.key.start,
        right matches Some(r) ==> r.key.start <= r.key.end && m.key.end + 1 == r.key.start,
    ensures
        wf_entries(mid),
        mid.first().key.start == (match left {
            Some(l) => l.key.start as int,
            None => m.key.start as int,
        }),
        mid.last().key.end == (match right {
            Some(r) => r.key.end as int,
            None => m.key.end as int,
        }),
{
    match (left, right) {
        (None, None) => {
            assert(mid =~= seq![m]);
        },
        (Some(l), None) => {
            assert(mid =~= seq![l, m]);
        },
        (None, Some(r)) => {
            assert(mid =~= seq![m, r]);
        },
        (Some(l), Some(r)) => {
            assert(mid =~= seq![l, m, r]);
        },
    }
}

/// After a splice, the points inside the inserted range read the new
/// value; every other point reads exactly what it read before.
#[verifier::rlimit(30)]
proof fn lemma_splice_points(
    s: Seq<Entry>,
    out: Seq<Entry>,
    i: int,
    j: int,
    m: Entry,
    left: Option<Entry>,
    right: Option<Entry>,
    qs: int,
    qe: int,
)
    requires
        wf_entries(s),
        wf_entries(out),
        0 <= i <= j <= s.len(),
        m.key.start as int == qs,
        m.key.end as int == qe,
        qs <= qe,
        out == s.take(i) + (match left {
            Some(l) => seq![l],
            None => Seq::<Entry>::empty(),
        }) + seq![m] + (match right {
            Some(r) => seq![r],
            None => Seq::<Entry>::empty(),
        }) + s.skip(j),
        forall|k: int| 0 <= k < i ==> (#[trigger] s[k]).key.end < qs,
        forall|k: int| i <= k < j ==> (#[trigger] s[k]).key.start <= qe && s[k].key.end >= qs,
        forall|k: int| j <= k < s.len() ==> (#[trigger] s[k]).key.start > qe,
        left matches Some(l) ==> i < j && l.value == s[i].value && l.key.start == s[i].key.start
            && l.key.end + 1 == qs,
        left is None ==> i == j || s[i].key.start >= qs,
        right matches Some(r) ==> i < j && r.value == s[j - 1].value && r.key.end == s[j
            - 1].key.end && r.key.start == qe + 1,
        right is None ==> i == j || s[j - 1].key.end <= qe,
    ensures
        forall|p: int| covered(out, p) <==> (covered(s, p) || qs <= p <= qe),
        forall|p: int| qs <= p <= qe ==> value_at(out, p) == m.value,
        forall|p: int|
            !(qs <= p <= qe) && covered(s, p) ==> value_at(out, p) == value_at(s, p),
{
    let lseq = match left {
        Some(l) => seq![l],
        None => Seq::<Entry>::empty(),
    };
    let rseq = match right {
        Some(r) => seq![r],
        None => Seq::<Entry>::empty(),
    };
    let im = i + lseq.len();
    assert(out[im] == m);
    let suf0 = im + 1 + rseq.len();

    assert forall|p: int| qs <= p <= qe implies covered(out, p) && value_at(out, p)
        == m.value by {
        lemma_unique_cover(out, p, im);
    }
    assert forall|p: int| !(qs <= p <= qe) && covered(s, p) implies covered(out, p) && value_at(
        out,
        p,
    ) == value_at(s, p) by {
        let k = covering_index(s, p);
        assert(covers(s[k], p));
        lemma_unique_cover(s, p, k);
        if p < qs {
            if k < i {
                assert(out[k] == s[k]);
                lemma_unique_cover(out, p, k);
            } else {
                // only the first overlapped entry can reach left of qs
                assert(k < j);
                if k > i {
                    assert(s[i].key.end >= qs);
                    assert(s[k].key.start > s[i].key.end);
                    assert(false);
                }
                // s[i] covers p < qs, so its left part was kept
                assert(s[i].key.start <= p < qs);
                let l = left->0;
                assert(out[i] == l);
                assert(covers(l, p));
                lemma_unique_cover(out, p, i);
            }
        } else {
            // p > qe
            if k >= j {
                assert(out[suf0 + (k - j)] == s[k]);
                lemma_unique_cover(out, p, suf0 + (k - j));
            } else {
                assert(k >= i);
                if k < j - 1 {
                    assert(s[j - 1].key.start <= qe);
                    assert(s[k].key.end < s[j - 1].key.start);
                    assert(false);
                }
                assert(s[j - 1].key.end >= p > qe);
                let r = right->0;
                assert(out[im + 1] == r);
                assert(covers(r, p));
                lemma_unique_cover(out, p, im + 1);
            }
        }
    }
    assert forall|p: int| covered(out, p) implies (covered(s, p) || qs <= p <= qe) by {
        let k = covering_index(out, p);
        assert(covers(out[k], p));
        if k < i {
            assert(out[k] == s[k]);
            assert(covered(s, p));
        } else if k < im {
            let l = left->0;
            assert(out[k] == l);
            assert(covers(s[i], p));
            assert(covered(s, p));
        } else if k == im {
        } else if k < suf0 {
            let r = right->0;
            assert(out[k] == r);
            assert(covers(s[j - 1], p));
            assert(covered(s, p));
        } else {
            assert(out[k] == s[k - suf0 + j]);
            assert(covered(s, p));
        }
    }
}

/// Consecutive repeats removed, from the left.
pub open spec fn dedup_vals(s: Seq<usize>) -> Seq<usize>
    decreases s.len(),
{
    if s.len() == 0 {
        Seq::empty()
    } else if s.len() == 1 {
        s
    } else if s.last() == s[s.len() - 2] {
        dedup_vals(s.drop_last())
    } else {
        dedup_vals(s.drop_last()).push(s.last())
    }
}

/// A deduplicated nonempty run keeps its last value last.
proof fn lemma_dedup_last(s: Seq<usize>)
    requires
        s.len() > 0,
    ensures
        dedup_vals(s).len() > 0,
        dedup_vals(s).last() == s.last(),
    decreases s.len(),
{
    if s.len() > 1 && s.last() == s[s.len() - 2] {
        lemma_dedup_last(s.drop_last());
        assert(s.drop_last().last() == s.last());
    }
}

} // verus!
