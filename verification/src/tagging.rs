//! Entity sets: the entities of one file, topologically ordered, with
//! location tables for innermost lookup and overlap counting.
//!
//! The set keeps its entities parent-before-child. Each entity's row and
//! byte intervals are inserted into sparse tables in that order, so a
//! child overwrites its parent on the child's own range and a point
//! lookup lands on the innermost enclosing entity. The root entity is
//! widened to the whole axis so every lookup resolves at least to the
//! file.

use vstd::prelude::*;
use vstd::string::StringSliceAdditionalSpecFns;
use vstd::utf8::encode_utf8;

use crate::entity::Entity;
use crate::entity::EntityId;
use crate::entity::SimpleEntityId;
use crate::entity::EntityKind;
use crate::ids::ContentId;
use crate::span::span_encloses;
use crate::span::Position;
use crate::span::Span;
use crate::span::PartialPosition;
use crate::span::PartialSpan;
use crate::sparse::covered;
use crate::sparse::value_at;
use crate::sparse::wf_entries;
use crate::sparse::SparseVec;
use crate::strutil::bytes_lt;
use crate::strutil::lemma_bytes_lt_total;
use crate::strutil::str_eq;
use crate::strutil::str_less;

verus! {

/// The lower end of the interval entity `t` occupies on the row axis;
/// the root is widened to the whole axis.
pub open spec fn row_lo(es: Seq<Entity>, t: int) -> int {
    if es[t].parent_id is None {
        0
    } else {
        es[t].location.start.row as int
    }
}

/// The upper end of entity `t`'s row interval.
pub open spec fn row_hi(es: Seq<Entity>, t: int) -> int {
    if es[t].parent_id is None {
        usize::MAX as int
    } else {
        es[t].location.end.row as int
    }
}

/// The lower end of entity `t`'s byte interval.
pub open spec fn byte_lo(es: Seq<Entity>, t: int) -> int {
    if es[t].parent_id is None {
        0
    } else {
        es[t].location.start.byte as int
    }
}

/// The upper end of entity `t`'s byte interval.
pub open spec fn byte_hi(es: Seq<Entity>, t: int) -> int {
    if es[t].parent_id is None {
        usize::MAX as int
    } else {
        es[t].location.end.byte as int
    }
}

/// The interval of entity `t` on the chosen axis.
pub open spec fn int_lo(es: Seq<Entity>, t: int, rows: bool) -> int {
    if rows {
        row_lo(es, t)
    } else {
        byte_lo(es, t)
    }
}

/// See `int_lo`.
pub open spec fn int_hi(es: Seq<Entity>, t: int, rows: bool) -> int {
    if rows {
        row_hi(es, t)
    } else {
        byte_hi(es, t)
    }
}

/// Point `p` lies in entity `t`'s interval on the chosen axis.
pub open spec fn in_int(es: Seq<Entity>, t: int, rows: bool, p: int) -> bool {
    int_lo(es, t, rows) <= p <= int_hi(es, t, rows)
}

/// The entities are a topologically ordered nest:
/// the first entity is the root and the only one without a parent; every
/// other entity's parent occurs earlier and its span encloses the
/// child's; and of two entities whose intervals overlap, the later lies
/// inside the earlier.
pub open spec fn wf_topo(es: Seq<Entity>) -> bool {
    &&& es.len() >= 1
    &&& es[0].parent_id is None
    &&& forall|t: int| 1 <= t < es.len() ==> (#[trigger] es[t]).parent_id is Some
    &&& forall|t: int|
        1 <= t < es.len() ==> exists|s: int|
            0 <= s < t && (#[trigger] es[s]).id == (#[trigger] es[t]).parent_id->0
                && span_encloses(es[s].location, es[t].location)
    &&& forall|t: int| 0 <= t < es.len() ==> (#[trigger] row_lo(es, t)) <= row_hi(es, t)
    &&& forall|t: int| 0 <= t < es.len() ==> (#[trigger] byte_lo(es, t)) <= byte_hi(es, t)
    &&& laminar(es, true)
    &&& laminar(es, false)
}

/// Of two overlapping intervals, the later one lies inside the earlier.
pub open spec fn laminar(es: Seq<Entity>, rows: bool) -> bool {
    forall|t1: int, t2: int|
        #![trigger int_lo(es, t1, rows), int_lo(es, t2, rows)]
        0 <= t1 < t2 < es.len() && int_lo(es, t1, rows) <= int_hi(es, t2, rows) && int_lo(
            es,
            t2,
            rows,
        ) <= int_hi(es, t1, rows) ==> int_lo(es, t1, rows) <= int_lo(es, t2, rows) && int_hi(
            es,
            t2,
            rows,
        ) <= int_hi(es, t1, rows)
}

/// The table holds, for every covered point, the latest entity among the
/// first `n` whose interval contains it.
pub open spec fn table_ok(
    tbl: Seq<crate::sparse::Entry>,
    es: Seq<Entity>,
    n: int,
    rows: bool,
) -> bool {
    &&& wf_entries(tbl)
    &&& forall|p: int|
        covered(tbl, p) <==> exists|t: int| 0 <= t < n && #[trigger] in_int(es, t, rows, p)
    &&& forall|p: int|
        #[trigger] covered(tbl, p) ==> 0 <= value_at(tbl, p) < n && in_int(
            es,
            value_at(tbl, p) as int,
            rows,
            p,
        )
    &&& forall|p: int, t: int|
        covered(tbl, p) && 0 <= t < n && #[trigger] in_int(es, t, rows, p) ==> t <= value_at(
            tbl,
            p,
        )
}

/// The ordered collection of entities contained within one file version.
#[derive(Clone, Debug)]
pub struct EntitySet {
    entities: Vec<Entity>,
    bytes: SparseVec,
    rows: SparseVec,
}

impl EntitySet {
    /// The entities, parents before children.
    pub closed spec fn view_entities(self) -> Seq<Entity> {
        self.entities@
    }

    /// The row table's entries.
    pub closed spec fn rows_view(self) -> Seq<crate::sparse::Entry> {
        self.rows.view_entries()
    }

    /// The byte table's entries.
    pub closed spec fn bytes_view(self) -> Seq<crate::sparse::Entry> {
        self.bytes.view_entries()
    }

    /// The set is a topologically ordered nest and both tables reflect it.
    pub open spec fn wf(self) -> bool {
        &&& wf_topo(self.view_entities())
        &&& table_ok(
            self.rows_view(),
            self.view_entities(),
            self.view_entities().len() as int,
            true,
        )
        &&& table_ok(
            self.bytes_view(),
            self.view_entities(),
            self.view_entities().len() as int,
            false,
        )
    }

    /// What a lookup of `position` returns: the innermost entity's id.
    pub open spec fn spec_find(self, position: PartialPosition) -> Option<EntityId> {
        let (tbl, p) = match position {
            PartialPosition::Row(row) => (self.rows_view(), row as int),
            PartialPosition::Whole(w) => (self.bytes_view(), w.byte as int),
        };
        if covered(tbl, p) {
            Some(self.view_entities()[value_at(tbl, p) as int].id)
        } else {
            None
        }
    }

    /// Build an entity set from an already-validated topological nest.
    pub fn from_topo_vec(entities: Vec<Entity>) -> (r: EntitySet)
        requires
            wf_topo(entities@),
        ensures
            r.wf(),
            r.view_entities() == entities@,
    {
        let ghost es = entities@;
        let n = entities.len();
        let mut bytes = SparseVec::with_capacity(n);
        let mut rows = SparseVec::with_capacity(n);
        let mut t: usize = 0;
        proof {
            assert(table_ok(rows.view_entries(), es, 0, true));
            assert(table_ok(bytes.view_entries(), es, 0, false));
        }
        while t < n
            invariant
                es == entities@,
                wf_topo(es),
                n == es.len(),
                t <= n,
                rows.wf(),
                bytes.wf(),
                table_ok(rows.view_entries(), es, t as int, true),
                table_ok(bytes.view_entries(), es, t as int, false),
            decreases n - t,
        {
            let e = &entities[t];
            if e.parent_id.is_none() {
                rows.insert_many(0, usize::MAX, t);
                bytes.insert_many(0, usize::MAX, t);
            } else {
                proof {
                    assert(row_lo(es, t as int) <= row_hi(es, t as int));
                    assert(byte_lo(es, t as int) <= byte_hi(es, t as int));
                }
                rows.insert_many(e.location.start.row, e.location.end.row, t);
                bytes.insert_many(e.location.start.byte, e.location.end.byte, t);
            }
            proof {
                lemma_table_step(rows.view_entries(), es, t as int, true);
                lemma_table_step(bytes.view_entries(), es, t as int, false);
            }
            t = t + 1;
        }
        EntitySet { entities, bytes, rows }
    }

    /// The entities in topological order, consuming the set.
    pub fn into_entities_vec(self) -> (r: Vec<Entity>)
        ensures
            r@ == self.view_entities(),
    {
        self.entities
    }

    /// The number of entities.
    pub fn len(&self) -> (n: usize)
        ensures
            n == self.view_entities().len(),
    {
        self.entities.len()
    }

    /// The entity at a topological position.
    pub fn entity_at(&self, i: usize) -> (r: &Entity)
        requires
            i < self.view_entities().len(),
        ensures
            *r == self.view_entities()[i as int],
    {
        &self.entities[i]
    }

    /// The innermost entity enclosing the position, if any.
    pub fn find_id(&self, position: PartialPosition) -> (r: Option<EntityId>)
        requires
            self.wf(),
        ensures
            r == self.spec_find(position),
    {
        match position {
            PartialPosition::Row(row) => {
                match self.rows.get(row) {
                    Some(t) => Some(self.entities[t].id),
                    None => None,
                }
            },
            PartialPosition::Whole(w) => {
                match self.bytes.get(w.byte) {
                    Some(t) => Some(self.entities[t].id),
                    None => None,
                }
            },
        }
    }
}

/// One table-building step keeps the table law: inserting entity `t`'s
/// interval over a table reflecting the first `t` entities yields a table
/// reflecting the first `t + 1`.
proof fn lemma_table_step(tbl: Seq<crate::sparse::Entry>, es: Seq<Entity>, t: int, rows: bool)
    requires
        0 <= t < es.len(),
        wf_entries(tbl),
        int_lo(es, t, rows) <= int_hi(es, t, rows),
        // the table after the insert, described by the insert's contract
        forall|p: int|
            covered(tbl, p) <==> ((exists|t2: int|
                0 <= t2 < t && #[trigger] in_int(es, t2, rows, p)) || in_int(es, t, rows, p)),
        forall|p: int| in_int(es, t, rows, p) ==> covered(tbl, p) && value_at(tbl, p) == t,
        forall|p: int|
            !in_int(es, t, rows, p) && #[trigger] covered(tbl, p) ==> (0 <= value_at(tbl, p) < t
                && in_int(es, value_at(tbl, p) as int, rows, p) && forall|t2: int|
                0 <= t2 < t && in_int(es, t2, rows, p) ==> t2 <= value_at(tbl, p)),
    ensures
        table_ok(tbl, es, t + 1, rows),
{
    assert forall|p: int| covered(tbl, p) implies (exists|t2: int|
        0 <= t2 < t + 1 && #[trigger] in_int(es, t2, rows, p)) by {
        if in_int(es, t, rows, p) {
        } else {
            let t2 = choose|t2: int| 0 <= t2 < t && #[trigger] in_int(es, t2, rows, p);
            assert(in_int(es, t2, rows, p));
        }
    }
    assert forall|p: int| (exists|t2: int| 0 <= t2 < t + 1 && #[trigger] in_int(es, t2, rows, p))
        implies covered(tbl, p) by {
        let t2 = choose|t2: int| 0 <= t2 < t + 1 && #[trigger] in_int(es, t2, rows, p);
        if t2 < t {
            assert(exists|t3: int| 0 <= t3 < t && #[trigger] in_int(es, t3, rows, p));
        }
    }
}

/// Every non-root entity's parent exists in the set, earlier in the
/// order, and its span encloses the child's.
pub proof fn lemma_parent_encloses(es: EntitySet, t: int)
    requires
        es.wf(),
        1 <= t < es.view_entities().len(),
    ensures
        es.view_entities()[t].parent_id is Some,
        exists|s: int|
            0 <= s < t && (#[trigger] es.view_entities()[s]).id
                == es.view_entities()[t].parent_id->0 && span_encloses(
                es.view_entities()[s].location,
                es.view_entities()[t].location,
            ),
{
}

/// Parents come before their children: the order is topological.
pub proof fn lemma_topological_order(es: EntitySet, t: int)
    requires
        es.wf(),
        1 <= t < es.view_entities().len(),
    ensures
        exists|s: int|
            0 <= s < t && (#[trigger] es.view_entities()[s]).id
                == es.view_entities()[t].parent_id->0,
{
    let s = choose|s: int|
        0 <= s < t && (#[trigger] es.view_entities()[s]).id == es.view_entities()[t].parent_id->0
            && span_encloses(es.view_entities()[s].location, es.view_entities()[t].location);
    assert(es.view_entities()[s].id == es.view_entities()[t].parent_id->0);
}

/// A lookup is innermost: the entity found contains the row, and its row
/// interval lies within that of every entity containing the row.
pub proof fn lemma_lookup_innermost(es: EntitySet, row: int, t: int)
    requires
        es.wf(),
        0 <= t < es.view_entities().len(),
        in_int(es.view_entities(), t, true, row),
    ensures
        covered(es.rows_view(), row),
        in_int(es.view_entities(), value_at(es.rows_view(), row) as int, true, row),
        forall|t2: int|
            0 <= t2 < es.view_entities().len() && #[trigger] in_int(
                es.view_entities(),
                t2,
                true,
                row,
            ) ==> row_lo(es.view_entities(), t2) <= row_lo(
                es.view_entities(),
                value_at(es.rows_view(), row) as int,
            ) && row_hi(es.view_entities(), value_at(es.rows_view(), row) as int) <= row_hi(
                es.view_entities(),
                t2,
            ),
{
    let view = es.view_entities();
    let tbl = es.rows_view();
    assert(covered(tbl, row)) by {
        assert(exists|t2: int| 0 <= t2 < view.len() && #[trigger] in_int(view, t2, true, row));
    }
    let v = value_at(tbl, row) as int;
    assert forall|t2: int|
        0 <= t2 < view.len() && #[trigger] in_int(view, t2, true, row) implies row_lo(view, t2)
        <= row_lo(view, v) && row_hi(view, v) <= row_hi(view, t2) by {
        assert(t2 <= v);
        if t2 < v {
            assert(int_lo(view, t2, true) <= int_hi(view, v, true) && int_lo(view, v, true)
                <= int_hi(view, t2, true));
        }
    }
}

/// Counts keyed by stable entity id: how many changed rows or bytes fall
/// to each entity.
pub struct IdCounts {
    items: Vec<(SimpleEntityId, usize)>,
}

/// The count for `id` in an item sequence, zero when absent.
pub open spec fn id_items_count(s: Seq<(SimpleEntityId, usize)>, id: SimpleEntityId) -> int {
    if exists|i: int| 0 <= i < s.len() && (#[trigger] s[i]).0 == id {
        s[choose|i: int| 0 <= i < s.len() && (#[trigger] s[i]).0 == id].1 as int
    } else {
        0
    }
}

/// Some item holds `id`.
pub open spec fn id_items_has(s: Seq<(SimpleEntityId, usize)>, id: SimpleEntityId) -> bool {
    exists|i: int| 0 <= i < s.len() && (#[trigger] s[i]).0 == id
}

/// No id occurs twice.
pub open spec fn id_items_unique(s: Seq<(SimpleEntityId, usize)>) -> bool {
    forall|i: int, j: int| 0 <= i < j < s.len() ==> (#[trigger] s[i]).0 != (#[trigger] s[j]).0
}

/// The sum of all stored counts.
pub open spec fn id_items_total(s: Seq<(SimpleEntityId, usize)>) -> int
    decreases s.len(),
{
    if s.len() == 0 {
        0
    } else {
        s[0].1 + id_items_total(s.drop_first())
    }
}

/// In a duplicate-free item sequence, any position holding `id` gives the
/// count for `id`.
pub proof fn lemma_id_items_count_at(s: Seq<(SimpleEntityId, usize)>, id: SimpleEntityId, k: int)
    requires
        id_items_unique(s),
        0 <= k < s.len(),
        s[k].0 == id,
    ensures
        id_items_count(s, id) == s[k].1,
        id_items_has(s, id),
{
    let c = choose|i: int| 0 <= i < s.len() && (#[trigger] s[i]).0 == id;
    if c < k {
        assert(s[c].0 != s[k].0);
    } else if c > k {
        assert(s[k].0 != s[c].0);
    }
}

pub proof fn lemma_id_items_total_snoc(s: Seq<(SimpleEntityId, usize)>, x: (SimpleEntityId, usize))
    ensures
        id_items_total(s.push(x)) == id_items_total(s) + x.1,
    decreases s.len(),
{
    let c = s.push(x);
    if s.len() == 0 {
        assert(c.drop_first() =~= Seq::<(SimpleEntityId, usize)>::empty());
        assert(c[0] == x);
        assert(id_items_total(c) == x.1 + id_items_total(c.drop_first()));
    } else {
        assert(c.drop_first() =~= s.drop_first().push(x));
        assert(c[0] == s[0]);
        lemma_id_items_total_snoc(s.drop_first(), x);
        assert(id_items_total(c) == s[0].1 + id_items_total(s.drop_first().push(x)));
    }
}

pub proof fn lemma_id_items_total_nonneg(s: Seq<(SimpleEntityId, usize)>)
    ensures
        0 <= id_items_total(s),
    decreases s.len(),
{
    if s.len() > 0 {
        lemma_id_items_total_nonneg(s.drop_first());
    }
}

proof fn lemma_id_items_total_update(s: Seq<(SimpleEntityId, usize)>, i: int, n: int)
    requires
        0 <= i < s.len(),
        0 <= n,
    ensures
        id_items_total(s.update(i, (s[i].0, (s[i].1 + n) as usize))) == id_items_total(s) - s[i].1
            + ((s[i].1 + n) as usize),
    decreases s.len(),
{
    if i == 0 {
        assert(s.update(0, (s[0].0, (s[0].1 + n) as usize)).drop_first() =~= s.drop_first());
    } else {
        assert(s.update(i, (s[i].0, (s[i].1 + n) as usize)).drop_first() =~= s.drop_first().update(
            i - 1,
            (s[i].0, (s[i].1 + n) as usize),
        ));
        lemma_id_items_total_update(s.drop_first(), i - 1, n);
    }
}

proof fn lemma_id_total_bounds_entry(s: Seq<(SimpleEntityId, usize)>, i: int)
    requires
        0 <= i < s.len(),
    ensures
        s[i].1 <= id_items_total(s),
        0 <= id_items_total(s),
    decreases s.len(),
{
    if i == 0 {
        lemma_id_items_total_nonneg(s.drop_first());
    } else {
        lemma_id_total_bounds_entry(s.drop_first(), i - 1);
    }
}

proof fn lemma_id_count_same(
    s1: Seq<(SimpleEntityId, usize)>,
    s2: Seq<(SimpleEntityId, usize)>,
    id: SimpleEntityId,
)
    requires
        id_items_unique(s1),
        id_items_unique(s2),
        forall|k: int|
            0 <= k < s1.len() && (#[trigger] s1[k]).0 == id ==> k < s2.len() && s2[k] == s1[k],
        forall|k: int|
            0 <= k < s2.len() && (#[trigger] s2[k]).0 == id ==> k < s1.len() && s1[k] == s2[k],
    ensures
        id_items_count(s2, id) == id_items_count(s1, id),
        id_items_has(s2, id) == id_items_has(s1, id),
{
    if exists|k: int| 0 <= k < s1.len() && (#[trigger] s1[k]).0 == id {
        let k1 = choose|k: int| 0 <= k < s1.len() && (#[trigger] s1[k]).0 == id;
        lemma_id_items_count_at(s1, id, k1);
        assert(s2[k1].0 == id);
        lemma_id_items_count_at(s2, id, k1);
    } else {
        if exists|k: int| 0 <= k < s2.len() && (#[trigger] s2[k]).0 == id {
            let k2 = choose|k: int| 0 <= k < s2.len() && (#[trigger] s2[k]).0 == id;
            assert(s1[k2].0 == id);
        }
    }
}

impl IdCounts {
    /// The items, as (id, count) pairs with distinct ids.
    pub closed spec fn items_view(self) -> Seq<(SimpleEntityId, usize)> {
        self.items@
    }

    /// Ids occur at most once.
    pub open spec fn wf(self) -> bool {
        id_items_unique(self.items_view())
    }

    /// The count recorded for `id`, zero when absent.
    pub open spec fn count(self, id: SimpleEntityId) -> int {
        id_items_count(self.items_view(), id)
    }

    /// Whether any rows were attributed to `id`.
    pub open spec fn spec_has(self, id: SimpleEntityId) -> bool {
        id_items_has(self.items_view(), id)
    }

    /// The sum of all counts.
    pub open spec fn total(self) -> int {
        id_items_total(self.items_view())
    }

    /// Every recorded count is at least one: presence means rows.
    pub open spec fn positive(self) -> bool {
        forall|i: int| 0 <= i < self.items_view().len() ==> (#[trigger] self.items_view()[i]).1 >= 1
    }

    /// An empty tally.
    pub fn new() -> (r: IdCounts)
        ensures
            r.wf(),
            r.positive(),
            r.total() == 0,
            r.items_view().len() == 0,
            forall|id: SimpleEntityId| !r.spec_has(id) && r.count(id) == 0,
    {
        IdCounts { items: Vec::new() }
    }

    /// The number of distinct ids counted.
    pub fn len(&self) -> (n: usize)
        ensures
            n == self.items_view().len(),
    {
        self.items.len()
    }

    /// The pair at a position.
    pub fn item_at(&self, i: usize) -> (r: (SimpleEntityId, usize))
        requires
            i < self.items_view().len(),
        ensures
            r == self.items_view()[i as int],
    {
        self.items[i]
    }

    /// Whether `id` was counted at all.
    pub fn has(&self, id: SimpleEntityId) -> (r: bool)
        ensures
            r == self.spec_has(id),
    {
        let len = self.items.len();
        let mut i: usize = 0;
        while i < len
            invariant
                len == self.items@.len(),
                i <= len,
                forall|j: int| 0 <= j < i ==> (#[trigger] self.items@[j]).0 != id,
            decreases len - i,
        {
            if self.items[i].0 == id {
                return true;
            }
            i = i + 1;
        }
        false
    }

    /// Read the count for an id.
    pub fn get(&self, id: SimpleEntityId) -> (n: usize)
        requires
            self.wf(),
        ensures
            n == self.count(id),
    {
        let len = self.items.len();
        let mut i: usize = 0;
        while i < len
            invariant
                len == self.items@.len(),
                i <= len,
                forall|j: int| 0 <= j < i ==> (#[trigger] self.items@[j]).0 != id,
                self.wf(),
            decreases len - i,
        {
            if self.items[i].0 == id {
                proof {
                    lemma_id_items_count_at(self.items@, id, i as int);
                }
                return self.items[i].1;
            }
            i = i + 1;
        }
        0
    }

    /// Add `n` rows to the count of `id`.
    pub fn add(&mut self, id: SimpleEntityId, n: usize)
        requires
            old(self).wf(),
            n >= 1,
            old(self).total() + n <= usize::MAX,
        ensures
            final(self).wf(),
            old(self).positive() ==> final(self).positive(),
            final(self).count(id) == old(self).count(id) + n,
            forall|w: SimpleEntityId| w != id ==> final(self).count(w) == old(self).count(w)
                && final(self).spec_has(w) == old(self).spec_has(w),
            final(self).total() == old(self).total() + n,
            final(self).spec_has(id),
    {
        let len = self.items.len();
        let mut i: usize = 0;
        while i < len
            invariant
                len == self.items@.len(),
                i <= len,
                forall|j: int| 0 <= j < i ==> (#[trigger] self.items@[j]).0 != id,
                self == old(self),
                n >= 1,
                id_items_unique(self.items@),
                id_items_total(self.items@) + n <= usize::MAX,
            decreases len - i,
        {
            if self.items[i].0 == id {
                let ghost before = self.items@;
                proof {
                    lemma_id_items_count_at(before, id, i as int);
                    lemma_id_items_total_update(before, i as int, n as int);
                    lemma_id_total_bounds_entry(before, i as int);
                }
                let cur = self.items[i].1;
                self.items.set(i, (id, cur + n));
                proof {
                    let after = self.items@;
                    assert(after =~= before.update(
                        i as int,
                        (id, (before[i as int].1 + n) as usize),
                    ));
                    assert(id_items_unique(after)) by {
                        assert(forall|k: int| 0 <= k < after.len() ==> after[k].0 == before[k].0);
                    }
                    lemma_id_items_count_at(after, id, i as int);
                    assert forall|w: SimpleEntityId| w != id implies id_items_count(after, w)
                        == id_items_count(before, w) && id_items_has(after, w) == id_items_has(
                        before,
                        w,
                    ) by {
                        lemma_id_count_same(before, after, w);
                    }
                    assert(old(self).positive() ==> self.positive()) by {
                        if old(self).positive() {
                            assert(before == old(self).items_view());
                            assert forall|j: int|
                                0 <= j < self.items_view().len() implies (
                            #[trigger] self.items_view()[j]).1 >= 1 by {
                                assert(self.items_view() == after);
                                if j != i {
                                    assert(after[j] == before[j]);
                                    assert(before[j] == old(self).items_view()[j]);
                                    assert(old(self).items_view()[j].1 >= 1);
                                } else {
                                    assert(after[j].1 >= 1);
                                }
                            }
                        }
                    }
                }
                return ;
            }
            i = i + 1;
        }
        let ghost before = self.items@;
        self.items.push((id, n));
        proof {
            let after = self.items@;
            lemma_id_items_total_snoc(before, (id, n));
            assert(id_items_unique(after)) by {
                assert(forall|k: int| 0 <= k < before.len() ==> after[k] == before[k]);
                assert(after[before.len() as int].0 == id);
            }
            lemma_id_items_count_at(after, id, before.len() as int);
            assert(id_items_count(before, id) == 0);
            assert forall|w: SimpleEntityId| w != id implies id_items_count(after, w)
                == id_items_count(before, w) && id_items_has(after, w) == id_items_has(
                before,
                w,
            ) by {
                lemma_id_count_same(before, after, w);
            }
        }
    }
}

impl IdCounts {
    /// Take the count for `id` out of the tally, returning it when it was
    /// present.
    pub fn remove(&mut self, id: SimpleEntityId) -> (r: Option<usize>)
        requires
            old(self).wf(),
        ensures
            final(self).wf(),
            old(self).positive() ==> final(self).positive(),
            r is Some <==> old(self).spec_has(id),
            r matches Some(c) ==> c == old(self).count(id),
            final(self).total() == old(self).total() - (match r {
                Some(c) => c as int,
                None => 0,
            }),
            !final(self).spec_has(id),
            final(self).count(id) == 0,
            forall|w: SimpleEntityId|
                w != id ==> final(self).count(w) == old(self).count(w) && final(self).spec_has(w)
                    == old(self).spec_has(w),
    {
        let len = self.items.len();
        let mut i: usize = 0;
        while i < len
            invariant
                len == self.items@.len(),
                i <= len,
                forall|j: int| 0 <= j < i ==> (#[trigger] self.items@[j]).0 != id,
                self == old(self),
                id_items_unique(self.items@),
            decreases len - i,
        {
            if self.items[i].0 == id {
                let ghost before = self.items@;
                proof {
                    lemma_id_items_count_at(before, id, i as int);
                }
                let c = self.items[i].1;
                self.items.remove(i);
                proof {
                    let after = self.items@;
                    assert(after =~= before.remove(i as int));
                    lemma_id_items_remove(before, i as int);
                    assert forall|w: SimpleEntityId| w != id implies id_items_count(after, w)
                        == id_items_count(before, w) && id_items_has(after, w) == id_items_has(
                        before,
                        w,
                    ) by {
                        lemma_id_count_after_remove(before, i as int, w);
                    }
                    assert(old(self).positive() ==> self.positive()) by {
                        if old(self).positive() {
                            assert(before == old(self).items_view());
                            assert forall|j: int|
                                0 <= j < self.items_view().len() implies (
                            #[trigger] self.items_view()[j]).1 >= 1 by {
                                assert(self.items_view() == after);
                                if j < i {
                                    assert(after[j] == before[j]);
                                    assert(old(self).items_view()[j].1 >= 1);
                                } else {
                                    assert(after[j] == before[j + 1]);
                                    assert(old(self).items_view()[j + 1].1 >= 1);
                                }
                            }
                        }
                    }
                    assert(!id_items_has(after, id)) by {
                        if id_items_has(after, id) {
                            let k = choose|k: int|
                                0 <= k < after.len() && (#[trigger] after[k]).0 == id;
                            if k < i {
                                assert(before[k].0 == id);
                            } else {
                                assert(before[k + 1].0 == id);
                            }
                        }
                    }
                }
                return Some(c);
            }
            i = i + 1;
        }
        proof {
            if id_items_has(self.items@, id) {
                let k = choose|k: int|
                    0 <= k < self.items@.len() && (#[trigger] self.items@[k]).0 == id;
            }
        }
        None
    }
}

/// Removing an item takes exactly its count out of the total, and keeps
/// uniqueness.
proof fn lemma_id_items_remove(s: Seq<(SimpleEntityId, usize)>, i: int)
    requires
        0 <= i < s.len(),
        id_items_unique(s),
    ensures
        id_items_total(s.remove(i)) == id_items_total(s) - s[i].1,
        id_items_unique(s.remove(i)),
    decreases s.len(),
{
    let r = s.remove(i);
    assert(forall|k: int| 0 <= k < i ==> r[k] == s[k]);
    assert(forall|k: int| i <= k < r.len() ==> r[k] == s[k + 1]);
    if i == 0 {
        assert(r =~= s.drop_first());
    } else {
        assert(r.drop_first() =~= s.drop_first().remove(i - 1));
        assert(r[0] == s[0]);
        assert(id_items_unique(s.drop_first())) by {
            assert(forall|k: int| 0 <= k < s.drop_first().len() ==> s.drop_first()[k] == s[k + 1]);
        }
        lemma_id_items_remove(s.drop_first(), i - 1);
        assert(id_items_total(r) == r[0].1 + id_items_total(r.drop_first()));
    }
    assert(id_items_unique(r)) by {
        assert forall|a: int, b: int| 0 <= a < b < r.len() implies (#[trigger] r[a]).0 != (
        #[trigger] r[b]).0 by {
            let a2 = if a < i {
                a
            } else {
                a + 1
            };
            let b2 = if b < i {
                b
            } else {
                b + 1
            };
            assert(r[a] == s[a2] && r[b] == s[b2]);
            assert(s[a2].0 != s[b2].0);
        }
    }
}

/// Removing an item leaves every other id's count and presence alone.
proof fn lemma_id_count_after_remove(s: Seq<(SimpleEntityId, usize)>, i: int, w: SimpleEntityId)
    requires
        0 <= i < s.len(),
        id_items_unique(s),
        s[i].0 != w,
    ensures
        id_items_count(s.remove(i), w) == id_items_count(s, w),
        id_items_has(s.remove(i), w) == id_items_has(s, w),
{
    let r = s.remove(i);
    lemma_id_items_remove(s, i);
    assert(forall|k: int| 0 <= k < i ==> r[k] == s[k]);
    assert(forall|k: int| i <= k < r.len() ==> r[k] == s[k + 1]);
    if id_items_has(s, w) {
        let k = choose|k: int| 0 <= k < s.len() && (#[trigger] s[k]).0 == w;
        lemma_id_items_count_at(s, w, k);
        if k < i {
            lemma_id_items_count_at(r, w, k);
        } else {
            assert(r[k - 1] == s[k]);
            lemma_id_items_count_at(r, w, k - 1);
        }
    } else {
        if id_items_has(r, w) {
            let k = choose|k: int| 0 <= k < r.len() && (#[trigger] r[k]).0 == w;
            if k < i {
                assert(s[k].0 == w);
            } else {
                assert(s[k + 1].0 == w);
            }
        }
    }
}

/// The number of rows (or bytes) a partial span covers: row spans are
/// half-open, whole spans inclusive.
pub open spec fn span_weight(sp: PartialSpan) -> int {
    match sp {
        PartialSpan::Row(s, e) => if e > s {
            e - s
        } else {
            0
        },
        PartialSpan::Whole(w) => w.end.byte - w.start.byte + 1,
    }
}

/// The combined weight of a sequence of spans.
pub open spec fn spans_weight(sps: Seq<PartialSpan>) -> int
    decreases sps.len(),
{
    if sps.len() == 0 {
        0
    } else {
        spans_weight(sps.drop_last()) + span_weight(sps.last())
    }
}

/// Whole spans must be ordered and not cover the entire address space.
pub open spec fn spans_wf(sps: Seq<PartialSpan>) -> bool {
    forall|i: int|
        0 <= i < sps.len() ==> ((#[trigger] sps[i]) matches PartialSpan::Whole(w) ==> (
        w.start.byte <= w.end.byte && w.end.byte - w.start.byte < usize::MAX))
}

/// The rows one span credits to stable id `sid`.
pub open spec fn span_sid(
    es: Seq<Entity>,
    rows_tbl: Seq<crate::sparse::Entry>,
    bytes_tbl: Seq<crate::sparse::Entry>,
    sp: PartialSpan,
    sid: SimpleEntityId,
) -> int {
    match sp {
        PartialSpan::Row(s, e) => if e > s {
            sid_overlap(es, rows_tbl, s as int, e - 1, sid, es.len() as int)
        } else {
            0
        },
        PartialSpan::Whole(w) => sid_overlap(
            es,
            bytes_tbl,
            w.start.byte as int,
            w.end.byte as int,
            sid,
            es.len() as int,
        ),
    }
}

/// The rows a span list credits to stable id `sid`.
pub open spec fn spans_sid_count(
    es: Seq<Entity>,
    rows_tbl: Seq<crate::sparse::Entry>,
    bytes_tbl: Seq<crate::sparse::Entry>,
    spans: Seq<PartialSpan>,
    sid: SimpleEntityId,
) -> int
    decreases spans.len(),
{
    if spans.len() == 0 {
        0
    } else {
        spans_sid_count(es, rows_tbl, bytes_tbl, spans.drop_last(), sid) + span_sid(
            es,
            rows_tbl,
            bytes_tbl,
            spans.last(),
            sid,
        )
    }
}

/// A prefix never outweighs the whole.
pub proof fn lemma_spans_weight_prefix(sps: Seq<PartialSpan>, k: int)
    requires
        0 <= k <= sps.len(),
        spans_wf(sps),
    ensures
        0 <= spans_weight(sps.take(k)) <= spans_weight(sps),
    decreases sps.len(),
{
    if sps.len() == 0 {
        assert(sps.take(k) =~= sps);
    } else if k == sps.len() {
        assert(sps.take(k) =~= sps);
        lemma_spans_weight_prefix(sps.drop_last(), sps.len() - 1);
        assert(sps.drop_last().take(sps.len() - 1) =~= sps.drop_last());
        assert(span_weight(sps.last()) >= 0);
    } else {
        assert(spans_wf(sps.drop_last())) by {
            assert(forall|i: int| 0 <= i < sps.len() - 1 ==> sps.drop_last()[i] == sps[i]);
        }
        lemma_spans_weight_prefix(sps.drop_last(), k);
        assert(sps.take(k) =~= sps.drop_last().take(k));
        assert(span_weight(sps.last()) >= 0);
    }
}

/// The overlap credited to stable id `sid` by one table query, summed
/// over the first `n` entities.
pub open spec fn sid_overlap(
    es: Seq<Entity>,
    tbl: Seq<crate::sparse::Entry>,
    qs: int,
    qe: int,
    sid: SimpleEntityId,
    n: int,
) -> int
    decreases n,
{
    if n <= 0 {
        0
    } else {
        sid_overlap(es, tbl, qs, qe, sid, n - 1) + (if es[n - 1].simple_id == sid {
            crate::sparse::overlap_count(tbl, qs, qe, (n - 1) as usize)
        } else {
            0
        })
    }
}

/// The same sum, read through a tally whose counts agree with the table.
pub open spec fn sid_items_sum(
    items: Seq<(usize, usize)>,
    es: Seq<Entity>,
    sid: SimpleEntityId,
    n: int,
) -> int
    decreases n,
{
    if n <= 0 {
        0
    } else {
        sid_items_sum(items, es, sid, n - 1) + (if es[n - 1].simple_id == sid {
            crate::sparse::items_count(items, (n - 1) as usize)
        } else {
            0
        })
    }
}

/// The rows a tally credits to `sid`: the counts of the items whose
/// entity carries that stable id.
pub open spec fn items_sid_total(
    items: Seq<(usize, usize)>,
    es: Seq<Entity>,
    sid: SimpleEntityId,
) -> int
    decreases items.len(),
{
    if items.len() == 0 {
        0
    } else {
        items_sid_total(items.drop_first(), es, sid) + (if es[items[0].0 as int].simple_id
            == sid {
            items[0].1 as int
        } else {
            0
        })
    }
}

/// When the tally's counts agree with the table's overlap counts, the two
/// index sums agree.
proof fn lemma_sid_sum_agrees(
    items: Seq<(usize, usize)>,
    es: Seq<Entity>,
    tbl: Seq<crate::sparse::Entry>,
    qs: int,
    qe: int,
    sid: SimpleEntityId,
    n: int,
)
    requires
        forall|v: usize|
            #[trigger] crate::sparse::items_count(items, v) == crate::sparse::overlap_count(
                tbl,
                qs,
                qe,
                v,
            ),
    ensures
        sid_overlap(es, tbl, qs, qe, sid, n) == sid_items_sum(items, es, sid, n),
    decreases n,
{
    if n > 0 {
        lemma_sid_sum_agrees(items, es, tbl, qs, qe, sid, n - 1);
        assert(crate::sparse::items_count(items, (n - 1) as usize)
            == crate::sparse::overlap_count(tbl, qs, qe, (n - 1) as usize));
    }
}

/// Taking the head item out of the index sum subtracts exactly that
/// item's contribution.
proof fn lemma_sid_sum_head(
    items: Seq<(usize, usize)>,
    es: Seq<Entity>,
    sid: SimpleEntityId,
    n: int,
)
    requires
        items.len() > 0,
        crate::sparse::items_unique(items),
        n <= usize::MAX,
    ensures
        sid_items_sum(items, es, sid, n) == sid_items_sum(items.drop_first(), es, sid, n) + (if
        0 <= items[0].0 < n && es[items[0].0 as int].simple_id == sid {
            items[0].1 as int
        } else {
            0
        }),
    decreases n,
{
    if n > 0 {
        lemma_sid_sum_head(items, es, sid, n - 1);
        let v = (n - 1) as usize;
        assert(sid_items_sum(items, es, sid, n) == sid_items_sum(items, es, sid, n - 1) + (if
        es[n - 1].simple_id == sid {
            crate::sparse::items_count(items, v)
        } else {
            0
        }));
        assert(sid_items_sum(items.drop_first(), es, sid, n) == sid_items_sum(
            items.drop_first(),
            es,
            sid,
            n - 1,
        ) + (if es[n - 1].simple_id == sid {
            crate::sparse::items_count(items.drop_first(), v)
        } else {
            0
        }));
        if items[0].0 == v {
            crate::sparse::lemma_items_count_at(items, v, 0);
            assert(crate::sparse::items_count(items.drop_first(), v) == 0) by {
                if exists|i: int|
                    0 <= i < items.drop_first().len() && (#[trigger] items.drop_first()[i]).0
                        == v {
                    let i = choose|i: int|
                        0 <= i < items.drop_first().len() && (#[trigger] items.drop_first()[i]).0
                            == v;
                    assert(items[i + 1].0 == v && items[0].0 == v);
                }
            }
        } else {
            assert(crate::sparse::items_count(items, v) == crate::sparse::items_count(
                items.drop_first(),
                v,
            )) by {
                if exists|i: int| 0 <= i < items.len() && (#[trigger] items[i]).0 == v {
                    let i = choose|i: int| 0 <= i < items.len() && (#[trigger] items[i]).0 == v;
                    assert(i >= 1);
                    crate::sparse::lemma_items_count_at(items, v, i);
                    assert(items.drop_first()[i - 1].0 == v);
                    crate::sparse::lemma_items_count_at(items.drop_first(), v, i - 1);
                } else {
                    if exists|i: int|
                        0 <= i < items.drop_first().len() && (
                        #[trigger] items.drop_first()[i]).0 == v {
                        let i = choose|i: int|
                            0 <= i < items.drop_first().len() && (
                            #[trigger] items.drop_first()[i]).0 == v;
                        assert(items[i + 1].0 == v);
                    }
                }
            }
        }
    }
}

/// For a duplicate-free tally whose out-of-range items are empty, summing
/// by entity index equals summing by item.
proof fn lemma_sid_sum_total(
    items: Seq<(usize, usize)>,
    es: Seq<Entity>,
    sid: SimpleEntityId,
    n: int,
)
    requires
        crate::sparse::items_unique(items),
        n <= usize::MAX,
        forall|i: int| 0 <= i < items.len() && (#[trigger] items[i]).0 >= n ==> items[i].1 == 0,
    ensures
        sid_items_sum(items, es, sid, n) == items_sid_total(items, es, sid),
    decreases items.len(),
{
    if items.len() == 0 {
        lemma_sid_sum_empty(items, es, sid, n);
    } else {
        let rest = items.drop_first();
        assert(forall|i: int| 0 <= i < rest.len() ==> rest[i] == items[i + 1]);
        lemma_sid_sum_head(items, es, sid, n);
        lemma_sid_sum_total(rest, es, sid, n);
        if items[0].0 >= n {
            assert(items[0].1 == 0);
        }
    }
}

/// An empty tally credits nothing.
proof fn lemma_sid_sum_empty(
    items: Seq<(usize, usize)>,
    es: Seq<Entity>,
    sid: SimpleEntityId,
    n: int,
)
    requires
        items.len() == 0,
    ensures
        sid_items_sum(items, es, sid, n) == 0,
    decreases n,
{
    if n > 0 {
        lemma_sid_sum_empty(items, es, sid, n - 1);
        assert(crate::sparse::items_count(items, (n - 1) as usize) == 0);
    }
}

/// Appending an item adds its contribution to the per-id total.
proof fn lemma_items_sid_total_snoc(
    items: Seq<(usize, usize)>,
    x: (usize, usize),
    es: Seq<Entity>,
    sid: SimpleEntityId,
)
    ensures
        items_sid_total(items.push(x), es, sid) == items_sid_total(items, es, sid) + (if es[x.0 as int].simple_id
            == sid {
            x.1 as int
        } else {
            0
        }),
    decreases items.len(),
{
    let c = items.push(x);
    if items.len() == 0 {
        assert(c.drop_first() =~= Seq::<(usize, usize)>::empty());
        assert(c[0] == x);
        assert(items_sid_total(c, es, sid) == items_sid_total(c.drop_first(), es, sid) + (if
        es[x.0 as int].simple_id == sid {
            x.1 as int
        } else {
            0
        }));
    } else {
        assert(c.drop_first() =~= items.drop_first().push(x));
        assert(c[0] == items[0]);
        lemma_items_sid_total_snoc(items.drop_first(), x, es, sid);
        assert(items_sid_total(c, es, sid) == items_sid_total(items.drop_first().push(x), es, sid)
            + (if es[items[0].0 as int].simple_id == sid {
            items[0].1 as int
        } else {
            0
        }));
    }
}

/// Every entry value of a table obeying the table law names an entity.
proof fn lemma_table_values(tbl: Seq<crate::sparse::Entry>, es: Seq<Entity>, n: int, rows: bool)
    requires
        table_ok(tbl, es, n, rows),
    ensures
        forall|k: int| 0 <= k < tbl.len() ==> 0 <= (#[trigger] tbl[k]).value < n,
{
    assert forall|k: int| 0 <= k < tbl.len() implies 0 <= (#[trigger] tbl[k]).value < n by {
        let p = tbl[k].key.start as int;
        crate::sparse::lemma_unique_cover(tbl, p, k);
        assert(covered(tbl, p));
    }
}

impl EntitySet {
    /// Attribute the rows (or bytes) of each span to the entities that
    /// cover them, weighted by overlap; the root catches everything, so
    /// the combined count equals the combined span weight.
    pub fn count_simple_ids(&self, spans: &Vec<PartialSpan>) -> (r: IdCounts)
        requires
            self.wf(),
            spans_wf(spans@),
            spans_weight(spans@) <= usize::MAX,
        ensures
            r.wf(),
            r.positive(),
            r.total() == spans_weight(spans@),
            forall|sid: SimpleEntityId|
                #[trigger] r.count(sid) == spans_sid_count(
                    self.view_entities(),
                    self.rows_view(),
                    self.bytes_view(),
                    spans@,
                    sid,
                ),
    {
        let mut idc = IdCounts::new();
        let ns = spans.len();
        let mut j: usize = 0;
        proof {
            assert(spans@.take(0) =~= Seq::<PartialSpan>::empty());
        }
        while j < ns
            invariant
                self.wf(),
                ns == spans@.len(),
                j <= ns,
                spans_wf(spans@),
                spans_weight(spans@) <= usize::MAX,
                idc.wf(),
                idc.positive(),
                idc.total() == spans_weight(spans@.take(j as int)),
                forall|sid: SimpleEntityId|
                    #[trigger] idc.count(sid) == spans_sid_count(
                        self.view_entities(),
                        self.rows_view(),
                        self.bytes_view(),
                        spans@.take(j as int),
                        sid,
                    ),
            decreases ns - j,
        {
            proof {
                assert(spans@.take(j + 1) =~= spans@.take(j as int).push(spans@[j as int]));
                assert(spans@.take(j + 1).drop_last() =~= spans@.take(j as int));
                lemma_spans_weight_prefix(spans@, j + 1);
            }
            let sp = spans[j];
            match sp {
                PartialSpan::Row(s, e) => {
                    if e > s {
                        let counts = self.rows.get_overlaps(s, e - 1);
                        proof {
                            self.lemma_span_covered(s as int, (e - 1) as int, true);
                            crate::sparse::lemma_overlap_total_cover(
                                self.rows_view(),
                                s as int,
                                (e - 1) as int,
                            );
                            lemma_table_values(
                                self.rows_view(),
                                self.view_entities(),
                                self.view_entities().len() as int,
                                true,
                            );
                            assert forall|v: usize|
                                v >= self.view_entities().len() implies counts.count(v) == 0 by {
                                crate::sparse::lemma_overlap_count_none(
                                    self.rows_view(),
                                    s as int,
                                    (e - 1) as int,
                                    v,
                                );
                            }
                        }
                        self.merge_counts(
                            &mut idc,
                            &counts,
                            Ghost(self.rows_view()),
                            Ghost(s as int),
                            Ghost((e - 1) as int),
                        );
                    }
                },
                PartialSpan::Whole(w) => {
                    let counts = self.bytes.get_overlaps(w.start.byte, w.end.byte);
                    proof {
                        self.lemma_span_covered(w.start.byte as int, w.end.byte as int, false);
                        crate::sparse::lemma_overlap_total_cover(
                            self.bytes_view(),
                            w.start.byte as int,
                            w.end.byte as int,
                        );
                        lemma_table_values(
                            self.bytes_view(),
                            self.view_entities(),
                            self.view_entities().len() as int,
                            false,
                        );
                        assert forall|v: usize|
                            v >= self.view_entities().len() implies counts.count(v) == 0 by {
                            crate::sparse::lemma_overlap_count_none(
                                self.bytes_view(),
                                w.start.byte as int,
                                w.end.byte as int,
                                v,
                            );
                        }
                    }
                    self.merge_counts(
                        &mut idc,
                        &counts,
                        Ghost(self.bytes_view()),
                        Ghost(w.start.byte as int),
                        Ghost(w.end.byte as int),
                    );
                },
            }
            j = j + 1;
        }
        proof {
            assert(spans@.take(ns as int) =~= spans@);
        }
        idc
    }

    /// Every point of `[qs, qe]` is covered: the root is widened to the
    /// whole axis.
    proof fn lemma_span_covered(&self, qs: int, qe: int, rows: bool)
        requires
            self.wf(),
            0 <= qs,
            qe <= usize::MAX,
        ensures
            rows ==> forall|p: int| qs <= p <= qe ==> #[trigger] covered(self.rows_view(), p),
            !rows ==> forall|p: int| qs <= p <= qe ==> #[trigger] covered(self.bytes_view(), p),
    {
        let es = self.view_entities();
        let tbl = if rows {
            self.rows_view()
        } else {
            self.bytes_view()
        };
        assert forall|p: int| qs <= p <= qe implies covered(tbl, p) by {
            assert(in_int(es, 0, rows, p));
            assert(exists|t: int| 0 <= t < es.len() && #[trigger] in_int(es, t, rows, p));
        }
    }

    /// Fold per-index overlap counts into per-id counts; the totals add.
    fn merge_counts(
        &self,
        idc: &mut IdCounts,
        counts: &crate::sparse::Counts,
        Ghost(tbl): Ghost<Seq<crate::sparse::Entry>>,
        Ghost(qs): Ghost<int>,
        Ghost(qe): Ghost<int>,
    )
        requires
            self.wf(),
            counts.wf(),
            old(idc).wf(),
            old(idc).positive(),
            old(idc).total() + counts.total() <= usize::MAX,
            forall|v: usize|
                #[trigger] counts.count(v) == crate::sparse::overlap_count(tbl, qs, qe, v),
            forall|v: usize| v >= self.view_entities().len() ==> counts.count(v) == 0,
        ensures
            final(idc).wf(),
            final(idc).positive(),
            final(idc).total() == old(idc).total() + counts.total(),
            forall|sid: SimpleEntityId|
                #[trigger] final(idc).count(sid) == old(idc).count(sid) + sid_overlap(
                    self.view_entities(),
                    tbl,
                    qs,
                    qe,
                    sid,
                    self.view_entities().len() as int,
                ),
    {
        let ghost items = counts.items_view();
        let ghost es = self.view_entities();
        let ne = self.entities.len();
        let m = counts.len();
        let mut k: usize = 0;
        proof {
            assert(items.take(0) =~= Seq::<(usize, usize)>::empty());
        }
        while k < m
            invariant
                self.wf(),
                counts.wf(),
                es == self.view_entities(),
                items == counts.items_view(),
                m == items.len(),
                k <= m,
                idc.wf(),
                idc.positive(),
                old(idc).total() + counts.total() <= usize::MAX,
                idc.total() == old(idc).total() + crate::sparse::items_total(items.take(k as int)),
                forall|sid: SimpleEntityId|
                    #[trigger] idc.count(sid) == old(idc).count(sid) + items_sid_total(
                        items.take(k as int),
                        es,
                        sid,
                    ),
                forall|v: usize| v >= es.len() ==> counts.count(v) == 0,
            decreases m - k,
        {
            let (v, c) = counts.item_at(k);
            proof {
                assert(items.take(k + 1) =~= items.take(k as int).push(items[k as int]));
                crate::sparse::lemma_items_total_snoc(items.take(k as int), items[k as int]);
                crate::sparse::lemma_items_total_prefix(items, k + 1);
            }
            let ghost pre = *idc;
            if v < self.entities.len() && c > 0 {
                let sid_v = self.entities[v].simple_id;
                idc.add(sid_v, c);
                proof {
                    lemma_items_sid_total_snoc(items.take(k as int), items[k as int], es, sid_v);
                    assert forall|sid: SimpleEntityId|
                        #[trigger] idc.count(sid) == old(idc).count(sid) + items_sid_total(
                            items.take(k + 1),
                            es,
                            sid,
                        ) by {
                        lemma_items_sid_total_snoc(items.take(k as int), items[k as int], es, sid);
                        if sid == sid_v {
                        } else {
                            assert(idc.count(sid) == pre.count(sid));
                        }
                    }
                }
            } else {
                proof {
                    if v >= self.entities.len() {
                        crate::sparse::lemma_items_count_at(items, v, k as int);
                        assert(counts.count(v) == 0);
                    }
                    assert(items[k as int].1 == 0);
                    assert forall|sid: SimpleEntityId|
                        #[trigger] idc.count(sid) == old(idc).count(sid) + items_sid_total(
                            items.take(k + 1),
                            es,
                            sid,
                        ) by {
                        lemma_items_sid_total_snoc(items.take(k as int), items[k as int], es, sid);
                    }
                }
            }
            k = k + 1;
        }
        proof {
            assert(items.take(m as int) =~= items);
            // the per-item tally equals the per-entity overlap sum
            assert forall|i: int|
                0 <= i < items.len() && (#[trigger] items[i]).0 >= es.len() implies items[i].1
                == 0 by {
                crate::sparse::lemma_items_count_at(items, items[i].0, i);
                assert(counts.count(items[i].0) == 0);
            }
            assert(ne == es.len());
            assert forall|v: usize|
                #[trigger] crate::sparse::items_count(items, v) == crate::sparse::overlap_count(
                tbl,
                qs,
                qe,
                v,
            ) by {
                assert(counts.count(v) == crate::sparse::overlap_count(tbl, qs, qe, v));
            }
            assert forall|sid: SimpleEntityId|
                #[trigger] idc.count(sid) == old(idc).count(sid) + sid_overlap(
                    es,
                    tbl,
                    qs,
                    qe,
                    sid,
                    es.len() as int,
                ) by {
                lemma_sid_sum_total(items, es, sid, es.len() as int);
                lemma_sid_sum_agrees(items, es, tbl, qs, qe, sid, es.len() as int);
            }
        }
    }
}

/// One tag-query match: the defining node's id, its ancestor chain
/// (nearest first), the captured name, the kind, and the node's span.
#[derive(Debug)]
pub struct Capture {
    pub id: usize,
    pub ancestor_ids: Vec<usize>,
    pub name: String,
    pub kind: EntityKind,
    pub location: Span,
}

impl Capture {
    /// The capture standing for a whole file when no finer tags exist.
    pub fn singleton(filename: &str, end_position: Position) -> (r: Capture)
        ensures
            r.id == 0,
            r.ancestor_ids@.len() == 0,
            r.name@ == filename@,
            r.kind is File,
            r.location == (Span {
                start: Position { byte: 0, row: 0, column: 0 },
                end: end_position,
            }),
    {
        Capture {
            id: 0,
            ancestor_ids: Vec::new(),
            name: filename.to_owned(),
            kind: EntityKind::File,
            location: Span {
                start: Position { byte: 0, row: 0, column: 0 },
                end: end_position,
            },
        }
    }

    /// The nearest ancestor node that is itself a capture, if any: the
    /// first entry of the ancestor chain present in the id list.
    pub fn find_parent_id(&self, capture_ids: &Vec<usize>) -> (r: Option<usize>)
        ensures
            r == first_anc_in(capture_ids@, self.ancestor_ids@),
    {
        let na = self.ancestor_ids.len();
        let mut a: usize = 0;
        let ghost anc = self.ancestor_ids@;
        proof {
            assert(anc.skip(0) =~= anc);
        }
        while a < na
            invariant
                na == anc.len(),
                anc == self.ancestor_ids@,
                a <= na,
                first_anc_in(capture_ids@, anc) == first_anc_in(capture_ids@, anc.skip(a as int)),
            decreases na - a,
        {
            let aid = self.ancestor_ids[a];
            proof {
                assert(anc.skip(a as int)[0] == anc[a as int]);
                assert(anc.skip(a as int).drop_first() =~= anc.skip(a + 1));
            }
            if contains_id(capture_ids, aid) {
                return Some(aid);
            }
            a = a + 1;
        }
        proof {
            assert(anc.skip(na as int).len() == 0);
        }
        None
    }
}

/// The first entry of `anc` that occurs among `ids`.
pub open spec fn first_anc_in(ids: Seq<usize>, anc: Seq<usize>) -> Option<usize>
    decreases anc.len(),
{
    if anc.len() == 0 {
        None
    } else if ids.contains(anc[0]) {
        Some(anc[0])
    } else {
        first_anc_in(ids, anc.drop_first())
    }
}

/// The first position holding `id`, or the length when none does.
pub open spec fn first_idx_with(cs: Seq<Capture>, id: usize) -> int
    decreases cs.len(),
{
    if cs.len() == 0 {
        0
    } else if cs[0].id == id {
        0
    } else {
        1 + first_idx_with(cs.drop_first(), id)
    }
}

/// A position holding `id` with none before it is the first.
proof fn lemma_first_idx_at(cs: Seq<Capture>, id: usize, i: int)
    requires
        0 <= i < cs.len(),
        cs[i].id == id,
        forall|j: int| 0 <= j < i ==> (#[trigger] cs[j]).id != id,
    ensures
        first_idx_with(cs, id) == i,
    decreases cs.len(),
{
    if i > 0 {
        assert(forall|j: int| 0 <= j < cs.drop_first().len() ==> cs.drop_first()[j] == cs[j + 1]);
        lemma_first_idx_at(cs.drop_first(), id, i - 1);
    }
}

/// When no position below `t` holds `id`, the first is at `t` or later.
proof fn lemma_first_idx_min(cs: Seq<Capture>, id: usize, t: int)
    requires
        0 <= t <= cs.len(),
        forall|j: int| 0 <= j < t ==> (#[trigger] cs[j]).id != id,
    ensures
        first_idx_with(cs, id) >= t,
    decreases cs.len(),
{
    if cs.len() == 0 {
    } else if cs[0].id == id {
        assert(t == 0) by {
            if t > 0 {
                assert(cs[0].id != id);
            }
        }
    } else {
        assert(forall|j: int| 0 <= j < cs.drop_first().len() ==> cs.drop_first()[j] == cs[j + 1]);
        if t > 0 {
            lemma_first_idx_min(cs.drop_first(), id, t - 1);
        } else {
            lemma_first_idx_min(cs.drop_first(), id, 0);
        }
    }
}

/// Whether the id occurs in the list.
pub fn contains_id(ids: &Vec<usize>, x: usize) -> (r: bool)
    ensures
        r == ids@.contains(x),
{
    let n = ids.len();
    let mut i: usize = 0;
    while i < n
        invariant
            n == ids@.len(),
            i <= n,
            forall|j: int| 0 <= j < i ==> ids@[j] != x,
        decreases n - i,
    {
        if ids[i] == x {
            proof {
                assert(ids@[i as int] == x);
            }
            return true;
        }
        i = i + 1;
    }
    proof {
        if ids@.contains(x) {
            let j = choose|j: int| 0 <= j < ids@.len() && ids@[j] == x;
        }
    }
    false
}

/// The first position of the id in the list, if present.
fn index_of_id(ids: &Vec<usize>, x: usize) -> (r: Option<usize>)
    ensures
        r matches Some(i) ==> i < ids@.len() && ids@[i as int] == x && (forall|j: int|
            0 <= j < i ==> ids@[j] != x),
        r is None ==> forall|j: int| 0 <= j < ids@.len() ==> ids@[j] != x,
{
    let n = ids.len();
    let mut i: usize = 0;
    while i < n
        invariant
            n == ids@.len(),
            i <= n,
            forall|j: int| 0 <= j < i ==> ids@[j] != x,
        decreases n - i,
    {
        if ids[i] == x {
            return Some(i);
        }
        i = i + 1;
    }
    None
}

/// A rank for each kind, used only to break ordering ties.
pub open spec fn kind_rank(k: EntityKind) -> int {
    match k {
        EntityKind::File => 0,
        EntityKind::Annotation => 1,
        EntityKind::Constructor => 2,
        EntityKind::Class => 3,
        EntityKind::Enum => 4,
        EntityKind::Field => 5,
        EntityKind::Interface => 6,
        EntityKind::Method => 7,
        EntityKind::Record => 8,
    }
}

fn kind_rank_x(k: EntityKind) -> (r: u8)
    ensures
        r == kind_rank(k),
{
    match k {
        EntityKind::File => 0,
        EntityKind::Annotation => 1,
        EntityKind::Constructor => 2,
        EntityKind::Class => 3,
        EntityKind::Enum => 4,
        EntityKind::Field => 5,
        EntityKind::Interface => 6,
        EntityKind::Method => 7,
        EntityKind::Record => 8,
    }
}

/// The topological sort key order: ancestor-chain length, then span
/// (enclosing spans first), then name, then kind.
pub open spec fn topo_le(a: Capture, b: Capture) -> bool {
    if a.ancestor_ids@.len() != b.ancestor_ids@.len() {
        a.ancestor_ids@.len() < b.ancestor_ids@.len()
    } else if a.location != b.location {
        crate::span::span_le(a.location, b.location)
    } else if encode_utf8(a.name@) != encode_utf8(b.name@) {
        bytes_lt(encode_utf8(a.name@), encode_utf8(b.name@))
    } else {
        kind_rank(a.kind) <= kind_rank(b.kind)
    }
}

/// Decide `topo_le` on two captures.
fn capture_le(a: &Capture, b: &Capture) -> (r: bool)
    ensures
        r == topo_le(*a, *b),
{
    let al = a.ancestor_ids.len();
    let bl = b.ancestor_ids.len();
    if al != bl {
        return al < bl;
    }
    if !(a.location.start.byte == b.location.start.byte && a.location.start.row
        == b.location.start.row && a.location.start.column == b.location.start.column
        && a.location.end.byte == b.location.end.byte && a.location.end.row == b.location.end.row
        && a.location.end.column == b.location.end.column) {
        return crate::span::span_le_x(&a.location, &b.location);
    }
    if !str_eq(a.name.as_str(), b.name.as_str()) {
        return str_less(a.name.as_str(), b.name.as_str());
    }
    kind_rank_x(a.kind) <= kind_rank_x(b.kind)
}

/// The whole order is total.
proof fn lemma_topo_le_total(a: Capture, b: Capture)
    ensures
        topo_le(a, b) || topo_le(b, a),
{
    if a.ancestor_ids@.len() == b.ancestor_ids@.len() {
        if a.location != b.location {
        } else {
            lemma_bytes_lt_total(encode_utf8(a.name@), encode_utf8(b.name@));
        }
    }
}

/// A capture placed into an ordered run: before the first element that
/// does not precede it.
pub open spec fn ins_sorted(t: Seq<Capture>, x: Capture) -> Seq<Capture>
    decreases t.len(),
{
    if t.len() == 0 {
        seq![x]
    } else if topo_le(t[0], x) {
        seq![t[0]] + ins_sorted(t.drop_first(), x)
    } else {
        seq![x] + t
    }
}

/// The first `n` captures, placed one after another.
pub open spec fn sort_spec_upto(s: Seq<Capture>, n: int) -> Seq<Capture>
    decreases n,
{
    if n <= 0 {
        Seq::empty()
    } else {
        ins_sorted(sort_spec_upto(s, n - 1), s[n - 1])
    }
}

/// The captures sorted by the topological key: ancestor-chain length,
/// then span (enclosing spans first), then name, then kind.
pub open spec fn sort_spec(s: Seq<Capture>) -> Seq<Capture> {
    sort_spec_upto(s, s.len() as int)
}

/// Inserting at the first position whose element does not precede `x` is
/// the ordered placement.
proof fn lemma_ins_at(t: Seq<Capture>, x: Capture, pos: int)
    requires
        0 <= pos <= t.len(),
        forall|i: int| 0 <= i < pos ==> topo_le(#[trigger] t[i], x),
        pos < t.len() ==> !topo_le(t[pos], x),
    ensures
        ins_sorted(t, x) == t.take(pos) + seq![x] + t.skip(pos),
    decreases pos,
{
    if pos == 0 {
        if t.len() == 0 {
            assert(ins_sorted(t, x) =~= t.take(0) + seq![x] + t.skip(0));
        } else {
            assert(!topo_le(t[0], x));
            assert(ins_sorted(t, x) =~= t.take(0) + seq![x] + t.skip(0));
        }
    } else {
        assert(topo_le(t[0], x));
        assert(forall|i: int|
            0 <= i < t.drop_first().len() ==> t.drop_first()[i] == t[i + 1]);
        lemma_ins_at(t.drop_first(), x, pos - 1);
        assert(ins_sorted(t, x) =~= seq![t[0]] + (t.drop_first().take(pos - 1) + seq![x]
            + t.drop_first().skip(pos - 1)));
        assert(seq![t[0]] + t.drop_first().take(pos - 1) =~= t.take(pos));
        assert(t.drop_first().skip(pos - 1) =~= t.skip(pos));
        assert(ins_sorted(t, x) =~= t.take(pos) + seq![x] + t.skip(pos));
    }
}

/// Sort captures by the topological key: exactly the ordered placement of
/// each input capture in turn.
fn sort_captures(input: Vec<Capture>) -> (r: Vec<Capture>)
    ensures
        r@ == sort_spec(input@),
{
    let ghost orig = input@;
    let mut input = input;
    let total = input.len();
    let mut out: Vec<Capture> = Vec::new();
    let mut done: usize = 0;
    while input.len() > 0
        invariant
            total == orig.len(),
            done + input@.len() == orig.len(),
            input@ =~= orig.skip(done as int),
            out@ == sort_spec_upto(orig, done as int),
        decreases input@.len(),
    {
        let ghost rest = input@;
        let x = input.remove(0);
        proof {
            assert(input@ =~= rest.drop_first());
            assert(x == orig[done as int]);
            assert(rest.drop_first() =~= orig.skip(done + 1));
        }
        // find the first position whose element does not precede x
        let mut pos: usize = 0;
        let ol = out.len();
        while pos < ol && capture_le(&out[pos], &x)
            invariant
                ol == out@.len(),
                pos <= ol,
                forall|i: int| 0 <= i < pos ==> topo_le(#[trigger] out@[i], x),
            decreases ol - pos,
        {
            pos = pos + 1;
        }
        let ghost before = out@;
        out.insert(pos, x);
        proof {
            lemma_ins_at(before, x, pos as int);
            assert(out@ =~= before.take(pos as int) + seq![x] + before.skip(pos as int));
            assert(out@ == ins_sorted(before, x));
        }
        done = done + 1;
    }
    proof {
        assert(orig.skip(done as int).len() == 0);
        assert(done == orig.len());
    }
    out
}

/// The conditions a growing entity list keeps, with an explicit parent
/// index for every non-root entity.
pub open spec fn parent_idx_ok(es: Seq<Entity>, ps: Seq<int>) -> bool {
    &&& ps.len() == es.len()
    &&& es.len() >= 1 ==> es[0].parent_id is None
    &&& forall|t: int| 1 <= t < es.len() ==> (#[trigger] es[t]).parent_id is Some
    &&& forall|t: int|
        1 <= t < es.len() ==> 0 <= #[trigger] ps[t] < t && es[ps[t]].id == es[t].parent_id->0
            && span_encloses(es[ps[t]].location, es[t].location)
    &&& forall|t: int| 0 <= t < es.len() ==> (#[trigger] row_lo(es, t)) <= row_hi(es, t)
    &&& forall|t: int| 0 <= t < es.len() ==> (#[trigger] byte_lo(es, t)) <= byte_hi(es, t)
}

/// Appending a properly linked entity keeps the building conditions.
#[verifier::spinoff_prover]
proof fn lemma_build_push(before: Seq<Entity>, ps: Seq<int>, e: Entity, pi: int)
    requires
        parent_idx_ok(before, ps),
        before.len() == 0 ==> e.parent_id is None,
        before.len() >= 1 ==> 0 <= pi < before.len() && e.parent_id is Some && e.parent_id->0
            == before[pi].id && span_encloses(before[pi].location, e.location),
        e.location.start.row <= e.location.end.row,
        e.location.start.byte <= e.location.end.byte,
    ensures
        parent_idx_ok(before.push(e), ps.push(pi)),
{
    let after = before.push(e);
    let ps2 = ps.push(pi);
    assert(forall|t: int| 0 <= t < before.len() ==> after[t] == before[t]);
    assert(forall|t: int| 0 <= t < ps.len() ==> ps2[t] == ps[t]);
    assert(after[before.len() as int] == e);
    assert(ps2[before.len() as int] == pi);
    assert forall|t: int|
        1 <= t < after.len() implies 0 <= #[trigger] ps2[t] < t && after[ps2[t]].id
        == after[t].parent_id->0 && span_encloses(after[ps2[t]].location, after[t].location) by {
        if t < before.len() {
            assert(ps2[t] == ps[t]);
            assert(0 <= ps[t] < t && before[ps[t]].id == before[t].parent_id->0 && span_encloses(
                before[ps[t]].location,
                before[t].location,
            ));
        }
    }
    assert forall|t: int|
        0 <= t < after.len() implies (#[trigger] row_lo(after, t)) <= row_hi(after, t) by {
        if t < before.len() {
            assert(after[t] == before[t]);
            assert(row_lo(before, t) <= row_hi(before, t));
        }
    }
    assert forall|t: int|
        0 <= t < after.len() implies (#[trigger] byte_lo(after, t)) <= byte_hi(after, t) by {
        if t < before.len() {
            assert(after[t] == before[t]);
            assert(byte_lo(before, t) <= byte_hi(before, t));
        }
    }
}

/// A complete, laminar build with parent indices is a topological nest.
#[verifier::spinoff_prover]
proof fn lemma_building_to_topo(es: Seq<Entity>, ps: Seq<int>)
    requires
        parent_idx_ok(es, ps),
        es.len() >= 1,
        laminar(es, true),
        laminar(es, false),
    ensures
        wf_topo(es),
{
    assert forall|t: int| 1 <= t < es.len() implies exists|s: int|
        0 <= s < t && (#[trigger] es[s]).id == (#[trigger] es[t]).parent_id->0 && span_encloses(
            es[s].location,
            es[t].location,
        ) by {
        assert(0 <= ps[t] < t && es[ps[t]].id == es[t].parent_id->0 && span_encloses(
            es[ps[t]].location,
            es[t].location,
        ));
    }
}

/// Assemble one entity under an optional parent, deriving both ids.
#[verifier::spinoff_prover]
fn build_entity(
    parent: Option<(EntityId, SimpleEntityId)>,
    name: String,
    kind: EntityKind,
    location: Span,
    content_id: ContentId,
) -> (e: Entity)
    requires
        crate::entity::span_fits_u32(location),
    ensures
        e == (Entity {
            id: crate::entity::entity_id_of(
                match parent {
                    Some(p) => Some(p.0),
                    None => None::<EntityId>,
                },
                encode_utf8(name@),
                kind,
                location,
                content_id,
                crate::entity::simple_id_of(
                    match parent {
                        Some(p) => Some(p.1),
                        None => None::<SimpleEntityId>,
                    },
                    encode_utf8(name@),
                    kind,
                ),
            ),
            parent_id: match parent {
                Some(p) => Some(p.0),
                None => None::<EntityId>,
            },
            name: name,
            kind: kind,
            location: location,
            content_id: content_id,
            simple_id: crate::entity::simple_id_of(
                match parent {
                    Some(p) => Some(p.1),
                    None => None::<SimpleEntityId>,
                },
                encode_utf8(name@),
                kind,
            ),
        }),
{
    let (pe, ps) = match parent {
        Some((a, b)) => (Some(a), Some(b)),
        None => (None, None),
    };
    let simple_id = SimpleEntityId::new(ps, name.as_str(), kind);
    Entity::new(pe, name, kind, location, content_id, simple_id)
}

/// The index of the parent of capture `t`: the nearest listed ancestor's
/// first occurrence, the root when no ancestor is listed, and nothing for
/// the root itself.
pub open spec fn cap_parent_idx(cs: Seq<Capture>, t: int) -> Option<int> {
    if t == 0 {
        None
    } else {
        match first_anc_in(cs.map_values(|c: Capture| c.id), cs[t].ancestor_ids@) {
            None => Some(0int),
            Some(aid) => Some(first_idx_with(cs, aid)),
        }
    }
}

/// One capture is acceptable at its position: an ordered span that fits,
/// a root of kind File, and a parent that was placed earlier and encloses
/// it.
pub open spec fn cap_ok(cs: Seq<Capture>, t: int) -> bool {
    &&& cs[t].location.start.row <= cs[t].location.end.row
    &&& cs[t].location.start.byte <= cs[t].location.end.byte
    &&& crate::entity::span_fits_u32(cs[t].location)
    &&& t == 0 ==> cs[t].kind is File
    &&& match cap_parent_idx(cs, t) {
        None => true,
        Some(pi) => 0 <= pi < t && span_encloses(cs[pi].location, cs[t].location),
    }
}

/// The interval a capture occupies on an axis; the root is widened.
pub open spec fn cap_lo(cs: Seq<Capture>, t: int, rows: bool) -> int {
    if t == 0 {
        0
    } else if rows {
        cs[t].location.start.row as int
    } else {
        cs[t].location.start.byte as int
    }
}

/// See `cap_lo`.
pub open spec fn cap_hi(cs: Seq<Capture>, t: int, rows: bool) -> int {
    if t == 0 {
        usize::MAX as int
    } else if rows {
        cs[t].location.end.row as int
    } else {
        cs[t].location.end.byte as int
    }
}

/// Of two overlapping capture intervals, the later lies inside the
/// earlier.
pub open spec fn caps_laminar(cs: Seq<Capture>, rows: bool) -> bool {
    forall|t1: int, t2: int|
        #![trigger cap_lo(cs, t1, rows), cap_lo(cs, t2, rows)]
        0 <= t1 < t2 < cs.len() && cap_lo(cs, t1, rows) <= cap_hi(cs, t2, rows) && cap_lo(
            cs,
            t2,
            rows,
        ) <= cap_hi(cs, t1, rows) ==> cap_lo(cs, t1, rows) <= cap_lo(cs, t2, rows) && cap_hi(
            cs,
            t2,
            rows,
        ) <= cap_hi(cs, t1, rows)
}

/// The captures form a proper nest, in the order given.
pub open spec fn nest_ok(cs: Seq<Capture>) -> bool {
    &&& cs.len() >= 1
    &&& forall|t: int| 0 <= t < cs.len() ==> #[trigger] cap_ok(cs, t)
    &&& caps_laminar(cs, true)
    &&& caps_laminar(cs, false)
}

/// The entity built from capture `t`, given the entities built before it.
pub open spec fn mk_entity(
    cs: Seq<Capture>,
    content_id: ContentId,
    t: int,
    built: Seq<Entity>,
) -> Entity {
    let c = cs[t];
    let pe = match cap_parent_idx(cs, t) {
        None => None::<EntityId>,
        Some(pi) => Some(built[pi].id),
    };
    let psid = match cap_parent_idx(cs, t) {
        None => None::<SimpleEntityId>,
        Some(pi) => Some(built[pi].simple_id),
    };
    let sid = crate::entity::simple_id_of(psid, encode_utf8(c.name@), c.kind);
    Entity {
        id: crate::entity::entity_id_of(pe, encode_utf8(c.name@), c.kind, c.location, content_id, sid),
        parent_id: pe,
        name: c.name,
        kind: c.kind,
        location: c.location,
        content_id: content_id,
        simple_id: sid,
    }
}

/// The first `n` entities built from the captures, in order.
pub open spec fn spec_entities(cs: Seq<Capture>, content_id: ContentId, n: int) -> Seq<Entity>
    decreases n,
{
    if n <= 0 {
        Seq::empty()
    } else {
        let prev = spec_entities(cs, content_id, n - 1);
        prev.push(mk_entity(cs, content_id, n - 1, prev))
    }
}

/// The built entities keep each capture's location and kind, and only the
/// first is parentless.
proof fn lemma_spec_entities_fields(cs: Seq<Capture>, content_id: ContentId, n: int)
    requires
        0 <= n <= cs.len(),
    ensures
        spec_entities(cs, content_id, n).len() == n,
        forall|i: int|
            0 <= i < n ==> (#[trigger] spec_entities(cs, content_id, n)[i]).location
                == cs[i].location,
        forall|i: int|
            0 <= i < n ==> (#[trigger] spec_entities(cs, content_id, n)[i]).kind == cs[i].kind,
        forall|i: int|
            0 <= i < n ==> ((#[trigger] spec_entities(cs, content_id, n)[i]).parent_id is None
                <==> i == 0),
    decreases n,
{
    if n > 0 {
        lemma_spec_entities_fields(cs, content_id, n - 1);
        assert(forall|i: int|
            0 <= i < n - 1 ==> spec_entities(cs, content_id, n)[i] == spec_entities(
                cs,
                content_id,
                n - 1,
            )[i]);
        assert(spec_entities(cs, content_id, n)[n - 1] == mk_entity(
            cs,
            content_id,
            n - 1,
            spec_entities(cs, content_id, n - 1),
        ));
    }
}

/// The parent index assigned to each of the first `n` captures.
pub open spec fn cap_ps(cs: Seq<Capture>, n: int) -> Seq<int> {
    Seq::new(
        n as nat,
        |t: int|
            match cap_parent_idx(cs, t) {
                None => 0int,
                Some(pi) => pi,
            },
    )
}

/// Building acceptable captures yields entities whose parents come
/// earlier and enclose them.
#[verifier::spinoff_prover]
proof fn lemma_built_parent_ok(cs: Seq<Capture>, content_id: ContentId, n: int)
    requires
        0 <= n <= cs.len(),
        forall|t: int| 0 <= t < n ==> #[trigger] cap_ok(cs, t),
    ensures
        parent_idx_ok(spec_entities(cs, content_id, n), cap_ps(cs, n)),
    decreases n,
{
    if n > 0 {
        lemma_built_parent_ok(cs, content_id, n - 1);
        lemma_spec_entities_fields(cs, content_id, n - 1);
        let before = spec_entities(cs, content_id, n - 1);
        let e = mk_entity(cs, content_id, n - 1, before);
        let pi = match cap_parent_idx(cs, n - 1) {
            None => 0int,
            Some(p) => p,
        };
        assert(cap_ok(cs, n - 1));
        if n - 1 >= 1 {
            assert(cap_parent_idx(cs, n - 1) matches Some(p) && 0 <= p < n - 1 && span_encloses(
                cs[p].location,
                cs[n - 1].location,
            ));
            assert(e.parent_id == Some(before[pi].id));
            assert(before[pi].location == cs[pi].location);
        }
        assert(cap_ps(cs, n - 1) =~= cap_ps(cs, n).drop_last());
        lemma_build_push(before, cap_ps(cs, n - 1), e, pi);
        assert(cap_ps(cs, n) =~= cap_ps(cs, n - 1).push(pi));
        assert(spec_entities(cs, content_id, n) == before.push(e));
    } else {
        assert(cap_ps(cs, 0) =~= Seq::<int>::empty());
    }
}

/// Build an entity set from tag-query captures taken in the order given,
/// deriving parents from ancestor chains, adopting orphans under the
/// root, and computing both ids along the way. The result is present
/// exactly when the captures form a proper nest, and then holds exactly
/// the entities built from them.
#[verifier::spinoff_prover]
#[verifier::rlimit(100)]
pub fn into_entity_set(captures: Vec<Capture>, content_id: ContentId) -> (r: Option<EntitySet>)
    ensures
        r is Some <==> nest_ok(captures@),
        r matches Some(es) ==> es.wf() && es.view_entities() == spec_entities(
            captures@,
            content_id,
            captures@.len() as int,
        ),
{
    let ghost cs = captures@;
    if captures.len() == 0 {
        return None;
    }
    let n = captures.len();
    let mut all_ids: Vec<usize> = Vec::new();
    let mut c: usize = 0;
    while c < n
        invariant
            cs == captures@,
            n == cs.len(),
            c <= n,
            all_ids@.len() == c,
            forall|j: int| 0 <= j < c ==> all_ids@[j] == cs.map_values(|cp: Capture| cp.id)[j],
        decreases n - c,
    {
        all_ids.push(captures[c].id);
        c = c + 1;
    }
    proof {
        assert(all_ids@ =~= cs.map_values(|cp: Capture| cp.id));
    }
    let mut entities: Vec<Entity> = Vec::new();
    let mut cap_ids: Vec<usize> = Vec::new();
    let mut c: usize = 0;
    while c < n
        invariant
            cs == captures@,
            n == cs.len(),
            c <= n,
            entities@.len() == c,
            cap_ids@.len() == c,
            all_ids@ == cs.map_values(|cp: Capture| cp.id),
            forall|j: int| 0 <= j < c ==> cap_ids@[j] == cs[j].id,
            entities@ == spec_entities(cs, content_id, c as int),
            forall|t: int| 0 <= t < c ==> #[trigger] cap_ok(cs, t),
        decreases n - c,
    {
        let ghost before = entities@;
        let cap = &captures[c];
        if !(cap.location.start.row <= cap.location.end.row && cap.location.start.byte
            <= cap.location.end.byte) {
            proof {
                assert(!cap_ok(cs, c as int));
            }
            return None;
        }
        if !crate::entity::span_fits_u32_x(&cap.location) {
            proof {
                assert(!cap_ok(cs, c as int));
            }
            return None;
        }
        if c == 0 && !cap.kind.is_file() {
            proof {
                assert(!cap_ok(cs, 0));
            }
            return None;
        }
        let parent_idx: Option<usize> = if c == 0 {
            None
        } else {
            match cap.find_parent_id(&all_ids) {
                Some(aid) => {
                    match index_of_id(&cap_ids, aid) {
                        Some(i) => {
                            proof {
                                assert(cs[i as int].id == aid);
                                assert forall|j: int| 0 <= j < i implies (#[trigger] cs[j]).id
                                    != aid by {
                                    assert(cap_ids@[j] != aid);
                                }
                                lemma_first_idx_at(cs, aid, i as int);
                                assert(cap_parent_idx(cs, c as int) == Some(i as int));
                            }
                            Some(i)
                        },
                        None => {
                            // the parent capture does not come earlier:
                            // the chain is not topologically ordered
                            proof {
                                assert forall|j: int| 0 <= j < c implies (#[trigger] cs[j]).id
                                    != aid by {
                                    assert(cap_ids@[j] != aid);
                                }
                                lemma_first_idx_min(cs, aid, c as int);
                                assert(cap_parent_idx(cs, c as int) matches Some(pi) && pi
                                    >= c as int);
                                assert(!cap_ok(cs, c as int));
                            }
                            return None;
                        },
                    }
                },
                None => {
                    proof {
                        assert(cap_parent_idx(cs, c as int) == Some(0int));
                    }
                    Some(0)
                },
            }
        };
        let parent: Option<(EntityId, SimpleEntityId)> = match parent_idx {
            Some(pi) => {
                proof {
                    lemma_spec_entities_fields(cs, content_id, c as int);
                    assert(entities@[pi as int].location == cs[pi as int].location);
                }
                if !crate::span::span_encloses_x(&entities[pi].location, &cap.location) {
                    proof {
                        assert(!cap_ok(cs, c as int));
                    }
                    return None;
                }
                Some((entities[pi].id, entities[pi].simple_id))
            },
            None => None,
        };
        let e = build_entity(parent, cap.name.clone(), cap.kind, cap.location, content_id);
        proof {
            assert(e == mk_entity(cs, content_id, c as int, before));
            assert(cap_ok(cs, c as int));
        }
        entities.push(e);
        cap_ids.push(cap.id);
        proof {
            assert(entities@ =~= spec_entities(cs, content_id, c + 1));
        }
        c = c + 1;
    }
    proof {
        lemma_spec_entities_fields(cs, content_id, n as int);
    }
    if !check_laminar(&entities, true) {
        proof {
            lemma_caps_laminar_agree(cs, entities@, true);
        }
        return None;
    }
    if !check_laminar(&entities, false) {
        proof {
            lemma_caps_laminar_agree(cs, entities@, false);
        }
        return None;
    }
    proof {
        lemma_caps_laminar_agree(cs, entities@, true);
        lemma_caps_laminar_agree(cs, entities@, false);
        lemma_built_parent_ok(cs, content_id, n as int);
        lemma_building_to_topo(entities@, cap_ps(cs, n as int));
    }
    Some(EntitySet::from_topo_vec(entities))
}

/// The entities' widened intervals are the captures': the laminar
/// conditions agree.
proof fn lemma_caps_laminar_agree(cs: Seq<Capture>, es: Seq<Entity>, rows: bool)
    requires
        es.len() == cs.len(),
        forall|i: int| 0 <= i < cs.len() ==> (#[trigger] es[i]).location == cs[i].location,
        forall|i: int| 0 <= i < cs.len() ==> ((#[trigger] es[i]).parent_id is None <==> i == 0),
    ensures
        laminar(es, rows) == caps_laminar(cs, rows),
{
    assert forall|t: int| 0 <= t < cs.len() implies #[trigger] int_lo(es, t, rows) == cap_lo(
        cs,
        t,
        rows,
    ) && #[trigger] int_hi(es, t, rows) == cap_hi(cs, t, rows) by {
        assert(es[t].location == cs[t].location);
    }
    if laminar(es, rows) {
        assert forall|t1: int, t2: int|
            #![trigger cap_lo(cs, t1, rows), cap_lo(cs, t2, rows)]
            0 <= t1 < t2 < cs.len() && cap_lo(cs, t1, rows) <= cap_hi(cs, t2, rows) && cap_lo(
                cs,
                t2,
                rows,
            ) <= cap_hi(cs, t1, rows) implies cap_lo(cs, t1, rows) <= cap_lo(cs, t2, rows)
            && cap_hi(cs, t2, rows) <= cap_hi(cs, t1, rows) by {
            assert(int_lo(es, t1, rows) == cap_lo(cs, t1, rows));
            assert(int_lo(es, t2, rows) == cap_lo(cs, t2, rows));
        }
    }
    if caps_laminar(cs, rows) {
        assert forall|t1: int, t2: int|
            #![trigger int_lo(es, t1, rows), int_lo(es, t2, rows)]
            0 <= t1 < t2 < es.len() && int_lo(es, t1, rows) <= int_hi(es, t2, rows) && int_lo(
                es,
                t2,
                rows,
            ) <= int_hi(es, t1, rows) implies int_lo(es, t1, rows) <= int_lo(es, t2, rows)
            && int_hi(es, t2, rows) <= int_hi(es, t1, rows) by {
            assert(cap_lo(cs, t1, rows) == int_lo(es, t1, rows));
            assert(cap_lo(cs, t2, rows) == int_lo(es, t2, rows));
        }
    }
}

/// The interval an entity occupies on the chosen axis; the root is
/// widened to the whole axis.
fn entity_interval(e: &Entity, rows: bool) -> (r: (usize, usize))
    ensures
        e.parent_id is None ==> r == (0usize, usize::MAX),
        e.parent_id is Some ==> r == if rows {
            (e.location.start.row, e.location.end.row)
        } else {
            (e.location.start.byte, e.location.end.byte)
        },
{
    match e.parent_id {
        None => (0, usize::MAX),
        Some(_) => if rows {
            (e.location.start.row, e.location.end.row)
        } else {
            (e.location.start.byte, e.location.end.byte)
        },
    }
}

/// Check that of any two overlapping intervals the later lies inside the
/// earlier.
fn check_laminar(entities: &Vec<Entity>, rows: bool) -> (r: bool)
    ensures
        r == laminar(entities@, rows),
{
    let n = entities.len();
    let mut t1: usize = 0;
    while t1 < n
        invariant
            n == entities@.len(),
            t1 <= n,
            forall|a: int, b: int|
                #![trigger int_lo(entities@, a, rows), int_lo(entities@, b, rows)]
                0 <= a < b < entities@.len() && a < t1 && int_lo(entities@, a, rows) <= int_hi(
                    entities@,
                    b,
                    rows,
                ) && int_lo(entities@, b, rows) <= int_hi(entities@, a, rows) ==> int_lo(
                    entities@,
                    a,
                    rows,
                ) <= int_lo(entities@, b, rows) && int_hi(entities@, b, rows) <= int_hi(
                    entities@,
                    a,
                    rows,
                ),
        decreases n - t1,
    {
        let (lo1, hi1) = entity_interval(&entities[t1], rows);
        proof {
            assert(lo1 as int == int_lo(entities@, t1 as int, rows) && hi1 as int == int_hi(
                entities@,
                t1 as int,
                rows,
            ));
        }
        let mut t2: usize = t1 + 1;
        while t2 < n
            invariant
                n == entities@.len(),
                t1 < t2 <= n || (t2 == t1 + 1 && t2 > n),
                t1 < n,
                lo1 as int == int_lo(entities@, t1 as int, rows),
                hi1 as int == int_hi(entities@, t1 as int, rows),
                forall|b: int|
                    t1 < b < t2 && int_lo(entities@, t1 as int, rows) <= int_hi(entities@, b, rows)
                        && #[trigger] int_lo(entities@, b, rows) <= int_hi(
                        entities@,
                        t1 as int,
                        rows,
                    ) ==> int_lo(entities@, t1 as int, rows) <= int_lo(entities@, b, rows)
                        && int_hi(entities@, b, rows) <= int_hi(entities@, t1 as int, rows),
            decreases n - t2,
        {
            let (lo2, hi2) = entity_interval(&entities[t2], rows);
            proof {
                assert(lo2 as int == int_lo(entities@, t2 as int, rows) && hi2 as int == int_hi(
                    entities@,
                    t2 as int,
                    rows,
                ));
            }
            if lo1 <= hi2 && lo2 <= hi1 {
                if !(lo1 <= lo2 && hi2 <= hi1) {
                    proof {
                        assert(!laminar(entities@, rows));
                    }
                    return false;
                }
            }
            t2 = t2 + 1;
        }
        t1 = t1 + 1;
    }
    true
}

/// The row of the end of a file: how many newlines its bytes hold.
pub open spec fn count_newlines(b: Seq<u8>) -> int
    decreases b.len(),
{
    if b.len() == 0 {
        0
    } else {
        count_newlines(b.drop_last()) + (if b.last() == 0x0au8 {
            1int
        } else {
            0int
        })
    }
}

/// Where the last line starts: just after the last newline, or zero.
pub open spec fn last_line_start(b: Seq<u8>) -> int
    decreases b.len(),
{
    if b.len() == 0 {
        0
    } else if b.last() == 0x0au8 {
        b.len() as int
    } else {
        last_line_start(b.drop_last())
    }
}

/// A file never holds more newlines than bytes, and its last line starts
/// within it.
pub proof fn lemma_newline_bounds(b: Seq<u8>)
    ensures
        0 <= count_newlines(b) <= b.len(),
        0 <= last_line_start(b) <= b.len(),
    decreases b.len(),
{
    if b.len() > 0 {
        lemma_newline_bounds(b.drop_last());
    }
}

/// The position just past the end of a file's content: byte length, the
/// number of newlines as the row, and the bytes after the last newline as
/// the column.
pub open spec fn singleton_end(b: Seq<u8>) -> Position {
    Position {
        byte: b.len() as usize,
        row: count_newlines(b) as usize,
        column: (b.len() - last_line_start(b)) as usize,
    }
}

/// The position just past the end of a file's content.
pub fn content_end_position(content: &str) -> (p: Position)
    ensures
        p == singleton_end(content.spec_bytes()),
{
    let b = content.as_bytes();
    let n = b.len();
    let mut nl: usize = 0;
    let mut ls: usize = 0;
    let mut i: usize = 0;
    proof {
        assert(b@.take(0) =~= Seq::<u8>::empty());
    }
    while i < n
        invariant
            n == b@.len(),
            i <= n,
            nl == count_newlines(b@.take(i as int)),
            ls == last_line_start(b@.take(i as int)),
            ls <= i,
            nl <= i,
        decreases n - i,
    {
        proof {
            assert(b@.take(i + 1) =~= b@.take(i as int).push(b@[i as int]));
            assert(b@.take(i + 1).drop_last() =~= b@.take(i as int));
        }
        if b[i] == 0x0a {
            nl = nl + 1;
            ls = i + 1;
        }
        i = i + 1;
    }
    proof {
        assert(b@.take(n as int) =~= b@);
    }
    Position { byte: n, row: nl, column: n - ls }
}

/// The shape of a whole-file singleton set: one File entity named after
/// the file, spanning all of its content, with the stable id of its name.
pub open spec fn singleton_view(es: Seq<Entity>, fname: Seq<char>, bytes: Seq<u8>) -> bool {
    &&& es.len() == 1
    &&& es[0].name@ == fname
    &&& es[0].kind is File
    &&& es[0].parent_id is None
    &&& es[0].location == (Span {
        start: Position { byte: 0, row: 0, column: 0 },
        end: singleton_end(bytes),
    })
    &&& es[0].content_id == crate::ids::content_id_of(bytes)
    &&& es[0].simple_id == crate::entity::simple_id_of(None, encode_utf8(fname), EntityKind::File)
}

/// The one-entity set standing for a whole file: used when no language or
/// tag query applies, when the captures do not nest, or when file-level
/// granularity is forced.
pub fn to_singleton_entity_set(filename: &str, content: &str) -> (r: EntitySet)
    requires
        content.spec_bytes().len() <= u32::MAX,
    ensures
        r.wf(),
        singleton_view(r.view_entities(), filename@, content.spec_bytes()),
{
    let end_position = content_end_position(content);
    proof {
        lemma_newline_bounds(content.spec_bytes());
    }
    let content_id = crate::ids::ContentId::from_content(content);
    let simple_id = SimpleEntityId::new(None, filename, EntityKind::File);
    let location = Span { start: Position { byte: 0, row: 0, column: 0 }, end: end_position };
    let e = Entity::new(
        None,
        filename.to_owned(),
        EntityKind::File,
        location,
        content_id,
        simple_id,
    );
    let mut entities: Vec<Entity> = Vec::new();
    entities.push(e);
    proof {
        assert(wf_topo(entities@));
    }
    EntitySet::from_topo_vec(entities)
}

/// Partition a file into entities: the given captures, under a synthetic
/// root covering the whole file, sorted by the topological key and built
/// when they form a proper nest; the whole-file singleton otherwise. The
/// entities always nest properly and the one parentless entity is the
/// file itself. Extraction failures never abort; they fall back to the
/// singleton.
pub fn tag(filename: &str, content: &str, captures: Option<Vec<Capture>>, file_level: bool) -> (r:
    EntitySet)
    requires
        content.spec_bytes().len() <= u32::MAX,
    ensures
        r.wf(),
        r.view_entities().len() >= 1,
        r.view_entities()[0].parent_id is None,
        r.view_entities()[0].kind is File,
        file_level || captures is None ==> singleton_view(
            r.view_entities(),
            filename@,
            content.spec_bytes(),
        ),
        !file_level ==> (captures matches Some(cs) ==> exists|root: Capture|
            {
                &&& root.id == 0
                &&& root.ancestor_ids@.len() == 0
                &&& root.name@ == filename@
                &&& root.kind is File
                &&& root.location == (Span {
                    start: Position { byte: 0, row: 0, column: 0 },
                    end: singleton_end(content.spec_bytes()),
                })
                &&& if nest_ok(#[trigger] sort_spec(cs@.insert(0, root))) {
                    r.view_entities() == spec_entities(
                        sort_spec(cs@.insert(0, root)),
                        crate::ids::content_id_of(content.spec_bytes()),
                        sort_spec(cs@.insert(0, root)).len() as int,
                    )
                } else {
                    singleton_view(r.view_entities(), filename@, content.spec_bytes())
                }
            }),
{
    if file_level {
        return to_singleton_entity_set(filename, content);
    }
    match captures {
        Some(caps) => {
            let mut caps = caps;
            // the synthetic root: a File entity over the whole content,
            // the ancestor of any tag without another parent
            let root = Capture::singleton(filename, content_end_position(content));
            let ghost rootg = root;
            let ghost cs0 = caps@;
            caps.insert(0, root);
            proof {
                assert(caps@ == cs0.insert(0, rootg));
            }
            let sorted = sort_captures(caps);
            let ghost csg = sorted@;
            proof {
                assert(csg == sort_spec(cs0.insert(0, rootg)));
            }
            let content_id = crate::ids::ContentId::from_content(content);
            match into_entity_set(sorted, content_id) {
                Some(es) => {
                    proof {
                        lemma_spec_entities_fields(csg, content_id, csg.len() as int);
                        assert(cap_ok(csg, 0));
                        assert(es.view_entities()[0].kind == csg[0].kind);
                    }
                    es
                },
                None => to_singleton_entity_set(filename, content),
            }
        },
        None => to_singleton_entity_set(filename, content),
    }
}

} // verus!
