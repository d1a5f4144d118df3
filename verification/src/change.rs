//! Diffs and the change records attributed from them.
//!
//! A diff describes one file touched by one commit, as row hunks. Change
//! attribution weighs each hunk's rows over the entities of the file's
//! old and new versions and emits one record per stable entity id. Every
//! changed row is attributed exactly once, so the records' added and
//! deleted line counts sum to the hunks' row counts.

use vstd::prelude::*;
use vstd::string::StringSliceAdditionalSpecFns;
use vstd::utf8::encode_utf8;

use crate::entity::SimpleEntityId;
use crate::files::FileKey;
use crate::errors::Error;
use crate::filespec::pathspec_matches;
use crate::filespec::PathMatcher;
use crate::ids::CommitId;
use crate::ids::ContentId;
use crate::span::PartialSpan;
use crate::tagging::spans_weight;
use crate::tagging::spans_wf;
use crate::tagging::EntitySet;
use crate::tagging::IdCounts;

verus! {

/// What a commit did to an entity.
#[derive(Clone, Copy, Debug, Hash, PartialEq, Eq, Structural)]
pub enum ChangeKind {
    Added,
    Deleted,
    Modified,
}

impl ChangeKind {
    /// The kind's name.
    pub fn as_str(&self) -> (s: &'static str)
        ensures
            *self is Added ==> s@ == "Added"@,
            *self is Deleted ==> s@ == "Deleted"@,
            *self is Modified ==> s@ == "Modified"@,
    {
        match self {
            ChangeKind::Added => "Added",
            ChangeKind::Deleted => "Deleted",
            ChangeKind::Modified => "Modified",
        }
    }
}

/// A record of an entity being touched by a commit, with the number of
/// rows attributed to it on each side.
#[derive(Clone, Copy, Debug, PartialEq, Eq, Structural)]
pub struct Change {
    pub simple_id: SimpleEntityId,
    pub commit_id: CommitId,
    pub kind: ChangeKind,
    pub adds: usize,
    pub dels: usize,
}

impl Change {
    pub fn new(
        simple_id: SimpleEntityId,
        commit_id: CommitId,
        kind: ChangeKind,
        adds: usize,
        dels: usize,
    ) -> (c: Change)
        ensures
            c == (Change { simple_id, commit_id, kind, adds, dels }),
    {
        Change { simple_id, commit_id, kind, adds, dels }
    }
}

/// One contiguous region of a diff: the old rows deleted and the new rows
/// added, both as half-open row ranges.
#[derive(Clone, Copy, Debug, PartialEq, Eq, Structural)]
pub struct Hunk {
    pub old: PartialSpan,
    pub new: PartialSpan,
}

impl Hunk {
    /// Convert a hunk from the diff convention's 1-based starts and line
    /// counts into half-open 0-based row ranges. A side with no lines is
    /// written with start 0, which marks the same place as start 1 and
    /// converts to an empty range there.
    pub fn from_git(old_start: u32, old_lines: u32, new_start: u32, new_lines: u32) -> (h: Hunk)
        requires
            row_of_start(old_start) + old_lines <= usize::MAX,
            row_of_start(new_start) + new_lines <= usize::MAX,
        ensures
            h.old == PartialSpan::Row(
                row_of_start(old_start) as usize,
                (row_of_start(old_start) + old_lines) as usize,
            ),
            h.new == PartialSpan::Row(
                row_of_start(new_start) as usize,
                (row_of_start(new_start) + new_lines) as usize,
            ),
    {
        let os = if old_start >= 1 {
            (old_start - 1) as usize
        } else {
            0
        };
        let ns = if new_start >= 1 {
            (new_start - 1) as usize
        } else {
            0
        };
        Hunk {
            old: PartialSpan::Row(os, os + old_lines as usize),
            new: PartialSpan::Row(ns, ns + new_lines as usize),
        }
    }
}

/// The old sides of a hunk list.
pub open spec fn old_spans_of(hs: Seq<Hunk>) -> Seq<PartialSpan> {
    hs.map_values(|h: Hunk| h.old)
}

/// The new sides of a hunk list.
pub open spec fn new_spans_of(hs: Seq<Hunk>) -> Seq<PartialSpan> {
    hs.map_values(|h: Hunk| h.new)
}

/// The hunks of one file touched by one commit. At least one side is
/// present: absence of the old side means the file was added, absence of
/// the new side that it was deleted.
#[derive(Clone, Debug)]
pub struct Diff {
    pub commit_id: CommitId,
    pub old: Option<FileKey>,
    pub new: Option<FileKey>,
    pub hunks: Vec<Hunk>,
}

impl Diff {
    pub fn new(id: CommitId, old: Option<FileKey>, new: Option<FileKey>, hunks: Vec<Hunk>) -> (d:
        Diff)
        ensures
            d.commit_id == id,
            d.old == old,
            d.new == new,
            d.hunks == hunks,
    {
        Diff { commit_id: id, old, new, hunks }
    }

    /// Whether the file was added, deleted, or modified.
    pub fn change_kind(&self) -> (r: ChangeKind)
        requires
            self.old is Some || self.new is Some,
        ensures
            r == (match (self.old, self.new) {
                (Option::<FileKey>::None, _) => ChangeKind::Added,
                (Option::<FileKey>::Some(_), Option::<FileKey>::None) => ChangeKind::Deleted,
                _ => ChangeKind::Modified,
            }),
    {
        match (&self.old, &self.new) {
            (None, _) => ChangeKind::Added,
            (Some(_), None) => ChangeKind::Deleted,
            (Some(_), Some(_)) => ChangeKind::Modified,
        }
    }

    /// The keys of the sides that are present.
    pub fn iter_file_keys(&self) -> (r: Vec<&FileKey>)
        ensures
            r@.len() == (if self.old is Some {
                1int
            } else {
                0int
            }) + (if self.new is Some {
                1int
            } else {
                0int
            }),
            self.old matches Some(k) ==> *r@[0] == k,
            self.new matches Some(k) ==> *r@[r@.len() - 1] == k,
    {
        let mut r: Vec<&FileKey> = Vec::new();
        match &self.old {
            Some(k) => r.push(k),
            None => (),
        }
        match &self.new {
            Some(k) => r.push(k),
            None => (),
        }
        r
    }

    /// The old sides of all hunks.
    pub fn iter_old_spans(&self) -> (r: Vec<PartialSpan>)
        ensures
            r@ == old_spans_of(self.hunks@),
    {
        let n = self.hunks.len();
        let mut r: Vec<PartialSpan> = Vec::new();
        let mut i: usize = 0;
        while i < n
            invariant
                n == self.hunks@.len(),
                i <= n,
                r@ =~= old_spans_of(self.hunks@.take(i as int)),
            decreases n - i,
        {
            r.push(self.hunks[i].old);
            proof {
                assert(old_spans_of(self.hunks@.take(i + 1)) =~= old_spans_of(
                    self.hunks@.take(i as int),
                ).push(self.hunks@[i as int].old));
            }
            i = i + 1;
        }
        proof {
            assert(self.hunks@.take(n as int) =~= self.hunks@);
        }
        r
    }

    /// The new sides of all hunks.
    pub fn iter_new_spans(&self) -> (r: Vec<PartialSpan>)
        ensures
            r@ == new_spans_of(self.hunks@),
    {
        let n = self.hunks.len();
        let mut r: Vec<PartialSpan> = Vec::new();
        let mut i: usize = 0;
        while i < n
            invariant
                n == self.hunks@.len(),
                i <= n,
                r@ =~= new_spans_of(self.hunks@.take(i as int)),
            decreases n - i,
        {
            r.push(self.hunks[i].new);
            proof {
                assert(new_spans_of(self.hunks@.take(i + 1)) =~= new_spans_of(
                    self.hunks@.take(i as int),
                ).push(self.hunks@[i as int].new));
            }
            i = i + 1;
        }
        proof {
            assert(self.hunks@.take(n as int) =~= self.hunks@);
        }
        r
    }
}

/// The rows deleted over a list of change records.
pub open spec fn total_dels(cs: Seq<Change>) -> int
    decreases cs.len(),
{
    if cs.len() == 0 {
        0
    } else {
        total_dels(cs.drop_last()) + cs.last().dels
    }
}

/// The rows added over a list of change records.
pub open spec fn total_adds(cs: Seq<Change>) -> int
    decreases cs.len(),
{
    if cs.len() == 0 {
        0
    } else {
        total_adds(cs.drop_last()) + cs.last().adds
    }
}

/// Attribute one diff's rows to entities: one change record per stable id
/// seen on either side. Every deleted row of the hunks is attributed
/// exactly once, so the records' deleted rows sum to the hunks' old row
/// count; likewise for added rows on the new side.
/// The rows the old side of a diff credits to `sid`: the weighted overlap
/// of the old hunks over the old version's entities carrying that id.
pub open spec fn old_sid_count(old_set: Option<&EntitySet>, diff: Diff, sid: SimpleEntityId) -> int {
    match old_set {
        Some(s) => crate::tagging::spans_sid_count(
            s.view_entities(),
            s.rows_view(),
            s.bytes_view(),
            old_spans_of(diff.hunks@),
            sid,
        ),
        None => 0,
    }
}

/// See `old_sid_count`, for the new side.
pub open spec fn new_sid_count(new_set: Option<&EntitySet>, diff: Diff, sid: SimpleEntityId) -> int {
    match new_set {
        Some(s) => crate::tagging::spans_sid_count(
            s.view_entities(),
            s.rows_view(),
            s.bytes_view(),
            new_spans_of(diff.hunks@),
            sid,
        ),
        None => 0,
    }
}

/// Attribute one diff's rows to entities: one change record per stable id
/// seen on either side, carrying exactly the rows the hunks credit to
/// that id on each side. Every id credited any rows gets a record; a
/// record's kind follows its sides: added when nothing was deleted,
/// deleted when nothing was added, modified otherwise.
pub fn calc_changes(old_set: Option<&EntitySet>, new_set: Option<&EntitySet>, diff: &Diff) -> (r:
    Vec<Change>)
    requires
        old_set matches Some(s) ==> s.wf(),
        new_set matches Some(s) ==> s.wf(),
        spans_wf(old_spans_of(diff.hunks@)),
        spans_wf(new_spans_of(diff.hunks@)),
        spans_weight(old_spans_of(diff.hunks@)) <= usize::MAX,
        spans_weight(new_spans_of(diff.hunks@)) <= usize::MAX,
    ensures
        total_dels(r@) == (if old_set is Some {
            spans_weight(old_spans_of(diff.hunks@))
        } else {
            0
        }),
        total_adds(r@) == (if new_set is Some {
            spans_weight(new_spans_of(diff.hunks@))
        } else {
            0
        }),
        forall|i: int| 0 <= i < r@.len() ==> (#[trigger] r@[i]).commit_id == diff.commit_id,
        forall|i: int|
            0 <= i < r@.len() ==> (#[trigger] r@[i]).dels == old_sid_count(
                old_set,
                *diff,
                r@[i].simple_id,
            ),
        forall|i: int|
            0 <= i < r@.len() ==> (#[trigger] r@[i]).adds == new_sid_count(
                new_set,
                *diff,
                r@[i].simple_id,
            ),
        forall|i: int| 0 <= i < r@.len() ==> (#[trigger] r@[i]).dels >= 1 || r@[i].adds >= 1,
        forall|i: int|
            0 <= i < r@.len() ==> (((#[trigger] r@[i]).kind is Added <==> r@[i].dels == 0) && (
            r@[i].kind is Deleted <==> r@[i].adds == 0)),
        forall|a: int, b: int|
            0 <= a < b < r@.len() ==> (#[trigger] r@[a]).simple_id != (#[trigger] r@[b]).simple_id,
        forall|sid: SimpleEntityId|
            old_sid_count(old_set, *diff, sid) != 0 || new_sid_count(new_set, *diff, sid) != 0
                ==> exists|i: int|
                0 <= i < r@.len() && (#[trigger] r@[i]).simple_id == sid,
{
    let old_counts: IdCounts = match old_set {
        Some(s) => {
            let spans = diff.iter_old_spans();
            s.count_simple_ids(&spans)
        },
        None => IdCounts::new(),
    };
    let mut new_counts: IdCounts = match new_set {
        Some(s) => {
            let spans = diff.iter_new_spans();
            s.count_simple_ids(&spans)
        },
        None => IdCounts::new(),
    };
    let ghost old0 = old_counts;
    let ghost new0 = new_counts;
    let ghost old_total = old_counts.total();
    let ghost new_total = new_counts.total();
    let ghost old_items = old_counts.items_view();

    let mut changes: Vec<Change> = Vec::new();
    let m = old_counts.len();
    let mut k: usize = 0;
    proof {
        assert(old_items.take(0) =~= Seq::<(SimpleEntityId, usize)>::empty());
    }
    while k < m
        invariant
            m == old_items.len(),
            old_items == old0.items_view(),
            old_counts == old0,
            crate::tagging::id_items_unique(old_items),
            old0.positive(),
            new0.wf(),
            new0.positive(),
            k <= m,
            new_counts.wf(),
            new_counts.positive(),
            changes@.len() == k,
            forall|i: int| 0 <= i < k ==> (#[trigger] changes@[i]).simple_id == old_items[i].0,
            forall|i: int| 0 <= i < k ==> (#[trigger] changes@[i]).commit_id == diff.commit_id,
            forall|i: int| 0 <= i < k ==> (#[trigger] changes@[i]).dels == old0.count(changes@[i].simple_id),
            forall|i: int| 0 <= i < k ==> (#[trigger] changes@[i]).adds == new0.count(changes@[i].simple_id),
            forall|i: int| 0 <= i < k ==> (#[trigger] changes@[i]).dels >= 1,
            forall|i: int|
                0 <= i < k ==> (((#[trigger] changes@[i]).kind is Added <==> changes@[i].dels == 0)
                    && (changes@[i].kind is Deleted <==> changes@[i].adds == 0)),
            forall|i: int| 0 <= i < k ==> !new_counts.spec_has((#[trigger] old_items[i]).0),
            forall|sid: SimpleEntityId|
                #![trigger new_counts.count(sid)]
                !(exists|i: int| 0 <= i < k && (#[trigger] old_items[i]).0 == sid)
                    ==> new_counts.count(sid) == new0.count(sid) && new_counts.spec_has(sid)
                    == new0.spec_has(sid),
            total_dels(changes@) == crate::tagging::id_items_total(old_items.take(k as int)),
            total_adds(changes@) == new_total - new_counts.total(),
        decreases m - k,
    {
        let (id, d) = old_counts.item_at(k);
        proof {
            crate::tagging::lemma_id_items_count_at(old_items, id, k as int);
            assert(d == old0.count(id));
            assert(d >= 1);
            assert(!(exists|i: int| 0 <= i < k && (#[trigger] old_items[i]).0 == id));
            assert(new_counts.count(id) == new0.count(id));
            if new0.spec_has(id) {
                let w = choose|w: int|
                    0 <= w < new0.items_view().len() && (#[trigger] new0.items_view()[w]).0 == id;
                crate::tagging::lemma_id_items_count_at(new0.items_view(), id, w);
                assert(new0.count(id) >= 1);
            }
        }
        let (kind, adds) = match new_counts.remove(id) {
            Some(a) => (ChangeKind::Modified, a),
            None => (ChangeKind::Deleted, 0usize),
        };
        proof {
            assert(adds == new0.count(id));
        }
        let ghost before = changes@;
        changes.push(Change { simple_id: id, commit_id: diff.commit_id, kind, adds, dels: d });
        proof {
            assert(changes@.drop_last() =~= before);
            assert(old_items.take(k + 1) =~= old_items.take(k as int).push(old_items[k as int]));
            crate::tagging::lemma_id_items_total_snoc(old_items.take(k as int), old_items[k as int]);
        }
        k = k + 1;
    }
    // whatever remains in the new tally was not seen on the old side
    let ghost rem = new_counts.items_view();
    proof {
        assert(old_items.take(m as int) =~= old_items);
        assert(k == m);
        // each remaining item keeps its original count and is new-side only
        assert forall|j: int|
            0 <= j < rem.len() implies new0.count((#[trigger] rem[j]).0) == rem[j].1
            && !crate::tagging::id_items_has(old_items, rem[j].0) by {
            let id = rem[j].0;
            crate::tagging::lemma_id_items_count_at(rem, id, j);
            assert(new_counts.count(id) == rem[j].1);
            assert(crate::tagging::id_items_has(rem, id)) by {
                assert(rem[j].0 == id);
            }
            assert(!crate::tagging::id_items_has(old_items, id)) by {
                if crate::tagging::id_items_has(old_items, id) {
                    let i = choose|i: int|
                        0 <= i < old_items.len() && (#[trigger] old_items[i]).0 == id;
                    assert(!new_counts.spec_has(old_items[i].0));
                }
            }
            assert(!(exists|i: int| 0 <= i < k && (#[trigger] old_items[i]).0 == id)) by {
                if exists|i: int| 0 <= i < k && (#[trigger] old_items[i]).0 == id {
                    let i = choose|i: int| 0 <= i < k && (#[trigger] old_items[i]).0 == id;
                    assert(crate::tagging::id_items_has(old_items, id)) by {
                        assert(old_items[i].0 == id);
                    }
                }
            }
            assert(new_counts.count(id) == new0.count(id));
        }
        // every id of the new side is in the old side or still remaining
        assert forall|j: int|
            0 <= j < new0.items_view().len() implies crate::tagging::id_items_has(
            old_items,
            (#[trigger] new0.items_view()[j]).0,
        ) || crate::tagging::id_items_has(rem, new0.items_view()[j].0) by {
            let id = new0.items_view()[j].0;
            if !crate::tagging::id_items_has(old_items, id) {
                assert(!(exists|i: int| 0 <= i < k && (#[trigger] old_items[i]).0 == id)) by {
                    if exists|i: int| 0 <= i < k && (#[trigger] old_items[i]).0 == id {
                        let i = choose|i: int| 0 <= i < k && (#[trigger] old_items[i]).0 == id;
                        assert(crate::tagging::id_items_has(old_items, id)) by {
                            assert(old_items[i].0 == id);
                        }
                    }
                }
                let c_now = new_counts.count(id);
                assert(new_counts.spec_has(id) == new0.spec_has(id));
                assert(new0.spec_has(id)) by {
                    assert(new0.items_view()[j].0 == id);
                }
            }
        }
    }
    let ghost mid_adds = total_adds(changes@);
    let m2 = new_counts.len();
    let mut k2: usize = 0;
    proof {
        assert(rem.take(0) =~= Seq::<(SimpleEntityId, usize)>::empty());
        crate::tagging::lemma_id_items_total_nonneg(rem);
    }
    while k2 < m2
        invariant
            m2 == rem.len(),
            rem == new_counts.items_view(),
            crate::tagging::id_items_unique(rem),
            new_counts.positive(),
            old0.wf(),
            new0.wf(),
            new0.positive(),
            m == old_items.len(),
            old_items == old0.items_view(),
            crate::tagging::id_items_unique(old_items),
            k2 <= m2,
            changes@.len() == m + k2,
            forall|i: int| 0 <= i < m ==> (#[trigger] changes@[i]).simple_id == old_items[i].0,
            forall|i: int|
                m <= i < m + k2 ==> (#[trigger] changes@[i]).simple_id == rem[i - m].0,
            forall|j: int|
                0 <= j < rem.len() ==> new0.count((#[trigger] rem[j]).0) == rem[j].1
                    && !crate::tagging::id_items_has(old_items, rem[j].0),
            forall|j: int|
                0 <= j < new0.items_view().len() ==> crate::tagging::id_items_has(
                    old_items,
                    (#[trigger] new0.items_view()[j]).0,
                ) || crate::tagging::id_items_has(rem, new0.items_view()[j].0),
            forall|i: int|
                0 <= i < changes@.len() ==> (#[trigger] changes@[i]).commit_id == diff.commit_id,
            forall|i: int|
                0 <= i < changes@.len() ==> (#[trigger] changes@[i]).dels == old0.count(
                    changes@[i].simple_id,
                ),
            forall|i: int|
                0 <= i < changes@.len() ==> (#[trigger] changes@[i]).adds == new0.count(
                    changes@[i].simple_id,
                ),
            forall|i: int|
                0 <= i < changes@.len() ==> (#[trigger] changes@[i]).dels >= 1 || changes@[i].adds
                    >= 1,
            forall|i: int|
                0 <= i < changes@.len() ==> (((#[trigger] changes@[i]).kind is Added
                    <==> changes@[i].dels == 0) && (changes@[i].kind is Deleted
                    <==> changes@[i].adds == 0)),
            total_dels(changes@) == old_total,
            total_adds(changes@) == mid_adds + crate::tagging::id_items_total(rem.take(k2 as int)),
            mid_adds == new_total - crate::tagging::id_items_total(rem),
        decreases m2 - k2,
    {
        let (id, a) = new_counts.item_at(k2);
        proof {
            assert(new0.count((rem[k2 as int]).0) == rem[k2 as int].1
                && !crate::tagging::id_items_has(old_items, rem[k2 as int].0));
            assert(a == new0.count(id));
            assert(a >= 1);
            assert(old0.count(id) == 0);
        }
        let ghost before = changes@;
        changes.push(
            Change {
                simple_id: id,
                commit_id: diff.commit_id,
                kind: ChangeKind::Added,
                adds: a,
                dels: 0,
            },
        );
        proof {
            assert(changes@.drop_last() =~= before);
            assert(rem.take(k2 + 1) =~= rem.take(k2 as int).push(rem[k2 as int]));
            crate::tagging::lemma_id_items_total_snoc(rem.take(k2 as int), rem[k2 as int]);
        }
        k2 = k2 + 1;
    }
    proof {
        assert(rem.take(m2 as int) =~= rem);
        assert forall|a: int, b: int|
            0 <= a < b < changes@.len() implies (#[trigger] changes@[a]).simple_id != (
        #[trigger] changes@[b]).simple_id by {
            if b < m {
                assert(old_items[a].0 != old_items[b].0);
            } else if a >= m {
                assert(rem[a - m].0 != rem[b - m].0);
            } else {
                // an id of the old side was taken out of the new tally
                assert(changes@[b].simple_id == rem[b - m].0);
                assert(crate::tagging::id_items_has(rem, rem[b - m].0));
            }
        }
        // every credited id got a record
        assert forall|sid: SimpleEntityId|
            old_sid_count(old_set, *diff, sid) != 0 || new_sid_count(new_set, *diff, sid) != 0
            implies exists|i: int|
            0 <= i < changes@.len() && (#[trigger] changes@[i]).simple_id == sid by {
            if old0.count(sid) != 0 {
                assert(crate::tagging::id_items_has(old_items, sid));
                let i = choose|i: int|
                    0 <= i < old_items.len() && (#[trigger] old_items[i]).0 == sid;
                assert(changes@[i].simple_id == sid);
            } else if new0.count(sid) != 0 {
                assert(new0.spec_has(sid)) by {
                    if !new0.spec_has(sid) {
                        assert(new0.count(sid) == 0);
                    }
                }
                let w = choose|w: int|
                    0 <= w < new0.items_view().len() && (#[trigger] new0.items_view()[w]).0 == sid;
                if crate::tagging::id_items_has(old_items, sid) {
                    let i = choose|i: int|
                        0 <= i < old_items.len() && (#[trigger] old_items[i]).0 == sid;
                    assert(changes@[i].simple_id == sid);
                } else {
                    assert(crate::tagging::id_items_has(rem, new0.items_view()[w].0));
                    assert(crate::tagging::id_items_has(rem, sid));
                    let j = choose|j: int| 0 <= j < rem.len() && (#[trigger] rem[j]).0 == sid;
                    assert(changes@[m + j].simple_id == sid);
                }
            }
        }
        // the per-id counts name the spans' credit directly
        assert forall|i: int|
            0 <= i < changes@.len() implies (#[trigger] changes@[i]).dels == old_sid_count(
            old_set,
            *diff,
            changes@[i].simple_id,
        ) && changes@[i].adds == new_sid_count(new_set, *diff, changes@[i].simple_id) by {
        }
    }
    changes
}

/// What a diff delta reports happened to a file.
#[derive(Clone, Copy, Debug, PartialEq, Eq, Structural)]
pub enum DeltaStatus {
    Added,
    Deleted,
    Modified,
    /// Any other status the diff library may report; the model rejects it.
    Other,
}

/// A hunk as the diff library reports it: 1-based start lines and counts.
#[derive(Clone, Copy, Debug, PartialEq, Eq, Structural)]
pub struct RawHunk {
    pub old_start: u32,
    pub old_lines: u32,
    pub new_start: u32,
    pub new_lines: u32,
}

/// One file's delta as the diff library reports it, with the paths of
/// both sides as given.
#[derive(Clone, Debug)]
pub struct DeltaRecord {
    pub status: DeltaStatus,
    pub old_path: Option<String>,
    pub new_path: Option<String>,
    pub old_id: Option<ContentId>,
    pub new_id: Option<ContentId>,
    pub hunks: Vec<RawHunk>,
}

/// The one filename of a delta; renames are rejected before this is used.
pub open spec fn delta_filename(d: DeltaRecord) -> Seq<char> {
    match d.old_path {
        Some(p) => p@,
        None => match d.new_path {
            Some(p) => p@,
            None => Seq::empty(),
        },
    }
}

/// At least one side has a path, the two sides agree when both are
/// present, and the path has the shape the matcher accepts.
pub open spec fn delta_paths_ok(d: DeltaRecord) -> bool {
    &&& d.old_path is Some || d.new_path is Some
    &&& (d.old_path matches Some(o) ==> (d.new_path matches Some(n) ==> o@ == n@))
    &&& crate::filespec::plain_repo_path(encode_utf8(delta_filename(d)))
}

/// The sides present agree with the reported status.
pub open spec fn delta_status_ok(d: DeltaRecord) -> bool {
    match d.status {
        DeltaStatus::Added => d.old_id is None && d.new_id is Some,
        DeltaStatus::Deleted => d.old_id is Some && d.new_id is None,
        DeltaStatus::Modified => d.old_id is Some && d.new_id is Some,
        DeltaStatus::Other => false,
    }
}

/// The 0-based row of a side's 1-based start; the diff convention writes
/// start 0 for a side with no lines, which marks the same place as 1.
pub open spec fn row_of_start(s: u32) -> int {
    if s >= 1 {
        s - 1
    } else {
        0
    }
}

/// One raw hunk's row numbers fit the machine word.
pub open spec fn raw_hunk_ok(h: RawHunk) -> bool {
    row_of_start(h.old_start) + h.old_lines <= usize::MAX && row_of_start(h.new_start)
        + h.new_lines <= usize::MAX
}

/// Every raw hunk of the list is well formed.
pub open spec fn raw_hunks_wf(hs: Seq<RawHunk>) -> bool {
    forall|i: int| 0 <= i < hs.len() ==> raw_hunk_ok(#[trigger] hs[i])
}

/// A delta the assembly accepts: proper paths and, when the pathspec
/// keeps it, agreeing sides, well-formed hunks, and no old side on a
/// root-commit comparison.
pub open spec fn delta_ok(d: DeltaRecord, parent_count: int) -> bool {
    &&& delta_status_ok(d)
    &&& raw_hunks_wf(d.hunks@)
    &&& parent_count == 0 ==> d.old_id is None
}

/// Whether the pathspec keeps the delta.
pub open spec fn delta_kept(d: DeltaRecord, pats: Seq<Seq<char>>) -> bool {
    pathspec_matches(pats, delta_filename(d))
}

/// The deltas the pathspec keeps, in order.
pub open spec fn kept_deltas(ds: Seq<DeltaRecord>, pats: Seq<Seq<char>>) -> Seq<DeltaRecord>
    decreases ds.len(),
{
    if ds.len() == 0 {
        Seq::empty()
    } else {
        let rest = kept_deltas(ds.drop_last(), pats);
        if delta_kept(ds.last(), pats) {
            rest.push(ds.last())
        } else {
            rest
        }
    }
}

/// Every delta of the list passes the checks the assembly makes.
pub open spec fn deltas_ok(ds: Seq<DeltaRecord>, pats: Seq<Seq<char>>, parent_count: int) -> bool {
    forall|i: int|
        0 <= i < ds.len() ==> delta_paths_ok(#[trigger] ds[i]) && (delta_kept(ds[i], pats)
            ==> delta_ok(ds[i], parent_count))
}

/// The diff carries exactly the delta's sides, filename and converted
/// hunks for this commit.
pub open spec fn diff_matches(diff: Diff, d: DeltaRecord, commit_id: CommitId) -> bool {
    &&& diff.commit_id == commit_id
    &&& (match d.old_id {
        Some(c) => diff.old matches Some(k) && k.filename@ == delta_filename(d) && k.content_id
            == c,
        None => diff.old is None,
    })
    &&& (match d.new_id {
        Some(c) => diff.new matches Some(k) && k.filename@ == delta_filename(d) && k.content_id
            == c,
        None => diff.new is None,
    })
    &&& diff.hunks@.len() == d.hunks@.len()
    &&& forall|j: int|
        0 <= j < d.hunks@.len() ==> (#[trigger] diff.hunks@[j]) == (Hunk {
            old: PartialSpan::Row(
                row_of_start(d.hunks@[j].old_start) as usize,
                (row_of_start(d.hunks@[j].old_start) + d.hunks@[j].old_lines) as usize,
            ),
            new: PartialSpan::Row(
                row_of_start(d.hunks@[j].new_start) as usize,
                (row_of_start(d.hunks@[j].new_start) + d.hunks@[j].new_lines) as usize,
            ),
        })
}

/// Turn the deltas of one commit into per-file diffs.
///
/// A merge commit (two or more parents) yields no diffs at all. A root
/// commit (no parents) is compared against the empty tree, so every diff
/// of it lacks an old side. Deltas whose filename fails the pathspec are
/// dropped; a rename, an unexpected status, sides that do not match the
/// status, or a malformed path or hunk is a fatal error. The diffs that
/// come out are exactly the kept deltas, in order, with their hunks
/// converted to half-open 0-based row ranges.
pub fn assemble_diffs(
    commit_id: CommitId,
    parent_count: usize,
    deltas: Vec<DeltaRecord>,
    pathspec: &PathMatcher,
) -> (r: Result<Vec<Diff>, Error>)
    requires
        pathspec.wf(),
    ensures
        parent_count >= 2 ==> (r matches Ok(v) && v@.len() == 0),
        parent_count < 2 ==> (r is Ok <==> deltas_ok(
            deltas@,
            pathspec.view_patterns(),
            parent_count as int,
        )),
        parent_count < 2 ==> (r matches Ok(v) ==> v@.len() == kept_deltas(
            deltas@,
            pathspec.view_patterns(),
        ).len() && (forall|i: int|
            0 <= i < v@.len() ==> diff_matches(
                #[trigger] v@[i],
                kept_deltas(deltas@, pathspec.view_patterns())[i],
                commit_id,
            ))),
        parent_count == 0 ==> (r matches Ok(v) ==> forall|i: int|
            0 <= i < v@.len() ==> (#[trigger] v@[i]).old is None),
{
    let ghost pats = pathspec.view_patterns();
    if parent_count >= 2 {
        // merge commits are skipped entirely
        return Ok(Vec::new());
    }
    let n = deltas.len();
    let mut diffs: Vec<Diff> = Vec::new();
    let mut d: usize = 0;
    proof {
        assert(kept_deltas(deltas@.take(0), pats) =~= Seq::<DeltaRecord>::empty());
    }
    while d < n
        invariant
            n == deltas@.len(),
            d <= n,
            parent_count < 2,
            pathspec.wf(),
            pats == pathspec.view_patterns(),
            deltas_ok(deltas@.take(d as int), pats, parent_count as int),
            diffs@.len() == kept_deltas(deltas@.take(d as int), pats).len(),
            forall|i: int|
                0 <= i < diffs@.len() ==> diff_matches(
                    #[trigger] diffs@[i],
                    kept_deltas(deltas@.take(d as int), pats)[i],
                    commit_id,
                ),
            parent_count == 0 ==> forall|i: int|
                0 <= i < diffs@.len() ==> (#[trigger] diffs@[i]).old is None,
        decreases n - d,
    {
        proof {
            assert(deltas@.take(d + 1) =~= deltas@.take(d as int).push(deltas@[d as int]));
            assert(deltas@.take(d + 1).drop_last() =~= deltas@.take(d as int));
        }
        let delta = &deltas[d];
        let filename: &String = match (&delta.old_path, &delta.new_path) {
            (None, None) => {
                proof {
                    assert(!delta_paths_ok(deltas@[d as int]));
                }
                return Err(Error::UnsupportedDiffStatus);
            },
            (Some(o), Some(new_side)) => {
                if !(*o == *new_side) {
                    // the model assumes stable filenames
                    proof {
                        assert(!delta_paths_ok(deltas@[d as int]));
                    }
                    return Err(Error::RenameInDiff);
                }
                o
            },
            (Some(o), None) => o,
            (None, Some(new_side)) => new_side,
        };
        proof {
            assert(filename@ == delta_filename(deltas@[d as int]));
        }
        if !crate::filespec::is_plain_repo_path(filename.as_str()) {
            proof {
                assert(!delta_paths_ok(deltas@[d as int]));
            }
            return Err(Error::UnsupportedDiffStatus);
        }
        if !pathspec.matches(filename.as_str()) {
            d = d + 1;
            continue ;
        }
        let (old, new): (Option<FileKey>, Option<FileKey>) = match delta.status {
            DeltaStatus::Added => {
                match (&delta.old_id, &delta.new_id) {
                    (None, Some(c)) => (None, Some(FileKey::new(filename.clone(), *c))),
                    _ => {
                        proof {
                            assert(!delta_ok(deltas@[d as int], parent_count as int));
                        }
                        return Err(Error::UnsupportedDiffStatus);
                    },
                }
            },
            DeltaStatus::Deleted => {
                match (&delta.old_id, &delta.new_id) {
                    (Some(c), None) => (Some(FileKey::new(filename.clone(), *c)), None),
                    _ => {
                        proof {
                            assert(!delta_ok(deltas@[d as int], parent_count as int));
                        }
                        return Err(Error::UnsupportedDiffStatus);
                    },
                }
            },
            DeltaStatus::Modified => {
                match (&delta.old_id, &delta.new_id) {
                    (Some(co), Some(cn)) => (
                        Some(FileKey::new(filename.clone(), *co)),
                        Some(FileKey::new(filename.clone(), *cn)),
                    ),
                    _ => {
                        proof {
                            assert(!delta_ok(deltas@[d as int], parent_count as int));
                        }
                        return Err(Error::UnsupportedDiffStatus);
                    },
                }
            },
            DeltaStatus::Other => {
                proof {
                    assert(!delta_ok(deltas@[d as int], parent_count as int));
                }
                return Err(Error::UnsupportedDiffStatus);
            },
        };
        if parent_count == 0 && old.is_some() {
            // a comparison against the empty tree cannot have old sides
            proof {
                assert(!delta_ok(deltas@[d as int], parent_count as int));
            }
            return Err(Error::UnsupportedDiffStatus);
        }
        let nh = delta.hunks.len();
        let mut hunks: Vec<Hunk> = Vec::new();
        let mut h: usize = 0;
        while h < nh
            invariant
                nh == deltas@[d as int].hunks@.len(),
                *delta == deltas@[d as int],
                n == deltas@.len(),
                d < n,
                h <= nh,
                parent_count < 2,
                pats == pathspec.view_patterns(),
                deltas_ok(deltas@.take(d as int), pats, parent_count as int),
                delta_kept(deltas@[d as int], pats),
                hunks@.len() == h,
                forall|j: int|
                    0 <= j < h ==> raw_hunk_ok(#[trigger] deltas@[d as int].hunks@[j]),
                forall|j: int|
                    0 <= j < h ==> (#[trigger] hunks@[j]) == (Hunk {
                        old: PartialSpan::Row(
                            row_of_start(deltas@[d as int].hunks@[j].old_start) as usize,
                            (row_of_start(deltas@[d as int].hunks@[j].old_start)
                                + deltas@[d as int].hunks@[j].old_lines) as usize,
                        ),
                        new: PartialSpan::Row(
                            row_of_start(deltas@[d as int].hunks@[j].new_start) as usize,
                            (row_of_start(deltas@[d as int].hunks@[j].new_start)
                                + deltas@[d as int].hunks@[j].new_lines) as usize,
                        ),
                    }),
            decreases nh - h,
        {
            let rh = delta.hunks[h];
            let or = if rh.old_start >= 1 {
                rh.old_start - 1
            } else {
                0
            };
            let nr = if rh.new_start >= 1 {
                rh.new_start - 1
            } else {
                0
            };
            if !(or as u64 + rh.old_lines as u64 <= usize::MAX as u64 && nr as u64
                + rh.new_lines as u64 <= usize::MAX as u64) {
                proof {
                    assert(!raw_hunk_ok(deltas@[d as int].hunks@[h as int]));
                    assert(!delta_ok(deltas@[d as int], parent_count as int));
                    assert(!deltas_ok(deltas@, pats, parent_count as int));
                }
                return Err(Error::UnsupportedDiffStatus);
            }
            hunks.push(Hunk::from_git(rh.old_start, rh.old_lines, rh.new_start, rh.new_lines));
            h = h + 1;
        }
        let ghost before = diffs@;
        diffs.push(Diff { commit_id, old, new, hunks });
        proof {
            assert(diffs@.drop_last() =~= before);
            assert(diff_matches(diffs@.last(), deltas@[d as int], commit_id));
            assert(kept_deltas(deltas@.take(d + 1), pats) =~= kept_deltas(
                deltas@.take(d as int),
                pats,
            ).push(deltas@[d as int]));
        }
        d = d + 1;
    }
    proof {
        assert(deltas@.take(n as int) =~= deltas@);
    }
    Ok(diffs)
}

} // verus!
