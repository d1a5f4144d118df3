//! A content-addressed store: file text held under its content id.
//!
//! This is the in-memory half of the file store: whatever is read from
//! the version-control store or the disk is kept here under the id of its
//! bytes, and reading an id back yields the exact content that was put
//! in.

use vstd::prelude::*;
use vstd::string::StringSliceAdditionalSpecFns;
use vstd::utf8::encode_utf8;

use crate::files::key_matches;
use crate::files::FileKey;
use crate::ids::content_id_of;
use crate::ids::ContentId;
use crate::tagging::EntitySet;

verus! {

/// The store holds `id`.
pub open spec fn store_has(s: Seq<(ContentId, Seq<char>)>, id: ContentId) -> bool {
    exists|i: int| 0 <= i < s.len() && (#[trigger] s[i]).0 == id
}

/// The content stored under `id`.
pub open spec fn store_at(s: Seq<(ContentId, Seq<char>)>, id: ContentId) -> Seq<char> {
    s[choose|i: int| 0 <= i < s.len() && (#[trigger] s[i]).0 == id].1
}

/// Ids occur at most once.
pub open spec fn store_unique(s: Seq<(ContentId, Seq<char>)>) -> bool {
    forall|i: int, j: int| 0 <= i < j < s.len() ==> (#[trigger] s[i]).0 != (#[trigger] s[j]).0
}

/// In a duplicate-free store, any position holding `id` gives its content.
proof fn lemma_store_at(s: Seq<(ContentId, Seq<char>)>, id: ContentId, k: int)
    requires
        store_unique(s),
        0 <= k < s.len(),
        s[k].0 == id,
    ensures
        store_has(s, id),
        store_at(s, id) == s[k].1,
{
    let c = choose|i: int| 0 <= i < s.len() && (#[trigger] s[i]).0 == id;
    if c < k {
        assert(s[c].0 != s[k].0);
    } else if c > k {
        assert(s[k].0 != s[c].0);
    }
}

/// File contents held under their content ids.
pub struct ContentStore {
    entries: Vec<(ContentId, String)>,
}

impl ContentStore {
    /// The stored (id, content) pairs.
    pub closed spec fn view_store(self) -> Seq<(ContentId, Seq<char>)> {
        self.entries@.map_values(|e: (ContentId, String)| (e.0, e.1@))
    }

    /// Every id occurs once.
    pub open spec fn wf(self) -> bool {
        store_unique(self.view_store())
    }

    /// An empty store.
    pub fn new() -> (r: ContentStore)
        ensures
            r.wf(),
            r.view_store().len() == 0,
    {
        ContentStore { entries: Vec::new() }
    }

    /// Put a file's text in under the id of its bytes, returning the id.
    /// Reading that id back yields exactly this content.
    pub fn insert_content(&mut self, content: String) -> (id: ContentId)
        requires
            old(self).wf(),
        ensures
            final(self).wf(),
            id == content_id_of(encode_utf8(content@)),
            store_has(final(self).view_store(), id),
            store_at(final(self).view_store(), id) == content@,
            forall|w: ContentId|
                w != id ==> (store_has(final(self).view_store(), w) == store_has(
                    old(self).view_store(),
                    w,
                ) && (store_has(old(self).view_store(), w) ==> store_at(
                    final(self).view_store(),
                    w,
                ) == store_at(old(self).view_store(), w))),
    {
        let id = crate::ids::ContentId::from_content(content.as_str());
        let n = self.entries.len();
        let mut i: usize = 0;
        while i < n
            invariant
                n == self.entries@.len(),
                i <= n,
                forall|j: int| 0 <= j < i ==> (#[trigger] self.entries@[j]).0 != id,
                self == old(self),
                store_unique(self.view_store()),
                id == content_id_of(encode_utf8(content@)),
            decreases n - i,
        {
            if self.entries[i].0 == id {
                let ghost before = self.view_store();
                proof {
                    assert(before[i as int].0 == id);
                }
                self.entries.set(i, (id, content));
                proof {
                    let after = self.view_store();
                    assert(after =~= before.update(i as int, (id, content@)));
                    assert(store_unique(after)) by {
                        assert forall|k: int| 0 <= k < after.len() implies after[k].0
                            == before[k].0 by {
                            if k != i {
                                assert(after[k] == before[k]);
                            }
                        }
                    }
                    lemma_store_at(after, id, i as int);
                    assert forall|w: ContentId| w != id implies (store_has(after, w) == store_has(
                        before,
                        w,
                    ) && (store_has(before, w) ==> store_at(after, w) == store_at(before, w))) by {
                        if store_has(before, w) {
                            let k = choose|k: int|
                                0 <= k < before.len() && (#[trigger] before[k]).0 == w;
                            lemma_store_at(before, w, k);
                            assert(after[k] == before[k]);
                            lemma_store_at(after, w, k);
                        } else {
                            if store_has(after, w) {
                                let k = choose|k: int|
                                    0 <= k < after.len() && (#[trigger] after[k]).0 == w;
                                assert(before[k].0 == w);
                            }
                        }
                    }
                }
                return id;
            }
            i = i + 1;
        }
        let ghost before = self.view_store();
        self.entries.push((id, content));
        proof {
            let after = self.view_store();
            assert(after =~= before.push((id, content@)));
            assert(store_unique(after)) by {
                assert(forall|k: int| 0 <= k < before.len() ==> after[k] == before[k]);
                assert(after[before.len() as int].0 == id);
            }
            lemma_store_at(after, id, before.len() as int);
            assert forall|w: ContentId| w != id implies (store_has(after, w) == store_has(
                before,
                w,
            ) && (store_has(before, w) ==> store_at(after, w) == store_at(before, w))) by {
                if store_has(before, w) {
                    let k = choose|k: int| 0 <= k < before.len() && (#[trigger] before[k]).0 == w;
                    lemma_store_at(before, w, k);
                    assert(after[k] == before[k]);
                    lemma_store_at(after, w, k);
                } else {
                    if store_has(after, w) {
                        let k = choose|k: int|
                            0 <= k < after.len() && (#[trigger] after[k]).0 == w;
                        assert(k < before.len());
                        assert(before[k].0 == w);
                    }
                }
            }
        }
        id
    }

    /// The content stored under an id, if any.
    pub fn read(&self, id: ContentId) -> (r: Option<&String>)
        requires
            self.wf(),
        ensures
            r is Some <==> store_has(self.view_store(), id),
            r matches Some(c) ==> c@ == store_at(self.view_store(), id),
    {
        let n = self.entries.len();
        let mut i: usize = 0;
        while i < n
            invariant
                n == self.entries@.len(),
                i <= n,
                forall|j: int| 0 <= j < i ==> (#[trigger] self.entries@[j]).0 != id,
                self.wf(),
            decreases n - i,
        {
            if self.entries[i].0 == id {
                proof {
                    assert(self.view_store()[i as int].0 == id);
                    lemma_store_at(self.view_store(), id, i as int);
                }
                return Some(&self.entries[i].1);
            }
            i = i + 1;
        }
        proof {
            if store_has(self.view_store(), id) {
                let k = choose|k: int|
                    0 <= k < self.view_store().len() && (#[trigger] self.view_store()[k]).0 == id;
                assert(self.entries@[k].0 == id);
            }
        }
        None
    }
}

/// What a read of `id` returns, over the store's view.
pub open spec fn spec_read(s: Seq<(ContentId, Seq<char>)>, id: ContentId) -> Option<Seq<char>> {
    if store_has(s, id) {
        Some(store_at(s, id))
    } else {
        None
    }
}

/// Putting content in and reading its id back returns that content: any
/// store that came out of `insert_content` answers a read of the returned
/// id with exactly the content that went in.
pub proof fn lemma_content_round_trip(s: Seq<(ContentId, Seq<char>)>, content: Seq<char>)
    requires
        store_has(s, content_id_of(encode_utf8(content))),
        store_at(s, content_id_of(encode_utf8(content))) == content,
    ensures
        spec_read(s, content_id_of(encode_utf8(content))) == Some(content),
{
}

/// The cache holds a set for a key naming this file version.
pub open spec fn cache_has(s: Seq<(FileKey, EntitySet)>, k: FileKey) -> bool {
    exists|i: int| 0 <= i < s.len() && key_matches((#[trigger] s[i]).0, k)
}

/// The entity set cached under the key.
pub open spec fn cache_at(s: Seq<(FileKey, EntitySet)>, k: FileKey) -> EntitySet {
    s[choose|i: int| 0 <= i < s.len() && key_matches((#[trigger] s[i]).0, k)].1
}

/// No two cached keys name the same file version.
pub open spec fn cache_unique(s: Seq<(FileKey, EntitySet)>) -> bool {
    forall|i: int, j: int|
        0 <= i < j < s.len() ==> !key_matches((#[trigger] s[i]).0, (#[trigger] s[j]).0)
}

/// In a duplicate-free cache, any position matching `k` gives its set.
proof fn lemma_cache_at(s: Seq<(FileKey, EntitySet)>, k: FileKey, w: int)
    requires
        cache_unique(s),
        0 <= w < s.len(),
        key_matches(s[w].0, k),
    ensures
        cache_has(s, k),
        cache_at(s, k) == s[w].1,
{
    let c = choose|i: int| 0 <= i < s.len() && key_matches((#[trigger] s[i]).0, k);
    if c < w {
        assert(!key_matches(s[c].0, s[w].0));
    } else if c > w {
        assert(!key_matches(s[w].0, s[c].0));
    }
}

/// The per-file entity cache: each file version's entity set, built once
/// and shared.
pub struct EntityCache {
    entries: Vec<(FileKey, EntitySet)>,
}

impl EntityCache {
    /// The cached (key, set) pairs.
    pub closed spec fn view_cache(self) -> Seq<(FileKey, EntitySet)> {
        self.entries@
    }

    /// Every file version occurs once.
    pub open spec fn wf(self) -> bool {
        cache_unique(self.view_cache())
    }

    /// An empty cache.
    pub fn new() -> (r: EntityCache)
        ensures
            r.wf(),
            r.view_cache().len() == 0,
    {
        EntityCache { entries: Vec::new() }
    }

    /// The set cached for a file version, if present.
    pub fn get(&self, k: &FileKey) -> (r: Option<&EntitySet>)
        requires
            self.wf(),
        ensures
            r is Some <==> cache_has(self.view_cache(), *k),
            r matches Some(s) ==> *s == cache_at(self.view_cache(), *k),
    {
        let n = self.entries.len();
        let mut i: usize = 0;
        while i < n
            invariant
                n == self.entries@.len(),
                i <= n,
                self.wf(),
                forall|j: int| 0 <= j < i ==> !key_matches((#[trigger] self.entries@[j]).0, *k),
            decreases n - i,
        {
            if self.entries[i].0.same_key(k) {
                proof {
                    lemma_cache_at(self.view_cache(), *k, i as int);
                }
                return Some(&self.entries[i].1);
            }
            i = i + 1;
        }
        proof {
            if cache_has(self.view_cache(), *k) {
                let j = choose|j: int|
                    0 <= j < self.view_cache().len() && key_matches(
                        (#[trigger] self.view_cache()[j]).0,
                        *k,
                    );
            }
        }
        None
    }

    /// Cache a set for a file version not yet held; a later lookup of the
    /// key yields this set, and every other version keeps its own.
    pub fn put(&mut self, k: FileKey, es: EntitySet)
        requires
            old(self).wf(),
            !cache_has(old(self).view_cache(), k),
        ensures
            final(self).wf(),
            cache_has(final(self).view_cache(), k),
            cache_at(final(self).view_cache(), k) == es,
            forall|w: FileKey|
                !key_matches(k, w) ==> (#[trigger] cache_has(final(self).view_cache(), w)
                    == cache_has(old(self).view_cache(), w) && (cache_has(
                    old(self).view_cache(),
                    w,
                ) ==> cache_at(final(self).view_cache(), w) == cache_at(
                    old(self).view_cache(),
                    w,
                ))),
    {
        let ghost before = self.view_cache();
        self.entries.push((k, es));
        proof {
            let after = self.view_cache();
            assert(after =~= before.push((k, es)));
            assert(cache_unique(after)) by {
                assert forall|i: int, j: int|
                    0 <= i < j < after.len() implies !key_matches(
                    (#[trigger] after[i]).0,
                    (#[trigger] after[j]).0,
                ) by {
                    if j == after.len() - 1 {
                        assert(after[i] == before[i]);
                        if key_matches(before[i].0, k) {
                            assert(cache_has(before, k));
                        }
                    } else {
                        assert(after[i] == before[i] && after[j] == before[j]);
                    }
                }
            }
            assert(key_matches(after[after.len() - 1].0, k));
            lemma_cache_at(after, k, after.len() - 1);
            assert forall|w: FileKey| !key_matches(k, w) implies (#[trigger] cache_has(after, w)
                == cache_has(before, w) && (cache_has(before, w) ==> cache_at(after, w)
                == cache_at(before, w))) by {
                if cache_has(before, w) {
                    let i = choose|i: int|
                        0 <= i < before.len() && key_matches((#[trigger] before[i]).0, w);
                    lemma_cache_at(before, w, i);
                    assert(after[i] == before[i]);
                    lemma_cache_at(after, w, i);
                } else {
                    if cache_has(after, w) {
                        let i = choose|i: int|
                            0 <= i < after.len() && key_matches((#[trigger] after[i]).0, w);
                        if i < before.len() {
                            assert(key_matches(before[i].0, w));
                        } else {
                            assert(key_matches(k, w));
                        }
                    }
                }
            }
        }
    }
}

} // verus!
