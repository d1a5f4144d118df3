//! File keys and the per-revision sets of them.
//!
//! A `FileKey` names one version of a file: its project-relative path and
//! the id of its content. A `FileSet` is the project at one revision; its
//! filenames are unique. A `MultiFileSet` collects one `FileSet` per
//! requested revision.

use vstd::prelude::*;
use vstd::string::StringSliceAdditionalSpecFns;
use vstd::utf8::encode_utf8;

use crate::hashing::Sha1Hash;
use crate::ids::content_id_of;
use crate::ids::ContentId;
use crate::ids::PseudoCommitId;
use crate::strutil::bytes_lt;
use crate::strutil::lemma_bytes_lt_total;
use crate::strutil::str_eq;
use crate::strutil::str_less;

verus! {

/// A unique identifier for a particular version of a file: the
/// project-relative path and the content id.
#[derive(Clone, Debug)]
pub struct FileKey {
    pub filename: String,
    pub content_id: ContentId,
}

/// Two keys name the same file version.
pub open spec fn key_matches(a: FileKey, b: FileKey) -> bool {
    a.filename@ == b.filename@ && a.content_id == b.content_id
}

impl FileKey {
    pub fn new(filename: String, content_id: ContentId) -> (k: FileKey)
        ensures
            k.filename == filename,
            k.content_id == content_id,
    {
        FileKey { filename, content_id }
    }

    /// A key for a filename and the content it currently holds.
    pub fn from_content(filename: String, content: &str) -> (k: FileKey)
        ensures
            k.filename == filename,
            k.content_id == content_id_of(content.spec_bytes()),
    {
        let content_id = crate::ids::ContentId::from_content(content);
        FileKey { filename, content_id }
    }

    /// An owned copy of this key.
    pub fn duplicate(&self) -> (k: FileKey)
        ensures
            k == *self,
    {
        FileKey { filename: self.filename.clone(), content_id: self.content_id }
    }

    /// Whether two keys agree on both filename and content id.
    pub fn same_key(&self, other: &FileKey) -> (r: bool)
        ensures
            r == key_matches(*self, *other),
    {
        self.filename == other.filename && self.content_id == other.content_id
    }
}

/// Filenames are pairwise distinct.
pub open spec fn filenames_unique(s: Seq<FileKey>) -> bool {
    forall|i: int, j: int|
        0 <= i < j < s.len() ==> (#[trigger] s[i]).filename@ != (#[trigger] s[j]).filename@
}

/// Key `k` occurs in the sequence, by filename and content id.
pub open spec fn key_in(s: Seq<FileKey>, k: FileKey) -> bool {
    exists|i: int| 0 <= i < s.len() && key_matches(#[trigger] s[i], k)
}


/// Hashes ordered by their big-endian words, which is the lexicographic
/// order of their bytes.
pub open spec fn hash_le(a: Sha1Hash, b: Sha1Hash) -> bool {
    if a.w0 != b.w0 {
        a.w0 < b.w0
    } else if a.w1 != b.w1 {
        a.w1 < b.w1
    } else if a.w2 != b.w2 {
        a.w2 < b.w2
    } else if a.w3 != b.w3 {
        a.w3 < b.w3
    } else {
        a.w4 <= b.w4
    }
}

/// Keys ordered ascending by filename bytes, then by content id.
pub open spec fn key_le(a: FileKey, b: FileKey) -> bool {
    if encode_utf8(a.filename@) != encode_utf8(b.filename@) {
        bytes_lt(encode_utf8(a.filename@), encode_utf8(b.filename@))
    } else {
        hash_le(a.content_id.0, b.content_id.0)
    }
}

/// Each key precedes the next.
pub open spec fn keys_sorted(s: Seq<FileKey>) -> bool {
    forall|i: int| 0 <= i < s.len() - 1 ==> key_le(#[trigger] s[i], s[i + 1])
}

/// Decide `key_le`.
fn key_le_x(a: &FileKey, b: &FileKey) -> (r: bool)
    ensures
        r == key_le(*a, *b),
{
    if !str_eq(a.filename.as_str(), b.filename.as_str()) {
        str_less(a.filename.as_str(), b.filename.as_str())
    } else {
        let x = &a.content_id.0;
        let y = &b.content_id.0;
        if x.w0 != y.w0 {
            x.w0 < y.w0
        } else if x.w1 != y.w1 {
            x.w1 < y.w1
        } else if x.w2 != y.w2 {
            x.w2 < y.w2
        } else if x.w3 != y.w3 {
            x.w3 < y.w3
        } else {
            x.w4 <= y.w4
        }
    }
}

/// The key order is total.
proof fn lemma_key_le_total(a: FileKey, b: FileKey)
    ensures
        key_le(a, b) || key_le(b, a),
{
    lemma_bytes_lt_total(encode_utf8(a.filename@), encode_utf8(b.filename@));
}

/// Membership is decided by the head and the rest.
proof fn lemma_key_in_head(s: Seq<FileKey>, k: FileKey)
    requires
        s.len() > 0,
    ensures
        key_in(s, k) <==> (key_matches(s[0], k) || key_in(s.drop_first(), k)),
{
    if key_in(s, k) {
        let i = choose|i: int| 0 <= i < s.len() && key_matches(#[trigger] s[i], k);
        if i > 0 {
            assert(key_matches(s.drop_first()[i - 1], k));
        }
    }
    if key_in(s.drop_first(), k) {
        let i = choose|i: int|
            0 <= i < s.drop_first().len() && key_matches(#[trigger] s.drop_first()[i], k);
        assert(key_matches(s[i + 1], k));
    }
}

/// Membership after an insertion is membership before, or the new key.
proof fn lemma_key_in_insert(before: Seq<FileKey>, after: Seq<FileKey>, pos: int, x: FileKey, k: FileKey)
    requires
        0 <= pos <= before.len(),
        after == before.take(pos) + seq![x] + before.skip(pos),
    ensures
        key_in(after, k) <==> (key_in(before, k) || key_matches(x, k)),
{
    assert(forall|i: int| 0 <= i < pos ==> after[i] == before[i]);
    assert(after[pos] == x);
    assert(forall|i: int| pos < i < after.len() ==> after[i] == before[i - 1]);
    if key_in(after, k) {
        let i = choose|i: int| 0 <= i < after.len() && key_matches(#[trigger] after[i], k);
        if i < pos {
            assert(key_matches(before[i], k));
        } else if i > pos {
            assert(key_matches(before[i - 1], k));
        }
    }
    if key_in(before, k) {
        let i = choose|i: int| 0 <= i < before.len() && key_matches(#[trigger] before[i], k);
        if i < pos {
            assert(key_matches(after[i], k));
        } else {
            assert(key_matches(after[i + 1], k));
        }
    }
    if key_matches(x, k) {
        assert(key_matches(after[pos], k));
    }
}

/// Sort keys ascending by (filename, content id), keeping exactly the
/// same keys and the uniqueness of their filenames.
fn sort_keys(input: Vec<FileKey>) -> (r: Vec<FileKey>)
    requires
        filenames_unique(input@),
    ensures
        r@.len() == input@.len(),
        keys_sorted(r@),
        filenames_unique(r@),
        forall|k: FileKey| key_in(r@, k) <==> key_in(input@, k),
{
    let ghost orig = input@;
    let mut input = input;
    let mut out: Vec<FileKey> = Vec::new();
    while input.len() > 0
        invariant
            out@.len() + input@.len() == orig.len(),
            keys_sorted(out@),
            filenames_unique(out@),
            filenames_unique(input@),
            forall|a: int, b: int|
                0 <= a < out@.len() && 0 <= b < input@.len() ==> (#[trigger] out@[a]).filename@
                    != (#[trigger] input@[b]).filename@,
            forall|k: FileKey| (key_in(out@, k) || key_in(input@, k)) <==> key_in(orig, k),
        decreases input@.len(),
    {
        let ghost rest_before = input@;
        let x = input.remove(0);
        proof {
            assert(input@ =~= rest_before.drop_first());
            assert(x == rest_before[0]);
        }
        let mut pos: usize = 0;
        let ol = out.len();
        while pos < ol && key_le_x(&out[pos], &x)
            invariant
                ol == out@.len(),
                pos <= ol,
                forall|i: int| 0 <= i < pos ==> key_le(#[trigger] out@[i], x),
            decreases ol - pos,
        {
            pos = pos + 1;
        }
        proof {
            if pos < out@.len() {
                lemma_key_le_total(out@[pos as int], x);
                assert(key_le(x, out@[pos as int]));
            }
        }
        let ghost before = out@;
        out.insert(pos, x);
        proof {
            let after = out@;
            assert(after =~= before.take(pos as int) + seq![x] + before.skip(pos as int));
            assert(forall|i: int| 0 <= i < pos ==> after[i] == before[i]);
            assert(forall|i: int| pos < i < after.len() ==> after[i] == before[i - 1]);
            assert forall|i: int| 0 <= i < after.len() - 1 implies key_le(
                #[trigger] after[i],
                after[i + 1],
            ) by {
                if i < pos - 1 {
                    assert(after[i] == before[i] && after[i + 1] == before[i + 1]);
                } else if i == pos - 1 {
                    assert(after[i] == before[i] && after[i + 1] == x);
                } else if i == pos {
                    assert(after[i] == x && after[i + 1] == before[i]);
                } else {
                    assert(after[i] == before[i - 1] && after[i + 1] == before[i]);
                }
            }
            // the inserted key's filename is new to out, so uniqueness holds
            assert forall|a: int, b: int|
                0 <= a < b < after.len() implies (#[trigger] after[a]).filename@ != (
            #[trigger] after[b]).filename@ by {
                let a0 = if a < pos {
                    a
                } else {
                    a - 1
                };
                let b0 = if b < pos {
                    b
                } else {
                    b - 1
                };
                if a == pos {
                    assert(after[b] == before[b - 1]);
                    assert(rest_before[0].filename@ != before[b - 1].filename@);
                } else if b == pos {
                    assert(after[a] == before[a]);
                    assert(rest_before[0].filename@ != before[a].filename@);
                } else {
                    assert(after[a] == before[a0] && after[b] == before[b0]);
                }
            }
            // cross-uniqueness against what remains to be placed
            assert forall|a: int, b: int|
                0 <= a < after.len() && 0 <= b < input@.len() implies (
            #[trigger] after[a]).filename@ != (#[trigger] input@[b]).filename@ by {
                assert(input@[b] == rest_before[b + 1]);
                if a == pos {
                    assert(rest_before[0].filename@ != rest_before[b + 1].filename@);
                } else {
                    let a0 = if a < pos {
                        a
                    } else {
                        a - 1
                    };
                    assert(after[a] == before[a0]);
                }
            }
            assert forall|k: FileKey| (key_in(out@, k) || key_in(input@, k)) <==> key_in(
                orig,
                k,
            ) by {
                lemma_key_in_insert(before, after, pos as int, x, k);
                lemma_key_in_head(rest_before, k);
            }
        }
    }
    proof {
        assert(input@.len() == 0);
        assert forall|k: FileKey| key_in(out@, k) <==> key_in(orig, k) by {
            if key_in(input@, k) {
                let i = choose|i: int| 0 <= i < input@.len() && key_matches(#[trigger] input@[i], k);
            }
        }
    }
    out
}

/// A collection of file keys with unique filenames: the project at one
/// revision.
#[derive(Clone, Debug)]
pub struct FileSet {
    file_keys: Vec<FileKey>,
}

impl FileSet {
    /// The keys, in the order given at construction.
    pub closed spec fn view_keys(self) -> Seq<FileKey> {
        self.file_keys@
    }

    /// No two keys share a filename, and the keys are in ascending
    /// (filename, content id) order.
    pub open spec fn wf(self) -> bool {
        filenames_unique(self.view_keys()) && keys_sorted(self.view_keys())
    }

    /// Build a set from keys already known to have unique filenames,
    /// sorting them ascending by (filename, content id).
    pub fn new(file_keys: Vec<FileKey>) -> (r: FileSet)
        requires
            filenames_unique(file_keys@),
        ensures
            r.wf(),
            r.view_keys().len() == file_keys@.len(),
            keys_sorted(r.view_keys()),
            forall|k: FileKey| key_in(r.view_keys(), k) <==> key_in(file_keys@, k),
    {
        let sorted = sort_keys(file_keys);
        FileSet { file_keys: sorted }
    }

    /// Build a set, rejecting inputs with a repeated filename; accepted
    /// keys come out sorted ascending by (filename, content id).
    pub fn try_new(file_keys: Vec<FileKey>) -> (r: Option<FileSet>)
        ensures
            r is Some <==> filenames_unique(file_keys@),
            r matches Some(fs) ==> fs.wf() && fs.view_keys().len() == file_keys@.len()
                && keys_sorted(fs.view_keys()) && (forall|k: FileKey|
                key_in(fs.view_keys(), k) <==> key_in(file_keys@, k)),
    {
        let n = file_keys.len();
        let mut i: usize = 0;
        while i < n
            invariant
                n == file_keys@.len(),
                i <= n,
                forall|a: int, b: int|
                    0 <= a < b < file_keys@.len() && a < i ==> (
                    #[trigger] file_keys@[a]).filename@ != (#[trigger] file_keys@[b]).filename@,
            decreases n - i,
        {
            let mut j: usize = i + 1;
            while j < n
                invariant
                    n == file_keys@.len(),
                    i < j <= n || (i + 1 == j && j > n),
                    i < n,
                    forall|b: int|
                        i < b < j ==> (#[trigger] file_keys@[b]).filename@
                            != file_keys@[i as int].filename@,
                decreases n - j,
            {
                if file_keys[i].filename == file_keys[j].filename {
                    return None;
                }
                j = j + 1;
            }
            i = i + 1;
        }
        Some(FileSet::new(file_keys))
    }

    /// The keys of this set.
    pub fn iter(&self) -> (r: &Vec<FileKey>)
        ensures
            r@ == self.view_keys(),
    {
        &self.file_keys
    }

    /// The number of files at this revision.
    pub fn len(&self) -> (n: usize)
        ensures
            n == self.view_keys().len(),
    {
        self.file_keys.len()
    }

    /// The key for a filename, if the set holds one.
    pub fn get(&self, filename: &String) -> (r: Option<&FileKey>)
        ensures
            r matches Some(k) ==> k.filename@ == filename@ && key_in(self.view_keys(), *k),
            r is None ==> forall|i: int|
                0 <= i < self.view_keys().len() ==> (#[trigger] self.view_keys()[i]).filename@
                    != filename@,
    {
        let n = self.file_keys.len();
        let mut i: usize = 0;
        while i < n
            invariant
                n == self.file_keys@.len(),
                i <= n,
                forall|j: int|
                    0 <= j < i ==> (#[trigger] self.file_keys@[j]).filename@ != filename@,
            decreases n - i,
        {
            if self.file_keys[i].filename == *filename {
                proof {
                    assert(key_matches(self.file_keys@[i as int], self.file_keys@[i as int]));
                }
                return Some(&self.file_keys[i]);
            }
            i = i + 1;
        }
        None
    }

    /// The content id recorded for a filename.
    pub fn get_content_id(&self, filename: &String) -> (r: Option<ContentId>)
        ensures
            r matches Some(c) ==> exists|i: int|
                0 <= i < self.view_keys().len() && (#[trigger] self.view_keys()[i]).filename@
                    == filename@ && self.view_keys()[i].content_id == c,
            r is None ==> forall|i: int|
                0 <= i < self.view_keys().len() ==> (#[trigger] self.view_keys()[i]).filename@
                    != filename@,
    {
        match self.get(filename) {
            Some(k) => {
                proof {
                    let i = choose|i: int|
                        0 <= i < self.view_keys().len() && key_matches(
                            #[trigger] self.view_keys()[i],
                            *k,
                        );
                }
                Some(k.content_id)
            },
            None => None,
        }
    }

    /// Every filename that carries the given content id.
    pub fn get_filenames(&self, content_id: ContentId) -> (r: Vec<String>)
        ensures
            r@.map_values(|s: String| s@) == names_with_id(self.view_keys(), content_id),
    {
        let n = self.file_keys.len();
        let mut r: Vec<String> = Vec::new();
        let mut i: usize = 0;
        while i < n
            invariant
                n == self.file_keys@.len(),
                i <= n,
                r@.map_values(|s: String| s@) =~= names_with_id(
                    self.file_keys@.take(i as int),
                    content_id,
                ),
            decreases n - i,
        {
            let k = &self.file_keys[i];
            proof {
                assert(self.file_keys@.take(i + 1) =~= self.file_keys@.take(i as int).push(
                    self.file_keys@[i as int],
                ));
                lemma_names_snoc(self.file_keys@.take(i as int), self.file_keys@[i as int], content_id);
            }
            if k.content_id == content_id {
                let name = k.filename.clone();
                r.push(name);
                proof {
                    assert(r@.map_values(|s: String| s@) =~= r@.take(r@.len() - 1).map_values(
                        |s: String| s@,
                    ).push(self.file_keys@[i as int].filename@));
                }
            }
            i = i + 1;
        }
        proof {
            assert(self.file_keys@.take(n as int) =~= self.file_keys@);
        }
        r
    }
}

/// The filenames of the keys holding the given content id, in order.
pub open spec fn names_with_id(s: Seq<FileKey>, cid: ContentId) -> Seq<Seq<char>>
    decreases s.len(),
{
    if s.len() == 0 {
        Seq::empty()
    } else {
        let rest = names_with_id(s.drop_last(), cid);
        if s.last().content_id == cid {
            rest.push(s.last().filename@)
        } else {
            rest
        }
    }
}

proof fn lemma_names_snoc(s: Seq<FileKey>, k: FileKey, cid: ContentId)
    ensures
        names_with_id(s.push(k), cid) == if k.content_id == cid {
            names_with_id(s, cid).push(k.filename@)
        } else {
            names_with_id(s, cid)
        },
{
    assert(s.push(k).drop_last() =~= s);
}

/// Appending a key extends membership by exactly that key.
pub proof fn lemma_key_in_push(s: Seq<FileKey>, x: FileKey, k: FileKey)
    ensures
        key_in(s.push(x), k) <==> (key_in(s, k) || key_matches(x, k)),
{
    if key_in(s.push(x), k) {
        let i = choose|i: int| 0 <= i < s.push(x).len() && key_matches(#[trigger] s.push(x)[i], k);
        if i < s.len() {
            assert(key_matches(s[i], k));
        } else {
            assert(key_matches(x, k));
        }
    }
    if key_in(s, k) {
        let i = choose|i: int| 0 <= i < s.len() && key_matches(#[trigger] s[i], k);
        assert(key_matches(s.push(x)[i], k));
    }
    if key_matches(x, k) {
        assert(key_matches(s.push(x)[s.len() as int], k));
    }
}

/// One `FileSet` per revision of the project.
#[derive(Clone, Debug)]
pub struct MultiFileSet {
    file_sets: Vec<(PseudoCommitId, FileSet)>,
    files: Vec<FileKey>,
}

impl MultiFileSet {
    /// The per-revision sets.
    pub closed spec fn view_sets(self) -> Seq<(PseudoCommitId, FileSet)> {
        self.file_sets@
    }

    /// The union of all keys, without duplicates.
    pub closed spec fn view_files(self) -> Seq<FileKey> {
        self.files@
    }

    /// A key of some revision's set.
    pub open spec fn holds_key(self, k: FileKey) -> bool {
        exists|i: int|
            0 <= i < self.view_sets().len() && key_in(
                (#[trigger] self.view_sets()[i]).1.view_keys(),
                k,
            )
    }

    /// Build from per-revision file sets, collecting each distinct key
    /// once.
    pub fn new(file_sets: Vec<(PseudoCommitId, FileSet)>) -> (r: MultiFileSet)
        ensures
            r.view_sets() == file_sets@,
            forall|k: FileKey| key_in(r.view_files(), k) <==> r.holds_key(k),
            forall|a: int, b: int|
                0 <= a < b < r.view_files().len() ==> !key_matches(
                    #[trigger] r.view_files()[a],
                    #[trigger] r.view_files()[b],
                ),
    {
        let mut files: Vec<FileKey> = Vec::new();
        let n = file_sets.len();
        let mut i: usize = 0;
        while i < n
            invariant
                n == file_sets@.len(),
                i <= n,
                forall|k: FileKey|
                    key_in(files@, k) <==> exists|t: int|
                        0 <= t < i && key_in((#[trigger] file_sets@[t]).1.view_keys(), k),
                forall|a: int, b: int|
                    0 <= a < b < files@.len() ==> !key_matches(
                        #[trigger] files@[a],
                        #[trigger] files@[b],
                    ),
            decreases n - i,
        {
            let m = file_sets[i].1.iter().len();
            let ghost kview = file_sets@[i as int].1.view_keys();
            let mut u: usize = 0;
            proof {
                assert(kview.take(0) =~= Seq::<FileKey>::empty());
            }
            while u < m
                invariant
                    n == file_sets@.len(),
                    i < n,
                    kview == file_sets@[i as int].1.view_keys(),
                    m == kview.len(),
                    u <= m,
                    forall|k: FileKey|
                        key_in(files@, k) <==> ((exists|t: int|
                            0 <= t < i && key_in((#[trigger] file_sets@[t]).1.view_keys(), k))
                            || key_in(kview.take(u as int), k)),
                    forall|a: int, b: int|
                        0 <= a < b < files@.len() ==> !key_matches(
                            #[trigger] files@[a],
                            #[trigger] files@[b],
                        ),
                decreases m - u,
            {
                let ghost ku = kview[u as int];
                let mut seen = false;
                let fl = files.len();
                let mut w: usize = 0;
                while w < fl
                    invariant
                        fl == files@.len(),
                        w <= fl,
                        kview == file_sets@[i as int].1.view_keys(),
                        i < n == file_sets@.len(),
                        u < m == kview.len(),
                        ku == kview[u as int],
                        seen ==> key_in(files@, ku),
                        !seen ==> forall|t: int|
                            0 <= t < w ==> !key_matches(#[trigger] files@[t], ku),
                    decreases fl - w,
                {
                    if files[w].same_key(&file_sets[i].1.iter()[u]) {
                        proof {
                            assert(key_matches(files@[w as int], ku));
                        }
                        seen = true;
                        w = fl;
                    } else {
                        w = w + 1;
                    }
                }
                let ghost files_before = files@;
                if !seen {
                    let fresh = file_sets[i].1.iter()[u].duplicate();
                    files.push(fresh);
                }
                proof {
                    assert(kview.take(u + 1) =~= kview.take(u as int).push(ku));
                    if !seen {
                        let pushed = files@.last();
                        assert(files@ =~= files_before.push(pushed));
                        assert(key_matches(pushed, ku));
                        // no older element matches the new one
                        assert forall|a: int, b: int|
                            0 <= a < b < files@.len() implies !key_matches(
                            #[trigger] files@[a],
                            #[trigger] files@[b],
                        ) by {
                            if b == files@.len() - 1 {
                                assert(!key_matches(files_before[a], ku));
                                assert(files@[a] == files_before[a]);
                            }
                        }
                    }
                    assert forall|k2: FileKey| key_in(files@, k2) implies ((exists|t: int|
                        0 <= t < i && key_in((#[trigger] file_sets@[t]).1.view_keys(), k2))
                        || key_in(kview.take(u + 1), k2)) by {
                        lemma_key_in_push(kview.take(u as int), ku, k2);
                        if !seen {
                            lemma_key_in_push(files_before, files@.last(), k2);
                            if !key_in(files_before, k2) {
                                assert(key_matches(files@.last(), k2));
                                assert(key_matches(ku, k2));
                            }
                        }
                    }
                    assert forall|k2: FileKey| ((exists|t: int|
                        0 <= t < i && key_in((#[trigger] file_sets@[t]).1.view_keys(), k2))
                        || key_in(kview.take(u + 1), k2)) implies key_in(files@, k2) by {
                        lemma_key_in_push(kview.take(u as int), ku, k2);
                        if !seen {
                            lemma_key_in_push(files_before, files@.last(), k2);
                        }
                        if key_in(kview.take(u + 1), k2) && !key_in(kview.take(u as int), k2) {
                            assert(key_matches(ku, k2));
                            if seen {
                                let e = choose|e: int|
                                    0 <= e < files@.len() && key_matches(#[trigger] files@[e], ku);
                                assert(key_matches(files@[e], k2));
                            } else {
                                assert(key_matches(files@.last(), k2));
                                assert(key_in(files@, k2));
                            }
                        }
                    }
                }
                u = u + 1;
            }
            proof {
                assert(kview.take(m as int) =~= kview);
            }
            i = i + 1;
        }
        MultiFileSet { file_sets, files }
    }

    /// All distinct keys across the revisions.
    pub fn files(&self) -> (r: &Vec<FileKey>)
        ensures
            r@ == self.view_files(),
    {
        &self.files
    }

    /// Consume the collection, keeping only the distinct keys.
    pub fn into_files(self) -> (r: Vec<FileKey>)
        ensures
            r@ == self.view_files(),
    {
        self.files
    }

    /// The (revision, file set) pairs.
    pub fn iter(&self) -> (r: &Vec<(PseudoCommitId, FileSet)>)
        ensures
            r@ == self.view_sets(),
    {
        &self.file_sets
    }
}

} // verus!
