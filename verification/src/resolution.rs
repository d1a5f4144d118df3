//! Dependency resolution: one resolver per (revision, language)
//! partition, created by the first factory that accepts the partition.
//!
//! Running a resolver means feeding it files and collecting file-level
//! dependencies; that work happens outside the verified core. What is
//! verified here is the partitioning of files by revision and language
//! and the priority rule that picks a factory.

use vstd::prelude::*;
use vstd::string::StringSliceAdditionalSpecFns;
use vstd::utf8::encode_utf8;

use crate::dep::Dep;
use crate::dep::DepKind;
use crate::dep::FileDep;
use crate::dep::FileEndpoint;
use crate::files::FileKey;
use crate::files::MultiFileSet;
use crate::ids::PseudoCommitId;
use crate::languages::lang_of;
use crate::span::PartialPosition;
use crate::languages::Lang;

verus! {

/// The files of one language at one revision: the unit one resolver runs
/// over.
pub struct Partition {
    pub commit_id: PseudoCommitId,
    pub lang: Lang,
    pub files: Vec<FileKey>,
}

impl Partition {
    /// Every file of the partition belongs to its language.
    pub open spec fn wf(self) -> bool {
        forall|i: int|
            0 <= i < self.files@.len() ==> lang_of(
                encode_utf8((#[trigger] self.files@[i]).filename@),
            ) == Some(self.lang)
    }
}

/// Every key before position (s, k) whose language is registered has
/// landed in the partition of its revision and language.
pub open spec fn parts_complete(
    vsets: Seq<(PseudoCommitId, crate::files::FileSet)>,
    parts: Seq<Partition>,
    s: int,
    k: int,
) -> bool {
    forall|si: int, ki: int|
        #![trigger vsets[si].1.view_keys()[ki]]
        0 <= si < vsets.len() && 0 <= ki < vsets[si].1.view_keys().len() && (si < s || (si == s
            && ki < k)) && lang_of(encode_utf8(vsets[si].1.view_keys()[ki].filename@)) is Some
            ==> exists|p: int|
            0 <= p < parts.len() && (#[trigger] parts[p]).commit_id == vsets[si].0 && Some(
                parts[p].lang,
            ) == lang_of(encode_utf8(vsets[si].1.view_keys()[ki].filename@))
                && crate::files::key_in(parts[p].files@, vsets[si].1.view_keys()[ki])
}

/// Every file a partition holds is a key of that partition's revision.
pub open spec fn parts_provenance(
    vsets: Seq<(PseudoCommitId, crate::files::FileSet)>,
    parts: Seq<Partition>,
) -> bool {
    forall|p: int, k2: FileKey|
        #![trigger crate::files::key_in(parts[p].files@, k2)]
        0 <= p < parts.len() && crate::files::key_in(parts[p].files@, k2) ==> exists|si: int|
            0 <= si < vsets.len() && (#[trigger] vsets[si]).0 == parts[p].commit_id
                && crate::files::key_in(vsets[si].1.view_keys(), k2)
}

/// Partitions of one language each, no two sharing (revision, language).
pub open spec fn parts_wf(parts: Seq<Partition>) -> bool {
    &&& forall|p: int| 0 <= p < parts.len() ==> (#[trigger] parts[p]).wf()
    &&& forall|p: int, q: int|
        0 <= p < q < parts.len() ==> !((#[trigger] parts[p]).commit_id == (
        #[trigger] parts[q]).commit_id && parts[p].lang == parts[q].lang)
}

/// Placing key (s, k) advances completeness by one position and keeps
/// provenance.
#[verifier::spinoff_prover]
#[verifier::rlimit(100)]
proof fn lemma_partition_step(
    vsets: Seq<(PseudoCommitId, crate::files::FileSet)>,
    before: Seq<Partition>,
    after: Seq<Partition>,
    s: int,
    k: int,
    commit_id: PseudoCommitId,
    lang: Lang,
    key: FileKey,
)
    requires
        0 <= s < vsets.len(),
        0 <= k < vsets[s].1.view_keys().len(),
        commit_id == vsets[s].0,
        crate::files::key_matches(key, vsets[s].1.view_keys()[k]),
        lang_of(encode_utf8(key.filename@)) == Some(lang),
        parts_complete(vsets, before, s, k),
        parts_provenance(vsets, before),
        after.len() >= before.len(),
        forall|q: int|
            0 <= q < before.len() ==> (#[trigger] after[q]).commit_id == before[q].commit_id
                && after[q].lang == before[q].lang,
        forall|q: int, k2: FileKey|
            #![trigger crate::files::key_in(before[q].files@, k2)]
            0 <= q < before.len() && crate::files::key_in(before[q].files@, k2)
                ==> crate::files::key_in(after[q].files@, k2),
        exists|p: int|
            0 <= p < after.len() && (#[trigger] after[p]).commit_id == commit_id && after[p].lang
                == lang && crate::files::key_in(after[p].files@, key),
        forall|q: int, k2: FileKey|
            #![trigger crate::files::key_in(after[q].files@, k2)]
            0 <= q < after.len() && crate::files::key_in(after[q].files@, k2) ==> ((q
                < before.len() && crate::files::key_in(before[q].files@, k2)) || (
            crate::files::key_matches(key, k2) && after[q].commit_id == commit_id && after[q].lang
                == lang)),
    ensures
        parts_complete(vsets, after, s, k + 1),
        parts_provenance(vsets, after),
{
    assert(key.filename@ == vsets[s].1.view_keys()[k].filename@);
    assert forall|si: int, ki: int|
        #![trigger vsets[si].1.view_keys()[ki]]
        0 <= si < vsets.len() && 0 <= ki < vsets[si].1.view_keys().len() && (si < s || (si == s
            && ki < k + 1)) && lang_of(encode_utf8(vsets[si].1.view_keys()[ki].filename@))
        is Some implies exists|p: int|
        0 <= p < after.len() && (#[trigger] after[p]).commit_id == vsets[si].0 && Some(
            after[p].lang,
        ) == lang_of(encode_utf8(vsets[si].1.view_keys()[ki].filename@)) && crate::files::key_in(
            after[p].files@,
            vsets[si].1.view_keys()[ki],
        ) by {
        if si == s && ki == k {
            let p0 = choose|p: int|
                0 <= p < after.len() && (#[trigger] after[p]).commit_id == commit_id
                    && after[p].lang == lang && crate::files::key_in(after[p].files@, key);
            let w = choose|w: int|
                0 <= w < after[p0].files@.len() && crate::files::key_matches(
                    #[trigger] after[p0].files@[w],
                    key,
                );
            assert(crate::files::key_matches(after[p0].files@[w], vsets[si].1.view_keys()[ki]));
            assert(crate::files::key_in(after[p0].files@, vsets[si].1.view_keys()[ki]));
        } else {
            let p0 = choose|p: int|
                0 <= p < before.len() && (#[trigger] before[p]).commit_id == vsets[si].0 && Some(
                    before[p].lang,
                ) == lang_of(encode_utf8(vsets[si].1.view_keys()[ki].filename@))
                    && crate::files::key_in(before[p].files@, vsets[si].1.view_keys()[ki]);
            assert(crate::files::key_in(after[p0].files@, vsets[si].1.view_keys()[ki]));
        }
    }
    assert forall|p: int, k2: FileKey|
        #![trigger crate::files::key_in(after[p].files@, k2)]
        0 <= p < after.len() && crate::files::key_in(after[p].files@, k2) implies exists|si: int|
        0 <= si < vsets.len() && (#[trigger] vsets[si]).0 == after[p].commit_id
            && crate::files::key_in(vsets[si].1.view_keys(), k2) by {
        if p < before.len() && crate::files::key_in(before[p].files@, k2) {
            let si = choose|si: int|
                0 <= si < vsets.len() && (#[trigger] vsets[si]).0 == before[p].commit_id
                    && crate::files::key_in(vsets[si].1.view_keys(), k2);
            assert(vsets[si].0 == after[p].commit_id);
        } else {
            assert(crate::files::key_matches(key, k2) && after[p].commit_id == commit_id);
            assert(crate::files::key_matches(vsets[s].1.view_keys()[k], k2));
            assert(crate::files::key_in(vsets[s].1.view_keys(), k2));
            assert(vsets[s].0 == after[p].commit_id);
        }
    }
}

/// Put one key, whose language is known, into the partition of
/// (revision, language), creating that partition when absent. Existing
/// partitions keep their pair and their files; every file held afterwards
/// is a file held before, or matches the key and sits under its pair.
#[verifier::spinoff_prover]
fn add_to_partitions(
    parts: &mut Vec<Partition>,
    commit_id: PseudoCommitId,
    lang: Lang,
    key: &FileKey,
)
    requires
        lang_of(encode_utf8(key.filename@)) == Some(lang),
        parts_wf(old(parts)@),
    ensures
        parts_wf(final(parts)@),
        final(parts)@.len() >= old(parts)@.len(),
        forall|q: int|
            0 <= q < old(parts)@.len() ==> (#[trigger] final(parts)@[q]).commit_id
                == old(parts)@[q].commit_id && final(parts)@[q].lang == old(parts)@[q].lang,
        forall|q: int, k2: FileKey|
            #![trigger crate::files::key_in(old(parts)@[q].files@, k2)]
            0 <= q < old(parts)@.len() && crate::files::key_in(old(parts)@[q].files@, k2)
                ==> crate::files::key_in(final(parts)@[q].files@, k2),
        exists|p: int|
            0 <= p < final(parts)@.len() && (#[trigger] final(parts)@[p]).commit_id == commit_id
                && final(parts)@[p].lang == lang && crate::files::key_in(
                final(parts)@[p].files@,
                *key,
            ),
        forall|q: int, k2: FileKey|
            #![trigger crate::files::key_in(final(parts)@[q].files@, k2)]
            0 <= q < final(parts)@.len() && crate::files::key_in(final(parts)@[q].files@, k2)
                ==> ((q < old(parts)@.len() && crate::files::key_in(old(parts)@[q].files@, k2))
                || (crate::files::key_matches(*key, k2) && final(parts)@[q].commit_id == commit_id
                && final(parts)@[q].lang == lang)),
{
    let np = parts.len();
    let mut at: usize = np;
    let mut p: usize = 0;
    while p < np
        invariant
            np == parts@.len(),
            parts == old(parts),
            p <= np,
            at == np || (at < np && parts@[at as int].commit_id == commit_id
                && parts@[at as int].lang == lang),
            at == np ==> forall|q: int|
                0 <= q < p ==> !((#[trigger] parts@[q]).commit_id == commit_id && parts@[q].lang
                    == lang),
        decreases np - p,
    {
        if at == np && parts[p].commit_id == commit_id && parts[p].lang == lang {
            at = p;
        }
        p = p + 1;
    }
    let fresh = key.duplicate();
    proof {
        assert(crate::files::key_matches(fresh, *key));
    }
    if at < parts.len() {
        let ghost before = parts@;
        let slot = &mut parts[at];
        slot.files.push(fresh);
        proof {
            assert(parts@[at as int].files@ =~= before[at as int].files@.push(fresh));
            assert(forall|q: int| 0 <= q < parts@.len() && q != at ==> parts@[q] == before[q]);
            assert forall|q: int| 0 <= q < parts@.len() implies (#[trigger] parts@[q]).wf() by {
                if q != at {
                    assert(parts@[q] == before[q]);
                } else {
                    assert(forall|i: int|
                        0 <= i < before[q].files@.len() ==> parts@[q].files@[i]
                            == before[q].files@[i]);
                    assert(parts@[q].files@[parts@[q].files@.len() - 1] == fresh);
                }
            }
            assert forall|q: int, k2: FileKey|
                #![trigger crate::files::key_in(before[q].files@, k2)]
                0 <= q < before.len() && crate::files::key_in(
                    before[q].files@,
                    k2,
                ) implies crate::files::key_in(parts@[q].files@, k2) by {
                let i = choose|i: int|
                    0 <= i < before[q].files@.len() && crate::files::key_matches(
                        #[trigger] before[q].files@[i],
                        k2,
                    );
                assert(crate::files::key_matches(parts@[q].files@[i], k2));
            }
            assert(crate::files::key_in(parts@[at as int].files@, *key)) by {
                assert(crate::files::key_matches(
                    parts@[at as int].files@[parts@[at as int].files@.len() - 1],
                    *key,
                ));
            }
            assert forall|q: int, k2: FileKey|
                #![trigger crate::files::key_in(parts@[q].files@, k2)]
                0 <= q < parts@.len() && crate::files::key_in(
                    parts@[q].files@,
                    k2,
                ) implies ((q < before.len() && crate::files::key_in(before[q].files@, k2)) || (
            crate::files::key_matches(*key, k2) && parts@[q].commit_id == commit_id
                && parts@[q].lang == lang)) by {
                let i = choose|i: int|
                    0 <= i < parts@[q].files@.len() && crate::files::key_matches(
                        #[trigger] parts@[q].files@[i],
                        k2,
                    );
                if q != at {
                    assert(crate::files::key_matches(before[q].files@[i], k2));
                } else {
                    if i < before[q].files@.len() {
                        assert(crate::files::key_matches(before[q].files@[i], k2));
                    } else {
                        assert(parts@[q].files@[i] == fresh);
                        assert(crate::files::key_matches(*key, k2));
                    }
                }
            }
        }
    } else {
        let ghost before = parts@;
        let mut fs: Vec<FileKey> = Vec::new();
        fs.push(fresh);
        let part = Partition { commit_id, lang, files: fs };
        proof {
            assert(part.wf());
        }
        parts.push(part);
        proof {
            assert(forall|q: int| 0 <= q < before.len() ==> parts@[q] == before[q]);
            assert(parts@[parts@.len() - 1] == part);
            assert(crate::files::key_in(parts@[parts@.len() - 1].files@, *key)) by {
                assert(crate::files::key_matches(parts@[parts@.len() - 1].files@[0], *key));
            }
            assert forall|q: int, k2: FileKey|
                #![trigger crate::files::key_in(before[q].files@, k2)]
                0 <= q < before.len() && crate::files::key_in(
                    before[q].files@,
                    k2,
                ) implies crate::files::key_in(parts@[q].files@, k2) by {
            }
            assert forall|q: int, k2: FileKey|
                #![trigger crate::files::key_in(parts@[q].files@, k2)]
                0 <= q < parts@.len() && crate::files::key_in(
                    parts@[q].files@,
                    k2,
                ) implies ((q < before.len() && crate::files::key_in(before[q].files@, k2)) || (
            crate::files::key_matches(*key, k2) && parts@[q].commit_id == commit_id
                && parts@[q].lang == lang)) by {
                if q < before.len() {
                    assert(parts@[q] == before[q]);
                } else {
                    let i = choose|i: int|
                        0 <= i < parts@[q].files@.len() && crate::files::key_matches(
                            #[trigger] parts@[q].files@[i],
                            k2,
                        );
                    assert(parts@[q].files@[i] == fresh);
                    assert(crate::files::key_matches(*key, k2));
                }
            }
        }
    }
}

/// A key with no registered language advances completeness by itself.
#[verifier::spinoff_prover]
proof fn lemma_partition_skip(
    vsets: Seq<(PseudoCommitId, crate::files::FileSet)>,
    parts: Seq<Partition>,
    s: int,
    k: int,
)
    requires
        0 <= s < vsets.len(),
        0 <= k < vsets[s].1.view_keys().len(),
        lang_of(encode_utf8(vsets[s].1.view_keys()[k].filename@)) is None,
        parts_complete(vsets, parts, s, k),
    ensures
        parts_complete(vsets, parts, s, k + 1),
{
    assert forall|si: int, ki: int|
        #![trigger vsets[si].1.view_keys()[ki]]
        0 <= si < vsets.len() && 0 <= ki < vsets[si].1.view_keys().len() && (si < s || (si == s
            && ki < k + 1)) && lang_of(encode_utf8(vsets[si].1.view_keys()[ki].filename@))
        is Some implies exists|p: int|
        0 <= p < parts.len() && (#[trigger] parts[p]).commit_id == vsets[si].0 && Some(
            parts[p].lang,
        ) == lang_of(encode_utf8(vsets[si].1.view_keys()[ki].filename@)) && crate::files::key_in(
            parts[p].files@,
            vsets[si].1.view_keys()[ki],
        ) by {
        assert(si < s || (si == s && ki < k));
    }
}

/// A finished row advances completeness to the next revision.
#[verifier::spinoff_prover]
proof fn lemma_partition_row_done(
    vsets: Seq<(PseudoCommitId, crate::files::FileSet)>,
    parts: Seq<Partition>,
    s: int,
)
    requires
        0 <= s < vsets.len(),
        parts_complete(vsets, parts, s, vsets[s].1.view_keys().len() as int),
    ensures
        parts_complete(vsets, parts, s + 1, 0),
{
    assert forall|si: int, ki: int|
        #![trigger vsets[si].1.view_keys()[ki]]
        0 <= si < vsets.len() && 0 <= ki < vsets[si].1.view_keys().len() && (si < s + 1 || (si == s
            + 1 && ki < 0)) && lang_of(encode_utf8(vsets[si].1.view_keys()[ki].filename@))
        is Some implies exists|p: int|
        0 <= p < parts.len() && (#[trigger] parts[p]).commit_id == vsets[si].0 && Some(
            parts[p].lang,
        ) == lang_of(encode_utf8(vsets[si].1.view_keys()[ki].filename@)) && crate::files::key_in(
            parts[p].files@,
            vsets[si].1.view_keys()[ki],
        ) by {
        assert(si < s || (si == s && ki < vsets[s].1.view_keys().len()));
    }
}

/// Group the files of every revision by language, dropping files whose
/// language is not registered. Each partition holds files of its own
/// language only; no two partitions share (revision, language); every key
/// with a registered language lands in the partition of its revision and
/// language; and partitions hold nothing that is not such a key.
pub fn partition_files(files: &MultiFileSet) -> (r: Vec<Partition>)
    ensures
        parts_wf(r@),
        parts_complete(files.view_sets(), r@, files.view_sets().len() as int, 0),
        parts_provenance(files.view_sets(), r@),
{
    let mut parts: Vec<Partition> = Vec::new();
    let sets = files.iter();
    let ns = sets.len();
    let mut s: usize = 0;
    while s < ns
        invariant
            sets@ == files.view_sets(),
            ns == files.view_sets().len(),
            s <= ns,
            parts_wf(parts@),
            parts_complete(files.view_sets(), parts@, s as int, 0),
            parts_provenance(files.view_sets(), parts@),
        decreases ns - s,
    {
        let commit_id = sets[s].0;
        let keys = sets[s].1.iter();
        let nk = keys.len();
        let mut k: usize = 0;
        while k < nk
            invariant
                sets@ == files.view_sets(),
                ns == files.view_sets().len(),
                s < ns,
                nk == files.view_sets()[s as int].1.view_keys().len(),
                keys@ == files.view_sets()[s as int].1.view_keys(),
                commit_id == files.view_sets()[s as int].0,
                k <= nk,
                parts_wf(parts@),
                parts_complete(files.view_sets(), parts@, s as int, k as int),
                parts_provenance(files.view_sets(), parts@),
            decreases nk - k,
        {
            let key = &keys[k];
            match Lang::of(key.filename.as_str()) {
                Some(lang) => {
                    let ghost before = parts@;
                    add_to_partitions(&mut parts, commit_id, lang, key);
                    proof {
                        lemma_partition_step(
                            files.view_sets(),
                            before,
                            parts@,
                            s as int,
                            k as int,
                            commit_id,
                            lang,
                            *key,
                        );
                    }
                },
                None => {
                    proof {
                        assert(files.view_sets()[s as int].1.view_keys()[k as int]
                            == keys@[k as int]);
                        lemma_partition_skip(files.view_sets(), parts@, s as int, k as int);
                    }
                },
            }
            k = k + 1;
        }
        proof {
            lemma_partition_row_done(files.view_sets(), parts@, s as int);
        }
        s = s + 1;
    }
    parts
}

/// One complete path from a reference to a definition, as the
/// name-resolution-graph engine reports it, turned into a file-level
/// dependency: source and target carry the reference's and definition's
/// positions, the kind is always a use, and the dependency sits at the
/// reference.
pub fn path_into_file_dep(
    src_file: FileKey,
    src_pos: PartialPosition,
    tgt_file: FileKey,
    tgt_pos: PartialPosition,
    commit_id: PseudoCommitId,
) -> (d: FileDep)
    ensures
        d.src.file_key == src_file,
        d.src.position == src_pos,
        d.tgt.file_key == tgt_file,
        d.tgt.position == tgt_pos,
        d.kind == DepKind::Use,
        d.position == src_pos,
        d.commit_id == commit_id,
{
    Dep {
        src: FileEndpoint { file_key: src_file, position: src_pos },
        tgt: FileEndpoint { file_key: tgt_file, position: tgt_pos },
        kind: DepKind::Use,
        position: src_pos,
        commit_id,
    }
}

/// The index of the first factory that accepted the partition, given each
/// factory's answer in priority order: earlier factories win.
pub fn first_accepting(accepts: &Vec<bool>) -> (r: Option<usize>)
    ensures
        r matches Some(i) ==> i < accepts@.len() && accepts@[i as int] && forall|j: int|
            0 <= j < i ==> !accepts@[j],
        r is None ==> forall|j: int| 0 <= j < accepts@.len() ==> !accepts@[j],
{
    let n = accepts.len();
    let mut i: usize = 0;
    while i < n
        invariant
            n == accepts@.len(),
            i <= n,
            forall|j: int| 0 <= j < i ==> !accepts@[j],
        decreases n - i,
    {
        if accepts[i] {
            return Some(i);
        }
        i = i + 1;
    }
    None
}

} // verus!
