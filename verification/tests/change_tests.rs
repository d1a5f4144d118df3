use neodepends::change::assemble_diffs;
use neodepends::change::calc_changes;
use neodepends::change::ChangeKind;
use neodepends::change::DeltaRecord;
use neodepends::change::DeltaStatus;
use neodepends::change::Diff;
use neodepends::change::Hunk;
use neodepends::change::RawHunk;
use neodepends::errors::Error;
use neodepends::filespec::PathMatcher;
use neodepends::files::FileKey;
use neodepends::hashing::Sha1Hash;
use neodepends::ids::CommitId;
use neodepends::ids::ContentId;
use neodepends::span::PartialSpan;
use neodepends::tagging::to_singleton_entity_set;

fn commit(n: u32) -> CommitId {
    CommitId(Sha1Hash { w0: n, w1: 0, w2: 0, w3: 0, w4: 0 })
}

#[test]
fn hunk_conversion_is_half_open_zero_based() {
    let h = Hunk::from_git(3, 3, 3, 4);
    assert_eq!(h.old, PartialSpan::Row(2, 5));
    assert_eq!(h.new, PartialSpan::Row(2, 6));
}

#[test]
fn modified_diff_attributes_lines() {
    // ten identical lines; lines 3..5 replaced by four new lines
    let old_text = "l\nl\nl\nl\nl\nl\nl\nl\nl\nl\n";
    let new_text = "l\nl\nx\nx\nx\nx\nl\nl\nl\nl\nl\n";
    let old_set = to_singleton_entity_set("f.txt", old_text);
    let new_set = to_singleton_entity_set("f.txt", new_text);
    let sid = old_set.clone().into_entities_vec()[0].simple_id;
    // the stable id is the same on both sides: same name, kind, parent
    assert_eq!(sid, new_set.clone().into_entities_vec()[0].simple_id);

    let diff = Diff::new(
        commit(1),
        Some(FileKey::new("f.txt".to_string(), ContentId::from_content(old_text))),
        Some(FileKey::new("f.txt".to_string(), ContentId::from_content(new_text))),
        vec![Hunk::from_git(3, 3, 3, 4)],
    );
    let changes = calc_changes(Some(&old_set), Some(&new_set), &diff);
    assert_eq!(changes.len(), 1);
    let c = &changes[0];
    assert_eq!(c.simple_id, sid);
    assert!(matches!(c.kind, ChangeKind::Modified));
    assert_eq!(c.dels, 3);
    assert_eq!(c.adds, 4);
    assert_eq!(c.commit_id, commit(1));
}

#[test]
fn added_file_has_only_adds() {
    let new_text = "a\nb\n";
    let new_set = to_singleton_entity_set("n.txt", new_text);
    let diff = Diff::new(
        commit(2),
        None,
        Some(FileKey::new("n.txt".to_string(), ContentId::from_content(new_text))),
        vec![Hunk::from_git(1, 2, 1, 2)],
    );
    let changes = calc_changes(None, Some(&new_set), &diff);
    assert_eq!(changes.len(), 1);
    assert!(matches!(changes[0].kind, ChangeKind::Added));
    assert_eq!(changes[0].dels, 0);
    assert_eq!(changes[0].adds, 2);
}

#[test]
fn deleted_file_has_only_dels() {
    let old_text = "a\nb\nc\n";
    let old_set = to_singleton_entity_set("d.txt", old_text);
    let diff = Diff::new(
        commit(3),
        Some(FileKey::new("d.txt".to_string(), ContentId::from_content(old_text))),
        None,
        vec![Hunk::from_git(1, 3, 1, 0)],
    );
    let changes = calc_changes(Some(&old_set), None, &diff);
    assert_eq!(changes.len(), 1);
    assert!(matches!(changes[0].kind, ChangeKind::Deleted));
    assert_eq!(changes[0].dels, 3);
    assert_eq!(changes[0].adds, 0);
}

#[test]
fn merge_commit_yields_no_diffs() {
    let ps = PathMatcher::empty();
    let deltas = vec![DeltaRecord {
        status: DeltaStatus::Modified,
        old_path: Some("a.c".to_string()),
        new_path: Some("a.c".to_string()),
        old_id: Some(ContentId::from_content("x")),
        new_id: Some(ContentId::from_content("y")),
        hunks: vec![],
    }];
    let diffs = assemble_diffs(commit(4), 2, deltas, &ps).unwrap();
    assert!(diffs.is_empty());
}

#[test]
fn root_commit_diffs_have_no_old_side() {
    let ps = PathMatcher::empty();
    let deltas = vec![
        DeltaRecord {
            status: DeltaStatus::Added,
            old_path: None,
            new_path: Some("a.c".to_string()),
            old_id: None,
            new_id: Some(ContentId::from_content("int main;")),
            hunks: vec![RawHunk { old_start: 0, old_lines: 0, new_start: 1, new_lines: 1 }],
        },
        DeltaRecord {
            status: DeltaStatus::Added,
            old_path: None,
            new_path: Some("b.c".to_string()),
            old_id: None,
            new_id: Some(ContentId::from_content("int x;")),
            hunks: vec![RawHunk { old_start: 0, old_lines: 0, new_start: 1, new_lines: 1 }],
        },
    ];
    let diffs = assemble_diffs(commit(5), 0, deltas, &ps).unwrap();
    assert_eq!(diffs.len(), 2);
    for d in &diffs {
        assert!(d.old.is_none());
        assert!(d.new.is_some());
        // the absent old side converts to an empty range at row 0
        assert_eq!(d.hunks[0].old, PartialSpan::Row(0, 0));
        assert_eq!(d.hunks[0].new, PartialSpan::Row(0, 1));
    }
}

#[test]
fn zero_start_marks_an_empty_side() {
    // an insertion at the top of a file: the old side is "-0,0"
    let h = Hunk::from_git(0, 0, 1, 2);
    assert_eq!(h.old, PartialSpan::Row(0, 0));
    assert_eq!(h.new, PartialSpan::Row(0, 2));
    // a deletion of a whole file: the new side is "+0,0"
    let h2 = Hunk::from_git(1, 3, 0, 0);
    assert_eq!(h2.old, PartialSpan::Row(0, 3));
    assert_eq!(h2.new, PartialSpan::Row(0, 0));
}

#[test]
fn unsupported_status_is_fatal() {
    let ps = PathMatcher::empty();
    let deltas = vec![DeltaRecord {
        status: DeltaStatus::Other,
        old_path: Some("a.c".to_string()),
        new_path: Some("a.c".to_string()),
        old_id: None,
        new_id: None,
        hunks: vec![],
    }];
    assert!(matches!(assemble_diffs(commit(6), 1, deltas, &ps), Err(Error::UnsupportedDiffStatus)));
}

#[test]
fn mismatched_sides_are_fatal() {
    let ps = PathMatcher::empty();
    let deltas = vec![DeltaRecord {
        status: DeltaStatus::Added,
        old_path: None,
        new_path: Some("a.c".to_string()),
        old_id: Some(ContentId::from_content("x")),
        new_id: Some(ContentId::from_content("y")),
        hunks: vec![],
    }];
    assert!(assemble_diffs(commit(7), 1, deltas, &ps).is_err());
}

#[test]
fn pathspec_drops_unmatched_files() {
    let ps = PathMatcher::try_from_vec(vec!["*.java".to_string()]).unwrap();
    let deltas = vec![
        DeltaRecord {
            status: DeltaStatus::Added,
            old_path: None,
            new_path: Some("A.java".to_string()),
            old_id: None,
            new_id: Some(ContentId::from_content("class A {}")),
            hunks: vec![],
        },
        DeltaRecord {
            status: DeltaStatus::Added,
            old_path: None,
            new_path: Some("b.c".to_string()),
            old_id: None,
            new_id: Some(ContentId::from_content("int x;")),
            hunks: vec![],
        },
    ];
    let diffs = assemble_diffs(commit(8), 0, deltas, &ps).unwrap();
    assert_eq!(diffs.len(), 1);
    assert_eq!(diffs[0].new.as_ref().unwrap().filename, "A.java");
}

#[test]
fn diff_accessors() {
    let old = FileKey::new("o".to_string(), ContentId::from_content("1"));
    let new = FileKey::new("n".to_string(), ContentId::from_content("2"));
    let d = Diff::new(commit(9), Some(old), Some(new), vec![Hunk::from_git(1, 1, 2, 2)]);
    assert!(matches!(d.change_kind(), ChangeKind::Modified));
    assert_eq!(d.iter_file_keys().len(), 2);
    assert_eq!(d.iter_old_spans(), vec![PartialSpan::Row(0, 1)]);
    assert_eq!(d.iter_new_spans(), vec![PartialSpan::Row(1, 3)]);
}

#[test]
fn renames_are_fatal() {
    let ps = PathMatcher::empty();
    let deltas = vec![DeltaRecord {
        status: DeltaStatus::Modified,
        old_path: Some("old.c".to_string()),
        new_path: Some("new.c".to_string()),
        old_id: Some(ContentId::from_content("x")),
        new_id: Some(ContentId::from_content("y")),
        hunks: vec![],
    }];
    assert!(matches!(assemble_diffs(commit(10), 1, deltas, &ps), Err(Error::RenameInDiff)));
}

#[test]
fn row_span_end_accessors() {
    let sp = PartialSpan::Row(2, 5);
    assert_eq!(sp.start_row(), 2);
    assert_eq!(sp.end_row(), 5);
}
