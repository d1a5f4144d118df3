use neodepends::dep::drop_self_loops;
use neodepends::dep::Dep;
use neodepends::dep::DepKind;
use neodepends::dep::FilenameEndpoint;
use neodepends::depends::into_filename_dep;
use neodepends::depends::parse_dep_kind;
use neodepends::entity::Entity;
use neodepends::entity::EntityId;
use neodepends::entity::EntityKind;
use neodepends::entity::SimpleEntityId;
use neodepends::errors::Error;
use neodepends::files::FileKey;
use neodepends::filespec::filter_keys;
use neodepends::filespec::is_plain_repo_path;
use neodepends::filespec::PathMatcher;
use neodepends::files::FileSet;
use neodepends::files::MultiFileSet;
use neodepends::hashing::Sha1Hash;
use neodepends::ids::CommitId;
use neodepends::ids::ContentId;
use neodepends::ids::PseudoCommitId;
use neodepends::languages::FileFilter;
use neodepends::languages::Lang;
use neodepends::resolution::first_accepting;
use neodepends::resolution::partition_files;
use neodepends::span::PartialPosition;
use neodepends::span::Position;
use neodepends::span::Span;
use neodepends::store::ContentStore;
use neodepends::store::EntityCache;
use neodepends::tagging::to_singleton_entity_set;

fn key(name: &str, content: &str) -> FileKey {
    FileKey::new(name.to_string(), ContentId::from_content(content))
}

#[test]
fn content_store_round_trip() {
    let mut store = ContentStore::new();
    let id = store.insert_content("hello\n".to_string());
    assert_eq!(id, ContentId::from_content("hello\n"));
    assert_eq!(store.read(id).unwrap(), "hello\n");
    assert!(store.read(ContentId::from_content("other")).is_none());
    // overwriting with the same id keeps the round trip intact
    let id2 = store.insert_content("hello\n".to_string());
    assert_eq!(id, id2);
    assert_eq!(store.read(id2).unwrap(), "hello\n");
}

#[test]
fn file_set_rejects_duplicate_filenames() {
    let dup = vec![key("a.c", "1"), key("a.c", "2")];
    assert!(FileSet::try_new(dup).is_none());
    let ok = vec![key("a.c", "1"), key("b.c", "2")];
    let fs = FileSet::try_new(ok).unwrap();
    assert_eq!(fs.len(), 2);
    assert_eq!(fs.get(&"a.c".to_string()).unwrap().content_id, ContentId::from_content("1"));
    assert!(fs.get(&"z.c".to_string()).is_none());
    assert_eq!(fs.get_content_id(&"b.c".to_string()), Some(ContentId::from_content("2")));
}

#[test]
fn file_set_filenames_by_content_id() {
    let fs = FileSet::try_new(vec![key("a.c", "same"), key("b.c", "same"), key("c.c", "other")])
        .unwrap();
    let names = fs.get_filenames(ContentId::from_content("same"));
    assert_eq!(names, vec!["a.c".to_string(), "b.c".to_string()]);
}

#[test]
fn multi_file_set_deduplicates_keys() {
    let c1 = PseudoCommitId::CommitId(CommitId(Sha1Hash { w0: 1, w1: 0, w2: 0, w3: 0, w4: 0 }));
    let s1 = FileSet::try_new(vec![key("a.c", "1"), key("b.c", "2")]).unwrap();
    let s2 = FileSet::try_new(vec![key("a.c", "1"), key("c.c", "3")]).unwrap();
    let m = MultiFileSet::new(vec![(c1, s1), (PseudoCommitId::WorkDir, s2)]);
    assert_eq!(m.files().len(), 3);
    assert_eq!(m.iter().len(), 2);
}

#[test]
fn language_dispatch() {
    assert_eq!(Lang::of("Main.java"), Some(Lang::Java));
    assert_eq!(Lang::of("src/x.PY"), Some(Lang::Python));
    assert_eq!(Lang::of("a.c"), Some(Lang::C));
    assert_eq!(Lang::of("a.hpp"), Some(Lang::Cpp));
    assert_eq!(Lang::of("tsconfig.json"), Some(Lang::TypeScript));
    assert_eq!(Lang::of("TSCONFIG.JSON"), Some(Lang::TypeScript));
    assert_eq!(Lang::of("README.md"), None);
    assert_eq!(Lang::of("Makefile"), None);
    assert_eq!(Lang::Java.as_str(), "java");
    assert_eq!(Lang::C.depends_lang(), Some("cpp"));
    assert_eq!(Lang::TypeScript.depends_lang(), None);
}

#[test]
fn file_filters() {
    let by_lang = FileFilter::from_langs(vec![Lang::Java, Lang::C]);
    assert!(by_lang.includes(&"A.java".to_string()));
    assert!(by_lang.includes(&"x.c".to_string()));
    assert!(!by_lang.includes(&"x.py".to_string()));
    assert!(!by_lang.includes(&"README".to_string()));
    let by_name = FileFilter::from_filenames(vec!["x.py".to_string()]);
    assert!(by_name.includes(&"x.py".to_string()));
    assert!(!by_name.includes(&"y.py".to_string()));
}

#[test]
fn resolver_priority_takes_the_first_acceptor() {
    // two factories both accept: the first wins
    assert_eq!(first_accepting(&vec![true, true]), Some(0));
    assert_eq!(first_accepting(&vec![false, true]), Some(1));
    assert_eq!(first_accepting(&vec![false, false]), None);
}

#[test]
fn partitioning_groups_by_revision_and_language() {
    let c1 = PseudoCommitId::WorkDir;
    let fs = FileSet::try_new(vec![
        key("a.java", "1"),
        key("b.java", "2"),
        key("c.py", "3"),
        key("README.md", "4"),
    ])
    .unwrap();
    let parts = partition_files(&MultiFileSet::new(vec![(c1, fs)]));
    assert_eq!(parts.len(), 2);
    for p in &parts {
        match p.lang {
            Lang::Java => assert_eq!(p.files.len(), 2),
            Lang::Python => assert_eq!(p.files.len(), 1),
            _ => panic!("unexpected partition"),
        }
    }
}

#[test]
fn dep_kind_parsing() {
    assert_eq!(parse_dep_kind("Call"), Some(DepKind::Call));
    assert_eq!(parse_dep_kind("Call(possible)"), Some(DepKind::Call));
    assert_eq!(parse_dep_kind("Set"), Some(DepKind::Assign));
    assert_eq!(DepKind::Assign.as_str(), "Set");
    assert_eq!(parse_dep_kind("NoSuchKind"), None);
    assert_eq!(DepKind::from_str("Use"), Some(DepKind::Use));
}

#[test]
fn depends_record_conversion() {
    let c = PseudoCommitId::WorkDir;
    let d = into_filename_dep("a.java".to_string(), 3, "b.java".to_string(), 7, "Call", c)
        .unwrap();
    assert_eq!(d.src.filename, "a.java");
    assert_eq!(d.src.position, PartialPosition::Row(2));
    assert_eq!(d.tgt.position, PartialPosition::Row(6));
    assert!(matches!(d.kind, DepKind::Call));
}

#[test]
fn filename_dep_resolution_and_loops() {
    let fs = FileSet::try_new(vec![key("a.java", "1"), key("b.java", "2")]).unwrap();
    let dep = Dep::new(
        FilenameEndpoint::new("a.java".to_string(), PartialPosition::Row(0)),
        FilenameEndpoint::new("b.java".to_string(), PartialPosition::Row(1)),
        DepKind::Use,
        PartialPosition::Row(0),
        PseudoCommitId::WorkDir,
    );
    let fd = dep.into_file_dep(&fs).unwrap();
    assert_eq!(fd.src.file_key.filename, "a.java");
    assert_eq!(fd.tgt.file_key.content_id, ContentId::from_content("2"));

    let missing = Dep::new(
        FilenameEndpoint::new("zzz.java".to_string(), PartialPosition::Row(0)),
        FilenameEndpoint::new("b.java".to_string(), PartialPosition::Row(1)),
        DepKind::Use,
        PartialPosition::Row(0),
        PseudoCommitId::WorkDir,
    );
    assert!(missing.into_file_dep(&fs).is_none());
}

#[test]
fn simple_id_is_stable_and_chained() {
    // the same parent/name/kind chain yields the same id, in any revision
    let root1 = SimpleEntityId::new(None, "A.java", EntityKind::File);
    let root2 = SimpleEntityId::new(None, "A.java", EntityKind::File);
    assert_eq!(root1, root2);
    let m1 = SimpleEntityId::new(Some(root1), "f", EntityKind::Method);
    let m2 = SimpleEntityId::new(Some(root2), "f", EntityKind::Method);
    assert_eq!(m1, m2);
    // a different link in the chain changes the id
    assert_ne!(m1, SimpleEntityId::new(Some(root1), "g", EntityKind::Method));
    assert_ne!(m1, SimpleEntityId::new(None, "f", EntityKind::Method));
    assert_ne!(m1, SimpleEntityId::new(Some(root1), "f", EntityKind::Field));
}

#[test]
fn entity_ids_separate_overloads_by_span() {
    let cid = ContentId::from_content("class A { void f(int x){} void f(){} }");
    let root = SimpleEntityId::new(None, "A.java", EntityKind::File);
    let sid = SimpleEntityId::new(Some(root), "f", EntityKind::Method);
    let span1 = Span::new(Position::new(10, 0, 10), Position::new(25, 0, 25));
    let span2 = Span::new(Position::new(26, 0, 26), Position::new(36, 0, 36));
    let e1 = Entity::new(None, "f".to_string(), EntityKind::Method, span1, cid, sid);
    let e2 = Entity::new(None, "f".to_string(), EntityKind::Method, span2, cid, sid);
    // the stable ids collide, the location-unique ids do not
    assert_eq!(e1.simple_id, e2.simple_id);
    assert_ne!(e1.id, e2.id);
}

#[test]
fn entity_kind_names() {
    assert_eq!(EntityKind::Class.as_str(), "Class");
    assert_eq!(EntityKind::from_str("Method"), Some(EntityKind::Method));
    assert_eq!(EntityKind::from_str("method"), None);
    assert!(EntityKind::File.is_file());
    assert!(!EntityKind::Class.is_file());
}

#[test]
fn error_messages() {
    assert_eq!(Error::NoSuchCommit.message(), "no such commit");
    assert_eq!(Error::RenameInDiff.message(), "diff contains a rename or move");
    assert_eq!(Error::UnsupportedDiffStatus.message(), "unsupported diff status");
    assert_eq!(Error::ContentNotFound.message(), "content not found");
}

#[test]
fn pseudo_commit_accessors() {
    let c = CommitId(Sha1Hash { w0: 5, w1: 6, w2: 7, w3: 8, w4: 9 });
    let pc = PseudoCommitId::CommitId(c);
    assert!(!pc.is_work_dir());
    assert_eq!(pc.try_as_commit_id(), Some(c));
    assert!(PseudoCommitId::WorkDir.is_work_dir());
    assert_eq!(PseudoCommitId::WorkDir.try_as_commit_id(), None);
}

#[test]
fn file_sets_sort_ascending() {
    let fs = FileSet::try_new(vec![key("b.c", "2"), key("a.c", "1"), key("c.c", "3")]).unwrap();
    let names: Vec<String> = fs.iter().iter().map(|k| k.filename.clone()).collect();
    assert_eq!(names, vec!["a.c".to_string(), "b.c".to_string(), "c.c".to_string()]);
}

#[test]
fn pathspec_shape_checks() {
    assert!(is_plain_repo_path("src/a.c"));
    assert!(is_plain_repo_path(".gitignore"));
    assert!(!is_plain_repo_path(""));
    assert!(!is_plain_repo_path("/abs/a.c"));
    assert!(!is_plain_repo_path("./a.c"));
    assert!(!is_plain_repo_path("../a.c"));
    assert!(!is_plain_repo_path("."));
}

#[test]
fn self_loops_are_dropped() {
    let a = EntityId(Sha1Hash { w0: 1, w1: 0, w2: 0, w3: 0, w4: 0 });
    let b = EntityId(Sha1Hash { w0: 2, w1: 0, w2: 0, w3: 0, w4: 0 });
    let mk = |s, t| {
        Dep::new(s, t, DepKind::Use, PartialPosition::Row(0), PseudoCommitId::WorkDir)
    };
    let out = drop_self_loops(vec![mk(a, b), mk(a, a), mk(b, a), mk(b, b)]);
    assert_eq!(out.len(), 2);
    assert!(out.iter().all(|d| d.src != d.tgt));
}

#[test]
fn listing_filter_keeps_matching_paths() {
    let ps = PathMatcher::try_from_vec(vec!["*.java".to_string()]).unwrap();
    let keys = vec![key("A.java", "1"), key("b.c", "2"), key("/abs.java", "3")];
    let kept = filter_keys(keys, &ps);
    assert_eq!(kept.len(), 1);
    assert_eq!(kept[0].filename, "A.java");
    // no patterns: every properly shaped path is kept
    let all = filter_keys(vec![key("A.java", "1"), key("b.c", "2")], &PathMatcher::empty());
    assert_eq!(all.len(), 2);
}

#[test]
fn entity_cache_round_trip() {
    let mut cache = EntityCache::new();
    let k1 = key("a.txt", "one");
    let k2 = key("b.txt", "two");
    assert!(cache.get(&k1).is_none());
    cache.put(k1.duplicate(), to_singleton_entity_set("a.txt", "one"));
    cache.put(k2.duplicate(), to_singleton_entity_set("b.txt", "two"));
    let s1 = cache.get(&k1).unwrap();
    assert_eq!(s1.clone().into_entities_vec()[0].name, "a.txt");
    let s2 = cache.get(&k2).unwrap();
    assert_eq!(s2.clone().into_entities_vec()[0].name, "b.txt");
    assert!(cache.get(&key("c.txt", "three")).is_none());
}
