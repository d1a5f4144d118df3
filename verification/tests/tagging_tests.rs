use neodepends::entity::EntityKind;
use neodepends::ids::ContentId;
use neodepends::span::PartialPosition;
use neodepends::span::PartialSpan;
use neodepends::span::Position;
use neodepends::span::Span;
use neodepends::tagging::into_entity_set;
use neodepends::tagging::tag;
use neodepends::tagging::to_singleton_entity_set;
use neodepends::tagging::Capture;

fn span(sb: usize, sr: usize, sc: usize, eb: usize, er: usize, ec: usize) -> Span {
    Span::new(Position::new(sb, sr, sc), Position::new(eb, er, ec))
}

#[test]
fn singleton_on_unknown_extension() {
    // one file with no registered language: a single File entity whose
    // span ends at (len, last row, last column)
    let es = to_singleton_entity_set("README.md", "hello\n");
    let entities = es.into_entities_vec();
    assert_eq!(entities.len(), 1);
    let e = &entities[0];
    assert_eq!(e.name, "README.md");
    assert!(matches!(e.kind, EntityKind::File));
    assert!(e.parent_id.is_none());
    assert_eq!(e.location.start, Position::new(0, 0, 0));
    assert_eq!(e.location.end, Position::new(6, 1, 0));
}

#[test]
fn singleton_end_position_without_trailing_newline() {
    let es = to_singleton_entity_set("notes.txt", "ab\ncd");
    let entities = es.into_entities_vec();
    assert_eq!(entities[0].location.end, Position::new(5, 1, 2));
}

#[test]
fn class_and_method_nest() {
    // the captures a tag query yields for `class A { void f(){} }`
    let source = "class A { void f(){} }";
    let content_id = ContentId::from_content(source);
    let caps = vec![
        Capture {
            id: 1,
            ancestor_ids: vec![],
            name: "A.java".to_string(),
            kind: EntityKind::File,
            location: span(0, 0, 0, 22, 0, 22),
        },
        Capture {
            id: 2,
            ancestor_ids: vec![1],
            name: "A".to_string(),
            kind: EntityKind::Class,
            location: span(0, 0, 0, 21, 0, 21),
        },
        Capture {
            id: 3,
            ancestor_ids: vec![2, 1],
            name: "f".to_string(),
            kind: EntityKind::Method,
            location: span(10, 0, 10, 20, 0, 20),
        },
    ];
    let es = into_entity_set(caps, content_id).unwrap();
    assert_eq!(es.len(), 3);

    // lookups before consuming the set: a byte inside f resolves to f
    let f_id = es.find_id(PartialPosition::Whole(Position::new(12, 0, 12))).unwrap();
    // a byte inside A but outside f resolves to A
    let a_id = es.find_id(PartialPosition::Whole(Position::new(2, 0, 2))).unwrap();
    // a byte outside A resolves to the file
    let file_id = es.find_id(PartialPosition::Whole(Position::new(22, 0, 22))).unwrap();

    let entities = es.into_entities_vec();
    assert!(matches!(entities[0].kind, EntityKind::File));
    assert_eq!(entities[1].name, "A");
    assert_eq!(entities[2].name, "f");
    // parents: f under A, A under the file
    assert_eq!(entities[2].parent_id, Some(entities[1].id));
    assert_eq!(entities[1].parent_id, Some(entities[0].id));
    assert!(entities[0].parent_id.is_none());
    assert_eq!(f_id, entities[2].id);
    assert_eq!(a_id, entities[1].id);
    assert_eq!(file_id, entities[0].id);
}

#[test]
fn orphan_tags_are_adopted_by_the_root() {
    let source = "x";
    let content_id = ContentId::from_content(source);
    let caps = vec![
        Capture {
            id: 10,
            ancestor_ids: vec![],
            name: "m.py".to_string(),
            kind: EntityKind::File,
            location: span(0, 0, 0, 40, 3, 0),
        },
        Capture {
            id: 11,
            ancestor_ids: vec![99],
            name: "g".to_string(),
            kind: EntityKind::Method,
            location: span(5, 1, 0, 30, 2, 0),
        },
    ];
    let es = into_entity_set(caps, content_id).unwrap();
    let entities = es.into_entities_vec();
    assert_eq!(entities.len(), 2);
    assert_eq!(entities[1].parent_id, Some(entities[0].id));
}

#[test]
fn improper_nest_is_rejected() {
    let content_id = ContentId::from_content("x");
    // the child is not enclosed by the root
    let caps = vec![
        Capture {
            id: 1,
            ancestor_ids: vec![],
            name: "a.c".to_string(),
            kind: EntityKind::File,
            location: span(0, 0, 0, 10, 0, 10),
        },
        Capture {
            id: 2,
            ancestor_ids: vec![1],
            name: "f".to_string(),
            kind: EntityKind::Method,
            location: span(5, 0, 5, 50, 0, 50),
        },
    ];
    assert!(into_entity_set(caps, content_id).is_none());
}

#[test]
fn tag_falls_back_to_singleton() {
    let es = tag("weird.bin", "1234", None, false);
    let entities = es.into_entities_vec();
    assert_eq!(entities.len(), 1);
    assert_eq!(entities[0].name, "weird.bin");

    // file-level forces the singleton even when captures exist
    let caps = vec![Capture {
        id: 1,
        ancestor_ids: vec![],
        name: "a.java".to_string(),
        kind: EntityKind::File,
        location: span(0, 0, 0, 4, 0, 4),
    }];
    let es2 = tag("a.java", "1234", Some(caps), true);
    assert_eq!(es2.len(), 1);
}

#[test]
fn count_simple_ids_weighs_row_overlap() {
    let es = to_singleton_entity_set("a.txt", "l1\nl2\nl3\nl4\n");
    let sid = {
        let entities = es.clone().into_entities_vec();
        entities[0].simple_id
    };
    // a half-open row span of three rows
    let counts = es.count_simple_ids(&vec![PartialSpan::Row(1, 4)]);
    assert_eq!(counts.get(sid), 3);
    // an empty row span counts nothing
    let counts2 = es.count_simple_ids(&vec![PartialSpan::Row(2, 2)]);
    assert_eq!(counts2.get(sid), 0);
}

#[test]
fn find_parent_id_picks_nearest_listed_ancestor() {
    let cap = Capture {
        id: 5,
        ancestor_ids: vec![4, 3, 2],
        name: "x".to_string(),
        kind: EntityKind::Field,
        location: span(0, 0, 0, 1, 0, 1),
    };
    assert_eq!(cap.find_parent_id(&vec![2, 3]), Some(3));
    assert_eq!(cap.find_parent_id(&vec![9]), None);
}
