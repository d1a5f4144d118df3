use neodepends::interval::DisjointIntervalMap;
use neodepends::interval::Interval as Iv;
use neodepends::sparse::Entry;
use neodepends::sparse::Interval;
use neodepends::sparse::SparseVec;

#[test]
fn overlap_weighting_after_nested_insert() {
    // insert (0,9,X) then (3,5,Y); querying [2,6] counts the rows of
    // overlap: X keeps rows 2 and 6, Y holds rows 3..5
    let x = 7usize;
    let y = 9usize;
    let mut sv = SparseVec::new();
    sv.insert_many(0, 9, x);
    sv.insert_many(3, 5, y);
    let counts = sv.get_overlaps(2, 6);
    assert_eq!(counts.get(x), 2);
    assert_eq!(counts.get(y), 3);
    assert_eq!(counts.get(123), 0);
}

#[test]
fn child_insert_overwrites_parent_range() {
    let mut sv = SparseVec::new();
    sv.insert_many(0, 9, 0);
    sv.insert_many(3, 5, 1);
    assert_eq!(sv.get(2), Some(0));
    assert_eq!(sv.get(3), Some(1));
    assert_eq!(sv.get(5), Some(1));
    assert_eq!(sv.get(6), Some(0));
    assert_eq!(sv.get(10), None);
}

#[test]
fn cover_is_union_of_inserts() {
    let mut sv = SparseVec::new();
    sv.insert_many(5, 7, 1);
    sv.insert_many(0, 2, 2);
    sv.insert_many(6, 10, 3);
    // covered exactly on [0,2] and [5,10]
    for p in 0..=2usize {
        assert!(sv.get(p).is_some());
    }
    for p in 3..=4usize {
        assert!(sv.get(p).is_none());
    }
    for p in 5..=10usize {
        assert!(sv.get(p).is_some());
    }
    assert!(sv.get(11).is_none());
    // the later insert owns the overlap
    assert_eq!(sv.get(6), Some(3));
    assert_eq!(sv.get(5), Some(1));
}

#[test]
fn single_point_insert() {
    let mut sv = SparseVec::new();
    sv.insert(4, 8);
    assert_eq!(sv.get(4), Some(8));
    assert_eq!(sv.get(3), None);
    assert_eq!(sv.get(5), None);
    let counts = sv.get_overlaps(0, 100);
    assert_eq!(counts.get(8), 1);
}

#[test]
fn interval_try_new() {
    assert!(Interval::try_new(3, 2).is_none());
    let iv = Interval::try_new(2, 3).unwrap();
    assert_eq!(iv.start, 2);
    assert_eq!(iv.end, 3);
    let one = Interval::new(5, 5);
    assert_eq!(one.start, 5);
}

#[test]
fn entry_from_triple() {
    assert!(Entry::try_from_triple((4, 3, 0)).is_none());
    let e = Entry::try_from_triple((3, 4, 9)).unwrap();
    assert_eq!(e.key.start, 3);
    assert_eq!(e.key.end, 4);
    assert_eq!(e.value, 9);
}

#[test]
fn overlap_total_counts_each_row_once() {
    let mut sv = SparseVec::new();
    sv.insert_many(0, 100, 1);
    sv.insert_many(10, 20, 2);
    sv.insert_many(15, 30, 3);
    let counts = sv.get_overlaps(0, 100);
    let mut total = 0usize;
    let mut i = 0;
    while i < counts.len() {
        total += counts.item_at(i).1;
        i += 1;
    }
    assert_eq!(total, 101);
}

#[test]
fn disjoint_interval_map() {
    let mut m: DisjointIntervalMap<&str> = DisjointIntervalMap::new();
    m.insert(Iv::new(5, 10).unwrap(), "foo");
    m.insert(Iv::new(12, 15).unwrap(), "bar");
    m.insert(Iv::new(0, 2).unwrap(), "baz");
    assert_eq!(m.len(), 3);
    assert_eq!(m.get(5), Some(&"foo"));
    assert_eq!(m.get(10), Some(&"foo"));
    assert_eq!(m.get(11), None);
    assert_eq!(m.get(1), Some(&"baz"));
    assert_eq!(m.get(13), Some(&"bar"));
    assert!(m.get_many(&Iv::new(4, 4).unwrap()).is_empty());
    assert_eq!(m.get_many(&Iv::new(2, 12).unwrap()).len(), 3);
    assert!(Iv::new(3, 1).is_none());
    assert_eq!(Iv::singleton(7).a, 7);
}

#[test]
fn get_many_yields_deduplicated_values_in_order() {
    let mut sv = SparseVec::new();
    sv.insert_many(0, 9, 1);
    sv.insert_many(3, 5, 2);
    // entries now: [0,2]->1, [3,5]->2, [6,9]->1
    assert_eq!(sv.get_many(0, 9), vec![1, 2, 1]);
    assert_eq!(sv.get_many(0, 2), vec![1]);
    assert_eq!(sv.get_many(10, 20), Vec::<usize>::new());
    let mut sv2 = SparseVec::new();
    sv2.insert_many(0, 2, 7);
    sv2.insert_many(5, 6, 7);
    // equal values in consecutive entries collapse
    assert_eq!(sv2.get_many(0, 6), vec![7]);
}
