use trackmatch::{Coord, TrackStore};

fn s(x: &str) -> String {
    x.to_string()
}

#[test]
fn store_lookup_by_exact_identifier() {
    let a = vec![Coord::new(1, 2), Coord::new(3, 4)];
    let store = TrackStore::build(vec![(s("a.gpx"), a.clone()), (s("b.gpx"), Vec::new())]);
    assert_eq!(store.get(&s("a.gpx")), Some(&a));
    assert_eq!(store.get(&s("b.gpx")), Some(&Vec::new()));
    assert_eq!(store.get(&s("a")), None);
    assert_eq!(store.get(&s("A.gpx")), None);
}

#[test]
fn store_keeps_the_last_entry_of_an_identifier() {
    let store = TrackStore::build(vec![
        (s("t"), vec![Coord::new(1, 1)]),
        (s("u"), vec![Coord::new(2, 2)]),
        (s("t"), vec![Coord::new(3, 3)]),
    ]);
    assert_eq!(store.get(&s("t")), Some(&vec![Coord::new(3, 3)]));
    assert_eq!(store.get(&s("u")), Some(&vec![Coord::new(2, 2)]));
}

#[test]
fn store_insert_replaces() {
    let mut store = TrackStore::new();
    assert_eq!(store.get(&s("t")), None);
    store.insert(s("t"), vec![Coord::new(5, 6)]);
    store.insert(s("t"), vec![Coord::new(7, 8), Coord::new(9, 9)]);
    assert_eq!(store.get(&s("t")), Some(&vec![Coord::new(7, 8), Coord::new(9, 9)]));
}
