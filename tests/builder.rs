use trackmatch::{
    build_correspondences, find_common_coords_indexes, matches_for_pair, Coord, CorrespondenceMap,
    TrackError, TrackStore,
};

fn pt(lat: f64, lon: f64) -> Coord {
    Coord::new(lat.to_bits(), lon.to_bits())
}

fn haversine_m(a: Coord, b: Coord) -> f64 {
    let lat_1 = f64::from_bits(a.lat_bits);
    let lon_1 = f64::from_bits(a.lon_bits);
    let lat_2 = f64::from_bits(b.lat_bits);
    let lon_2 = f64::from_bits(b.lon_bits);
    let d_lat = (lat_2 - lat_1).to_radians();
    let d_lon = (lon_2 - lon_1).to_radians();
    let h = (d_lat / 2.0).sin() * (d_lat / 2.0).sin()
        + (d_lon / 2.0).sin() * (d_lon / 2.0).sin() * lat_1.to_radians().cos() * lat_2.to_radians().cos();
    let c = 2.0 * h.sqrt().atan2((1.0 - h).sqrt());
    6371.0 * c * 1000.0
}

fn within_10m(a: Coord, b: Coord) -> bool {
    haversine_m(a, b) < 10.0
}

fn s(x: &str) -> String {
    x.to_string()
}

#[test]
fn two_tracks_end_to_end() {
    let a = vec![pt(0.0, 0.0), pt(0.0, 0.0001)];
    let b = vec![pt(0.0, 0.00005)];
    // both separations are about 5.5 m, under the threshold
    assert!(haversine_m(a[0], b[0]) < 10.0 && haversine_m(a[0], b[0]) > 5.0);
    assert!(haversine_m(a[1], b[0]) < 10.0 && haversine_m(a[1], b[0]) > 5.0);
    let store = TrackStore::build(vec![(s("A"), a), (s("B"), b)]);
    let ids = vec![s("A"), s("B")];
    let close = |x: Coord, y: Coord| within_10m(x, y);
    let map = build_correspondences(&store, &ids, &close).unwrap();
    assert_eq!(
        map,
        CorrespondenceMap { rows: vec![(s("A"), vec![(s("B"), vec![(0, 0), (1, 0)])])] }
    );
    assert!(!map.contains_key(&s("B")));
}

#[test]
fn far_tracks_leave_no_entry() {
    let a = vec![pt(48.8534, 2.3488), pt(48.8535, 2.3489)];
    let b = vec![pt(42.6782078, 0.0856054)];
    let c = vec![pt(48.85341, 2.34881)];
    let store = TrackStore::build(vec![(s("a"), a), (s("b"), b), (s("c"), c)]);
    let ids = vec![s("a"), s("b"), s("c")];
    let close = |x: Coord, y: Coord| within_10m(x, y);
    let map = build_correspondences(&store, &ids, &close).unwrap();
    // a meets c only; b meets nobody, so it heads no row
    assert_eq!(map, CorrespondenceMap { rows: vec![(s("a"), vec![(s("c"), vec![(0, 0)])])] });
    assert!(map.get(&s("a"), &s("b")).is_none());
    assert!(!map.contains_key(&s("b")));
}

#[test]
fn no_match_at_all_gives_empty_map() {
    let store = TrackStore::build(vec![(s("x"), vec![pt(0.0, 0.0)]), (s("y"), vec![pt(1.0, 1.0)])]);
    let ids = vec![s("x"), s("y")];
    let close = |x: Coord, y: Coord| within_10m(x, y);
    let map = build_correspondences(&store, &ids, &close).unwrap();
    assert!(map.rows.is_empty());
}

#[test]
fn missing_identifier_is_not_found() {
    let store = TrackStore::build(vec![(s("x"), vec![pt(0.0, 0.0)])]);
    let ids = vec![s("x"), s("ghost"), s("other")];
    let close = |x: Coord, y: Coord| within_10m(x, y);
    let r = build_correspondences(&store, &ids, &close);
    assert_eq!(r, Err(TrackError::NotFound(s("ghost"))));
}

#[test]
fn builder_is_deterministic() {
    let store = TrackStore::build(vec![
        (s("p"), vec![pt(1.0, 1.0), pt(1.00001, 1.0), pt(2.0, 2.0)]),
        (s("q"), vec![pt(2.0, 2.00001), pt(1.0, 1.00001)]),
    ]);
    let ids = vec![s("p"), s("q")];
    let close = |x: Coord, y: Coord| within_10m(x, y);
    let first = trackmatch::save(&build_correspondences(&store, &ids, &close).unwrap());
    let second = trackmatch::save(&build_correspondences(&store, &ids, &close).unwrap());
    assert_eq!(first, second);
    assert_eq!(first, "{\"p\":{\"q\":[[0,1],[1,1],[2,0]]}}");
}

#[test]
fn pair_matches_are_ordered_by_i_then_j() {
    let a = vec![pt(0.0, 0.0), pt(5.0, 5.0), pt(0.0, 0.0)];
    let b = vec![pt(0.0, 0.0), pt(0.0, 0.0), pt(9.0, 9.0)];
    let close = |x: Coord, y: Coord| x == y;
    assert_eq!(matches_for_pair(&a, &b, &close), vec![(0, 0), (0, 1), (2, 0), (2, 1)]);
    let empty: Vec<Coord> = Vec::new();
    assert!(matches_for_pair(&empty, &b, &close).is_empty());
}

#[test]
fn common_indexes_follow_the_stored_direction() {
    let map = CorrespondenceMap {
        rows: vec![
            (s("f1"), vec![(s("f2"), vec![(0, 3), (1, 3)])]),
            (s("f3"), vec![(s("f1"), vec![(4, 4)])]),
        ],
    };
    assert_eq!(find_common_coords_indexes(&map, &s("f1"), &s("f2")), vec![(0, 3), (1, 3)]);
    // f1 heads a row, so (f2, f1) is looked up as f1 -> f2
    assert_eq!(find_common_coords_indexes(&map, &s("f2"), &s("f1")), vec![(0, 3), (1, 3)]);
    // f3 heads a row, so (f1, f3) is looked up as f3 -> f1
    assert_eq!(find_common_coords_indexes(&map, &s("f1"), &s("f3")), vec![(4, 4)]);
    assert!(find_common_coords_indexes(&map, &s("f2"), &s("f9")).is_empty());
}

#[test]
fn index_pairs_become_point_pairs() {
    let a = vec![pt(1.0, 1.0), pt(2.0, 2.0)];
    let b = vec![pt(3.0, 3.0)];
    let pairs = trackmatch::indexes_to_coords(&a, &b, &vec![(1, 0), (0, 0)]);
    assert_eq!(pairs, vec![(pt(2.0, 2.0), pt(3.0, 3.0)), (pt(1.0, 1.0), pt(3.0, 3.0))]);
    assert!(trackmatch::indexes_to_coords(&a, &b, &Vec::new()).is_empty());
}
