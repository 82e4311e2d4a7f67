use trackmatch::{nearest, ranking, Coord};

fn pt(lat: f64, lon: f64) -> Coord {
    Coord::new(lat.to_bits(), lon.to_bits())
}

fn key(d: f64) -> u64 {
    d.to_bits()
}

#[test]
fn ranking_is_a_stable_sort_by_distance() {
    let d = vec![key(3.0), key(1.0), key(2.0), key(1.0), key(0.0)];
    assert_eq!(ranking(&d), vec![4, 1, 3, 2, 0]);
    assert!(ranking(&Vec::new()).is_empty());
}

#[test]
fn nearest_drops_the_query_itself() {
    let points = vec![pt(1.0, 1.0), pt(0.0, 0.0), pt(2.0, 2.0), pt(0.5, 0.5)];
    let d = vec![key(10.0), key(0.0), key(20.0), key(5.0)];
    let r = nearest(&points, &d, 2);
    assert_eq!(r, vec![pt(0.5, 0.5), pt(1.0, 1.0)]);
    assert_ne!(r[0], pt(0.0, 0.0));
}

#[test]
fn nearest_keeps_everything_when_nothing_is_at_zero() {
    let points = vec![pt(1.0, 1.0), pt(2.0, 2.0)];
    let d = vec![key(7.5), key(2.5)];
    assert_eq!(nearest(&points, &d, 5), vec![pt(2.0, 2.0), pt(1.0, 1.0)]);
    assert_eq!(nearest(&points, &d, 0), Vec::<Coord>::new());
}

#[test]
fn nearest_ties_keep_input_order() {
    let points = vec![pt(1.0, 0.0), pt(2.0, 0.0), pt(3.0, 0.0)];
    let d = vec![key(4.0), key(4.0), key(1.0)];
    assert_eq!(nearest(&points, &d, 3), vec![pt(3.0, 0.0), pt(1.0, 0.0), pt(2.0, 0.0)]);
}

#[test]
fn nearest_on_empty_track_is_empty() {
    assert!(nearest(&Vec::new(), &Vec::new(), 3).is_empty());
    // only the query itself: nothing remains
    assert!(nearest(&vec![pt(0.0, 0.0)], &vec![key(0.0)], 3).is_empty());
}
