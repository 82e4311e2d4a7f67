use trackmatch::get_unique_pairs;

#[test]
fn utils_test_get_unique_pairs() {
    let vector: Vec<i32> = vec![1, 2, 3, 4, 5];
    let unique_pairs: Vec<(&i32, &i32)> = get_unique_pairs(&vector);

    assert_eq!(
        unique_pairs,
        vec![
            (&1, &2),
            (&1, &3),
            (&1, &4),
            (&1, &5),
            (&2, &3),
            (&2, &4),
            (&2, &5),
            (&3, &4),
            (&3, &5),
            (&4, &5)
        ]
    );
}

#[test]
fn test_get_unique_pairs() {
    let vector: Vec<i32> = vec![1, 2, 3, 4, 5];
    let unique_pairs: Vec<(i32, i32)> = get_unique_pairs(&vector)
        .into_iter()
        .map(|(a, b)| (*a, *b))
        .collect();

    assert_eq!(
        unique_pairs,
        vec![(1, 2), (1, 3), (1, 4), (1, 5), (2, 3), (2, 4), (2, 5), (3, 4), (3, 5), (4, 5)]
    );
}

#[test]
fn unique_pairs_of_short_inputs() {
    let empty: Vec<u8> = Vec::new();
    assert!(get_unique_pairs(&empty).is_empty());
    let one: Vec<u8> = vec![7];
    assert!(get_unique_pairs(&one).is_empty());
    let two: Vec<u8> = vec![7, 9];
    assert_eq!(get_unique_pairs(&two), vec![(&7, &9)]);
}

#[test]
fn unique_pairs_count_is_n_choose_two() {
    let v: Vec<usize> = (0..12).collect();
    assert_eq!(get_unique_pairs(&v).len(), 12 * 11 / 2);
}
