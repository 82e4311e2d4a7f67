use trackmatch::{load, save, CorrespondenceMap, TrackError};

fn s(x: &str) -> String {
    x.to_string()
}

fn sample() -> CorrespondenceMap {
    CorrespondenceMap {
        rows: vec![
            (s("A"), vec![(s("B"), vec![(0, 3), (1, 3)]), (s("C"), vec![(7, 0)])]),
            (s("B"), vec![(s("C"), vec![(12, 345)])]),
        ],
    }
}

#[test]
fn save_writes_the_nested_object() {
    assert_eq!(
        save(&sample()),
        "{\"A\":{\"B\":[[0,3],[1,3]],\"C\":[[7,0]]},\"B\":{\"C\":[[12,345]]}}"
    );
    assert_eq!(save(&CorrespondenceMap::new()), "{}");
}

#[test]
fn save_escapes_names() {
    let m = CorrespondenceMap {
        rows: vec![(s("a\"b\\c\nd\u{1}"), vec![(s("é/ü"), vec![(0, 0)])])],
    };
    assert_eq!(save(&m), "{\"a\\\"b\\\\c\\nd\\u0001\":{\"é/ü\":[[0,0]]}}");
    assert_eq!(load(&save(&m)), Ok(m));
}

#[test]
fn load_reads_back_what_save_wrote() {
    let m = sample();
    assert_eq!(load(&save(&m)), Ok(m));
    let big = CorrespondenceMap {
        rows: vec![(s("x"), vec![(s("y"), vec![(usize::MAX, 0), (10, 100)])])],
    };
    assert_eq!(load(&save(&big)), Ok(big));
}

#[test]
fn load_reads_the_documented_example() {
    let m = load("{\"A\":{\"B\":[[0,3],[1,3]]}}").unwrap();
    assert_eq!(m, CorrespondenceMap { rows: vec![(s("A"), vec![(s("B"), vec![(0, 3), (1, 3)])])] });
    assert_eq!(m.get(&s("A"), &s("B")), Some(&vec![(0, 3), (1, 3)]));
    assert_eq!(load("{}"), Ok(CorrespondenceMap::new()));
    assert_eq!(
        load("{\"A\":{\"B\":[]}}"),
        Ok(CorrespondenceMap { rows: vec![(s("A"), vec![(s("B"), Vec::new())])] })
    );
    assert_eq!(
        load("{\"t\\u0041\\/\":{}}"),
        Ok(CorrespondenceMap { rows: vec![(s("tA/"), Vec::new())] })
    );
}

#[test]
fn load_reads_the_example_as_written() {
    let expected = CorrespondenceMap { rows: vec![(s("A"), vec![(s("B"), vec![(0, 3), (1, 3)])])] };
    assert_eq!(load("{\"A\": {\"B\": [[0,3],[1,3]]}}"), Ok(expected));
}

#[test]
fn load_accepts_whitespace_around_tokens() {
    let expected = sample();
    let pretty = "\n{\r\n  \"A\" : {\n    \"B\": [ [ 0 , 3 ] ,\t[1, 3] ],\n    \"C\": [[7,0]]\n  },\n  \"B\": { \"C\": [[12, 345]] }\n}\n";
    assert_eq!(load(pretty), Ok(expected));
    assert_eq!(load(" { } \n"), Ok(CorrespondenceMap::new()));
    assert_eq!(load("{\"A\": {\"B\": [ ]}}"), Ok(CorrespondenceMap { rows: vec![(s("A"), vec![(s("B"), Vec::new())])] }));
}

#[test]
fn load_decodes_unicode_escapes() {
    let m = load("{\"\\u00e9t\\u00C9\\u4e2d\\ud83d\\ude00\": {}}").unwrap();
    assert_eq!(m, CorrespondenceMap { rows: vec![(s("\u{e9}t\u{c9}\u{4e2d}\u{1f600}"), Vec::new())] });
    // a surrogate that is not part of a pair is no character
    assert_eq!(load("{\"\\ud83d\": {}}"), Err(TrackError::DecodeFailure));
    assert_eq!(load("{\"\\ude00\": {}}"), Err(TrackError::DecodeFailure));
    assert_eq!(load("{\"\\ud83d\\u0041\": {}}"), Err(TrackError::DecodeFailure));
    assert_eq!(load("{\"\\u12\": {}}"), Err(TrackError::DecodeFailure));
}

#[test]
fn load_rejects_other_shapes() {
    let bad = [
        "",
        "[]",
        "{\"A\":[[0,1]]}",
        "{\"A\":{\"B\":[[0,\"1\"]]}}",
        "{\"A\":{\"B\":[[0,-1]]}}",
        "{\"A\":{\"B\":[[0,1.5]]}}",
        "{\"A\":{\"B\":[[0]]}}",
        "{\"A\":{\"B\":[[0,1]]}",
        "{\"A\":{\"B\":[[0,1]]}}x",
        "{\"A\":{\"B\":[[0,99999999999999999999999]]}}",
        "{\"A\":{},\"A\":{}}",
        "{\"A\":{\"B\":[],\"B\":[]}}",
        "{A:{}}",
        "{\"A\":{\"B\":[[0,1]]}} }",
        "{\"A\":{\"B\":[[0,1],]}}",
        "{\"A\":{\"B\":[[0 1]]}}",
    ];
    for text in bad.iter() {
        assert_eq!(load(text), Err(TrackError::DecodeFailure), "{}", text);
    }
}
