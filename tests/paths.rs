use std::collections::HashMap;

use trackmatch::{file_name_to_path_buf, get_final_json_path, read_file_name, Mode, VecOrHashMap};

fn s(x: &str) -> String {
    x.to_string()
}

#[test]
fn file_names_of_paths() {
    assert_eq!(read_file_name(&s("./assets/track.gpx")), Some(s("track.gpx")));
    assert_eq!(read_file_name(&s("track.gpx")), Some(s("track.gpx")));
    assert_eq!(read_file_name(&s("/a/b/")), Some(s("b")));
    assert_eq!(read_file_name(&s("/a/b/.")), Some(s("b")));
    assert_eq!(read_file_name(&s("a//b")), Some(s("b")));
    assert_eq!(read_file_name(&s("/a/..")), None);
    assert_eq!(read_file_name(&s("/")), None);
    assert_eq!(read_file_name(&s("")), None);
    assert_eq!(read_file_name(&s(".")), None);
    assert_eq!(read_file_name(&s("..")), None);
}

#[test]
fn paths_under_a_directory() {
    assert_eq!(file_name_to_path_buf(&s("./assets"), &s("x.gpx")), s("./assets/x.gpx"));
    assert_eq!(file_name_to_path_buf(&s("./assets/"), &s("x.gpx")), s("./assets/x.gpx"));
    assert_eq!(file_name_to_path_buf(&s(""), &s("x.gpx")), s("x.gpx"));
    assert_eq!(file_name_to_path_buf(&s("./assets"), &s("/abs/x.gpx")), s("/abs/x.gpx"));
    assert_eq!(get_final_json_path(&s("./output")), s("./output/final.json"));
}

#[test]
fn listing_levels_report_emptiness() {
    let files: VecOrHashMap<String, String> = VecOrHashMap::Vec(Vec::new());
    assert!(files.is_empty());
    let files: VecOrHashMap<String, String> = VecOrHashMap::Vec(vec![s("a.png")]);
    assert!(!files.is_empty());
    let mut m = HashMap::new();
    let folders: VecOrHashMap<String, String> = VecOrHashMap::HashMap(m.clone());
    assert!(folders.is_empty());
    m.insert(s("12"), s("x"));
    let folders: VecOrHashMap<String, String> = VecOrHashMap::HashMap(m);
    assert!(!folders.is_empty());
    assert!(Mode::Tiles != Mode::Files);
}
