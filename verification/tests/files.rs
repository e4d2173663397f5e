use opencodesearchparser::files::{join_file_segments, select_files};

#[test]
fn select_files_keeps_paths_with_the_extension_in_order() {
    let paths = vec![
        "src/a.rs".to_string(),
        "src/b.py".to_string(),
        "c.rs".to_string(),
        ".rs".to_string(),
        "dir.rs/file".to_string(),
        "archive.tar.rs".to_string(),
        "noext".to_string(),
    ];
    let selected = select_files(&paths, "rs");
    assert_eq!(
        selected,
        vec![
            "src/a.rs".to_string(),
            "c.rs".to_string(),
            "archive.tar.rs".to_string(),
        ]
    );
}

#[test]
fn select_files_of_no_paths_is_empty() {
    let paths: Vec<String> = Vec::new();
    assert!(select_files(&paths, "c").is_empty());
}

#[test]
fn select_files_compares_the_whole_extension() {
    let paths = vec!["x.cpp".to_string(), "y.c".to_string(), "z.cc".to_string()];
    assert_eq!(select_files(&paths, "c"), vec!["y.c".to_string()]);
    assert_eq!(select_files(&paths, "cpp"), vec!["x.cpp".to_string()]);
}

#[test]
fn join_file_segments_keeps_file_and_segment_order() {
    let parts = vec![
        vec!["a1".to_string(), "a2".to_string()],
        vec![],
        vec!["c1".to_string()],
    ];
    assert_eq!(
        join_file_segments(parts),
        vec!["a1".to_string(), "a2".to_string(), "c1".to_string()]
    );
}
