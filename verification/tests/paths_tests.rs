use grader::paths::{file_name, join_path, path_components, relative_first, Relative};
use std::path::{Path, PathBuf};

#[test]
fn join_like_pathbuf() {
    for (base, p) in [("a", "b"), ("a/", "b"), ("", "b"), ("/x/y", "/z"), ("/x", "b/c")] {
        let expected = PathBuf::from(base).join(p).to_str().unwrap().to_string();
        assert_eq!(join_path(base, p), expected, "{:?} {:?}", base, p);
    }
}

#[test]
fn file_name_like_path() {
    for p in ["a/b.c", "a/b/", "a/.", ".", "..", "a/..", "/", "", "x", "./y", "a//b//", "a/./"] {
        let expected = Path::new(p).file_name().map(|s| s.to_str().unwrap().to_string());
        assert_eq!(file_name(p), expected, "{:?}", p);
    }
}

#[test]
fn components_like_path() {
    for p in ["/home/ta/CSCI-101/hw1", "a//b/./c", "./a", ".", "/", "a/../b", "", "/./x"] {
        let expected: Vec<String> = Path::new(p)
            .components()
            .map(|c| c.as_os_str().to_str().unwrap().to_string())
            .collect();
        assert_eq!(path_components(p), expected, "{:?}", p);
    }
}

#[test]
fn relative_positions() {
    match relative_first("/ws/CSCI-101/hw1", "/ws") {
        Relative::Below(n) => assert_eq!(n, "CSCI-101"),
        _ => panic!("expected a component below the base"),
    }
    assert!(matches!(relative_first("/ws", "/ws/"), Relative::AtBase));
    assert!(matches!(relative_first("/other/x", "/ws"), Relative::Outside));
    assert!(matches!(relative_first("/wsx/a", "/ws"), Relative::Outside));
}
