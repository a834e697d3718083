use mdcache::path::{normalize_path, soft_cannonicalize, SrcPath};

#[test]
fn test_normalize_path() {
    let cases = vec![
        ("a/b/c", "a/b/c"),
        ("a/./b/../c", "a/c"),
        ("/a/b/../c", "/a/c"),
        ("./a/b/c", "a/b/c"),
        ("a/b/c/..", "a/b"),
        ("a/b/c/.", "a/b/c"),
        ("a//b///c", "a/b/c"),
        ("a/b/c/../../d", "a/d"),
        ("/../a/b", "/a/b"),
        ("../a/b", "../a/b"),
    ];
    for (input, expected) in cases {
        let normalized = normalize_path(input);
        assert_eq!(normalized, expected);
    }
}

#[test]
fn normalize_path_edge_cases() {
    assert_eq!(normalize_path(""), "");
    assert_eq!(normalize_path("/"), "/");
    assert_eq!(normalize_path("a/.."), "");
    assert_eq!(normalize_path("/.."), "/");
    assert_eq!(normalize_path("../../a"), "../../a");
    assert_eq!(normalize_path("a/../../b"), "../b");
}

#[test]
fn soft_cannonicalize_resolves_relative_paths() {
    assert_eq!(soft_cannonicalize("images/pic.png", "/site"), "/site/images/pic.png");
    assert_eq!(soft_cannonicalize("../up.md", "/site/docs"), "/site/up.md");
    assert_eq!(soft_cannonicalize("/abs/x.md", "/site"), "/abs/x.md");
    assert_eq!(soft_cannonicalize("./a/./b", "/r"), "/r/a/b");
}

#[test]
fn srcpath_splits_filename_and_extension() {
    let p = SrcPath::new(String::from("/site/docs/readme.md"));
    assert_eq!(p.as_text(), "/site/docs/readme.md");
    assert_eq!(p.filename(), "readme.md");
    assert_eq!(p.filename_no_ext(), "readme");
    assert_eq!(p.ext(), ".md");
}

#[test]
fn srcpath_without_extension() {
    let p = SrcPath::new(String::from("/site/Makefile"));
    assert_eq!(p.filename(), "Makefile");
    assert_eq!(p.filename_no_ext(), "Makefile");
    assert_eq!(p.ext(), "");
}

#[test]
fn srcpath_hidden_file_has_no_extension() {
    let p = SrcPath::new(String::from("/site/.gitignore"));
    assert_eq!(p.filename(), ".gitignore");
    assert_eq!(p.filename_no_ext(), ".gitignore");
    assert_eq!(p.ext(), "");
}

#[test]
fn srcpath_double_extension_keeps_last() {
    let p = SrcPath::new(String::from("ball.tar.gz"));
    assert_eq!(p.filename(), "ball.tar.gz");
    assert_eq!(p.filename_no_ext(), "ball.tar");
    assert_eq!(p.ext(), ".gz");
}

#[test]
fn from_relaxed_path_canonicalizes_first() {
    let p = SrcPath::from_relaxed_path("docs/../images/pic.png", "/site");
    assert_eq!(p.as_text(), "/site/images/pic.png");
    assert_eq!(p.filename(), "pic.png");
    assert_eq!(p.ext(), ".png");
}
