use quark::fs::FsImageMounter;
use quark::path::{Clean, IsAbs, Join};

#[test]
fn clean_matches_lexical_rules() {
    let cases = [
        ("", "."),
        ("abc", "abc"),
        ("abc/def", "abc/def"),
        ("a/b/c", "a/b/c"),
        (".", "."),
        ("..", ".."),
        ("../..", "../.."),
        ("../../abc", "../../abc"),
        ("/abc", "/abc"),
        ("/", "/"),
        ("abc/", "abc"),
        ("abc/def/", "abc/def"),
        ("/abc/", "/abc"),
        ("abc//def//ghi", "abc/def/ghi"),
        ("//abc", "/abc"),
        ("///abc", "/abc"),
        ("//abc//", "/abc"),
        ("abc//", "abc"),
        ("abc/./def", "abc/def"),
        ("/./abc/def", "/abc/def"),
        ("abc/.", "abc"),
        ("abc/def/ghi/../jkl", "abc/def/jkl"),
        ("abc/def/../ghi/../jkl", "abc/jkl"),
        ("abc/def/..", "abc"),
        ("abc/def/../..", "."),
        ("/abc/def/../..", "/"),
        ("abc/def/../../..", ".."),
        ("/abc/def/../../..", "/"),
        ("abc/def/../../../ghi/jkl/../../../mno", "../../mno"),
        ("abc/./../def", "def"),
        ("abc//./../def", "def"),
        ("abc/../../././../def", "../../def"),
    ];
    for (input, want) in cases.iter() {
        assert_eq!(Clean(input), *want, "Clean({:?})", input);
    }
}

#[test]
fn clean_of_clean_path_is_unchanged() {
    for input in ["", "/", ".", "..", "a//b/./../c/", "/../x/", "../../y/z/.."] {
        let once = Clean(input);
        assert_eq!(Clean(&once), once, "Clean(Clean({:?}))", input);
    }
}

#[test]
fn join_cleans_and_skips_empty_parts() {
    assert_eq!(Join("", ""), "");
    assert_eq!(Join("a", ""), "a");
    assert_eq!(Join("", "b"), "b");
    assert_eq!(Join("a", "b"), "a/b");
    assert_eq!(Join("a/", "b"), "a/b");
    assert_eq!(Join("/var/lib/quark/", "sb"), "/var/lib/quark/sb");
    assert_eq!(Join("/a/b", "../c"), "/a/c");
    assert_eq!(Join("/a", "/b"), "/a/b");
    assert_eq!(Join("a/", ""), "a");
}

#[test]
fn is_abs_checks_leading_slash() {
    assert!(IsAbs("/"));
    assert!(IsAbs("/abc"));
    assert!(!IsAbs(""));
    assert!(!IsAbs("abc"));
    assert!(!IsAbs("./abc"));
}

#[test]
fn sandbox_root_under_default_path() {
    let m = FsImageMounter::New("sandbox1");
    assert_eq!(m.rootPath, "/var/lib/quark/");
    assert_eq!(m.sandboxId, "sandbox1");
    assert_eq!(m.sandboxRoot(), "/var/lib/quark/sandbox1");
}

#[test]
fn sandbox_root_under_given_path() {
    let m = FsImageMounter::NewWithRootPath("sb", "/tmp/root//x/..");
    assert_eq!(m.rootPath, "/tmp/root//x/..");
    assert_eq!(m.sandboxRoot(), "/tmp/root/sb");
}
