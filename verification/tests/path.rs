//! Paths and their components.
use std::path::Path;

use diskscope::path::EntryPath;
use diskscope::selection::Selection;

fn p(text: &str) -> EntryPath {
    EntryPath::new(text)
}

#[test]
fn spellings_of_one_path_are_equal() {
    assert_eq!(p("a/b"), p("a//b/"));
    assert_eq!(p("/a/./b"), p("/a/b"));
    assert_eq!(p("./a"), p("./a/."));
    assert_ne!(p("./a"), p("a"));
    assert_ne!(p("/a"), p("a"));
    assert_ne!(p("a/../b"), p("b"));
}

#[test]
fn prefixes_go_by_component() {
    assert!(p("/home/user").starts_with(&p("/home")));
    assert!(p("/home/user").starts_with(&p("/home/")));
    assert!(!p("/home/user").starts_with(&p("/ho")));
    assert!(p("/home/user").starts_with(&p("/")));
    assert!(p("a").starts_with(&p("")));
}

#[test]
fn suffixes_go_by_component() {
    assert!(p("/x/Trash").ends_with(&p("Trash")));
    assert!(p("/x/Trash/").ends_with(&p("Trash")));
    assert!(!p("/x/MyTrash").ends_with(&p("Trash")));
    assert!(!p("/x/Trash/files").ends_with(&p("Trash")));
    assert!(p("/x").ends_with(&p("/x")));
    assert!(!p("/y/x").ends_with(&p("/x")));
}

#[test]
fn file_names_are_last_components() {
    assert_eq!(p("/a/b.txt").file_name(), Some("b.txt".as_bytes()));
    assert_eq!(p("/a/b/").file_name(), Some("b".as_bytes()));
    assert_eq!(p("/").file_name(), None);
    assert_eq!(p("a/..").file_name(), None);
    assert_eq!(p("").file_name(), None);
}

#[test]
fn parents_drop_the_last_component() {
    assert_eq!(p("/a/b").parent().unwrap().as_bytes(), "/a".as_bytes());
    assert_eq!(p("/a").parent().unwrap().as_bytes(), "/".as_bytes());
    assert!(p("/").parent().is_none());
    assert!(p("").parent().is_none());
    assert!(p("a").parent().unwrap().is_empty());
}

#[test]
fn stripping_leaves_the_rest() {
    assert_eq!(p("/r/s/t").strip_prefix(&p("/r")).unwrap().to_string_lossy(), "s/t");
    assert!(p("/r").strip_prefix(&p("/r")).unwrap().is_empty());
    assert!(p("/r").strip_prefix(&p("/q")).is_none());
}

#[test]
fn joining_puts_a_separator_between() {
    assert_eq!(p("/h").join(".cache").to_string_lossy(), "/h/.cache");
    assert_eq!(p("/h/").join(".cache").to_string_lossy(), "/h/.cache");
    assert_eq!(p("").join(".cache").to_string_lossy(), ".cache");
    assert_eq!(p("/h").join("/etc").to_string_lossy(), "/etc");
}

#[test]
fn paths_agree_with_the_standard_library() {
    let samples = [
        "", "/", ".", "..", "a", "/a", "a/b", "a//b", "a/./b", "./a", "a/.", "a/..", "/a/b/c", "/a/b/", "//a", "a/b.c", "z", "/z",
        ".hidden", "a-b", "a/b-c", "a0/b", "...", "é/ü",
    ];
    for a in samples {
        let (x, sx) = (p(a), Path::new(a));
        assert_eq!(x.file_name(), sx.file_name().map(|n| n.as_encoded_bytes()), "file_name of {a:?}");
        assert_eq!(
            x.parent().map(|u| u.to_string_lossy()),
            sx.parent().map(|u| u.to_string_lossy().into_owned()),
            "parent of {a:?}"
        );
        for b in samples {
            let (y, sy) = (p(b), Path::new(b));
            assert_eq!(x == y, sx == sy, "{a:?} == {b:?}");
            assert_eq!(x.starts_with(&y), sx.starts_with(sy), "{a:?} starts with {b:?}");
            assert_eq!(x.ends_with(&y), sx.ends_with(sy), "{a:?} ends with {b:?}");
            assert_eq!(x.may_precede(&y), sx <= sy, "{a:?} <= {b:?}");
            assert_eq!(
                x.strip_prefix(&y).map(|r| r.to_string_lossy()),
                sx.strip_prefix(sy).ok().map(|r| r.to_string_lossy().into_owned()),
                "{a:?} without {b:?}"
            );
            assert_eq!(x.join(b).to_string_lossy(), sx.join(sy).to_string_lossy(), "{a:?} joined with {b:?}");
        }
    }
}

#[test]
fn selections_hold_paths_not_spellings() {
    let mut selection = Selection::new();
    assert!(!selection.contains(&p("/a")));
    selection.insert(&p("/a/"));
    selection.insert(&p("/b"));
    assert!(selection.contains(&p("/a")));
    selection.insert(&p("/a"));
    selection.remove(&p("//a"));
    assert!(!selection.contains(&p("/a")));
    assert!(selection.contains(&p("/b")));
    selection.clear();
    assert!(!selection.contains(&p("/b")));
}
