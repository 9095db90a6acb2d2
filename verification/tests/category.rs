//! Categories and their totals.
use diskscope::category::{category_totals, extension_of, largest_in_category, Category};
use diskscope::path::EntryPath;
use diskscope::scan::Node;

fn file(name: &str, size: u64) -> Node {
    Node { name: name.into(), path: EntryPath::new(name), size, is_dir: false, children: Vec::new() }
}

fn dir(name: &str, children: Vec<Node>) -> Node {
    let size = children.iter().map(|c| c.size).sum();
    Node { name: name.into(), path: EntryPath::new(name), size, is_dir: true, children }
}

#[test]
fn classifies_by_extension_case_insensitively() {
    assert_eq!(Category::classify("Movie.MP4"), Category::Videos);
    assert_eq!(Category::classify("song.flac"), Category::Audio);
    assert_eq!(Category::classify("pic.JPEG"), Category::Images);
    assert_eq!(Category::classify("report.pdf"), Category::Documents);
    assert_eq!(Category::classify("backup.tar.gz"), Category::Archives);
    assert_eq!(Category::classify("main.rs"), Category::Code);
    assert_eq!(Category::classify("Inkscape.AppImage"), Category::Applications);
    assert_eq!(Category::classify("mystery.qwerty"), Category::Other);
}

#[test]
fn dotfiles_and_extensionless_are_other() {
    assert_eq!(Category::classify(".bashrc"), Category::Other);
    assert_eq!(Category::classify("Makefile"), Category::Other);
}

#[test]
fn totals_aggregate_across_the_tree_largest_first() {
    let tree = dir(
        "root",
        vec![
            file("a.mp4", 1000),
            dir("sub", vec![file("b.mkv", 500), file("c.mp3", 300)]),
            file("d.pdf", 200),
            file("notes", 50), // Other
        ],
    );

    let totals = category_totals(&tree);

    assert_eq!(totals[0], (Category::Videos, 1500)); // 1000 + 500
    assert_eq!(totals[1], (Category::Audio, 300));
    assert_eq!(totals[2], (Category::Documents, 200));
    assert_eq!(totals[3], (Category::Other, 50));
    assert_eq!(totals.len(), 4); // empty categories omitted
}

#[test]
fn largest_in_category_is_sorted_and_capped() {
    let tree = dir(
        "root",
        vec![
            file("small.mp4", 100),
            dir("sub", vec![file("huge.mp4", 9000), file("mid.mp4", 400)]),
            file("song.mp3", 5000), // different category
        ],
    );

    let top = largest_in_category(&tree, Category::Videos, 2);

    assert_eq!(top.len(), 2);
    assert_eq!(top[0].name, "huge.mp4");
    assert_eq!(top[1].name, "mid.mp4");
}

#[test]
fn extensions_follow_the_last_dot() {
    assert_eq!(extension_of("a.b.c"), Some("c"));
    assert_eq!(extension_of("trailing."), None);
    assert_eq!(extension_of(".hidden"), None);
    assert_eq!(extension_of(".hidden.txt"), Some("txt"));
    assert_eq!(extension_of("plain"), None);
    assert_eq!(extension_of(""), None);
    assert_eq!(extension_of("."), None);
    assert_eq!(extension_of("é.ogg"), Some("ogg"));
}

#[test]
fn extensions_are_compared_as_given() {
    assert_eq!(Category::from_extension("mp4"), Category::Videos);
    assert_eq!(Category::from_extension("MP4"), Category::Other);
    assert_eq!(Category::from_extension("ts"), Category::Videos);
    assert_eq!(Category::from_extension("kt"), Category::Code);
    assert_eq!(Category::from_extension("run"), Category::Applications);
    assert_eq!(Category::from_extension("cab"), Category::Archives);
    assert_eq!(Category::from_extension("tex"), Category::Documents);
    assert_eq!(Category::from_extension("psd"), Category::Images);
    assert_eq!(Category::from_extension("mid"), Category::Audio);
    assert_eq!(Category::from_extension(""), Category::Other);
}

#[test]
fn totals_make_up_the_size_of_the_tree() {
    let tree = dir("root", vec![file("a.mp4", 7), dir("s", vec![file("b.zip", 5), file("c", 3)]), file("d.mp4", 1)]);
    let sum: u64 = category_totals(&tree).iter().map(|t| t.1).sum();
    assert_eq!(sum, tree.size);
}

#[test]
fn equal_totals_are_ordered_by_label() {
    let tree = dir("root", vec![file("v.mp4", 5), file("a.mp3", 5), file("z.zip", 5), file("empty.rs", 0)]);
    let totals = category_totals(&tree);
    assert_eq!(totals, vec![(Category::Archives, 5), (Category::Audio, 5), (Category::Videos, 5)]);
}

#[test]
fn equally_large_files_are_ordered_by_name() {
    let tree = dir("root", vec![file("b.mp3", 5), file("a.mp3", 5), file("c.mp3", 9)]);
    let top: Vec<&str> =
        largest_in_category(&tree, Category::Audio, usize::MAX).iter().map(|n| n.name.as_str()).collect();
    assert_eq!(top, ["c.mp3", "a.mp3", "b.mp3"]);
    assert!(largest_in_category(&tree, Category::Code, 3).is_empty());
    assert!(largest_in_category(&tree, Category::Audio, 0).is_empty());
}

#[test]
fn every_category_has_a_label() {
    let labels: Vec<&str> = Category::ALL.iter().map(|c| c.label()).collect();
    assert_eq!(
        labels,
        ["Videos", "Audio", "Images", "Documents", "Archives", "Code", "Applications", "Other"]
    );
}
