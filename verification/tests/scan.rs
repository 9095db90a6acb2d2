//! Scanning: from what a walk has read to the tree.
use diskscope::path::EntryPath;
use diskscope::scan::{
    can_scan, display_bytes, display_name, leaf_size, remove, scan, scan_cancellable, scan_reporting, scan_unless, search,
    unless_cancelled, visit, walk_threads, CancelFlag, EntryMeta, Listing, Node, ScanError, ScanProgress, SeenInodes, Visit,
};

fn meta(is_dir: bool, is_file: bool, nlink: u64, ino: u64, len: u64) -> EntryMeta {
    EntryMeta { is_dir, is_file, nlink, dev: 1, ino, len }
}

/// A file of exactly `len` bytes at `path`.
fn file_at(path: &str, len: u64) -> Listing {
    Listing { path: EntryPath::new(path), meta: meta(false, true, 1, 7, len), entries: Vec::new() }
}

/// A further name of the file with inode number `ino`.
fn link_at(path: &str, ino: u64, len: u64) -> Listing {
    Listing { path: EntryPath::new(path), meta: meta(false, true, 2, ino, len), entries: Vec::new() }
}

fn symlink_at(path: &str, len: u64) -> Listing {
    Listing { path: EntryPath::new(path), meta: meta(false, false, 1, 9, len), entries: Vec::new() }
}

fn dir_at(path: &str, entries: Vec<Listing>) -> Listing {
    Listing { path: EntryPath::new(path), meta: meta(true, false, 2, 3, 4096), entries }
}

/// Find a direct child by name, or panic with a helpful message.
fn child<'a>(node: &'a Node, name: &str) -> &'a Node {
    node.children
        .iter()
        .find(|c| c.name == name)
        .unwrap_or_else(|| panic!("expected child {name:?}, found {:?}", names(node)))
}

fn names(node: &Node) -> Vec<&str> {
    node.children.iter().map(|c| c.name.as_str()).collect()
}

/// The canonical fixture tree used by several tests:
///
/// ```text
/// root/
///   a.txt      100 B
///   big.bin   5000 B
///   .hidden     50 B
///   sub/
///     b.txt    300 B
///     c.txt    200 B
///   empty/
/// ```
fn fixture() -> Option<Listing> {
    Some(dir_at(
        "/root",
        vec![
            file_at("/root/a.txt", 100),
            file_at("/root/big.bin", 5000),
            file_at("/root/.hidden", 50),
            dir_at("/root/sub", vec![file_at("/root/sub/b.txt", 300), file_at("/root/sub/c.txt", 200)]),
            dir_at("/root/empty", Vec::new()),
        ],
    ))
}

#[test]
fn aggregates_sizes_recursively() {
    let tree = scan(fixture()).unwrap();

    assert!(tree.is_dir);
    // 100 + 5000 + 50 + (300 + 200) + 0
    assert_eq!(tree.size, 5650);
    assert_eq!(child(&tree, "sub").size, 500);
}

#[test]
fn children_sorted_largest_first() {
    let tree = scan(fixture()).unwrap();

    // big.bin (5000) > sub (500) > a.txt (100) > .hidden (50) > empty (0)
    assert_eq!(names(&tree), vec!["big.bin", "sub", "a.txt", ".hidden", "empty"]);
}

#[test]
fn hidden_files_are_counted() {
    let tree = scan(fixture()).unwrap();

    assert_eq!(child(&tree, ".hidden").size, 50);
}

#[test]
fn empty_directory_has_zero_size_and_no_children() {
    let tree = scan(fixture()).unwrap();
    let empty = child(&tree, "empty");

    assert!(empty.is_dir);
    assert_eq!(empty.size, 0);
    assert!(empty.children.is_empty());
}

#[test]
fn scanning_a_single_file_returns_a_leaf() {
    let node = scan(Some(file_at("/tmp/solo.dat", 1234))).unwrap();

    assert!(!node.is_dir);
    assert_eq!(node.size, 1234);
    assert_eq!(node.name, "solo.dat");
    assert!(node.children.is_empty());
}

#[test]
fn missing_path_is_an_error() {
    // Nothing can be read at "does-not-exist".
    assert!(scan(None).is_err());
    assert_eq!(scan(None), Err(ScanError::Unreadable));
}

#[test]
fn ties_break_by_name_for_stable_order() {
    let tree = scan(Some(dir_at(
        "/d",
        vec![file_at("/d/zebra.txt", 10), file_at("/d/apple.txt", 10), file_at("/d/mango.txt", 10)],
    )))
    .unwrap();

    // Equal sizes → alphabetical, deterministically.
    assert_eq!(names(&tree), vec!["apple.txt", "mango.txt", "zebra.txt"]);
}

#[test]
fn hardlinks_are_counted_once() {
    let tree = scan(Some(dir_at(
        "/d",
        vec![link_at("/d/original.bin", 42, 4000), link_at("/d/clone.bin", 42, 4000)],
    )))
    .unwrap();

    // The shared 4000 bytes are counted once, not 8000.
    assert_eq!(tree.size, 4000);

    // One link carries the real size; the other reports 0.
    let mut sizes: Vec<u64> = tree.children.iter().map(|c| c.size).collect();
    sizes.sort_unstable();
    assert_eq!(sizes, vec![0, 4000]);
}

#[test]
fn symlinks_are_not_followed() {
    let tree = scan(Some(dir_at(
        "/d",
        vec![dir_at("/d/real", vec![file_at("/d/real/payload.bin", 9000)]), symlink_at("/d/link", 7)],
    )))
    .unwrap();
    let link = child(&tree, "link");

    // The link must be a leaf, and must NOT inherit the 9000-byte payload.
    assert!(!link.is_dir);
    assert!(link.children.is_empty());
    assert!(link.size < 9000, "symlink size {} should not include target", link.size);

    // The real directory is still counted exactly once.
    assert_eq!(child(&tree, "real").size, 9000);
}

#[test]
fn links_on_different_devices_are_different_files() {
    let mut other = link_at("/d/b", 42, 30);
    other.meta.dev = 2;
    let tree = scan(Some(dir_at("/d", vec![link_at("/d/a", 42, 30), other]))).unwrap();
    assert_eq!(tree.size, 60);
}

#[test]
fn order_of_links_does_not_change_the_total() {
    let a = scan(Some(dir_at("/d", vec![link_at("/d/a", 5, 70), file_at("/d/c", 1), link_at("/d/b", 5, 70)])));
    let b = scan(Some(dir_at("/d", vec![file_at("/d/c", 1), link_at("/d/b", 5, 70), link_at("/d/a", 5, 70)])));
    assert_eq!(a.unwrap().size, 71);
    assert_eq!(b.unwrap().size, 71);
}

#[test]
fn leaf_sizes_remember_the_inodes() {
    let mut seen = SeenInodes::new();
    let shared = meta(false, true, 3, 11, 100);
    assert_eq!(leaf_size(&shared, &mut seen), 100);
    assert_eq!(leaf_size(&shared, &mut seen), 0);
    assert_eq!(leaf_size(&meta(false, true, 1, 11, 100), &mut seen), 100);
    assert_eq!(leaf_size(&meta(false, false, 3, 11, 5), &mut seen), 5);
    assert!(!seen.insert(1, 11));
    assert!(seen.insert(2, 11));
}

#[test]
fn a_cancelled_scan_is_interrupted() {
    let cancel = CancelFlag::new();
    assert!(!cancel.is_cancelled());
    assert!(scan_cancellable(fixture(), &cancel).is_ok());
    cancel.cancel();
    assert!(cancel.is_cancelled());
    assert_eq!(scan_cancellable(fixture(), &cancel), Err(ScanError::Interrupted));
    // Whether or not the root can be read.
    assert_eq!(scan_cancellable(None, &cancel), Err(ScanError::Interrupted));
    assert_eq!(scan_cancellable(None, &CancelFlag::new()), Err(ScanError::Unreadable));
}

#[test]
fn cancelling_any_clone_interrupts_the_scan() {
    let held = CancelFlag::default();
    let handed_out = held.clone();
    let other = CancelFlag::new();
    assert!(scan_cancellable(fixture(), &handed_out).is_ok());
    held.cancel();
    assert!(handed_out.is_cancelled());
    assert!(handed_out.clone().is_cancelled());
    assert_eq!(scan_cancellable(fixture(), &handed_out), Err(ScanError::Interrupted));
    // A flag of its own is not touched.
    assert!(!other.is_cancelled());
    assert_eq!(scan_cancellable(fixture(), &other), scan(fixture()));
}

#[test]
fn what_was_read_of_the_flag_decides() {
    let mut progress = ScanProgress::new();
    assert_eq!(scan_unless(fixture(), true, &mut progress), Err(ScanError::Interrupted));
    assert_eq!(scan_unless(None, true, &mut progress), Err(ScanError::Interrupted));
    assert_eq!(scan_unless(None, false, &mut progress), Err(ScanError::Unreadable));
    assert_eq!(progress.items(), 0);
    assert_eq!(scan_unless(fixture(), false, &mut progress), scan(fixture()));
    assert_eq!((progress.items(), progress.bytes()), (8, 5650));

    assert_eq!(unless_cancelled(scan(fixture()), true), Err(ScanError::Interrupted));
    assert_eq!(unless_cancelled(Err(ScanError::Unreadable), true), Err(ScanError::Interrupted));
    assert_eq!(unless_cancelled(Err(ScanError::Unreadable), false), Err(ScanError::Unreadable));
    assert_eq!(unless_cancelled(scan(fixture()), false), scan(fixture()));
}

#[test]
fn progress_counts_every_entry_and_byte() {
    let mut progress = ScanProgress::new();
    assert_eq!((progress.items(), progress.bytes()), (0, 0));
    assert!(progress.current().is_empty());

    let tree = scan_reporting(fixture(), &CancelFlag::new(), &mut progress).unwrap();

    // Eight entries: the root, five in it, two in sub.
    assert_eq!(progress.items(), 8);
    assert_eq!(progress.bytes(), tree.size);
    assert_eq!(progress.current().to_string_lossy(), "/root/empty");
}

#[test]
fn progress_stays_put_when_cancelled() {
    let mut progress = ScanProgress::default();
    let cancel = CancelFlag::new();
    cancel.cancel();
    assert!(scan_reporting(fixture(), &cancel, &mut progress).is_err());
    assert_eq!(progress.items(), 0);
}

#[test]
fn progress_records_step_by_step() {
    let mut progress = ScanProgress::new();
    progress.enter(&EntryPath::new("/d"));
    progress.record(0);
    progress.record(12);
    assert_eq!((progress.items(), progress.bytes()), (2, 12));
    assert_eq!(progress.current().to_string_lossy(), "/d");
}

#[test]
fn names_are_the_last_component_or_the_whole_path() {
    assert_eq!(display_name(&EntryPath::new("/home/u/Videos")), "Videos");
    assert_eq!(display_name(&EntryPath::new("/")), "/");
    assert_eq!(display_name(&EntryPath::new("a/..")), "a/..");
    assert_eq!(display_bytes(&EntryPath::new("/home/u/")), "u".as_bytes());
    // What is not UTF-8 is shown with replacement characters.
    assert_eq!(display_name(&EntryPath::from_bytes(vec![b'/', b'x', 0xff])), "x\u{fffd}");
}

#[test]
fn a_second_removal_finds_nothing() {
    let mut tree = scan(fixture()).unwrap();
    assert_eq!(remove(&mut tree, &EntryPath::new("/root/sub/b.txt")), Some(300));
    let left = tree.clone();
    assert_eq!(remove(&mut tree, &EntryPath::new("/root/sub/b.txt")), None);
    assert_eq!(tree, left);
}

#[test]
fn searching_for_nothing_finds_nothing() {
    let tree = scan(fixture()).unwrap();
    assert!(search(&tree, "", 0).is_empty());
    assert!(search(&scan(Some(file_at("/f", 1))).unwrap(), "", 0).is_empty());
}

#[test]
fn raising_the_floor_of_a_search_filters_its_results() {
    let tree = scan(fixture()).unwrap();
    let all = search(&tree, ".", 0);
    let names: Vec<&str> = all.iter().map(|n| n.name.as_str()).collect();
    assert_eq!(names, ["big.bin", "b.txt", "c.txt", "a.txt", ".hidden"]);
    for floor in [0, 50, 51, 100, 200, 300, 5000, 5001] {
        let large: Vec<&Node> = all.iter().copied().filter(|n| n.size >= floor).collect();
        assert_eq!(search(&tree, ".", floor), large);
    }
    // The text is looked for in one piece, at the start and at the end too.
    let found = |needle: &str| search(&tree, needle, 0).iter().map(|n| n.name.clone()).collect::<Vec<String>>();
    assert_eq!(found("BIG"), ["big.bin"]);
    assert_eq!(found("n.bin"), Vec::<String>::new());
    assert_eq!(found(".bin"), ["big.bin"]);
    assert_eq!(found("big.bin"), ["big.bin"]);
    assert_eq!(found("big.bins"), Vec::<String>::new());
}

fn dir(name: &str, children: Vec<Node>) -> Node {
    let size = children.iter().map(|c| c.size).sum();
    Node { name: name.into(), path: EntryPath::new(name), size, is_dir: true, children }
}

fn file(name: &str, size: u64) -> Node {
    Node { name: name.into(), path: EntryPath::new(name), size, is_dir: false, children: Vec::new() }
}

#[test]
fn remove_prunes_and_decrements_every_ancestor() {
    // root(150) → proj(150) → [ big.bin(100), src(50) → main.rs(50) ]
    let mut root = dir(
        "root",
        vec![dir(
            "proj",
            vec![file("proj/big.bin", 100), dir("proj/src", vec![file("proj/src/main.rs", 50)])],
        )],
    );
    assert_eq!(root.size, 150);

    // Removing a nested file reports the bytes freed and shrinks every
    // ancestor by exactly that much — no rescan involved.
    assert_eq!(remove(&mut root, &EntryPath::new("proj/big.bin")), Some(100));
    assert_eq!(root.size, 50);
    assert_eq!(root.children[0].size, 50, "proj total drops by the freed file");
    assert_eq!(root.children[0].children.len(), 1, "the file node is gone");

    // A path outside the tree is a no-op, and the tree is left intact.
    assert_eq!(remove(&mut root, &EntryPath::new("elsewhere")), None);
    assert_eq!(root.size, 50);

    // A directory target is removed whole (its full recursive size frees).
    assert_eq!(remove(&mut root, &EntryPath::new("proj/src")), Some(50));
    assert_eq!(root.size, 0);
    assert!(root.children[0].children.is_empty(), "proj is now empty");
}

#[test]
fn search_matches_by_name_and_size_largest_first() {
    let root = dir(
        "root",
        vec![
            dir("node_modules", vec![file("dep.js", 800)]),
            dir("Downloads", vec![file("ubuntu.iso", 5000), file("notes.txt", 5)]),
        ],
    );

    // Case-insensitive substring over the whole tree, largest-first.
    let hits = search(&root, "ISO", 0);
    let names: Vec<&str> = hits.iter().map(|n| n.name.as_str()).collect();
    assert_eq!(names, ["ubuntu.iso"], "matches the .iso file by substring");

    // A directory matches too (reporting its recursive size).
    let hits = search(&root, "node", 0);
    assert_eq!(hits.len(), 1);
    assert_eq!(hits[0].name, "node_modules");
    assert_eq!(hits[0].size, 800);

    // The size floor filters out small matches: "u" is in both ubuntu.iso
    // (5000) and node_modules' subtree, but only the big one clears 1000.
    let hits = search(&root, "u", 1000);
    assert_eq!(hits.len(), 1);
    assert_eq!(hits[0].name, "ubuntu.iso");

    // An empty needle matches nothing; the root itself is never a hit.
    assert!(search(&root, "", 0).is_empty());
    assert!(search(&root, "root", 0).is_empty());
}

#[test]
fn search_folds_case_beyond_ascii() {
    let root = dir("root", vec![file("STRASSE-ÄÖ.txt", 1), file("zebra.txt", 2)]);
    let hits = search(&root, "äö", 0);
    assert_eq!(hits.len(), 1);
    assert_eq!(hits[0].size, 1);
}

#[test]
fn removal_leaves_the_other_files_in_order() {
    let mut root = dir("r", vec![file("r/a", 3), file("r/b", 2), file("r/c", 1)]);
    assert_eq!(remove(&mut root, &EntryPath::new("r/b")), Some(2));
    let left: Vec<&str> = root.children.iter().map(|c| c.name.as_str()).collect();
    assert_eq!(left, ["r/a", "r/c"]);
    assert_eq!(root.size, 4);
}

#[test]
fn a_copy_of_a_tree_is_equal_to_it() {
    let tree = scan(fixture()).unwrap();
    assert_eq!(tree.clone(), tree);
}

#[test]
fn walks_step_through_leaves_and_directories_until_cancelled() {
    let mut seen = SeenInodes::new();
    let mut progress = ScanProgress::new();
    let dir = meta(true, false, 2, 3, 4096);
    let linked = meta(false, true, 2, 5, 70);

    // A directory is entered and counts for nothing itself.
    assert_eq!(visit(&EntryPath::new("/d"), &dir, false, &mut seen, &mut progress), Visit::Enter);
    assert_eq!((progress.items(), progress.bytes()), (1, 0));
    // A leaf is counted, every file once, and leaves the current directory as it is.
    assert_eq!(visit(&EntryPath::new("/d/a"), &linked, false, &mut seen, &mut progress), Visit::Leaf { size: 70 });
    assert_eq!(visit(&EntryPath::new("/d/b"), &linked, false, &mut seen, &mut progress), Visit::Leaf { size: 0 });
    assert_eq!((progress.items(), progress.bytes()), (3, 70));
    assert_eq!(progress.current().to_string_lossy(), "/d");

    // A cancelled walk neither counts nor records anything.
    let fresh = meta(false, true, 2, 6, 8);
    assert_eq!(visit(&EntryPath::new("/e"), &dir, true, &mut seen, &mut progress), Visit::Stop);
    assert_eq!(visit(&EntryPath::new("/e/c"), &fresh, true, &mut seen, &mut progress), Visit::Stop);
    assert_eq!((progress.items(), progress.bytes()), (3, 70));
    assert_eq!(progress.current().to_string_lossy(), "/d");
    assert!(seen.insert(1, 6));
}

#[test]
fn walks_use_a_handful_of_threads() {
    assert_eq!(walk_threads(None), 4);
    assert_eq!(walk_threads(Some(0)), 1);
    assert_eq!(walk_threads(Some(6)), 6);
    assert_eq!(walk_threads(Some(64)), 8);
}

#[test]
fn totals_beyond_64_bits_cannot_be_scanned() {
    assert!(can_scan(&fixture().unwrap()));
    assert!(can_scan(&file_at("/f", u64::MAX)));
    assert!(!can_scan(&dir_at("/d", vec![file_at("/d/a", u64::MAX), file_at("/d/b", 1)])));
    // Two names of one file count once.
    assert!(can_scan(&dir_at("/d", vec![link_at("/d/a", 4, u64::MAX), link_at("/d/b", 4, u64::MAX)])));
}
