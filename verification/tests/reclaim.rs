//! Reclaimable space.
use diskscope::path::EntryPath;
use diskscope::reclaim::{
    artifact_label, breakdown, cache_label, candidate_spots, consequence, consequence_for, count_files, find_artifacts,
    measure, system_spots, ReclaimKind, Reclaimable, Risk, SystemSpot,
};
use diskscope::scan::{EntryMeta, Listing, Node};

fn dir(name: &str, size: u64, children: Vec<Node>) -> Node {
    Node { name: name.into(), path: EntryPath::new(name), size, is_dir: true, children }
}

fn file(name: &str, size: u64) -> Node {
    Node { name: name.into(), path: EntryPath::new(name), size, is_dir: false, children: Vec::new() }
}

fn read(path: &str, is_dir: bool, len: u64, entries: Vec<Listing>) -> Listing {
    Listing {
        path: EntryPath::new(path),
        meta: EntryMeta { is_dir, is_file: !is_dir, nlink: 1, dev: 1, ino: 1, len },
        entries,
    }
}

fn spot(home: &str, kind: ReclaimKind) -> SystemSpot {
    system_spots(&EntryPath::new(home), &[true, true]).into_iter().find(|s| s.kind == kind).unwrap()
}

fn entry(label: &str, path: &str, kind: ReclaimKind) -> Reclaimable {
    Reclaimable { label: label.into(), path: EntryPath::new(path), size: 1, file_count: 1, kind }
}

#[test]
fn finds_unambiguous_artifacts_without_descending_into_them() {
    // node_modules (2 files) with a nested node_modules — counted once.
    let inner = dir(
        "node_modules",
        50,
        vec![file("a.js", 30), dir("node_modules", 20, vec![file("b.js", 20)])],
    );
    let proj = dir("proj", 150, vec![inner, dir("src", 100, vec![file("main.js", 100)])]);
    let root = dir("root", 150, vec![proj]);

    let found = find_artifacts(&root);
    assert_eq!(found.len(), 1, "nested node_modules counted via its parent only");
    assert_eq!(found[0].size, 50);
    assert_eq!(found[0].file_count, 2, "blast radius counts files recursively");
    assert_eq!(found[0].kind, ReclaimKind::Artifact);
}

#[test]
fn cache_spot_breaks_down_per_application() {
    let cache = "/home/u/.cache";
    let contents = read(
        cache,
        true,
        0,
        vec![
            read("/home/u/.cache/obscure-tool", true, 0, vec![read("/home/u/.cache/obscure-tool/blob", false, 100, vec![])]),
            read(
                "/home/u/.cache/google-chrome",
                true,
                0,
                vec![read(
                    "/home/u/.cache/google-chrome/Default",
                    true,
                    0,
                    vec![
                        read("/home/u/.cache/google-chrome/Default/big", false, 5000, vec![]),
                        read("/home/u/.cache/google-chrome/Default/small", false, 10, vec![]),
                    ],
                )],
            ),
        ],
    );

    let cache_spot = spot("/home/u", ReclaimKind::Cache);
    assert_eq!(cache_spot.path, EntryPath::new(cache));
    let entries = breakdown(&cache_spot, Some(contents));

    // One entry per app — never a single ~/.cache blob.
    assert_eq!(entries.len(), 2);
    // Largest first, with a friendly name and a real file count.
    assert_eq!(entries[0].label, "Google Chrome cache");
    assert_eq!(entries[0].file_count, 2);
    assert!(entries[0].path.ends_with(&EntryPath::new("google-chrome")));
    // Unknown apps keep their directory name so the user still recognises them.
    assert_eq!(entries[1].label, "obscure-tool");
    // Together they are the whole directory.
    assert_eq!(entries[0].size + entries[1].size, 5110);
    assert!(entries.iter().all(|e| e.path != EntryPath::new(cache)));
}

#[test]
fn consequence_explains_what_breaks_per_entry() {
    let chrome = entry("Google Chrome cache", "/h/.cache/google-chrome", ReclaimKind::Cache);
    let c = consequence(&chrome);
    assert_eq!(c.risk, Risk::Safe);
    assert!(c.summary.to_lowercase().contains("bookmarks"), "reassures logins/bookmarks kept");

    let modules = entry("Node.js packages", "/p/node_modules", ReclaimKind::Artifact);
    let c = consequence(&modules);
    assert_eq!(c.risk, Risk::Rebuild, "deleting deps breaks the build until reinstalled");
    assert!(c.summary.contains("install"));

    let unknown = entry("weird-app", "/h/.cache/weird-app", ReclaimKind::Cache);
    assert_eq!(consequence(&unknown).risk, Risk::Caution, "unknown caches warn the user");
}

#[test]
fn trash_spot_stays_a_single_entry() {
    let trash = spot("/home/u", ReclaimKind::Trash);
    let contents = read(
        "/home/u/.local/share/Trash",
        true,
        0,
        vec![read(
            "/home/u/.local/share/Trash/files",
            true,
            0,
            vec![read("/home/u/.local/share/Trash/files/x", false, 1, vec![])],
        )],
    );
    let entries = breakdown(&trash, Some(contents));
    assert_eq!(entries.len(), 1, "Trash is offered as one item");
    assert_eq!(entries[0].label, "Trash");
    assert_eq!((entries[0].size, entries[0].file_count), (1, 1));
}

#[test]
fn generic_names_need_a_marker_sibling() {
    // `target` beside Cargo.toml → Rust build; a lone `target` → not matched.
    let rust = dir("rust", 0, vec![file("Cargo.toml", 1), dir("target", 900, vec![])]);
    let plain = dir("notes", 0, vec![dir("target", 800, vec![])]);
    let root = dir("root", 0, vec![rust, plain]);

    let found = find_artifacts(&root);
    let paths: Vec<_> = found.iter().map(|r| r.path.to_string_lossy()).collect();
    assert!(paths.contains(&"target".to_string()), "Rust target should match");
    assert_eq!(found.len(), 1, "the unmarked `target` must not be flagged");
}

#[test]
fn system_spots_lists_only_existing_dirs() {
    let home = EntryPath::new("/home/u");
    // Nothing created yet → no spots.
    assert!(system_spots(&home, &[false, false]).is_empty());

    let candidates = candidate_spots(&home);
    assert_eq!(candidates[0].path, EntryPath::new("/home/u/.local/share/Trash"));
    assert_eq!(candidates[1].path, EntryPath::new("/home/u/.cache"));
    let spots = system_spots(&home, &[true, true]);
    let labels: Vec<_> = spots.iter().map(|s| s.label).collect();
    assert!(labels.contains(&"Trash"));
    assert!(labels.contains(&"Application caches"));

    let spots = system_spots(&home, &[false, true]);
    assert_eq!(spots.len(), 1);
    assert_eq!(spots[0].kind, ReclaimKind::Cache);
}

#[test]
fn measure_sums_a_real_directory() {
    let cache_spot = spot("/home/u", ReclaimKind::Cache);
    let contents = read("/home/u/.cache", true, 0, vec![read("/home/u/.cache/blob", false, 1234, vec![])]);
    let entry = measure(&cache_spot, Some(contents));
    assert_eq!(entry.size, 1234);
    assert_eq!(entry.label, "Application caches");
}

#[test]
fn unreadable_spots_measure_zero() {
    let trash = spot("/home/u", ReclaimKind::Trash);
    let entry = measure(&trash, None);
    assert_eq!((entry.size, entry.file_count), (0, 0));
    assert_eq!(breakdown(&trash, None).len(), 1);
    assert!(breakdown(&spot("/home/u", ReclaimKind::Cache), None).is_empty());
}

#[test]
fn files_are_counted_recursively() {
    assert_eq!(count_files(&file("f", 1)), 1);
    assert_eq!(count_files(&dir("d", 0, vec![])), 0);
    assert_eq!(count_files(&dir("d", 0, vec![file("a", 1), dir("e", 0, vec![file("b", 1), file("c", 1)])])), 3);
}

#[test]
fn caches_have_friendly_names() {
    assert_eq!(cache_label("tracker"), "File-search index");
    assert_eq!(cache_label("tracker3"), "File-search index");
    assert_eq!(cache_label("winetricks"), "Winetricks cache");
    assert_eq!(cache_label("gstreamer-1.0"), "GStreamer plugin cache");
    assert_eq!(cache_label("my-app"), "my-app");
}

#[test]
fn artifacts_are_recognised_by_name_and_siblings() {
    let package = [file("package.json", 1)];
    let cargo = [file("Cargo.toml", 1)];
    assert_eq!(artifact_label("node_modules", &[]), Some("Node.js packages"));
    assert_eq!(artifact_label(".parcel-cache", &[]), Some("Parcel cache"));
    assert_eq!(artifact_label("target", &cargo), Some("Rust build output"));
    assert_eq!(artifact_label("target", &package), None);
    assert_eq!(artifact_label("build", &package), Some("Build output"));
    assert_eq!(artifact_label("dist", &package), Some("Build output"));
    assert_eq!(artifact_label("dist", &cargo), None);
    assert_eq!(artifact_label("Documents", &cargo), None);
}

#[test]
fn files_with_an_artifact_name_are_no_artifacts() {
    let root = dir("root", 5, vec![file("node_modules", 5)]);
    assert!(find_artifacts(&root).is_empty());
}

#[test]
fn artifacts_come_largest_first_and_by_path_where_equal() {
    let root = dir(
        "root",
        30,
        vec![
            dir("b", 10, vec![Node { path: EntryPath::new("b/.tox"), ..dir(".tox", 10, vec![]) }]),
            dir("a", 10, vec![Node { path: EntryPath::new("a/.tox"), ..dir(".tox", 10, vec![]) }]),
            dir("c", 11, vec![Node { path: EntryPath::new("c/.next"), ..dir(".next", 11, vec![]) }]),
        ],
    );
    let paths: Vec<String> = find_artifacts(&root).iter().map(|r| r.path.to_string_lossy()).collect();
    assert_eq!(paths, ["c/.next", "a/.tox", "b/.tox"]);
}

#[test]
fn risks_have_badges() {
    assert_eq!(Risk::Safe.word(), "Safe");
    assert_eq!(Risk::Rebuild.word(), "Rebuilds");
    assert_eq!(Risk::Caution.word(), "Caution");
    for risk in [Risk::Safe, Risk::Rebuild, Risk::Caution] {
        assert!(!risk.word().is_empty() && !risk.word().contains(char::is_whitespace), "one word: {}", risk.word());
    }
}

#[test]
fn consequences_follow_kind_and_name() {
    assert_eq!(consequence_for(ReclaimKind::Trash, "anything").risk, Risk::Safe);
    assert_eq!(consequence_for(ReclaimKind::Cache, "pip").risk, Risk::Rebuild);
    assert_eq!(consequence_for(ReclaimKind::Cache, "target").risk, Risk::Caution);
    assert_eq!(
        consequence_for(ReclaimKind::Artifact, "target").summary,
        "The next `cargo build` recompiles from scratch — slower once, no downloads."
    );
    assert_eq!(consequence_for(ReclaimKind::Artifact, "unheard-of").summary, "Recreated by your build tooling.");
    assert_eq!(
        consequence_for(ReclaimKind::Cache, "thumbnails").summary,
        "Thumbnails regenerate automatically as you open folders; file managers are briefly slower the first time."
    );
    // A path that ends in no name is taken as one with an empty name.
    assert_eq!(consequence(&entry("x", "/", ReclaimKind::Cache)).risk, Risk::Caution);
}
