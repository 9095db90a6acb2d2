//! Measuring, ticking and clearing.
use diskscope::clearing::{measure_spots, ClearReport};
use diskscope::dialogs::{
    batch_message, clears_for_good, confirm_clear, confirm_delete, confirm_selected, confirm_trash, delete_entry, delete_path,
    initial_target, progress_lines, removed_message, scan_message, terminal_folder, Deletion,
};
use diskscope::navigate::{is_folder_path, Screen};
use diskscope::path::EntryPath;
use diskscope::reclaim::{system_spots, ReclaimKind, Reclaimable};
use diskscope::scan::{EntryMeta, Listing, Node, ScanError, ScanProgress};
use diskscope::state::AppState;

fn p(text: &str) -> EntryPath {
    EntryPath::new(text)
}

fn item(label: &str, path: &str, size: u64, kind: ReclaimKind) -> Reclaimable {
    Reclaimable { label: label.into(), path: p(path), size, file_count: 3, kind }
}

fn dir(path: &str, children: Vec<Node>) -> Node {
    let size = children.iter().map(|c| c.size).sum();
    let name = path.rsplit('/').next().unwrap().to_string();
    Node { name, path: p(path), size, is_dir: true, children }
}

fn file(path: &str, size: u64) -> Node {
    let name = path.rsplit('/').next().unwrap().to_string();
    Node { name, path: p(path), size, is_dir: false, children: Vec::new() }
}

fn read(path: &str, is_dir: bool, len: u64, entries: Vec<Listing>) -> Listing {
    Listing { path: p(path), meta: EntryMeta { is_dir, is_file: !is_dir, nlink: 1, dev: 1, ino: 1, len }, entries }
}

/// A project with a build directory, and two files beside it.
fn project() -> AppState {
    let mut state = AppState::default();
    state.root = Some(dir(
        "/p",
        vec![
            dir("/p/node_modules", vec![file("/p/node_modules/a.js", 70)]),
            dir("/p/src", vec![file("/p/src/main.js", 20), file("/p/src/.tox", 0)]),
            file("/p/readme", 5),
        ],
    ));
    state.screen = Screen::Reclaim;
    state
}

#[test]
fn spots_are_measured_largest_first() {
    let spots = system_spots(&p("/h"), &[true, true]);
    let trash = read("/h/.local/share/Trash", true, 0, vec![read("/h/.local/share/Trash/old", false, 40, vec![])]);
    let caches = read(
        "/h/.cache",
        true,
        0,
        vec![
            read("/h/.cache/pip", true, 0, vec![read("/h/.cache/pip/w", false, 40, vec![])]),
            read("/h/.cache/vlc", true, 0, vec![read("/h/.cache/vlc/art", false, 90, vec![])]),
        ],
    );
    let contents = vec![Some(trash), Some(caches)];
    let entries = measure_spots(spots.into_iter().zip(contents).collect());
    let shown: Vec<(&str, u64)> = entries.iter().map(|r| (r.label.as_str(), r.size)).collect();
    // Equally large entries stay in the order of the spots.
    assert_eq!(shown, [("VLC cache", 90), ("Trash", 40), ("pip download cache", 40)]);
    assert!(measure_spots(Vec::new()).is_empty());
}

#[test]
fn measuring_takes_artifacts_from_the_tree() {
    let mut state = project();
    state.system = vec![item("stale", "/h/.cache/x", 1, ReclaimKind::Cache)];
    let generation = state.begin_measuring();
    assert!(state.system.is_empty());
    assert_eq!(state.artifacts.len(), 1);
    assert_eq!(state.artifacts[0].label, "Node.js packages");
    assert!(state.measuring_settled(generation, vec![item("pip", "/h/.cache/pip", 9, ReclaimKind::Cache)]));
    assert_eq!(state.system.len(), 1);
}

#[test]
fn late_measurements_are_dropped() {
    let mut state = project();
    let first = state.begin_measuring();
    let second = state.begin_measuring();
    assert!(!state.measuring_settled(first, vec![item("a", "/a", 1, ReclaimKind::Cache)]));
    state.go_home();
    assert!(!state.measuring_settled(second, vec![item("b", "/b", 1, ReclaimKind::Cache)]));
    assert!(state.system.is_empty());
}

#[test]
fn entries_are_found_by_path() {
    let mut state = project();
    state.begin_measuring();
    state.system = vec![item("pip", "/h/.cache/pip", 9, ReclaimKind::Cache)];
    assert_eq!(state.item_at(&p("/h/.cache//pip/")).unwrap().label, "pip");
    assert_eq!(state.item_at(&p("/p/node_modules")).unwrap().size, 70);
    assert!(state.item_at(&p("/p/src")).is_none());
}

#[test]
fn a_cleared_entry_leaves_the_tree_and_the_lists() {
    let mut state = project();
    state.begin_measuring();
    state.note_cleared(&p("/p/node_modules"));
    assert!(state.artifacts.is_empty());
    assert_eq!(state.root.as_ref().unwrap().size, 25);
    // A path outside the tree changes nothing there.
    state.system = vec![item("pip", "/h/.cache/pip", 9, ReclaimKind::Cache), item("vlc", "/h/.cache/vlc", 3, ReclaimKind::Cache)];
    state.note_cleared(&p("/h/.cache/pip"));
    assert_eq!(state.root.as_ref().unwrap().size, 25);
    assert_eq!(state.system.len(), 1);
    assert_eq!(state.system[0].label, "vlc");
}

#[test]
fn pruning_a_shown_row_keeps_the_folder() {
    let mut state = project();
    state.show_folder(vec![1]);
    state.prune(&p("/p/src/main.js"));
    let root = state.root.as_ref().unwrap();
    assert!(is_folder_path(root, &[1]));
    assert_eq!(root.children[1].children.len(), 1);
    assert_eq!(root.size, 75);
    assert_eq!(state.screen, Screen::Folder(vec![1]));
}

#[test]
fn batches_report_what_was_freed() {
    let mut state = project();
    state.begin_measuring();
    state.system = vec![item("pip", "/h/.cache/pip", 9, ReclaimKind::Cache), item("vlc", "/h/.cache/vlc", 3, ReclaimKind::Cache)];
    for path in ["/h/.cache/pip", "/h/.cache/vlc", "/p/node_modules"] {
        state.toggle_selected(&p(path), true);
    }
    let items = state.selected_items();
    assert_eq!(items.len(), 3);
    let report = state.clear_selected(&items, &[true, false, true]);
    assert_eq!(report, ClearReport { freed: 79, failed: 1 });
    assert_eq!(batch_message(items.len(), report), "Cleared 2 — 79 B freed; 1 couldn't be removed");
    assert_eq!(state.system.len(), 1);
    assert_eq!(state.system[0].label, "vlc");
    assert!(state.artifacts.is_empty());
    assert_eq!(state.root.as_ref().unwrap().size, 25);
    assert!(state.selected_items().is_empty());
    assert_eq!(batch_message(3, ClearReport { freed: 2048, failed: 0 }), "Cleared 3 — 2.0 KB freed");
}

#[test]
fn batch_questions_list_the_first_items() {
    assert!(confirm_selected(&[], true).is_none());
    let one = [item("pip", "/pip", 1024, ReclaimKind::Cache)];
    let q = confirm_selected(&one, false).unwrap();
    assert_eq!(q.heading, "Clear 1 selected item?");
    assert_eq!(
        q.body,
        "Frees 1.0 KB in total.\n\n• pip — 1.0 KB\n\nSelected items move to Trash (reversible); the Trash itself is emptied for good."
    );
    assert_eq!(q.confirm, "Move All to Trash");

    let many: Vec<Reclaimable> =
        (0..10).map(|i| item(&format!("c{i}"), &format!("/c{i}"), 1, ReclaimKind::Cache)).collect();
    let q = confirm_selected(&many, true).unwrap();
    assert_eq!(q.heading, "Clear 10 selected items?");
    assert_eq!(
        q.body,
        "Frees 10 B in total.\n\n• c0 — 1 B\n• c1 — 1 B\n• c2 — 1 B\n• c3 — 1 B\n• c4 — 1 B\n• c5 — 1 B\n• c6 — 1 B\n• c7 — 1 B\n• …and 2 more\n\nPermanently deletes the selected items now — this cannot be undone."
    );
    assert_eq!(q.confirm, "Delete All");
    assert!(!confirm_selected(&many[..8], true).unwrap().body.contains("more"));
}

#[test]
fn questions_show_the_blast_radius() {
    let modules = item("Node.js packages", "/p/node_modules", 2048, ReclaimKind::Artifact);
    let q = confirm_clear(&modules, false);
    assert_eq!(q.heading, "Move Node.js packages to Trash?");
    assert_eq!(
        q.body,
        "/p/node_modules\n\nFrees 2.0 KB across 3 files.\n\nWhat happens — Rebuilds: The project won't build or run until you reinstall dependencies (npm install / yarn / pnpm install) — needs internet.\n\nMoving to Trash is reversible; the space is freed once you empty the Trash."
    );
    assert_eq!(q.confirm, "Move to Trash");
    let q = confirm_clear(&modules, true);
    assert_eq!(q.heading, "Permanently delete Node.js packages?");
    assert!(q.body.ends_with("This frees the space now and cannot be undone."));
    assert_eq!(q.confirm, "Delete");
    // The Trash is always emptied for good.
    let q = confirm_clear(&item("Trash", "/h/.local/share/Trash", 1, ReclaimKind::Trash), false);
    assert_eq!(q.heading, "Empty the Trash?");
    assert_eq!(q.confirm, "Delete");
    assert!(clears_for_good(ReclaimKind::Trash, false));
    assert!(!clears_for_good(ReclaimKind::Cache, false));
    assert!(clears_for_good(ReclaimKind::Cache, true));
}

#[test]
fn removals_are_named_after_the_entry() {
    let q = confirm_trash(&p("/a/b.txt"));
    assert_eq!((q.heading.as_str(), q.body.as_str()), ("Move to Trash?", "“b.txt” will be moved to the Trash."));
    let q = confirm_delete(&p("/"));
    assert_eq!(q.heading, "Delete permanently?");
    assert_eq!(q.body, "“/” and everything inside it will be permanently deleted. This cannot be undone.");
    assert_eq!(removed_message(true), "Deleted — space freed");
    assert_eq!(removed_message(false), "Moved to Trash");
}

#[test]
fn delete_path_removes_files_and_trees_but_only_empties_trash() {
    // A whole directory tree → removed outright.
    assert_eq!(delete_path(&p("/t/node_modules"), true), Deletion::RemoveTree);
    // A single file → removed.
    assert_eq!(delete_path(&p("/t/blob"), false), Deletion::RemoveFile);
    // The Trash spot → emptied, but the Trash directory itself kept.
    assert_eq!(delete_path(&p("/t/Trash"), true), Deletion::EmptyDirectory);

    // A file of that name is a file like any other.
    assert_eq!(delete_path(&p("/t/Trash"), false), Deletion::RemoveFile);
    assert_eq!(delete_entry(true), Deletion::RemoveTree);
    assert_eq!(delete_entry(false), Deletion::RemoveFile);
}

#[test]
fn terminals_open_at_a_folder() {
    assert_eq!(terminal_folder(&p("/a/b"), true), p("/a/b"));
    assert_eq!(terminal_folder(&p("/a/b"), false), p("/a"));
    assert_eq!(terminal_folder(&p("/"), false), p("/"));
}

#[test]
fn scan_messages_tell_failure_from_cancelling() {
    assert_eq!(scan_message(ScanError::Interrupted, &p("/x"), "whatever"), "Scan cancelled");
    assert_eq!(scan_message(ScanError::Unreadable, &p("/x"), "denied"), "Couldn't scan /x: denied");
}

#[test]
fn progress_is_reported_in_words() {
    let mut progress = ScanProgress::new();
    assert_eq!(progress_lines(&progress), ("0 B · 0 items".to_string(), None));
    progress.enter(&p("/home/u"));
    for _ in 0..1234 {
        progress.record(1024);
    }
    assert_eq!(progress_lines(&progress), ("1.2 MB · 1,234 items".to_string(), Some("/home/u".to_string())));
}

#[test]
fn starts_with_the_folder_asked_for_or_the_home() {
    assert_eq!(initial_target(Some("/a".into()), Some("/h".into())), Some(p("/a")));
    assert_eq!(initial_target(None, Some("/h".into())), Some(p("/h")));
    assert_eq!(initial_target(None, None), None);
}
