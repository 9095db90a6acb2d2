//! Pages and their rows.
use diskscope::category::Category;
use diskscope::disk::DiskUsage;
use diskscope::pages::{
    breadcrumb, category_page, folder_page, overview_page, reclaim_page, reclaimable_total, results_page, search_page,
    selection_bar, total_bytes,
};
use diskscope::path::EntryPath;
use diskscope::reclaim::{ReclaimKind, Reclaimable, Risk};
use diskscope::rows::{
    category_css_class, category_icon, category_row, file_location, file_menu, files_phrase, reclaim_icon, reclaim_row,
    risk_class, RowAction,
};
use diskscope::scan::Node;
use diskscope::state::AppState;

fn p(text: &str) -> EntryPath {
    EntryPath::new(text)
}

fn node(name: &str, size: u64, is_dir: bool) -> Node {
    Node { name: name.into(), path: p(name), size, is_dir, children: Vec::new() }
}

fn dir(path: &str, children: Vec<Node>) -> Node {
    let size = children.iter().map(|c| c.size).sum();
    let name = path.rsplit('/').next().unwrap().to_string();
    Node { name, path: p(path), size, is_dir: true, children }
}

fn file(path: &str, size: u64) -> Node {
    let name = path.rsplit('/').next().unwrap().to_string();
    Node { name, path: p(path), size, is_dir: false, children: Vec::new() }
}

fn check_rendered_rows() {
    let mut root = node("root", 0, true);
    root.children = vec![node("big", 900, true), node("small", 100, false)];
    root.size = 1000;

    let page = folder_page(&root, &[]);
    assert_eq!(page.rows.len(), 2, "one row per child");
    assert!(page.note.is_none());
    assert!(page.rows[0].opens, "directory drills in");
    assert!(!page.rows[1].opens, "file does not");

    // A category row always opens the category.
    let cat = category_row(Category::Videos, 500);
    assert_eq!((cat.category, cat.bytes), (Category::Videos, 500));

    // Empty directory → single placeholder.
    let page = folder_page(&node("empty", 0, true), &[]);
    assert_eq!(page.rows.len(), 0);
    assert_eq!(page.note.as_deref(), Some("This folder is empty."));
    assert_eq!(page.total, 1);
}

#[test]
fn ui_renders_rows_from_a_scanned_tree() {
    check_rendered_rows();
}

#[test]
fn mod_renders_rows_from_a_scanned_tree() {
    check_rendered_rows();
}

#[test]
fn folder_pages_show_where_they_are() {
    let root = dir("/r", vec![dir("/r/sub", vec![file("/r/sub/leaf", 2048)]), file("/r/other", 5)]);
    let page = folder_page(&root, &[0]);
    assert_eq!((page.title.as_str(), page.subtitle.as_str(), page.total), ("sub", "/r/sub", 2048));
    let row = &page.rows[0];
    assert_eq!((row.icon, row.name.as_str(), row.size.as_str()), ("text-x-generic-symbolic", "leaf", "2.0 KB"));
    assert_eq!(row.tooltip, "/r/sub/leaf");
    assert!(row.location.is_none());
    assert_eq!(folder_page(&root, &[]).rows[0].icon, "folder-symbolic");

    let crumbs = breadcrumb(&root, &[0, 0]);
    let labels: Vec<(&str, bool)> = crumbs.iter().map(|c| (c.label.as_str(), c.current)).collect();
    assert_eq!(labels, [("r", false), ("sub", false), ("leaf", true)]);
    assert_eq!(breadcrumb(&root, &[]).len(), 1);
}

#[test]
fn locations_are_relative_to_the_root() {
    assert_eq!(file_location(&p("/home/u"), &p("/home/u/Videos/trip/a.mp4")), "u/Videos/trip");
    assert_eq!(file_location(&p("/home/u"), &p("/home/u/a.mp4")), "u");
    assert_eq!(file_location(&p("/home/u"), &p("/etc/passwd")), "/etc");
    assert_eq!(file_location(&p("/"), &p("/etc/passwd")), "//etc");
    assert_eq!(file_location(&p("/x"), &p("/")), "/");
}

#[test]
fn category_pages_list_the_largest() {
    let root = dir("/r", vec![file("/r/a.mp4", 3), dir("/r/s", vec![file("/r/s/b.mp4", 4096)]), file("/r/c.mp3", 9)]);
    let page = category_page(&root, Category::Videos);
    assert_eq!((page.title.as_str(), page.subtitle.as_str(), page.total), ("Videos", "4.0 KB", 4099));
    assert_eq!(page.rows[0].name, "b.mp4");
    assert_eq!(page.rows[0].location.as_deref(), Some("r/s"));
    assert!(page.note.is_none());

    let page = category_page(&root, Category::Code);
    assert_eq!(page.note.as_deref(), Some("No code found."));
    assert_eq!((page.subtitle.as_str(), page.total), ("1 B", 1));

    let many: Vec<Node> = (0..103).map(|i| file(&format!("/r/{i}.mp3"), i)).collect();
    let page = category_page(&dir("/r", many), Category::Audio);
    assert_eq!(page.rows.len(), 100);
    assert_eq!(page.note.as_deref(), Some("…and 3 more files"));
}

#[test]
fn search_pages_prompt_find_and_miss() {
    let root = dir("/r", vec![dir("/r/node", vec![file("/r/node/node.js", 1024)]), file("/r/x", 1)]);
    let page = search_page(&root, "", 0).unwrap();
    assert_eq!(page.note.as_deref(), Some("Type to search this folder by name."));
    assert_eq!((page.title.as_str(), page.subtitle.as_str()), ("Search", ""));

    let page = search_page(&root, "NODE", 0).unwrap();
    assert_eq!(page.title, "2 results");
    assert_eq!(page.subtitle, "“NODE” · 2.0 KB");
    assert_eq!(page.rows[0].path, p("/r/node"));
    assert!(page.rows[0].opens);
    assert_eq!(page.rows[1].location.as_deref(), Some("r/node"));

    let page = search_page(&root, "zzz", 0).unwrap();
    assert_eq!(page.title, "0 results");
    assert_eq!(page.note.as_deref(), Some("No matches for “zzz”."));
    assert_eq!(search_page(&root, "x", 0).unwrap().title, "1 result");
    assert_eq!(search_page(&root, "node", 2000).unwrap().title, "0 results");

    let many: Vec<Node> = (0..205).map(|i| file(&format!("/r/f{i}"), 1)).collect();
    let page = search_page(&dir("/r", many), "f", 0).unwrap();
    assert_eq!(page.rows.len(), 200);
    assert_eq!(page.note.as_deref(), Some("…and 5 more matches"));
}

#[test]
fn results_too_large_to_add_up_are_reported() {
    let a = file("/r/aa", u64::MAX);
    let b = file("/r/ab", 1);
    assert_eq!(total_bytes(&[&a]), Some(u64::MAX));
    assert_eq!(total_bytes(&[&a, &b]), None);
    let root = Node { name: "r".into(), path: p("/r"), size: 0, is_dir: true, children: vec![a, b] };
    assert!(search_page(&root, "a", 0).is_none());
    assert_eq!(results_page(&root, "b", &[&root.children[1]]).title, "1 result");
}

#[test]
fn overview_shows_totals_and_capacity() {
    let root = dir("/home/u", vec![file("/home/u/a.mp4", 1024), file("/home/u/b.rs", 512)]);
    let usage = DiskUsage { total: 4096, available: 1024 };
    let page = overview_page(&root, Some(usage));
    assert_eq!((page.used, page.used_text.as_str()), (1536, "1.5 KB"));
    assert_eq!(page.capacity, Some(usage));
    assert_eq!(page.caption, "1.0 KB free of 4.0 KB");
    assert_eq!(page.subtitle, "/home/u");
    let rows: Vec<(&str, &str, &str, &str)> =
        page.rows.iter().map(|r| (r.name, r.icon, r.class, r.size.as_str())).collect();
    assert_eq!(
        rows,
        [
            ("Videos", "video-x-generic-symbolic", "cat-videos", "1.0 KB"),
            ("Code", "text-x-script-symbolic", "cat-code", "512 B"),
        ]
    );
    assert!(page.note.is_none());

    let page = overview_page(&dir("/e", vec![]), Some(DiskUsage { total: 0, available: 0 }));
    assert_eq!(page.capacity, None);
    assert_eq!(page.caption, "Disk capacity unavailable");
    assert_eq!(page.note.as_deref(), Some("Nothing to show — this folder is empty."));
    assert_eq!(overview_page(&root, None).caption, "Disk capacity unavailable");
}

fn item(kind: ReclaimKind, path: &str, size: u64) -> Reclaimable {
    Reclaimable { label: "Node.js packages".into(), path: p(path), size, file_count: 42, kind }
}

#[test]
fn reclaim_row_clear_actions_dispatch() {
    // An artifact in trash-default mode: the row resolves both removal modes.
    let item = Reclaimable {
        label: "Node.js packages".into(),
        path: p("/p/node_modules"),
        size: 100,
        file_count: 42,
        kind: ReclaimKind::Artifact,
    };
    let row = reclaim_row(&item, false, false);
    let action = |name: &str| row.menu.iter().map(|m| m.action).find(|a| a.name() == name);
    assert_eq!(action("trash"), Some(RowAction::Trash));
    assert_eq!(action("delete"), Some(RowAction::Delete));
}

#[test]
fn reclaim_rows_follow_the_mode() {
    let row = reclaim_row(&item(ReclaimKind::Artifact, "/p/node_modules", 100), false, true);
    assert!(row.selected);
    assert_eq!((row.primary, row.button_icon, row.button_tooltip), (RowAction::Trash, "user-trash-symbolic", "Move to Trash"));
    assert!(!row.destructive);
    assert_eq!((row.icon, row.risk, row.risk_class), ("folder-symbolic", "Rebuilds", "risk-rebuild"));
    assert_eq!((row.size.as_str(), row.count.as_str(), row.tooltip.as_str()), ("100 B", "42 files", "/p/node_modules"));
    assert!(row.summary.contains("reinstall"));

    let row = reclaim_row(&item(ReclaimKind::Cache, "/h/.cache/pip", 1), true, false);
    assert_eq!((row.primary, row.button_icon, row.button_tooltip), (RowAction::Delete, "edit-delete-symbolic", "Delete permanently"));
    assert!(row.destructive);

    let row = reclaim_row(&item(ReclaimKind::Trash, "/h/Trash", 1), false, false);
    assert_eq!((row.primary, row.button_icon), (RowAction::Delete, "user-trash-symbolic"));
    assert_eq!(row.button_tooltip, "Empty (delete permanently)");
    let labels: Vec<&str> = row.menu.iter().map(|m| m.label).collect();
    assert_eq!(labels, ["Open", "Open Containing Folder", "Copy Full Path", "Move to Trash", "Empty Trash"]);
}

#[test]
fn file_menus_offer_the_trash_last() {
    let labels: Vec<(&str, &str)> = file_menu().iter().map(|m| (m.label, m.action.name())).collect();
    assert_eq!(
        labels,
        [
            ("Open", "open"),
            ("Open Containing Folder", "reveal"),
            ("Open Terminal Here", "terminal"),
            ("Copy Full Path", "copy-path"),
            ("Move to Trash", "trash"),
        ]
    );
    assert_eq!(RowAction::ALL.len(), 6);
}

#[test]
fn reclaim_pages_total_and_tick() {
    let mut state = AppState::default();
    let page = reclaim_page(&state, false);
    assert_eq!(page.note.as_deref(), Some("Nothing to reclaim — you're all clean."));
    assert_eq!(page.total, "0 B");
    assert!(selection_bar(&state).is_none());

    state.system = vec![item(ReclaimKind::Cache, "/h/.cache/pip", 1024)];
    state.artifacts = vec![item(ReclaimKind::Artifact, "/p/target", 512), item(ReclaimKind::Artifact, "/q/target", 512)];
    state.toggle_selected(&p("/p/target"), true);
    state.toggle_selected(&p("/h/.cache/pip"), true);
    state.toggle_selected(&p("/gone"), true);
    let page = reclaim_page(&state, state.reclaim_perm_delete);
    assert_eq!(page.total, "2.0 KB");
    assert!(page.note.is_none());
    assert_eq!(page.system.len(), 1);
    let ticked: Vec<bool> = page.artifacts.iter().map(|r| r.selected).collect();
    assert_eq!(ticked, [true, false]);
    let bar = selection_bar(&state).unwrap();
    assert_eq!((bar.label.as_str(), bar.clear.as_str()), ("2 selected · 1.5 KB", "Move to Trash (2)"));
    state.set_permanent(true);
    assert_eq!(selection_bar(&state).unwrap().clear, "Delete (2)");
    assert_eq!(reclaimable_total(&state), Some(2048));
    state.system[0].size = u64::MAX;
    assert_eq!(reclaimable_total(&state), None);
}

#[test]
fn counts_are_grammatical() {
    assert_eq!(files_phrase(1), "1 file");
    assert_eq!(files_phrase(0), "0 files");
    assert_eq!(files_phrase(1234), "1,234 files");
}

#[test]
fn icons_and_classes() {
    assert_eq!(reclaim_icon(ReclaimKind::Trash), "user-trash-full-symbolic");
    assert_eq!(reclaim_icon(ReclaimKind::Cache), "folder-download-symbolic");
    assert_eq!(risk_class(Risk::Safe), "risk-safe");
    assert_eq!(risk_class(Risk::Caution), "risk-caution");
    assert_eq!(category_icon(Category::Other), "application-x-generic-symbolic");
    assert_eq!(category_css_class(Category::Archives), "cat-archives");
}
