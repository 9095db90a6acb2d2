//! Screens, drill-down paths and the events that change them.
use diskscope::category::Category;
use diskscope::navigate::{folder_node, is_folder_path, locate, path_prefix, size_threshold, Screen};
use diskscope::path::EntryPath;
use diskscope::reclaim::{ReclaimKind, Reclaimable};
use diskscope::scan::{Node, ScanError};
use diskscope::state::{AppState, CancelClick, Restore, SettledScan};

fn node(name: &str, size: u64, is_dir: bool) -> Node {
    Node { name: name.into(), path: EntryPath::new(name), size, is_dir, children: Vec::new() }
}

fn fixture() -> Node {
    let mut root = node("/r", 15, true);
    let mut sub = node("/r/sub", 10, true);
    sub.children = vec![node("/r/sub/leaf", 10, false)];
    root.children = vec![sub, node("/r/other", 5, false)];
    root
}

fn shown(tree: Node, screen: Screen) -> AppState {
    let mut state = AppState::default();
    state.root = Some(tree);
    state.screen = screen;
    state
}

fn check_locate() {
    let mut root = node("/r", 0, true);
    let mut sub = node("/r/sub", 0, true);
    sub.children = vec![node("/r/sub/leaf", 10, false)];
    root.children = vec![sub, node("/r/other", 5, false)];

    assert_eq!(locate(&root, &EntryPath::new("/r")), Some(vec![]));
    assert_eq!(locate(&root, &EntryPath::new("/r/sub")), Some(vec![0]));
    assert_eq!(locate(&root, &EntryPath::new("/r/sub/leaf")), Some(vec![0, 0]));
    assert_eq!(locate(&root, &EntryPath::new("/r/nope")), None);
}

#[test]
fn ui_locate_finds_and_misses_paths() {
    check_locate();
}

#[test]
fn mod_locate_finds_and_misses_paths() {
    check_locate();
}

#[test]
fn located_folders_lead_back() {
    let root = fixture();
    for path in [vec![], vec![0], vec![0, 0], vec![1]] {
        assert!(is_folder_path(&root, &path));
        let target = folder_node(&root, &path).path.clone();
        assert_eq!(locate(&root, &target), Some(path));
    }
    assert!(!is_folder_path(&root, &[2]));
    assert!(!is_folder_path(&root, &[0, 1]));
}

#[test]
fn removed_entries_cannot_be_located() {
    let mut root = fixture();
    let target = EntryPath::new("/r/sub/leaf");
    assert_eq!(diskscope::scan::remove(&mut root, &target), Some(10));
    assert_eq!(locate(&root, &target), None);
    assert_eq!(locate(&root, &EntryPath::new("/r/sub")), Some(vec![0]));
}

#[test]
fn size_thresholds_follow_the_dropdown() {
    assert_eq!(size_threshold(0), 0);
    assert_eq!(size_threshold(1), 1 << 20);
    assert_eq!(size_threshold(2), 10 << 20);
    assert_eq!(size_threshold(3), 100 << 20);
    assert_eq!(size_threshold(4), 1 << 30);
    assert_eq!(size_threshold(5), 0);
}

#[test]
fn breadcrumb_jumps_truncate_the_path() {
    let screen = Screen::Folder(vec![3, 1, 2]);
    assert_eq!(path_prefix(&screen, 0), Vec::<usize>::new());
    assert_eq!(path_prefix(&screen, 2), vec![3, 1]);
    assert_eq!(path_prefix(&screen, 9), vec![3, 1, 2]);
    assert_eq!(path_prefix(&Screen::Search, 1), Vec::<usize>::new());
}

#[test]
fn starts_on_the_overview_without_a_tree() {
    let state = AppState::default();
    assert!(state.root.is_none());
    assert_eq!(state.screen, Screen::Overview);
    assert!(!state.reclaim_perm_delete);
    assert_eq!(state.search_query, "");
    assert!(!state.can_go_up());
    assert!(state.rescan_request().is_none());
}

#[test]
fn home_up_and_browse() {
    let mut state = shown(fixture(), Screen::Category(Category::Code));
    assert!(!state.go_up());
    state.browse();
    assert_eq!(state.screen, Screen::Folder(vec![]));
    assert!(!state.can_go_up());
    assert!(!state.go_up());
    state.show_folder(vec![0]);
    assert!(state.can_go_up());
    assert!(state.go_up());
    assert_eq!(state.screen, Screen::Folder(vec![]));
    state.show_folder(vec![0]);
    state.jump_to(0);
    assert_eq!(state.screen, Screen::Folder(vec![]));
    state.go_home();
    assert_eq!(state.screen, Screen::Overview);
}

#[test]
fn rows_open_sub_folders_only() {
    let mut state = shown(fixture(), Screen::Folder(vec![]));
    assert_eq!(state.row_target(&[], 0), Some(vec![0]));
    assert_eq!(state.row_target(&[], 1), None); // a file
    assert_eq!(state.row_target(&[], 2), None);
    assert_eq!(state.row_target(&[], -1), None);
    let target = state.row_target(&[], 0).unwrap();
    state.show_folder(target);
    assert!(state.go_up());
    assert_eq!(state.screen, Screen::Folder(vec![]));
    state.go_home();
    assert_eq!(state.row_target(&[], 0), None);
}

#[test]
fn directory_results_open_where_they_are() {
    let state = shown(fixture(), Screen::Search);
    let results = [EntryPath::new("/r/sub"), EntryPath::new("/r/sub/leaf"), EntryPath::new("/elsewhere")];
    assert_eq!(state.row_target(&results, 0), Some(vec![0]));
    assert_eq!(state.row_target(&results, 1), None); // a file
    assert_eq!(state.row_target(&results, 2), None);
    assert_eq!(state.row_target(&results, 3), None);
}

#[test]
fn search_needs_a_tree() {
    let mut state = AppState::default();
    assert!(!state.search_mode_changed(true));
    assert!(!state.search_changed("x", 1));
    assert!(!state.filter_changed(1));
    assert_eq!(state.screen, Screen::Overview);
}

#[test]
fn search_mode_comes_and_goes() {
    let mut state = shown(fixture(), Screen::Overview);
    assert!(!state.filter_changed(2));
    assert!(state.search_mode_changed(true));
    assert_eq!(state.screen, Screen::Search);
    assert!(state.search_changed("iso", 1));
    assert_eq!((state.search_query.as_str(), state.search_min), ("iso", 1_048_576));
    assert!(state.filter_changed(4));
    assert_eq!(state.search_min, 1_073_741_824);
    assert!(state.search_mode_changed(false));
    assert_eq!(state.search_query, "");
    assert_eq!(state.screen, Screen::Overview);
}

#[test]
fn typing_enters_the_search() {
    let mut state = shown(fixture(), Screen::Folder(vec![0]));
    assert!(state.search_changed("a", 0));
    assert_eq!(state.screen, Screen::Search);
}

#[test]
fn category_rows_open_their_category() {
    let rows = [(Category::Videos, 5), (Category::Other, 1)];
    let mut state = shown(fixture(), Screen::Overview);
    assert!(!state.open_category(&rows, -1));
    assert!(!state.open_category(&rows, 2));
    assert!(state.open_category(&rows, 1));
    assert_eq!(state.screen, Screen::Category(Category::Other));
}

#[test]
fn cancel_stops_the_scan_or_leaves_the_page() {
    let mut state = AppState::default();
    assert_eq!(state.cancel_clicked(), CancelClick::Stay);
    state.begin_scan();
    assert_eq!(state.cancel_clicked(), CancelClick::CancelScan);
    let mut state = shown(fixture(), Screen::Reclaim);
    assert_eq!(state.cancel_clicked(), CancelClick::ShowOverview);
    assert_eq!(state.screen, Screen::Overview);
}

#[test]
fn scans_settle_on_the_requested_screen() {
    let mut state = AppState::default();
    let g = state.begin_scan();
    assert!(state.reports_on(g));
    assert_eq!(state.scan_settled(g, Ok(fixture()), Restore::Reset), SettledScan::Shown);
    assert!(!state.reports_on(g));
    assert_eq!(state.screen, Screen::Overview);

    state.show_folder(vec![0]);
    let (path, restore) = state.rescan_request().unwrap();
    assert_eq!(path, EntryPath::new("/r"));
    let g = state.begin_scan();
    assert_eq!(state.scan_settled(g, Ok(fixture()), restore), SettledScan::Shown);
    assert_eq!(state.screen, Screen::Folder(vec![0]));

    // A folder that is gone gives way to the root folder.
    let (_, restore) = state.rescan_request().unwrap();
    let g = state.begin_scan();
    state.scan_settled(g, Ok(node("/r", 0, true)), restore);
    assert_eq!(state.screen, Screen::Folder(vec![]));

    state.open_reclaim();
    let (_, restore) = state.rescan_request().unwrap();
    let g = state.begin_scan();
    state.scan_settled(g, Ok(fixture()), restore);
    assert_eq!(state.screen, Screen::Reclaim);
}

#[test]
fn superseded_scans_are_dropped() {
    let mut state = AppState::default();
    let first = state.begin_scan();
    let second = state.begin_scan();
    assert_eq!(state.scan_settled(first, Ok(fixture()), Restore::Reset), SettledScan::Stale);
    assert!(state.root.is_none());
    assert!(state.reports_on(second));
}

#[test]
fn generations_wrap_around() {
    let mut state = AppState::default();
    state.scan_generation = u64::MAX;
    assert_eq!(state.begin_scan(), 0);
}

#[test]
fn failed_scans_keep_what_is_shown() {
    let mut state = AppState::default();
    let g = state.begin_scan();
    assert_eq!(
        state.scan_settled(g, Err(ScanError::Unreadable), Restore::Reset),
        SettledScan::Failed { has_tree: false, error: ScanError::Unreadable }
    );
    let mut state = shown(fixture(), Screen::Folder(vec![0]));
    let g = state.begin_scan();
    assert_eq!(
        state.scan_settled(g, Err(ScanError::Interrupted), Restore::Reset),
        SettledScan::Failed { has_tree: true, error: ScanError::Interrupted }
    );
    assert_eq!(state.screen, Screen::Folder(vec![0]));
    assert!(!state.scanning);
}

fn entry(path: &str, size: u64, kind: ReclaimKind) -> Reclaimable {
    Reclaimable { label: path.into(), path: EntryPath::new(path), size, file_count: 1, kind }
}

#[test]
fn ticking_entries() {
    let mut state = shown(fixture(), Screen::Overview);
    state.toggle_selected(&EntryPath::new("/x"), true);
    state.toggle_selected(&EntryPath::new("/y"), true);
    state.toggle_selected(&EntryPath::new("/x"), false);
    assert!(!state.reclaim_selected.contains(&EntryPath::new("/x")));
    assert!(state.reclaim_selected.contains(&EntryPath::new("/y")));
    state.open_reclaim();
    assert!(!state.reclaim_selected.contains(&EntryPath::new("/y")));
    assert_eq!(state.screen, Screen::Reclaim);
    state.set_permanent(true);
    assert!(state.reclaim_perm_delete);
}

#[test]
fn all_safe_entries_are_ticked() {
    let mut state = shown(fixture(), Screen::Reclaim);
    state.system = vec![
        entry("/h/Trash", 1, ReclaimKind::Trash),
        entry("/h/.cache/pip", 1, ReclaimKind::Cache),
        entry("/h/.cache/mozilla", 1, ReclaimKind::Cache),
    ];
    state.artifacts = vec![entry("/p/__pycache__", 1, ReclaimKind::Artifact), entry("/p/target", 1, ReclaimKind::Artifact)];
    state.toggle_selected(&EntryPath::new("/p/target"), true);
    state.select_all_safe();
    let ticked: Vec<String> = state.selected_items().iter().map(|r| r.label.clone()).collect();
    assert_eq!(ticked, ["/h/Trash", "/h/.cache/mozilla", "/p/__pycache__", "/p/target"]);
}
