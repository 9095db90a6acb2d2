//! What the user is looking at, and how every event changes it: navigation, search,
//! ticking entries, and the results of scans and measurements that arrive later.
use vstd::prelude::*;
use vstd::string::*;

use crate::category::Category;
use crate::navigate::{
    floor_of, folder_node, folders_can_be_located_again, indices, leads, locate, located,
    located_paths_lead_to_the_target, nests, node_at, path_prefix, prefix_of, size_threshold, Screen, ScreenView,
};
use crate::order::views;
use crate::path::{components, EntryPath};
use crate::reclaim::{consequence, impact, name_text, Reclaimable, ReclaimableView, Risk};
use crate::scan::{Node, ScanError};
use crate::selection::Selection;
use crate::tree::{consistent, files, lemma_node_view, NodeView};

verus! {

/// The model of the [`AppState`].
#[verifier::ext_equal]
pub struct AppView {
    pub root: Option<NodeView>,
    pub screen: ScreenView,
    pub perm: bool,
    pub query: Seq<char>,
    pub min: u64,
    pub selected: Set<Seq<Seq<u8>>>,
    pub system: Seq<ReclaimableView>,
    pub artifacts: Seq<ReclaimableView>,
    pub scanning: bool,
    pub scan_generation: u64,
    pub reclaim_generation: u64,
}

/// What the user is currently looking at.
#[derive(Debug)]
pub struct AppState {
    /// The scanned tree, or `None` before the first scan.
    pub root: Option<Node>,
    pub screen: Screen,
    /// Reclaim view: when true the row's primary "clear" action deletes
    /// permanently instead of moving to Trash. Permanent delete is also
    /// always available per-row via the right-click menu.
    pub reclaim_perm_delete: bool,
    /// Search view: the current name query and the minimum-size filter (bytes).
    pub search_query: String,
    pub search_min: u64,
    /// Reclaim view: the set of entry paths currently ticked for a batch clear.
    pub reclaim_selected: Selection,
    /// Last measured spots, kept so toggling the delete-mode switch can rebuild
    /// the rows without a rescan.
    pub system: Vec<Reclaimable>,
    /// The regenerable artifacts in the scanned tree.
    pub artifacts: Vec<Reclaimable>,
    /// Whether a folder scan is in flight that can be cancelled.
    pub scanning: bool,
    /// Generation guard for the folder scan: a result from a superseded scan
    /// (another started while it ran) is dropped instead of clobbering state.
    pub scan_generation: u64,
    /// Generation guard: a stale background measurement (from a superseded
    /// entry into the view) is dropped instead of overwriting fresh results.
    pub reclaim_generation: u64,
}

/// The model of an optional tree.
pub open spec fn tree_model(root: Option<Node>) -> Option<NodeView> {
    match root {
        Some(node) => Some(node@),
        None => None,
    }
}

impl View for AppState {
    type V = AppView;

    open spec fn view(&self) -> AppView {
        AppView {
            root: tree_model(self.root),
            screen: self.screen@,
            perm: self.reclaim_perm_delete,
            query: self.search_query@,
            min: self.search_min,
            selected: self.reclaim_selected@,
            system: views(self.system@),
            artifacts: views(self.artifacts@),
            scanning: self.scanning,
            scan_generation: self.scan_generation,
            reclaim_generation: self.reclaim_generation,
        }
    }
}

/// A tree that can be shown: its sizes agree, and its files can be counted.
pub open spec fn tree_ok(n: NodeView) -> bool {
    consistent(n) && files(n).len() <= u64::MAX
}

impl AppView {
    /// The tree can be shown, and the folder that is shown is in it.
    pub open spec fn wf(self) -> bool {
        self.root matches Some(r) ==> tree_ok(r) && (self.screen matches ScreenView::Folder(p) ==> leads(r, p))
    }
}

/// Before the first scan.
pub open spec fn initial() -> AppView {
    AppView {
        root: None,
        screen: ScreenView::Overview,
        perm: false,
        query: Seq::empty(),
        min: 0,
        selected: Set::empty(),
        system: Seq::empty(),
        artifacts: Seq::empty(),
        scanning: false,
        scan_generation: 0,
        reclaim_generation: 0,
    }
}

/// The next generation; the count wraps around.
pub open spec fn next_generation(g: u64) -> u64 {
    if g == u64::MAX {
        0
    } else {
        (g + 1) as u64
    }
}

impl Default for AppState {
    fn default() -> (state: AppState)
        ensures
            state@ == initial(),
            state@.wf(),
    {
        let state = AppState {
            root: None,
            screen: Screen::Overview,
            reclaim_perm_delete: false,
            search_query: String::new(),
            search_min: 0,
            reclaim_selected: Selection::new(),
            system: Vec::new(),
            artifacts: Vec::new(),
            scanning: false,
            scan_generation: 0,
            reclaim_generation: 0,
        };
        assert(state@ =~= initial());
        state
    }
}

proof fn lemma_prefix_leads(root: NodeView, path: Seq<int>, level: int)
    requires
        leads(root, path),
        0 <= level <= path.len(),
    ensures
        leads(root, path.take(level)),
    decreases path.len(),
{
    if level > 0 {
        let c = root.children[path[0]];
        lemma_prefix_leads(c, path.drop_first(), level - 1);
        assert(path.take(level).drop_first() =~= path.drop_first().take(level - 1));
    }
}

proof fn lemma_one_step_leads(root: NodeView, path: Seq<int>, i: int)
    requires
        leads(root, path),
        0 <= i < node_at(root, path).children.len(),
    ensures
        leads(root, path.push(i)),
        node_at(root, path.push(i)) == node_at(root, path).children[i],
    decreases path.len(),
{
    let longer = path.push(i);
    if path.len() == 0 {
        reveal_with_fuel(leads, 2);
        reveal_with_fuel(node_at, 2);
        assert(longer[0] == i);
        assert(longer.drop_first() =~= Seq::<int>::empty());
    } else {
        assert(longer[0] == path[0]);
        assert(longer.drop_first() =~= path.drop_first().push(i));
        lemma_one_step_leads(root.children[path[0]], path.drop_first(), i);
    }
}

/// Where to land after a rescan completes.
#[derive(Debug)]
pub enum Restore {
    /// A fresh scan of a new root — land on the overview.
    Reset,
    /// Keep the same view (overview/category refresh).
    Keep(Screen),
    /// Return to the folder at this path, if it still exists.
    Folder(EntryPath),
}

/// The model of a [`Restore`].
pub enum RestoreView {
    Reset,
    Keep(ScreenView),
    Folder(Seq<u8>),
}

impl View for Restore {
    type V = RestoreView;

    open spec fn view(&self) -> RestoreView {
        match self {
            Restore::Reset => RestoreView::Reset,
            Restore::Keep(screen) => RestoreView::Keep(screen@),
            Restore::Folder(path) => RestoreView::Folder(path@),
        }
    }
}

/// The screen to land on in a fresh tree. A folder that is gone gives way to the root
/// folder.
pub open spec fn restored(restore: RestoreView, node: NodeView) -> ScreenView {
    match restore {
        RestoreView::Reset => ScreenView::Overview,
        RestoreView::Keep(screen) => screen,
        RestoreView::Folder(target) => ScreenView::Folder(
            match located(node, target) {
                Some(path) => path,
                None => Seq::empty(),
            },
        ),
    }
}

/// What became of a scan.
#[derive(Debug, Clone, Copy, PartialEq, Eq, Structural)]
pub enum SettledScan {
    /// A newer scan has superseded it; its result is dropped.
    Stale,
    /// Its tree is shown.
    Shown,
    /// It has no tree; an earlier one is still there, or none is.
    Failed { has_tree: bool, error: ScanError },
}

/// What a scan that ends does.
pub open spec fn after_scan(
    v: AppView,
    generation: u64,
    result: Result<NodeView, ScanError>,
    restore: RestoreView,
) -> (AppView, SettledScan) {
    if v.scan_generation != generation {
        (v, SettledScan::Stale)
    } else {
        match result {
            Ok(node) => (
                AppView { scanning: false, root: Some(node), screen: restored(restore, node), ..v },
                SettledScan::Shown,
            ),
            Err(error) => (
                AppView { scanning: false, ..v },
                SettledScan::Failed { has_tree: v.root is Some, error },
            ),
        }
    }
}

/// What the Cancel button on the "Scanning…" page asks for.
#[derive(Debug, Clone, Copy, PartialEq, Eq, Structural)]
pub enum CancelClick {
    /// Abandon the scan in flight.
    CancelScan,
    /// Leave for the overview.
    ShowOverview,
    /// There is nowhere to go.
    Stay,
}

/// Entries whose removal is safe.
pub open spec fn safe_paths(entries: Seq<ReclaimableView>) -> Set<Seq<Seq<u8>>> {
    Set::new(
        |c: Seq<Seq<u8>>|
            exists|i: int|
                0 <= i < entries.len() && components((#[trigger] entries[i]).path) == c && impact(
                    entries[i].kind,
                    name_text(entries[i].path),
                ).risk == Risk::Safe,
    )
}

/// The drill-down path that activating a row opens: a sub-folder of the folder that is
/// shown, or a directory among the search results; nothing else can be opened.
pub open spec fn row_opens(v: AppView, results: Seq<Seq<u8>>, index: int) -> Option<Seq<int>> {
    match (v.root, v.screen) {
        (Some(r), ScreenView::Folder(p)) => {
            let folder = node_at(r, p);
            if 0 <= index < folder.children.len() && folder.children[index].is_dir {
                Some(p.push(index))
            } else {
                None
            }
        },
        (Some(r), ScreenView::Search) => if 0 <= index < results.len() {
            match located(r, results[index]) {
                Some(p) => if node_at(r, p).is_dir {
                    Some(p)
                } else {
                    None
                },
                None => None,
            }
        } else {
            None
        },
        _ => None,
    }
}

impl AppState {
    /// Show the storage overview.
    pub fn go_home(&mut self)
        ensures
            final(self)@ == (AppView { screen: ScreenView::Overview, ..old(self)@ }),
            old(self)@.wf() ==> final(self)@.wf(),
    {
        self.screen = Screen::Overview;
    }

    /// Show the parent folder, and say whether there is one.
    pub fn go_up(&mut self) -> (moved: bool)
        ensures
            match old(self)@.screen {
                ScreenView::Folder(p) => if p.len() > 0 {
                    moved && final(self)@ == (AppView { screen: ScreenView::Folder(p.drop_last()), ..old(self)@ })
                } else {
                    !moved && final(self)@ == old(self)@
                },
                _ => !moved && final(self)@ == old(self)@,
            },
            old(self)@.wf() ==> final(self)@.wf(),
    {
        let ghost before = self@;
        let moved = match &mut self.screen {
            Screen::Folder(path) => {
                let ghost p = path@;
                let popped = path.pop();
                proof {
                    if p.len() > 0 {
                        assert(indices(path@) =~= indices(p).drop_last());
                    }
                }
                popped.is_some()
            },
            _ => false,
        };
        proof {
            if let (Some(r), ScreenView::Folder(p)) = (before.root, before.screen) {
                if p.len() > 0 && before.wf() {
                    lemma_prefix_leads(r, p, p.len() - 1);
                    assert(p.take(p.len() - 1) =~= p.drop_last());
                }
            }
        }
        moved
    }

    /// Whether there is a parent folder to go up to.
    pub fn can_go_up(&self) -> (can: bool)
        ensures
            can == (self@.screen matches ScreenView::Folder(p) && p.len() > 0),
    {
        match &self.screen {
            Screen::Folder(path) => path.len() > 0,
            _ => false,
        }
    }

    /// Show the root folder.
    pub fn browse(&mut self)
        ensures
            final(self)@ == (AppView { screen: ScreenView::Folder(Seq::empty()), ..old(self)@ }),
            old(self)@.wf() ==> final(self)@.wf(),
    {
        let none: Vec<usize> = Vec::new();
        assert(indices(none@) =~= Seq::<int>::empty());
        self.screen = Screen::Folder(none);
    }

    /// Show the folder at a drill-down path.
    pub fn show_folder(&mut self, path: Vec<usize>)
        requires
            old(self)@.root matches Some(r) ==> leads(r, indices(path@)),
        ensures
            final(self)@ == (AppView { screen: ScreenView::Folder(indices(path@)), ..old(self)@ }),
            old(self)@.wf() ==> final(self)@.wf(),
    {
        self.screen = Screen::Folder(path);
    }

    /// Jump to the folder at a level of the breadcrumb.
    pub fn jump_to(&mut self, level: usize)
        ensures
            final(self)@ == (AppView {
                screen: ScreenView::Folder(
                    match old(self)@.screen {
                        ScreenView::Folder(p) => prefix_of(p, level as int),
                        _ => Seq::empty(),
                    },
                ),
                ..old(self)@
            }),
            old(self)@.wf() ==> final(self)@.wf(),
    {
        proof {
            if let (Some(r), ScreenView::Folder(p)) = (self@.root, self@.screen) {
                if self@.wf() && level <= p.len() {
                    lemma_prefix_leads(r, p, level as int);
                }
            }
        }
        let path = path_prefix(&self.screen, level);
        self.screen = Screen::Folder(path);
    }

    /// Show the reclaimable space; a fresh entry starts with nothing ticked.
    pub fn open_reclaim(&mut self)
        ensures
            final(self)@ == (AppView { screen: ScreenView::Reclaim, selected: Set::empty(), ..old(self)@ }),
            old(self)@.wf() ==> final(self)@.wf(),
    {
        self.reclaim_selected.clear();
        self.screen = Screen::Reclaim;
    }

    /// Entering search mode shows the results; leaving it drops the query and returns
    /// to the overview. Without a tree nothing happens. Says whether to repaint.
    pub fn search_mode_changed(&mut self, enabled: bool) -> (repaint: bool)
        ensures
            repaint == (old(self)@.root is Some),
            final(self)@ == (if !repaint {
                old(self)@
            } else if enabled {
                AppView { screen: ScreenView::Search, ..old(self)@ }
            } else {
                AppView { screen: ScreenView::Overview, query: Seq::empty(), ..old(self)@ }
            }),
            old(self)@.wf() ==> final(self)@.wf(),
    {
        if self.root.is_none() {
            return false;
        }
        if enabled {
            self.screen = Screen::Search;
        } else {
            self.search_query = String::new();
            self.screen = Screen::Overview;
        }
        true
    }

    /// The text of the search entry changed. Without a tree nothing happens. Says
    /// whether to repaint.
    pub fn search_changed(&mut self, text: &str, filter: u32) -> (repaint: bool)
        ensures
            repaint == (old(self)@.root is Some),
            final(self)@ == (if !repaint {
                old(self)@
            } else {
                AppView {
                    screen: ScreenView::Search,
                    query: text@,
                    min: floor_of(filter) as u64,
                    ..old(self)@
                }
            }),
            old(self)@.wf() ==> final(self)@.wf(),
    {
        if self.root.is_none() {
            return false;
        }
        self.search_query = String::from_str(text);
        self.search_min = size_threshold(filter);
        self.screen = Screen::Search;
        true
    }

    /// The size filter changed, which matters while searching. Says whether to
    /// repaint.
    pub fn filter_changed(&mut self, filter: u32) -> (repaint: bool)
        ensures
            repaint == (old(self)@.screen is Search),
            final(self)@ == (if !repaint {
                old(self)@
            } else {
                AppView { min: floor_of(filter) as u64, ..old(self)@ }
            }),
            old(self)@.wf() ==> final(self)@.wf(),
    {
        match self.screen {
            Screen::Search => {
                self.search_min = size_threshold(filter);
                true
            },
            _ => false,
        }
    }

    /// The Cancel button on the "Scanning…" page. If a folder scan is in flight it is
    /// to be cancelled. Otherwise (e.g. measuring reclaimable space) leave the
    /// scanning page for the overview, if there is a tree to show.
    pub fn cancel_clicked(&mut self) -> (click: CancelClick)
        ensures
            click == (if old(self)@.scanning {
                CancelClick::CancelScan
            } else if old(self)@.root is Some {
                CancelClick::ShowOverview
            } else {
                CancelClick::Stay
            }),
            final(self)@ == (if click is ShowOverview {
                AppView { screen: ScreenView::Overview, ..old(self)@ }
            } else {
                old(self)@
            }),
            old(self)@.wf() ==> final(self)@.wf(),
    {
        if self.scanning {
            CancelClick::CancelScan
        } else if self.root.is_some() {
            self.screen = Screen::Overview;
            CancelClick::ShowOverview
        } else {
            CancelClick::Stay
        }
    }

    /// The delete-mode switch.
    pub fn set_permanent(&mut self, on: bool)
        ensures
            final(self)@ == (AppView { perm: on, ..old(self)@ }),
            old(self)@.wf() ==> final(self)@.wf(),
    {
        self.reclaim_perm_delete = on;
    }

    /// Tick or untick an entry.
    pub fn toggle_selected(&mut self, path: &EntryPath, selected: bool)
        ensures
            final(self)@ == (AppView {
                selected: if selected {
                    old(self)@.selected.insert(components(path@))
                } else {
                    old(self)@.selected.remove(components(path@))
                },
                ..old(self)@
            }),
            old(self)@.wf() ==> final(self)@.wf(),
    {
        if selected {
            self.reclaim_selected.insert(path);
        } else {
            self.reclaim_selected.remove(path);
        }
    }

    /// Tick every entry whose blast radius is Safe.
    pub fn select_all_safe(&mut self)
        ensures
            final(self)@ == (AppView {
                selected: old(self)@.selected.union(safe_paths(old(self)@.system + old(self)@.artifacts)),
                ..old(self)@
            }),
            old(self)@.wf() ==> final(self)@.wf(),
    {
        let ghost before = self@;
        select_safe(&mut self.reclaim_selected, self.system.as_slice());
        select_safe(&mut self.reclaim_selected, self.artifacts.as_slice());
        proof {
            let a = before.system;
            let b = before.artifacts;
            assert forall|c: Seq<Seq<u8>>|
                safe_paths(a + b).contains(c) <==> safe_paths(a).contains(c) || safe_paths(b).contains(c) by {
                lemma_safe_paths_add(a, b, c);
            }
            assert(self@.selected =~= before.selected.union(safe_paths(a + b)));
        }
    }

    /// A category row of the overview was activated; says whether to repaint.
    pub fn open_category(&mut self, rows: &[(Category, u64)], index: i32) -> (repaint: bool)
        ensures
            repaint == (0 <= index < rows@.len()),
            final(self)@ == (if repaint {
                AppView { screen: ScreenView::Category(rows@[index as int].0), ..old(self)@ }
            } else {
                old(self)@
            }),
            old(self)@.wf() ==> final(self)@.wf(),
    {
        if index < 0 {
            return false;
        }
        let i: usize = index as usize;
        if i < rows.len() {
            self.screen = Screen::Category(rows[i].0);
            true
        } else {
            false
        }
    }

    /// The folder that activating a row of the list opens. In a folder it is a
    /// sub-folder; a directory search result jumps to that folder in the tree; file
    /// results can't be activated.
    pub fn row_target(&self, results: &[EntryPath], index: i32) -> (target: Option<Vec<usize>>)
        requires
            self@.wf(),
        ensures
            match target {
                Some(path) => row_opens(self@, views(results@), index as int) == Some(indices(path@)) && (
                self@.root matches Some(r) && leads(r, indices(path@)) && node_at(r, indices(path@)).is_dir),
                None => row_opens(self@, views(results@), index as int) is None,
            },
    {
        if index < 0 {
            return None;
        }
        let i: usize = index as usize;
        match &self.root {
            Some(root) => match &self.screen {
                Screen::Folder(path) => {
                    let folder = folder_node(root, path.as_slice());
                    proof {
                        lemma_node_view(*folder);
                    }
                    if i < folder.children.len() {
                        let ghost p = indices(path@);
                        assert(folder@.children[i as int] == folder.children@[i as int]@);
                        if folder.children[i].is_dir {
                            proof {
                                lemma_node_view(folder.children@[i as int]);
                                lemma_one_step_leads(root@, p, i as int);
                            }
                            let mut longer = path_prefix(&self.screen, path.len());
                            assert(indices(longer@) =~= p);
                            let ghost shorter = longer@;
                            longer.push(i);
                            assert(indices(longer@) =~= indices(shorter).push(i as int));
                            return Some(longer);
                        }
                        proof {
                            lemma_node_view(folder.children@[i as int]);
                        }
                    }
                    None
                },
                Screen::Search => if i < results.len() {
                    assert(views(results@)[i as int] == results@[i as int]@);
                    match locate(root, &results[i]) {
                        Some(path) => {
                            proof {
                                located_paths_lead_to_the_target(root@, results@[i as int]@);
                            }
                            let node = folder_node(root, path.as_slice());
                            proof {
                                lemma_node_view(*node);
                            }
                            if node.is_dir {
                                Some(path)
                            } else {
                                None
                            }
                        },
                        None => None,
                    }
                } else {
                    None
                },
                _ => None,
            },
            None => None,
        }
    }

    /// What to scan again, and where to land afterwards; nothing before the first
    /// scan.
    pub fn rescan_request(&self) -> (request: Option<(EntryPath, Restore)>)
        requires
            self@.wf(),
        ensures
            match self@.root {
                Some(r) => request matches Some((path, restore)) && path@ == r.path && restore@ == (match self@.screen {
                    ScreenView::Folder(p) => RestoreView::Folder(node_at(r, p).path),
                    other => RestoreView::Keep(other),
                }),
                None => request is None,
            },
    {
        match &self.root {
            Some(root) => {
                let restore = match &self.screen {
                    Screen::Folder(path) => {
                        let node = folder_node(root, path.as_slice());
                        proof {
                            lemma_node_view(*node);
                        }
                        Restore::Folder(node.path.clone())
                    },
                    other => Restore::Keep(other.clone()),
                };
                proof {
                    lemma_node_view(*root);
                }
                Some((root.path.clone(), restore))
            },
            None => None,
        }
    }

    /// A scan starts: it can be cancelled from now on, and whatever scan is still
    /// running is superseded. Returns the generation of the new one.
    pub fn begin_scan(&mut self) -> (generation: u64)
        ensures
            generation == next_generation(old(self)@.scan_generation),
            final(self)@ == (AppView { scanning: true, scan_generation: generation, ..old(self)@ }),
            old(self)@.wf() ==> final(self)@.wf(),
    {
        let generation: u64 = self.scan_generation.wrapping_add(1);
        self.scanning = true;
        self.scan_generation = generation;
        generation
    }

    /// Whether the scan of that generation is still the one to report on.
    pub fn reports_on(&self, generation: u64) -> (current: bool)
        ensures
            current == (self@.scanning && self@.scan_generation == generation),
    {
        self.scanning && self.scan_generation == generation
    }

    /// A scan has ended: swap in the new tree and restore the requested view, unless
    /// the scan was superseded or has no tree to show.
    pub fn scan_settled(&mut self, generation: u64, result: Result<Node, ScanError>, restore: Restore) -> (settled:
        SettledScan)
        requires
            result matches Ok(node) ==> tree_ok(node@),
        ensures
            (final(self)@, settled) == after_scan(
                old(self)@,
                generation,
                match result {
                    Ok(node) => Ok::<NodeView, ScanError>(node@),
                    Err(error) => Err::<NodeView, ScanError>(error),
                },
                restore@,
            ),
            old(self)@.wf() && !(restore@ matches RestoreView::Keep(screen) && screen is Folder) ==> final(self)@.wf(),
    {
        if self.scan_generation != generation {
            return SettledScan::Stale;
        }
        self.scanning = false;
        match result {
            Ok(node) => {
                let screen = match restore {
                    Restore::Reset => Screen::Overview,
                    Restore::Keep(screen) => screen,
                    Restore::Folder(target) => match locate(&node, &target) {
                        Some(path) => {
                            proof {
                                located_paths_lead_to_the_target(node@, target@);
                            }
                            Screen::Folder(path)
                        },
                        None => {
                            let none: Vec<usize> = Vec::new();
                            assert(indices(none@) =~= Seq::<int>::empty());
                            Screen::Folder(none)
                        },
                    },
                };
                self.root = Some(node);
                self.screen = screen;
                SettledScan::Shown
            },
            Err(error) => SettledScan::Failed { has_tree: self.root.is_some(), error },
        }
    }
}

fn select_safe(selection: &mut Selection, entries: &[Reclaimable])
    ensures
        final(selection)@ == old(selection)@.union(safe_paths(views(entries@))),
{
    let ghost before = selection@;
    let ghost all = views(entries@);
    let mut i: usize = 0;
    proof {
        assert(selection@ =~= before.union(safe_paths(all.take(0))));
    }
    while i < entries.len()
        invariant
            i <= entries@.len(),
            all == views(entries@),
            selection@ == before.union(safe_paths(all.take(i as int))),
        decreases entries@.len() - i,
    {
        let ghost so_far = selection@;
        let entry = &entries[i];
        if consequence(entry).risk == Risk::Safe {
            selection.insert(&entry.path);
        }
        proof {
            let one = seq![all[i as int]];
            assert(all.take(i + 1) =~= all.take(i as int) + one);
            assert forall|c: Seq<Seq<u8>>|
                #[trigger] safe_paths(all.take(i + 1)).contains(c) <==> safe_paths(all.take(i as int)).contains(c)
                    || safe_paths(one).contains(c) by {
                lemma_safe_paths_add(all.take(i as int), one, c);
            }
            assert forall|c: Seq<Seq<u8>>|
                #[trigger] safe_paths(one).contains(c) <==> components(entry.path@) == c && impact(
                    entry.kind,
                    name_text(entry.path@),
                ).risk == Risk::Safe by {
                assert(one[0] == entry@);
            }
            assert(selection@ =~= before.union(safe_paths(all.take(i + 1))));
        }
        i += 1;
    }
    assert(all.take(i as int) =~= all);
}

proof fn lemma_safe_paths_add(a: Seq<ReclaimableView>, b: Seq<ReclaimableView>, c: Seq<Seq<u8>>)
    ensures
        safe_paths(a + b).contains(c) <==> safe_paths(a).contains(c) || safe_paths(b).contains(c),
{
    let ab = a + b;
    if safe_paths(a).contains(c) {
        let i = choose|i: int|
            0 <= i < a.len() && components((#[trigger] a[i]).path) == c && impact(a[i].kind, name_text(a[i].path)).risk
                == Risk::Safe;
        assert(ab[i] == a[i]);
    }
    if safe_paths(b).contains(c) {
        let i = choose|i: int|
            0 <= i < b.len() && components((#[trigger] b[i]).path) == c && impact(b[i].kind, name_text(b[i].path)).risk
                == Risk::Safe;
        assert(ab[a.len() + i] == b[i]);
    }
    if safe_paths(ab).contains(c) {
        let i = choose|i: int|
            0 <= i < ab.len() && components((#[trigger] ab[i]).path) == c && impact(
                ab[i].kind,
                name_text(ab[i].path),
            ).risk == Risk::Safe;
        if i < a.len() {
            assert(a[i] == ab[i]);
        } else {
            assert(b[i - a.len()] == ab[i]);
        }
    }
}

/// A newer scan supersedes an older one: once another scan has begun, the result of
/// the first one changes nothing.
pub proof fn a_newer_scan_supersedes(v: AppView, result: Result<NodeView, ScanError>, restore: RestoreView)
    ensures
        ({
            let first = next_generation(v.scan_generation);
            let second = next_generation(first);
            let later = AppView { scanning: true, scan_generation: second, ..v };
            after_scan(later, first, result, restore) == (later, SettledScan::Stale)
        }),
{
}

/// A scan that fails or is cancelled leaves everything as it was, but for being over.
pub proof fn failed_scans_keep_the_tree(v: AppView, generation: u64, error: ScanError, restore: RestoreView)
    ensures
        ({
            let after = after_scan(v, generation, Err(error), restore).0;
            after == v || after == (AppView { scanning: false, ..v })
        }),
{
}

/// Rescanning keeps the position: a tree that has not changed is shown at the same
/// folder again.
pub proof fn rescanning_keeps_the_position(root: NodeView, path: Seq<int>)
    requires
        nests(root),
        leads(root, path),
    ensures
        restored(RestoreView::Folder(node_at(root, path).path), root) == ScreenView::Folder(path),
{
    folders_can_be_located_again(root, path);
}

/// Going up undoes opening a sub-folder.
pub proof fn up_undoes_opening(v: AppView, results: Seq<Seq<u8>>, index: int)
    requires
        v.screen is Folder,
        row_opens(v, results, index) is Some,
    ensures
        row_opens(v, results, index) matches Some(p) && v.screen == ScreenView::Folder(p.drop_last()),
{
    if let ScreenView::Folder(p) = v.screen {
        assert(p.push(index).drop_last() =~= p);
    }
}

/// A directory among the search results opens at its own place in the tree: the
/// folder that is shown has the path of the result.
pub proof fn results_open_where_they_are(v: AppView, root: NodeView, results: Seq<Seq<u8>>, index: int, path: Seq<int>)
    requires
        v.root == Some(root),
        v.screen is Search,
        row_opens(v, results, index) == Some(path),
    ensures
        leads(root, path),
        components(node_at(root, path).path) == components(results[index]),
{
    located_paths_lead_to_the_target(root, results[index]);
}

} // verus!
