//! What the user does, and where it leads.
use vstd::prelude::*;

use crate::category::Category;
use crate::navigate::{
    folders_can_be_located_again, indices, leads, locate, nests, node_at, size_threshold, ScreenView,
};
use crate::order::views;
use crate::path::{components, EntryPath};
use crate::reclaim::{consequence, Consequence, Reclaimable, Risk};
use crate::scan::{Node, ScanError};
use crate::state::{AppState, AppView, CancelClick, Restore, RestoreView, SettledScan};
use crate::tree::NodeView;

verus! {

/// In the beginning there is no tree, the overview is shown, nothing is searched for,
/// ticked or measured, no scan runs, and removing goes to the Trash.
pub proof fn it_begins_with_nothing(state: AppState)
    requires
        call_ensures(<AppState as Default>::default, (), state),
    ensures
        state.root is None,
        state.screen is Overview,
        !state.reclaim_perm_delete,
        state.search_query@.len() == 0,
        state.search_min == 0,
        state.reclaim_selected@ == Set::<Seq<Seq<u8>>>::empty(),
        state.system@.len() == 0,
        state.artifacts@.len() == 0,
        !state.scanning,
        state.scan_generation == 0,
        state.reclaim_generation == 0,
{
    assert(state@.screen == state.screen@);
    assert(views(state.system@).len() == state.system@.len());
    assert(views(state.artifacts@).len() == state.artifacts@.len());
}

/// Going home shows the overview, browsing shows the root folder, and both change
/// nothing else.
pub proof fn home_and_root_are_always_in_reach(home: &mut AppState, root: &mut AppState)
    requires
        call_ensures(AppState::go_home, (home,), ()),
        call_ensures(AppState::browse, (root,), ()),
    ensures
        final(home)@ == (AppView { screen: ScreenView::Overview, ..old(home)@ }),
        final(root)@ == (AppView { screen: ScreenView::Folder(Seq::empty()), ..old(root)@ }),
{
}

/// Going up takes the last step back, and one can go up exactly where there is a step to
/// take back.
pub proof fn going_up_takes_one_step_back(state: &mut AppState, seen: &AppState, moved: bool, can: bool)
    requires
        seen@ == old(state)@,
        call_ensures(AppState::can_go_up, (seen,), can),
        call_ensures(AppState::go_up, (state,), moved),
    ensures
        moved == can,
        can <==> exists|up: Seq<int>, step: int| old(state)@.screen == ScreenView::Folder(#[trigger] up.push(step)),
        !moved ==> final(state)@ == old(state)@,
        moved ==> final(state)@ == (AppView { screen: final(state)@.screen, ..old(state)@ }),
        forall|up: Seq<int>, step: int|
            old(state)@.screen == ScreenView::Folder(#[trigger] up.push(step)) ==> final(state)@.screen == ScreenView::Folder(up),
{
    if let ScreenView::Folder(p) = old(state)@.screen {
        if p.len() > 0 {
            assert(p.drop_last().push(p.last()) =~= p);
        }
    }
    assert forall|up: Seq<int>, step: int|
        old(state)@.screen == ScreenView::Folder(#[trigger] up.push(step)) implies final(state)@.screen
        == ScreenView::Folder(up) by {
        assert(up.push(step).drop_last() =~= up);
    }
}

/// Jumping to a level of the breadcrumb keeps that many steps.
pub proof fn a_jump_keeps_that_many_steps(state: &mut AppState, level: usize)
    requires
        call_ensures(AppState::jump_to, (state, level), ()),
    ensures
        final(state)@ == (AppView { screen: final(state)@.screen, ..old(state)@ }),
        final(state)@.screen matches ScreenView::Folder(q) && (match old(state)@.screen {
            ScreenView::Folder(p) => q.is_prefix_of(p) && q.len() == (if level <= p.len() {
                level as nat
            } else {
                p.len()
            }),
            _ => q.len() == 0,
        }),
{
}

/// The folder at a path is shown at that path.
pub proof fn folders_are_shown_at_their_path(state: &mut AppState, path: Vec<usize>)
    requires
        call_ensures(AppState::show_folder, (state, path), ()),
    ensures
        final(state)@ == (AppView { screen: final(state)@.screen, ..old(state)@ }),
        final(state)@.screen matches ScreenView::Folder(q) && q.len() == path@.len() && forall|i: int|
            0 <= i < q.len() ==> #[trigger] q[i] == path@[i],
{
}

/// Entering the reclaim view unticks everything and changes nothing but the screen
/// besides.
pub proof fn reclaiming_starts_unticked(state: &mut AppState)
    requires
        call_ensures(AppState::open_reclaim, (state,), ()),
    ensures
        final(state)@ == (AppView { screen: ScreenView::Reclaim, selected: final(state)@.selected, ..old(state)@ }),
        forall|c: Seq<Seq<u8>>| !(#[trigger] final(state)@.selected.contains(c)),
{
}

/// Searching needs a tree. The query is what was typed, letter for letter, and the floor
/// that of the size filter; leaving the search drops the query and shows the overview.
pub proof fn searching_follows_what_is_typed(
    typed: &mut AppState,
    text: &str,
    filter: u32,
    floor: u64,
    shown: bool,
    moded: &mut AppState,
    enabled: bool,
    repainted: bool,
)
    requires
        call_ensures(size_threshold, (filter,), floor),
        call_ensures(AppState::search_changed, (typed, text, filter), shown),
        call_ensures(AppState::search_mode_changed, (moded, enabled), repainted),
    ensures
        shown <==> old(typed)@.root is Some,
        !shown ==> final(typed)@ == old(typed)@,
        shown ==> final(typed)@ == (AppView { screen: ScreenView::Search, query: text@, min: floor, ..old(typed)@ }),
        repainted <==> old(moded)@.root is Some,
        !repainted ==> final(moded)@ == old(moded)@,
        repainted && enabled ==> final(moded)@ == (AppView { screen: ScreenView::Search, ..old(moded)@ }),
        repainted && !enabled ==> final(moded)@.query.len() == 0 && final(moded)@ == (AppView {
            screen: ScreenView::Overview,
            query: final(moded)@.query,
            ..old(moded)@
        }),
{
}

/// The size filter matters while searching, and there it changes the floor alone.
pub proof fn the_filter_matters_while_searching(state: &mut AppState, filter: u32, floor: u64, repaint: bool)
    requires
        call_ensures(size_threshold, (filter,), floor),
        call_ensures(AppState::filter_changed, (state, filter), repaint),
    ensures
        repaint <==> old(state)@.screen == ScreenView::Search,
        !repaint ==> final(state)@ == old(state)@,
        repaint ==> final(state)@ == (AppView { min: floor, ..old(state)@ }),
{
}

/// Cancelling a scan that runs asks for its end and changes nothing yet; otherwise it
/// leaves for the overview, if there is a tree to show there.
pub proof fn cancelling_goes_by_what_runs(state: &mut AppState, click: CancelClick)
    requires
        call_ensures(AppState::cancel_clicked, (state,), click),
    ensures
        click is CancelScan <==> old(state)@.scanning,
        click is ShowOverview <==> !old(state)@.scanning && old(state)@.root is Some,
        click is ShowOverview ==> final(state)@ == (AppView { screen: ScreenView::Overview, ..old(state)@ }),
        !(click is ShowOverview) ==> final(state)@ == old(state)@,
{
}

/// The switch for permanent removal is set as it was clicked.
pub proof fn the_switch_is_set_as_clicked(state: &mut AppState, on: bool)
    requires
        call_ensures(AppState::set_permanent, (state, on), ()),
    ensures
        final(state)@.perm == on,
        final(state)@ == (AppView { perm: on, ..old(state)@ }),
{
}

/// Ticking an entry ticks that path, in every spelling, and no other; unticking it unticks
/// that path and no other.
pub proof fn ticking_concerns_one_path(state: &mut AppState, path: &EntryPath, selected: bool, other: Seq<u8>)
    requires
        call_ensures(AppState::toggle_selected, (state, path, selected), ()),
    ensures
        final(state)@ == (AppView { selected: final(state)@.selected, ..old(state)@ }),
        components(other) == components(path@) ==> final(state)@.selected.contains(components(other)) == selected,
        components(other) != components(path@) ==> final(state)@.selected.contains(components(other))
            == old(state)@.selected.contains(components(other)),
{
}

/// Ticking all that is safe ticks every measured entry that is called safe, keeps what is
/// ticked, and ticks nothing else.
pub proof fn what_is_called_safe_is_ticked(state: &mut AppState, entry: &Reclaimable, told: Consequence)
    requires
        call_ensures(consequence, (entry,), told),
        (old(state)@.system + old(state)@.artifacts).contains(entry@),
        call_ensures(AppState::select_all_safe, (state,), ()),
    ensures
        final(state)@ == (AppView { selected: final(state)@.selected, ..old(state)@ }),
        old(state)@.selected.subset_of(final(state)@.selected),
        told.risk == Risk::Safe ==> final(state)@.selected.contains(components(entry@.path)),
        told.risk != Risk::Safe && !old(state)@.selected.contains(components(entry@.path)) && (forall|i: int|
            0 <= i < (old(state)@.system + old(state)@.artifacts).len() && components(
                (#[trigger] (old(state)@.system + old(state)@.artifacts)[i]).path,
            ) == components(entry@.path) ==> (old(state)@.system + old(state)@.artifacts)[i] == entry@)
            ==> !final(state)@.selected.contains(components(entry@.path)),
        forall|c: Seq<Seq<u8>>| #[trigger] final(state)@.selected.contains(c) && !old(state)@.selected.contains(c)
            ==> exists|i: int|
            0 <= i < (old(state)@.system + old(state)@.artifacts).len() && components(
                (#[trigger] (old(state)@.system + old(state)@.artifacts)[i]).path,
            ) == c,
{
    let all = old(state)@.system + old(state)@.artifacts;
    let i = choose|i: int| 0 <= i < all.len() && all[i] == entry@;
    assert(components(all[i].path) == components(entry@.path));
}

/// Activating a row of the overview opens the category of that row; a row that is not
/// there opens nothing.
pub proof fn rows_open_their_category(state: &mut AppState, rows: &[(Category, u64)], index: i32, repaint: bool)
    requires
        call_ensures(AppState::open_category, (state, rows, index), repaint),
    ensures
        repaint <==> 0 <= index < rows@.len(),
        !repaint ==> final(state)@ == old(state)@,
        repaint ==> final(state)@ == (AppView { screen: ScreenView::Category(rows@[index as int].0), ..old(state)@ }),
{
}

/// In a folder, activating the row of a sub-folder opens that sub-folder; the row of a
/// file, or one that is not there, opens nothing.
pub proof fn rows_open_their_sub_folder(
    state: &AppState,
    root: NodeView,
    shown: Seq<int>,
    results: &[EntryPath],
    index: i32,
    target: Option<Vec<usize>>,
)
    requires
        state@.root == Some(root),
        state@.screen == ScreenView::Folder(shown),
        call_ensures(AppState::row_target, (state, results, index), target),
    ensures
        ({
            let rows = node_at(root, shown).children;
            &&& target is Some <==> 0 <= index < rows.len() && rows[index as int].is_dir
            &&& target matches Some(path) ==> indices(path@) == shown.push(index as int)
        }),
{
}

/// Among search results, activating a row opens the directory at the path of that result,
/// if it is still in the tree and is a directory; nothing else opens.
pub proof fn results_open_their_directory(
    state: &AppState,
    root: &Node,
    results: &[EntryPath],
    index: i32,
    place: Option<Vec<usize>>,
    target: Option<Vec<usize>>,
)
    requires
        state@.root == Some(root@),
        state@.screen == ScreenView::Search,
        0 <= index < results@.len(),
        call_ensures(locate, (root, &results@[index as int]), place),
        call_ensures(AppState::row_target, (state, results, index), target),
    ensures
        target is Some <==> (place matches Some(p) && node_at(root@, indices(p@)).is_dir),
        target matches Some(path) ==> (place matches Some(p) && indices(path@) == indices(p@)),
{
    assert(views(results@)[index as int] == results@[index as int]@);
}

/// Rows that are not there open nothing, nor does any row of another screen.
pub proof fn other_rows_open_nothing(state: &AppState, results: &[EntryPath], index: i32, target: Option<Vec<usize>>)
    requires
        call_ensures(AppState::row_target, (state, results, index), target),
        index < 0 || state@.root is None || !(state@.screen is Folder || state@.screen is Search) || (state@.screen is Search
            && index >= results@.len()),
    ensures
        target is None,
{
}

/// Rescanning scans the root of the tree again, and asks to land where the user is: in a
/// folder by its path, and elsewhere on the same screen. Before the first scan there is
/// nothing to scan again.
pub proof fn a_rescan_lands_where_one_was(state: &AppState, request: Option<(EntryPath, Restore)>)
    requires
        call_ensures(AppState::rescan_request, (state,), request),
    ensures
        request is Some <==> state@.root is Some,
        request matches Some((path, restore)) ==> (state@.root matches Some(r) && path@ == r.path && (match state@.screen {
            ScreenView::Folder(p) => restore@ == RestoreView::Folder(node_at(r, p).path),
            ScreenView::Overview => restore@ == RestoreView::Keep(ScreenView::Overview),
            ScreenView::Category(c) => restore@ == RestoreView::Keep(ScreenView::Category(c)),
            ScreenView::Reclaim => restore@ == RestoreView::Keep(ScreenView::Reclaim),
            ScreenView::Search => restore@ == RestoreView::Keep(ScreenView::Search),
        })),
{
}

/// A scan that begins supersedes every other: from then on the state reports on it, and
/// not on the one before.
pub proof fn the_latest_scan_is_reported_on(
    state: &mut AppState,
    generation: u64,
    after: &AppState,
    asked: u64,
    current: bool,
)
    requires
        call_ensures(AppState::begin_scan, (state,), generation),
        after@ == final(state)@,
        call_ensures(AppState::reports_on, (after, asked), current),
    ensures
        generation != old(state)@.scan_generation,
        old(state)@.scan_generation < u64::MAX ==> generation == old(state)@.scan_generation + 1,
        old(state)@.scan_generation == u64::MAX ==> generation == 0,
        current <==> asked == generation,
        final(state)@ == (AppView { scanning: true, scan_generation: generation, ..old(state)@ }),
{
}

/// Nothing is reported on where no scan runs.
pub proof fn idle_states_report_on_nothing(state: &AppState, asked: u64, current: bool)
    requires
        call_ensures(AppState::reports_on, (state, asked), current),
    ensures
        current ==> state@.scanning && asked == state@.scan_generation,
        state@.scanning && asked == state@.scan_generation ==> current,
{
}

/// A scan that was superseded changes nothing when it ends. The latest one is over when it
/// ends: with a tree, that tree is shown; without one, the tree that was there stays, and
/// so does the screen.
pub proof fn a_scan_ends_as_it_should(
    state: &mut AppState,
    generation: u64,
    result: Result<Node, ScanError>,
    restore: Restore,
    settled: SettledScan,
)
    requires
        call_ensures(AppState::scan_settled, (state, generation, result, restore), settled),
    ensures
        settled is Stale <==> generation != old(state)@.scan_generation,
        settled is Stale ==> final(state)@ == old(state)@,
        settled is Shown <==> generation == old(state)@.scan_generation && result is Ok,
        settled is Shown ==> final(state)@ == (AppView {
            scanning: false,
            root: Some(result->Ok_0@),
            screen: final(state)@.screen,
            ..old(state)@
        }),
        settled is Shown && restore is Reset ==> final(state)@.screen == ScreenView::Overview,
        settled is Shown ==> (restore@ matches RestoreView::Keep(screen) ==> final(state)@.screen == screen),
        settled matches SettledScan::Failed { has_tree, error } ==> final(state)@ == (AppView {
            scanning: false,
            ..old(state)@
        }) && has_tree == (old(state)@.root is Some) && result == Err::<Node, ScanError>(error),
{
}

/// A scan that lands in a folder shows the folder at that path, if the new tree has it,
/// and the root folder otherwise.
pub proof fn a_scan_lands_in_the_folder(
    state: &mut AppState,
    generation: u64,
    node: Node,
    target: EntryPath,
    place: Option<Vec<usize>>,
    settled: SettledScan,
)
    requires
        generation == old(state)@.scan_generation,
        call_ensures(locate, (&node, &target), place),
        call_ensures(AppState::scan_settled, (state, generation, Ok::<Node, ScanError>(node), Restore::Folder(target)), settled),
    ensures
        final(state)@.screen matches ScreenView::Folder(p) && (match place {
            Some(q) => p == indices(q@),
            None => p.len() == 0,
        }),
{
}

/// Rescanning a tree that has not changed, from a folder and back, shows that folder
/// again.
pub proof fn a_rescan_of_the_same_tree_changes_nothing(
    state: &mut AppState,
    seen: &AppState,
    path: EntryPath,
    restore: Restore,
    generation: u64,
    node: Node,
    settled: SettledScan,
)
    requires
        seen@ == old(state)@,
        old(state)@.root == Some(node@),
        nests(node@),
        old(state)@.screen matches ScreenView::Folder(p) ==> leads(node@, p),
        generation == old(state)@.scan_generation,
        call_ensures(AppState::rescan_request, (seen,), Some((path, restore))),
        call_ensures(AppState::scan_settled, (state, generation, Ok::<Node, ScanError>(node), restore), settled),
    ensures
        settled is Shown,
        final(state)@ == (AppView { scanning: false, ..old(state)@ }),
{
    if let ScreenView::Folder(p) = old(state)@.screen {
        folders_can_be_located_again(node@, p);
    }
}

} // verus!
