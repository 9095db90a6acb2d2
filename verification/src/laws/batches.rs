//! Clearing entries: what a batch frees and what it leaves.
use vstd::prelude::*;

use crate::clearing::{
    batch_clear_takes_out_what_was_removed, cleared_all, failures, first_at, freed_by, has_sound_tree, is_ticked,
    pruned_trees_can_be_shown, stays, was_removed, ClearReport,
};
use crate::laws::removing::lemma_files_left;
use crate::navigate::{nests, removal_keeps_paths_nested, ScreenView};
use crate::order::{lemma_filter_twice, views};
use crate::path::{components, starts_with, EntryPath};
use crate::query::remove;
use crate::reclaim::{find_artifacts, Reclaimable, ReclaimableView};
use crate::state::{AppState, AppView};
use crate::tree::{files, Node, NodeView};

verus! {

/// What each item adds to the bytes that were removed, or to those that were not.
pub open spec fn bytes_each(items: Seq<Reclaimable>, done: Seq<bool>, removed: bool) -> Seq<int> {
    Seq::new(
        items.len(),
        |i: int|
            if done[i] == removed {
                items[i].size as int
            } else {
                0
            },
    )
}

/// The bytes of the items of which it is said that they were removed, or that they were
/// not.
pub open spec fn bytes_where(items: Seq<Reclaimable>, done: Seq<bool>, removed: bool) -> int {
    bytes_each(items, done, removed).fold_left(0, |sum: int, bytes: int| sum + bytes)
}

/// One for each item that was not removed.
pub open spec fn left_each(items: Seq<Reclaimable>, done: Seq<bool>) -> Seq<int> {
    Seq::new(
        items.len(),
        |i: int|
            if done[i] {
                0int
            } else {
                1
            },
    )
}

/// How many items were not removed.
pub open spec fn left_over(items: Seq<Reclaimable>, done: Seq<bool>) -> int {
    left_each(items, done).fold_left(0, |sum: int, one: int| sum + one)
}

proof fn lemma_batch(items: Seq<Reclaimable>, done: Seq<bool>)
    ensures
        freed_by(views(items), done) == bytes_where(items, done, true),
        failures(views(items), done) == left_over(items, done),
        bytes_where(items, done, true) + bytes_where(items, done, false) == items.map_values(
            |r: Reclaimable| r.size as int,
        ).fold_left(0, |sum: int, bytes: int| sum + bytes),
    decreases items.len(),
{
    let f = |r: Reclaimable| r.size as int;
    if items.len() > 0 {
        let front = items.drop_last();
        lemma_batch(front, done);
        assert(views(items).drop_last() =~= views(front));
        assert(views(items).last() == items.last()@);
        assert(bytes_each(items, done, true).drop_last() =~= bytes_each(front, done, true));
        assert(bytes_each(items, done, false).drop_last() =~= bytes_each(front, done, false));
        assert(left_each(items, done).drop_last() =~= left_each(front, done));
        assert(items.map_values(f).drop_last() =~= front.map_values(f));
    }
}

/// A batch frees the bytes of every item that was removed, of whatever kind, and of no
/// other; what was freed and what was left over make up all the items; and every item
/// that was not removed is told as a failure.
pub proof fn a_batch_frees_what_was_removed(
    state: &mut AppState,
    items: &[Reclaimable],
    done: &[bool],
    report: ClearReport,
)
    requires
        items@.len() == done@.len(),
        call_ensures(AppState::clear_selected, (state, items, done), report),
    ensures
        report.freed == bytes_where(items@, done@, true),
        report.freed + bytes_where(items@, done@, false) == items@.map_values(|r: Reclaimable| r.size as int).fold_left(
            0,
            |sum: int, bytes: int| sum + bytes,
        ),
        report.failed == left_over(items@, done@),
        (forall|i: int| 0 <= i < done@.len() ==> done@[i]) ==> report.failed == 0 && report.freed == items@.map_values(
            |r: Reclaimable| r.size as int,
        ).fold_left(0, |sum: int, bytes: int| sum + bytes),
{
    lemma_batch(items@, done@);
    if forall|i: int| 0 <= i < done@.len() ==> done@[i] {
        lemma_nothing_left(items@, done@);
    }
}

proof fn lemma_nothing_left(items: Seq<Reclaimable>, done: Seq<bool>)
    requires
        items.len() <= done.len(),
        forall|i: int| 0 <= i < done.len() ==> done[i],
    ensures
        bytes_where(items, done, false) == 0,
        left_over(items, done) == 0,
    decreases items.len(),
{
    if items.len() > 0 {
        let front = items.drop_last();
        lemma_nothing_left(front, done);
        assert(done[items.len() - 1]);
        assert(bytes_each(items, done, false).drop_last() =~= bytes_each(front, done, false));
        assert(left_each(items, done).drop_last() =~= left_each(front, done));
    }
}

/// An item at that path was removed.
pub open spec fn removed_at(items: Seq<Reclaimable>, done: Seq<bool>, path: Seq<u8>) -> bool {
    exists|i: int| 0 <= i < items.len() && done[i] && components((#[trigger] items[i])@.path) == components(path)
}

proof fn lemma_removed_at(items: Seq<Reclaimable>, done: Seq<bool>, path: Seq<u8>)
    ensures
        was_removed(views(items), done, path) == removed_at(items, done, path),
{
    let all = views(items);
    if was_removed(all, done, path) {
        let i = choose|i: int| 0 <= i < all.len() && done[i] && components((#[trigger] all[i]).path) == components(path);
        assert(items[i]@ == all[i]);
    }
    if removed_at(items, done, path) {
        let i = choose|i: int|
            0 <= i < items.len() && done[i] && components((#[trigger] items[i])@.path) == components(path);
        assert(all[i] == items[i]@);
    }
}

proof fn lemma_cleared_keeps(v: AppView, items: Seq<ReclaimableView>, done: Seq<bool>)
    ensures
        cleared_all(v, items, done) == (AppView {
            root: cleared_all(v, items, done).root,
            system: cleared_all(v, items, done).system,
            artifacts: cleared_all(v, items, done).artifacts,
            ..v
        }),
        cleared_all(v, items, done).root is Some <==> v.root is Some,
    decreases items.len(),
{
    if items.len() > 0 {
        lemma_cleared_keeps(v, items.drop_last(), done);
    }
}

/// A batch takes the entries at the paths that were removed out of both lists, and no
/// others; it unticks everything; and where the user is, what they search for, and how
/// entries are removed stay as they were.
pub proof fn a_batch_takes_the_removed_entries_out(
    state: &mut AppState,
    items: &[Reclaimable],
    done: &[bool],
    report: ClearReport,
)
    requires
        call_ensures(AppState::clear_selected, (state, items, done), report),
    ensures
        final(state)@.system == old(state)@.system.filter(|r: ReclaimableView| !removed_at(items@, done@, r.path)),
        final(state)@.artifacts == old(state)@.artifacts.filter(|r: ReclaimableView| !removed_at(items@, done@, r.path)),
        final(state)@.selected == Set::<Seq<Seq<u8>>>::empty(),
        final(state)@.screen == old(state)@.screen,
        final(state)@.perm == old(state)@.perm,
        final(state)@.query == old(state)@.query,
        final(state)@.min == old(state)@.min,
        final(state)@.scanning == old(state)@.scanning,
        final(state)@.scan_generation == old(state)@.scan_generation,
        final(state)@.reclaim_generation == old(state)@.reclaim_generation,
        final(state)@.root is Some <==> old(state)@.root is Some,
{
    let v = old(state)@;
    batch_clear_takes_out_what_was_removed(v, views(items@), done@);
    lemma_cleared_keeps(v, views(items@), done@);
    let p = |r: ReclaimableView| !removed_at(items@, done@, r.path);
    assert(stays(views(items@), done@) =~= p) by {
        assert forall|r: ReclaimableView| #[trigger] stays(views(items@), done@)(r) == p(r) by {
            lemma_removed_at(items@, done@, r.path);
        }
    }
}

/// A removed item lies at the path or above it.
pub open spec fn removed_above(items: Seq<Reclaimable>, done: Seq<bool>, path: Seq<u8>) -> bool {
    exists|i: int| 0 <= i < items.len() && done[i] && starts_with(path, (#[trigger] items[i])@.path)
}

proof fn lemma_tree_left(v: AppView, root: NodeView, items: Seq<Reclaimable>, done: Seq<bool>)
    requires
        v.root == Some(root),
        has_sound_tree(v),
        nests(root),
        !removed_above(items, done, root.path),
    ensures
        cleared_all(v, views(items), done).root matches Some(rest) && rest.path == root.path && nests(rest) && has_sound_tree(
            cleared_all(v, views(items), done),
        ) && files(rest) == files(root).filter(|f: NodeView| !removed_above(items, done, f.path)),
    decreases items.len(),
{
    let p = |f: NodeView| !removed_above(items, done, f.path);
    if items.len() == 0 {
        lemma_filter_true(files(root), p);
    } else {
        let front = items.drop_last();
        let last = items.last();
        let q = |f: NodeView| !removed_above(front, done, f.path);
        assert(views(items).drop_last() =~= views(front));
        assert(views(items).last() == last@);
        assert forall|path: Seq<u8>| #[trigger] removed_above(items, done, path) <==> removed_above(front, done, path) || (
        done[items.len() - 1] && starts_with(path, last@.path)) by {
            if removed_above(front, done, path) {
                let i = choose|i: int| 0 <= i < front.len() && done[i] && starts_with(path, (#[trigger] front[i])@.path);
                assert(items[i] == front[i]);
            }
            if done[items.len() - 1] && starts_with(path, last@.path) {
                assert(items[items.len() - 1] == last);
            }
            if removed_above(items, done, path) {
                let i = choose|i: int| 0 <= i < items.len() && done[i] && starts_with(path, (#[trigger] items[i])@.path);
                if i < front.len() {
                    assert(front[i] == items[i]);
                }
            }
        }
        lemma_tree_left(v, root, front, done);
        let w = cleared_all(v, views(front), done);
        let mid = w.root->0;
        if done[items.len() - 1] {
            let r = |f: NodeView| !starts_with(f.path, last@.path);
            assert(!removed_above(items, done, root.path));
            lemma_files_left(mid, last@.path);
            removal_keeps_paths_nested(mid, last@.path);
            pruned_trees_can_be_shown(mid, last@.path);
            lemma_filter_twice(files(root), q, r, p);
        } else {
            assert(p =~= q);
        }
    }
}

proof fn lemma_filter_true(s: Seq<NodeView>, p: spec_fn(NodeView) -> bool)
    requires
        forall|f: NodeView| #[trigger] p(f),
    ensures
        s.filter(p) == s,
    decreases s.len(),
{
    reveal(Seq::filter);
    if s.len() > 0 {
        lemma_filter_true(s.drop_last(), p);
        assert(p(s.last()));
        assert(s =~= s.drop_last().push(s.last()));
    }
}

/// A batch leaves the files of the tree that lie in none of the removed items, as they
/// were and in the same order, and no others.
pub proof fn a_batch_leaves_the_other_files(
    state: &mut AppState,
    root: NodeView,
    items: &[Reclaimable],
    done: &[bool],
    report: ClearReport,
)
    requires
        old(state)@.root == Some(root),
        has_sound_tree(old(state)@),
        nests(root),
        !removed_above(items@, done@, root.path),
        call_ensures(AppState::clear_selected, (state, items, done), report),
    ensures
        final(state)@.root matches Some(rest) && files(rest) == files(root).filter(
            |f: NodeView| !removed_above(items@, done@, f.path),
        ),
{
    lemma_tree_left(old(state)@, root, items@, done@);
}

/// The items of a batch are the measured entries whose paths are ticked: all of them, no
/// others, spots before artifacts.
pub proof fn ticked_entries_are_the_batch(state: &AppState, items: Vec<Reclaimable>)
    requires
        call_ensures(AppState::selected_items, (state,), items),
    ensures
        views(items@) == (state@.system + state@.artifacts).filter(
            |r: ReclaimableView| state@.selected.contains(components(r.path)),
        ),
{
    assert(is_ticked(state@) =~= (|r: ReclaimableView| state@.selected.contains(components(r.path))));
}

/// The entry at a path is the first one that is measured there, if there is any.
pub proof fn the_entry_at_a_path_is_there(state: &AppState, path: &EntryPath, item: Option<Reclaimable>)
    requires
        call_ensures(AppState::item_at, (state, path), item),
    ensures
        ({
            let all = state@.system + state@.artifacts;
            &&& item matches Some(r) ==> exists|i: int|
                0 <= i < all.len() && #[trigger] all[i] == r@ && components(all[i].path) == components(path@) && forall|k: int|
                    0 <= k < i ==> components((#[trigger] all[k]).path) != components(path@)
            &&& item is None ==> forall|k: int|
                0 <= k < all.len() ==> components((#[trigger] all[k]).path) != components(path@)
        }),
{
    let all = state@.system + state@.artifacts;
    let i = lemma_first(all, path@);
}

proof fn lemma_first(s: Seq<ReclaimableView>, path: Seq<u8>) -> (i: int)
    ensures
        0 <= i <= s.len(),
        forall|k: int| 0 <= k < i ==> components((#[trigger] s[k]).path) != components(path),
        i < s.len() ==> components(s[i].path) == components(path) && first_at(s, path) == Some(s[i]),
        i == s.len() ==> first_at(s, path) is None,
    decreases s.len(),
{
    if s.len() == 0 || components(s[0].path) == components(path) {
        0
    } else {
        let t = s.drop_first();
        let j = lemma_first(t, path);
        assert forall|k: int| 0 <= k < j + 1 implies components((#[trigger] s[k]).path) != components(path) by {
            if k > 0 {
                assert(s[k] == t[k - 1]);
            }
        }
        j + 1
    }
}

/// Entering the reclaim view takes the artifacts of the tree, as they are found in it,
/// and starts with no spots; the measurement that begins has a number of its own.
pub proof fn measuring_begins_with_the_artifacts(state: &mut AppState, generation: u64, root: &Node, found: Vec<Reclaimable>)
    requires
        old(state)@.root == Some(root@),
        call_ensures(find_artifacts, (root,), found),
        call_ensures(AppState::begin_measuring, (state,), generation),
    ensures
        final(state)@.artifacts == views(found@),
        final(state)@.system.len() == 0,
        final(state)@.reclaim_generation == generation,
        generation != old(state)@.reclaim_generation,
        old(state)@.reclaim_generation < u64::MAX ==> generation == old(state)@.reclaim_generation + 1,
        old(state)@.reclaim_generation == u64::MAX ==> generation == 0,
        final(state)@ == (AppView {
            system: final(state)@.system,
            artifacts: final(state)@.artifacts,
            reclaim_generation: generation,
            ..old(state)@
        }),
{
}

/// A measurement is kept exactly if it is the one that was begun last and the view is
/// still shown; a stale one changes nothing.
pub proof fn stale_measurements_are_dropped(state: &mut AppState, generation: u64, system: Vec<Reclaimable>, kept: bool)
    requires
        call_ensures(AppState::measuring_settled, (state, generation, system), kept),
    ensures
        kept <==> generation == old(state)@.reclaim_generation && old(state)@.screen == ScreenView::Reclaim,
        !kept ==> final(state)@ == old(state)@,
        kept ==> final(state)@ == (AppView { system: views(system@), ..old(state)@ }),
{
}

/// Clearing one entry takes it out of the tree, as removing it does, and out of both
/// lists, and changes nothing else.
pub proof fn clearing_takes_one_entry_out(state: &mut AppState, path: &EntryPath, tree: &mut Node, freed: Option<u64>)
    requires
        old(state)@.root == Some(old(tree)@),
        call_ensures(remove, (tree, path), freed),
        call_ensures(AppState::note_cleared, (state, path), ()),
    ensures
        final(state)@ == (AppView {
            root: Some(final(tree)@),
            system: old(state)@.system.filter(|r: ReclaimableView| components(r.path) != components(path@)),
            artifacts: old(state)@.artifacts.filter(|r: ReclaimableView| components(r.path) != components(path@)),
            ..old(state)@
        }),
{
}

/// Pruning the tree removes the entry from it, as removing it does, and changes nothing
/// else; without a tree nothing changes.
pub proof fn pruning_changes_the_tree_alone(state: &mut AppState, path: &EntryPath, tree: &mut Node, freed: Option<u64>)
    requires
        call_ensures(remove, (tree, path), freed),
        call_ensures(AppState::prune, (state, path), ()),
    ensures
        old(state)@.root == Some(old(tree)@) ==> final(state)@ == (AppView { root: Some(final(tree)@), ..old(state)@ }),
        old(state)@.root is None ==> final(state)@ == old(state)@,
{
}

/// A batch clears its items one by one, in their order: one more item that was removed goes
/// as it would alone, and one that was not changes nothing in the tree and the lists.
pub proof fn a_batch_clears_one_by_one(
    all: &mut AppState,
    items: &[Reclaimable],
    done: &[bool],
    report: ClearReport,
    before: &mut AppState,
    front: &[Reclaimable],
    front_done: &[bool],
    front_report: ClearReport,
    last: Reclaimable,
    removed: bool,
    one: &mut AppState,
)
    requires
        items@ == front@.push(last),
        done@ == front_done@.push(removed),
        front@.len() == front_done@.len(),
        old(all)@ == old(before)@,
        call_ensures(AppState::clear_selected, (all, items, done), report),
        call_ensures(AppState::clear_selected, (before, front, front_done), front_report),
        old(one)@ == final(before)@,
        call_ensures(AppState::note_cleared, (one, &last.path), ()),
    ensures
        removed ==> final(all)@ == final(one)@ && report.freed == front_report.freed + last.size && report.failed
            == front_report.failed,
        !removed ==> final(all)@ == final(before)@ && report.freed == front_report.freed && report.failed
            == front_report.failed + 1,
{
    let v = old(all)@;
    assert(views(items@).drop_last() =~= views(front@));
    assert(views(items@).last() == last@);
    lemma_done_before(v, views(front@), done@, front_done@);
    assert(done@[items@.len() - 1] == removed);
}

/// What becomes of some items depends on what is said of them alone.
proof fn lemma_done_before(v: AppView, items: Seq<ReclaimableView>, a: Seq<bool>, b: Seq<bool>)
    requires
        forall|i: int| 0 <= i < items.len() ==> a[i] == b[i],
    ensures
        cleared_all(v, items, a) == cleared_all(v, items, b),
        freed_by(items, a) == freed_by(items, b),
        failures(items, a) == failures(items, b),
    decreases items.len(),
{
    if items.len() > 0 {
        lemma_done_before(v, items.drop_last(), a, b);
        assert(a[items.len() - 1] == b[items.len() - 1]);
    }
}

/// Without a tree, clearing an entry takes it out of both lists alone.
pub proof fn clearing_needs_no_tree(state: &mut AppState, path: &EntryPath)
    requires
        old(state)@.root is None,
        call_ensures(AppState::note_cleared, (state, path), ()),
    ensures
        final(state)@ == (AppView {
            system: old(state)@.system.filter(|r: ReclaimableView| components(r.path) != components(path@)),
            artifacts: old(state)@.artifacts.filter(|r: ReclaimableView| components(r.path) != components(path@)),
            ..old(state)@
        }),
{
}

} // verus!
