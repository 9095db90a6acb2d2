//! Clearing space: measuring what can be reclaimed, what is ticked, and how removals
//! are taken out of the tree and the lists without reading the disk again.
use vstd::prelude::*;

use crate::navigate::{leads, nests, node_at, removing_a_shown_row_keeps_the_folder, Screen, ScreenView};
use crate::order::{lemma_filter_twice, merge_sort, sorted_stably, views, Ranked};
use crate::path::{components, EntryPath};
use crate::query::{
    consistent_trees_can_shrink, freed_of, remove, removal_keeps_sizes_consistent, removal_takes_one_entry, rest_of, without,
};
use crate::reclaim::{
    artifacts, breakdown, broken_down, find_artifacts, fits, reclaim_le, sum_reclaimed, Reclaimable, ReclaimableView,
    SystemSpot,
};
use crate::scan::Listing;
use crate::state::{next_generation, tree_ok, AppState, AppView};
use crate::tree::{files, files_of, NodeView};

verus! {

/// An entry that is ranked by its size alone.
struct BySize {
    entry: Reclaimable,
}

impl View for BySize {
    type V = ReclaimableView;

    closed spec fn view(&self) -> ReclaimableView {
        self.entry@
    }
}

/// The order of sizes, largest first.
pub open spec fn larger_first() -> spec_fn(ReclaimableView, ReclaimableView) -> bool {
    |a: ReclaimableView, b: ReclaimableView| a.size >= b.size
}

impl Ranked for BySize {
    closed spec fn rank_le() -> spec_fn(ReclaimableView, ReclaimableView) -> bool {
        larger_first()
    }

    proof fn rank_is_total() {
    }

    fn may_precede(&self, other: &BySize) -> (le: bool) {
        self.entry.size >= other.entry.size
    }
}

/// The entries of several spots, spot by spot.
pub open spec fn entries_of(read: Seq<(SystemSpot, Option<Listing>)>) -> Seq<ReclaimableView>
    decreases read.len(),
{
    if read.len() == 0 {
        Seq::empty()
    } else {
        entries_of(read.drop_last()) + broken_down(read.last().0@, read.last().1)
    }
}

/// Break each spot into per-application entries (notably: never the whole `~/.cache`
/// as one item), then order the whole list largest-first; equally large entries stay
/// in the order of the spots.
pub fn measure_spots(read: Vec<(SystemSpot, Option<Listing>)>) -> (entries: Vec<Reclaimable>)
    requires
        forall|i: int| 0 <= i < read@.len() ==> fits((#[trigger] read@[i]).1),
    ensures
        views(entries@) == sorted_stably(entries_of(read@), larger_first()),
{
    let ghost all = read@;
    let mut rest = read;
    let mut found: Vec<BySize> = Vec::new();
    let ghost mut n: int = 0;
    proof {
        assert(all.skip(0) =~= all);
        assert(all.take(0) =~= Seq::<(SystemSpot, Option<Listing>)>::empty());
        assert(views(found@) =~= Seq::<ReclaimableView>::empty());
    }
    while rest.len() > 0
        invariant
            0 <= n <= all.len(),
            rest@ == all.skip(n),
            forall|i: int| 0 <= i < all.len() ==> fits((#[trigger] all[i]).1),
            views(found@) == entries_of(all.take(n)),
        decreases rest@.len(),
    {
        let ghost so_far = views(found@);
        assert(rest@[0] == all[n]);
        let (spot, contents) = rest.remove(0);
        let mut entries = breakdown(&spot, contents);
        let ghost new = views(entries@);
        let ghost mut k: int = 0;
        assert(entries@.skip(0) =~= entries@);
        assert(new.take(0) =~= Seq::<ReclaimableView>::empty());
        let ghost whole = entries@;
        while entries.len() > 0
            invariant
                0 <= k <= whole.len(),
                entries@ == whole.skip(k),
                new == views(whole),
                views(found@) == so_far + new.take(k),
            decreases entries@.len(),
        {
            assert(entries@[0] == whole[k]);
            let entry = entries.remove(0);
            let ghost before = views(found@);
            found.push(BySize { entry });
            proof {
                assert(views(found@) =~= before.push(new[k]));
                assert(new.take(k + 1) =~= new.take(k).push(new[k]));
                assert(entries@ =~= whole.skip(k + 1));
                k = k + 1;
            }
        }
        proof {
            assert(new.take(k) =~= new);
            assert(all.take(n + 1).drop_last() =~= all.take(n));
            assert(all.take(n + 1).last() == all[n]);
            assert(rest@ =~= all.skip(n + 1));
            n = n + 1;
        }
    }
    assert(all.take(n) =~= all);
    let mut sorted = merge_sort(found);
    let ghost order = sorted@;
    let mut entries: Vec<Reclaimable> = Vec::new();
    let ghost mut k: int = 0;
    assert(order.skip(0) =~= order);
    while sorted.len() > 0
        invariant
            0 <= k <= order.len(),
            sorted@ == order.skip(k),
            views(entries@) == views(order).take(k),
        decreases sorted@.len(),
    {
        assert(sorted@[0] == order[k]);
        let next = sorted.remove(0);
        let ghost before = views(entries@);
        entries.push(next.entry);
        proof {
            assert(views(entries@) =~= before.push(views(order)[k]));
            assert(views(order).take(k + 1) =~= views(order).take(k).push(views(order)[k]));
            assert(sorted@ =~= order.skip(k + 1));
            k = k + 1;
        }
    }
    assert(views(order).take(k) =~= views(order));
    entries
}

/// The entries at other paths.
pub open spec fn without_path(s: Seq<ReclaimableView>, path: Seq<u8>) -> Seq<ReclaimableView> {
    s.filter(|r: ReclaimableView| components(r.path) != components(path))
}

fn drop_path(entries: &mut Vec<Reclaimable>, path: &EntryPath)
    ensures
        views(final(entries)@) == without_path(views(old(entries)@), path@),
{
    let ghost all = views(entries@);
    let ghost keep = |r: ReclaimableView| components(r.path) != components(path@);
    let mut i: usize = 0;
    let ghost mut n: int = 0;
    proof {
        reveal(Seq::filter);
        assert(all.take(0) =~= Seq::<ReclaimableView>::empty());
        assert(views(entries@) =~= all.take(0).filter(keep) + all.skip(0));
    }
    while i < entries.len()
        invariant
            0 <= n <= all.len(),
            i == all.take(n).filter(keep).len(),
            views(entries@) == all.take(n).filter(keep) + all.skip(n),
            keep == |r: ReclaimableView| components(r.path) != components(path@),
        decreases entries@.len() - i,
    {
        let ghost kept = all.take(n).filter(keep);
        let ghost before = entries@;
        proof {
            assert(views(before).len() == kept.len() + (all.len() - n));
            assert(views(before)[i as int] == all[n]);
            reveal(Seq::filter);
            assert(all.take(n + 1).drop_last() =~= all.take(n));
            assert(all.take(n + 1).last() == all[n]);
        }
        if entries[i].path.same_as(path) {
            entries.remove(i);
            proof {
                assert(views(entries@) =~= views(before).remove(i as int));
                assert(views(before).remove(i as int) =~= kept + all.skip(n + 1));
            }
        } else {
            i += 1;
            proof {
                assert(views(entries@) =~= kept.push(all[n]) + all.skip(n + 1));
            }
        }
        proof {
            n = n + 1;
        }
    }
    proof {
        assert(views(entries@).len() == i + (all.len() - n));
        assert(all.take(n) =~= all);
        assert(views(entries@) =~= all.filter(keep));
    }
}

/// The tree without the entry at a path.
pub open spec fn pruned(root: Option<NodeView>, path: Seq<u8>) -> Option<NodeView> {
    match root {
        Some(r) => Some(rest_of(r, path)),
        None => None,
    }
}

/// The state without the entry at a path, in the tree and in the lists.
pub open spec fn cleared(v: AppView, path: Seq<u8>) -> AppView {
    AppView {
        root: pruned(v.root, path),
        system: without_path(v.system, path),
        artifacts: without_path(v.artifacts, path),
        ..v
    }
}

/// The state without the entries that were removed, one after the other.
pub open spec fn cleared_all(v: AppView, items: Seq<ReclaimableView>, done: Seq<bool>) -> AppView
    decreases items.len(),
{
    if items.len() == 0 {
        v
    } else {
        let w = cleared_all(v, items.drop_last(), done);
        if done[items.len() - 1] {
            cleared(w, items.last().path)
        } else {
            w
        }
    }
}

/// The bytes of the entries that were removed.
pub open spec fn freed_by(items: Seq<ReclaimableView>, done: Seq<bool>) -> nat
    decreases items.len(),
{
    if items.len() == 0 {
        0
    } else if done[items.len() - 1] {
        freed_by(items.drop_last(), done) + items.last().size as nat
    } else {
        freed_by(items.drop_last(), done)
    }
}

/// How many entries could not be removed.
pub open spec fn failures(items: Seq<ReclaimableView>, done: Seq<bool>) -> nat
    decreases items.len(),
{
    if items.len() == 0 {
        0
    } else if done[items.len() - 1] {
        failures(items.drop_last(), done)
    } else {
        failures(items.drop_last(), done) + 1
    }
}

/// The tree is one that can be shown, if there is one.
pub open spec fn has_sound_tree(v: AppView) -> bool {
    v.root matches Some(r) ==> tree_ok(r)
}

/// What is left of a tree that can be shown can be shown.
pub proof fn pruned_trees_can_be_shown(n: NodeView, path: Seq<u8>)
    requires
        tree_ok(n),
    ensures
        tree_ok(rest_of(n, path)),
{
    if without(n, path) is Some {
        removal_keeps_sizes_consistent(n, path);
        let gone = removal_takes_one_entry(n, path);
        let (front, back) = choose|front: Seq<NodeView>, back: Seq<NodeView>|
            files(n) == #[trigger] (front + files(gone) + back) && files(rest_of(n, path)) == front + back;
        assert(files(n).len() == front.len() + files(gone).len() + back.len());
    }
}

/// The outcome of a batch clear.
#[derive(Debug, Clone, Copy, PartialEq, Eq, Structural)]
pub struct ClearReport {
    /// The bytes that were freed.
    pub freed: u64,
    /// How many entries could not be removed.
    pub failed: usize,
}

impl AppState {
    /// The reclaim view is entered: the artifacts come straight from the scanned
    /// tree, the spots are yet to be measured, and whatever measurement is still
    /// running is superseded. Returns the generation of the new one.
    pub fn begin_measuring(&mut self) -> (generation: u64)
        requires
            old(self)@.root is Some,
            has_sound_tree(old(self)@),
        ensures
            generation == next_generation(old(self)@.reclaim_generation),
            old(self)@.root matches Some(r) && final(self)@ == (AppView {
                system: Seq::empty(),
                artifacts: sorted_stably(artifacts(r), reclaim_le()),
                reclaim_generation: generation,
                ..old(self)@
            }),
            old(self)@.wf() ==> final(self)@.wf(),
    {
        let generation: u64 = self.reclaim_generation.wrapping_add(1);
        self.reclaim_generation = generation;
        self.system = Vec::new();
        assert(views(self.system@) =~= Seq::<ReclaimableView>::empty());
        if let Some(root) = &self.root {
            proof {
                if !root@.is_dir {
                    assert(files_of(root@.children).len() == 0);
                }
            }
            self.artifacts = find_artifacts(root);
        }
        generation
    }

    /// A measurement has ended: keep its result, unless the user moved on or
    /// re-entered the view since. Says whether it was kept.
    pub fn measuring_settled(&mut self, generation: u64, system: Vec<Reclaimable>) -> (kept: bool)
        ensures
            kept == (old(self)@.reclaim_generation == generation && old(self)@.screen is Reclaim),
            final(self)@ == (if kept {
                AppView { system: views(system@), ..old(self)@ }
            } else {
                old(self)@
            }),
            old(self)@.wf() ==> final(self)@.wf(),
    {
        let on_screen = match self.screen {
            Screen::Reclaim => true,
            _ => false,
        };
        if self.reclaim_generation != generation || !on_screen {
            return false;
        }
        self.system = system;
        true
    }

    /// The entries that are ticked, spots before artifacts.
    pub fn selected_items(&self) -> (items: Vec<Reclaimable>)
        ensures
            views(items@) == ticked(self@),
    {
        let mut items: Vec<Reclaimable> = Vec::new();
        let ghost keep = is_ticked(self@);
        assert(views(items@) =~= Seq::<ReclaimableView>::empty());
        self.gather_ticked(self.system.as_slice(), &mut items);
        self.gather_ticked(self.artifacts.as_slice(), &mut items);
        proof {
            Seq::filter_distributes_over_add(self@.system, self@.artifacts, keep);
            assert(views(items@) =~= ticked(self@));
        }
        items
    }

    fn gather_ticked(&self, entries: &[Reclaimable], out: &mut Vec<Reclaimable>)
        ensures
            views(final(out)@) == views(old(out)@) + views(entries@).filter(is_ticked(self@)),
    {
        let ghost before = views(out@);
        let ghost all = views(entries@);
        let ghost keep = is_ticked(self@);
        let mut i: usize = 0;
        proof {
            reveal(Seq::filter);
            assert(all.take(0) =~= Seq::<ReclaimableView>::empty());
            assert(views(out@) =~= before + all.take(0).filter(keep));
        }
        while i < entries.len()
            invariant
                i <= entries@.len(),
                all == views(entries@),
                keep == is_ticked(self@),
                views(out@) == before + all.take(i as int).filter(keep),
            decreases entries@.len() - i,
        {
            let ghost so_far = views(out@);
            proof {
                reveal(Seq::filter);
                assert(all.take(i + 1).drop_last() =~= all.take(i as int));
                assert(all.take(i + 1).last() == entries@[i as int]@);
            }
            if self.reclaim_selected.contains(&entries[i].path) {
                out.push(entries[i].clone());
                assert(views(out@) =~= so_far.push(entries@[i as int]@));
            }
            assert(views(out@) =~= before + all.take(i + 1).filter(keep));
            i += 1;
        }
        assert(all.take(i as int) =~= all);
    }

    /// The measured entry at a path, if it is still there.
    pub fn item_at(&self, path: &EntryPath) -> (item: Option<Reclaimable>)
        ensures
            match item {
                Some(r) => first_at(self@.system + self@.artifacts, path@) == Some(r@),
                None => first_at(self@.system + self@.artifacts, path@) is None,
            },
    {
        let ghost all = self@.system + self@.artifacts;
        let n: usize = self.system.len();
        let mut i: usize = 0;
        while i < self.system.len()
            invariant
                i <= self.system@.len(),
                all == self@.system + self@.artifacts,
                forall|k: int| 0 <= k < i ==> components((#[trigger] all[k]).path) != components(path@),
            decreases self.system@.len() - i,
        {
            assert(all[i as int] == self.system@[i as int]@);
            if self.system[i].path.same_as(path) {
                proof {
                    lemma_first_at(all, path@, i as int);
                }
                return Some(self.system[i].clone());
            }
            i += 1;
        }
        let mut j: usize = 0;
        while j < self.artifacts.len()
            invariant
                j <= self.artifacts@.len(),
                n == self.system@.len(),
                all == self@.system + self@.artifacts,
                forall|k: int| 0 <= k < n + j ==> components((#[trigger] all[k]).path) != components(path@),
            decreases self.artifacts@.len() - j,
        {
            assert(all[n + j] == self.artifacts@[j as int]@);
            if self.artifacts[j].path.same_as(path) {
                proof {
                    lemma_first_at(all, path@, n + j);
                }
                return Some(self.artifacts[j].clone());
            }
            j += 1;
        }
        proof {
            lemma_first_at(all, path@, all.len() as int);
        }
        None
    }

    /// Patch the in-memory tree to drop `path` — the instant alternative to a full
    /// rescan after a delete or trash. A `path` outside the scanned root is simply a
    /// no-op.
    pub fn prune(&mut self, path: &EntryPath)
        requires
            has_sound_tree(old(self)@),
        ensures
            final(self)@ == (AppView { root: pruned(old(self)@.root, path@), ..old(self)@ }),
            has_sound_tree(final(self)@),
            (final(self)@.root matches Some(r) ==> final(self)@.screen matches ScreenView::Folder(p) ==> leads(r, p))
                ==> final(self)@.wf(),
    {
        proof {
            if let Some(r) = self@.root {
                pruned_trees_can_be_shown(r, path@);
                consistent_trees_can_shrink(r, path@);
            }
        }
        if let Some(root) = &mut self.root {
            remove(root, path);
        }
    }

    /// An entry was cleared: patch the tree and the already-measured lists in place,
    /// with no full rescan and no re-measuring.
    pub fn note_cleared(&mut self, path: &EntryPath)
        requires
            has_sound_tree(old(self)@),
        ensures
            final(self)@ == cleared(old(self)@, path@),
            has_sound_tree(final(self)@),
    {
        self.prune(path);
        drop_path(&mut self.system, path);
        drop_path(&mut self.artifacts, path);
    }

    /// A batch clear has ended: take what was removed out of the tree and the lists,
    /// untick everything, and report. `done` says of each item whether it was removed.
    pub fn clear_selected(&mut self, items: &[Reclaimable], done: &[bool]) -> (report: ClearReport)
        requires
            has_sound_tree(old(self)@),
            items@.len() == done@.len(),
            sum_reclaimed(views(items@)) <= u64::MAX,
        ensures
            final(self)@ == (AppView {
                selected: Set::empty(),
                ..cleared_all(old(self)@, views(items@), done@)
            }),
            has_sound_tree(final(self)@),
            report.freed == freed_by(views(items@), done@),
            report.failed == failures(views(items@), done@),
    {
        let ghost before = self@;
        let ghost all = views(items@);
        let mut freed: u64 = 0;
        let mut failed: usize = 0;
        let mut i: usize = 0;
        assert(all.take(0) =~= Seq::<ReclaimableView>::empty());
        while i < items.len()
            invariant
                i <= items@.len(),
                items@.len() == done@.len(),
                all == views(items@),
                sum_reclaimed(all) <= u64::MAX,
                has_sound_tree(self@),
                self@ == cleared_all(before, all.take(i as int), done@),
                freed == freed_by(all.take(i as int), done@),
                failed == failures(all.take(i as int), done@),
                failed <= i,
            decreases items@.len() - i,
        {
            proof {
                assert(all.take(i + 1).drop_last() =~= all.take(i as int));
                assert(all.take(i + 1).last() == items@[i as int]@);
                lemma_freed_at_most(all.take(i + 1), done@);
                lemma_sum_reclaimed_prefix(all, i + 1);
            }
            if done[i] {
                freed = freed + items[i].size;
                self.note_cleared(&items[i].path);
            } else {
                failed = failed + 1;
            }
            i += 1;
        }
        assert(all.take(i as int) =~= all);
        self.reclaim_selected.clear();
        ClearReport { freed, failed }
    }
}

/// The entries whose paths are ticked.
pub open spec fn is_ticked(v: AppView) -> spec_fn(ReclaimableView) -> bool {
    |r: ReclaimableView| v.selected.contains(components(r.path))
}

/// The entries that are ticked, spots before artifacts.
pub open spec fn ticked(v: AppView) -> Seq<ReclaimableView> {
    (v.system + v.artifacts).filter(is_ticked(v))
}

/// The first entry at a path.
pub open spec fn first_at(s: Seq<ReclaimableView>, path: Seq<u8>) -> Option<ReclaimableView>
    decreases s.len(),
{
    if s.len() == 0 {
        None
    } else if components(s[0].path) == components(path) {
        Some(s[0])
    } else {
        first_at(s.drop_first(), path)
    }
}

proof fn lemma_first_at(s: Seq<ReclaimableView>, path: Seq<u8>, i: int)
    requires
        0 <= i <= s.len(),
        forall|k: int| 0 <= k < i ==> components((#[trigger] s[k]).path) != components(path),
        i < s.len() ==> components(s[i].path) == components(path),
    ensures
        first_at(s, path) == (if i < s.len() {
            Some(s[i])
        } else {
            None
        }),
    decreases s.len(),
{
    if s.len() > 0 && i > 0 {
        let t = s.drop_first();
        assert(components(s[0].path) != components(path));
        assert forall|k: int| 0 <= k < i - 1 implies components((#[trigger] t[k]).path) != components(path) by {
            assert(t[k] == s[k + 1]);
        }
        lemma_first_at(t, path, i - 1);
    }
}

proof fn lemma_freed_at_most(items: Seq<ReclaimableView>, done: Seq<bool>)
    ensures
        freed_by(items, done) <= sum_reclaimed(items),
    decreases items.len(),
{
    if items.len() > 0 {
        lemma_freed_at_most(items.drop_last(), done);
    }
}

proof fn lemma_sum_reclaimed_prefix(s: Seq<ReclaimableView>, n: int)
    requires
        0 <= n <= s.len(),
    ensures
        sum_reclaimed(s.take(n)) <= sum_reclaimed(s),
    decreases s.len(),
{
    if n < s.len() {
        lemma_sum_reclaimed_prefix(s.drop_last(), n);
        assert(s.drop_last().take(n) =~= s.take(n));
    } else {
        assert(s.take(n) =~= s);
    }
}

/// One of the entries that were removed has the path.
pub open spec fn was_removed(items: Seq<ReclaimableView>, done: Seq<bool>, path: Seq<u8>) -> bool {
    exists|i: int| 0 <= i < items.len() && done[i] && components((#[trigger] items[i]).path) == components(path)
}

/// The entries that were not removed.
pub open spec fn stays(items: Seq<ReclaimableView>, done: Seq<bool>) -> spec_fn(ReclaimableView) -> bool {
    |r: ReclaimableView| !was_removed(items, done, r.path)
}

/// A batch clear takes out what was removed and nothing else: in both lists, the
/// entries that stay are those at other paths than the removed ones, in the order in
/// which they were.
pub proof fn batch_clear_takes_out_what_was_removed(v: AppView, items: Seq<ReclaimableView>, done: Seq<bool>)
    ensures
        cleared_all(v, items, done).system == v.system.filter(stays(items, done)),
        cleared_all(v, items, done).artifacts == v.artifacts.filter(stays(items, done)),
    decreases items.len(),
{
    let now = stays(items, done);
    if items.len() == 0 {
        assert forall|r: ReclaimableView| #[trigger] now(r) by {}
        lemma_filter_all(v.system, now);
        lemma_filter_all(v.artifacts, now);
    } else {
        let front = items.drop_last();
        let last = items.last();
        let before = stays(front, done);
        batch_clear_takes_out_what_was_removed(v, front, done);
        assert forall|r: ReclaimableView| #[trigger] now(r) <==> before(r) && !(done[items.len() - 1] && components(
            last.path,
        ) == components(r.path)) by {
            if was_removed(front, done, r.path) {
                let i = choose|i: int|
                    0 <= i < front.len() && done[i] && components((#[trigger] front[i]).path) == components(r.path);
                assert(items[i] == front[i]);
            }
            if done[items.len() - 1] && components(last.path) == components(r.path) {
                assert(items[items.len() - 1] == last);
            }
            if was_removed(items, done, r.path) {
                let i = choose|i: int|
                    0 <= i < items.len() && done[i] && components((#[trigger] items[i]).path) == components(r.path);
                if i < front.len() {
                    assert(front[i] == items[i]);
                }
            }
        }
        if done[items.len() - 1] {
            let other = |r: ReclaimableView| components(r.path) != components(last.path);
            lemma_filter_twice(v.system, before, other, now);
            lemma_filter_twice(v.artifacts, before, other, now);
        } else {
            assert(now =~= before);
        }
    }
}

proof fn lemma_filter_all(s: Seq<ReclaimableView>, p: spec_fn(ReclaimableView) -> bool)
    requires
        forall|r: ReclaimableView| #[trigger] p(r),
    ensures
        s.filter(p) == s,
    decreases s.len(),
{
    reveal(Seq::filter);
    if s.len() > 0 {
        lemma_filter_all(s.drop_last(), p);
        assert(p(s.last()));
        assert(s =~= s.drop_last().push(s.last()));
    }
}

/// Clearing an entry shrinks the tree by the size of the entry that goes, and by
/// nothing where there is no such entry.
pub proof fn clearing_shrinks_the_tree(v: AppView, path: Seq<u8>)
    requires
        has_sound_tree(v),
    ensures
        v.root matches Some(r) ==> (cleared(v, path).root matches Some(rest) && rest.size + freed_of(r, path) == r.size),
{
    if let Some(r) = v.root {
        if without(r, path) is Some {
            removal_keeps_sizes_consistent(r, path);
        }
    }
}

/// Removing a row that a folder shows keeps the state well-formed: the folder is still
/// there to be shown.
pub proof fn pruning_a_shown_row_keeps_the_folder(v: AppView, root: NodeView, path: Seq<int>, row: int)
    requires
        v.wf(),
        v.root == Some(root),
        v.screen == ScreenView::Folder(path),
        nests(root),
        0 <= row < node_at(root, path).children.len(),
    ensures
        (AppView { root: pruned(v.root, node_at(root, path).children[row].path), ..v }).wf(),
{
    removing_a_shown_row_keeps_the_folder(root, path, row);
    pruned_trees_can_be_shown(root, node_at(root, path).children[row].path);
}

} // verus!
