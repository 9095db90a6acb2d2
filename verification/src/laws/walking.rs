//! Walking a folder: the steps of a walk, the progress it reports, and cancelling it.
use vstd::prelude::*;

use crate::laws::scanning::{
    bytes_counted, entry_place, leaves, lemma_scanned_len, lemma_settled_walk, walk, walk_all,
};
use crate::path::EntryPath;
use crate::scan::{
    entry_count, entry_count_all, last_dir, last_dir_all, leaf_size, scan, scan_cancellable, scan_unless, settled,
    unless_cancelled, visit, walk_threads, CancelFlag, EntryMeta, Listing, ListingView, Node, ScanError, ScanProgress,
    SeenInodes, Visit,
};

verus! {

/// A leaf counts for its length, unless it is a regular file with more than one link
/// whose inode has counted already: then it counts for nothing. The inodes remembered
/// are those of regular files with more than one link, and no others.
pub proof fn a_leaf_counts_unless_its_inode_has(meta: &EntryMeta, seen: &mut SeenInodes, size: u64, id: (u64, u64))
    requires
        call_ensures(leaf_size, (meta, seen), size),
    ensures
        meta.is_file && meta.nlink > 1 && old(seen)@.contains((meta.dev, meta.ino)) ==> size == 0,
        !(meta.is_file && meta.nlink > 1 && old(seen)@.contains((meta.dev, meta.ino))) ==> size == meta.len,
        final(seen)@.contains(id) <==> old(seen)@.contains(id) || (meta.is_file && meta.nlink > 1 && id == (
            meta.dev,
            meta.ino,
        )),
{
}

/// One step of a walk: a cancelled walk stops and changes nothing; a directory is
/// entered, with no bytes of its own; anything else is counted there and then, and
/// nothing behind it is read.
pub proof fn a_step_counts_or_enters_or_stops(
    path: &EntryPath,
    meta: &EntryMeta,
    cancelled: bool,
    seen: &mut SeenInodes,
    progress: &mut ScanProgress,
    step: Visit,
)
    requires
        call_ensures(visit, (path, meta, cancelled, seen, progress), step),
    ensures
        cancelled ==> step is Stop && final(seen)@ == old(seen)@ && final(progress)@ == old(progress)@,
        !cancelled && meta.is_dir ==> {
            &&& step is Enter
            &&& final(seen)@ == old(seen)@
            &&& final(progress)@.bytes == old(progress)@.bytes
            &&& final(progress)@.current == path@
        },
        !cancelled && !meta.is_dir ==> {
            let repeated = meta.is_file && meta.nlink > 1 && old(seen)@.contains((meta.dev, meta.ino));
            let bytes = if repeated {
                0
            } else {
                meta.len
            };
            &&& step == Visit::Leaf { size: bytes }
            &&& final(seen)@ == (if meta.is_file && meta.nlink > 1 {
                old(seen)@.insert((meta.dev, meta.ino))
            } else {
                old(seen)@
            })
            &&& final(progress)@.bytes == (old(progress)@.bytes + bytes) % 0x1_0000_0000_0000_0000
            &&& final(progress)@.current == old(progress)@.current
        },
        !cancelled ==> final(progress)@.items == (old(progress)@.items + 1) % 0x1_0000_0000_0000_0000,
{
}

/// The directories among what was read.
pub open spec fn directories(s: Seq<ListingView>) -> Seq<ListingView> {
    s.filter(|e: ListingView| e.meta.is_dir)
}

proof fn lemma_entry_count(l: ListingView)
    ensures
        entry_count(l) == walk(l).len(),
    decreases l, 1nat,
{
    if l.meta.is_dir {
        lemma_entry_count_all(l.entries);
    }
}

proof fn lemma_entry_count_all(s: Seq<ListingView>)
    ensures
        entry_count_all(s) == walk_all(s).len(),
    decreases s, 0nat,
{
    if s.len() > 0 {
        lemma_entry_count_all(s.drop_last());
        lemma_entry_count(s.last());
    }
}

spec fn last_path(s: Seq<ListingView>, before: Seq<u8>) -> Seq<u8> {
    if directories(s).len() > 0 {
        directories(s).last().path
    } else {
        before
    }
}

proof fn lemma_last_dir(l: ListingView, before: Seq<u8>)
    ensures
        last_dir(l, before) == last_path(walk(l), before),
    decreases l, 1nat,
{
    let d = |e: ListingView| e.meta.is_dir;
    reveal(Seq::filter);
    reveal_with_fuel(Seq::filter, 2);
    assert(seq![l].drop_last() =~= Seq::<ListingView>::empty());
    if l.meta.is_dir {
        lemma_last_dir_all(l.entries, l.path);
        Seq::filter_distributes_over_add(seq![l], walk_all(l.entries), d);
        assert(seq![l].filter(d) =~= seq![l]);
        let all = seq![l] + walk_all(l.entries).filter(d);
        assert(directories(walk(l)) == all);
        if walk_all(l.entries).filter(d).len() > 0 {
            assert(all.last() == walk_all(l.entries).filter(d).last());
        }
    } else {
        assert(seq![l].filter(d) =~= Seq::<ListingView>::empty());
    }
}

proof fn lemma_last_dir_all(s: Seq<ListingView>, before: Seq<u8>)
    ensures
        last_dir_all(s, before) == last_path(walk_all(s), before),
    decreases s, 0nat,
{
    let d = |e: ListingView| e.meta.is_dir;
    if s.len() > 0 {
        let front = s.drop_last();
        lemma_last_dir_all(front, before);
        lemma_last_dir(s.last(), last_dir_all(front, before));
        Seq::filter_distributes_over_add(walk_all(front), walk(s.last()), d);
        let a = walk_all(front).filter(d);
        let b = walk(s.last()).filter(d);
        if b.len() > 0 {
            assert((a + b).last() == b.last());
        } else {
            assert(a + b =~= a);
        }
    } else {
        reveal(Seq::filter);
    }
}

proof fn lemma_settled_last_path(l: ListingView, before: Seq<u8>)
    ensures
        last_path(walk(settled(l, Set::empty()).0), before) == last_path(walk(l), before),
{
    lemma_settled_walk(l, Set::empty());
    let a = walk(settled(l, Set::empty()).0);
    let f = |e: ListingView| e.path;
    lemma_same_places(a, walk(l));
    let x = directories(a);
    let y = directories(walk(l));
    assert(x.map_values(f).len() == x.len() && y.map_values(f).len() == y.len());
    if x.len() > 0 {
        assert(x.map_values(f).last() == x.last().path && y.map_values(f).last() == y.last().path);
    }
}

proof fn lemma_same_places(a: Seq<ListingView>, b: Seq<ListingView>)
    requires
        a.map_values(entry_place()) == b.map_values(entry_place()),
    ensures
        directories(a).map_values(|e: ListingView| e.path) == directories(b).map_values(|e: ListingView| e.path),
    decreases a.len(),
{
    let p = entry_place();
    let f = |e: ListingView| e.path;
    assert(a.map_values(p).len() == a.len() && b.map_values(p).len() == b.len());
    reveal(Seq::filter);
    if a.len() > 0 {
        assert(a.drop_last().map_values(p) =~= a.map_values(p).drop_last());
        assert(b.drop_last().map_values(p) =~= b.map_values(p).drop_last());
        lemma_same_places(a.drop_last(), b.drop_last());
        assert(a.map_values(p).last() == p(a.last()) && b.map_values(p).last() == p(b.last()));
        let x = directories(a.drop_last());
        let y = directories(b.drop_last());
        assert(x.push(a.last()).map_values(f) =~= x.map_values(f).push(f(a.last())));
        assert(y.push(b.last()).map_values(f) =~= y.map_values(f).push(f(b.last())));
    } else {
        assert(directories(a).map_values(f) =~= directories(b).map_values(f));
    }
}

/// Progress counts everything that was read, files and directories alike, and the bytes
/// that count, and ends in the directory that was read last; both counters wrap around.
pub proof fn progress_tells_what_was_read(root: Listing, progress: &mut ScanProgress, tree: Result<Node, ScanError>)
    requires
        call_ensures(scan_unless, (Some(root), false, progress), tree),
    ensures
        final(progress)@.items == (old(progress)@.items + walk(root@).len()) % 0x1_0000_0000_0000_0000,
        final(progress)@.bytes == (old(progress)@.bytes + bytes_counted(leaves(root@))) % 0x1_0000_0000_0000_0000,
        directories(walk(root@)).len() > 0 ==> final(progress)@.current == directories(walk(root@)).last().path,
        directories(walk(root@)).len() == 0 ==> final(progress)@.current == old(progress)@.current,
{
    let m = settled(root@, Set::empty()).0;
    lemma_entry_count(m);
    lemma_settled_walk(root@, Set::empty());
    lemma_scanned_len(root@);
    lemma_last_dir(m, old(progress)@.current);
    lemma_settled_last_path(root@, old(progress)@.current);
    assert(walk(m).len() == walk(m).map_values(entry_place()).len());
    assert(walk(root@).len() == walk(root@).map_values(entry_place()).len());
}

/// A new progress has nothing to tell yet.
pub proof fn progress_starts_at_nothing(new: ScanProgress, default: ScanProgress)
    requires
        call_ensures(ScanProgress::new, (), new),
        call_ensures(<ScanProgress as Default>::default, (), default),
    ensures
        new@.items == 0 && new@.bytes == 0 && new@.current.len() == 0,
        default@ == new@,
{
}

/// Whether the flag was read as set decides, before anything else: a cancelled scan is
/// interrupted, with or without a root that could be read, and reports nothing; a scan
/// that is not cancelled fails exactly where the root could not be read.
pub proof fn cancelled_scans_are_interrupted(
    root: Option<Listing>,
    cancelled: bool,
    progress: &mut ScanProgress,
    tree: Result<Node, ScanError>,
)
    requires
        call_ensures(scan_unless, (root, cancelled, progress), tree),
    ensures
        cancelled ==> (tree matches Err(e) && e == ScanError::Interrupted) && final(progress)@ == old(progress)@,
        !cancelled && root is None ==> (tree matches Err(e) && e == ScanError::Unreadable),
        !cancelled && root is Some ==> tree is Ok,
{
}

/// A scan that is cancelled meanwhile is interrupted, whatever it has come to.
pub proof fn cancelling_meanwhile_interrupts(
    tree: Result<Node, ScanError>,
    cancelled: bool,
    result: Result<Node, ScanError>,
)
    requires
        call_ensures(unless_cancelled, (tree, cancelled), result),
    ensures
        cancelled ==> (result matches Err(e) && e == ScanError::Interrupted),
        !cancelled ==> result == tree,
{
}

/// A flag that is never set changes nothing; a flag that is always set interrupts; and
/// an interrupted scan never gives a tree, while one that gives a tree gives the same
/// as a scan that cannot be cancelled.
pub proof fn cancellable_scans_are_scans(
    root: Option<Listing>,
    cancel: &CancelFlag,
    plain: Result<Node, ScanError>,
    tree: Result<Node, ScanError>,
)
    requires
        call_ensures(scan, (root,), plain),
        call_ensures(scan_cancellable, (root, cancel), tree),
    ensures
        tree matches Ok(t) ==> (plain matches Ok(p) && t@ == p@),
        tree matches Err(e) ==> e == ScanError::Interrupted || (root is None && e == ScanError::Unreadable),
        !call_ensures(CancelFlag::is_cancelled, (cancel,), true) ==> !(tree matches Err(e) && e == ScanError::Interrupted),
        !call_ensures(CancelFlag::is_cancelled, (cancel,), false) ==> (tree matches Err(e) && e == ScanError::Interrupted),
{
}

/// A walk uses one thread per core, never none and never more than eight, and four
/// where the number of cores is not known.
pub proof fn walks_are_bounded(cores: Option<usize>, threads: usize)
    requires
        call_ensures(walk_threads, (cores,), threads),
    ensures
        1 <= threads <= 8,
        cores matches Some(n) ==> (1 <= n <= 8 ==> threads == n),
        cores matches Some(n) ==> (n > 8 ==> threads == 8),
        cores matches Some(n) ==> (n == 0 ==> threads == 1),
        cores is None ==> threads == 4,
{
}

} // verus!
