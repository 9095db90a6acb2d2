//! The disk-usage scan engine: from what a walk of the disk has read to a tree with
//! its sizes totalled.
use std::collections::HashSet;
use std::sync::atomic::{AtomicBool, Ordering};
use std::sync::Arc;

use rayon::iter::{IntoParallelIterator, ParallelIterator};
use vstd::prelude::*;
use vstd::std_specs::hash::*;
use vstd::string::*;
use vstd::utf8::{decode_utf8, valid_utf8};

use crate::order::{merge_sort, sorted_by, sorted_stably, stable_sort_exists, views};
use crate::path::{file_name, EntryPath};
use crate::text::{lossy_text, read_lossy};
use crate::tree::{
    consistent, files, files_of, forest, lemma_files_len_permutation, lemma_forest_len_permutation, lemma_node_view,
    lemma_one_more, lemma_sum_permutation, lemma_sum_sizes_add, node_le, node_order_is_total, ordered, preorder, sum_sizes,
    NodeView,
};

pub use crate::query::{remove, search};
pub use crate::tree::Node;

verus! {

/// A shared, cheaply-clonable flag for cancelling an in-progress [`scan`].
///
/// All clones share one underlying state, so the UI can hold one clone, hand
/// another to the scanning worker thread, and cancel the scan by flipping the
/// flag the worker is polling. A cancelled scan returns [`ScanError::Interrupted`].
///
/// What the state holds at a moment depends on who else has a clone, so no contract
/// speaks of it; the functions that act on it take what was read.
#[derive(Debug)]
pub struct CancelFlag {
    shared: Arc<AtomicBool>,
}

impl CancelFlag {
    /// A fresh flag that is not yet cancelled.
    pub fn new() -> CancelFlag {
        CancelFlag { shared: Arc::new(AtomicBool::new(false)) }
    }

    /// Request cancellation. Observable through every clone.
    pub fn cancel(&self) {
        self.shared.store(true, Ordering::Relaxed);
    }

    /// Whether cancellation has been requested.
    pub fn is_cancelled(&self) -> bool {
        self.shared.load(Ordering::Relaxed)
    }
}

impl Clone for CancelFlag {
    /// Another handle to the same state.
    fn clone(&self) -> (copy: CancelFlag)
        ensures
            copy == *self,
    {
        CancelFlag { shared: self.shared.clone() }
    }
}

impl Default for CancelFlag {
    fn default() -> CancelFlag {
        CancelFlag::new()
    }
}

/// Why a scan has no tree to show.
#[derive(Debug, Clone, Copy, PartialEq, Eq, Structural)]
pub enum ScanError {
    /// The root itself cannot be read.
    Unreadable,
    /// The scan was cancelled.
    Interrupted,
}

/// What the disk says of one entry, without following a symlink.
#[derive(Debug, Clone, Copy, PartialEq, Eq, Structural)]
pub struct EntryMeta {
    /// A directory.
    pub is_dir: bool,
    /// A regular file; neither a directory nor a symlink nor anything special.
    pub is_file: bool,
    /// How many hardlinks the inode has.
    pub nlink: u64,
    /// The device that holds the inode.
    pub dev: u64,
    /// The number of the inode on its device.
    pub ino: u64,
    /// The length in bytes.
    pub len: u64,
}

/// The entry is a regular file with more than one name.
pub open spec fn is_shared(meta: EntryMeta) -> bool {
    meta.is_file && meta.nlink > 1
}

/// The device and number of an entry's inode.
pub open spec fn inode(meta: EntryMeta) -> (u64, u64) {
    (meta.dev, meta.ino)
}

/// The inode's bytes are counted already.
pub open spec fn is_repeat(meta: EntryMeta, seen: Set<(u64, u64)>) -> bool {
    is_shared(meta) && seen.contains(inode(meta))
}

/// The size that a leaf counts for, when the inodes `seen` are counted already.
pub open spec fn counted(meta: EntryMeta, seen: Set<(u64, u64)>) -> u64 {
    if is_repeat(meta, seen) {
        0
    } else {
        meta.len
    }
}

/// How many threads a walk uses: one per core, but no more than eight, as reading
/// metadata does not speed up past a handful of concurrent readers; four where the
/// number of cores is not known.
pub fn walk_threads(cores: Option<usize>) -> (threads: usize)
    ensures
        threads == (match cores {
            Some(n) => if n < 1 {
                1
            } else if n > 8 {
                8
            } else {
                n
            },
            None => 4,
        }),
{
    match cores {
        Some(n) => if n < 1 {
            1
        } else if n > 8 {
            8
        } else {
            n
        },
        None => 4,
    }
}

/// The inodes counted, with those of one more leaf.
pub open spec fn seen_with(meta: EntryMeta, seen: Set<(u64, u64)>) -> Set<(u64, u64)> {
    if is_shared(meta) {
        seen.insert(inode(meta))
    } else {
        seen
    }
}

/// One number for a device and an inode number.
spec fn inode_key(dev: u64, ino: u64) -> u128 {
    (dev * 0x1_0000_0000_0000_0000 + ino) as u128
}

/// The inodes of multiply-linked files that are counted already.
#[derive(Debug)]
pub struct SeenInodes {
    keys: HashSet<u128>,
}

impl View for SeenInodes {
    type V = Set<(u64, u64)>;

    closed spec fn view(&self) -> Set<(u64, u64)> {
        Set::new(|p: (u64, u64)| self.keys@.contains(inode_key(p.0, p.1)))
    }
}

impl SeenInodes {
    /// No inode counted yet.
    pub fn new() -> (seen: SeenInodes)
        ensures
            seen@ == Set::<(u64, u64)>::empty(),
    {
        broadcast use group_hash_axioms;

        let seen = SeenInodes { keys: HashSet::new() };
        assert(seen@ =~= Set::<(u64, u64)>::empty());
        seen
    }

    /// Counts an inode, and says whether it is new.
    pub fn insert(&mut self, dev: u64, ino: u64) -> (fresh: bool)
        ensures
            fresh == !old(self)@.contains((dev, ino)),
            final(self)@ == old(self)@.insert((dev, ino)),
    {
        broadcast use group_hash_axioms;

        let ghost before = self@;
        let key: u128 = dev as u128 * 0x1_0000_0000_0000_0000u128 + ino as u128;
        let fresh = self.keys.insert(key);
        assert(self@ =~= before.insert((dev, ino)));
        fresh
    }
}

/// The size to attribute to a leaf, de-duplicating hardlinks.
///
/// A regular file with more than one hardlink is counted only the first time its
/// inode is seen; subsequent links report 0 so their shared data isn't counted
/// twice. Symlinks and singly-linked files always report their own length.
pub fn leaf_size(meta: &EntryMeta, seen: &mut SeenInodes) -> (size: u64)
    ensures
        size == counted(*meta, old(seen)@),
        final(seen)@ == seen_with(*meta, old(seen)@),
{
    if meta.is_file && meta.nlink > 1 {
        if !seen.insert(meta.dev, meta.ino) {
            return 0;
        }
    }
    meta.len
}

/// How far a scan has come.
pub struct ProgressView {
    pub items: u64,
    pub bytes: u64,
    pub current: Seq<u8>,
}

/// Progress of an in-flight [`scan`], so a long walk can show its heartbeat instead
/// of a blind spinner.
#[derive(Debug)]
pub struct ScanProgress {
    items: u64,
    bytes: u64,
    current: EntryPath,
}

impl View for ScanProgress {
    type V = ProgressView;

    closed spec fn view(&self) -> ProgressView {
        ProgressView { items: self.items, bytes: self.bytes, current: self.current@ }
    }
}

/// `a + b`, wrapping around at the top of the counter's range.
pub open spec fn wrapped_sum(a: u64, b: nat) -> u64 {
    ((a + b) % 0x1_0000_0000_0000_0000) as u64
}

impl Default for ScanProgress {
    fn default() -> (progress: ScanProgress)
        ensures
            progress@ == (ProgressView { items: 0, bytes: 0, current: Seq::empty() }),
    {
        ScanProgress::new()
    }
}

impl ScanProgress {
    /// A fresh, zeroed progress handle.
    pub fn new() -> (progress: ScanProgress)
        ensures
            progress@ == (ProgressView { items: 0, bytes: 0, current: Seq::empty() }),
    {
        let none: Vec<u8> = Vec::new();
        ScanProgress { items: 0, bytes: 0, current: EntryPath::from_bytes(none) }
    }

    /// Entries (files **and** directories) visited so far.
    pub fn items(&self) -> (items: u64)
        ensures
            items == self@.items,
    {
        self.items
    }

    /// Bytes totalled so far (hardlink-deduplicated, like the final tree).
    pub fn bytes(&self) -> (bytes: u64)
        ensures
            bytes == self@.bytes,
    {
        self.bytes
    }

    /// The directory the walk is currently reading, or empty before it starts.
    pub fn current(&self) -> (path: EntryPath)
        ensures
            path@ == self@.current,
    {
        self.current.clone()
    }

    /// One more entry, of this many bytes.
    pub fn record(&mut self, bytes: u64)
        ensures
            final(self)@ == (ProgressView {
                items: wrapped_sum(old(self)@.items, 1),
                bytes: wrapped_sum(old(self)@.bytes, bytes as nat),
                current: old(self)@.current,
            }),
    {
        self.items = self.items.wrapping_add(1);
        if bytes > 0 {
            self.bytes = self.bytes.wrapping_add(bytes);
        }
    }

    /// The walk reads a directory.
    pub fn enter(&mut self, dir: &EntryPath)
        ensures
            final(self)@ == (ProgressView { current: dir@, ..old(self)@ }),
    {
        self.current = dir.clone();
    }
}

/// What a walk does with an entry.
#[derive(Debug, Clone, Copy, PartialEq, Eq, Structural)]
pub enum Visit {
    /// Go no further: the walk is cancelled.
    Stop,
    /// It is a leaf, which counts for this many bytes.
    Leaf { size: u64 },
    /// It is a directory, whose entries are to be read.
    Enter,
}

/// One step of a walk: what it does with an entry, the inodes counted after it, and
/// how far it has come. A leaf is counted and recorded; a directory is entered and
/// recorded with no bytes of its own; a cancelled walk changes nothing.
pub open spec fn visited(path: Seq<u8>, meta: EntryMeta, cancelled: bool, seen: Set<(u64, u64)>, p: ProgressView) -> (
    Visit,
    Set<(u64, u64)>,
    ProgressView,
) {
    if cancelled {
        (Visit::Stop, seen, p)
    } else if meta.is_dir {
        (Visit::Enter, seen, ProgressView { items: wrapped_sum(p.items, 1), bytes: p.bytes, current: path })
    } else {
        let size = counted(meta, seen);
        (
            Visit::Leaf { size },
            seen_with(meta, seen),
            ProgressView {
                items: wrapped_sum(p.items, 1),
                bytes: wrapped_sum(p.bytes, size as nat),
                current: p.current,
            },
        )
    }
}

/// One step of a walk. `cancelled` is what was read of the cancel flag.
pub fn visit(
    path: &EntryPath,
    meta: &EntryMeta,
    cancelled: bool,
    seen: &mut SeenInodes,
    progress: &mut ScanProgress,
) -> (step: Visit)
    ensures
        (step, final(seen)@, final(progress)@) == visited(path@, *meta, cancelled, old(seen)@, old(progress)@),
{
    if cancelled {
        return Visit::Stop;
    }
    if !meta.is_dir {
        // Files and symlinks are leaves; count their own length only.
        let size = leaf_size(meta, seen);
        progress.record(size);
        return Visit::Leaf { size };
    }
    progress.enter(path);
    // The directory itself is one visited entry.
    progress.record(0);
    Visit::Enter
}

/// The model of a [`Listing`].
#[verifier::ext_equal]
pub struct ListingView {
    pub path: Seq<u8>,
    pub meta: EntryMeta,
    pub entries: Seq<ListingView>,
}

/// What a walk has read of one entry and, for a directory, of the entries in it that
/// could be read.
#[derive(Debug)]
pub struct Listing {
    pub path: EntryPath,
    pub meta: EntryMeta,
    pub entries: Vec<Listing>,
}

/// The model of a listing: its fields, and the models of its entries.
pub open spec fn listing_model(l: Listing) -> ListingView
    decreases l,
{
    ListingView {
        path: l.path@,
        meta: l.meta,
        entries: Seq::new(
            l.entries@.len(),
            |i: int|
                if 0 <= i < l.entries@.len() {
                    listing_model(l.entries@[i])
                } else {
                    arbitrary()
                },
        ),
    }
}

impl View for Listing {
    type V = ListingView;

    open spec fn view(&self) -> ListingView {
        listing_model(*self)
    }
}

/// The model of a listing has its fields, and the models of its entries.
pub proof fn lemma_listing_view(l: Listing)
    ensures
        l@.entries == views(l.entries@),
        l@.path == l.path@,
        l@.meta == l.meta,
{
    let c = l@.entries;
    assert(c.len() == l.entries@.len());
    assert forall|i: int| 0 <= i < c.len() implies c[i] == l.entries@[i]@ by {}
    assert(c =~= views(l.entries@));
}

/// The listing with every leaf's length replaced by the size that it counts for, and
/// the inodes counted at the end. The walk goes through the entries in order.
pub open spec fn settled(l: ListingView, seen: Set<(u64, u64)>) -> (ListingView, Set<(u64, u64)>)
    decreases l,
{
    if l.meta.is_dir {
        let (entries, after) = settled_all(l.entries, seen);
        (ListingView { entries, ..l }, after)
    } else {
        (
            ListingView { meta: EntryMeta { len: counted(l.meta, seen), ..l.meta }, ..l },
            seen_with(l.meta, seen),
        )
    }
}

/// Several listings settled, one after the other.
pub open spec fn settled_all(s: Seq<ListingView>, seen: Set<(u64, u64)>) -> (Seq<ListingView>, Set<(u64, u64)>)
    decreases s,
{
    if s.len() == 0 {
        (Seq::empty(), seen)
    } else {
        let (front, between) = settled_all(s.drop_last(), seen);
        let (last, after) = settled(s.last(), between);
        (front.push(last), after)
    }
}

/// The bytes of all leaves.
pub open spec fn total_len(l: ListingView) -> nat
    decreases l,
{
    if l.meta.is_dir {
        total_len_all(l.entries)
    } else {
        l.meta.len as nat
    }
}

/// The bytes of all leaves of several listings.
pub open spec fn total_len_all(s: Seq<ListingView>) -> nat
    decreases s,
{
    if s.len() == 0 {
        0
    } else {
        total_len_all(s.drop_last()) + total_len(s.last())
    }
}

/// How many entries a walk visits.
pub open spec fn entry_count(l: ListingView) -> nat
    decreases l,
{
    if l.meta.is_dir {
        1 + entry_count_all(l.entries)
    } else {
        1
    }
}

/// How many entries a walk visits in several listings.
pub open spec fn entry_count_all(s: Seq<ListingView>) -> nat
    decreases s,
{
    if s.len() == 0 {
        0
    } else {
        entry_count_all(s.drop_last()) + entry_count(s.last())
    }
}

/// The directory that a walk reads last; `before` if there is none.
pub open spec fn last_dir(l: ListingView, before: Seq<u8>) -> Seq<u8>
    decreases l,
{
    if l.meta.is_dir {
        last_dir_all(l.entries, l.path)
    } else {
        before
    }
}

/// The directory that a walk of several listings reads last.
pub open spec fn last_dir_all(s: Seq<ListingView>, before: Seq<u8>) -> Seq<u8>
    decreases s,
{
    if s.len() == 0 {
        before
    } else {
        last_dir(s.last(), last_dir_all(s.drop_last(), before))
    }
}

/// The progress when a settled listing has been walked.
pub open spec fn walked(l: ListingView, p: ProgressView) -> ProgressView {
    ProgressView {
        items: wrapped_sum(p.items, entry_count(l)),
        bytes: wrapped_sum(p.bytes, total_len(l)),
        current: last_dir(l, p.current),
    }
}

proof fn lemma_wrapped_twice(a: u64, b: nat, c: nat)
    ensures
        wrapped_sum(wrapped_sum(a, b), c) == wrapped_sum(a, b + c),
{
}

/// Counts every leaf once: a later link to an inode that is counted already gets the
/// length 0. Progress is recorded entry by entry.
fn settle(listing: &mut Listing, seen: &mut SeenInodes, progress: &mut ScanProgress)
    ensures
        (final(listing)@, final(seen)@) == settled(old(listing)@, old(seen)@),
        final(progress)@ == walked(final(listing)@, old(progress)@),
    decreases *old(listing),
{
    let ghost whole = listing@;
    let ghost at_start = seen@;
    let ghost progress_before = progress@;
    proof {
        lemma_listing_view(*listing);
    }
    if let Visit::Leaf { size } = visit(&listing.path, &listing.meta, false, seen, progress) {
        listing.meta.len = size;
        proof {
            lemma_listing_view(*listing);
            assert(listing@ =~= settled(whole, at_start).0);
        }
        return;
    }
    let ghost e = whole.entries;
    let mut i: usize = 0;
    proof {
        assert(settled_all(e.take(0), at_start) == (Seq::<ListingView>::empty(), at_start));
    }
    while i < listing.entries.len()
        invariant
            i <= listing.entries@.len(),
            e == whole.entries,
            listing.entries@.len() == e.len(),
            listing.path@ == whole.path,
            listing.meta == whole.meta,
            whole.meta.is_dir,
            old(listing).entries@.len() == e.len(),
            forall|k: int| 0 <= k < e.len() ==> (#[trigger] old(listing).entries@[k])@ == e[k],
            forall|k: int| i <= k < e.len() ==> #[trigger] listing.entries@[k] == old(listing).entries@[k],
            views(listing.entries@).take(i as int) == settled_all(e.take(i as int), at_start).0,
            seen@ == settled_all(e.take(i as int), at_start).1,
            progress@ == (ProgressView {
                items: wrapped_sum(progress_before.items, 1 + entry_count_all(settled_all(e.take(i as int), at_start).0)),
                bytes: wrapped_sum(progress_before.bytes, total_len_all(settled_all(e.take(i as int), at_start).0)),
                current: last_dir_all(settled_all(e.take(i as int), at_start).0, whole.path),
            }),
        decreases listing.entries@.len() - i,
    {
        let ghost before = views(listing.entries@);
        let ghost done = settled_all(e.take(i as int), at_start);
        let ghost so_far = progress@;
        settle(&mut listing.entries[i], seen, progress);
        proof {
            let t = e.take(i + 1);
            assert(t.drop_last() =~= e.take(i as int));
            assert(t.last() == e[i as int]);
            let last = settled(e[i as int], done.1);
            assert(settled_all(t, at_start) == (done.0.push(last.0), last.1));
            let after = views(listing.entries@);
            assert(after[i as int] == last.0);
            assert(after.take(i + 1) =~= done.0.push(last.0)) by {
                assert(before.take(i as int) == done.0);
                assert forall|k: int| 0 <= k < i implies after[k] == done.0[k] by {
                    assert(before.take(i as int)[k] == before[k]);
                }
            }
            assert(done.0.push(last.0).drop_last() =~= done.0);
            lemma_wrapped_twice(progress_before.items, 1 + entry_count_all(done.0), entry_count(last.0));
            lemma_wrapped_twice(progress_before.bytes, total_len_all(done.0), total_len(last.0));
        }
        i += 1;
    }
    proof {
        lemma_listing_view(*listing);
        assert(e.take(i as int) =~= e);
        assert(views(listing.entries@).take(i as int) =~= views(listing.entries@));
        assert(listing@ =~= settled(whole, at_start).0);
    }
}

/// The bytes of a path that label an entry: its final component, or the whole path
/// when there is no final component (e.g. the filesystem root `/`).
pub open spec fn label_bytes(path: Seq<u8>) -> Seq<u8> {
    match file_name(path) {
        Some(name) => name,
        None => path,
    }
}

/// The bytes of a path that label an entry.
pub fn display_bytes(path: &EntryPath) -> (bytes: &[u8])
    ensures
        bytes@ == label_bytes(path@),
{
    match path.file_name() {
        Some(name) => name,
        None => path.as_bytes(),
    }
}

/// The label to show for a path: its final component, or the whole path when
/// there is no final component (e.g. the filesystem root `/`).
pub fn display_name(path: &EntryPath) -> (name: String)
    ensures
        name@ == lossy_text(label_bytes(path@)),
        valid_utf8(label_bytes(path@)) ==> name@ == decode_utf8(label_bytes(path@)),
{
    read_lossy(display_bytes(path))
}

/// The tree of a settled listing: leaves count their length, a directory the sum of
/// its children, which stand largest first, by name where sizes are equal.
pub open spec fn built(l: ListingView) -> NodeView
    decreases l,
{
    let children = if l.meta.is_dir {
        sorted_stably(built_all(l.entries), node_le())
    } else {
        Seq::empty()
    };
    NodeView {
        name: lossy_text(label_bytes(l.path)),
        path: l.path,
        size: if l.meta.is_dir {
            sum_sizes(children) as u64
        } else {
            l.meta.len
        },
        is_dir: l.meta.is_dir,
        children,
    }
}

/// The trees of several listings.
pub open spec fn built_all(s: Seq<ListingView>) -> Seq<NodeView>
    decreases s,
{
    if s.len() == 0 {
        Seq::empty()
    } else {
        built_all(s.drop_last()).push(built(s.last()))
    }
}

/// The trees of several listings are those of each of them.
pub proof fn lemma_built_all(s: Seq<ListingView>)
    ensures
        built_all(s).len() == s.len(),
        forall|i: int| 0 <= i < s.len() ==> #[trigger] built_all(s)[i] == built(s[i]),
    decreases s.len(),
{
    if s.len() > 0 {
        lemma_built_all(s.drop_last());
    }
}

/// No listing has more bytes than several of them together, so that where all of them
/// can be built, each of them can.
pub proof fn parts_fit_where_the_whole_fits(s: Seq<ListingView>, i: int)
    requires
        0 <= i < s.len(),
    ensures
        total_len(s[i]) <= total_len_all(s),
    decreases s.len(),
{
    if i < s.len() - 1 {
        assert(s.drop_last()[i] == s[i]);
        parts_fit_where_the_whole_fits(s.drop_last(), i);
    }
}

/// A tree is as large as the leaves of its listing together, its sizes agree and
/// its directories are in order.
pub proof fn built_trees_are_sound(l: ListingView)
    requires
        total_len(l) <= u64::MAX,
    ensures
        built(l).size == total_len(l),
        consistent(built(l)),
        ordered(built(l)),
    decreases l, 1nat,
{
    node_order_is_total();
    if l.meta.is_dir {
        let all = built_all(l.entries);
        lemma_built_trees(l.entries);
        stable_sort_exists(all, node_le());
        let c = sorted_stably(all, node_le());
        lemma_sum_permutation(c, all);
        assert forall|i: int| 0 <= i < c.len() implies consistent(#[trigger] c[i]) && ordered(c[i]) by {
            broadcast use vstd::seq_lib::group_to_multiset_ensures;

            assert(c.contains(c[i]));
            assert(c.to_multiset().count(c[i]) > 0);
            assert(all.contains(c[i]));
            let k = choose|k: int| 0 <= k < all.len() && all[k] == c[i];
            assert(consistent(all[k]) && ordered(all[k]));
        }
    } else {
        assert(sorted_by(Seq::<NodeView>::empty(), node_le()));
    }
}

/// Several trees add up to what their listings count, each of them sound.
pub proof fn lemma_built_trees(s: Seq<ListingView>)
    requires
        total_len_all(s) <= u64::MAX,
    ensures
        sum_sizes(built_all(s)) == total_len_all(s),
        built_all(s).len() == s.len(),
        forall|i: int| 0 <= i < s.len() ==> consistent(#[trigger] built_all(s)[i]) && ordered(built_all(s)[i]),
    decreases s, 0nat,
{
    if s.len() > 0 {
        lemma_built_trees(s.drop_last());
        built_trees_are_sound(s.last());
        let all = built_all(s);
        assert(all.drop_last() =~= built_all(s.drop_last()));
        assert forall|i: int| 0 <= i < s.len() implies consistent(#[trigger] all[i]) && ordered(all[i]) by {
            if i < s.len() - 1 {
                assert(all[i] == built_all(s.drop_last())[i]);
            }
        }
    }
}

/// Builds the trees of a directory's entries on rayon's thread pool:
/// `Vec::into_par_iter`, `ParallelIterator::map` and `ParallelIterator::collect`
/// hand each entry to [`build`] and put the results in the order of the entries. That
/// each entry can be built is [`parts_fit_where_the_whole_fits`].
#[verifier::external_body]
fn build_each(entries: Vec<Listing>) -> (nodes: Vec<Node>)
    requires
        total_len_all(views(entries@)) <= u64::MAX,
    ensures
        views(nodes@) == built_all(views(entries@)),
{
    entries.into_par_iter().map(|entry| build(entry)).collect()
}

/// The sum of the sizes of some nodes.
fn total_size(nodes: &Vec<Node>) -> (total: u64)
    requires
        sum_sizes(views(nodes@)) <= u64::MAX,
    ensures
        total == sum_sizes(views(nodes@)),
{
    let ghost s = views(nodes@);
    let mut total: u64 = 0;
    let mut i: usize = 0;
    assert(s.take(0) =~= Seq::<NodeView>::empty());
    while i < nodes.len()
        invariant
            i <= nodes@.len(),
            s == views(nodes@),
            total == sum_sizes(s.take(i as int)),
            sum_sizes(s) <= u64::MAX,
        decreases nodes@.len() - i,
    {
        proof {
            lemma_one_more(s, i as int);
            lemma_sum_sizes_add(s.take(i + 1), s.skip(i + 1));
            assert(s.take(i + 1) + s.skip(i + 1) =~= s);
            lemma_node_view(nodes@[i as int]);
            assert(s[i as int] == nodes@[i as int]@);
        }
        total = total + nodes[i].size;
        i += 1;
    }
    assert(s.take(i as int) =~= s);
    total
}

/// Builds the tree of a settled listing.
pub fn build(listing: Listing) -> (node: Node)
    requires
        total_len(listing@) <= u64::MAX,
    ensures
        node@ == built(listing@),
{
    let ghost l = listing@;
    proof {
        lemma_listing_view(listing);
    }
    let name = display_name(&listing.path);
    if !listing.meta.is_dir {
        let children: Vec<Node> = Vec::new();
        let node = Node { name, path: listing.path, size: listing.meta.len, is_dir: false, children };
        proof {
            lemma_node_view(node);
            assert(node@.children =~= Seq::<NodeView>::empty());
            assert(node@ =~= built(l));
        }
        return node;
    }
    let nodes = build_each(listing.entries);
    let children = merge_sort(nodes);
    proof {
        lemma_built_trees(l.entries);
        lemma_sum_permutation(views(children@), views(nodes@));
    }
    let size = total_size(&children);
    let node = Node { name, path: listing.path, size, is_dir: true, children };
    proof {
        lemma_node_view(node);
        assert(node@ =~= built(l));
    }
    node
}

/// What a scan of a listing comes to: every inode counted once, and the tree built.
pub open spec fn scanned(root: ListingView) -> NodeView {
    built(settled(root, Set::empty()).0)
}

/// The bytes that a scan of a listing counts.
pub open spec fn scanned_len(root: ListingView) -> nat {
    total_len(settled(root, Set::empty()).0)
}

/// Adds the bytes that a listing counts to a total, as long as that fits in 64 bits.
fn add_counted(listing: &Listing, seen: &mut SeenInodes, total: u64) -> (sum: Option<u64>)
    ensures
        match sum {
            Some(bytes) => final(seen)@ == settled(listing@, old(seen)@).1 && bytes == total + total_len(
                settled(listing@, old(seen)@).0,
            ),
            None => total + total_len(settled(listing@, old(seen)@).0) > u64::MAX,
        },
    decreases listing,
{
    let ghost at_start = seen@;
    let ghost e = listing@.entries;
    proof {
        lemma_listing_view(*listing);
    }
    if !listing.meta.is_dir {
        let size = leaf_size(&listing.meta, seen);
        return total.checked_add(size);
    }
    let mut sum: u64 = total;
    let mut i: usize = 0;
    proof {
        assert(settled_all(e.take(0), at_start) == (Seq::<ListingView>::empty(), at_start));
    }
    while i < listing.entries.len()
        invariant
            i <= listing.entries@.len(),
            listing@.meta.is_dir,
            e == listing@.entries,
            e == views(listing.entries@),
            seen@ == settled_all(e.take(i as int), at_start).1,
            sum == total + total_len_all(settled_all(e.take(i as int), at_start).0),
            at_start == old(seen)@,
        decreases listing.entries@.len() - i,
    {
        let ghost done = settled_all(e.take(i as int), at_start);
        proof {
            let t = e.take(i + 1);
            assert(t.drop_last() =~= e.take(i as int));
            assert(t.last() == e[i as int]);
            assert(e[i as int] == listing.entries@[i as int]@);
            let last = settled(e[i as int], done.1);
            assert(done.0.push(last.0).drop_last() =~= done.0);
            lemma_settled_prefix(e, at_start, i + 1);
        }
        match add_counted(&listing.entries[i], seen, sum) {
            Some(more) => {
                sum = more;
            },
            None => {
                return None;
            },
        }
        i += 1;
    }
    assert(e.take(i as int) =~= e);
    Some(sum)
}

proof fn lemma_settled_prefix(s: Seq<ListingView>, seen: Set<(u64, u64)>, n: int)
    requires
        0 <= n <= s.len(),
    ensures
        total_len_all(settled_all(s.take(n), seen).0) <= total_len_all(settled_all(s, seen).0),
    decreases s.len(),
{
    if n < s.len() {
        lemma_settled_prefix(s.drop_last(), seen, n);
        assert(s.drop_last().take(n) =~= s.take(n));
        let between = settled_all(s.drop_last(), seen);
        let last = settled(s.last(), between.1);
        assert(between.0.push(last.0).drop_last() =~= between.0);
    } else {
        assert(s.take(n) =~= s);
    }
}

/// Whether the bytes that a scan of a listing counts fit in 64 bits.
pub fn can_scan(root: &Listing) -> (fits: bool)
    ensures
        fits == (scanned_len(root@) <= u64::MAX),
{
    let mut seen = SeenInodes::new();
    add_counted(root, &mut seen, 0).is_some()
}

/// What a scan comes to that is not cancelled: the tree of what was read, or an error
/// if the root itself cannot be read.
pub open spec fn is_outcome(root: Option<Listing>, tree: Result<Node, ScanError>) -> bool {
    match root {
        Some(l) => tree matches Ok(node) && node@ == scanned(l@),
        None => tree == Err::<Node, ScanError>(ScanError::Unreadable),
    }
}

/// What a scan gives, from what was read of the cancel flag before and after it.
pub open spec fn is_decided(root: Option<Listing>, before: bool, after: bool, tree: Result<Node, ScanError>) -> bool {
    if before || after {
        tree == Err::<Node, ScanError>(ScanError::Interrupted)
    } else {
        is_outcome(root, tree)
    }
}

/// How far a walk has come that has read `root`.
pub open spec fn progress_after(root: Option<Listing>, p: ProgressView) -> ProgressView {
    match root {
        Some(l) => walked(settled(l@, Set::empty()).0, p),
        None => p,
    }
}

/// Makes the tree of a walk that has read `root`, with every directory's children
/// sorted largest-first.
///
/// Returns an error only if `root` itself cannot be read. Unreadable entries
/// encountered *inside* the tree (e.g. permission denied) are missing from the
/// listing — a partial answer beats no answer.
pub fn scan(root: Option<Listing>) -> (tree: Result<Node, ScanError>)
    requires
        root matches Some(l) ==> scanned_len(l@) <= u64::MAX,
    ensures
        is_outcome(root, tree),
{
    let mut progress = ScanProgress::new();
    scan_unless(root, false, &mut progress)
}

/// Makes the tree of a walk that has read `root` and reports into `progress`, unless
/// the scan is cancelled. `cancelled` is what was read of the cancel flag.
pub fn scan_unless(root: Option<Listing>, cancelled: bool, progress: &mut ScanProgress) -> (tree: Result<Node, ScanError>)
    requires
        !cancelled ==> (root matches Some(l) ==> scanned_len(l@) <= u64::MAX),
    ensures
        cancelled ==> tree == Err::<Node, ScanError>(ScanError::Interrupted) && final(progress)@ == old(progress)@,
        !cancelled ==> is_outcome(root, tree) && final(progress)@ == progress_after(root, old(progress)@),
{
    if cancelled {
        return Err(ScanError::Interrupted);
    }
    match root {
        None => Err(ScanError::Unreadable),
        Some(listing) => {
            let mut listing = listing;
            let mut seen = SeenInodes::new();
            settle(&mut listing, &mut seen, progress);
            Ok(build(listing))
        },
    }
}

/// What a scan gives that has come to `tree`: nothing else, unless it was cancelled
/// meanwhile. `cancelled` is what was read of the cancel flag.
pub fn unless_cancelled(tree: Result<Node, ScanError>, cancelled: bool) -> (result: Result<Node, ScanError>)
    ensures
        cancelled ==> result == Err::<Node, ScanError>(ScanError::Interrupted),
        !cancelled ==> result == tree,
{
    if cancelled {
        Err(ScanError::Interrupted)
    } else {
        tree
    }
}

/// Makes the tree of a walk that has read `root`, unless the scan is cancelled.
///
/// Behaves exactly like [`scan`] when the flag is never set. If the flag is
/// (or becomes) cancelled, the call returns [`ScanError::Interrupted`] instead of a
/// tree, so callers never mistake an aborted scan for a real result. Which of the two
/// it is depends on what is read of the flag alone, as [`is_decided`] says.
pub fn scan_cancellable(root: Option<Listing>, cancel: &CancelFlag) -> (tree: Result<Node, ScanError>)
    requires
        root matches Some(l) ==> scanned_len(l@) <= u64::MAX,
    ensures
        tree == Err::<Node, ScanError>(ScanError::Interrupted) || is_outcome(root, tree),
        exists|before: bool, after: bool|
            #![trigger call_ensures(CancelFlag::is_cancelled, (cancel,), before), call_ensures(CancelFlag::is_cancelled, (cancel,), after)]
            call_ensures(CancelFlag::is_cancelled, (cancel,), before) && call_ensures(
                CancelFlag::is_cancelled,
                (cancel,),
                after,
            ) && is_decided(root, before, after, tree),
{
    let mut progress = ScanProgress::new();
    scan_reporting(root, cancel, &mut progress)
}

/// Like [`scan_cancellable`], but reports progress into `progress`: a running item
/// count, byte total, and current path.
///
/// The flag is read before and after, and the two readings decide, as [`is_decided`]
/// says. What they are, and that the second is the later one, is left unsaid: a flag
/// that others can set has no value to speak of at a moment.
pub fn scan_reporting(root: Option<Listing>, cancel: &CancelFlag, progress: &mut ScanProgress) -> (tree: Result<
    Node,
    ScanError,
>)
    requires
        root matches Some(l) ==> scanned_len(l@) <= u64::MAX,
    ensures
        tree == Err::<Node, ScanError>(ScanError::Interrupted) || is_outcome(root, tree),
        final(progress)@ == progress_after(root, old(progress)@) || (tree == Err::<Node, ScanError>(
            ScanError::Interrupted,
        ) && final(progress)@ == old(progress)@),
        exists|before: bool, after: bool|
            #![trigger call_ensures(CancelFlag::is_cancelled, (cancel,), before), call_ensures(CancelFlag::is_cancelled, (cancel,), after)]
            call_ensures(CancelFlag::is_cancelled, (cancel,), before) && call_ensures(
                CancelFlag::is_cancelled,
                (cancel,),
                after,
            ) && is_decided(root, before, after, tree) && final(progress)@ == (if before {
                old(progress)@
            } else {
                progress_after(root, old(progress)@)
            }),
{
    let before = cancel.is_cancelled();
    let tree = scan_unless(root, before, progress);
    let after = cancel.is_cancelled();
    let result = unless_cancelled(tree, after);
    assert(call_ensures(CancelFlag::is_cancelled, (cancel,), before));
    assert(call_ensures(CancelFlag::is_cancelled, (cancel,), after));
    result
}

/// The tree of a scan is as large as the bytes that the scan counts; every directory
/// in it is the sum of its children, which stand largest first, by name where sizes
/// are equal; files have no children.
pub proof fn scans_are_sound(root: ListingView)
    requires
        scanned_len(root) <= u64::MAX,
    ensures
        scanned(root).size == scanned_len(root),
        consistent(scanned(root)),
        ordered(scanned(root)),
{
    built_trees_are_sound(settled(root, Set::empty()).0);
}

/// What is no directory becomes a leaf with its own length, whatever lies behind it:
/// symlinks are not followed.
pub proof fn leaves_are_not_followed(leaf: ListingView, behind: Seq<ListingView>)
    requires
        !leaf.meta.is_dir,
    ensures
        scanned(leaf).size == leaf.meta.len,
        !scanned(leaf).is_dir,
        scanned(leaf).children.len() == 0,
        scanned(ListingView { entries: behind, ..leaf }) == scanned(leaf),
{
}

/// The leaves of a listing, in the order of the walk.
pub open spec fn leaf_metas(l: ListingView) -> Seq<EntryMeta>
    decreases l,
{
    if l.meta.is_dir {
        leaf_metas_of(l.entries)
    } else {
        seq![l.meta]
    }
}

/// The leaves of several listings, in the order of the walk.
pub open spec fn leaf_metas_of(s: Seq<ListingView>) -> Seq<EntryMeta>
    decreases s,
{
    if s.len() == 0 {
        Seq::empty()
    } else {
        leaf_metas_of(s.drop_last()) + leaf_metas(s.last())
    }
}

/// The inodes counted after some leaves.
pub open spec fn seen_after(s: Seq<EntryMeta>, seen: Set<(u64, u64)>) -> Set<(u64, u64)>
    decreases s.len(),
{
    if s.len() == 0 {
        seen
    } else {
        seen_with(s.last(), seen_after(s.drop_last(), seen))
    }
}

/// The bytes of some leaves, every inode counted the first time only.
pub open spec fn counted_total(s: Seq<EntryMeta>, seen: Set<(u64, u64)>) -> nat
    decreases s.len(),
{
    if s.len() == 0 {
        0
    } else {
        counted_total(s.drop_last(), seen) + counted(s.last(), seen_after(s.drop_last(), seen)) as nat
    }
}

/// The leaves of two lists count for as much as those of both together.
pub proof fn lemma_counted_add(a: Seq<EntryMeta>, b: Seq<EntryMeta>, seen: Set<(u64, u64)>)
    ensures
        seen_after(a + b, seen) == seen_after(b, seen_after(a, seen)),
        counted_total(a + b, seen) == counted_total(a, seen) + counted_total(b, seen_after(a, seen)),
    decreases b.len(),
{
    if b.len() == 0 {
        assert(a + b =~= a);
    } else {
        lemma_counted_add(a, b.drop_last(), seen);
        assert((a + b).drop_last() =~= a + b.drop_last());
        assert((a + b).last() == b.last());
    }
}

/// What a single leaf counts for.
pub proof fn lemma_one_leaf(m: EntryMeta, seen: Set<(u64, u64)>)
    ensures
        seen_after(seq![m], seen) == seen_with(m, seen),
        counted_total(seq![m], seen) == counted(m, seen),
{
    reveal_with_fuel(seen_after, 2);
    reveal_with_fuel(counted_total, 2);
    assert(seq![m].drop_last() =~= Seq::<EntryMeta>::empty());
}

/// A settled listing has the bytes that its leaves count for.
pub proof fn lemma_settled_total(l: ListingView, seen: Set<(u64, u64)>)
    ensures
        total_len(settled(l, seen).0) == counted_total(leaf_metas(l), seen),
        settled(l, seen).1 == seen_after(leaf_metas(l), seen),
    decreases l, 1nat,
{
    if l.meta.is_dir {
        lemma_settled_all_total(l.entries, seen);
    } else {
        lemma_one_leaf(l.meta, seen);
    }
}

/// Settled listings have the bytes that their leaves count for.
pub proof fn lemma_settled_all_total(s: Seq<ListingView>, seen: Set<(u64, u64)>)
    ensures
        total_len_all(settled_all(s, seen).0) == counted_total(leaf_metas_of(s), seen),
        settled_all(s, seen).1 == seen_after(leaf_metas_of(s), seen),
    decreases s, 0nat,
{
    if s.len() > 0 {
        let front = s.drop_last();
        lemma_settled_all_total(front, seen);
        let between = settled_all(front, seen);
        lemma_settled_total(s.last(), between.1);
        lemma_counted_add(leaf_metas_of(front), leaf_metas(s.last()), seen);
        let last = settled(s.last(), between.1);
        assert(between.0.push(last.0).drop_last() =~= between.0);
    }
}

/// A scan counts the bytes of its leaves, every multiply-linked inode once.
pub proof fn scans_count_every_inode_once(root: ListingView)
    ensures
        scanned_len(root) == counted_total(leaf_metas(root), Set::empty()),
{
    lemma_settled_total(root, Set::empty());
}

/// What the links to one inode count for together.
pub open spec fn inode_total(s: Seq<EntryMeta>, id: (u64, u64)) -> nat
    decreases s.len(),
{
    if s.len() == 0 {
        0
    } else if is_shared(s.last()) && inode(s.last()) == id {
        inode_total(s.drop_last(), id) + counted(s.last(), seen_after(s.drop_last(), Set::empty())) as nat
    } else {
        inode_total(s.drop_last(), id)
    }
}

/// The inodes counted are those of the links that were met.
pub proof fn lemma_seen_is_earlier(s: Seq<EntryMeta>, id: (u64, u64))
    ensures
        seen_after(s, Set::empty()).contains(id) <==> exists|i: int|
            0 <= i < s.len() && is_shared(#[trigger] s[i]) && inode(s[i]) == id,
    decreases s.len(),
{
    if s.len() > 0 {
        let front = s.drop_last();
        lemma_seen_is_earlier(front, id);
        if seen_after(s, Set::empty()).contains(id) {
            if is_shared(s.last()) && inode(s.last()) == id {
                assert(is_shared(s[s.len() - 1]));
            } else {
                let i = choose|i: int| 0 <= i < front.len() && is_shared(#[trigger] front[i]) && inode(front[i]) == id;
                assert(is_shared(s[i]) && inode(s[i]) == id);
            }
        }
        if exists|i: int| 0 <= i < s.len() && is_shared(#[trigger] s[i]) && inode(s[i]) == id {
            let i = choose|i: int| 0 <= i < s.len() && is_shared(#[trigger] s[i]) && inode(s[i]) == id;
            if i < front.len() {
                assert(is_shared(front[i]) && inode(front[i]) == id);
            }
        }
    }
}

/// However many links to an inode a walk meets, and in whatever order, together they
/// count for the length of the first one.
pub proof fn links_count_once_together(s: Seq<EntryMeta>, first: int)
    requires
        0 <= first < s.len(),
        is_shared(s[first]),
        forall|j: int| 0 <= j < first ==> !(is_shared(#[trigger] s[j]) && inode(s[j]) == inode(s[first])),
    ensures
        inode_total(s, inode(s[first])) == s[first].len,
    decreases s.len(),
{
    let id = inode(s[first]);
    let front = s.drop_last();
    lemma_seen_is_earlier(front, id);
    if first == s.len() - 1 {
        assert forall|j: int| 0 <= j < front.len() implies !(is_shared(#[trigger] front[j]) && inode(front[j]) == id) by {
            assert(front[j] == s[j]);
        }
        lemma_inode_absent(front, id);
    } else {
        assert(front[first] == s[first]);
        assert forall|j: int| 0 <= j < first implies !(is_shared(#[trigger] front[j]) && inode(front[j]) == id) by {
            assert(front[j] == s[j]);
        }
        links_count_once_together(front, first);
        assert(is_shared(front[first]) && inode(front[first]) == id);
    }
}

proof fn lemma_inode_absent(s: Seq<EntryMeta>, id: (u64, u64))
    requires
        forall|j: int| 0 <= j < s.len() ==> !(is_shared(#[trigger] s[j]) && inode(s[j]) == id),
    ensures
        inode_total(s, id) == 0,
    decreases s.len(),
{
    if s.len() > 0 {
        let front = s.drop_last();
        assert(!(is_shared(s[s.len() - 1]) && inode(s[s.len() - 1]) == id));
        assert forall|j: int| 0 <= j < front.len() implies !(is_shared(#[trigger] front[j]) && inode(front[j]) == id) by {
            assert(front[j] == s[j]);
        }
        lemma_inode_absent(front, id);
    }
}

/// Links to one inode have one length.
pub open spec fn links_agree(s: Seq<EntryMeta>) -> bool {
    forall|i: int, j: int|
        0 <= i < s.len() && 0 <= j < s.len() && is_shared(#[trigger] s[i]) && is_shared(#[trigger] s[j]) && inode(s[i])
            == inode(s[j]) ==> s[i].len == s[j].len
}

/// Moving a leaf behind some others changes nothing in the total.
proof fn lemma_leaf_moves(m: EntryMeta, b: Seq<EntryMeta>, seen: Set<(u64, u64)>)
    requires
        forall|i: int|
            0 <= i < b.len() && is_shared(m) && is_shared(#[trigger] b[i]) && inode(m) == inode(b[i]) ==> m.len
                == b[i].len,
    ensures
        counted_total(seq![m] + b, seen) == counted_total(b.push(m), seen),
        seen_after(seq![m] + b, seen) == seen_after(b.push(m), seen),
    decreases b.len(),
{
    lemma_one_leaf(m, seen);
    if b.len() == 0 {
        assert(seq![m] + b =~= b.push(m));
    } else {
        let x = b[0];
        let rest = b.drop_first();
        assert(is_shared(m) && is_shared(b[0]) && inode(m) == inode(b[0]) ==> m.len == b[0].len);
        assert forall|i: int|
            0 <= i < rest.len() && is_shared(m) && is_shared(#[trigger] rest[i]) && inode(m) == inode(rest[i]) implies m.len
            == rest[i].len by {
            assert(rest[i] == b[i + 1]);
        }
        let with_x = seen_with(x, seen);
        lemma_leaf_moves(m, rest, with_x);
        lemma_one_leaf(x, seen);
        lemma_one_leaf(x, seen_with(m, seen));
        lemma_one_leaf(m, with_x);
        let mx = seq![m] + seq![x];
        let xm = seq![x] + seq![m];
        lemma_counted_add(seq![m], seq![x], seen);
        lemma_counted_add(seq![x], seq![m], seen);
        assert(seen_after(mx, seen) =~= seen_after(xm, seen));
        lemma_counted_add(mx, rest, seen);
        lemma_counted_add(xm, rest, seen);
        lemma_counted_add(seq![x], seq![m] + rest, seen);
        lemma_counted_add(seq![x], rest.push(m), seen);
        assert(seq![m] + b =~= mx + rest);
        assert(seq![x] + (seq![m] + rest) =~= xm + rest);
        assert(b.push(m) =~= seq![x] + rest.push(m));
    }
}

/// The order in which a walk meets the leaves does not matter: which link carries
/// the size of a shared inode may differ, the total does not.
pub proof fn order_of_leaves_does_not_matter(s: Seq<EntryMeta>, t: Seq<EntryMeta>, seen: Set<(u64, u64)>)
    requires
        s.to_multiset() == t.to_multiset(),
        links_agree(s),
    ensures
        counted_total(s, seen) == counted_total(t, seen),
        seen_after(s, seen) == seen_after(t, seen),
    decreases s.len(),
{
    broadcast use vstd::seq_lib::group_to_multiset_ensures;

    assert(s.len() == s.to_multiset().len() && t.len() == t.to_multiset().len());
    if s.len() > 0 {
        let x = s.last();
        let front = s.drop_last();
        assert(s =~= front.push(x));
        assert(t.contains(x)) by {
            assert(s.contains(x));
            assert(s.to_multiset().count(x) > 0);
        }
        let k = choose|k: int| 0 <= k < t.len() && t[k] == x;
        let a = t.take(k);
        let b = t.skip(k + 1);
        let rest = t.remove(k);
        assert(front.to_multiset() =~= rest.to_multiset());
        assert forall|i: int, j: int|
            0 <= i < front.len() && 0 <= j < front.len() && is_shared(#[trigger] front[i]) && is_shared(
                #[trigger] front[j],
            ) && inode(front[i]) == inode(front[j]) implies front[i].len == front[j].len by {
            assert(front[i] == s[i] && front[j] == s[j]);
        }
        order_of_leaves_does_not_matter(front, rest, seen);
        assert forall|i: int|
            0 <= i < b.len() && is_shared(x) && is_shared(#[trigger] b[i]) && inode(x) == inode(b[i]) implies x.len
            == b[i].len by {
            let y = b[i];
            assert(t[k + 1 + i] == y);
            assert(t.contains(y));
            assert(t.to_multiset().count(y) > 0);
            assert(s.contains(y));
            let m = choose|m: int| 0 <= m < s.len() && s[m] == y;
            assert(s[s.len() - 1] == x);
            assert(is_shared(s[m]) && is_shared(s[s.len() - 1]));
        }
        lemma_leaf_moves(x, b, seen_after(a, seen));
        lemma_counted_add(a, seq![x] + b, seen);
        lemma_counted_add(a, b.push(x), seen);
        assert(t =~= a + (seq![x] + b));
        assert(rest =~= a + b);
        assert(a + b.push(x) =~= rest.push(x));
        assert(rest.push(x).drop_last() =~= rest);
        assert(front.push(x).drop_last() =~= front);
    }
}

/// The tree of a listing has a node for every entry that the walk visits.
pub proof fn trees_have_a_node_for_every_entry(l: ListingView)
    ensures
        preorder(built(l)).len() == entry_count(l),
    decreases l, 1nat,
{
    if l.meta.is_dir {
        let all = built_all(l.entries);
        node_order_is_total();
        stable_sort_exists(all, node_le());
        lemma_forest_len_permutation(sorted_stably(all, node_le()), all);
        lemma_node_counts(l.entries);
    }
}

proof fn lemma_node_counts(s: Seq<ListingView>)
    ensures
        forest(built_all(s)).len() == entry_count_all(s),
    decreases s, 0nat,
{
    if s.len() > 0 {
        lemma_node_counts(s.drop_last());
        trees_have_a_node_for_every_entry(s.last());
        assert(built_all(s).drop_last() =~= built_all(s.drop_last()));
    }
}

proof fn lemma_files_of_built(l: ListingView)
    ensures
        files(built(l)).len() == leaf_metas(l).len(),
    decreases l, 1nat,
{
    if l.meta.is_dir {
        let all = built_all(l.entries);
        node_order_is_total();
        stable_sort_exists(all, node_le());
        lemma_files_len_permutation(sorted_stably(all, node_le()), all);
        lemma_files_of_built_all(l.entries);
    }
}

proof fn lemma_files_of_built_all(s: Seq<ListingView>)
    ensures
        files_of(built_all(s)).len() == leaf_metas_of(s).len(),
    decreases s, 0nat,
{
    if s.len() > 0 {
        lemma_files_of_built_all(s.drop_last());
        lemma_files_of_built(s.last());
        assert(built_all(s).drop_last() =~= built_all(s.drop_last()));
    }
}

proof fn lemma_settled_leaves(l: ListingView, seen: Set<(u64, u64)>)
    ensures
        leaf_metas(settled(l, seen).0).len() == leaf_metas(l).len(),
    decreases l, 1nat,
{
    if l.meta.is_dir {
        lemma_settled_leaves_of(l.entries, seen);
    }
}

proof fn lemma_settled_leaves_of(s: Seq<ListingView>, seen: Set<(u64, u64)>)
    ensures
        leaf_metas_of(settled_all(s, seen).0).len() == leaf_metas_of(s).len(),
    decreases s, 0nat,
{
    if s.len() > 0 {
        lemma_settled_leaves_of(s.drop_last(), seen);
        let between = settled_all(s.drop_last(), seen);
        lemma_settled_leaves(s.last(), between.1);
        let last = settled(s.last(), between.1);
        assert(between.0.push(last.0).drop_last() =~= between.0);
    }
}

/// The tree of a scan has a file for every leaf that the walk has read, and no other.
pub proof fn scans_have_a_file_for_every_leaf(root: ListingView)
    ensures
        files(scanned(root)).len() == leaf_metas(root).len(),
{
    lemma_settled_leaves(root, Set::empty());
    lemma_files_of_built(settled(root, Set::empty()).0);
}

/// Progress that starts at zero ends with the number of nodes and the size of the
/// tree.
pub proof fn progress_ends_with_the_tree(root: ListingView, before: Seq<u8>)
    requires
        scanned_len(root) <= u64::MAX,
        preorder(scanned(root)).len() <= u64::MAX,
    ensures
        walked(
            settled(root, Set::empty()).0,
            ProgressView { items: 0, bytes: 0, current: before },
        ).items == preorder(scanned(root)).len(),
        walked(
            settled(root, Set::empty()).0,
            ProgressView { items: 0, bytes: 0, current: before },
        ).bytes == scanned(root).size,
{
    scans_are_sound(root);
    trees_have_a_node_for_every_entry(settled(root, Set::empty()).0);
}

} // verus!
