//! What the small types hold: paths, selections, inodes that were counted, progress.
use vstd::prelude::*;
use vstd::utf8::{decode_utf8, encode_utf8, valid_utf8};

use crate::laws::lists::lemma_permutation_len;
use crate::laws::orders::equal_nodes_keep_their_order;
use crate::laws::trees::sizes_add_up;
use crate::order::{stable_sort_exists, views, Ranked};
use crate::path::{components, path_le, EntryPath};
use crate::reclaim::Reclaimable;
use crate::scan::{
    build, built_all, display_bytes, display_name, lemma_built_all, lemma_built_trees, lemma_listing_view, scan,
    scan_reporting, scan_unless, total_len, CancelFlag, Listing, ScanError, ScanProgress, SeenInodes,
};
use crate::selection::Selection;
use crate::text::{lossy_text, text_le};
use crate::tree::{lemma_node_view, lemma_sum_permutation, node_le, node_order_is_total, Node, NodeView};

verus! {

/// A path holds the bytes it was made of, and a text the bytes of its encoding; a copy
/// holds the same. UTF-8 is shown as it reads.
pub proof fn paths_keep_their_bytes(
    bytes: Vec<u8>,
    path: EntryPath,
    held: &[u8],
    empty: bool,
    shown: String,
    copy: EntryPath,
    text: &str,
    named: EntryPath,
)
    requires
        call_ensures(EntryPath::from_bytes, (bytes,), path),
        call_ensures(EntryPath::as_bytes, (&path,), held),
        call_ensures(EntryPath::is_empty, (&path,), empty),
        call_ensures(EntryPath::to_string_lossy, (&path,), shown),
        call_ensures(<EntryPath as Clone>::clone, (&path,), copy),
        call_ensures(EntryPath::new, (text,), named),
    ensures
        held@ == bytes@,
        empty <==> bytes@.len() == 0,
        shown@ == lossy_text(bytes@),
        copy@ == path@,
        named@ == encode_utf8(text@),
{
}

/// An entry is shown by the last name of its path, or by all of it where there is none.
pub proof fn entries_are_shown_by_their_name(path: &EntryPath, name: Option<&[u8]>, bytes: &[u8], shown: String)
    requires
        call_ensures(EntryPath::file_name, (path,), name),
        call_ensures(display_bytes, (path,), bytes),
        call_ensures(display_name, (path,), shown),
    ensures
        bytes@ == (match name {
            Some(n) => n@,
            None => path@,
        }),
        shown@ == lossy_text(bytes@),
        valid_utf8(bytes@) ==> shown@ == decode_utf8(bytes@),
{
}

/// A path is selected once it was inserted, in every spelling, until it is removed or all
/// is cleared; other paths stay as they were.
pub proof fn selections_hold_what_was_inserted(
    new: Selection,
    inserted: &mut Selection,
    removed: &mut Selection,
    cleared: &mut Selection,
    path: &EntryPath,
    after: &Selection,
    asked: &EntryPath,
    found: bool,
)
    requires
        call_ensures(Selection::new, (), new),
        call_ensures(Selection::insert, (inserted, path), ()),
        call_ensures(Selection::remove, (removed, path), ()),
        call_ensures(Selection::clear, (cleared,), ()),
        call_ensures(Selection::contains, (after, asked), found),
    ensures
        after@ == new@ || after@ == final(cleared)@ ==> !found,
        after@ == final(inserted)@ ==> (found <==> components(asked@) == components(path@) || old(inserted)@.contains(
            components(asked@),
        )),
        after@ == final(removed)@ ==> (found <==> components(asked@) != components(path@) && old(removed)@.contains(
            components(asked@),
        )),
{
}

/// An inode is fresh exactly once: the first time its device and number are counted.
pub proof fn inodes_are_fresh_once(
    new: SeenInodes,
    seen: &mut SeenInodes,
    dev: u64,
    ino: u64,
    first: bool,
    later: &mut SeenInodes,
    other_dev: u64,
    other_ino: u64,
    second: bool,
)
    requires
        call_ensures(SeenInodes::new, (), new),
        call_ensures(SeenInodes::insert, (seen, dev, ino), first),
        old(later)@ == final(seen)@,
        call_ensures(SeenInodes::insert, (later, other_dev, other_ino), second),
    ensures
        old(seen)@ == new@ ==> first,
        other_dev == dev && other_ino == ino ==> !second,
        old(seen)@ == new@ && (other_dev != dev || other_ino != ino) ==> second,
{
}

/// Recording an entry counts it and its bytes, around the range of the counters; entering
/// a directory tells its path; and both keep the rest.
pub proof fn progress_counts_what_is_recorded(
    recorded: &mut ScanProgress,
    bytes: u64,
    entered: &mut ScanProgress,
    dir: &EntryPath,
    read: &ScanProgress,
    items: u64,
    total: u64,
    current: EntryPath,
)
    requires
        call_ensures(ScanProgress::record, (recorded, bytes), ()),
        call_ensures(ScanProgress::enter, (entered, dir), ()),
        call_ensures(ScanProgress::items, (read,), items),
        call_ensures(ScanProgress::bytes, (read,), total),
        call_ensures(ScanProgress::current, (read,), current),
    ensures
        items == read@.items && total == read@.bytes && current@ == read@.current,
        old(recorded)@.items < u64::MAX ==> final(recorded)@.items == old(recorded)@.items + 1,
        old(recorded)@.items == u64::MAX ==> final(recorded)@.items == 0,
        old(recorded)@.bytes + bytes <= u64::MAX ==> final(recorded)@.bytes == old(recorded)@.bytes + bytes,
        old(recorded)@.bytes + bytes > u64::MAX ==> final(recorded)@.bytes == old(recorded)@.bytes + bytes - u64::MAX - 1,
        final(recorded)@.current == old(recorded)@.current,
        final(entered)@.current == dir@,
        final(entered)@.items == old(entered)@.items && final(entered)@.bytes == old(entered)@.bytes,
{
}

/// A scan that reports gives what a scan gives, or is interrupted. One that is not
/// interrupted reports all that was read; one that is, that or nothing.
pub proof fn reporting_scans_are_scans(
    root: Option<Listing>,
    cancel: &CancelFlag,
    plain: Result<Node, ScanError>,
    progress: &mut ScanProgress,
    tree: Result<Node, ScanError>,
    counted: &mut ScanProgress,
    whole: Result<Node, ScanError>,
)
    requires
        call_ensures(scan, (root,), plain),
        call_ensures(scan_reporting, (root, cancel, progress), tree),
        old(counted)@ == old(progress)@,
        call_ensures(scan_unless, (root, false, counted), whole),
    ensures
        tree matches Ok(t) ==> (plain matches Ok(p) && t@ == p@),
        tree matches Err(e) ==> e is Interrupted || (root is None && e is Unreadable),
        !(tree matches Err(e) && e is Interrupted) ==> final(progress)@ == final(counted)@,
        final(progress)@ == final(counted)@ || final(progress)@ == old(progress)@,
        !call_ensures(CancelFlag::is_cancelled, (cancel,), true) ==> !(tree matches Err(e) && e is Interrupted),
        !call_ensures(CancelFlag::is_cancelled, (cancel,), false) ==> (tree matches Err(e) && e is Interrupted),
{
}

/// The tree of a listing has its path and its kind. A leaf counts its length; a directory
/// has one child for each entry, which is the tree of that entry, and counts what they
/// count.
pub proof fn trees_are_built_of_their_entries(listing: Listing, node: Node, entry: Listing, child: Node)
    requires
        call_ensures(build, (listing,), node),
        call_ensures(build, (entry,), child),
        total_len(listing@) <= u64::MAX,
    ensures
        node@.path == listing.path@,
        node@.is_dir == listing.meta.is_dir,
        !listing.meta.is_dir ==> node@.size == listing.meta.len && node@.children.len() == 0,
        listing.meta.is_dir ==> node@.children.len() == listing.entries@.len(),
        listing.meta.is_dir && views(listing.entries@).contains(entry@) ==> node@.children.contains(child@),
        listing.meta.is_dir ==> node@.size == node@.children.map_values(|c: NodeView| c.size as int).fold_left(
            0,
            |sum: int, size: int| sum + size,
        ),
{
    lemma_listing_view(listing);
    let all = built_all(listing@.entries);
    lemma_built_all(listing@.entries);
    node_order_is_total();
    stable_sort_exists(all, node_le());
    if listing.meta.is_dir {
        lemma_permutation_len(node@.children, all);
        sizes_add_up(node@.children);
        lemma_sum_permutation(node@.children, all);
        lemma_built_trees(listing@.entries);
        assert(views(listing.entries@).len() == listing.entries@.len());
        if views(listing.entries@).contains(entry@) {
            let i = choose|i: int| 0 <= i < listing@.entries.len() && listing@.entries[i] == entry@;
            assert(all[i] == child@);
            assert(all.contains(child@));
        }
    }
}

/// A directory has the trees of its entries for children, no more and no fewer; those of
/// the same size and the same name stand as the entries were read.
pub proof fn directories_hold_the_trees_of_their_entries(listing: Listing, node: Node, nodes: Seq<Node>, x: NodeView)
    requires
        listing.meta.is_dir,
        call_ensures(build, (listing,), node),
        nodes.len() == listing.entries@.len(),
        forall|i: int| 0 <= i < nodes.len() ==> call_ensures(build, (listing.entries@[i],), #[trigger] nodes[i]),
    ensures
        node@.children.to_multiset() == views(nodes).to_multiset(),
        node@.children.filter(|n: NodeView| n.size == x.size && n.name == x.name) == views(nodes).filter(
            |n: NodeView| n.size == x.size && n.name == x.name,
        ),
{
    lemma_listing_view(listing);
    let all = built_all(listing@.entries);
    lemma_built_all(listing@.entries);
    assert forall|i: int| 0 <= i < nodes.len() implies all[i] == (#[trigger] nodes[i])@ by {
        assert(listing@.entries[i] == listing.entries@[i]@);
    }
    assert(views(nodes) =~= all);
    node_order_is_total();
    stable_sort_exists(all, node_le());
    equal_nodes_keep_their_order(all, x);
}

/// Nodes stand largest first, and by name where they are equally large.
pub proof fn the_larger_node_stands_first(a: &Node, b: &Node, le: bool)
    requires
        call_ensures(<Node as Ranked>::may_precede, (a, b), le),
    ensures
        a.size > b.size ==> le,
        a.size < b.size ==> !le,
        a.size == b.size ==> (le <==> text_le(a.name@, b.name@)),
{
    lemma_node_view(*a);
    lemma_node_view(*b);
}

/// Entries stand largest first, and by path where they are equally large.
pub proof fn the_larger_entry_stands_first(a: &Reclaimable, b: &Reclaimable, le: bool)
    requires
        call_ensures(<Reclaimable as Ranked>::may_precede, (a, b), le),
    ensures
        a.size > b.size ==> le,
        a.size < b.size ==> !le,
        a.size == b.size ==> (le <==> path_le(a.path@, b.path@)),
{
}

} // verus!
