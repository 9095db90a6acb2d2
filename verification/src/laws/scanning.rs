//! Scanning a folder: which files the tree has, what they count for, and how its
//! directories are put together.
use vstd::prelude::*;

use crate::laws::lists::{lemma_flatten_permutation, lemma_map_permutation, lemma_permutation_len};
use crate::laws::trees::{files_of_trees_are_their_files, forests_are_their_trees, sizes_add_up};
use crate::order::{sorted_stably, stable_sort_exists};
use crate::path::file_name;
use crate::scan::{
    built, built_all, can_scan, counted, counted_total, inode, is_shared, label_bytes, leaf_metas, leaf_metas_of,
    lemma_built_all, lemma_counted_add, lemma_seen_is_earlier, lemma_settled_all_total, lemma_settled_total, scan,
    scanned, scanned_len, scans_are_sound, seen_after, settled, settled_all, EntryMeta, Listing, ListingView, Node,
    ScanError,
};
use crate::text::{lossy_text, text_le};
use crate::tree::{
    consistent, files, files_of, forest, lemma_forest_member, lemma_in_forest, lemma_preorder_member, node_le,
    node_order_is_total, ordered, preorder, NodeView,
};

verus! {

/// The leaves that were read, in the order of the walk: whatever is no directory.
pub open spec fn leaves(l: ListingView) -> Seq<ListingView>
    decreases l,
{
    if l.meta.is_dir {
        leaves_among(l.entries)
    } else {
        seq![l]
    }
}

/// The leaves of several entries.
pub open spec fn leaves_among(s: Seq<ListingView>) -> Seq<ListingView>
    decreases s,
{
    if s.len() == 0 {
        Seq::empty()
    } else {
        leaves_among(s.drop_last()) + leaves(s.last())
    }
}

/// An earlier leaf is another name of the same file: both are regular files with more
/// than one link, on one device, and of one inode number.
pub open spec fn is_later_link(leaves: Seq<ListingView>, i: int) -> bool {
    leaves[i].meta.is_file && leaves[i].meta.nlink > 1 && exists|j: int|
        0 <= j < i && (#[trigger] leaves[j]).meta.is_file && leaves[j].meta.nlink > 1 && leaves[j].meta.dev
            == leaves[i].meta.dev && leaves[j].meta.ino == leaves[i].meta.ino
}

/// The path of every leaf with the bytes that it counts for: its length, or nothing
/// where it is a later link to a file.
pub open spec fn shares(leaves: Seq<ListingView>) -> Seq<(Seq<u8>, u64)> {
    Seq::new(
        leaves.len(),
        |i: int|
            (
                leaves[i].path,
                if is_later_link(leaves, i) {
                    0
                } else {
                    leaves[i].meta.len
                },
            ),
    )
}

/// The leaves of a listing, by what the disk says of them.
pub proof fn lemma_leaf_metas(l: ListingView)
    ensures
        leaf_metas(l) == leaves(l).map_values(|e: ListingView| e.meta),
    decreases l, 1nat,
{
    if l.meta.is_dir {
        lemma_leaf_metas_of(l.entries);
    } else {
        assert(leaf_metas(l) =~= leaves(l).map_values(|e: ListingView| e.meta));
    }
}

proof fn lemma_leaf_metas_of(s: Seq<ListingView>)
    ensures
        leaf_metas_of(s) == leaves_among(s).map_values(|e: ListingView| e.meta),
    decreases s, 0nat,
{
    if s.len() > 0 {
        lemma_leaf_metas_of(s.drop_last());
        lemma_leaf_metas(s.last());
    }
    assert(leaf_metas_of(s) =~= leaves_among(s).map_values(|e: ListingView| e.meta));
}

/// A leaf with another length.
spec fn with_len(e: ListingView, len: u64) -> ListingView {
    ListingView { meta: EntryMeta { len, ..e.meta }, ..e }
}

spec fn settled_leaves(s: Seq<ListingView>, seen: Set<(u64, u64)>) -> Seq<ListingView> {
    let metas = s.map_values(|e: ListingView| e.meta);
    Seq::new(s.len(), |i: int| with_len(s[i], counted(s[i].meta, seen_after(metas.take(i), seen))))
}

proof fn lemma_settled_leaves(l: ListingView, seen: Set<(u64, u64)>)
    ensures
        leaves(settled(l, seen).0) == settled_leaves(leaves(l), seen),
    decreases l, 1nat,
{
    if l.meta.is_dir {
        lemma_settled_leaves_among(l.entries, seen);
    } else {
        let s = leaves(l);
        let metas = s.map_values(|e: ListingView| e.meta);
        assert(metas.take(0) =~= Seq::<EntryMeta>::empty());
        assert(leaves(settled(l, seen).0) =~= settled_leaves(s, seen));
    }
}

proof fn lemma_settled_leaves_among(s: Seq<ListingView>, seen: Set<(u64, u64)>)
    ensures
        leaves_among(settled_all(s, seen).0) == settled_leaves(leaves_among(s), seen),
    decreases s, 0nat,
{
    if s.len() > 0 {
        let front = s.drop_last();
        let between = settled_all(front, seen);
        let last = settled(s.last(), between.1);
        lemma_settled_leaves_among(front, seen);
        lemma_settled_leaves(s.last(), between.1);
        lemma_settled_all_total(front, seen);
        lemma_leaf_metas_of(front);
        let a = leaves_among(front);
        let b = leaves(s.last());
        let f = |e: ListingView| e.meta;
        let ma = a.map_values(f);
        let mb = b.map_values(f);
        let m = (a + b).map_values(f);
        assert(between.1 == seen_after(ma, seen));
        assert(between.0.push(last.0).drop_last() =~= between.0);
        let r = leaves_among(settled_all(s, seen).0);
        assert(r == settled_leaves(a, seen) + settled_leaves(b, between.1));
        assert forall|i: int| 0 <= i < (a + b).len() implies #[trigger] r[i] == settled_leaves(a + b, seen)[i] by {
            if i < a.len() {
                assert(m.take(i) =~= ma.take(i));
            } else {
                assert(m.take(i) =~= ma + mb.take(i - a.len()));
                lemma_counted_add(ma, mb.take(i - a.len()), seen);
            }
        }
        assert(r =~= settled_leaves(a + b, seen));
    } else {
        assert(leaves_among(settled_all(s, seen).0) =~= settled_leaves(leaves_among(s), seen));
    }
}

/// What a leaf counts for, by the links before it.
proof fn lemma_counts(s: Seq<ListingView>, i: int)
    requires
        0 <= i < s.len(),
    ensures
        counted(s[i].meta, seen_after(s.map_values(|e: ListingView| e.meta).take(i), Set::empty())) == (if is_later_link(
            s,
            i,
        ) {
            0
        } else {
            s[i].meta.len
        }),
{
    let metas = s.map_values(|e: ListingView| e.meta);
    let before = metas.take(i);
    let id = (s[i].meta.dev, s[i].meta.ino);
    lemma_seen_is_earlier(before, id);
    if is_later_link(s, i) {
        let j = choose|j: int|
            0 <= j < i && (#[trigger] s[j]).meta.is_file && s[j].meta.nlink > 1 && s[j].meta.dev == s[i].meta.dev
                && s[j].meta.ino == s[i].meta.ino;
        assert(before[j] == s[j].meta);
    }
    if seen_after(before, Set::empty()).contains(id) {
        let j = choose|j: int|
            0 <= j < before.len() && is_shared(#[trigger] before[j]) && inode(before[j]) == id;
        assert(s[j].meta == before[j]);
    }
}

spec fn file_share() -> spec_fn(NodeView) -> (Seq<u8>, u64) {
    |f: NodeView| (f.path, f.size)
}

spec fn leaf_share() -> spec_fn(ListingView) -> (Seq<u8>, u64) {
    |e: ListingView| (e.path, e.meta.len)
}

proof fn lemma_files_of_built(l: ListingView)
    ensures
        files(built(l)).map_values(file_share()).to_multiset() == leaves(l).map_values(leaf_share()).to_multiset(),
    decreases l, 1nat,
{
    if l.meta.is_dir {
        let all = built_all(l.entries);
        let c = sorted_stably(all, node_le());
        let f = |n: NodeView| files(n);
        node_order_is_total();
        stable_sort_exists(all, node_le());
        lemma_map_permutation(c, all, f);
        lemma_flatten_permutation(c.map_values(f), all.map_values(f));
        files_of_trees_are_their_files(c);
        files_of_trees_are_their_files(all);
        lemma_map_permutation(files_of(c), files_of(all), file_share());
        lemma_files_of_built_all(l.entries);
    } else {
        assert(files(built(l)).map_values(file_share()) =~= leaves(l).map_values(leaf_share()));
    }
}

proof fn lemma_files_of_built_all(s: Seq<ListingView>)
    ensures
        files_of(built_all(s)).map_values(file_share()).to_multiset() == leaves_among(s).map_values(
            leaf_share(),
        ).to_multiset(),
    decreases s, 0nat,
{
    if s.len() > 0 {
        let front = s.drop_last();
        lemma_files_of_built_all(front);
        lemma_files_of_built(s.last());
        assert(built_all(s).drop_last() =~= built_all(front));
        let a = files_of(built_all(front));
        let b = files(built(s.last()));
        let x = leaves_among(front);
        let y = leaves(s.last());
        assert((a + b).map_values(file_share()) =~= a.map_values(file_share()) + b.map_values(file_share()));
        assert((x + y).map_values(leaf_share()) =~= x.map_values(leaf_share()) + y.map_values(leaf_share()));
        vstd::seq_lib::lemma_multiset_commutative(a.map_values(file_share()), b.map_values(file_share()));
        vstd::seq_lib::lemma_multiset_commutative(x.map_values(leaf_share()), y.map_values(leaf_share()));
    } else {
        assert(files_of(built_all(s)).map_values(file_share()) =~= leaves_among(s).map_values(leaf_share()));
    }
}

proof fn lemma_scanned_files(l: ListingView)
    ensures
        files(scanned(l)).map_values(|f: NodeView| (f.path, f.size)).to_multiset() == shares(leaves(l)).to_multiset(),
{
    let s = leaves(l);
    let m = settled(l, Set::empty()).0;
    lemma_settled_leaves(l, Set::empty());
    lemma_files_of_built(m);
    assert(leaves(m).map_values(leaf_share()) =~= shares(s)) by {
        assert forall|i: int| 0 <= i < s.len() implies leaves(m).map_values(leaf_share())[i] == #[trigger] shares(s)[i] by {
            lemma_counts(s, i);
        }
    }
    assert(files(scanned(l)).map_values(|f: NodeView| (f.path, f.size)) =~= files(scanned(l)).map_values(file_share()));
}

/// The files of a scanned tree are the leaves that were read, no more and no fewer,
/// each under its own path. A leaf counts for its length; only a later link to a file
/// that has counted already counts for nothing. So a file with several names counts
/// once, and whatever is no regular file, or has one name only, always counts.
pub proof fn a_scan_has_every_leaf_and_counts_every_file_once(root: Listing, tree: Result<Node, ScanError>)
    requires
        call_ensures(scan, (Some(root),), tree),
    ensures
        tree matches Ok(t) && files(t@).map_values(|f: NodeView| (f.path, f.size)).to_multiset() == shares(
            leaves(root@),
        ).to_multiset(),
{
    lemma_scanned_files(root@);
}

/// The bytes that all leaves count for together.
pub open spec fn bytes_counted(leaves: Seq<ListingView>) -> int {
    shares(leaves).map_values(|share: (Seq<u8>, u64)| share.1 as int).fold_left(0, |sum: int, bytes: int| sum + bytes)
}

proof fn lemma_bytes_counted(s: Seq<ListingView>)
    ensures
        counted_total(s.map_values(|e: ListingView| e.meta), Set::empty()) == bytes_counted(s),
    decreases s.len(),
{
    let f = |e: ListingView| e.meta;
    let g = |share: (Seq<u8>, u64)| share.1 as int;
    if s.len() > 0 {
        let front = s.drop_last();
        lemma_bytes_counted(front);
        lemma_counts(s, s.len() - 1);
        assert(s.map_values(f).drop_last() =~= front.map_values(f));
        assert(s.map_values(f).take(s.len() - 1) =~= front.map_values(f));
        assert forall|i: int| 0 <= i < front.len() implies is_later_link(front, i) == is_later_link(s, i) by {
            if is_later_link(s, i) {
                let j = choose|j: int|
                    0 <= j < i && (#[trigger] s[j]).meta.is_file && s[j].meta.nlink > 1 && s[j].meta.dev == s[i].meta.dev
                        && s[j].meta.ino == s[i].meta.ino;
                assert(front[j] == s[j]);
            }
            if is_later_link(front, i) {
                let j = choose|j: int|
                    0 <= j < i && (#[trigger] front[j]).meta.is_file && front[j].meta.nlink > 1 && front[j].meta.dev
                        == front[i].meta.dev && front[j].meta.ino == front[i].meta.ino;
                assert(s[j] == front[j]);
            }
        }
        assert(shares(s).map_values(g).drop_last() =~= shares(front).map_values(g));
    }
}

/// What a scan counts is what its leaves count for.
pub proof fn lemma_scanned_len(l: ListingView)
    ensures
        scanned_len(l) == bytes_counted(leaves(l)),
{
    lemma_settled_total(l, Set::empty());
    lemma_leaf_metas(l);
    lemma_bytes_counted(leaves(l));
}

/// The whole folder is as large as its leaves count for, and can be scanned exactly
/// where that can be told in 64 bits.
pub proof fn a_scan_totals_what_its_leaves_count_for(root: Listing, fits: bool, tree: Result<Node, ScanError>)
    requires
        call_ensures(can_scan, (&root,), fits),
        call_ensures(scan, (Some(root),), tree),
    ensures
        fits <==> bytes_counted(leaves(root@)) <= u64::MAX,
        fits ==> (tree matches Ok(t) && t@.size == bytes_counted(leaves(root@))),
{
    lemma_scanned_len(root@);
    if fits {
        scans_are_sound(root@);
    }
}

proof fn lemma_below_is_sound(n: NodeView, d: NodeView)
    requires
        consistent(n),
        ordered(n),
        preorder(n).contains(d),
    ensures
        consistent(d),
        ordered(d),
    decreases n,
{
    lemma_preorder_member(n, d);
    if d != n {
        let i = lemma_forest_member(n.children, d);
        assert(consistent(n.children[i]) && ordered(n.children[i]));
        lemma_below_is_sound(n.children[i], d);
    }
}

/// Every directory in the tree, at whatever depth, is as large as its children
/// together, and has them largest first, by name where they are equally large; what is
/// no directory has no children.
pub proof fn directories_add_up_and_stand_in_order(root: Listing, tree: Result<Node, ScanError>, d: NodeView)
    requires
        bytes_counted(leaves(root@)) <= u64::MAX,
        call_ensures(scan, (Some(root),), tree),
        tree matches Ok(t) && preorder(t@).contains(d),
    ensures
        d.is_dir ==> d.size == d.children.map_values(|c: NodeView| c.size as int).fold_left(
            0,
            |sum: int, size: int| sum + size,
        ),
        !d.is_dir ==> d.children.len() == 0,
        forall|i: int, j: int|
            0 <= i < j < d.children.len() ==> (#[trigger] d.children[i]).size > (#[trigger] d.children[j]).size || (
            d.children[i].size == d.children[j].size && text_le(d.children[i].name, d.children[j].name)),
{
    lemma_scanned_len(root@);
    scans_are_sound(root@);
    lemma_below_is_sound(scanned(root@), d);
    sizes_add_up(d.children);
    assert forall|i: int, j: int| 0 <= i < j < d.children.len() implies (#[trigger] d.children[i]).size > (
    #[trigger] d.children[j]).size || (d.children[i].size == d.children[j].size && text_le(
        d.children[i].name,
        d.children[j].name,
    )) by {
        let le = node_le();
        assert(le(d.children[i], d.children[j]));
    }
}

/// Everything that was read, in the order of the walk: a directory before what is in
/// it. What lies behind an entry that is no directory is not looked at.
pub open spec fn walk(l: ListingView) -> Seq<ListingView>
    decreases l,
{
    if l.meta.is_dir {
        seq![l] + walk_all(l.entries)
    } else {
        seq![l]
    }
}

/// Everything that was read of several entries.
pub open spec fn walk_all(s: Seq<ListingView>) -> Seq<ListingView>
    decreases s,
{
    if s.len() == 0 {
        Seq::empty()
    } else {
        walk_all(s.drop_last()) + walk(s.last())
    }
}

/// The path of an entry, and whether it is a directory.
pub open spec fn entry_place() -> spec_fn(ListingView) -> (Seq<u8>, bool) {
    |e: ListingView| (e.path, e.meta.is_dir)
}

spec fn node_place() -> spec_fn(NodeView) -> (Seq<u8>, bool) {
    |n: NodeView| (n.path, n.is_dir)
}

/// Settling a listing keeps its paths and directories.
pub proof fn lemma_settled_walk(l: ListingView, seen: Set<(u64, u64)>)
    ensures
        walk(settled(l, seen).0).map_values(entry_place()) == walk(l).map_values(entry_place()),
        settled(l, seen).0.path == l.path,
        settled(l, seen).0.meta.is_dir == l.meta.is_dir,
    decreases l, 1nat,
{
    if l.meta.is_dir {
        lemma_settled_walk_all(l.entries, seen);
        let m = settled(l, seen).0;
        assert(walk(m).map_values(entry_place()) =~= seq![m].map_values(entry_place()) + walk_all(m.entries).map_values(
            entry_place(),
        ));
        assert(walk(l).map_values(entry_place()) =~= seq![l].map_values(entry_place()) + walk_all(l.entries).map_values(
            entry_place(),
        ));
        assert(seq![m].map_values(entry_place()) =~= seq![l].map_values(entry_place()));
    } else {
        assert(walk(settled(l, seen).0).map_values(entry_place()) =~= walk(l).map_values(entry_place()));
    }
}

proof fn lemma_settled_walk_all(s: Seq<ListingView>, seen: Set<(u64, u64)>)
    ensures
        walk_all(settled_all(s, seen).0).map_values(entry_place()) == walk_all(s).map_values(entry_place()),
        settled_all(s, seen).0.len() == s.len(),
        forall|i: int|
            0 <= i < s.len() ==> (#[trigger] settled_all(s, seen).0[i]).path == s[i].path && exists|now: Set<(u64, u64)>|
                settled_all(s, seen).0[i] == (#[trigger] settled(s[i], now)).0,
    decreases s, 0nat,
{
    if s.len() > 0 {
        let front = s.drop_last();
        let between = settled_all(front, seen);
        let last = settled(s.last(), between.1);
        lemma_settled_walk_all(front, seen);
        lemma_settled_walk(s.last(), between.1);
        let all = settled_all(s, seen).0;
        assert(all == between.0.push(last.0));
        assert(all.drop_last() =~= between.0);
        let p = entry_place();
        assert(walk_all(all).map_values(p) =~= walk_all(between.0).map_values(p) + walk(last.0).map_values(p));
        assert(walk_all(s).map_values(p) =~= walk_all(front).map_values(p) + walk(s.last()).map_values(p));
        assert forall|i: int| 0 <= i < s.len() implies (#[trigger] all[i]).path == s[i].path && exists|
            now: Set<(u64, u64)>,
        | all[i] == (#[trigger] settled(s[i], now)).0 by {
            if i < front.len() {
                assert(all[i] == between.0[i]);
                assert(front[i] == s[i]);
            } else {
                assert(all[i] == settled(s[i], between.1).0);
            }
        }
    } else {
        assert(walk_all(settled_all(s, seen).0).map_values(entry_place()) =~= walk_all(s).map_values(entry_place()));
    }
}

proof fn lemma_built_walk(l: ListingView)
    ensures
        preorder(built(l)).map_values(node_place()).to_multiset() == walk(l).map_values(entry_place()).to_multiset(),
    decreases l, 1nat,
{
    broadcast use vstd::seq_lib::group_to_multiset_ensures;

    let n = built(l);
    let p = node_place();
    let e = entry_place();
    assert(preorder(n).map_values(p) =~= seq![p(n)] + forest(n.children).map_values(p));
    if l.meta.is_dir {
        let all = built_all(l.entries);
        let f = |c: NodeView| preorder(c);
        node_order_is_total();
        stable_sort_exists(all, node_le());
        lemma_map_permutation(n.children, all, f);
        lemma_flatten_permutation(n.children.map_values(f), all.map_values(f));
        forests_are_their_trees(n.children);
        forests_are_their_trees(all);
        lemma_map_permutation(forest(n.children), forest(all), p);
        lemma_built_walk_all(l.entries);
        assert(walk(l).map_values(e) =~= seq![e(l)] + walk_all(l.entries).map_values(e));
        vstd::seq_lib::lemma_multiset_commutative(seq![p(n)], forest(n.children).map_values(p));
        vstd::seq_lib::lemma_multiset_commutative(seq![e(l)], walk_all(l.entries).map_values(e));
    } else {
        assert(forest(n.children).map_values(p) =~= Seq::<(Seq<u8>, bool)>::empty());
        assert(preorder(n).map_values(p) =~= walk(l).map_values(e));
    }
}

proof fn lemma_built_walk_all(s: Seq<ListingView>)
    ensures
        forest(built_all(s)).map_values(node_place()).to_multiset() == walk_all(s).map_values(entry_place()).to_multiset(),
    decreases s, 0nat,
{
    let p = node_place();
    let e = entry_place();
    if s.len() > 0 {
        let front = s.drop_last();
        lemma_built_walk_all(front);
        lemma_built_walk(s.last());
        assert(built_all(s).drop_last() =~= built_all(front));
        let a = forest(built_all(front));
        let b = preorder(built(s.last()));
        let x = walk_all(front);
        let y = walk(s.last());
        assert((a + b).map_values(p) =~= a.map_values(p) + b.map_values(p));
        assert((x + y).map_values(e) =~= x.map_values(e) + y.map_values(e));
        vstd::seq_lib::lemma_multiset_commutative(a.map_values(p), b.map_values(p));
        vstd::seq_lib::lemma_multiset_commutative(x.map_values(e), y.map_values(e));
    } else {
        assert(forest(built_all(s)).map_values(p) =~= walk_all(s).map_values(e));
    }
}

/// The tree has a node for everything that was read, files and directories, hidden or
/// not, at every depth, and no other: under the same path, and a directory exactly
/// where a directory was read.
pub proof fn a_scan_has_a_node_for_everything_that_was_read(root: Listing, tree: Result<Node, ScanError>)
    requires
        call_ensures(scan, (Some(root),), tree),
    ensures
        tree matches Ok(t) && t@.path == root@.path && preorder(t@).map_values(|n: NodeView| (n.path, n.is_dir)).to_multiset()
            == walk(root@).map_values(|e: ListingView| (e.path, e.meta.is_dir)).to_multiset(),
{
    let m = settled(root@, Set::empty()).0;
    lemma_settled_walk(root@, Set::empty());
    lemma_built_walk(m);
    assert(preorder(built(m)).map_values(|n: NodeView| (n.path, n.is_dir)) =~= preorder(built(m)).map_values(node_place()));
    assert(walk(root@).map_values(|e: ListingView| (e.path, e.meta.is_dir)) =~= walk(root@).map_values(entry_place()));
}

proof fn lemma_structure(l: ListingView, seen: Set<(u64, u64)>, e: ListingView) -> (d: NodeView)
    requires
        walk(l).contains(e),
        e.meta.is_dir,
    ensures
        preorder(built(settled(l, seen).0)).contains(d),
        d.path == e.path,
        d.is_dir,
        d.children.map_values(|n: NodeView| n.path).to_multiset() == e.entries.map_values(
            |x: ListingView| x.path,
        ).to_multiset(),
    decreases l,
{
    let m = settled(l, seen).0;
    let n = built(m);
    let k = choose|k: int| 0 <= k < walk(l).len() && walk(l)[k] == e;
    lemma_settled_walk(l, seen);
    lemma_preorder_member(n, n);
    assert(l.meta.is_dir);
    let s = settled_all(l.entries, seen).0;
    let all = built_all(s);
    lemma_settled_walk_all(l.entries, seen);
    lemma_built_all(s);
    node_order_is_total();
    stable_sort_exists(all, node_le());
    if k == 0 {
        let f = |c: NodeView| c.path;
        lemma_map_permutation(n.children, all, f);
        assert(all.map_values(f) =~= l.entries.map_values(|x: ListingView| x.path));
        n
    } else {
        assert(walk_all(l.entries)[k - 1] == e);
        let i = lemma_walk_member(l.entries, e);
        let now = choose|now: Set<(u64, u64)>| s[i] == (#[trigger] settled(l.entries[i], now)).0;
        let d = lemma_structure(l.entries[i], now, e);
        lemma_permutation_len(n.children, all);
        assert(all.contains(all[i]));
        let j = choose|j: int| 0 <= j < n.children.len() && n.children[j] == all[i];
        lemma_in_forest(n.children, j, d);
        lemma_preorder_member(n, d);
        d
    }
}

proof fn lemma_walk_member(s: Seq<ListingView>, e: ListingView) -> (i: int)
    requires
        walk_all(s).contains(e),
    ensures
        0 <= i < s.len(),
        walk(s[i]).contains(e),
    decreases s.len(),
{
    let a = walk_all(s.drop_last());
    let k = choose|k: int| 0 <= k < walk_all(s).len() && walk_all(s)[k] == e;
    if k < a.len() {
        assert(a[k] == e);
        let i = lemma_walk_member(s.drop_last(), e);
        assert(s.drop_last()[i] == s[i]);
        i
    } else {
        assert(walk(s.last())[k - a.len()] == e);
        s.len() - 1
    }
}

/// Every directory that was read is in the tree with all its entries, and with no
/// others.
pub proof fn directories_keep_their_entries(root: Listing, tree: Result<Node, ScanError>, e: ListingView)
    requires
        call_ensures(scan, (Some(root),), tree),
        walk(root@).contains(e),
        e.meta.is_dir,
    ensures
        tree matches Ok(t) && exists|d: NodeView| #[trigger]
            preorder(t@).contains(d) && d.is_dir && d.path == e.path && d.children.map_values(
                |n: NodeView| n.path,
            ).to_multiset() == e.entries.map_values(|x: ListingView| x.path).to_multiset(),
{
    let d = lemma_structure(root@, Set::empty(), e);
}

proof fn lemma_names(l: ListingView, n: NodeView)
    requires
        preorder(built(l)).contains(n),
    ensures
        n.name == lossy_text(label_bytes(n.path)),
    decreases l,
{
    lemma_preorder_member(built(l), n);
    if n != built(l) {
        let c = built(l).children;
        let all = built_all(l.entries);
        let i = lemma_forest_member(c, n);
        lemma_built_all(l.entries);
        node_order_is_total();
        stable_sort_exists(all, node_le());
        lemma_permutation_len(c, all);
        assert(c.contains(c[i]));
        let k = choose|k: int| 0 <= k < all.len() && all[k] == c[i];
        lemma_names(l.entries[k], n);
    }
}

/// A node is named after the last component of its path, or after the whole path where
/// that has no name.
pub proof fn nodes_are_named_after_their_paths(root: Listing, tree: Result<Node, ScanError>, n: NodeView)
    requires
        call_ensures(scan, (Some(root),), tree),
        tree matches Ok(t) && preorder(t@).contains(n),
    ensures
        n.name == lossy_text(
            match file_name(n.path) {
                Some(name) => name,
                None => n.path,
            },
        ),
{
    lemma_names(settled(root@, Set::empty()).0, n);
}

} // verus!
