//! Space that can be reclaimed: which artifacts are found, how spots are measured and
//! broken down, and what the entries add up to.
use vstd::prelude::*;
use vstd::string::*;
use vstd::utf8::encode_utf8;

use crate::clearing::{entries_of, larger_first, measure_spots};
use crate::laws::lists::lemma_flatten_push;
use crate::laws::places::sizes_agree_at_every_depth;
use crate::laws::scanning::{bytes_counted, leaves, lemma_leaf_metas, lemma_scanned_len};
use crate::laws::trees::{files_are_the_nodes_that_are_no_directories, files_go_down_directories_alone};
use crate::order::{alike, stable_sort_exists, views};
use crate::path::{is_rooted, path_le, SEPARATOR, EntryPath};
use crate::query::lemma_sum_split;
use crate::reclaim::{
    artifact_entry, artifact_name, artifact_nodes, artifacts, artifacts_among, artifacts_do_not_overlap, breakdown,
    broken_down, cache_entries, cache_name, caches_of, candidate_spots, count_files, existing, find_artifacts,
    measure, no_artifact_is_missed, only_artifacts_are_found, reclaim_le, reclaim_order_is_total, recognised,
    sum_file_counts, sum_reclaimed, system_spots, trash_of, unlabelled, ReclaimKind, Reclaimable, ReclaimableView,
    SpotView, SystemSpot,
};
use crate::scan::{scan, scanned, scans_are_sound, scans_have_a_file_for_every_leaf, Listing, Node, ScanError};
use crate::tree::{
    consistent, files, forest, lemma_forest_member, lemma_in_forest, lemma_preorder_member, lemma_preorder_transitive,
    preorder, NodeView,
};

verus! {

/// How many files there are in a tree: its nodes, at every depth, that are no
/// directories.
pub open spec fn file_total(n: NodeView) -> nat {
    preorder(n).filter(|x: NodeView| !x.is_dir).len()
}

proof fn lemma_consistent_below(n: NodeView, d: NodeView)
    requires
        consistent(n),
        preorder(n).contains(d),
    ensures
        consistent(d),
    decreases n,
{
    lemma_preorder_member(n, d);
    if d != n {
        let i = lemma_forest_member(n.children, d);
        assert(consistent(n.children[i]));
        lemma_consistent_below(n.children[i], d);
    }
}

proof fn lemma_file_total(n: NodeView)
    requires
        consistent(n),
    ensures
        files(n).len() == file_total(n),
{
    sizes_agree_at_every_depth(n);
    assert forall|i: int| 0 <= i < preorder(n).len() && !(#[trigger] preorder(n)[i]).is_dir implies preorder(
        n,
    )[i].children.len() == 0 by {}
    files_are_the_nodes_that_are_no_directories(n);
}

/// Counting files counts every node that is no directory, at every depth, once.
pub proof fn every_file_is_counted(node: &Node, count: u64)
    requires
        consistent(node@),
        call_ensures(count_files, (node,), count),
    ensures
        count == file_total(node@),
{
    lemma_file_total(node@);
}

/// The bytes of some entries are the bytes of every one of them, added up, and so are
/// their files.
pub proof fn entries_add_up(s: Seq<ReclaimableView>)
    ensures
        sum_reclaimed(s) == s.map_values(|r: ReclaimableView| r.size as int).fold_left(0, |sum: int, x: int| sum + x),
        sum_file_counts(s) == s.map_values(|r: ReclaimableView| r.file_count as int).fold_left(
            0,
            |sum: int, x: int| sum + x,
        ),
    decreases s.len(),
{
    let f = |r: ReclaimableView| r.size as int;
    let g = |r: ReclaimableView| r.file_count as int;
    if s.len() > 0 {
        entries_add_up(s.drop_last());
        assert(s.map_values(f).drop_last() =~= s.drop_last().map_values(f));
        assert(s.map_values(g).drop_last() =~= s.drop_last().map_values(g));
    }
}

/// What is offered for a directory that is an artifact: the whole directory, with its
/// label, its path, its size, and the files in it at every depth.
pub open spec fn offer(artifact: (Seq<char>, NodeView)) -> ReclaimableView {
    ReclaimableView {
        label: artifact.0,
        path: artifact.1.path,
        size: artifact.1.size,
        file_count: file_total(artifact.1) as u64,
        kind: ReclaimKind::Artifact,
    }
}

/// The artifacts of a tree are offered whole and once. There are directories in the
/// tree, each recognised by its name and what stands beside it, such that the entries
/// are the offers for them, no more and no fewer: label, path, size, and the files at
/// every depth. No node is in two of them, and every directory that is recognised,
/// however deep, is one of them or lies in one. The largest comes first, and by path
/// where they are equally large.
pub proof fn artifacts_are_offered_whole_and_once(root: &Node, found: Vec<Reclaimable>) -> (dirs: Seq<
    (Seq<char>, NodeView),
>)
    requires
        consistent(root@),
        file_total(root@) <= u64::MAX,
        call_ensures(find_artifacts, (root,), found),
    ensures
        views(found@).to_multiset() == dirs.map_values(|a: (Seq<char>, NodeView)| offer(a)).to_multiset(),
        forall|k: int|
            0 <= k < dirs.len() ==> (#[trigger] dirs[k]).1.is_dir && file_total(dirs[k].1) <= u64::MAX && exists|
                d: NodeView,
            | #[trigger]
                preorder(root@).contains(d) && d.children.contains(dirs[k].1) && artifact_name(dirs[k].1.name, d.children)
                    == Some(dirs[k].0),
        forest(dirs.map_values(|a: (Seq<char>, NodeView)| a.1)).to_multiset().subset_of(
            forest(root@.children).to_multiset(),
        ),
        forall|d: NodeView, c: NodeView|
            #![trigger preorder(root@).contains(d), d.children.contains(c)]
            preorder(root@).contains(d) && d.children.contains(c) && c.is_dir && artifact_name(c.name, d.children) is Some
                ==> forest(dirs.map_values(|a: (Seq<char>, NodeView)| a.1)).contains(c),
        forall|i: int, j: int|
            0 <= i < j < found@.len() ==> (#[trigger] found@[i])@.size > (#[trigger] found@[j])@.size || (found@[i]@.size
                == found@[j]@.size && path_le(found@[i]@.path, found@[j]@.path)),
{
    let dirs = artifact_nodes(root@);
    let f = |a: (Seq<char>, NodeView)| artifact_entry(a);
    let g = |a: (Seq<char>, NodeView)| offer(a);
    let all = artifacts(root@);
    reclaim_order_is_total();
    stable_sort_exists(all, reclaim_le());
    lemma_file_total(root@);
    assert(dirs.map_values(|a: (Seq<char>, NodeView)| a.1) =~= unlabelled(dirs));
    assert forall|k: int| 0 <= k < dirs.len() implies recognised(root@, (#[trigger] dirs[k]).0, dirs[k].1) && file_total(
        dirs[k].1,
    ) <= u64::MAX && consistent(dirs[k].1) by {
        only_artifacts_are_found(root@, k);
        let d = choose|d: NodeView| #[trigger]
            preorder(root@).contains(d) && d.children.contains(dirs[k].1) && dirs[k].1.is_dir && artifact_name(
                dirs[k].1.name,
                d.children,
            ) == Some(dirs[k].0);
        let m = choose|m: int| 0 <= m < d.children.len() && d.children[m] == dirs[k].1;
        lemma_in_forest(d.children, m, dirs[k].1);
        lemma_preorder_member(d, dirs[k].1);
        lemma_preorder_transitive(root@, d, dirs[k].1);
        lemma_consistent_below(root@, dirs[k].1);
        lemma_file_total(dirs[k].1);
        lemma_files_below(root@, dirs[k].1);
    }
    assert(dirs.map_values(f) =~= dirs.map_values(g)) by {
        assert forall|k: int| 0 <= k < dirs.len() implies f(#[trigger] dirs[k]) == g(dirs[k]) by {
            lemma_file_total(dirs[k].1);
        }
    }
    assert forall|k: int| 0 <= k < dirs.len() implies (#[trigger] dirs[k]).1.is_dir && file_total(dirs[k].1) <= u64::MAX
        && exists|d: NodeView| #[trigger]
        preorder(root@).contains(d) && d.children.contains(dirs[k].1) && artifact_name(dirs[k].1.name, d.children)
            == Some(dirs[k].0) by {
        assert(recognised(root@, dirs[k].0, dirs[k].1));
    }
    artifacts_do_not_overlap(root@);
    assert forall|d: NodeView, c: NodeView|
        #![trigger preorder(root@).contains(d), d.children.contains(c)]
        preorder(root@).contains(d) && d.children.contains(c) && c.is_dir && artifact_name(c.name, d.children) is Some implies forest(
        dirs.map_values(|a: (Seq<char>, NodeView)| a.1),
    ).contains(c) by {
        let label = artifact_name(c.name, d.children)->0;
        assert(recognised(root@, label, c));
        no_artifact_is_missed(root@, label, c);
    }
    let r = views(found@);
    assert forall|i: int, j: int| 0 <= i < j < found@.len() implies (#[trigger] found@[i])@.size > (
    #[trigger] found@[j])@.size || (found@[i]@.size == found@[j]@.size && path_le(found@[i]@.path, found@[j]@.path)) by {
        let le = reclaim_le();
        assert(le(r[i], r[j]));
        assert(r[i] == found@[i]@ && r[j] == found@[j]@);
    }
    dirs
}

/// No part of a tree has more files than the tree.
proof fn lemma_files_below(n: NodeView, d: NodeView)
    requires
        consistent(n),
        preorder(n).contains(d),
    ensures
        files(d).len() <= files(n).len(),
    decreases n,
{
    lemma_preorder_member(n, d);
    if d != n {
        let i = lemma_forest_member(n.children, d);
        assert(consistent(n.children[i]));
        lemma_files_below(n.children[i], d);
        lemma_sum_split(n.children, i);
        assert(n.is_dir);
    }
}

/// A whole spot is as large as what a scan of its contents counts, and has a file for
/// every leaf that was read; a spot that cannot be read has nothing. Its label, path and
/// kind are the spot's.
pub proof fn a_spot_is_measured_whole(spot: &SystemSpot, contents: Option<Listing>, entry: Reclaimable)
    requires
        contents matches Some(l) ==> bytes_counted(leaves(l@)) <= u64::MAX && leaves(l@).len() <= u64::MAX,
        call_ensures(measure, (spot, contents), entry),
    ensures
        entry@.label == spot.label@,
        entry@.path == spot.path@,
        entry@.kind == spot.kind,
        contents matches Some(l) ==> entry@.size == bytes_counted(leaves(l@)) && entry@.file_count == leaves(l@).len(),
        contents is None ==> entry@.size == 0 && entry@.file_count == 0,
{
    if let Some(l) = contents {
        lemma_scanned_len(l@);
        lemma_leaf_metas(l@);
        scans_are_sound(l@);
        scans_have_a_file_for_every_leaf(l@);
    }
}

/// The cache directory is broken down application by application: one entry for each
/// child of its tree, no more and no fewer, a cache each, with the child's path, size
/// and files at every depth, under the name that its directory's name is shown under;
/// the largest first, and by path where they are equally large. Without contents there
/// is none. Any other spot is offered whole, as it is measured.
pub proof fn caches_are_offered_one_by_one(
    spot: &SystemSpot,
    contents: Option<Listing>,
    tree: Result<Node, ScanError>,
    whole: Reclaimable,
    entries: Vec<Reclaimable>,
)
    requires
        contents matches Some(l) ==> bytes_counted(leaves(l@)) <= u64::MAX && leaves(l@).len() <= u64::MAX,
        call_ensures(scan, (contents,), tree),
        call_ensures(measure, (spot, contents), whole),
        call_ensures(breakdown, (spot, contents), entries),
    ensures
        spot.kind != ReclaimKind::Cache ==> views(entries@) == seq![whole@],
        spot.kind == ReclaimKind::Cache && contents is None ==> entries@.len() == 0,
        spot.kind == ReclaimKind::Cache ==> (tree matches Ok(t) ==> views(entries@).to_multiset()
            == t@.children.map_values(
            |c: NodeView|
                ReclaimableView {
                    label: cache_name(c.name),
                    path: c.path,
                    size: c.size,
                    file_count: file_total(c) as u64,
                    kind: ReclaimKind::Cache,
                },
        ).to_multiset()),
        spot.kind == ReclaimKind::Cache ==> forall|i: int, j: int|
            0 <= i < j < entries@.len() ==> (#[trigger] entries@[i])@.size > (#[trigger] entries@[j])@.size || (
            entries@[i]@.size == entries@[j]@.size && path_le(entries@[i]@.path, entries@[j]@.path)),
{
    assert(views(entries@).len() == entries@.len());
    if spot.kind == ReclaimKind::Cache {
        if let Some(l) = contents {
            let t = scanned(l@);
            let all = cache_entries(t);
            lemma_scanned_len(l@);
            scans_are_sound(l@);
            reclaim_order_is_total();
            stable_sort_exists(all, reclaim_le());
            let f = |c: NodeView|
                ReclaimableView {
                    label: cache_name(c.name),
                    path: c.path,
                    size: c.size,
                    file_count: file_total(c) as u64,
                    kind: ReclaimKind::Cache,
                };
            assert(all =~= t.children.map_values(f)) by {
                assert forall|k: int| 0 <= k < all.len() implies #[trigger] all[k] == f(t.children[k]) by {
                    assert(consistent(t.children[k]));
                    lemma_file_total(t.children[k]);
                }
            }
            let r = views(entries@);
            assert forall|i: int, j: int| 0 <= i < j < entries@.len() implies (#[trigger] entries@[i])@.size > (
            #[trigger] entries@[j])@.size || (entries@[i]@.size == entries@[j]@.size && path_le(
                entries@[i]@.path,
                entries@[j]@.path,
            )) by {
                let le = reclaim_le();
                assert(le(r[i], r[j]));
                assert(r[i] == entries@[i]@ && r[j] == entries@[j]@);
            }
        }
    }
}

proof fn lemma_entries_of(read: Seq<(SystemSpot, Option<Listing>)>)
    ensures
        entries_of(read) == read.map_values(|r: (SystemSpot, Option<Listing>)| broken_down(r.0@, r.1)).flatten(),
    decreases read.len(),
{
    let f = |r: (SystemSpot, Option<Listing>)| broken_down(r.0@, r.1);
    if read.len() == 0 {
        assert(read.map_values(f).flatten() =~= Seq::<ReclaimableView>::empty());
    } else {
        let front = read.drop_last();
        lemma_entries_of(front);
        assert(read.map_values(f) =~= front.map_values(f).push(f(read.last())));
        lemma_flatten_push(front.map_values(f), f(read.last()));
    }
}

/// Measuring several spots gives the entries of all of them, none twice and none left
/// out, the largest first; what is equally large stays in the order of the spots.
pub proof fn all_spots_are_measured(
    read: Vec<(SystemSpot, Option<Listing>)>,
    parts: Seq<Vec<Reclaimable>>,
    entries: Vec<Reclaimable>,
    size: u64,
)
    requires
        parts.len() == read@.len(),
        forall|i: int| 0 <= i < parts.len() ==> call_ensures(breakdown, (&read@[i].0, read@[i].1), #[trigger] parts[i]),
        call_ensures(measure_spots, (read,), entries),
    ensures
        views(entries@).to_multiset() == parts.map_values(|p: Vec<Reclaimable>| views(p@)).flatten().to_multiset(),
        forall|i: int, j: int| 0 <= i < j < entries@.len() ==> (#[trigger] entries@[i])@.size >= (#[trigger] entries@[j])@.size,
        views(entries@).filter(|r: ReclaimableView| r.size == size) == parts.map_values(
            |p: Vec<Reclaimable>| views(p@),
        ).flatten().filter(|r: ReclaimableView| r.size == size),
{
    let f = |r: (SystemSpot, Option<Listing>)| broken_down(r.0@, r.1);
    let all = entries_of(read@);
    let le = larger_first();
    lemma_entries_of(read@);
    assert(read@.map_values(f) =~= parts.map_values(|p: Vec<Reclaimable>| views(p@)));
    stable_sort_exists(all, le);
    let r = views(entries@);
    assert forall|i: int, j: int| 0 <= i < j < entries@.len() implies (#[trigger] entries@[i])@.size >= (
    #[trigger] entries@[j])@.size by {
        assert(le(r[i], r[j]));
        assert(r[i] == entries@[i]@ && r[j] == entries@[j]@);
    }
    let e = ReclaimableView {
        label: Seq::empty(),
        path: Seq::empty(),
        size,
        file_count: 0,
        kind: ReclaimKind::Trash,
    };
    assert(r.filter(alike(le, e)) == all.filter(alike(le, e)));
    assert(alike(le, e) =~= (|x: ReclaimableView| x.size == size));
}

/// The spots under a home directory: the Trash in `.local/share/Trash`, and the
/// application caches in `.cache`; of these, exactly those are offered that exist.
pub proof fn spots_are_the_trash_and_the_caches(
    home: &EntryPath,
    all: Vec<SystemSpot>,
    exist: &[bool],
    spots: Vec<SystemSpot>,
)
    requires
        home@.len() > 0,
        home@.last() != SEPARATOR,
        exist@.len() == 2,
        call_ensures(candidate_spots, (home,), all),
        call_ensures(system_spots, (home, exist), spots),
    ensures
        all@.len() == 2,
        all@[0]@.label == "Trash"@ && all@[0]@.kind is Trash,
        all@[0]@.path == home@.push(47) + encode_utf8(".local/share/Trash"@),
        all@[1]@.label == "Application caches"@ && all@[1]@.kind is Cache,
        all@[1]@.path == home@.push(47) + encode_utf8(".cache"@),
        exist@[0] && exist@[1] ==> views(spots@) == views(all@),
        exist@[0] && !exist@[1] ==> views(spots@) == seq![all@[0]@],
        !exist@[0] && exist@[1] ==> views(spots@) == seq![all@[1]@],
        !exist@[0] && !exist@[1] ==> spots@.len() == 0,
{
    let v = views(all@);
    assert(v.len() == 2 && v[0] == all@[0]@ && v[1] == all@[1]@);
    assert(views(spots@).len() == spots@.len());
    lemma_not_rooted();
    reveal_with_fuel(existing, 3);
    assert(v.drop_last() =~= seq![v[0]]);
    assert(seq![v[0]].drop_last() =~= Seq::<SpotView>::empty());
    assert(seq![trash_of(home@), caches_of(home@)] =~= v);
    assert(v =~= seq![v[0], v[1]]);
    assert(Seq::<SpotView>::empty().push(v[0]) =~= seq![v[0]]);
    assert(Seq::<SpotView>::empty().push(v[1]) =~= seq![v[1]]);
    assert(seq![v[0]].push(v[1]) =~= v);
}

/// The two names below the home directory do not start at the root.
proof fn lemma_not_rooted()
    ensures
        !is_rooted(encode_utf8(".local/share/Trash"@)),
        !is_rooted(encode_utf8(".cache"@)),
{
    lemma_opens_with_a_dot(".local/share/Trash"@);
    lemma_opens_with_a_dot(".cache"@);
}

proof fn lemma_opens_with_a_dot(s: Seq<char>)
    requires
        s == ".local/share/Trash"@ || s == ".cache"@,
    ensures
        encode_utf8(s).len() > 0 ==> encode_utf8(s)[0] == 46,
{
    reveal_strlit(".local/share/Trash");
    reveal_strlit(".cache");
    assert(s.len() > 0 && s[0] == '.');
    assert((46u32 & 0x7F) as u8 == 46) by (bit_vector);
    assert(s[0] as u32 == 46u32);
    assert(encode_utf8(s) == vstd::utf8::encode_scalar(46u32) + encode_utf8(s.drop_first()));
    assert(vstd::utf8::encode_scalar(46u32)[0] == 46);
}

/// The files of a directory are those of its children; a file counts for one.
pub proof fn files_are_counted_child_by_child(node: &Node, count: u64)
    requires
        call_ensures(count_files, (node,), count),
    ensures
        !node@.is_dir ==> count == 1,
        node@.is_dir ==> count == node@.children.map_values(|c: NodeView| files(c)).flatten().len(),
{
    files_go_down_directories_alone(node@);
}

/// What a child of a directory adds to the artifacts below the directory: a file nothing; a
/// directory that is recognised among its siblings itself, whole; any other directory the
/// artifacts that are found below it.
pub open spec fn adds(siblings: Seq<NodeView>, i: int, part: Seq<ReclaimableView>) -> bool {
    let c = siblings[i];
    if !c.is_dir {
        part.len() == 0
    } else {
        match artifact_name(c.name, siblings) {
            Some(label) => part == seq![
                ReclaimableView {
                    label,
                    path: c.path,
                    size: c.size,
                    file_count: files(c).len() as u64,
                    kind: ReclaimKind::Artifact,
                },
            ],
            None => exists|node: Node, below: Vec<Reclaimable>|
                node@ == c && #[trigger] call_ensures(find_artifacts, (&node,), below) && views(below@) == part,
        }
    }
}

/// The artifacts of a tree are what its children add, no more and no fewer.
pub proof fn artifacts_are_found_child_by_child(root: &Node, found: Vec<Reclaimable>, parts: Seq<Seq<ReclaimableView>>)
    requires
        call_ensures(find_artifacts, (root,), found),
        parts.len() == root@.children.len(),
        forall|i: int| 0 <= i < parts.len() ==> adds(root@.children, i, #[trigger] parts[i]),
    ensures
        views(found@).to_multiset() == parts.flatten().to_multiset(),
{
    let s = root@.children;
    reclaim_order_is_total();
    stable_sort_exists(artifacts(root@), reclaim_le());
    lemma_parts(s, parts, s.len() as int);
    assert(s.take(s.len() as int) =~= s);
    assert(parts.take(s.len() as int) =~= parts);
}

proof fn lemma_parts(s: Seq<NodeView>, parts: Seq<Seq<ReclaimableView>>, k: int)
    requires
        parts.len() == s.len(),
        0 <= k <= s.len(),
        forall|i: int| 0 <= i < parts.len() ==> adds(s, i, #[trigger] parts[i]),
    ensures
        artifacts_among(s.take(k), s).map_values(|a: (Seq<char>, NodeView)| artifact_entry(a)).to_multiset() == parts.take(
            k,
        ).flatten().to_multiset(),
    decreases k,
{
    let f = |a: (Seq<char>, NodeView)| artifact_entry(a);
    if k == 0 {
        assert(s.take(0) =~= Seq::<NodeView>::empty());
        assert(artifacts_among(s.take(0), s).map_values(f) =~= Seq::<ReclaimableView>::empty());
        assert(parts.take(0) =~= Seq::<Seq<ReclaimableView>>::empty());
        assert(parts.take(0).flatten() =~= Seq::<ReclaimableView>::empty());
    } else {
        lemma_parts(s, parts, k - 1);
        let c = s[k - 1];
        let part = parts[k - 1];
        let one = if !c.is_dir {
            Seq::<(Seq<char>, NodeView)>::empty()
        } else {
            match artifact_name(c.name, s) {
                Some(label) => seq![(label, c)],
                None => artifact_nodes(c),
            }
        };
        assert(adds(s, k - 1, part));
        assert(s.take(k).drop_last() =~= s.take(k - 1));
        assert(s.take(k).last() == c);
        let front = artifacts_among(s.take(k - 1), s);
        assert(artifacts_among(s.take(k), s) == front + one);
        assert((front + one).map_values(f) =~= front.map_values(f) + one.map_values(f));
        assert(one.map_values(f).to_multiset() == part.to_multiset()) by {
            if !c.is_dir {
                assert(one.map_values(f) =~= part);
            } else if artifact_name(c.name, s) is Some {
                assert(one.map_values(f) =~= part);
            } else {
                let (node, below) = choose|node: Node, below: Vec<Reclaimable>|
                    node@ == c && #[trigger] call_ensures(find_artifacts, (&node,), below) && views(below@) == part;
                reclaim_order_is_total();
                stable_sort_exists(artifacts(c), reclaim_le());
                assert(one.map_values(f) =~= artifacts(c));
            }
        }
        assert(parts.take(k) =~= parts.take(k - 1).push(part));
        lemma_flatten_push(parts.take(k - 1), part);
        vstd::seq_lib::lemma_multiset_commutative(front.map_values(f), one.map_values(f));
        vstd::seq_lib::lemma_multiset_commutative(parts.take(k - 1).flatten(), part);
    }
}

/// The spots lie below the home directory, however it is written.
pub proof fn spots_lie_below_the_home(home: &EntryPath, all: Vec<SystemSpot>, trash: EntryPath, caches: EntryPath)
    requires
        call_ensures(candidate_spots, (home,), all),
        call_ensures(EntryPath::join, (home, ".local/share/Trash"), trash),
        call_ensures(EntryPath::join, (home, ".cache"), caches),
    ensures
        all@.len() == 2,
        all@[0]@.path == trash@,
        all@[1]@.path == caches@,
{
    let v = views(all@);
    assert(v.len() == 2 && v[0] == all@[0]@ && v[1] == all@[1]@);
}

} // verus!
