//! Where the user is: the screens, drill-down paths into the scanned tree, and how
//! the two are kept in step with the tree.
use vstd::prelude::*;

use crate::category::Category;
use crate::order::{stable_sort_exists, views};
use crate::path::{components, starts_with, EntryPath};
use crate::query::{
    child_at, child_towards, freed_of, lemma_first_where, lemma_first_where_bounds, lemma_first_where_holds, rest_of, without,
};
use crate::scan::{built, built_all, lemma_built_all, scanned, settled, settled_all, ListingView};
use crate::tree::{lemma_node_view, node_le, node_order_is_total, Node, NodeView};

verus! {

/// The model of a [`Screen`].
pub enum ScreenView {
    Overview,
    Category(Category),
    Folder(Seq<int>),
    Reclaim,
    Search,
}

/// Which screen the user is on.
#[derive(Debug, PartialEq, Eq)]
pub enum Screen {
    /// The storage homepage.
    Overview,
    /// The largest files of one category.
    Category(Category),
    /// The folder at a drill-down path of child indices from the root.
    Folder(Vec<usize>),
    /// Safe-to-clear space (Trash, caches, build artifacts).
    Reclaim,
    /// Name search over the scanned tree.
    Search,
}

/// A drill-down path as numbers.
pub open spec fn indices(path: Seq<usize>) -> Seq<int> {
    path.map_values(|i: usize| i as int)
}

impl View for Screen {
    type V = ScreenView;

    open spec fn view(&self) -> ScreenView {
        match self {
            Screen::Overview => ScreenView::Overview,
            Screen::Category(category) => ScreenView::Category(*category),
            Screen::Folder(path) => ScreenView::Folder(indices(path@)),
            Screen::Reclaim => ScreenView::Reclaim,
            Screen::Search => ScreenView::Search,
        }
    }
}

fn copy_path(path: &[usize], len: usize) -> (copy: Vec<usize>)
    requires
        len <= path@.len(),
    ensures
        copy@ == path@.take(len as int),
{
    let mut copy: Vec<usize> = Vec::new();
    let mut i: usize = 0;
    while i < len
        invariant
            i <= len <= path@.len(),
            copy@ =~= path@.take(i as int),
        decreases len - i,
    {
        copy.push(path[i]);
        i += 1;
    }
    copy
}

impl Clone for Screen {
    fn clone(&self) -> (copy: Screen)
        ensures
            copy@ == self@,
    {
        match self {
            Screen::Overview => Screen::Overview,
            Screen::Category(category) => Screen::Category(*category),
            Screen::Folder(path) => {
                let copy = copy_path(path.as_slice(), path.len());
                assert(copy@ =~= path@);
                Screen::Folder(copy)
            },
            Screen::Reclaim => Screen::Reclaim,
            Screen::Search => Screen::Search,
        }
    }
}

/// Every step of the path exists below `root`.
pub open spec fn leads(root: NodeView, path: Seq<int>) -> bool
    decreases path.len(),
{
    path.len() == 0 || (0 <= path[0] < root.children.len() && leads(root.children[path[0]], path.drop_first()))
}

/// The node that a path leads to.
pub open spec fn node_at(root: NodeView, path: Seq<int>) -> NodeView
    recommends
        leads(root, path),
    decreases path.len(),
{
    if path.len() == 0 {
        root
    } else {
        node_at(root.children[path[0]], path.drop_first())
    }
}

/// Whether every step of the path exists below `root`.
pub fn is_folder_path(root: &Node, path: &[usize]) -> (found: bool)
    ensures
        found == leads(root@, indices(path@)),
{
    let mut node = root;
    let mut i: usize = 0;
    let ghost all = indices(path@);
    assert(all.skip(0) =~= all);
    while i < path.len()
        invariant
            i <= path@.len(),
            all == indices(path@),
            leads(root@, all) == leads(node@, all.skip(i as int)),
        decreases path@.len() - i,
    {
        proof {
            lemma_node_view(*node);
            assert(all.skip(i as int)[0] == path@[i as int]);
            assert(all.skip(i as int).drop_first() =~= all.skip(i + 1));
        }
        let index: usize = path[i];
        if index >= node.children.len() {
            return false;
        }
        assert(node@.children[index as int] == node.children@[index as int]@);
        node = &node.children[index];
        i += 1;
    }
    true
}

/// Walk `root` to the folder at `path`.
pub fn folder_node<'a>(root: &'a Node, path: &[usize]) -> (node: &'a Node)
    requires
        leads(root@, indices(path@)),
    ensures
        node@ == node_at(root@, indices(path@)),
{
    let mut node = root;
    let mut i: usize = 0;
    let ghost all = indices(path@);
    assert(all.skip(0) =~= all);
    while i < path.len()
        invariant
            i <= path@.len(),
            all == indices(path@),
            leads(node@, all.skip(i as int)),
            node_at(root@, all) == node_at(node@, all.skip(i as int)),
        decreases path@.len() - i,
    {
        proof {
            lemma_node_view(*node);
            assert(all.skip(i as int)[0] == path@[i as int]);
            assert(all.skip(i as int).drop_first() =~= all.skip(i + 1));
            assert(node@.children[path@[i as int] as int] == node.children@[path@[i as int] as int]@);
        }
        node = &node.children[path[i]];
        i += 1;
    }
    node
}

/// The drill-down path to the node at `target`: at every step the first child on the
/// way; `None` if the way ends before it gets there.
pub open spec fn located(root: NodeView, target: Seq<u8>) -> Option<Seq<int>>
    decreases root,
{
    let j = child_towards(root, target);
    if components(root.path) == components(target) {
        Some(Seq::empty())
    } else if 0 <= j < root.children.len() {
        match located(root.children[j], target) {
            Some(rest) => Some(seq![j] + rest),
            None => None,
        }
    } else {
        None
    }
}

/// Find the drill-down index path from `root` to `target`, if it still exists.
pub fn locate(root: &Node, target: &EntryPath) -> (path: Option<Vec<usize>>)
    ensures
        match path {
            Some(p) => located(root@, target@) == Some(indices(p@)),
            None => located(root@, target@) is None,
        },
{
    let mut path: Vec<usize> = Vec::new();
    if locate_into(root, target, &mut path) {
        assert(indices(path@).skip(0) =~= indices(path@));
        Some(path)
    } else {
        None
    }
}

fn locate_into(node: &Node, target: &EntryPath, path: &mut Vec<usize>) -> (found: bool)
    ensures
        found ==> located(node@, target@) is Some,
        !found ==> located(node@, target@) is None,
        located(node@, target@) matches Some(rest) ==> indices(final(path)@) == indices(old(path)@) + rest,
    decreases node,
{
    if node.path.same_as(target) {
        proof {
            lemma_node_view(*node);
            assert(indices(path@) + Seq::<int>::empty() =~= indices(path@));
        }
        return true;
    }
    let ghost whole = node@;
    let ghost towards = |c: NodeView| starts_with(target@, c.path);
    let ghost before = path@;
    proof {
        lemma_node_view(*node);
    }
    let mut j: usize = 0;
    while j < node.children.len()
        invariant
            j <= node.children@.len(),
            whole == node@,
            components(whole.path) != components(target@),
            whole.children == views(node.children@),
            towards == |c: NodeView| starts_with(target@, c.path),
            forall|k: int| 0 <= k < j ==> !towards(#[trigger] whole.children[k]),
            path@ == before,
            before == old(path)@,
        decreases node.children@.len() - j,
    {
        assert(whole.children[j as int] == node.children@[j as int]@);
        proof {
            lemma_node_view(node.children@[j as int]);
        }
        if target.starts_with(&node.children[j].path) {
            proof {
                lemma_first_where(whole.children, towards, j as int);
            }
            path.push(j);
            let found = locate_into(&node.children[j], target, path);
            proof {
                if let Some(rest) = located(whole.children[j as int], target@) {
                    assert(indices(before.push(j)) =~= indices(before).push(j as int));
                    assert(indices(before).push(j as int) + rest =~= indices(before) + (seq![j as int] + rest));
                }
            }
            return found;
        }
        j += 1;
    }
    proof {
        lemma_first_where(whole.children, towards, j as int);
    }
    false
}

/// The first `level` steps of a path.
pub open spec fn prefix_of(path: Seq<int>, level: int) -> Seq<int> {
    if level <= path.len() {
        path.take(level)
    } else {
        path
    }
}

/// The folder path of a screen truncated to `level` indices (for breadcrumb jumps).
pub fn path_prefix(screen: &Screen, level: usize) -> (path: Vec<usize>)
    ensures
        indices(path@) == (match screen@ {
            ScreenView::Folder(p) => prefix_of(p, level as int),
            _ => Seq::empty(),
        }),
{
    match screen {
        Screen::Folder(path) => {
            let len: usize = if level <= path.len() {
                level
            } else {
                path.len()
            };
            let copy = copy_path(path.as_slice(), len);
            assert(indices(copy@) =~= prefix_of(indices(path@), level as int));
            copy
        },
        _ => {
            let none: Vec<usize> = Vec::new();
            assert(indices(none@) =~= Seq::<int>::empty());
            none
        },
    }
}

/// Map the size-filter dropdown's selected index to a minimum-size threshold in
/// bytes. Index 0 is "Any size" (no floor).
pub fn size_threshold(index: u32) -> (bytes: u64)
    ensures
        bytes == floor_of(index),
{
    if index == 1 {
        1_048_576
    } else if index == 2 {
        10_485_760
    } else if index == 3 {
        104_857_600
    } else if index == 4 {
        1_073_741_824
    } else {
        0
    }
}

/// The floors of the size filter: 1 MB, 10 MB, 100 MB, 1 GB, and none for any other
/// choice.
pub open spec fn floor_of(index: u32) -> nat {
    if index == 1 {
        1024 * 1024
    } else if index == 2 {
        10 * 1024 * 1024
    } else if index == 3 {
        100 * 1024 * 1024
    } else if index == 4 {
        1024 * 1024 * 1024
    } else {
        0
    }
}

/// The paths in a tree follow its shape: a child's path is its parent's with one more
/// component, and no two siblings have the same.
pub open spec fn nests(n: NodeView) -> bool
    decreases n,
{
    &&& forall|i: int|
        0 <= i < n.children.len() ==> extends_by_one(components((#[trigger] n.children[i]).path), components(n.path))
    &&& forall|i: int, j: int|
        0 <= i < j < n.children.len() ==> components((#[trigger] n.children[i]).path) != components(
            (#[trigger] n.children[j]).path,
        )
    &&& forall|i: int| 0 <= i < n.children.len() ==> nests(#[trigger] n.children[i])
}

/// `longer` is `shorter` with one more component.
pub open spec fn extends_by_one(longer: Seq<Seq<u8>>, shorter: Seq<Seq<u8>>) -> bool {
    longer.len() == shorter.len() + 1 && shorter.is_prefix_of(longer)
}

/// What is located is there: the path that is found leads to a node, and the node is
/// the one that was looked for.
pub proof fn located_paths_lead_to_the_target(root: NodeView, target: Seq<u8>)
    requires
        located(root, target) is Some,
    ensures
        located(root, target) matches Some(path) && leads(root, path) && components(node_at(root, path).path)
            == components(target),
    decreases root,
{
    let j = child_towards(root, target);
    if components(root.path) != components(target) {
        located_paths_lead_to_the_target(root.children[j], target);
        if let Some(rest) = located(root.children[j], target) {
            let path = seq![j] + rest;
            assert(path[0] == j);
            assert(path.drop_first() =~= rest);
        }
    }
}

/// A drill-down goes to longer paths.
pub proof fn lemma_deeper_is_longer(root: NodeView, path: Seq<int>)
    requires
        nests(root),
        leads(root, path),
    ensures
        components(root.path).is_prefix_of(components(node_at(root, path).path)),
        components(node_at(root, path).path).len() == components(root.path).len() + path.len(),
        nests(node_at(root, path)),
    decreases path.len(),
{
    if path.len() > 0 {
        let c = root.children[path[0]];
        assert(nests(c));
        assert(extends_by_one(components(c.path), components(root.path)));
        lemma_deeper_is_longer(c, path.drop_first());
    }
}

/// Of siblings, only the one on the way can be a prefix of a path below it.
pub proof fn lemma_only_way(root: NodeView, i: int, target: Seq<u8>)
    requires
        nests(root),
        0 <= i < root.children.len(),
        starts_with(target, root.children[i].path),
    ensures
        child_towards(root, target) == i,
{
    let towards = |c: NodeView| starts_with(target, c.path);
    let t = components(target);
    let a = components(root.children[i].path);
    assert forall|k: int| 0 <= k < i implies !towards(#[trigger] root.children[k]) by {
        let b = components(root.children[k].path);
        assert(extends_by_one(a, components(root.path)) && extends_by_one(b, components(root.path)));
        if b.is_prefix_of(t) {
            assert(a =~= t.take(a.len() as int));
            assert(b =~= t.take(b.len() as int));
            assert(components(root.children[k].path) != components(root.children[i].path));
        }
    }
    lemma_first_where(root.children, towards, i);
}

/// Every folder can be found again: in a tree whose paths follow its shape, locating
/// the path of the folder that a drill-down leads to gives the drill-down back.
pub proof fn folders_can_be_located_again(root: NodeView, path: Seq<int>)
    requires
        nests(root),
        leads(root, path),
    ensures
        located(root, node_at(root, path).path) == Some(path),
    decreases path.len(),
{
    let target = node_at(root, path).path;
    lemma_deeper_is_longer(root, path);
    if path.len() == 0 {
        assert(path =~= Seq::<int>::empty());
    } else {
        let i = path[0];
        let c = root.children[i];
        assert(nests(c));
        lemma_deeper_is_longer(c, path.drop_first());
        folders_can_be_located_again(c, path.drop_first());
        lemma_only_way(root, i, target);
        assert(seq![i] + path.drop_first() =~= path);
    }
}

/// The paths in a listing follow its shape.
pub open spec fn listing_nests(l: ListingView) -> bool
    decreases l,
{
    &&& forall|i: int|
        0 <= i < l.entries.len() ==> extends_by_one(components((#[trigger] l.entries[i]).path), components(l.path))
    &&& forall|i: int, j: int|
        0 <= i < j < l.entries.len() ==> components((#[trigger] l.entries[i]).path) != components(
            (#[trigger] l.entries[j]).path,
        )
    &&& forall|i: int| 0 <= i < l.entries.len() ==> listing_nests(#[trigger] l.entries[i])
}

proof fn lemma_settled_shape(l: ListingView, seen: Set<(u64, u64)>)
    requires
        listing_nests(l),
    ensures
        listing_nests(settled(l, seen).0),
        settled(l, seen).0.path == l.path,
    decreases l, 1nat,
{
    if l.meta.is_dir {
        lemma_settled_all_shape(l.entries, seen);
        let s = settled_all(l.entries, seen).0;
        assert forall|i: int| 0 <= i < s.len() implies extends_by_one(
            components((#[trigger] s[i]).path),
            components(l.path),
        ) by {
            assert(s[i].path == l.entries[i].path);
            assert(extends_by_one(components(l.entries[i].path), components(l.path)));
        }
        assert forall|i: int, j: int| 0 <= i < j < s.len() implies components((#[trigger] s[i]).path) != components(
            (#[trigger] s[j]).path,
        ) by {
            assert(components(l.entries[i].path) != components(l.entries[j].path));
        }
    }
}

proof fn lemma_settled_all_shape(s: Seq<ListingView>, seen: Set<(u64, u64)>)
    requires
        forall|i: int| 0 <= i < s.len() ==> listing_nests(#[trigger] s[i]),
    ensures
        settled_all(s, seen).0.len() == s.len(),
        forall|i: int|
            0 <= i < s.len() ==> (#[trigger] settled_all(s, seen).0[i]).path == s[i].path && listing_nests(
                settled_all(s, seen).0[i],
            ),
    decreases s, 0nat,
{
    if s.len() > 0 {
        let front = s.drop_last();
        assert forall|i: int| 0 <= i < front.len() implies listing_nests(#[trigger] front[i]) by {
            assert(front[i] == s[i]);
        }
        assert(listing_nests(s[s.len() - 1]));
        lemma_settled_all_shape(front, seen);
        let between = settled_all(front, seen);
        lemma_settled_shape(s.last(), between.1);
        let all = settled_all(s, seen).0;
        assert forall|i: int| 0 <= i < s.len() implies (#[trigger] all[i]).path == s[i].path && listing_nests(all[i]) by {
            if i < front.len() {
                assert(all[i] == between.0[i]);
                assert(front[i] == s[i]);
            }
        }
    }
}

proof fn lemma_built_nests(l: ListingView)
    requires
        listing_nests(l),
    ensures
        nests(built(l)),
        built(l).path == l.path,
    decreases l,
{
    broadcast use vstd::seq_lib::group_to_multiset_ensures;

    if l.meta.is_dir {
        let n = built(l);
        let s = built_all(l.entries);
        let r = n.children;
        lemma_built_all(l.entries);
        node_order_is_total();
        stable_sort_exists(s, node_le());
        assert(r.to_multiset() == s.to_multiset());
        assert forall|k: int| 0 <= k < s.len() implies nests(#[trigger] s[k]) && extends_by_one(
            components(s[k].path),
            components(l.path),
        ) by {
            assert(listing_nests(l.entries[k]));
            lemma_built_nests(l.entries[k]);
            assert(extends_by_one(components(l.entries[k].path), components(l.path)));
        }
        assert forall|i: int, j: int| 0 <= i < s.len() && 0 <= j < s.len() && i != j implies components(
            (#[trigger] s[i]).path,
        ) != components((#[trigger] s[j]).path) by {
            lemma_built_nests(l.entries[i]);
            lemma_built_nests(l.entries[j]);
            if i < j {
                assert(components(l.entries[i].path) != components(l.entries[j].path));
            } else {
                assert(components(l.entries[j].path) != components(l.entries[i].path));
            }
        }
        assert(s.no_duplicates());
        s.lemma_multiset_has_no_duplicates();
        r.lemma_multiset_has_no_duplicates_conv();
        assert forall|i: int| 0 <= i < r.len() implies s.contains(#[trigger] r[i]) by {
            assert(r.contains(r[i]));
            assert(r.to_multiset().count(r[i]) > 0);
        }
        assert forall|i: int, j: int| 0 <= i < j < r.len() implies components((#[trigger] r[i]).path) != components(
            (#[trigger] r[j]).path,
        ) by {
            assert(s.contains(r[i]) && s.contains(r[j]));
            let a = choose|k: int| 0 <= k < s.len() && s[k] == r[i];
            let b = choose|k: int| 0 <= k < s.len() && s[k] == r[j];
            assert(r[i] != r[j]);
            assert(a != b);
        }
        assert forall|i: int| 0 <= i < r.len() implies nests(#[trigger] r[i]) && extends_by_one(
            components(r[i].path),
            components(l.path),
        ) by {
            assert(s.contains(r[i]));
        }
    }
}

/// A scan keeps the shape: where the paths that a walk has read follow the shape of
/// what it read, the paths in the tree do.
pub proof fn scanned_paths_nest(root: ListingView)
    requires
        listing_nests(root),
    ensures
        nests(scanned(root)),
{
    lemma_settled_shape(root, Set::empty());
    lemma_built_nests(settled(root, Set::empty()).0);
}

/// Removal keeps the shape.
pub proof fn removal_keeps_paths_nested(n: NodeView, target: Seq<u8>)
    requires
        nests(n),
    ensures
        nests(rest_of(n, target)),
        rest_of(n, target).path == n.path,
    decreases n,
{
    let i = child_at(n, target);
    let j = child_towards(n, target);
    let rest = rest_of(n, target);
    let c = n.children;
    if 0 <= i < c.len() {
        assert forall|k: int| 0 <= k < rest.children.len() implies nests(#[trigger] rest.children[k]) && extends_by_one(
            components(rest.children[k].path),
            components(n.path),
        ) by {
            assert(rest.children[k] == c[if k < i { k } else { k + 1 }]);
        }
        assert forall|k: int, m: int| 0 <= k < m < rest.children.len() implies components(
            (#[trigger] rest.children[k]).path,
        ) != components((#[trigger] rest.children[m]).path) by {
            let a = if k < i { k } else { k + 1 };
            let b = if m < i { m } else { m + 1 };
            assert(rest.children[k] == c[a] && rest.children[m] == c[b]);
        }
    } else if 0 <= j < c.len() {
        assert(nests(c[j]));
        removal_keeps_paths_nested(c[j], target);
        if without(n, target) is Some {
            let child = rest_of(c[j], target);
            assert(rest.children =~= c.update(j, child));
            assert forall|k: int| 0 <= k < rest.children.len() implies nests(#[trigger] rest.children[k])
                && extends_by_one(components(rest.children[k].path), components(n.path)) by {
                assert(extends_by_one(components(c[k].path), components(n.path)));
                assert(nests(c[k]));
            }
            assert forall|k: int, m: int| 0 <= k < m < rest.children.len() implies components(
                (#[trigger] rest.children[k]).path,
            ) != components((#[trigger] rest.children[m]).path) by {
                assert(components(c[k].path) != components(c[m].path));
            }
        }
    }
}

/// Removing a row that is shown keeps the folder that shows it: the drill-down still
/// leads there, and the folder has lost that child and nothing else.
pub proof fn removing_a_shown_row_keeps_the_folder(root: NodeView, path: Seq<int>, row: int)
    requires
        nests(root),
        leads(root, path),
        0 <= row < node_at(root, path).children.len(),
    ensures
        ({
            let folder = node_at(root, path);
            let target = folder.children[row].path;
            &&& without(root, target) is Some
            &&& freed_of(root, target) == folder.children[row].size
            &&& leads(rest_of(root, target), path)
            &&& node_at(rest_of(root, target), path).children == folder.children.remove(row)
            &&& node_at(rest_of(root, target), path).path == folder.path
        }),
    decreases path.len(),
{
    let folder = node_at(root, path);
    let child = folder.children[row];
    let target = child.path;
    let c = root.children;
    let at = |x: NodeView| components(x.path) == components(target);
    lemma_deeper_is_longer(root, path);
    assert(extends_by_one(components(target), components(folder.path)));
    if path.len() == 0 {
        assert forall|k: int| 0 <= k < row implies !at(#[trigger] c[k]) by {
            assert(components(c[k].path) != components(c[row].path));
        }
        lemma_first_where(c, at, row);
    } else {
        let i = path[0];
        assert forall|k: int| 0 <= k < c.len() implies !at(#[trigger] c[k]) by {
            assert(extends_by_one(components(c[k].path), components(root.path)));
        }
        lemma_first_where(c, at, c.len() as int);
        assert(nests(c[i]));
        lemma_deeper_is_longer(c[i], path.drop_first());
        assert(starts_with(target, c[i].path));
        lemma_only_way(root, i, target);
        removing_a_shown_row_keeps_the_folder(c[i], path.drop_first(), row);
        let rest = rest_of(root, target);
        assert(rest.children[i] == rest_of(c[i], target));
    }
}

/// What was removed is gone: nothing can be located at its path any more, and a second
/// removal finds nothing.
pub proof fn removed_entries_are_gone(n: NodeView, target: Seq<u8>)
    requires
        nests(n),
        without(n, target) is Some,
    ensures
        located(rest_of(n, target), target) is None,
        without(rest_of(n, target), target) is None,
    decreases n,
{
    let i = child_at(n, target);
    let j = child_towards(n, target);
    let rest = rest_of(n, target);
    let c = n.children;
    let t = components(target);
    let at = |x: NodeView| components(x.path) == components(target);
    let towards = |x: NodeView| starts_with(target, x.path);
    lemma_first_where_bounds(c, at);
    lemma_first_where_bounds(c, towards);
    if 0 <= i < c.len() {
        assert(extends_by_one(components(c[i].path), components(n.path)));
        assert forall|k: int| 0 <= k < rest.children.len() implies !towards(#[trigger] rest.children[k]) by {
            let m = if k < i { k } else { k + 1 };
            assert(rest.children[k] == c[m]);
            let b = components(c[m].path);
            assert(extends_by_one(b, components(n.path)));
            if b.is_prefix_of(t) {
                assert(b =~= t);
                if m < i {
                    assert(components(c[m].path) != components(c[i].path));
                } else {
                    assert(components(c[i].path) != components(c[m].path));
                }
            }
        }
        lemma_first_where(rest.children, towards, rest.children.len() as int);
        assert forall|k: int| 0 <= k < rest.children.len() implies !at(#[trigger] rest.children[k]) by {
            assert(!towards(rest.children[k]));
        }
        lemma_first_where(rest.children, at, rest.children.len() as int);
    } else {
        assert(nests(c[j]));
        let child = rest_of(c[j], target);
        assert(extends_by_one(components(c[j].path), components(n.path)));
        removal_keeps_paths_nested(n, target);
        removal_keeps_paths_nested(c[j], target);
        removed_entries_are_gone(c[j], target);
        assert(rest.children =~= c.update(j, child));
        assert(starts_with(target, rest.children[j].path));
        lemma_only_way(rest, j, target);
        assert(components(n.path) != t) by {
            assert(components(c[j].path).is_prefix_of(t));
        }
        assert forall|k: int| 0 <= k < rest.children.len() implies !at(#[trigger] rest.children[k]) by {
            assert(rest.children[k].path == c[k].path);
            if at(rest.children[k]) {
                lemma_first_where_holds(c, at, k);
            }
        }
        lemma_first_where(rest.children, at, rest.children.len() as int);
    }
}

} // verus!
