//! Where things are: drill-down paths into a tree, and finding an entry again.
use vstd::prelude::*;

use crate::laws::trees::sizes_add_up;
use crate::navigate::{
    extends_by_one, folder_node, folders_can_be_located_again, indices, is_folder_path, leads, locate, located,
    located_paths_lead_to_the_target, nests, node_at, path_prefix, size_threshold, Screen, ScreenView,
};
use crate::path::{components, starts_with, EntryPath};
use crate::query::{child_towards, lemma_first_where};
use crate::tree::{consistent, lemma_forest_member, lemma_in_forest, lemma_preorder_member, preorder, Node, NodeView};

verus! {

/// A drill-down takes one step after the other: without steps it stays at the root, and
/// one more step goes to the child of that number, if there is one.
pub proof fn a_drill_down_goes_step_by_step(root: NodeView, path: Seq<int>, i: int)
    ensures
        leads(root, Seq::empty()),
        node_at(root, Seq::empty()) == root,
        leads(root, path.push(i)) <==> leads(root, path) && 0 <= i < node_at(root, path).children.len(),
        leads(root, path.push(i)) ==> node_at(root, path.push(i)) == node_at(root, path).children[i],
    decreases path.len(),
{
    let longer = path.push(i);
    reveal_with_fuel(leads, 2);
    reveal_with_fuel(node_at, 2);
    if path.len() == 0 {
        assert(longer[0] == i);
        assert(longer.drop_first() =~= Seq::<int>::empty());
        assert(path =~= Seq::<int>::empty());
    } else {
        assert(longer[0] == path[0]);
        assert(longer.drop_first() =~= path.drop_first().push(i));
        if 0 <= path[0] < root.children.len() {
            a_drill_down_goes_step_by_step(root.children[path[0]], path.drop_first(), i);
        }
    }
}

/// Every node of a tree can be reached by a drill-down, and a drill-down reaches nodes
/// of the tree only.
pub proof fn drill_downs_reach_every_node(root: NodeView, x: NodeView)
    ensures
        preorder(root).contains(x) <==> exists|path: Seq<int>| #[trigger] leads(root, path) && node_at(root, path) == x,
    decreases root,
{
    lemma_preorder_member(root, x);
    if preorder(root).contains(x) {
        if x == root {
            assert(leads(root, Seq::empty()) && node_at(root, Seq::empty()) == x);
        } else {
            let i = lemma_forest_member(root.children, x);
            drill_downs_reach_every_node(root.children[i], x);
            let rest = choose|path: Seq<int>| #[trigger] leads(root.children[i], path) && node_at(root.children[i], path) == x;
            let path = seq![i] + rest;
            assert(path[0] == i && path.drop_first() =~= rest);
            assert(leads(root, path) && node_at(root, path) == x);
        }
    }
    if exists|path: Seq<int>| #[trigger] leads(root, path) && node_at(root, path) == x {
        let path = choose|path: Seq<int>| #[trigger] leads(root, path) && node_at(root, path) == x;
        if path.len() > 0 {
            let c = root.children[path[0]];
            assert(leads(c, path.drop_first()) && node_at(c, path.drop_first()) == x);
            drill_downs_reach_every_node(c, x);
            lemma_in_forest(root.children, path[0], x);
        }
    }
}

/// The sizes in a tree agree exactly if every directory in it, at whatever depth, is as
/// large as its children together, and nothing else has children.
pub proof fn sizes_agree_at_every_depth(n: NodeView)
    ensures
        consistent(n) <==> forall|i: int|
            0 <= i < preorder(n).len() ==> ({
                let d = #[trigger] preorder(n)[i];
                if d.is_dir {
                    d.size == d.children.map_values(|c: NodeView| c.size as int).fold_left(
                        0,
                        |sum: int, size: int| sum + size,
                    )
                } else {
                    d.children.len() == 0
                }
            }),
    decreases n,
{
    let good = |d: NodeView|
        if d.is_dir {
            d.size == d.children.map_values(|c: NodeView| c.size as int).fold_left(0, |sum: int, size: int| sum + size)
        } else {
            d.children.len() == 0
        };
    let all = preorder(n);
    sizes_add_up(n.children);
    assert(all[0] == n);
    if consistent(n) {
        assert forall|i: int| 0 <= i < all.len() implies good(#[trigger] all[i]) by {
            let d = all[i];
            assert(all.contains(d));
            lemma_preorder_member(n, d);
            if d != n {
                let k = lemma_forest_member(n.children, d);
                assert(consistent(n.children[k]));
                sizes_agree_at_every_depth(n.children[k]);
                let m = choose|m: int| 0 <= m < preorder(n.children[k]).len() && preorder(n.children[k])[m] == d;
                assert(good(preorder(n.children[k])[m]));
            }
        }
    }
    if forall|i: int| 0 <= i < all.len() ==> good(#[trigger] all[i]) {
        assert(good(all[0]));
        assert forall|k: int| 0 <= k < n.children.len() implies consistent(#[trigger] n.children[k]) by {
            let c = n.children[k];
            assert forall|m: int| 0 <= m < preorder(c).len() implies good(#[trigger] preorder(c)[m]) by {
                let d = preorder(c)[m];
                assert(preorder(c).contains(d));
                lemma_in_forest(n.children, k, d);
                lemma_preorder_member(n, d);
                let i = choose|i: int| 0 <= i < all.len() && all[i] == d;
                assert(good(all[i]));
            }
            sizes_agree_at_every_depth(c);
        }
    }
}

/// What is located has the path that was looked for; and in a tree whose paths follow
/// its shape, whatever is there is located.
pub proof fn locating_finds_what_is_there(root: &Node, target: &EntryPath, path: Option<Vec<usize>>)
    requires
        call_ensures(locate, (root, target), path),
    ensures
        path matches Some(p) ==> leads(root@, indices(p@)) && components(node_at(root@, indices(p@)).path) == components(
            target@,
        ),
        nests(root@) ==> (path is None <==> forall|i: int|
            0 <= i < preorder(root@).len() ==> components((#[trigger] preorder(root@)[i]).path) != components(target@)),
{
    let all = preorder(root@);
    if let Some(p) = path {
        located_paths_lead_to_the_target(root@, target@);
        let x = node_at(root@, indices(p@));
        drill_downs_reach_every_node(root@, x);
        let k = choose|k: int| 0 <= k < all.len() && all[k] == x;
        assert(components(all[k].path) == components(target@));
    }
    if nests(root@) && path is None {
        assert forall|i: int| 0 <= i < all.len() implies components((#[trigger] all[i]).path) != components(target@) by {
            let x = all[i];
            assert(all.contains(x));
            drill_downs_reach_every_node(root@, x);
            let p = choose|p: Seq<int>| #[trigger] leads(root@, p) && node_at(root@, p) == x;
            if components(x.path) == components(target@) {
                folders_can_be_located_again(root@, p);
                lemma_located_by_components(root@, x.path, target@);
            }
        }
    }
}

/// Locating goes by the components of a path, not by how it is spelled.
pub proof fn lemma_located_by_components(root: NodeView, a: Seq<u8>, b: Seq<u8>)
    requires
        components(a) == components(b),
    ensures
        located(root, a) == located(root, b),
    decreases root,
{
    assert((|c: NodeView| starts_with(a, c.path)) =~= (|c: NodeView| starts_with(b, c.path)));
    let j = child_towards(root, a);
    if 0 <= j < root.children.len() {
        lemma_located_by_components(root.children[j], a, b);
    }
}

/// A drill-down path leads somewhere exactly if every step has a child to go to, and the
/// folder that is shown is the node that it leads to.
pub proof fn folders_are_where_their_paths_lead(root: &Node, path: &[usize], found: bool, folder: &Node)
    requires
        call_ensures(is_folder_path, (root, path), found),
        call_ensures(folder_node, (root, path), folder),
        found,
    ensures
        preorder(root@).contains(folder@),
        path@.len() == 0 ==> folder@ == root@,
        path@.len() > 0 ==> ({
            let up = node_at(root@, indices(path@.drop_last()));
            leads(root@, indices(path@.drop_last())) && path@.last() < up.children.len() && folder@ == up.children[path@.last() as int]
        }),
{
    drill_downs_reach_every_node(root@, folder@);
    if path@.len() > 0 {
        a_drill_down_goes_step_by_step(root@, indices(path@.drop_last()), path@.last() as int);
        assert(indices(path@) =~= indices(path@.drop_last()).push(path@.last() as int));
    } else {
        assert(indices(path@) =~= Seq::<int>::empty());
    }
}

/// A jump in the breadcrumb keeps the steps before it and drops the rest; from a screen
/// that is no folder it goes to the root.
pub proof fn jumps_keep_the_steps_before(screen: &Screen, level: usize, path: Vec<usize>)
    requires
        call_ensures(path_prefix, (screen, level), path),
    ensures
        screen@ matches ScreenView::Folder(p) ==> indices(path@).is_prefix_of(p) && path@.len() == (if level <= p.len() {
            level as nat
        } else {
            p.len()
        }),
        !(screen@ is Folder) ==> path@.len() == 0,
{
    assert(indices(path@).len() == path@.len());
}

/// The size filter: every choice up to the last asks for more than the one before it,
/// from 1 MB, ten times more each up to 100 MB, and 1 GB at last; any other choice asks
/// for nothing.
pub proof fn size_floors_rise(first: u64, second: u64, third: u64, fourth: u64, index: u32, other: u64)
    requires
        call_ensures(size_threshold, (1u32,), first),
        call_ensures(size_threshold, (2u32,), second),
        call_ensures(size_threshold, (3u32,), third),
        call_ensures(size_threshold, (4u32,), fourth),
        call_ensures(size_threshold, (index,), other),
    ensures
        first == 1024 * 1024,
        second == 10 * first,
        third == 10 * second,
        fourth == 1024 * first,
        index == 0 || index > 4 ==> other == 0,
{
}

/// The paths in a tree follow its shape exactly if, at every depth, every child's path
/// has the components of its parent's and one more, different for every sibling.
pub proof fn nesting_holds_at_every_depth(n: NodeView, path: Seq<int>, i: int, j: int)
    requires
        nests(n),
        leads(n, path),
        0 <= i < node_at(n, path).children.len(),
        0 <= j < node_at(n, path).children.len(),
        i != j,
    ensures
        ({
            let d = node_at(n, path);
            let c = components(d.children[i].path);
            &&& c.len() == components(d.path).len() + 1
            &&& c.drop_last() == components(d.path)
            &&& c != components(d.children[j].path)
        }),
    decreases path.len(),
{
    if path.len() > 0 {
        assert(nests(n.children[path[0]]));
        nesting_holds_at_every_depth(n.children[path[0]], path.drop_first(), i, j);
    } else {
        assert(extends_by_one(components(n.children[i].path), components(n.path)));
        assert(components(n.children[i].path).drop_last() =~= components(n.path));
        if i < j {
            assert(components(n.children[i].path) != components(n.children[j].path));
        } else {
            assert(components(n.children[j].path) != components(n.children[i].path));
        }
    }
}

/// Locating starts at the root, which is found where it is what is looked for, and goes on
/// in the first child on the way, as it would go there alone, one step further; it ends
/// where no child is on the way.
pub proof fn locating_goes_step_by_step(
    root: &Node,
    target: &EntryPath,
    path: Option<Vec<usize>>,
    j: int,
    child: &Node,
    below: Option<Vec<usize>>,
)
    requires
        call_ensures(locate, (root, target), path),
        0 <= j <= root@.children.len(),
        forall|k: int| 0 <= k < j ==> !starts_with(target@, (#[trigger] root@.children[k]).path),
        j < root@.children.len() ==> starts_with(target@, root@.children[j].path) && child@ == root@.children[j],
        call_ensures(locate, (child, target), below),
    ensures
        components(root@.path) == components(target@) ==> (path matches Some(p) && p@.len() == 0),
        components(root@.path) != components(target@) && j == root@.children.len() ==> path is None,
        components(root@.path) != components(target@) && j < root@.children.len() ==> (path is Some <==> below is Some) && (
        path matches Some(p) ==> (below matches Some(q) && indices(p@) == seq![j] + indices(q@))),
{
    lemma_first_where(root@.children, |c: NodeView| starts_with(target@, c.path), j);
    if let Some(p) = path {
        assert(indices(p@).len() == p@.len());
    }
}

/// A path leads to a folder exactly if the path before its last step does and the folder
/// there has a child for that step; without steps it leads to the root.
pub proof fn paths_lead_step_by_step(root: &Node, path: &[usize], found: bool, front: &[usize], before: bool, up: &Node)
    requires
        call_ensures(is_folder_path, (root, path), found),
        path@.len() > 0 ==> front@ == path@.drop_last(),
        call_ensures(is_folder_path, (root, front), before),
        call_ensures(folder_node, (root, front), up),
    ensures
        path@.len() == 0 ==> found,
        path@.len() > 0 ==> (found <==> before && path@.last() < up@.children.len()),
{
    let all = indices(path@);
    if path@.len() > 0 {
        let last = path@.last() as int;
        assert(all =~= indices(front@).push(last));
        a_drill_down_goes_step_by_step(root@, indices(front@), last);
    } else {
        assert(all =~= Seq::<int>::empty());
    }
}

} // verus!
