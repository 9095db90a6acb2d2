//! What the nodes and the files of a tree are, and what sums of sizes are.
use vstd::prelude::*;

use crate::laws::lists::{lemma_flatten_filter, lemma_flatten_push};
use crate::tree::{files, files_of, forest, lemma_in_forest, preorder, sum_sizes, NodeView};

verus! {

/// The nodes of several trees are the nodes of each of them, in order.
pub proof fn forests_are_their_trees(s: Seq<NodeView>)
    ensures
        forest(s) == s.map_values(|c: NodeView| preorder(c)).flatten(),
    decreases s.len(),
{
    let f = |c: NodeView| preorder(c);
    if s.len() == 0 {
        assert(s.map_values(f).flatten() =~= Seq::<NodeView>::empty());
    } else {
        let front = s.drop_last();
        forests_are_their_trees(front);
        assert(s.map_values(f) =~= front.map_values(f).push(f(s.last())));
        lemma_flatten_push(front.map_values(f), f(s.last()));
    }
}

/// A tree is walked from the top: first the node itself, then the trees of its
/// children, one after the other and each of them whole.
pub proof fn trees_are_walked_from_the_top(n: NodeView)
    ensures
        preorder(n) == seq![n] + n.children.map_values(|c: NodeView| preorder(c)).flatten(),
{
    forests_are_their_trees(n.children);
}

/// The files of several trees are the files of each of them, in order.
pub proof fn files_of_trees_are_their_files(s: Seq<NodeView>)
    ensures
        files_of(s) == s.map_values(|c: NodeView| files(c)).flatten(),
    decreases s.len(),
{
    let f = |c: NodeView| files(c);
    if s.len() == 0 {
        assert(s.map_values(f).flatten() =~= Seq::<NodeView>::empty());
    } else {
        let front = s.drop_last();
        files_of_trees_are_their_files(front);
        assert(s.map_values(f) =~= front.map_values(f).push(f(s.last())));
        lemma_flatten_push(front.map_values(f), f(s.last()));
    }
}

/// The files of a tree in which only directories have children are all its nodes, at
/// every depth, that are no directories.
pub proof fn files_are_the_nodes_that_are_no_directories(n: NodeView)
    requires
        forall|i: int|
            0 <= i < preorder(n).len() && !(#[trigger] preorder(n)[i]).is_dir ==> preorder(n)[i].children.len() == 0,
    ensures
        files(n) == preorder(n).filter(|x: NodeView| !x.is_dir),
    decreases n,
{
    let p = |x: NodeView| !x.is_dir;
    let c = n.children;
    reveal(Seq::filter);
    reveal_with_fuel(Seq::filter, 2);
    assert(preorder(n)[0] == n);
    assert(seq![n].drop_last() =~= Seq::<NodeView>::empty());
    Seq::filter_distributes_over_add(seq![n], forest(c), p);
    if n.is_dir {
        assert(seq![n].filter(p) =~= Seq::<NodeView>::empty());
        lemma_files_are_filtered(c, n);
        assert(preorder(n).filter(p) =~= forest(c).filter(p));
    } else {
        assert(c.len() == 0);
        assert(forest(c).filter(p) =~= Seq::<NodeView>::empty());
        assert(preorder(n).filter(p) =~= seq![n]);
    }
}

proof fn lemma_files_are_filtered(s: Seq<NodeView>, n: NodeView)
    requires
        s == n.children,
        forall|i: int|
            0 <= i < preorder(n).len() && !(#[trigger] preorder(n)[i]).is_dir ==> preorder(n)[i].children.len() == 0,
    ensures
        files_of(s) == forest(s).filter(|x: NodeView| !x.is_dir),
    decreases n, 0nat,
{
    let p = |x: NodeView| !x.is_dir;
    let trees = s.map_values(|c: NodeView| preorder(c));
    let filtered = trees.map_values(|t: Seq<NodeView>| t.filter(p));
    forests_are_their_trees(s);
    files_of_trees_are_their_files(s);
    lemma_flatten_filter(trees, p);
    assert forall|k: int| 0 <= k < s.len() implies files(s[k]) == #[trigger] filtered[k] by {
        assert forall|i: int|
            0 <= i < preorder(s[k]).len() && !(#[trigger] preorder(s[k])[i]).is_dir implies preorder(
            s[k],
        )[i].children.len() == 0 by {
            let x = preorder(s[k])[i];
            lemma_in_forest(s, k, x);
            let m = choose|m: int| 0 <= m < forest(s).len() && forest(s)[m] == x;
            assert(preorder(n)[m + 1] == x);
        }
        files_are_the_nodes_that_are_no_directories(s[k]);
    }
    assert(s.map_values(|c: NodeView| files(c)) =~= filtered);
}

/// A sum of sizes adds up the size of every node, once.
pub proof fn sizes_add_up(s: Seq<NodeView>)
    ensures
        sum_sizes(s) == s.map_values(|n: NodeView| n.size as int).fold_left(0, |sum: int, size: int| sum + size),
    decreases s.len(),
{
    let f = |n: NodeView| n.size as int;
    if s.len() > 0 {
        sizes_add_up(s.drop_last());
        assert(s.map_values(f).drop_last() =~= s.drop_last().map_values(f));
    }
}

/// A file is itself; the files of a directory are those of its children, in order.
pub proof fn files_go_down_directories_alone(n: NodeView)
    ensures
        !n.is_dir ==> files(n) == seq![n],
        n.is_dir ==> files(n) == n.children.map_values(|c: NodeView| files(c)).flatten(),
{
    files_of_trees_are_their_files(n.children);
}

} // verus!
