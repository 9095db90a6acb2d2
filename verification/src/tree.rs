//! Scanned directory trees: the node type, its model, and what can be read off a
//! tree as a whole.
use vstd::prelude::*;
use vstd::string::*;

use crate::order::{sorted_by, total_preorder, views, Ranked};
use crate::path::EntryPath;
use crate::text::{compare_text, text_le, text_order_is_total};

verus! {

/// The model of a [`Node`].
#[verifier::ext_equal]
pub struct NodeView {
    pub name: Seq<char>,
    pub path: Seq<u8>,
    pub size: u64,
    pub is_dir: bool,
    pub children: Seq<NodeView>,
}

/// A node in a scanned directory tree.
///
/// `size` is the apparent size in bytes: for a file it is the file length, for
/// a directory it is the recursive sum of its children's sizes.
///
/// Symlinks are **never followed** — they are recorded as leaf nodes with their
/// own (small) link size. This keeps scanning cycle-free and avoids
/// double-counting data that lives elsewhere in the tree.
///
/// Hardlinked files are counted **once**: the first link encountered carries the
/// real size, every later link to the same inode is recorded with size 0 so its
/// shared data is never double-counted (matching `du`).
#[derive(Debug, PartialEq, Eq)]
pub struct Node {
    /// Final path component (e.g. `Videos`), or the full path for filesystem roots.
    pub name: String,
    /// Absolute or user-supplied path to this entry.
    pub path: EntryPath,
    /// Apparent size in bytes (recursive for directories).
    pub size: u64,
    /// Whether this entry is a directory.
    pub is_dir: bool,
    /// Direct children, sorted largest-first. Always empty for files.
    pub children: Vec<Node>,
}

/// The model of a node: its fields, and the models of its children.
pub open spec fn node_model(node: Node) -> NodeView
    decreases node,
{
    NodeView {
        name: node.name@,
        path: node.path@,
        size: node.size,
        is_dir: node.is_dir,
        children: Seq::new(
            node.children@.len(),
            |i: int|
                if 0 <= i < node.children@.len() {
                    node_model(node.children@[i])
                } else {
                    arbitrary()
                },
        ),
    }
}

impl View for Node {
    type V = NodeView;

    open spec fn view(&self) -> NodeView {
        node_model(*self)
    }
}

/// The children in a node's model are the models of its children.
pub proof fn lemma_node_view(n: Node)
    ensures
        n@.children == views(n.children@),
        n@.name == n.name@,
        n@.path == n.path@,
        n@.size == n.size,
        n@.is_dir == n.is_dir,
{
    let c = n@.children;
    assert(c.len() == n.children@.len());
    assert forall|i: int| 0 <= i < c.len() implies c[i] == n.children@[i]@ by {}
    assert(c =~= views(n.children@));
}

impl Clone for Node {
    fn clone(&self) -> (copy: Node)
        ensures
            copy@ == self@,
        decreases self,
    {
        let mut children: Vec<Node> = Vec::new();
        let mut i: usize = 0;
        while i < self.children.len()
            invariant
                i <= self.children@.len(),
                children@.len() == i,
                forall|k: int| 0 <= k < i ==> (#[trigger] children@[k])@ == self.children@[k]@,
            decreases self.children@.len() - i,
        {
            children.push(self.children[i].clone());
            i += 1;
        }
        let copy = Node {
            name: self.name.clone(),
            path: self.path.clone(),
            size: self.size,
            is_dir: self.is_dir,
            children,
        };
        proof {
            lemma_node_view(*self);
            lemma_node_view(copy);
            assert(views(children@) =~= views(self.children@));
            assert(copy@ =~= self@);
        }
        copy
    }
}

/// A node and everything below it, each node before what is below it.
pub open spec fn preorder(n: NodeView) -> Seq<NodeView>
    decreases n,
{
    seq![n] + forest(n.children)
}

/// The nodes of several trees, tree by tree.
pub open spec fn forest(s: Seq<NodeView>) -> Seq<NodeView>
    decreases s,
{
    if s.len() == 0 {
        Seq::empty()
    } else {
        forest(s.drop_last()) + preorder(s.last())
    }
}

/// The files of a tree: the nodes that are no directories, in order.
pub open spec fn files(n: NodeView) -> Seq<NodeView>
    decreases n,
{
    if n.is_dir {
        files_of(n.children)
    } else {
        seq![n]
    }
}

/// The files of several trees, tree by tree.
pub open spec fn files_of(s: Seq<NodeView>) -> Seq<NodeView>
    decreases s,
{
    if s.len() == 0 {
        Seq::empty()
    } else {
        files_of(s.drop_last()) + files(s.last())
    }
}

/// The sum of the sizes of some nodes.
pub open spec fn sum_sizes(s: Seq<NodeView>) -> nat
    decreases s.len(),
{
    if s.len() == 0 {
        0
    } else {
        sum_sizes(s.drop_last()) + s.last().size as nat
    }
}

/// The sizes in a tree agree: a directory's size is the sum of its children's
/// sizes, and a file has no children.
pub open spec fn consistent(n: NodeView) -> bool
    decreases n,
{
    &&& n.is_dir ==> n.size == sum_sizes(n.children)
    &&& !n.is_dir ==> n.children.len() == 0
    &&& forall|i: int| 0 <= i < n.children.len() ==> consistent(#[trigger] n.children[i])
}

/// The order of siblings: largest first, and by name where sizes are equal.
pub open spec fn node_le() -> spec_fn(NodeView, NodeView) -> bool {
    |a: NodeView, b: NodeView| a.size > b.size || (a.size == b.size && text_le(a.name, b.name))
}

/// Every directory in the tree has its children in the order of siblings.
pub open spec fn ordered(n: NodeView) -> bool
    decreases n,
{
    &&& sorted_by(n.children, node_le())
    &&& forall|i: int| 0 <= i < n.children.len() ==> ordered(#[trigger] n.children[i])
}

/// The order of siblings is total.
pub proof fn node_order_is_total()
    ensures
        total_preorder(node_le()),
{
    text_order_is_total();
    let le = node_le();
    assert forall|a: NodeView, b: NodeView| #[trigger] le(a, b) || le(b, a) by {
        assert(text_le(a.name, b.name) || text_le(b.name, a.name));
    }
    assert forall|a: NodeView, b: NodeView, c: NodeView| #[trigger] le(a, b) && #[trigger] le(b, c) implies le(a, c) by {
        if a.size == b.size && b.size == c.size {
            assert(text_le(a.name, b.name) && text_le(b.name, c.name));
        }
    }
}

fn node_may_precede(a: &Node, b: &Node) -> (le: bool)
    ensures
        le == node_le()(a@, b@),
{
    a.size > b.size || (a.size == b.size && compare_text(a.name.as_str(), b.name.as_str()))
}

impl Ranked for Node {
    open spec fn rank_le() -> spec_fn(NodeView, NodeView) -> bool {
        node_le()
    }

    proof fn rank_is_total() {
        node_order_is_total();
    }

    fn may_precede(&self, other: &Node) -> (le: bool) {
        node_may_precede(self, other)
    }
}

impl<'a> Ranked for &'a Node {
    open spec fn rank_le() -> spec_fn(NodeView, NodeView) -> bool {
        node_le()
    }

    proof fn rank_is_total() {
        node_order_is_total();
    }

    fn may_precede(&self, other: &&'a Node) -> (le: bool) {
        node_may_precede(self, other)
    }
}

/// One more tree adds its nodes, its files and its size.
pub proof fn lemma_one_more(s: Seq<NodeView>, i: int)
    requires
        0 <= i < s.len(),
    ensures
        forest(s.take(i + 1)) == forest(s.take(i)) + preorder(s[i]),
        files_of(s.take(i + 1)) == files_of(s.take(i)) + files(s[i]),
        sum_sizes(s.take(i + 1)) == sum_sizes(s.take(i)) + s[i].size,
{
    let t = s.take(i + 1);
    assert(t.drop_last() =~= s.take(i));
    assert(t.last() == s[i]);
}

/// The sums of sizes of two lists add up.
pub proof fn lemma_sum_sizes_add(a: Seq<NodeView>, b: Seq<NodeView>)
    ensures
        sum_sizes(a + b) == sum_sizes(a) + sum_sizes(b),
    decreases b.len(),
{
    if b.len() == 0 {
        assert(a + b =~= a);
    } else {
        lemma_sum_sizes_add(a, b.drop_last());
        assert((a + b).drop_last() =~= a + b.drop_last());
    }
}

pub proof fn lemma_sum_of_one(n: NodeView)
    ensures
        sum_sizes(seq![n]) == n.size,
{
    reveal_with_fuel(sum_sizes, 2);
    assert(seq![n].drop_last() =~= Seq::<NodeView>::empty());
}

/// No element of a list is larger than the sum.
pub proof fn lemma_sum_sizes_bounds(s: Seq<NodeView>, i: int)
    requires
        0 <= i < s.len(),
    ensures
        s[i].size <= sum_sizes(s),
{
    lemma_sum_sizes_add(s.take(i), s.skip(i));
    lemma_sum_sizes_add(s.skip(i).take(1), s.skip(i + 1));
    assert(s =~= s.take(i) + s.skip(i));
    assert(s.skip(i) =~= s.skip(i).take(1) + s.skip(i + 1));
    assert(s.skip(i).take(1) =~= seq![s[i]]);
    lemma_sum_of_one(s[i]);
}

/// The files of several trees, put together piece by piece.
pub proof fn lemma_files_of_add(a: Seq<NodeView>, b: Seq<NodeView>)
    ensures
        files_of(a + b) == files_of(a) + files_of(b),
    decreases b.len(),
{
    if b.len() == 0 {
        assert(a + b =~= a);
        assert(files_of(a) + files_of(b) =~= files_of(a));
    } else {
        lemma_files_of_add(a, b.drop_last());
        assert((a + b).drop_last() =~= a + b.drop_last());
        assert(files_of(a + b) =~= files_of(a) + files_of(b));
    }
}

/// Everything counts once: in a tree whose sizes agree, the sizes of the files
/// make up the size of the root.
pub proof fn files_make_up_the_size(n: NodeView)
    requires
        consistent(n),
    ensures
        sum_sizes(files(n)) == n.size,
    decreases n,
{
    if n.is_dir {
        lemma_files_of_sum(n.children);
    } else {
        lemma_sum_of_one(n);
    }
}

proof fn lemma_files_of_sum(s: Seq<NodeView>)
    requires
        forall|i: int| 0 <= i < s.len() ==> consistent(#[trigger] s[i]),
    ensures
        sum_sizes(files_of(s)) == sum_sizes(s),
    decreases s,
{
    if s.len() > 0 {
        let front = s.drop_last();
        assert forall|i: int| 0 <= i < front.len() implies consistent(#[trigger] front[i]) by {
            assert(front[i] == s[i]);
        }
        assert(consistent(s[s.len() - 1]));
        lemma_files_of_sum(front);
        files_make_up_the_size(s.last());
        lemma_sum_sizes_add(files_of(front), files(s.last()));
    }
}

/// The sum of sizes does not depend on the order.
pub proof fn lemma_sum_permutation(a: Seq<NodeView>, b: Seq<NodeView>)
    requires
        a.to_multiset() == b.to_multiset(),
    ensures
        sum_sizes(a) == sum_sizes(b),
    decreases a.len(),
{
    broadcast use vstd::seq_lib::group_to_multiset_ensures;

    assert(a.len() == a.to_multiset().len() && b.len() == b.to_multiset().len());
    if a.len() > 0 {
        let x = a.last();
        let front = a.drop_last();
        assert(a =~= front.push(x));
        assert(b.contains(x)) by {
            assert(a.contains(x));
            assert(a.to_multiset().count(x) > 0);
        }
        let k = choose|k: int| 0 <= k < b.len() && b[k] == x;
        let rest = b.remove(k);
        assert(front.to_multiset() =~= rest.to_multiset());
        lemma_sum_permutation(front, rest);
        assert(b =~= b.take(k) + seq![x] + b.skip(k + 1));
        assert(rest =~= b.take(k) + b.skip(k + 1));
        lemma_sum_sizes_add(b.take(k) + seq![x], b.skip(k + 1));
        lemma_sum_sizes_add(b.take(k), seq![x]);
        lemma_sum_sizes_add(b.take(k), b.skip(k + 1));
        lemma_sum_of_one(x);
    }
}

/// The nodes of several trees, put together piece by piece.
pub proof fn lemma_forest_add(a: Seq<NodeView>, b: Seq<NodeView>)
    ensures
        forest(a + b) == forest(a) + forest(b),
    decreases b.len(),
{
    if b.len() == 0 {
        assert(a + b =~= a);
        assert(forest(a) + forest(b) =~= forest(a));
    } else {
        lemma_forest_add(a, b.drop_last());
        assert((a + b).drop_last() =~= a + b.drop_last());
        assert(forest(a + b) =~= forest(a) + forest(b));
    }
}

pub proof fn lemma_forest_of_one(n: NodeView)
    ensures
        forest(seq![n]) == preorder(n),
{
    reveal_with_fuel(forest, 2);
    assert(seq![n].drop_last() =~= Seq::<NodeView>::empty());
    assert(forest(seq![n]) =~= preorder(n));
}

/// How many nodes there are does not depend on the order.
pub proof fn lemma_forest_len_permutation(a: Seq<NodeView>, b: Seq<NodeView>)
    requires
        a.to_multiset() == b.to_multiset(),
    ensures
        forest(a).len() == forest(b).len(),
    decreases a.len(),
{
    broadcast use vstd::seq_lib::group_to_multiset_ensures;

    assert(a.len() == a.to_multiset().len() && b.len() == b.to_multiset().len());
    if a.len() > 0 {
        let x = a.last();
        let front = a.drop_last();
        assert(a =~= front.push(x));
        assert(b.contains(x)) by {
            assert(a.contains(x));
            assert(a.to_multiset().count(x) > 0);
        }
        let k = choose|k: int| 0 <= k < b.len() && b[k] == x;
        let rest = b.remove(k);
        assert(front.to_multiset() =~= rest.to_multiset());
        lemma_forest_len_permutation(front, rest);
        assert(b =~= b.take(k) + seq![x] + b.skip(k + 1));
        assert(rest =~= b.take(k) + b.skip(k + 1));
        lemma_forest_add(b.take(k) + seq![x], b.skip(k + 1));
        lemma_forest_add(b.take(k), seq![x]);
        lemma_forest_add(b.take(k), b.skip(k + 1));
        lemma_forest_of_one(x);
    }
}

/// How many files there are does not depend on the order.
pub proof fn lemma_files_len_permutation(a: Seq<NodeView>, b: Seq<NodeView>)
    requires
        a.to_multiset() == b.to_multiset(),
    ensures
        files_of(a).len() == files_of(b).len(),
    decreases a.len(),
{
    broadcast use vstd::seq_lib::group_to_multiset_ensures;

    assert(a.len() == a.to_multiset().len() && b.len() == b.to_multiset().len());
    if a.len() > 0 {
        let x = a.last();
        let front = a.drop_last();
        assert(a =~= front.push(x));
        assert(b.contains(x)) by {
            assert(a.contains(x));
            assert(a.to_multiset().count(x) > 0);
        }
        let k = choose|k: int| 0 <= k < b.len() && b[k] == x;
        let rest = b.remove(k);
        assert(front.to_multiset() =~= rest.to_multiset());
        lemma_files_len_permutation(front, rest);
        assert(b =~= b.take(k).push(x) + b.skip(k + 1));
        assert(rest =~= b.take(k) + b.skip(k + 1));
        lemma_files_of_add(b.take(k).push(x), b.skip(k + 1));
        lemma_files_of_add(b.take(k), b.skip(k + 1));
        assert(b.take(k).push(x).drop_last() =~= b.take(k));
    }
}

/// What is in one of several trees is in all of them together.
pub proof fn lemma_in_forest(s: Seq<NodeView>, i: int, x: NodeView)
    requires
        0 <= i < s.len(),
        preorder(s[i]).contains(x) || x == s[i],
    ensures
        forest(s).contains(x),
    decreases s.len(),
{
    if x == s[i] {
        assert(preorder(s[i])[0] == x);
    }
    let a = forest(s.drop_last());
    let b = preorder(s.last());
    if i == s.len() - 1 {
        let k = choose|k: int| 0 <= k < b.len() && b[k] == x;
        assert(forest(s)[a.len() + k] == x);
    } else {
        assert(s.drop_last()[i] == s[i]);
        lemma_in_forest(s.drop_last(), i, x);
        let k = choose|k: int| 0 <= k < a.len() && a[k] == x;
        assert(forest(s)[k] == x);
    }
}

/// What is in several trees together is in one of them.
pub proof fn lemma_forest_member(s: Seq<NodeView>, x: NodeView) -> (i: int)
    requires
        forest(s).contains(x),
    ensures
        0 <= i < s.len(),
        preorder(s[i]).contains(x),
    decreases s.len(),
{
    let a = forest(s.drop_last());
    let b = preorder(s.last());
    let k = choose|k: int| 0 <= k < forest(s).len() && forest(s)[k] == x;
    if k < a.len() {
        assert(a[k] == x);
        let i = lemma_forest_member(s.drop_last(), x);
        assert(s.drop_last()[i] == s[i]);
        i
    } else {
        assert(b[k - a.len()] == x);
        s.len() - 1
    }
}

/// A node of a tree is its root or is in the tree of one of its children.
pub proof fn lemma_preorder_member(n: NodeView, x: NodeView)
    ensures
        preorder(n).contains(x) <==> x == n || forest(n.children).contains(x),
{
    let p = preorder(n);
    let f = forest(n.children);
    assert(p[0] == n);
    if p.contains(x) {
        let k = choose|k: int| 0 <= k < p.len() && p[k] == x;
        if k > 0 {
            assert(f[k - 1] == x);
        }
    }
    if f.contains(x) {
        let k = choose|k: int| 0 <= k < f.len() && f[k] == x;
        assert(p[k + 1] == x);
    }
}

/// What is below a node of a tree is in the tree.
pub proof fn lemma_preorder_transitive(n: NodeView, d: NodeView, x: NodeView)
    requires
        preorder(n).contains(d),
        preorder(d).contains(x),
    ensures
        preorder(n).contains(x),
    decreases n,
{
    lemma_preorder_member(n, d);
    lemma_preorder_member(n, x);
    if d != n {
        let i = lemma_forest_member(n.children, d);
        lemma_preorder_transitive(n.children[i], d, x);
        lemma_in_forest(n.children, i, x);
    }
}

} // verus!
