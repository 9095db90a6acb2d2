//! Taking an entry out of a tree.
use vstd::prelude::*;

use crate::laws::lists::lemma_flatten_contains;
use crate::laws::places::drill_downs_reach_every_node;
use crate::laws::trees::files_of_trees_are_their_files;
use crate::navigate::{extends_by_one, leads, lemma_deeper_is_longer, lemma_only_way, nests, node_at};
use crate::path::{components, starts_with, EntryPath};
use crate::query::{
    child_at, child_towards, cut_out, freed_of, lemma_cut_deeper, lemma_first_where, lemma_first_where_bounds,
    lemma_first_where_holds, lemma_sum_split, removal_keeps_sizes_consistent, removal_takes_one_entry, remove,
    rest_of, without,
};
use crate::tree::{
    consistent, files, files_of, forest, lemma_files_of_add, lemma_forest_add, lemma_forest_member,
    lemma_forest_of_one, lemma_in_forest, lemma_preorder_member, preorder, Node, NodeView,
};

verus! {

/// In a tree whose paths follow its shape, whatever has the path can be removed.
proof fn lemma_whatever_is_there_can_go(n: NodeView, x: NodeView, target: Seq<u8>)
    requires
        nests(n),
        forest(n.children).contains(x),
        components(x.path) == components(target),
    ensures
        without(n, target) is Some,
    decreases n,
{
    let c = n.children;
    let at = |d: NodeView| components(d.path) == components(target);
    let k = lemma_forest_member(c, x);
    let i = child_at(n, target);
    lemma_first_where_bounds(c, at);
    if !(i < c.len()) {
        assert(nests(c[k]));
        drill_downs_reach_every_node(c[k], x);
        let p = choose|p: Seq<int>| #[trigger] leads(c[k], p) && node_at(c[k], p) == x;
        lemma_deeper_is_longer(c[k], p);
        assert(starts_with(target, c[k].path));
        lemma_only_way(n, k, target);
        if x == c[k] {
            lemma_first_where_holds(c, at, k);
        }
        lemma_preorder_member(c[k], x);
        lemma_whatever_is_there_can_go(c[k], x, target);
    }
}

spec fn paths(s: Seq<NodeView>) -> Seq<Seq<u8>> {
    s.map_values(|n: NodeView| n.path)
}

proof fn lemma_paths_add(a: Seq<NodeView>, b: Seq<NodeView>)
    ensures
        paths(a + b).to_multiset() == paths(a).to_multiset().add(paths(b).to_multiset()),
{
    assert(paths(a + b) =~= paths(a) + paths(b));
    vstd::seq_lib::lemma_multiset_commutative(paths(a), paths(b));
}

proof fn lemma_paths_split(c: Seq<NodeView>, i: int)
    requires
        0 <= i < c.len(),
    ensures
        paths(forest(c)).to_multiset() == paths(forest(c.take(i))).to_multiset().add(
            paths(preorder(c[i])).to_multiset(),
        ).add(paths(forest(c.skip(i + 1))).to_multiset()),
{
    let a = c.take(i);
    let m = seq![c[i]];
    let b = c.skip(i + 1);
    assert(c =~= a + m + b);
    lemma_forest_add(a + m, b);
    lemma_forest_add(a, m);
    lemma_forest_of_one(c[i]);
    lemma_paths_add(forest(a) + preorder(c[i]), forest(b));
    lemma_paths_add(forest(a), preorder(c[i]));
}

/// The entry that goes, and the paths that are left.
proof fn lemma_paths_left(n: NodeView, target: Seq<u8>) -> (gone: NodeView)
    requires
        consistent(n),
        without(n, target) is Some,
    ensures
        forest(n.children).contains(gone),
        components(gone.path) == components(target),
        gone.size == freed_of(n, target),
        cut_out(files(n), files(gone), files(rest_of(n, target))),
        paths(preorder(n)).to_multiset() == paths(preorder(rest_of(n, target))).to_multiset().add(
            paths(preorder(gone)).to_multiset(),
        ),
        rest_of(n, target).path == n.path,
        rest_of(n, target).name == n.name,
        rest_of(n, target).is_dir == n.is_dir,
    decreases n,
{
    let rest = rest_of(n, target);
    let c = n.children;
    let i = child_at(n, target);
    let j = child_towards(n, target);
    let g = removal_takes_one_entry(n, target);
    assert(paths(seq![n]) =~= paths(seq![rest]));
    lemma_paths_add(seq![n], forest(c));
    lemma_paths_add(seq![rest], forest(rest.children));
    assert(n.is_dir);
    if 0 <= i < c.len() {
        lemma_paths_split(c, i);
        assert(c.remove(i) =~= c.take(i) + c.skip(i + 1));
        lemma_forest_add(c.take(i), c.skip(i + 1));
        lemma_paths_add(forest(c.take(i)), forest(c.skip(i + 1)));
        let at = |x: NodeView| components(x.path) == components(target);
        lemma_first_where_bounds(c, at);
        lemma_in_forest(c, i, c[i]);
        let front = files_of(c.take(i));
        let back = files_of(c.skip(i + 1));
        lemma_sum_split(c, i);
        lemma_files_of_add(c.take(i), c.skip(i + 1));
        assert(files(n) == front + files(c[i]) + back && files(rest) == front + back);
        assert(paths(preorder(n)).to_multiset() =~= paths(preorder(rest)).to_multiset().add(
            paths(preorder(c[i])).to_multiset(),
        ));
        c[i]
    } else {
        assert(consistent(c[j]));
        let gone = lemma_paths_left(c[j], target);
        let child = rest_of(c[j], target);
        let d = c.update(j, child);
        lemma_paths_split(c, j);
        lemma_paths_split(d, j);
        assert(d.take(j) =~= c.take(j));
        assert(d.skip(j + 1) =~= c.skip(j + 1));
        assert(rest.children =~= d);
        lemma_preorder_member(c[j], gone);
        lemma_in_forest(c, j, gone);
        lemma_sum_split(c, j);
        lemma_sum_split(d, j);
        lemma_cut_deeper(
            files_of(c.take(j)),
            files(c[j]),
            files(gone),
            files(child),
            files_of(c.skip(j + 1)),
        );
        assert(paths(preorder(n)).to_multiset() =~= paths(preorder(rest)).to_multiset().add(
            paths(preorder(gone)).to_multiset(),
        ));
        gone
    }
}

/// Removing an entry from a tree whose sizes agree takes that entry with everything
/// below it and nothing else: the files that are left are the others, as they were and
/// in the same order; the paths that are left are the others; the root, which stays
/// where it is, gets smaller by exactly the size of the entry, which is what is
/// reported; and the sizes still agree. Where nothing has the path, nothing changes;
/// and in a tree whose paths follow its shape, that is the only case in which nothing
/// is removed.
pub proof fn removing_takes_the_entry_and_nothing_else(node: &mut Node, target: &EntryPath, freed: Option<u64>)
    requires
        consistent(old(node)@),
        call_ensures(remove, (node, target), freed),
    ensures
        freed is None ==> final(node)@ == old(node)@,
        freed matches Some(bytes) ==> {
            &&& final(node)@.size + bytes == old(node)@.size
            &&& consistent(final(node)@)
            &&& final(node)@.path == old(node)@.path
            &&& final(node)@.name == old(node)@.name
            &&& final(node)@.is_dir == old(node)@.is_dir
            &&& exists|gone: NodeView, front: Seq<NodeView>, back: Seq<NodeView>|
                #![trigger forest(old(node)@.children).contains(gone), front + files(gone) + back]
                {
                    &&& forest(old(node)@.children).contains(gone)
                    &&& components(gone.path) == components(target@)
                    &&& gone.size == bytes
                    &&& files(old(node)@) == front + files(gone) + back
                    &&& files(final(node)@) == front + back
                    &&& preorder(old(node)@).map_values(|x: NodeView| x.path).to_multiset() == preorder(
                        final(node)@,
                    ).map_values(|x: NodeView| x.path).to_multiset().add(
                        preorder(gone).map_values(|x: NodeView| x.path).to_multiset(),
                    )
                }
        },
        nests(old(node)@) ==> (freed is None <==> forall|i: int|
            0 <= i < forest(old(node)@.children).len() ==> components((#[trigger] forest(old(node)@.children)[i]).path)
                != components(target@)),
{
    let n = old(node)@;
    let all = forest(n.children);
    if let Some(bytes) = freed {
        removal_keeps_sizes_consistent(n, target@);
        let gone = lemma_paths_left(n, target@);
        let rest = final(node)@;
        let (front, back) = choose|front: Seq<NodeView>, back: Seq<NodeView>|
            files(n) == #[trigger] (front + files(gone) + back) && files(rest) == front + back;
        assert(preorder(n).map_values(|x: NodeView| x.path) =~= paths(preorder(n)));
        assert(preorder(rest).map_values(|x: NodeView| x.path) =~= paths(preorder(rest)));
        assert(preorder(gone).map_values(|x: NodeView| x.path) =~= paths(preorder(gone)));
        assert(forest(old(node)@.children).contains(gone));
        let k = choose|k: int| 0 <= k < all.len() && all[k] == gone;
        assert(components(all[k].path) == components(target@));
    } else if nests(n) {
        assert forall|i: int| 0 <= i < all.len() implies components((#[trigger] all[i]).path) != components(target@) by {
            if components(all[i].path) == components(target@) {
                assert(all.contains(all[i]));
                lemma_whatever_is_there_can_go(n, all[i], target@);
            }
        }
    }
}

/// The files of some trees at other places than below a path.
spec fn elsewhere(s: Seq<NodeView>, target: Seq<u8>) -> Seq<NodeView> {
    s.filter(|f: NodeView| !starts_with(f.path, target))
}

proof fn lemma_files_reached(n: NodeView, f: NodeView)
    requires
        nests(n),
        files(n).contains(f),
    ensures
        components(n.path).is_prefix_of(components(f.path)),
    decreases n,
{
    if n.is_dir {
        files_of_trees_are_their_files(n.children);
        let parts = n.children.map_values(|c: NodeView| files(c));
        lemma_flatten_contains(parts, f);
        let k = choose|k: int| 0 <= k < parts.len() && (#[trigger] parts[k]).contains(f);
        assert(nests(n.children[k]));
        assert(extends_by_one(components(n.children[k].path), components(n.path)));
        lemma_files_reached(n.children[k], f);
    }
}

proof fn lemma_keeps_all(s: Seq<NodeView>, target: Seq<u8>)
    requires
        forall|f: NodeView| s.contains(f) ==> !#[trigger] starts_with(f.path, target),
    ensures
        elsewhere(s, target) == s,
    decreases s.len(),
{
    reveal(Seq::filter);
    if s.len() > 0 {
        let front = s.drop_last();
        assert forall|f: NodeView| front.contains(f) implies !#[trigger] starts_with(f.path, target) by {
            let k = choose|k: int| 0 <= k < front.len() && front[k] == f;
            assert(s[k] == f);
            assert(s.contains(f));
        }
        lemma_keeps_all(front, target);
        assert(s.contains(s.last()));
        assert(s =~= front.push(s.last()));
    }
}

proof fn lemma_keeps_none(s: Seq<NodeView>, target: Seq<u8>)
    requires
        forall|f: NodeView| s.contains(f) ==> #[trigger] starts_with(f.path, target),
    ensures
        elsewhere(s, target).len() == 0,
    decreases s.len(),
{
    reveal(Seq::filter);
    if s.len() > 0 {
        let front = s.drop_last();
        assert forall|f: NodeView| front.contains(f) implies #[trigger] starts_with(f.path, target) by {
            let k = choose|k: int| 0 <= k < front.len() && front[k] == f;
            assert(s[k] == f);
            assert(s.contains(f));
        }
        lemma_keeps_none(front, target);
        assert(s.contains(s.last()));
    }
}

/// The files of a child that is not on the way to the target lie elsewhere.
proof fn lemma_off_the_way(n: NodeView, k: int, target: Seq<u8>)
    requires
        nests(n),
        0 <= k < n.children.len(),
        !starts_with(n.path, target),
        !starts_with(target, n.children[k].path),
    ensures
        elsewhere(files(n.children[k]), target) == files(n.children[k]),
{
    let c = n.children[k];
    let t = components(target);
    assert(nests(c));
    assert(extends_by_one(components(c.path), components(n.path)));
    assert forall|f: NodeView| files(c).contains(f) implies !#[trigger] starts_with(f.path, target) by {
        lemma_files_reached(c, f);
        let p = components(f.path);
        if t.is_prefix_of(p) {
            if t.len() <= components(n.path).len() {
                assert(t =~= components(n.path).take(t.len() as int));
                assert(t.is_prefix_of(components(n.path)));
            } else {
                assert(components(c.path) =~= t.take(components(c.path).len() as int));
                assert(components(c.path).is_prefix_of(t));
            }
        }
    }
    lemma_keeps_all(files(c), target);
}

proof fn lemma_elsewhere_split(c: Seq<NodeView>, i: int, target: Seq<u8>)
    requires
        0 <= i < c.len(),
    ensures
        elsewhere(files_of(c), target) == elsewhere(files_of(c.take(i)), target) + elsewhere(files(c[i]), target)
            + elsewhere(files_of(c.skip(i + 1)), target),
{
    let p = |f: NodeView| !starts_with(f.path, target);
    lemma_sum_split(c, i);
    Seq::filter_distributes_over_add(files_of(c.take(i)) + files(c[i]), files_of(c.skip(i + 1)), p);
    Seq::filter_distributes_over_add(files_of(c.take(i)), files(c[i]), p);
}

proof fn lemma_all_elsewhere(n: NodeView, a: int, b: int, target: Seq<u8>)
    requires
        nests(n),
        !starts_with(n.path, target),
        0 <= a <= b <= n.children.len(),
        forall|k: int| a <= k < b ==> !starts_with(target, (#[trigger] n.children[k]).path),
    ensures
        elsewhere(files_of(n.children.subrange(a, b)), target) == files_of(n.children.subrange(a, b)),
    decreases b - a,
{
    let p = |f: NodeView| !starts_with(f.path, target);
    let s = n.children.subrange(a, b);
    if a < b {
        let front = n.children.subrange(a, b - 1);
        assert(s.drop_last() =~= front);
        assert(s.last() == n.children[b - 1]);
        lemma_all_elsewhere(n, a, b - 1, target);
        lemma_off_the_way(n, b - 1, target);
        Seq::filter_distributes_over_add(files_of(front), files(s.last()), p);
    } else {
        reveal(Seq::filter);
        assert(elsewhere(files_of(s), target) =~= files_of(s));
    }
}

/// The target is one of the children, or lies below one of them.
proof fn lemma_files_left_on_the_way(n: NodeView, target: Seq<u8>)
    requires
        consistent(n),
        nests(n),
        n.is_dir,
        !starts_with(n.path, target),
        0 <= child_towards(n, target) < n.children.len(),
        !(0 <= child_at(n, target) < n.children.len()) ==> files(rest_of(n.children[child_towards(n, target)], target))
            == elsewhere(files(n.children[child_towards(n, target)]), target),
    ensures
        files(rest_of(n, target)) == elsewhere(files(n), target),
{
    let c = n.children;
    let i = child_at(n, target);
    let j = child_towards(n, target);
    let rest = rest_of(n, target);
    let at = |d: NodeView| components(d.path) == components(target);
    let towards = |d: NodeView| starts_with(target, d.path);
    lemma_first_where_bounds(c, at);
    lemma_first_where_bounds(c, towards);
    assert(towards(c[j]));
    assert forall|k: int| 0 <= k < c.len() && k != j implies !starts_with(target, (#[trigger] c[k]).path) by {
        if starts_with(target, c[k].path) {
            lemma_only_way(n, k, target);
        }
    }
    lemma_elsewhere_split(c, j, target);
    assert(c.take(j) =~= c.subrange(0, j));
    assert(c.skip(j + 1) =~= c.subrange(j + 1, c.len() as int));
    lemma_all_elsewhere(n, 0, j, target);
    lemma_all_elsewhere(n, j + 1, c.len() as int, target);
    if 0 <= i < c.len() {
        assert(at(c[i]));
        assert(towards(c[i]));
        assert(i == j);
        assert(nests(c[j]));
        assert forall|f: NodeView| files(c[j]).contains(f) implies #[trigger] starts_with(f.path, target) by {
            lemma_files_reached(c[j], f);
        }
        lemma_keeps_none(files(c[j]), target);
        assert(c.remove(i) =~= c.take(j) + c.skip(j + 1));
        lemma_files_of_add(c.take(j), c.skip(j + 1));
        assert(files(rest) =~= elsewhere(files_of(c), target));
    } else {
        let child = rest_of(c[j], target);
        let d = c.update(j, child);
        lemma_sum_split(d, j);
        assert(d.take(j) =~= c.take(j));
        assert(d.skip(j + 1) =~= c.skip(j + 1));
        if without(c[j], target) is None {
            assert(d =~= c);
        }
        assert(rest.children =~= d);
        assert(files(rest) =~= elsewhere(files_of(c), target));
    }
}

/// What is left of a tree when the entry at a path goes: the files that do not lie below
/// the path.
pub proof fn lemma_files_left(n: NodeView, target: Seq<u8>)
    requires
        consistent(n),
        nests(n),
        !starts_with(n.path, target),
    ensures
        files(rest_of(n, target)) == files(n).filter(|f: NodeView| !starts_with(f.path, target)),
    decreases n,
{
    let c = n.children;
    let i = child_at(n, target);
    let j = child_towards(n, target);
    let at = |d: NodeView| components(d.path) == components(target);
    let towards = |d: NodeView| starts_with(target, d.path);
    lemma_first_where_bounds(c, at);
    lemma_first_where_bounds(c, towards);
    if !n.is_dir {
        assert(c.len() == 0);
        assert(files(n) =~= seq![n]);
        assert forall|f: NodeView| files(n).contains(f) implies !#[trigger] starts_with(f.path, target) by {}
        lemma_keeps_all(files(n), target);
    } else if 0 <= j < c.len() {
        if !(0 <= i < c.len()) {
            assert(nests(c[j]) && consistent(c[j]));
            assert(towards(c[j]));
            if starts_with(c[j].path, target) {
                assert(components(c[j].path) =~= components(target));
                assert(at(c[j]));
                lemma_first_where_holds(c, at, j);
            }
            lemma_files_left(c[j], target);
        }
        lemma_files_left_on_the_way(n, target);
    } else {
        assert forall|k: int| 0 <= k < c.len() implies !starts_with(target, (#[trigger] c[k]).path) by {
            if towards(c[k]) {
                lemma_first_where_holds(c, towards, k);
            }
        }
        if 0 <= i < c.len() {
            assert(at(c[i]));
            assert(towards(c[i]));
        }
        assert(c.subrange(0, c.len() as int) =~= c);
        lemma_all_elsewhere(n, 0, c.len() as int, target);
    }
}

/// In a tree whose paths follow its shape, removing a path leaves exactly the files that
/// do not lie below it, in the order in which they were.
pub proof fn removing_leaves_what_lies_elsewhere(node: &mut Node, target: &EntryPath, freed: Option<u64>)
    requires
        consistent(old(node)@),
        nests(old(node)@),
        !starts_with(old(node)@.path, target@),
        call_ensures(remove, (node, target), freed),
    ensures
        files(final(node)@) == files(old(node)@).filter(|f: NodeView| !starts_with(f.path, target@)),
{
    lemma_files_left(old(node)@, target@);
}

/// Of the children that are the entry itself the first goes, whole, and the tree is smaller
/// by it; nothing is looked for below the others.
pub proof fn a_child_goes_whole(node: &mut Node, target: &EntryPath, freed: Option<u64>, i: int)
    requires
        0 <= i < old(node)@.children.len(),
        components(old(node)@.children[i].path) == components(target@),
        forall|k: int| 0 <= k < i ==> components((#[trigger] old(node)@.children[k]).path) != components(target@),
        old(node)@.children[i].size <= old(node)@.size,
        call_ensures(remove, (node, target), freed),
    ensures
        freed matches Some(bytes) && bytes == old(node)@.children[i].size,
        final(node)@.children == old(node)@.children.remove(i),
        final(node)@.size == old(node)@.size - old(node)@.children[i].size,
        final(node)@.name == old(node)@.name,
        final(node)@.path == old(node)@.path,
        final(node)@.is_dir == old(node)@.is_dir,
{
    lemma_first_where(old(node)@.children, |c: NodeView| components(c.path) == components(target@), i);
}

/// Where no child is the entry itself, the entry goes out of the first child on the way to
/// it, as it would go out of that child alone, and the tree is smaller by as much; the other
/// children stay as they are.
pub proof fn what_lies_deeper_goes_out_of_its_child(
    node: &mut Node,
    target: &EntryPath,
    freed: Option<u64>,
    j: int,
    child: &mut Node,
    below: Option<u64>,
)
    requires
        forall|k: int|
            0 <= k < old(node)@.children.len() ==> components((#[trigger] old(node)@.children[k]).path) != components(target@),
        0 <= j < old(node)@.children.len(),
        starts_with(target@, old(node)@.children[j].path),
        forall|k: int| 0 <= k < j ==> !starts_with(target@, (#[trigger] old(node)@.children[k]).path),
        old(child)@ == old(node)@.children[j],
        call_ensures(remove, (child, target), below),
        below matches Some(bytes) ==> bytes <= old(node)@.size,
        call_ensures(remove, (node, target), freed),
    ensures
        freed == below,
        below is None ==> final(node)@ == old(node)@,
        below matches Some(bytes) ==> {
            &&& final(node)@.children == old(node)@.children.update(j, final(child)@)
            &&& final(node)@.size == old(node)@.size - bytes
            &&& final(node)@.name == old(node)@.name
            &&& final(node)@.path == old(node)@.path
            &&& final(node)@.is_dir == old(node)@.is_dir
        },
{
    let n = old(node)@;
    lemma_first_where(n.children, |c: NodeView| components(c.path) == components(target@), n.children.len() as int);
    lemma_first_where(n.children, |c: NodeView| starts_with(target@, c.path), j);
}

/// Where no child is the entry itself or on the way to it, nothing goes.
pub proof fn what_lies_outside_cannot_go(node: &mut Node, target: &EntryPath, freed: Option<u64>)
    requires
        forall|k: int|
            0 <= k < old(node)@.children.len() ==> !starts_with(target@, (#[trigger] old(node)@.children[k]).path),
        call_ensures(remove, (node, target), freed),
    ensures
        freed is None,
        final(node)@ == old(node)@,
{
    let n = old(node)@;
    assert forall|k: int| 0 <= k < n.children.len() implies components((#[trigger] n.children[k]).path) != components(target@) by {
        assert(!starts_with(target@, n.children[k].path));
    }
    lemma_first_where(n.children, |c: NodeView| components(c.path) == components(target@), n.children.len() as int);
    lemma_first_where(n.children, |c: NodeView| starts_with(target@, c.path), n.children.len() as int);
}

} // verus!
