//! What can be done with a scanned tree without reading the disk again: searching it
//! by name, and taking an entry out of it.
use vstd::prelude::*;
use vstd::string::*;

use crate::order::{
    lemma_filter_count, lemma_filter_twice, merge_sort, sorted_by, sorted_stably, sorting_and_filtering_commute,
    stable_sort_exists, stably_sorted, views,
};
use crate::path::{components, starts_with, EntryPath};
use crate::text::{occurs_in, text_contains, unicode_lower};
use crate::tree::{
    consistent, files, files_of, forest, lemma_files_of_add, lemma_in_forest, lemma_node_view, lemma_one_more,
    lemma_preorder_member, lemma_sum_of_one, lemma_sum_sizes_add, lemma_sum_sizes_bounds, node_le, node_order_is_total,
    preorder, sum_sizes, Node, NodeView,
};

verus! {

/// The entry is large enough, and what is looked for occurs in its lowered name.
pub open spec fn is_hit(n: NodeView, lower_needle: Seq<char>, min_size: u64) -> bool {
    n.size >= min_size && occurs_in(lower_needle, unicode_lower(n.name))
}

/// The entries below the root that a search finds, in the order of the tree.
pub open spec fn hits(root: NodeView, needle: Seq<char>, min_size: u64) -> Seq<NodeView> {
    if needle.len() == 0 {
        Seq::empty()
    } else {
        forest(root.children).filter(|n: NodeView| is_hit(n, unicode_lower(needle), min_size))
    }
}

/// Whether an entry with this lowered name and size matches a search.
pub fn matches_search(lower_name: &str, size: u64, lower_needle: &str, min_size: u64) -> (found: bool)
    ensures
        found == (size >= min_size && occurs_in(lower_needle@, lower_name@)),
{
    size >= min_size && text_contains(lower_name, lower_needle)
}

/// Find every entry whose name contains `needle` (case-insensitive) and whose
/// size is at least `min_size`, anywhere in the in-memory tree, largest-first.
///
/// Both files and directories can match (so a search for `node_modules` finds
/// the directory, reporting its recursive size). The `root` itself is never a
/// match. An empty `needle` returns nothing.
pub fn search<'a>(root: &'a Node, needle: &str, min_size: u64) -> (found: Vec<&'a Node>)
    ensures
        views(found@) == sorted_stably(hits(root@, needle@, min_size), node_le()),
        stably_sorted(views(found@), hits(root@, needle@, min_size), node_le()),
        needle@.len() == 0 ==> found@.len() == 0,
{
    let mut out: Vec<&'a Node> = Vec::new();
    let lower = needle.to_lowercase();
    let ghost p = |n: NodeView| is_hit(n, lower@, min_size);
    proof {
        lemma_node_view(*root);
        reveal(Seq::filter);
        assert(views(out@) =~= Seq::<NodeView>::empty());
    }
    if !needle.is_empty() {
        let mut i: usize = 0;
        assert(forest(root@.children.take(0)) =~= Seq::<NodeView>::empty());
        while i < root.children.len()
            invariant
                i <= root.children@.len(),
                root@.children == views(root.children@),
                p == |n: NodeView| is_hit(n, lower@, min_size),
                views(out@) == forest(root@.children.take(i as int)).filter(p),
            decreases root.children@.len() - i,
        {
            search_into(&root.children[i], lower.as_str(), min_size, &mut out);
            proof {
                let c = root@.children;
                assert(c[i as int] == root.children@[i as int]@);
                lemma_one_more(c, i as int);
                Seq::filter_distributes_over_add(forest(c.take(i as int)), preorder(c[i as int]), p);
            }
            i += 1;
        }
        assert(root@.children.take(i as int) =~= root@.children);
    }
    let ghost before = views(out@);
    let found = merge_sort(out);
    proof {
        broadcast use vstd::seq_lib::group_to_multiset_ensures;

        assert(views(found@).len() == views(found@).to_multiset().len());
        assert(before.len() == before.to_multiset().len());
    }
    found
}

fn search_into<'a>(node: &'a Node, needle: &str, min_size: u64, out: &mut Vec<&'a Node>)
    ensures
        views(final(out)@) == views(old(out)@) + preorder(node@).filter(
            |n: NodeView| is_hit(n, needle@, min_size),
        ),
    decreases node,
{
    let ghost p = |n: NodeView| is_hit(n, needle@, min_size);
    let ghost before = views(out@);
    let lower = node.name.as_str().to_lowercase();
    proof {
        lemma_node_view(*node);
        reveal(Seq::filter);
        reveal_with_fuel(Seq::filter, 2);
        assert(seq![node@].drop_last() =~= Seq::<NodeView>::empty());
    }
    if matches_search(lower.as_str(), node.size, needle, min_size) {
        out.push(node);
    }
    assert(views(out@) =~= before + seq![node@].filter(p));
    let mut i: usize = 0;
    proof {
        assert(forest(node@.children.take(0)) =~= Seq::<NodeView>::empty());
        assert(seq![node@] + Seq::<NodeView>::empty() =~= seq![node@]);
    }
    while i < node.children.len()
        invariant
            i <= node.children@.len(),
            node@.children == views(node.children@),
            p == |n: NodeView| is_hit(n, needle@, min_size),
            views(out@) == before + (seq![node@] + forest(node@.children.take(i as int))).filter(p),
        decreases node.children@.len() - i,
    {
        search_into(&node.children[i], needle, min_size, out);
        proof {
            let c = node@.children;
            assert(c[i as int] == node.children@[i as int]@);
            lemma_one_more(c, i as int);
            let a = seq![node@] + forest(c.take(i as int));
            Seq::filter_distributes_over_add(a, preorder(c[i as int]), p);
            assert(seq![node@] + forest(c.take(i + 1)) =~= a + preorder(c[i as int]));
            assert(before + (a.filter(p) + preorder(c[i as int]).filter(p)) =~= before + a.filter(p) + preorder(
                c[i as int],
            ).filter(p));
        }
        i += 1;
    }
    assert(node@.children.take(i as int) =~= node@.children);
}

/// The place of the first node that `p` holds of; the length if there is none.
pub open spec fn first_where(s: Seq<NodeView>, p: spec_fn(NodeView) -> bool) -> int
    decreases s.len(),
{
    if s.len() == 0 {
        0
    } else if p(s[0]) {
        0
    } else {
        1 + first_where(s.drop_first(), p)
    }
}

/// Where anything satisfies `p`, the first place that does is no later.
pub proof fn lemma_first_where_holds(s: Seq<NodeView>, p: spec_fn(NodeView) -> bool, i: int)
    requires
        0 <= i < s.len(),
        p(s[i]),
    ensures
        0 <= first_where(s, p) <= i,
    decreases s.len(),
{
    if !p(s[0]) {
        lemma_first_where_holds(s.drop_first(), p, i - 1);
    }
}

/// Where nothing before a place satisfies `p`, and the place does or is the end, it is
/// the first.
pub proof fn lemma_first_where(s: Seq<NodeView>, p: spec_fn(NodeView) -> bool, i: int)
    requires
        0 <= i <= s.len(),
        forall|k: int| 0 <= k < i ==> !p(#[trigger] s[k]),
        i < s.len() ==> p(s[i]),
    ensures
        first_where(s, p) == i,
    decreases s.len(),
{
    if s.len() > 0 && i > 0 {
        assert(!p(s[0]));
        let t = s.drop_first();
        assert forall|k: int| 0 <= k < i - 1 implies !p(#[trigger] t[k]) by {
            assert(t[k] == s[k + 1]);
        }
        lemma_first_where(t, p, i - 1);
    }
}

/// The first place that satisfies `p` does, unless it is the end.
pub proof fn lemma_first_where_bounds(s: Seq<NodeView>, p: spec_fn(NodeView) -> bool)
    ensures
        0 <= first_where(s, p) <= s.len(),
        first_where(s, p) < s.len() ==> p(s[first_where(s, p)]),
    decreases s.len(),
{
    if s.len() > 0 && !p(s[0]) {
        lemma_first_where_bounds(s.drop_first(), p);
    }
}

/// The place of the child that is `target` itself.
pub open spec fn child_at(n: NodeView, target: Seq<u8>) -> int {
    first_where(n.children, |c: NodeView| components(c.path) == components(target))
}

/// The place of the first child on the way to `target`.
pub open spec fn child_towards(n: NodeView, target: Seq<u8>) -> int {
    first_where(n.children, |c: NodeView| starts_with(target, c.path))
}

/// `n` with other children, and smaller by `freed`.
pub open spec fn shrunk(n: NodeView, children: Seq<NodeView>, freed: u64) -> NodeView {
    NodeView { size: (n.size - freed) as u64, children, ..n }
}

/// The tree without the entry at `target`, and the size of that entry; `None` if
/// the tree has no such entry. A child that is `target` itself goes whole; else the
/// first child on the way to `target` is searched.
pub open spec fn without(n: NodeView, target: Seq<u8>) -> Option<(NodeView, u64)>
    decreases n,
{
    let i = child_at(n, target);
    let j = child_towards(n, target);
    if 0 <= i < n.children.len() {
        let freed = n.children[i].size;
        Some((shrunk(n, n.children.remove(i), freed), freed))
    } else if 0 <= j < n.children.len() {
        match without(n.children[j], target) {
            Some((child, freed)) => Some((shrunk(n, n.children.update(j, child), freed), freed)),
            None => None,
        }
    } else {
        None
    }
}

/// The tree that is left when the entry at `target` goes.
pub open spec fn rest_of(n: NodeView, target: Seq<u8>) -> NodeView {
    match without(n, target) {
        Some((rest, _)) => rest,
        None => n,
    }
}

/// The bytes that are freed when the entry at `target` goes.
pub open spec fn freed_of(n: NodeView, target: Seq<u8>) -> u64 {
    match without(n, target) {
        Some((_, freed)) => freed,
        None => 0,
    }
}

/// No ancestor of `target` is smaller than the entry that goes, so that every size
/// on the way can be reduced.
pub open spec fn can_shrink(n: NodeView, target: Seq<u8>) -> bool
    decreases n,
{
    let i = child_at(n, target);
    let j = child_towards(n, target);
    if 0 <= i < n.children.len() {
        n.children[i].size <= n.size
    } else if 0 <= j < n.children.len() {
        can_shrink(n.children[j], target) && match without(n.children[j], target) {
            Some((_, freed)) => freed <= n.size,
            None => true,
        }
    } else {
        true
    }
}

/// Remove the entry at `target` from an in-memory tree, returning the bytes
/// freed, and decrement every ancestor's cached `size` by that amount so the
/// tree stays self-consistent **without a rescan**.
///
/// Returns `None` (leaving the tree untouched) if `target` is not inside `node`
/// — e.g. it lives outside the scanned root. An exact match on a direct child
/// wins over descending, so a directory is removed whole rather than recursed
/// into.
pub fn remove(node: &mut Node, target: &EntryPath) -> (freed: Option<u64>)
    requires
        can_shrink(old(node)@, target@),
    ensures
        match without(old(node)@, target@) {
            Some((rest, bytes)) => freed == Some(bytes) && final(node)@ == rest,
            None => freed is None && final(node)@ == old(node)@,
        },
    decreases *old(node),
{
    let ghost whole = node@;
    proof {
        lemma_node_view(*node);
    }
    let ghost at = |c: NodeView| components(c.path) == components(target@);
    let ghost towards = |c: NodeView| starts_with(target@, c.path);
    let mut i: usize = 0;
    while i < node.children.len()
        invariant
            i <= node.children@.len(),
            *node == *old(node),
            whole == node@,
            whole.children == views(node.children@),
            at == |c: NodeView| components(c.path) == components(target@),
            forall|k: int| 0 <= k < i ==> !at(#[trigger] whole.children[k]),
            can_shrink(whole, target@),
        decreases node.children@.len() - i,
    {
        assert(whole.children[i as int] == node.children@[i as int]@);
        if node.children[i].path.same_as(target) {
            proof {
                lemma_first_where(whole.children, at, i as int);
            }
            let gone = node.children.remove(i);
            let freed = gone.size;
            node.size = node.size - freed;
            proof {
                lemma_node_view(*node);
                assert(views(node.children@) =~= whole.children.remove(i as int));
                assert(node@ =~= shrunk(whole, whole.children.remove(i as int), freed));
            }
            return Some(freed);
        }
        i += 1;
    }
    proof {
        lemma_first_where(whole.children, at, i as int);
    }
    let mut j: usize = 0;
    while j < node.children.len()
        invariant
            j <= node.children@.len(),
            *node == *old(node),
            whole == node@,
            whole.children == views(node.children@),
            towards == |c: NodeView| starts_with(target@, c.path),
            forall|k: int| 0 <= k < j ==> !towards(#[trigger] whole.children[k]),
            can_shrink(whole, target@),
            child_at(whole, target@) == whole.children.len(),
        decreases node.children@.len() - j,
    {
        assert(whole.children[j as int] == node.children@[j as int]@);
        if target.starts_with(&node.children[j].path) {
            proof {
                lemma_first_where(whole.children, towards, j as int);
            }
            let freed = remove(&mut node.children[j], target);
            if let Some(bytes) = freed {
                node.size = node.size - bytes;
                proof {
                    lemma_node_view(*node);
                    assert(views(node.children@) =~= whole.children.update(j as int, node.children@[j as int]@));
                    assert(node@ =~= shrunk(whole, views(node.children@), bytes));
                }
            } else {
                proof {
                    lemma_node_view(*node);
                    assert(views(node.children@) =~= whole.children);
                    assert(node@ =~= whole);
                }
            }
            return freed;
        }
        j += 1;
    }
    proof {
        lemma_first_where(whole.children, towards, j as int);
    }
    None
}

/// In a tree whose sizes agree, whatever can be removed can be taken off every
/// ancestor's size.
pub proof fn consistent_trees_can_shrink(n: NodeView, target: Seq<u8>)
    requires
        consistent(n),
    ensures
        can_shrink(n, target),
        without(n, target) matches Some((_, freed)) ==> freed <= n.size,
    decreases n,
{
    let i = child_at(n, target);
    let j = child_towards(n, target);
    if 0 <= i < n.children.len() {
        lemma_sum_sizes_bounds(n.children, i);
        assert(n.is_dir);
    } else if 0 <= j < n.children.len() {
        assert(consistent(n.children[j]));
        consistent_trees_can_shrink(n.children[j], target);
        lemma_sum_sizes_bounds(n.children, j);
    }
}

/// A list of trees, split around one of them.
pub proof fn lemma_sum_split(s: Seq<NodeView>, i: int)
    requires
        0 <= i < s.len(),
    ensures
        s == s.take(i) + seq![s[i]] + s.skip(i + 1),
        sum_sizes(s) == sum_sizes(s.take(i)) + s[i].size + sum_sizes(s.skip(i + 1)),
        files_of(s) == files_of(s.take(i)) + files(s[i]) + files_of(s.skip(i + 1)),
{
    let a = s.take(i);
    let m = seq![s[i]];
    let b = s.skip(i + 1);
    assert(s =~= a + m + b);
    lemma_sum_sizes_add(a + m, b);
    lemma_sum_sizes_add(a, m);
    lemma_sum_of_one(s[i]);
    lemma_files_of_add(a + m, b);
    lemma_files_of_add(a, m);
    assert(files_of(m) =~= files(s[i])) by {
        reveal_with_fuel(files_of, 2);
        assert(m.drop_last() =~= Seq::<NodeView>::empty());
    }
}

/// Removing an entry keeps the sizes in agreement, and the root gets smaller by
/// exactly the bytes freed.
pub proof fn removal_keeps_sizes_consistent(n: NodeView, target: Seq<u8>)
    requires
        consistent(n),
        without(n, target) is Some,
    ensures
        consistent(rest_of(n, target)),
        rest_of(n, target).size + freed_of(n, target) == n.size,
        rest_of(n, target).is_dir == n.is_dir,
    decreases n,
{
    let rest = rest_of(n, target);
    consistent_trees_can_shrink(n, target);
    let c = n.children;
    let i = child_at(n, target);
    let j = child_towards(n, target);
    if 0 <= i < c.len() {
        lemma_sum_split(c, i);
        lemma_sum_sizes_add(c.take(i), c.skip(i + 1));
        assert(c.remove(i) =~= c.take(i) + c.skip(i + 1));
        assert forall|k: int| 0 <= k < rest.children.len() implies consistent(#[trigger] rest.children[k]) by {
            if k < i {
                assert(rest.children[k] == c[k]);
            } else {
                assert(rest.children[k] == c[k + 1]);
            }
        }
    } else {
        assert(consistent(c[j]));
        removal_keeps_sizes_consistent(c[j], target);
        let child = rest_of(c[j], target);
        let d = c.update(j, child);
        lemma_sum_split(c, j);
        lemma_sum_split(d, j);
        assert(d.take(j) =~= c.take(j));
        assert(d.skip(j + 1) =~= c.skip(j + 1));
        assert forall|k: int| 0 <= k < rest.children.len() implies consistent(#[trigger] rest.children[k]) by {
            if k != j {
                assert(rest.children[k] == c[k]);
            }
        }
    }
}

/// `whole` is `rest` with the piece `part` put in somewhere.
pub open spec fn cut_out(whole: Seq<NodeView>, part: Seq<NodeView>, rest: Seq<NodeView>) -> bool {
    exists|front: Seq<NodeView>, back: Seq<NodeView>|
        whole == #[trigger] (front + part + back) && rest == front + back
}

proof fn lemma_cut_here(front: Seq<NodeView>, part: Seq<NodeView>, back: Seq<NodeView>)
    ensures
        cut_out(front + part + back, part, front + back),
{
}

/// What is cut out of a part is cut out of the whole.
pub proof fn lemma_cut_deeper(
    front: Seq<NodeView>,
    whole: Seq<NodeView>,
    part: Seq<NodeView>,
    rest: Seq<NodeView>,
    back: Seq<NodeView>,
)
    requires
        cut_out(whole, part, rest),
    ensures
        cut_out(front + whole + back, part, front + rest + back),
{
    let (f, b) = choose|f: Seq<NodeView>, b: Seq<NodeView>| whole == #[trigger] (f + part + b) && rest == f + b;
    assert(front + whole + back =~= (front + f) + part + (b + back));
    assert(front + rest + back =~= (front + f) + (b + back));
}

/// Removal takes one entry with everything below it and nothing else: the entry has
/// the path that was asked for and the size that is reported, and the files that are
/// left are those of the tree without the entry's own, in the same order.
pub proof fn removal_takes_one_entry(n: NodeView, target: Seq<u8>) -> (gone: NodeView)
    requires
        consistent(n),
        without(n, target) is Some,
    ensures
        forest(n.children).contains(gone),
        components(gone.path) == components(target),
        gone.size == freed_of(n, target),
        cut_out(files(n), files(gone), files(rest_of(n, target))),
    decreases n,
{
    let rest = rest_of(n, target);
    let c = n.children;
    let i = child_at(n, target);
    let j = child_towards(n, target);
    assert(n.is_dir);
    if 0 <= i < c.len() {
        let at = |x: NodeView| components(x.path) == components(target);
        lemma_first_where_bounds(c, at);
        lemma_sum_split(c, i);
        lemma_files_of_add(c.take(i), c.skip(i + 1));
        assert(c.remove(i) =~= c.take(i) + c.skip(i + 1));
        let front = files_of(c.take(i));
        let back = files_of(c.skip(i + 1));
        lemma_cut_here(front, files(c[i]), back);
        lemma_in_forest(c, i, c[i]);
        c[i]
    } else {
        assert(consistent(c[j]));
        let gone = removal_takes_one_entry(c[j], target);
        let child = rest_of(c[j], target);
        let d = c.update(j, child);
        lemma_sum_split(c, j);
        lemma_sum_split(d, j);
        assert(d.take(j) =~= c.take(j));
        assert(d.skip(j + 1) =~= c.skip(j + 1));
        lemma_cut_deeper(files_of(c.take(j)), files(c[j]), files(gone), files(child), files_of(c.skip(j + 1)));
        lemma_preorder_member(c[j], gone);
        lemma_in_forest(c, j, gone);
        gone
    }
}

proof fn lemma_below_is_smaller(s: Seq<NodeView>, x: NodeView)
    requires
        forest(s).contains(x),
    ensures
        preorder(x).len() <= forest(s).len(),
    decreases s,
{
    if s.len() > 0 {
        let a = forest(s.drop_last());
        let b = preorder(s.last());
        let k = choose|k: int| 0 <= k < forest(s).len() && forest(s)[k] == x;
        if k < a.len() {
            assert(a[k] == x);
            lemma_below_is_smaller(s.drop_last(), x);
        } else if k == a.len() {
            assert(b[0] == x);
        } else {
            let m = k - a.len() - 1;
            assert(forest(s.last().children)[m] == b[m + 1]);
            lemma_below_is_smaller(s.last().children, x);
        }
    }
}

/// A node is not among the nodes below it.
pub proof fn no_node_is_below_itself(n: NodeView)
    ensures
        !forest(n.children).contains(n),
{
    if forest(n.children).contains(n) {
        lemma_below_is_smaller(n.children, n);
    }
}

/// A search finds every match below the root, as often as it is there, and nothing
/// else; never the root itself; the larger of two results first, and by name where they
/// are equally large; and an empty text finds nothing.
pub proof fn search_finds_exactly_the_matches(root: NodeView, needle: Seq<char>, min_size: u64, x: NodeView)
    ensures
        ({
            let r = sorted_stably(hits(root, needle, min_size), node_le());
            &&& needle.len() == 0 ==> r.len() == 0
            &&& r.contains(x) <==> needle.len() > 0 && forest(root.children).contains(x) && is_hit(
                x,
                unicode_lower(needle),
                min_size,
            )
            &&& needle.len() > 0 && is_hit(x, unicode_lower(needle), min_size) ==> r.to_multiset().count(x) == forest(root.children).to_multiset().count(x)
            &&& !r.contains(root)
            &&& sorted_by(r, node_le())
        }),
{
    broadcast use vstd::seq_lib::group_to_multiset_ensures;

    let h = hits(root, needle, min_size);
    let r = sorted_stably(h, node_le());
    let p = |n: NodeView| is_hit(n, unicode_lower(needle), min_size);
    let all = forest(root.children);
    node_order_is_total();
    stable_sort_exists(h, node_le());
    no_node_is_below_itself(root);
    assert(r.len() == r.to_multiset().len() && h.len() == h.to_multiset().len());
    assert forall|y: NodeView| r.contains(y) <==> h.contains(y) by {
        assert(r.contains(y) <==> r.to_multiset().count(y) > 0);
        assert(h.contains(y) <==> h.to_multiset().count(y) > 0);
    }
    if needle.len() > 0 {
        lemma_filter_count(all, p, x);
        assert forall|y: NodeView| h.contains(y) <==> all.contains(y) && p(y) by {
            if h.contains(y) {
                all.lemma_filter_contains_rev(p, y);
                let k = choose|k: int| 0 <= k < h.len() && h[k] == y;
                all.lemma_filter_pred(p, k);
            }
            if all.contains(y) && p(y) {
                let k = choose|k: int| 0 <= k < all.len() && all[k] == y;
                all.lemma_filter_contains(p, k);
            }
        }
    }
}

/// Raising the floor filters the results: a search with a higher minimum size gives
/// those of the results that are large enough, in the same order.
pub proof fn raising_the_floor_filters_the_results(root: NodeView, needle: Seq<char>, low: u64, high: u64)
    requires
        low <= high,
    ensures
        sorted_stably(hits(root, needle, high), node_le()) == sorted_stably(hits(root, needle, low), node_le()).filter(
            |n: NodeView| n.size >= high,
        ),
{
    let large = |n: NodeView| n.size >= high;
    let h = hits(root, needle, low);
    node_order_is_total();
    sorting_and_filtering_commute(h, large, node_le());
    if needle.len() == 0 {
        reveal(Seq::filter);
        assert(h.filter(large) =~= Seq::<NodeView>::empty());
    } else {
        let lower = unicode_lower(needle);
        lemma_filter_twice(
            forest(root.children),
            |n: NodeView| is_hit(n, lower, low),
            large,
            |n: NodeView| is_hit(n, lower, high),
        );
    }
}

/// Upper and lower case do not matter to a search, neither in what is looked for nor in
/// the names.
pub proof fn search_ignores_case(root: NodeView, a: Seq<char>, b: Seq<char>, min_size: u64, n: NodeView, m: NodeView)
    requires
        unicode_lower(a) == unicode_lower(b),
        a.len() == 0 <==> b.len() == 0,
        unicode_lower(n.name) == unicode_lower(m.name),
        n.size == m.size,
    ensures
        hits(root, a, min_size) == hits(root, b, min_size),
        is_hit(n, unicode_lower(a), min_size) == is_hit(m, unicode_lower(b), min_size),
{
}

} // verus!
