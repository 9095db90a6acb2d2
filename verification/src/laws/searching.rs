//! Searching a tree by name and size.
use vstd::prelude::*;

use crate::laws::orders::equal_nodes_keep_their_order;
use crate::order::views;
use crate::query::{hits, is_hit, matches_search, search, search_finds_exactly_the_matches};
use crate::text::{text_le, unicode_lower};
use crate::tree::{forest, node_le, Node, NodeView};

verus! {

/// A search finds a node below the root, as often as it is there, exactly if the node is
/// large enough and the lowered text stands somewhere in its lowered name, in one piece
/// and at any place of the whole name. An empty text finds nothing. The larger of two
/// results comes first, and by name where they are equally large.
pub proof fn a_search_finds_what_has_the_text_in_its_name(
    root: &Node,
    needle: &str,
    min_size: u64,
    found: Vec<&Node>,
    x: NodeView,
)
    requires
        call_ensures(search, (root, needle, min_size), found),
    ensures
        ({
            let text = unicode_lower(needle@);
            let name = unicode_lower(x.name);
            let matches = x.size >= min_size && exists|i: int|
                0 <= i && i + text.len() <= name.len() && #[trigger] name.subrange(i, i + text.len()) == text;
            &&& needle@.len() == 0 ==> found@.len() == 0
            &&& needle@.len() > 0 ==> (views(found@).contains(x) <==> forest(root@.children).contains(x) && matches)
            &&& needle@.len() > 0 && matches ==> views(found@).to_multiset().count(x) == forest(
                root@.children,
            ).to_multiset().count(x)
        }),
        forall|i: int, j: int|
            0 <= i < j < found@.len() ==> (#[trigger] found@[i])@.size > (#[trigger] found@[j])@.size || (found@[i]@.size
                == found@[j]@.size && text_le(found@[i]@.name, found@[j]@.name)),
{
    let r = views(found@);
    search_finds_exactly_the_matches(root@, needle@, min_size, x);
    assert forall|i: int, j: int| 0 <= i < j < found@.len() implies (#[trigger] found@[i])@.size > (
    #[trigger] found@[j])@.size || (found@[i]@.size == found@[j]@.size && text_le(found@[i]@.name, found@[j]@.name)) by {
        let le = node_le();
        assert(le(r[i], r[j]));
        assert(r[i] == found@[i]@ && r[j] == found@[j]@);
    }
}

/// A name matches exactly if the entry is large enough and the text stands in the name
/// in one piece: put before it and behind it, anything may stand in the name.
pub proof fn a_match_is_the_text_with_anything_around_it(
    name: &str,
    size: u64,
    text: &str,
    min_size: u64,
    found: bool,
    before: Seq<char>,
    behind: Seq<char>,
)
    requires
        call_ensures(matches_search, (name, size, text, min_size), found),
    ensures
        found ==> size >= min_size && exists|a: Seq<char>, b: Seq<char>| name@ == #[trigger] (a + text@ + b),
        size >= min_size && name@ == before + text@ + behind ==> found,
{
    if found {
        let i = choose|i: int|
            0 <= i && i + text@.len() <= name@.len() && #[trigger] name@.subrange(i, i + text@.len()) == text@;
        let a = name@.subrange(0, i);
        let b = name@.subrange(i + text@.len(), name@.len() as int);
        assert(name@ =~= a + text@ + b);
    }
    if size >= min_size && name@ == before + text@ + behind {
        let i = before.len() as int;
        assert(name@.subrange(i, i + text@.len()) =~= text@);
    }
}

/// Results of the same size and the same name stand in the order of the tree.
pub proof fn equal_results_stand_as_in_the_tree(
    root: &Node,
    needle: &str,
    min_size: u64,
    found: Vec<&Node>,
    x: NodeView,
)
    requires
        needle@.len() > 0,
        call_ensures(search, (root, needle, min_size), found),
    ensures
        ({
            let text = unicode_lower(needle@);
            let same = |n: NodeView| n.size == x.size && n.name == x.name;
            let matches = |n: NodeView|
                n.size >= min_size && exists|i: int|
                    0 <= i && i + text.len() <= unicode_lower(n.name).len() && #[trigger] unicode_lower(n.name).subrange(
                        i,
                        i + text.len(),
                    ) == text;
            views(found@).filter(same) == forest(root@.children).filter(matches).filter(same)
        }),
{
    let text = unicode_lower(needle@);
    let matches = |n: NodeView|
        n.size >= min_size && exists|i: int|
            0 <= i && i + text.len() <= unicode_lower(n.name).len() && #[trigger] unicode_lower(n.name).subrange(
                i,
                i + text.len(),
            ) == text;
    assert((|n: NodeView| is_hit(n, text, min_size)) =~= matches);
    equal_nodes_keep_their_order(hits(root@, needle@, min_size), x);
}

} // verus!
