//! Comparing, and sorting by what is compared.
use vstd::prelude::*;
use vstd::utf8::{encode_utf8, encode_utf8_decode_utf8};

use crate::order::{
    alike, byte_lt, byte_order_is_total, compare_bytes, lemma_lex_antisymmetric, lemma_lex_skip, lex_le,
    sorted_stably, stable_sort_exists,
};
use crate::text::{compare_text, same_bytes, same_text, text_le};
use crate::tree::{node_le, node_order_is_total, NodeView};

verus! {

/// In lexicographic order a sequence stands before those that it opens, and before those
/// that hold something greater at the first place where the two differ.
pub proof fn the_first_difference_decides<T>(a: Seq<T>, b: Seq<T>, lt: spec_fn(T, T) -> bool)
    ensures
        a.is_prefix_of(b) ==> lex_le(a, b, lt),
        b.is_prefix_of(a) && a != b ==> !lex_le(a, b, lt),
        forall|k: int|
            0 <= k < a.len() && k < b.len() && #[trigger] a.take(k) == b.take(k) && a[k] != b[k] ==> (lex_le(a, b, lt) <==> lt(
                a[k],
                b[k],
            )),
{
    if a.is_prefix_of(b) {
        assert(a.take(a.len() as int) =~= b.take(a.len() as int));
        lemma_lex_skip(a, b, lt, a.len() as int);
    }
    if b.is_prefix_of(a) && a != b {
        assert(b.take(b.len() as int) =~= a.take(b.len() as int));
        lemma_lex_skip(a, b, lt, b.len() as int);
        if a.len() == b.len() {
            assert(a =~= b);
        }
    }
    assert forall|k: int|
        0 <= k < a.len() && k < b.len() && #[trigger] a.take(k) == b.take(k) && a[k] != b[k] implies (lex_le(a, b, lt) <==> lt(
        a[k],
        b[k],
    )) by {
        lemma_lex_skip(a, b, lt, k);
        assert(a.skip(k)[0] == a[k] && b.skip(k)[0] == b[k]);
    }
}

/// Byte strings are compared by the first byte in which they differ; one that opens the
/// other stands before it.
pub proof fn bytes_are_compared_by_value(a: &[u8], b: &[u8], le: bool)
    requires
        call_ensures(compare_bytes, (a, b), le),
    ensures
        a@.is_prefix_of(b@) ==> le,
        b@.is_prefix_of(a@) && a@ != b@ ==> !le,
        forall|k: int|
            0 <= k < a@.len() && k < b@.len() && #[trigger] a@.take(k) == b@.take(k) && a@[k] != b@[k] ==> (le <==> a@[k] < b@[k]),
{
    the_first_difference_decides(a@, b@, byte_lt());
}

/// Texts are compared by the bytes of their UTF-8 encoding.
pub proof fn texts_are_compared_by_their_bytes(a: &str, b: &str, le: bool)
    requires
        call_ensures(compare_text, (a, b), le),
    ensures
        ({
            let x = encode_utf8(a@);
            let y = encode_utf8(b@);
            &&& x.is_prefix_of(y) ==> le
            &&& y.is_prefix_of(x) && x != y ==> !le
            &&& forall|k: int|
                0 <= k < x.len() && k < y.len() && #[trigger] x.take(k) == y.take(k) && x[k] != y[k] ==> (le <==> x[k] < y[k])
        }),
{
    the_first_difference_decides(encode_utf8(a@), encode_utf8(b@), byte_lt());
}

/// Texts are the same, and so are byte strings, if every place of them is.
pub proof fn sameness_is_place_by_place(a: &str, b: &str, same: bool, x: &[u8], y: &[u8], alike: bool)
    requires
        call_ensures(same_text, (a, b), same),
        call_ensures(same_bytes, (x, y), alike),
    ensures
        same <==> a@.len() == b@.len() && forall|i: int| 0 <= i < a@.len() ==> #[trigger] a@[i] == b@[i],
        alike <==> x@.len() == y@.len() && forall|i: int| 0 <= i < x@.len() ==> #[trigger] x@[i] == y@[i],
{
    if a@.len() == b@.len() && forall|i: int| 0 <= i < a@.len() ==> #[trigger] a@[i] == b@[i] {
        assert(a@ =~= b@);
    }
    if x@.len() == y@.len() && forall|i: int| 0 <= i < x@.len() ==> #[trigger] x@[i] == y@[i] {
        assert(x@ =~= y@);
    }
}

/// Sorting keeps all the values, each as often as it was there; puts none before one that
/// has to stand before it; and leaves values that are alike in the order they had.
pub proof fn sorting_only_moves<T>(s: Seq<T>, le: spec_fn(T, T) -> bool, e: T)
    requires
        forall|a: T, b: T| #[trigger] le(a, b) || le(b, a),
        forall|a: T, b: T, c: T| #[trigger] le(a, b) && #[trigger] le(b, c) ==> le(a, c),
    ensures
        sorted_stably(s, le).to_multiset() == s.to_multiset(),
        sorted_stably(s, le).len() == s.len(),
        forall|i: int, j: int| 0 <= i < j < s.len() ==> #[trigger] le(sorted_stably(s, le)[i], sorted_stably(s, le)[j]),
        sorted_stably(s, le).filter(|x: T| le(x, e) && le(e, x)) == s.filter(|x: T| le(x, e) && le(e, x)),
{
    broadcast use vstd::seq_lib::group_to_multiset_ensures;

    stable_sort_exists(s, le);
    let r = sorted_stably(s, le);
    assert(r.to_multiset().len() == r.len());
    assert(s.to_multiset().len() == s.len());
    assert(alike(le, e) =~= (|x: T| le(x, e) && le(e, x)));
    assert(r.filter(alike(le, e)) == s.filter(alike(le, e)));
}

/// Texts that stand before each other are the same.
pub proof fn texts_are_told_apart(a: Seq<char>, b: Seq<char>)
    ensures
        text_le(a, b) && text_le(b, a) <==> a == b,
{
    byte_order_is_total();
    the_first_difference_decides(encode_utf8(a), encode_utf8(a), byte_lt());
    if text_le(a, b) && text_le(b, a) {
        lemma_lex_antisymmetric(encode_utf8(a), encode_utf8(b), byte_lt());
        encode_utf8_decode_utf8(a);
        encode_utf8_decode_utf8(b);
    }
}

/// Nodes with the same size and the same name keep the order that they had before they were
/// sorted.
pub proof fn equal_nodes_keep_their_order(s: Seq<NodeView>, x: NodeView)
    ensures
        sorted_stably(s, node_le()).filter(|n: NodeView| n.size == x.size && n.name == x.name) == s.filter(
            |n: NodeView| n.size == x.size && n.name == x.name,
        ),
{
    let le = node_le();
    let same = |n: NodeView| n.size == x.size && n.name == x.name;
    node_order_is_total();
    sorting_only_moves(s, le, x);
    let p = |n: NodeView| le(n, x) && le(x, n);
    assert forall|n: NodeView| #[trigger] p(n) == same(n) by {
        texts_are_told_apart(n.name, x.name);
    }
    assert(p =~= same);
}

} // verus!
