//! Lists in any order: what mapping and joining them keeps.
use vstd::prelude::*;

verus! {

/// One value more or less, wherever it stands.
proof fn lemma_take_out<T>(a: Seq<T>, b: Seq<T>) -> (k: int)
    requires
        a.len() > 0,
        a.to_multiset() == b.to_multiset(),
    ensures
        0 <= k < b.len(),
        b[k] == a.last(),
        a.drop_last().to_multiset() == b.remove(k).to_multiset(),
        b == b.take(k).push(a.last()) + b.skip(k + 1),
        b.remove(k) == b.take(k) + b.skip(k + 1),
{
    broadcast use vstd::seq_lib::group_to_multiset_ensures;

    let x = a.last();
    assert(a =~= a.drop_last().push(x));
    assert(a.contains(x));
    assert(a.to_multiset().count(x) > 0);
    assert(b.contains(x));
    let k = choose|k: int| 0 <= k < b.len() && b[k] == x;
    assert(a.drop_last().to_multiset() =~= b.remove(k).to_multiset());
    assert(b =~= b.take(k).push(x) + b.skip(k + 1));
    assert(b.remove(k) =~= b.take(k) + b.skip(k + 1));
    k
}

/// The same values in another order are as many.
pub proof fn lemma_permutation_len<T>(a: Seq<T>, b: Seq<T>)
    requires
        a.to_multiset() == b.to_multiset(),
    ensures
        a.len() == b.len(),
        forall|x: T| a.contains(x) <==> b.contains(x),
{
    broadcast use vstd::seq_lib::group_to_multiset_ensures;

    assert(a.len() == a.to_multiset().len() && b.len() == b.to_multiset().len());
    assert forall|x: T| a.contains(x) <==> b.contains(x) by {
        assert(a.contains(x) <==> a.to_multiset().count(x) > 0);
        assert(b.contains(x) <==> b.to_multiset().count(x) > 0);
    }
}

/// Mapping the same values in another order gives the same results in another order.
pub proof fn lemma_map_permutation<T, U>(a: Seq<T>, b: Seq<T>, f: spec_fn(T) -> U)
    requires
        a.to_multiset() == b.to_multiset(),
    ensures
        a.map_values(f).to_multiset() == b.map_values(f).to_multiset(),
    decreases a.len(),
{
    broadcast use vstd::seq_lib::group_to_multiset_ensures;

    lemma_permutation_len(a, b);
    if a.len() == 0 {
        assert(a.map_values(f) =~= b.map_values(f));
    } else {
        let k = lemma_take_out(a, b);
        let front = a.drop_last();
        let rest = b.remove(k);
        lemma_map_permutation(front, rest, f);
        let x = f(a.last());
        assert(a.map_values(f) =~= front.map_values(f).push(x));
        let l = b.take(k).map_values(f);
        let r = b.skip(k + 1).map_values(f);
        assert(b.map_values(f) =~= l.push(x) + r);
        assert(rest.map_values(f) =~= l + r);
        vstd::seq_lib::lemma_multiset_commutative(l.push(x), r);
        vstd::seq_lib::lemma_multiset_commutative(l, r);
        assert(a.map_values(f).to_multiset() =~= b.map_values(f).to_multiset());
    }
}

/// Joining two lists of lists joins what they hold.
pub proof fn lemma_flatten_push<T>(a: Seq<Seq<T>>, x: Seq<T>)
    ensures
        a.push(x).flatten() == a.flatten() + x,
{
    a.lemma_flatten_push(x);
}

/// Joining the same lists in another order gives the same values in another order.
pub proof fn lemma_flatten_permutation<T>(a: Seq<Seq<T>>, b: Seq<Seq<T>>)
    requires
        a.to_multiset() == b.to_multiset(),
    ensures
        a.flatten().to_multiset() == b.flatten().to_multiset(),
    decreases a.len(),
{
    broadcast use vstd::seq_lib::group_to_multiset_ensures;

    lemma_permutation_len(a, b);
    if a.len() == 0 {
        assert(a =~= b);
    } else {
        let k = lemma_take_out(a, b);
        let front = a.drop_last();
        let x = a.last();
        lemma_flatten_permutation(front, b.remove(k));
        let l = b.take(k);
        let r = b.skip(k + 1);
        assert(a =~= front.push(x));
        lemma_flatten_push(front, x);
        lemma_flatten_push(l, x);
        vstd::seq_lib::lemma_flatten_concat(l.push(x), r);
        vstd::seq_lib::lemma_flatten_concat(l, r);
        vstd::seq_lib::lemma_multiset_commutative(front.flatten(), x);
        vstd::seq_lib::lemma_multiset_commutative(l.flatten(), x);
        vstd::seq_lib::lemma_multiset_commutative(l.flatten() + x, r.flatten());
        vstd::seq_lib::lemma_multiset_commutative(l.flatten(), r.flatten());
        assert(a.flatten().to_multiset() =~= b.flatten().to_multiset());
    }
}

/// A filter of joined lists joins the filtered lists.
pub proof fn lemma_flatten_filter<T>(a: Seq<Seq<T>>, p: spec_fn(T) -> bool)
    ensures
        a.flatten().filter(p) == a.map_values(|s: Seq<T>| s.filter(p)).flatten(),
    decreases a.len(),
{
    let f = |s: Seq<T>| s.filter(p);
    reveal(Seq::filter);
    if a.len() == 0 {
        assert(a.flatten() =~= Seq::<T>::empty());
        assert(a.map_values(f).flatten() =~= Seq::<T>::empty());
    } else {
        let front = a.drop_last();
        lemma_flatten_filter(front, p);
        assert(a =~= front.push(a.last()));
        lemma_flatten_push(front, a.last());
        assert(a.map_values(f) =~= front.map_values(f).push(f(a.last())));
        lemma_flatten_push(front.map_values(f), f(a.last()));
        Seq::filter_distributes_over_add(front.flatten(), a.last(), p);
    }
}

/// What joined lists hold, one of them holds.
pub proof fn lemma_flatten_contains<T>(a: Seq<Seq<T>>, x: T)
    ensures
        a.flatten().contains(x) <==> exists|i: int| 0 <= i < a.len() && (#[trigger] a[i]).contains(x),
    decreases a.len(),
{
    if a.len() > 0 {
        let front = a.drop_last();
        let f = front.flatten();
        let l = a.last();
        lemma_flatten_contains(front, x);
        assert(a =~= front.push(l));
        lemma_flatten_push(front, l);
        if a.flatten().contains(x) {
            let k = choose|k: int| 0 <= k < a.flatten().len() && a.flatten()[k] == x;
            if k < f.len() {
                assert(f[k] == x);
                let i = choose|i: int| 0 <= i < front.len() && (#[trigger] front[i]).contains(x);
                assert(a[i] == front[i]);
            } else {
                assert(l[k - f.len()] == x);
                assert(a[a.len() - 1].contains(x));
            }
        }
        if exists|i: int| 0 <= i < a.len() && (#[trigger] a[i]).contains(x) {
            let i = choose|i: int| 0 <= i < a.len() && (#[trigger] a[i]).contains(x);
            if i < front.len() {
                assert(front[i].contains(x));
                let k = choose|k: int| 0 <= k < f.len() && f[k] == x;
                assert(a.flatten()[k] == x);
            } else {
                let k = choose|k: int| 0 <= k < l.len() && l[k] == x;
                assert(a.flatten()[f.len() + k] == x);
            }
        }
    } else {
        assert(a.flatten() =~= Seq::<T>::empty());
    }
}

} // verus!
