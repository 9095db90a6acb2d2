//! Orders: lexicographic comparison of sequences, and a stable merge sort.
use vstd::prelude::*;

verus! {

/// `lt` is a strict total order: irreflexive, transitive, and any two distinct
/// values are comparable.
pub open spec fn strict_total_order<T>(lt: spec_fn(T, T) -> bool) -> bool {
    &&& forall|a: T| !#[trigger] lt(a, a)
    &&& forall|a: T, b: T, c: T| #[trigger] lt(a, b) && #[trigger] lt(b, c) ==> lt(a, c)
    &&& forall|a: T, b: T| a == b || #[trigger] lt(a, b) || lt(b, a)
}

/// Lexicographic order: `a` runs out first, or is the smaller one at the first
/// place where the two differ.
pub open spec fn lex_le<T>(a: Seq<T>, b: Seq<T>, lt: spec_fn(T, T) -> bool) -> bool
    decreases a.len(),
{
    if a.len() == 0 {
        true
    } else if b.len() == 0 {
        false
    } else if a[0] == b[0] {
        lex_le(a.drop_first(), b.drop_first(), lt)
    } else {
        lt(a[0], b[0])
    }
}

pub proof fn lemma_lex_total<T>(a: Seq<T>, b: Seq<T>, lt: spec_fn(T, T) -> bool)
    requires
        strict_total_order(lt),
    ensures
        lex_le(a, b, lt) || lex_le(b, a, lt),
    decreases a.len(),
{
    if a.len() > 0 && b.len() > 0 {
        if a[0] == b[0] {
            lemma_lex_total(a.drop_first(), b.drop_first(), lt);
        } else {
            assert(lt(a[0], b[0]) || lt(b[0], a[0]));
        }
    }
}

pub proof fn lemma_lex_transitive<T>(a: Seq<T>, b: Seq<T>, c: Seq<T>, lt: spec_fn(T, T) -> bool)
    requires
        strict_total_order(lt),
        lex_le(a, b, lt),
        lex_le(b, c, lt),
    ensures
        lex_le(a, c, lt),
    decreases a.len(),
{
    if a.len() > 0 {
        assert(b.len() > 0 && c.len() > 0);
        if a[0] == b[0] && b[0] == c[0] {
            lemma_lex_transitive(a.drop_first(), b.drop_first(), c.drop_first(), lt);
        } else if a[0] != b[0] && b[0] != c[0] {
            assert(lt(a[0], b[0]) && lt(b[0], c[0]));
            assert(lt(a[0], c[0]));
            assert(!lt(a[0], a[0]));
        }
    }
}

pub proof fn lemma_lex_antisymmetric<T>(a: Seq<T>, b: Seq<T>, lt: spec_fn(T, T) -> bool)
    requires
        strict_total_order(lt),
        lex_le(a, b, lt),
        lex_le(b, a, lt),
    ensures
        a == b,
    decreases a.len(),
{
    if a.len() > 0 && b.len() > 0 {
        if a[0] != b[0] {
            assert(lt(a[0], b[0]) && lt(b[0], a[0]));
            assert(lt(a[0], a[0]));
        }
        lemma_lex_antisymmetric(a.drop_first(), b.drop_first(), lt);
        assert(a == seq![a[0]] + a.drop_first());
        assert(b == seq![b[0]] + b.drop_first());
    }
    assert(a =~= b);
}

/// Dropping a shared front leaves the comparison as it was.
pub proof fn lemma_lex_skip<T>(a: Seq<T>, b: Seq<T>, lt: spec_fn(T, T) -> bool, n: int)
    requires
        0 <= n <= a.len(),
        n <= b.len(),
        a.take(n) == b.take(n),
    ensures
        lex_le(a, b, lt) == lex_le(a.skip(n), b.skip(n), lt),
    decreases n,
{
    if n == 0 {
        assert(a.skip(0) == a && b.skip(0) == b);
    } else {
        assert(a.take(n)[0] == a[0] && b.take(n)[0] == b[0]);
        let a1 = a.drop_first();
        let b1 = b.drop_first();
        assert(a1.take(n - 1) == a.take(n).drop_first());
        assert(b1.take(n - 1) == b.take(n).drop_first());
        lemma_lex_skip(a1, b1, lt, n - 1);
        assert(a1.skip(n - 1) == a.skip(n));
        assert(b1.skip(n - 1) == b.skip(n));
    }
}

/// The order of bytes by value.
pub open spec fn byte_lt() -> spec_fn(u8, u8) -> bool {
    |a: u8, b: u8| a < b
}

/// The order of bytes is a strict total order.
pub proof fn byte_order_is_total()
    ensures
        strict_total_order(byte_lt()),
{
}

/// Byte strings in lexicographic order.
pub open spec fn bytes_le(a: Seq<u8>, b: Seq<u8>) -> bool {
    lex_le(a, b, byte_lt())
}

/// Whether `a` comes before `b`, or is `b`, in the order of byte strings.
pub fn compare_bytes(a: &[u8], b: &[u8]) -> (le: bool)
    ensures
        le == bytes_le(a@, b@),
{
    let mut i: usize = 0;
    while i < a.len()
        invariant
            i <= a@.len(),
            i <= b@.len(),
            a@.take(i as int) == b@.take(i as int),
        decreases a@.len() - i,
    {
        proof {
            lemma_lex_skip(a@, b@, byte_lt(), i as int);
        }
        if i >= b.len() {
            return false;
        }
        if a[i] != b[i] {
            return a[i] < b[i];
        }
        proof {
            assert(a@.take(i + 1) == a@.take(i as int).push(a@[i as int]));
            assert(b@.take(i + 1) == b@.take(i as int).push(b@[i as int]));
        }
        i += 1;
    }
    proof {
        lemma_lex_skip(a@, b@, byte_lt(), i as int);
    }
    true
}

/// `s` is in the order `le`: what stands earlier may stand before what stands later.
pub open spec fn sorted_by<T>(s: Seq<T>, le: spec_fn(T, T) -> bool) -> bool {
    forall|i: int, j: int| 0 <= i <= j < s.len() ==> #[trigger] le(s[i], s[j])
}

/// The values that `le` does not tell apart from `e`.
pub open spec fn alike<T>(le: spec_fn(T, T) -> bool, e: T) -> spec_fn(T) -> bool {
    |x: T| le(x, e) && le(e, x)
}

/// `r` is `s` sorted stably: the same values, in the order `le`, and values that
/// `le` does not tell apart keep the order that they have in `s`.
pub open spec fn stably_sorted<T>(r: Seq<T>, s: Seq<T>, le: spec_fn(T, T) -> bool) -> bool {
    &&& sorted_by(r, le)
    &&& r.to_multiset() == s.to_multiset()
    &&& forall|e: T| #[trigger] r.filter(alike(le, e)) == s.filter(alike(le, e))
}

/// Any two values are comparable, and the comparison is transitive.
pub open spec fn total_preorder<T>(le: spec_fn(T, T) -> bool) -> bool {
    &&& forall|a: T, b: T| #[trigger] le(a, b) || le(b, a)
    &&& forall|a: T, b: T, c: T| #[trigger] le(a, b) && #[trigger] le(b, c) ==> le(a, c)
}

/// The models of a sequence of values.
pub open spec fn views<T: View>(s: Seq<T>) -> Seq<T::V> {
    s.map_values(|x: T| x@)
}

/// A type with an order for lists of it.
pub trait Ranked: View + Sized {
    /// The order, over the models of the values.
    spec fn rank_le() -> spec_fn(Self::V, Self::V) -> bool;

    proof fn rank_is_total()
        ensures
            total_preorder(Self::rank_le()),
    ;

    /// Whether this value may stand before the other one.
    fn may_precede(&self, other: &Self) -> (le: bool)
        ensures
            le == Self::rank_le()(self@, other@),
    ;
}

proof fn lemma_filter_push<T>(s: Seq<T>, x: T, p: spec_fn(T) -> bool)
    ensures
        s.push(x).filter(p) == (if p(x) {
            s.filter(p).push(x)
        } else {
            s.filter(p)
        }),
{
    reveal(Seq::filter);
    assert(s.push(x).drop_last() == s);
}

proof fn lemma_filter_none<T>(s: Seq<T>, p: spec_fn(T) -> bool)
    requires
        forall|i: int| 0 <= i < s.len() ==> !p(#[trigger] s[i]),
    ensures
        s.filter(p) == Seq::<T>::empty(),
    decreases s.len(),
{
    reveal(Seq::filter);
    if s.len() > 0 {
        lemma_filter_none(s.drop_last(), p);
        assert(!p(s[s.len() - 1]));
    }
}

/// One step of a merge: `x` leaves the end of `a` or `b` and goes to the front of
/// what is merged already. Every class of alike values, and the values as a whole,
/// stay what they were when the three are put together.
proof fn lemma_merge_step<T>(
    a: Seq<T>,
    b: Seq<T>,
    a2: Seq<T>,
    b2: Seq<T>,
    x: T,
    out: Seq<T>,
    le: spec_fn(T, T) -> bool,
)
    requires
        total_preorder(le),
        sorted_by(b, le),
        ({
            ||| a == a2.push(x) && b == b2 && (b.len() > 0 ==> !le(x, b.last()))
            ||| a == a2 && b == b2.push(x)
        }),
    ensures
        forall|e: T|
            (#[trigger] a2.filter(alike(le, e))) + b2.filter(alike(le, e)) + (seq![x] + out).filter(alike(le, e))
                == a.filter(alike(le, e)) + b.filter(alike(le, e)) + out.filter(alike(le, e)),
        a2.to_multiset().add(b2.to_multiset()).add((seq![x] + out).to_multiset())
            == a.to_multiset().add(b.to_multiset()).add(out.to_multiset()),
{
    broadcast use vstd::seq_lib::group_to_multiset_ensures;

    vstd::seq_lib::lemma_multiset_commutative(seq![x], out);
    assert(Seq::<T>::empty().push(x) == seq![x]);
    assert(a2.to_multiset().add(b2.to_multiset()).add((seq![x] + out).to_multiset())
        =~= a.to_multiset().add(b.to_multiset()).add(out.to_multiset()));
    assert forall|e: T|
        (#[trigger] a2.filter(alike(le, e))) + b2.filter(alike(le, e)) + (seq![x] + out).filter(alike(le, e))
            == a.filter(alike(le, e)) + b.filter(alike(le, e)) + out.filter(alike(le, e)) by {
        let p = alike(le, e);
        Seq::filter_distributes_over_add(seq![x], out, p);
        lemma_filter_push(Seq::<T>::empty(), x, p);
        lemma_filter_none(Seq::<T>::empty(), p);
        if a == a2.push(x) && b == b2 && (b.len() > 0 ==> !le(x, b.last())) {
            lemma_filter_push(a2, x, p);
            if p(x) {
                assert forall|i: int| 0 <= i < b.len() implies !p(#[trigger] b[i]) by {
                    assert(le(b[i], b[b.len() - 1]));
                    if le(e, b[i]) {
                        assert(le(e, b.last()));
                        assert(le(x, e));
                        assert(le(x, b.last()));
                    }
                }
                lemma_filter_none(b, p);
            }
        } else {
            lemma_filter_push(b2, x, p);
        }
        assert(a2.filter(p) + b2.filter(p) + (seq![x] + out).filter(p)
            =~= a.filter(p) + b.filter(p) + out.filter(p));
    }
}

/// Reads a list from its end.
fn reversed<T: View>(mut v: Vec<T>) -> (r: Vec<T>)
    ensures
        views(r@) == views(v@).reverse(),
{
    let ghost whole = v@;
    let mut r: Vec<T> = Vec::new();
    while v.len() > 0
        invariant
            v@.len() <= whole.len(),
            v@ == whole.take(v@.len() as int),
            r@ == whole.skip(v@.len() as int).reverse(),
        decreases v@.len(),
    {
        let ghost n = v@.len();
        if let Some(x) = v.pop() {
            assert(x == whole[n - 1]);
            assert(v@ == whole.take(n - 1));
            assert(whole.skip(n - 1).reverse() == whole.skip(n as int).reverse().push(x));
            r.push(x);
        }
    }
    assert(whole.skip(0) == whole);
    assert(views(r@) == views(whole).reverse());
    r
}

/// Merges two sorted lists; of alike values those of `left` come first.
fn merge<T: Ranked>(mut left: Vec<T>, mut right: Vec<T>) -> (r: Vec<T>)
    requires
        sorted_by(views(left@), T::rank_le()),
        sorted_by(views(right@), T::rank_le()),
    ensures
        stably_sorted(views(r@), views(left@) + views(right@), T::rank_le()),
{
    let ghost le = T::rank_le();
    let ghost a0 = views(left@);
    let ghost b0 = views(right@);
    let mut out: Vec<T> = Vec::new();
    let ghost mut merged: Seq<T::V> = Seq::empty();
    proof {
        T::rank_is_total();
        broadcast use vstd::seq_lib::group_to_multiset_ensures;

        assert forall|e: T::V| #[trigger] a0.filter(alike(le, e)) + b0.filter(alike(le, e)) + merged.filter(alike(le, e))
            == a0.filter(alike(le, e)) + b0.filter(alike(le, e)) by {
            lemma_filter_none(merged, alike(le, e));
            assert(a0.filter(alike(le, e)) + b0.filter(alike(le, e)) + merged.filter(alike(le, e))
                =~= a0.filter(alike(le, e)) + b0.filter(alike(le, e)));
        }
        assert(a0.to_multiset().add(b0.to_multiset()).add(merged.to_multiset())
            =~= a0.to_multiset().add(b0.to_multiset()));
    }
    while left.len() > 0 || right.len() > 0
        invariant
            le == T::rank_le(),
            total_preorder(le),
            sorted_by(views(left@), le),
            sorted_by(views(right@), le),
            sorted_by(merged, le),
            merged == views(out@).reverse(),
            forall|i: int, j: int|
                0 <= i < left@.len() && 0 <= j < merged.len() ==> #[trigger] le(views(left@)[i], merged[j]),
            forall|i: int, j: int|
                0 <= i < right@.len() && 0 <= j < merged.len() ==> #[trigger] le(views(right@)[i], merged[j]),
            forall|e: T::V|
                (#[trigger] views(left@).filter(alike(le, e))) + views(right@).filter(alike(le, e)) + merged.filter(alike(le, e))
                    == a0.filter(alike(le, e)) + b0.filter(alike(le, e)),
            views(left@).to_multiset().add(views(right@).to_multiset()).add(merged.to_multiset())
                == a0.to_multiset().add(b0.to_multiset()),
        decreases left@.len() + right@.len(),
    {
        let from_left: bool = if left.len() == 0 {
            false
        } else if right.len() == 0 {
            true
        } else {
            !left[left.len() - 1].may_precede(&right[right.len() - 1])
        };
        let ghost a = views(left@);
        let ghost b = views(right@);
        let taken = if from_left {
            left.pop()
        } else {
            right.pop()
        };
        if let Some(x) = taken {
            proof {
                if from_left {
                    assert(views(left@) == a.drop_last());
                    assert(x@ == a.last());
                    if b.len() > 0 {
                        assert(le(b.last(), a.last()));
                    }
                } else {
                    assert(views(right@) == b.drop_last());
                    assert(x@ == b.last());
                }
                let next = seq![x@] + merged;
                assert(views(out@.push(x)).reverse() == next);
                assert forall|i: int, j: int| 0 <= i <= j < next.len() implies #[trigger] le(next[i], next[j]) by {
                    assert(le(x@, x@));
                    if j > 0 {
                        assert(next[j] == merged[j - 1]);
                        if i == 0 {
                            if from_left {
                                assert(le(a[a.len() - 1], merged[j - 1]));
                            } else {
                                assert(le(b[b.len() - 1], merged[j - 1]));
                            }
                        } else {
                            assert(next[i] == merged[i - 1]);
                        }
                    }
                }
                assert forall|i: int, j: int| 0 <= i < left@.len() && 0 <= j < next.len() implies
                    #[trigger] le(views(left@)[i], next[j]) by {
                    assert(views(left@)[i] == a[i]);
                    assert(le(a[i], a[a.len() - 1]));
                    if j > 0 {
                        assert(le(a[i], merged[j - 1]));
                    }
                }
                assert forall|i: int, j: int| 0 <= i < right@.len() && 0 <= j < next.len() implies
                    #[trigger] le(views(right@)[i], next[j]) by {
                    assert(views(right@)[i] == b[i]);
                    assert(le(b[i], b[b.len() - 1]));
                    if j > 0 {
                        assert(le(b[i], merged[j - 1]));
                    }
                }
                assert forall|i: int, j: int| 0 <= i <= j < views(left@).len() implies
                    #[trigger] le(views(left@)[i], views(left@)[j]) by {
                    assert(le(a[i], a[j]));
                }
                assert forall|i: int, j: int| 0 <= i <= j < views(right@).len() implies
                    #[trigger] le(views(right@)[i], views(right@)[j]) by {
                    assert(le(b[i], b[j]));
                }
                let a2 = views(left@);
                let b2 = views(right@);
                if from_left {
                    assert(a == a2.push(x@));
                } else {
                    assert(b == b2.push(x@));
                }
                lemma_merge_step(a, b, a2, b2, x@, merged, le);
                assert forall|e: T::V| (#[trigger] a2.filter(alike(le, e))) + b2.filter(alike(le, e)) + next.filter(alike(le, e))
                    == a0.filter(alike(le, e)) + b0.filter(alike(le, e)) by {
                    let p = alike(le, e);
                    assert(a.filter(p) + b.filter(p) + merged.filter(p) == a0.filter(p) + b0.filter(p));
                    assert(a2.filter(p) + b2.filter(p) + next.filter(p) == a.filter(p) + b.filter(p) + merged.filter(p));
                }
                merged = next;
            }
            out.push(x);
        }
    }
    proof {
        broadcast use vstd::seq_lib::group_to_multiset_ensures;

        assert(views(left@) == Seq::<T::V>::empty());
        assert(views(right@) == Seq::<T::V>::empty());
        assert forall|e: T::V| #[trigger] merged.filter(alike(le, e)) == (a0 + b0).filter(alike(le, e)) by {
            let p = alike(le, e);
            Seq::filter_distributes_over_add(a0, b0, p);
            lemma_filter_none(Seq::<T::V>::empty(), p);
            assert(views(left@).filter(p) + views(right@).filter(p) + merged.filter(p) == a0.filter(p) + b0.filter(p));
            assert(views(left@).filter(p) + views(right@).filter(p) + merged.filter(p) =~= merged.filter(p));
        }
        vstd::seq_lib::lemma_multiset_commutative(a0, b0);
        assert(merged.to_multiset() =~= (a0 + b0).to_multiset());
    }
    reversed(out)
}

/// Sorts a list, keeping the order of values that the type's order does not tell
/// apart.
pub fn merge_sort<T: Ranked>(v: Vec<T>) -> (r: Vec<T>)
    ensures
        views(r@) == sorted_stably(views(v@), T::rank_le()),
        stably_sorted(views(r@), views(v@), T::rank_le()),
{
    let r = sort_by_halves(v);
    proof {
        T::rank_is_total();
        lemma_sorted_stably(views(r@), views(v@), T::rank_le());
    }
    r
}

fn sort_by_halves<T: Ranked>(mut v: Vec<T>) -> (r: Vec<T>)
    ensures
        stably_sorted(views(r@), views(v@), T::rank_le()),
    decreases v@.len(),
{
    let ghost le = T::rank_le();
    let ghost s = views(v@);
    proof {
        T::rank_is_total();
    }
    if v.len() <= 1 {
        assert(s.len() == 1 ==> le(s[0], s[0]));
        return v;
    }
    let half: usize = v.len() / 2;
    let tail = v.split_off(half);
    let ghost s1 = views(v@);
    let ghost s2 = views(tail@);
    assert(s == s1 + s2);
    let left = sort_by_halves(v);
    let right = sort_by_halves(tail);
    let r = merge(left, right);
    proof {
        let m1 = views(left@);
        let m2 = views(right@);
        vstd::seq_lib::lemma_multiset_commutative(m1, m2);
        vstd::seq_lib::lemma_multiset_commutative(s1, s2);
        assert forall|e: T::V| #[trigger] views(r@).filter(alike(le, e)) == s.filter(alike(le, e)) by {
            let p = alike(le, e);
            Seq::filter_distributes_over_add(m1, m2, p);
            Seq::filter_distributes_over_add(s1, s2, p);
            assert(m1.filter(p) == s1.filter(p));
            assert(m2.filter(p) == s2.filter(p));
        }
    }
    r
}

proof fn lemma_filter_front<T>(s: Seq<T>, p: spec_fn(T) -> bool)
    requires
        s.len() > 0,
    ensures
        s.filter(p) == (if p(s[0]) {
            seq![s[0]] + s.drop_first().filter(p)
        } else {
            s.drop_first().filter(p)
        }),
{
    let head = seq![s[0]];
    assert(s == head + s.drop_first());
    Seq::filter_distributes_over_add(head, s.drop_first(), p);
    lemma_filter_push(Seq::<T>::empty(), s[0], p);
    lemma_filter_none(Seq::<T>::empty(), p);
    assert(Seq::<T>::empty().push(s[0]) == head);
    assert(s.filter(p) =~= (if p(s[0]) {
        seq![s[0]] + s.drop_first().filter(p)
    } else {
        s.drop_first().filter(p)
    }));
}

/// What a filter keeps was there before.
proof fn lemma_filter_holds<T>(s: Seq<T>, p: spec_fn(T) -> bool, x: T)
    requires
        s.filter(p).contains(x),
    ensures
        s.contains(x) && p(x),
{
    s.lemma_filter_contains_rev(p, x);
    let i = choose|i: int| 0 <= i < s.filter(p).len() && s.filter(p)[i] == x;
    s.lemma_filter_pred(p, i);
}

proof fn lemma_same_first<T>(a: Seq<T>, b: Seq<T>, le: spec_fn(T, T) -> bool)
    requires
        total_preorder(le),
        sorted_by(b, le),
        a.len() > 0,
        forall|e: T| #[trigger] a.filter(alike(le, e)) == b.filter(alike(le, e)),
    ensures
        b.len() > 0,
        le(b[0], a[0]),
{
    let e = a[0];
    let p = alike(le, e);
    assert(le(e, e));
    lemma_filter_front(a, p);
    assert(a.filter(p)[0] == e);
    assert(b.filter(p).contains(e)) by {
        assert(a.filter(p) == b.filter(p));
        assert(b.filter(p)[0] == e);
    }
    lemma_filter_holds(b, p, e);
    let k = choose|k: int| 0 <= k < b.len() && b[k] == e;
    assert(le(b[0], b[k]));
}

proof fn lemma_sorted_and_alike_is_unique<T>(a: Seq<T>, b: Seq<T>, le: spec_fn(T, T) -> bool)
    requires
        total_preorder(le),
        sorted_by(a, le),
        sorted_by(b, le),
        forall|e: T| #[trigger] a.filter(alike(le, e)) == b.filter(alike(le, e)),
    ensures
        a == b,
    decreases a.len(),
{
    if a.len() == 0 {
        if b.len() > 0 {
            assert forall|e: T| #[trigger] b.filter(alike(le, e)) == a.filter(alike(le, e)) by {
                assert(a.filter(alike(le, e)) == b.filter(alike(le, e)));
            }
            lemma_same_first(b, a, le);
        }
        assert(a =~= b);
    } else {
        lemma_same_first(a, b, le);
        assert forall|e: T| #[trigger] b.filter(alike(le, e)) == a.filter(alike(le, e)) by {
            assert(a.filter(alike(le, e)) == b.filter(alike(le, e)));
        }
        lemma_same_first(b, a, le);
        let q = alike(le, a[0]);
        assert(le(a[0], a[0]));
        assert(a.filter(q) == b.filter(q));
        lemma_filter_front(a, q);
        lemma_filter_front(b, q);
        assert(a.filter(q)[0] == a[0]);
        assert(b.filter(q)[0] == b[0]);
        assert(a[0] == b[0]);
        let a1 = a.drop_first();
        let b1 = b.drop_first();
        assert forall|e: T| #[trigger] a1.filter(alike(le, e)) == b1.filter(alike(le, e)) by {
            let p = alike(le, e);
            assert(a.filter(p) == b.filter(p));
            lemma_filter_front(a, p);
            lemma_filter_front(b, p);
            if p(a[0]) {
                assert(a1.filter(p) =~= a.filter(p).drop_first());
                assert(b1.filter(p) =~= b.filter(p).drop_first());
            }
        }
        assert forall|i: int, j: int| 0 <= i <= j < a1.len() implies #[trigger] le(a1[i], a1[j]) by {
            assert(le(a[i + 1], a[j + 1]));
        }
        assert forall|i: int, j: int| 0 <= i <= j < b1.len() implies #[trigger] le(b1[i], b1[j]) by {
            assert(le(b[i + 1], b[j + 1]));
        }
        lemma_sorted_and_alike_is_unique(a1, b1, le);
        assert(a =~= seq![a[0]] + a1);
        assert(b =~= seq![b[0]] + b1);
    }
}

/// A list has one stable sorting: two results that are both sorted stably from it
/// are the same.
pub proof fn stable_sort_is_unique<T>(r1: Seq<T>, r2: Seq<T>, s: Seq<T>, le: spec_fn(T, T) -> bool)
    requires
        total_preorder(le),
        stably_sorted(r1, s, le),
        stably_sorted(r2, s, le),
    ensures
        r1 == r2,
{
    assert forall|e: T| #[trigger] r1.filter(alike(le, e)) == r2.filter(alike(le, e)) by {
        assert(r2.filter(alike(le, e)) == s.filter(alike(le, e)));
    }
    lemma_sorted_and_alike_is_unique(r1, r2, le);
}

/// `s` sorted stably.
pub open spec fn sorted_stably<T>(s: Seq<T>, le: spec_fn(T, T) -> bool) -> Seq<T> {
    choose|r: Seq<T>| stably_sorted(r, s, le)
}

/// How many values at the front of `s` may stand before `x`.
spec fn room_before<T>(s: Seq<T>, x: T, le: spec_fn(T, T) -> bool) -> int
    decreases s.len(),
{
    if s.len() == 0 || !le(s[0], x) {
        0
    } else {
        1 + room_before(s.drop_first(), x, le)
    }
}

proof fn lemma_room_before<T>(s: Seq<T>, x: T, le: spec_fn(T, T) -> bool)
    requires
        total_preorder(le),
        sorted_by(s, le),
    ensures
        0 <= room_before(s, x, le) <= s.len(),
        forall|i: int| 0 <= i < room_before(s, x, le) ==> le(#[trigger] s[i], x),
        forall|i: int| room_before(s, x, le) <= i < s.len() ==> !le(#[trigger] s[i], x),
    decreases s.len(),
{
    if s.len() > 0 {
        let t = s.drop_first();
        if le(s[0], x) {
            assert forall|i: int, j: int| 0 <= i <= j < t.len() implies #[trigger] le(t[i], t[j]) by {
                assert(le(s[i + 1], s[j + 1]));
            }
            lemma_room_before(t, x, le);
            assert forall|i: int| 0 <= i < room_before(s, x, le) implies le(#[trigger] s[i], x) by {
                if i > 0 {
                    assert(s[i] == t[i - 1]);
                }
            }
            assert forall|i: int| room_before(s, x, le) <= i < s.len() implies !le(#[trigger] s[i], x) by {
                assert(s[i] == t[i - 1]);
            }
        } else {
            assert forall|i: int| 0 <= i < s.len() implies !le(#[trigger] s[i], x) by {
                assert(le(s[0], s[i]));
            }
        }
    }
}

/// Every list has a stable sorting.
pub proof fn stable_sort_exists<T>(s: Seq<T>, le: spec_fn(T, T) -> bool)
    requires
        total_preorder(le),
    ensures
        stably_sorted(sorted_stably(s, le), s, le),
    decreases s.len(),
{
    broadcast use vstd::seq_lib::group_to_multiset_ensures;

    if s.len() == 0 {
        assert(stably_sorted(s, s, le));
    } else {
        let front = s.drop_last();
        let x = s.last();
        stable_sort_exists(front, le);
        let t = sorted_stably(front, le);
        lemma_room_before(t, x, le);
        let k = room_before(t, x, le);
        let a = t.take(k);
        let b = t.skip(k);
        let r = a.push(x) + b;
        assert(t =~= a + b);
        assert(s =~= front.push(x));
        assert(le(x, x));
        assert forall|i: int, j: int| 0 <= i <= j < r.len() implies #[trigger] le(r[i], r[j]) by {
            let ti = if i < k { i } else { i - 1 };
            let tj = if j < k { j } else { j - 1 };
            if i != k && j != k {
                assert(r[i] == t[ti] && r[j] == t[tj]);
                assert(le(t[ti], t[tj]));
            } else if i == k && j != k {
                assert(r[j] == t[j - 1]);
                assert(le(x, t[j - 1]) || le(t[j - 1], x));
            } else if i != k && j == k {
                assert(r[i] == t[i]);
            }
        }
        vstd::seq_lib::lemma_multiset_commutative(a.push(x), b);
        vstd::seq_lib::lemma_multiset_commutative(a, b);
        assert(r.to_multiset() =~= s.to_multiset());
        assert forall|e: T| #[trigger] r.filter(alike(le, e)) == s.filter(alike(le, e)) by {
            let p = alike(le, e);
            assert(t.filter(p) == front.filter(p));
            Seq::filter_distributes_over_add(a.push(x), b, p);
            Seq::filter_distributes_over_add(a, b, p);
            lemma_filter_push(a, x, p);
            lemma_filter_push(front, x, p);
            if p(x) {
                assert forall|i: int| 0 <= i < b.len() implies !p(#[trigger] b[i]) by {
                    assert(b[i] == t[k + i]);
                    if p(b[i]) {
                        assert(le(b[i], e) && le(e, x));
                    }
                }
                lemma_filter_none(b, p);
            }
            assert(r.filter(p) =~= s.filter(p));
        }
        assert(stably_sorted(r, s, le));
    }
}

/// What is sorted stably from `s` is the stable sorting of `s`.
pub proof fn lemma_sorted_stably<T>(r: Seq<T>, s: Seq<T>, le: spec_fn(T, T) -> bool)
    requires
        total_preorder(le),
        stably_sorted(r, s, le),
    ensures
        r == sorted_stably(s, le),
{
    stable_sort_exists(s, le);
    stable_sort_is_unique(r, sorted_stably(s, le), s, le);
}

/// A filter keeps what it accepts, as often as it is there.
pub proof fn lemma_filter_count<T>(s: Seq<T>, p: spec_fn(T) -> bool, x: T)
    ensures
        s.filter(p).to_multiset().count(x) == (if p(x) {
            s.to_multiset().count(x)
        } else {
            0
        }),
    decreases s.len(),
{
    broadcast use vstd::seq_lib::group_to_multiset_ensures;

    reveal(Seq::filter);
    if s.len() > 0 {
        lemma_filter_count(s.drop_last(), p, x);
        assert(s =~= s.drop_last().push(s.last()));
    }
}

/// Filtering twice is filtering by both.
pub proof fn lemma_filter_twice<T>(
    s: Seq<T>,
    p: spec_fn(T) -> bool,
    q: spec_fn(T) -> bool,
    both: spec_fn(T) -> bool,
)
    requires
        forall|x: T| #[trigger] both(x) <==> p(x) && q(x),
    ensures
        s.filter(p).filter(q) == s.filter(both),
    decreases s.len(),
{
    reveal(Seq::filter);
    if s.len() > 0 {
        lemma_filter_twice(s.drop_last(), p, q, both);
        let last = s.last();
        assert(both(last) <==> p(last) && q(last));
        if p(last) {
            assert(s.drop_last().filter(p).push(last).drop_last() =~= s.drop_last().filter(p));
        }
    }
}

proof fn lemma_filters_commute<T>(s: Seq<T>, p: spec_fn(T) -> bool, q: spec_fn(T) -> bool)
    ensures
        s.filter(p).filter(q) == s.filter(q).filter(p),
    decreases s.len(),
{
    if s.len() > 0 {
        let front = s.drop_last();
        assert(s =~= front.push(s.last()));
        lemma_filters_commute(front, p, q);
        lemma_filter_push(front, s.last(), p);
        lemma_filter_push(front, s.last(), q);
        lemma_filter_push(front.filter(p), s.last(), q);
        lemma_filter_push(front.filter(q), s.last(), p);
    } else {
        reveal(Seq::filter);
    }
}

proof fn lemma_filter_sorted<T>(s: Seq<T>, p: spec_fn(T) -> bool, le: spec_fn(T, T) -> bool)
    requires
        sorted_by(s, le),
    ensures
        sorted_by(s.filter(p), le),
    decreases s.len(),
{
    if s.len() > 0 {
        let front = s.drop_last();
        assert(s =~= front.push(s.last()));
        assert forall|i: int, j: int| 0 <= i <= j < front.len() implies #[trigger] le(front[i], front[j]) by {
            assert(le(s[i], s[j]));
        }
        lemma_filter_sorted(front, p, le);
        lemma_filter_push(front, s.last(), p);
        let f = front.filter(p);
        assert forall|i: int| 0 <= i < f.len() implies le(#[trigger] f[i], s.last()) by {
            assert(f.contains(f[i]));
            lemma_filter_holds(front, p, f[i]);
            let k = choose|k: int| 0 <= k < front.len() && front[k] == f[i];
            assert(le(s[k], s[s.len() - 1]));
        }
        assert(le(s[s.len() - 1], s[s.len() - 1]));
        let g = s.filter(p);
        assert forall|i: int, j: int| 0 <= i <= j < g.len() implies #[trigger] le(g[i], g[j]) by {
            if j < f.len() {
                assert(le(f[i], f[j]));
            } else if i < f.len() {
                assert(le(f[i], s.last()));
            }
        }
    } else {
        reveal(Seq::filter);
    }
}

/// Sorting and filtering can be done in either order.
pub proof fn sorting_and_filtering_commute<T>(s: Seq<T>, p: spec_fn(T) -> bool, le: spec_fn(T, T) -> bool)
    requires
        total_preorder(le),
    ensures
        sorted_stably(s.filter(p), le) == sorted_stably(s, le).filter(p),
{
    let r = sorted_stably(s, le);
    stable_sort_exists(s, le);
    lemma_filter_sorted(r, p, le);
    assert(r.filter(p).to_multiset() =~= s.filter(p).to_multiset()) by {
        assert forall|x: T| r.filter(p).to_multiset().count(x) == s.filter(p).to_multiset().count(x) by {
            lemma_filter_count(r, p, x);
            lemma_filter_count(s, p, x);
        }
    }
    assert forall|e: T| #[trigger] r.filter(p).filter(alike(le, e)) == s.filter(p).filter(alike(le, e)) by {
        lemma_filters_commute(r, p, alike(le, e));
        lemma_filters_commute(s, p, alike(le, e));
        assert(r.filter(alike(le, e)) == s.filter(alike(le, e)));
    }
    lemma_sorted_stably(r.filter(p), s.filter(p), le);
}

} // verus!
