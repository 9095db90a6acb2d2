//! How paths are read.
use vstd::prelude::*;
use vstd::utf8::encode_utf8;

use crate::laws::orders::the_first_difference_decides;
use crate::order::bytes_le;
use crate::path::{
    component_lt, components, is_idle, is_rooted, lemma_named_parts, lemma_part_end, lemma_pieces, named_parts,
    opens_with_dot, part_end, pieces, DOT, SEPARATOR, EntryPath,
};

verus! {

/// The separator, alone: it stands for the root.
pub open spec fn root() -> Seq<u8> {
    seq!['/' as u8]
}

/// A part holds no separator.
pub open spec fn is_part(part: Seq<u8>) -> bool {
    forall|i: int| 0 <= i < part.len() ==> #[trigger] part[i] != '/' as u8
}

/// A part that counts for nothing inside a path: an empty one or a single dot.
pub open spec fn counts_for_nothing(part: Seq<u8>) -> bool {
    part.len() == 0 || part == seq!['.' as u8]
}

/// Finding the end of a part: the first separator, or the end.
proof fn lemma_part_ends_at(b: Seq<u8>, i: int, e: int)
    requires
        0 <= i <= e <= b.len(),
        forall|k: int| i <= k < e ==> b[k] != SEPARATOR,
        e == b.len() || b[e] == SEPARATOR,
    ensures
        part_end(b, i) == e,
    decreases e - i,
{
    if i < e {
        lemma_part_ends_at(b, i + 1, e);
    }
}

/// The parts of a path with one more part behind it.
proof fn lemma_named_append(b: Seq<u8>, part: Seq<u8>, i: int)
    requires
        is_part(part),
        0 <= i <= b.len(),
    ensures
        ({
            let w = b.push(SEPARATOR) + part;
            named_parts(w, i) == named_parts(b, i) + (if is_idle(part) {
                Seq::<(int, int)>::empty()
            } else {
                seq![(b.len() as int + 1, w.len() as int)]
            })
        }),
    decreases b.len() - i,
{
    let w = b.push(SEPARATOR) + part;
    let n = b.len() as int;
    let last = if is_idle(part) {
        Seq::<(int, int)>::empty()
    } else {
        seq![(n + 1, w.len() as int)]
    };
    assert(named_parts(w, n + 1) == last) by {
        if part.len() > 0 {
            assert forall|k: int| n + 1 <= k < w.len() implies w[k] != SEPARATOR by {
                assert(w[k] == part[k - n - 1]);
            }
            lemma_part_ends_at(w, n + 1, w.len() as int);
            assert(w.subrange(n + 1, w.len() as int) =~= part);
            assert(named_parts(w, w.len() as int + 1) =~= Seq::<(int, int)>::empty());
            assert(last =~= last + Seq::<(int, int)>::empty());
        }
    }
    if i < n {
        lemma_part_end(b, i);
        let e = part_end(b, i);
        assert forall|k: int| i <= k < e implies w[k] != SEPARATOR by {
            assert(w[k] == b[k]);
        }
        assert(w[e] == SEPARATOR);
        lemma_part_ends_at(w, i, e);
        assert(w.subrange(i, e) =~= b.subrange(i, e));
        if e < n {
            lemma_named_append(b, part, e + 1);
        } else {
            assert(named_parts(b, e + 1) =~= Seq::<(int, int)>::empty());
        }
        let rest = named_parts(b, e + 1);
        assert(named_parts(w, e + 1) =~= rest + last);
        assert((seq![(i, e)] + rest) + last =~= seq![(i, e)] + (rest + last));
    } else {
        assert(w[n] == SEPARATOR);
        assert(part_end(w, n) == n);
        assert(w.subrange(n, n).len() == 0);
        assert(named_parts(b, n) =~= Seq::<(int, int)>::empty());
        assert(named_parts(w, n) == named_parts(w, n + 1));
        assert(last =~= Seq::<(int, int)>::empty() + last);
    }
}

/// A path is read part by part, from its start: the empty path has no components; a part
/// alone is one component, a single dot too; the root is the component `/`; and behind a
/// path, or behind the root, each further part adds itself, unless it is empty or a single
/// dot.
pub proof fn paths_are_read_part_by_part(b: Seq<u8>, part: Seq<u8>)
    requires
        is_part(part),
    ensures
        components(Seq::empty()) == Seq::<Seq<u8>>::empty(),
        part.len() > 0 ==> components(part) == seq![part],
        components(root() + part) == (if counts_for_nothing(part) {
            seq![root()]
        } else {
            seq![root(), part]
        }),
        b.len() > 0 ==> components(b.push('/' as u8) + part) == (if counts_for_nothing(part) {
            components(b)
        } else {
            components(b).push(part)
        }),
{
    let none = Seq::<u8>::empty();
    assert(components(none) =~= Seq::<Seq<u8>>::empty());
    assert(counts_for_nothing(part) == is_idle(part));
    if part.len() > 0 {
        lemma_part_ends_at(part, 0, part.len() as int);
        assert(part.subrange(0, part.len() as int) =~= part);
        assert(named_parts(part, part.len() as int + 1) =~= Seq::<(int, int)>::empty());
        assert(part[0] != SEPARATOR);
        if part == seq![DOT] {
            assert(opens_with_dot(part));
            assert(pieces(part) =~= seq![(0int, 1int)]);
            assert(components(part) =~= seq![part]);
        } else {
            if opens_with_dot(part) {
                if part.len() == 1 {
                    assert(part =~= seq![DOT]);
                } else {
                    assert(part[1] != SEPARATOR);
                }
            }
            assert(pieces(part) =~= seq![(0int, part.len() as int)]);
            assert(components(part) =~= seq![part]);
        }
    }
    let w = none.push(SEPARATOR) + part;
    assert(root() + part =~= w);
    lemma_named_append(none, part, 0);
    assert(w[0] == SEPARATOR);
    assert(w.subrange(0, 1) =~= root());
    if is_idle(part) {
        assert(named_parts(w, 0) =~= Seq::<(int, int)>::empty());
        assert(pieces(w) =~= seq![(0int, 1int)]);
        assert(components(w) =~= seq![root()]);
    } else {
        assert(named_parts(w, 0) =~= seq![(1int, w.len() as int)]);
        assert(pieces(w) =~= seq![(0int, 1int), (1int, w.len() as int)]);
        assert(w.subrange(1, w.len() as int) =~= part);
        assert(components(w) =~= seq![root(), part]);
    }
    if b.len() > 0 {
        let v = b.push(SEPARATOR) + part;
        lemma_named_append(b, part, 0);
        lemma_pieces(b);
        assert(v[0] == b[0]);
        if b.len() > 1 {
            assert(v[1] == b[1]);
        } else {
            assert(v[1] == SEPARATOR);
        }
        assert(is_rooted(v) == is_rooted(b) && opens_with_dot(v) == opens_with_dot(b));
        if is_idle(part) {
            assert(pieces(v) =~= pieces(b));
            assert forall|k: int| 0 <= k < pieces(b).len() implies #[trigger] components(v)[k] == components(b)[k] by {
                let p = pieces(b)[k];
                assert(v.subrange(p.0, p.1) =~= b.subrange(p.0, p.1));
            }
            assert(components(v) =~= components(b));
        } else {
            let q = (b.len() as int + 1, v.len() as int);
            assert(pieces(v) =~= pieces(b).push(q));
            assert(v.subrange(q.0, q.1) =~= part);
            assert forall|k: int| 0 <= k < pieces(b).len() implies #[trigger] components(v)[k] == components(b)[k] by {
                let p = pieces(b)[k];
                assert(v.subrange(p.0, p.1) =~= b.subrange(p.0, p.1));
            }
            assert(components(v) =~= components(b).push(part));
        }
    }
}

/// Two paths are the same where their components are, and a path starts or ends with
/// another where its components do.
pub proof fn paths_are_compared_by_components(
    a: &EntryPath,
    b: &EntryPath,
    equal: bool,
    same: bool,
    starts: bool,
    ends: bool,
)
    requires
        call_ensures(<EntryPath as PartialEq>::eq, (a, b), equal),
        call_ensures(EntryPath::same_as, (a, b), same),
        call_ensures(EntryPath::starts_with, (a, b), starts),
        call_ensures(EntryPath::ends_with, (a, b), ends),
    ensures
        equal <==> components(a@) == components(b@),
        same <==> components(a@) == components(b@),
        starts <==> exists|rest: Seq<Seq<u8>>| components(a@) == #[trigger] (components(b@) + rest),
        ends <==> exists|front: Seq<Seq<u8>>| components(a@) == #[trigger] (front + components(b@)),
{
    let x = components(a@);
    let y = components(b@);
    if starts {
        assert(x =~= y + x.skip(y.len() as int));
    }
    if exists|rest: Seq<Seq<u8>>| x == #[trigger] (y + rest) {
        let rest = choose|rest: Seq<Seq<u8>>| x == #[trigger] (y + rest);
        assert(y =~= x.subrange(0, y.len() as int));
    }
    if ends {
        assert(x =~= x.take(x.len() - y.len()) + y);
    }
    if exists|front: Seq<Seq<u8>>| x == #[trigger] (front + y) {
        let front = choose|front: Seq<Seq<u8>>| x == #[trigger] (front + y);
        assert(y =~= x.subrange(x.len() - y.len(), x.len() as int));
    }
}

/// The name of a path is its last component, unless that is the root, a dot or two dots.
pub proof fn names_stand_last(path: &EntryPath, name: Option<&[u8]>)
    requires
        call_ensures(EntryPath::file_name, (path,), name),
    ensures
        name is Some <==> components(path@).len() > 0 && components(path@).last() != root() && components(path@).last()
            != seq!['.' as u8] && components(path@).last() != seq!['.' as u8, '.' as u8],
        name matches Some(n) ==> n@ == components(path@).last(),
{
}

/// What a path has behind a part of it: the rest of a path is read on its own.
proof fn lemma_shift(b: Seq<u8>, s: int, i: int)
    requires
        0 <= s <= i,
        s <= b.len(),
    ensures
        named_parts(b.skip(s), i - s) == named_parts(b, i).map_values(|p: (int, int)| (p.0 - s, p.1 - s)),
    decreases b.len() - i + 1,
{
    let c = b.skip(s);
    let f = |p: (int, int)| (p.0 - s, p.1 - s);
    if i < b.len() {
        lemma_part_end(b, i);
        let e = part_end(b, i);
        assert forall|k: int| i - s <= k < e - s implies c[k] != SEPARATOR by {
            assert(c[k] == b[k + s]);
        }
        assert(e < b.len() ==> c[e - s] == b[e]);
        lemma_part_ends_at(c, i - s, e - s);
        assert(c.subrange(i - s, e - s) =~= b.subrange(i, e));
        lemma_shift(b, s, e + 1);
        let rest = named_parts(b, e + 1);
        assert((seq![(i, e)] + rest).map_values(f) =~= seq![(i - s, e - s)] + rest.map_values(f));
    } else {
        assert(named_parts(b, i).map_values(f) =~= Seq::<(int, int)>::empty());
    }
}

/// Cutting a path at a separator, or at its end, keeps the parts before.
proof fn lemma_cut(b: Seq<u8>, i: int, m: int)
    requires
        0 <= i <= m <= b.len(),
        m == b.len() || b[m] == SEPARATOR,
    ensures
        named_parts(b, i) == named_parts(b.take(m), i) + named_parts(b, m + 1),
    decreases m - i,
{
    let c = b.take(m);
    let tail = named_parts(b, m + 1);
    if i < m {
        lemma_part_end(b, i);
        let e = part_end(b, i);
        if e > m {
            assert(b[m] == SEPARATOR);
            assert(false);
        }
        assert forall|k: int| i <= k < e implies c[k] != SEPARATOR by {
            assert(c[k] == b[k]);
        }
        assert(e < m ==> c[e] == b[e]);
        lemma_part_ends_at(c, i, e);
        assert(c.subrange(i, e) =~= b.subrange(i, e));
        if e < m {
            lemma_cut(b, e + 1, m);
        } else {
            assert(named_parts(c, e + 1) =~= Seq::<(int, int)>::empty());
            assert(tail =~= Seq::<(int, int)>::empty() + tail);
        }
        let rest = named_parts(c, e + 1);
        assert((seq![(i, e)] + rest) + tail =~= seq![(i, e)] + (rest + tail));
    } else {
        assert(named_parts(c, i) =~= Seq::<(int, int)>::empty());
        assert(tail =~= Seq::<(int, int)>::empty() + tail);
        if m < b.len() {
            assert(part_end(b, m) == m);
            assert(b.subrange(m, m).len() == 0);
        }
    }
}

/// Parts begin behind a separator or at the start, end before one or at the end, and
/// count.
proof fn lemma_bounds(b: Seq<u8>, i: int, k: int)
    requires
        0 <= i,
        0 <= k < named_parts(b, i).len(),
    ensures
        ({
            let p = named_parts(b, i)[k];
            &&& 0 <= p.0 < p.1 <= b.len()
            &&& p.1 == b.len() || b[p.1] == SEPARATOR
            &&& !is_idle(b.subrange(p.0, p.1))
            &&& forall|j: int| p.0 <= j < p.1 ==> #[trigger] b[j] != SEPARATOR
            &&& named_parts(b, i).skip(k) == named_parts(b, p.0)
        }),
    decreases b.len() - i + 1,
{
    if i < b.len() {
        lemma_part_end(b, i);
        let e = part_end(b, i);
        let rest = named_parts(b, e + 1);
        let all = named_parts(b, i);
        if is_idle(b.subrange(i, e)) {
            lemma_bounds(b, e + 1, k);
        } else if k == 0 {
            assert(all[0] == (i, e));
            assert(all.skip(0) =~= all);
        } else {
            assert(all[k] == rest[k - 1]);
            lemma_bounds(b, e + 1, k - 1);
            assert(all.skip(k) =~= rest.skip(k - 1));
        }
    }
}

/// How many places come before the named parts: one for the root or an opening dot.
spec fn opening(b: Seq<u8>) -> int {
    if is_rooted(b) || opens_with_dot(b) {
        1
    } else {
        0
    }
}

/// A path cut behind one of its components has the components up to there.
proof fn lemma_front(b: Seq<u8>, k: int)
    requires
        0 <= k < pieces(b).len(),
    ensures
        components(b.take(pieces(b)[k].1)) == components(b).take(k + 1),
{
    let p = pieces(b)[k];
    let c = b.take(p.1);
    let o = opening(b);
    lemma_pieces(b);
    if k < o {
        assert(p == (0int, 1int));
        assert(c =~= seq![b[0]]);
        if b[0] == SEPARATOR {
            paths_are_read_part_by_part(Seq::empty(), Seq::empty());
            assert(root() + Seq::<u8>::empty() =~= c);
        } else {
            paths_are_read_part_by_part(Seq::empty(), c);
        }
        assert(b.subrange(0, 1) =~= c);
        assert(components(b).take(1) =~= seq![c]);
    } else {
        let all = named_parts(b, 0);
        lemma_bounds(b, 0, k - o);
        assert(all[k - o] == p);
        lemma_cut(b, 0, p.1);
        lemma_named_parts(b, 0);
        lemma_named_parts(b, p.1 + 1);
        lemma_named_parts(c, 0);
        let front = named_parts(c, 0);
        let back = named_parts(b, p.1 + 1);
        assert(all == front + back);
        if k - o >= front.len() {
            assert(all[k - o] == back[k - o - front.len()]);
        }
        if front.len() > k - o + 1 {
            assert(all[k - o + 1] == front[k - o + 1]);
        }
        assert(front.len() == k - o + 1);
        assert(c[0] == b[0]);
        if c.len() > 1 {
            assert(c[1] == b[1]);
        }
        if opens_with_dot(c) && !opens_with_dot(b) {
            assert(c.len() == 1);
            assert(b.subrange(p.0, p.1) =~= seq![DOT]);
        }
        if opens_with_dot(b) && !opens_with_dot(c) {
            assert(c.len() > 1 && b[1] == SEPARATOR);
        }
        assert(pieces(c) =~= pieces(b).take(k + 1));
        assert forall|j: int| 0 <= j < k + 1 implies #[trigger] components(c)[j] == components(b).take(k + 1)[j] by {
            let q = pieces(b)[j];
            if j < k {
                assert(pieces(b)[j].1 <= pieces(b)[k].0);
            }
            assert(c.subrange(q.0, q.1) =~= b.subrange(q.0, q.1));
        }
        assert(components(c) =~= components(b).take(k + 1));
    }
}

/// A path cut before one of its components has the components from there on.
proof fn lemma_back(b: Seq<u8>, k: int)
    requires
        0 <= k < pieces(b).len(),
    ensures
        components(b.skip(pieces(b)[k].0)) == components(b).skip(k),
{
    let p = pieces(b)[k];
    let c = b.skip(p.0);
    let o = opening(b);
    lemma_pieces(b);
    if k < o {
        assert(p.0 == 0);
        assert(c =~= b);
        assert(components(b).skip(0) =~= components(b));
    } else {
        let all = named_parts(b, 0);
        lemma_bounds(b, 0, k - o);
        assert(all[k - o] == p);
        lemma_shift(b, p.0, p.0);
        assert(c[0] == b[p.0]);
        if opens_with_dot(c) {
            if c.len() == 1 {
                assert(b.subrange(p.0, p.1) =~= seq![DOT]);
            } else {
                assert(c[1] == b[p.0 + 1]);
                if p.1 > p.0 + 1 {
                    assert(b[p.0 + 1] != SEPARATOR);
                }
                assert(b.subrange(p.0, p.1) =~= seq![DOT]);
            }
        }
        assert(pieces(b).skip(k) =~= all.skip(k - o));
        assert(pieces(c) =~= named_parts(b, p.0).map_values(|q: (int, int)| (q.0 - p.0, q.1 - p.0)));
        assert(pieces(c).len() == pieces(b).len() - k);
        assert forall|j: int| 0 <= j < pieces(c).len() implies #[trigger] components(c)[j] == components(b).skip(k)[j] by {
            let q = pieces(b)[j + k];
            assert(pieces(b).skip(k)[j] == q);
            assert(pieces(c)[j] == (q.0 - p.0, q.1 - p.0));
            if j > 0 {
                assert(pieces(b)[k].1 <= pieces(b)[j + k].0);
            }
            assert(c.subrange(q.0 - p.0, q.1 - p.0) =~= b.subrange(q.0, q.1));
        }
        assert(components(c) =~= components(b).skip(k));
    }
}

/// The parent of a path has its components but the last, and its bytes open the path;
/// only the empty path and the root have no parent.
pub proof fn parents_have_one_component_less(path: &EntryPath, up: Option<EntryPath>)
    requires
        call_ensures(EntryPath::parent, (path,), up),
    ensures
        up is None <==> components(path@).len() == 0 || components(path@) == seq![root()],
        up matches Some(p) ==> components(p@) == components(path@).drop_last() && p@.is_prefix_of(path@),
{
    let b = path@;
    lemma_pieces(b);
    let c = components(b);
    if c.len() > 0 {
        if c.last() == root() && c.len() > 1 {
            let o = opening(b);
            lemma_bounds(b, 0, c.len() - 1 - o);
            let p = pieces(b).last();
            assert(b.subrange(p.0, p.1)[0] == b[p.0]);
            assert(false);
        }
        if c.last() == root() {
            assert(c =~= seq![root()]);
        }
        if c == seq![root()] {
            assert(c.last() == root());
        }
    }
    if let Some(p) = up {
        if c.len() == 1 {
            paths_are_read_part_by_part(b, Seq::empty());
            assert(c.drop_last() =~= Seq::<Seq<u8>>::empty());
            assert(p@ =~= Seq::<u8>::empty());
        } else {
            let k = c.len() - 2;
            lemma_front(b, k);
            assert(b.subrange(0, pieces(b)[k].1) =~= b.take(pieces(b)[k].1));
            assert(c.take(k + 1) =~= c.drop_last());
        }
    }
}

/// A name joined to a path is its last component; below it stands what the path has. What
/// starts at the root stands for itself.
pub proof fn joined_names_stand_last(path: &EntryPath, tail: &str, below: EntryPath)
    requires
        call_ensures(EntryPath::join, (path, tail), below),
    ensures
        encode_utf8(tail@).len() > 0 && encode_utf8(tail@)[0] == '/' as u8 ==> below@ == encode_utf8(tail@),
        is_part(encode_utf8(tail@)) && !counts_for_nothing(encode_utf8(tail@)) ==> components(below@) == components(
            path@,
        ).push(encode_utf8(tail@)),
        path@.len() > 0 && counts_for_nothing(encode_utf8(tail@)) ==> components(below@) == components(path@),
{
    let b = path@;
    let t = encode_utf8(tail@);
    if counts_for_nothing(t) {
        assert(is_part(t));
    }
    if is_part(t) {
        assert(t.len() > 0 ==> t[0] != SEPARATOR);
        paths_are_read_part_by_part(b, t);
        paths_are_read_part_by_part(b, Seq::empty());
        if b.len() == 0 {
            assert(b + t =~= t);
            assert(b =~= Seq::<u8>::empty());
            assert(Seq::<Seq<u8>>::empty().push(t) =~= seq![t]);
        } else if b.last() == SEPARATOR {
            let c = b.drop_last();
            assert(b =~= c.push(SEPARATOR));
            assert(b =~= c.push(SEPARATOR) + Seq::<u8>::empty());
            paths_are_read_part_by_part(c, t);
            paths_are_read_part_by_part(c, Seq::empty());
            if c.len() == 0 {
                assert(b =~= root() + Seq::<u8>::empty());
                assert(b + t =~= root() + t);
                assert(seq![root()].push(t) =~= seq![root(), t]);
            }
        }
    }
}

/// What is left of a path behind another has the components that are left.
pub proof fn what_is_left_has_the_other_components(path: &EntryPath, base: &EntryPath, rest: Option<EntryPath>)
    requires
        call_ensures(EntryPath::strip_prefix, (path, base), rest),
    ensures
        rest is Some <==> components(base@).is_prefix_of(components(path@)),
        rest matches Some(r) ==> components(path@) == components(base@) + components(r@),
{
    let b = path@;
    let c = components(b);
    let n = components(base@).len() as int;
    if let Some(r) = rest {
        lemma_pieces(b);
        if n == c.len() {
            paths_are_read_part_by_part(b, Seq::empty());
            assert(c =~= components(base@) + Seq::<Seq<u8>>::empty());
        } else {
            let last = c.len() - 1;
            let t = pieces(b)[last].1;
            let s = pieces(b)[n].0;
            let w = b.take(t);
            lemma_front(b, last);
            assert(c.take(last + 1) =~= c);
            lemma_same_start(b, last, n);
            lemma_back(w, n);
            if n < last {
                assert(pieces(b)[n].1 <= pieces(b)[last].0);
            }
            assert(w.skip(s) =~= b.subrange(s, t));
            assert(c =~= components(base@) + c.skip(n));
        }
    }
}

/// Cutting a path behind its last component leaves the components where they stand.
proof fn lemma_same_start(b: Seq<u8>, k: int, j: int)
    requires
        0 <= j <= k < pieces(b).len(),
    ensures
        j < pieces(b.take(pieces(b)[k].1)).len(),
        pieces(b.take(pieces(b)[k].1))[j] == pieces(b)[j],
{
    let p = pieces(b)[k];
    let c = b.take(p.1);
    let o = opening(b);
    lemma_pieces(b);
    if k < o {
        assert(c[0] == b[0]);
    } else {
        let all = named_parts(b, 0);
        lemma_bounds(b, 0, k - o);
        assert(all[k - o] == p);
        lemma_cut(b, 0, p.1);
        lemma_named_parts(b, p.1 + 1);
        let front = named_parts(c, 0);
        let back = named_parts(b, p.1 + 1);
        assert(all == front + back);
        if k - o >= front.len() {
            assert(all[k - o] == back[k - o - front.len()]);
        }
        assert(c[0] == b[0]);
        if c.len() > 1 {
            assert(c[1] == b[1]);
        }
        if opens_with_dot(c) && !opens_with_dot(b) {
            assert(b.subrange(p.0, p.1) =~= seq![DOT]);
        }
        if j >= o {
            assert(pieces(b)[j] == all[j - o]);
            assert(all[j - o] == front[j - o]);
        }
    }
}

/// The rank of a component: the root stands before a dot, a dot before two dots, and
/// these before names.
pub open spec fn rank(part: Seq<u8>) -> int {
    if part == root() {
        0
    } else if part == seq!['.' as u8] {
        1
    } else if part == seq!['.' as u8, '.' as u8] {
        2
    } else {
        3
    }
}

/// Paths are ordered by the first component in which they differ: by its rank, and names
/// by their bytes; a path that opens another stands before it.
pub proof fn paths_are_ordered_by_components(a: &EntryPath, b: &EntryPath, le: bool)
    requires
        call_ensures(EntryPath::may_precede, (a, b), le),
    ensures
        ({
            let x = components(a@);
            let y = components(b@);
            &&& x.is_prefix_of(y) ==> le
            &&& y.is_prefix_of(x) && x != y ==> !le
            &&& forall|k: int|
                0 <= k < x.len() && k < y.len() && #[trigger] x.take(k) == y.take(k) && x[k] != y[k] ==> (le <==> rank(x[k]) < rank(
                    y[k],
                ) || (rank(x[k]) == rank(y[k]) && bytes_le(x[k], y[k])))
        }),
{
    the_first_difference_decides(components(a@), components(b@), component_lt());
}

} // verus!
