//! File-system paths as the bytes that the system gives them, with the reading of
//! Unix paths: components are separated by `/`; repeated separators, trailing
//! separators and `.` components count for nothing, except a `.` that opens a
//! relative path.
use vstd::prelude::*;
use vstd::slice::slice_subrange;
use vstd::std_specs::cmp::PartialEqSpecImpl;
use vstd::string::*;
use vstd::utf8::encode_utf8;

use crate::order::{
    byte_lt, byte_order_is_total, bytes_le, compare_bytes, lemma_lex_antisymmetric, lemma_lex_skip, lemma_lex_total,
    lemma_lex_transitive, lex_le, strict_total_order,
};
use crate::text::{lossy_text, read_lossy, same_bytes};

verus! {

/// The byte of the separator `/`.
pub const SEPARATOR: u8 = 47;

/// The byte of a dot.
pub const DOT: u8 = 46;

/// Where the part of `b` that starts at `i` ends: at the next separator, or at the
/// end.
pub open spec fn part_end(b: Seq<u8>, i: int) -> int
    decreases b.len() - i,
{
    if i >= b.len() || b[i] == SEPARATOR {
        i
    } else {
        part_end(b, i + 1)
    }
}

/// A part ends at the first separator behind its start, or at the end.
pub proof fn lemma_part_end(b: Seq<u8>, i: int)
    requires
        0 <= i <= b.len(),
    ensures
        i <= part_end(b, i) <= b.len(),
        forall|k: int| i <= k < part_end(b, i) ==> b[k] != SEPARATOR,
        part_end(b, i) < b.len() ==> b[part_end(b, i)] == SEPARATOR,
    decreases b.len() - i,
{
    if i < b.len() && b[i] != SEPARATOR {
        lemma_part_end(b, i + 1);
    }
}

/// A part that names nothing: an empty one, or a single dot.
pub open spec fn is_idle(part: Seq<u8>) -> bool {
    part.len() == 0 || part == seq![DOT]
}

/// The places of the parts of `b`, from `i` on, that name something.
pub open spec fn named_parts(b: Seq<u8>, i: int) -> Seq<(int, int)>
    decreases b.len() - i + 1,
    via named_parts_shrink
{
    if i < 0 || i >= b.len() {
        Seq::empty()
    } else {
        let e = part_end(b, i);
        let rest = named_parts(b, e + 1);
        if is_idle(b.subrange(i, e)) {
            rest
        } else {
            seq![(i, e)] + rest
        }
    }
}

#[via_fn]
proof fn named_parts_shrink(b: Seq<u8>, i: int) {
    if 0 <= i < b.len() {
        lemma_part_end(b, i);
    }
}

/// The path is relative and its first part is a single dot.
pub open spec fn opens_with_dot(b: Seq<u8>) -> bool {
    b.len() > 0 && b[0] == DOT && (b.len() == 1 || b[1] == SEPARATOR)
}

/// The path starts at the root.
pub open spec fn is_rooted(b: Seq<u8>) -> bool {
    b.len() > 0 && b[0] == SEPARATOR
}

/// The places of a path's components: the separator at the start stands for the
/// root, and an opening dot is a component too.
pub open spec fn pieces(b: Seq<u8>) -> Seq<(int, int)> {
    if is_rooted(b) || opens_with_dot(b) {
        seq![(0int, 1int)] + named_parts(b, 0)
    } else {
        named_parts(b, 0)
    }
}

/// The components of a path: `/` for the root, `.` for an opening dot, `..`, or a
/// name.
pub open spec fn components(b: Seq<u8>) -> Seq<Seq<u8>> {
    pieces(b).map_values(|p: (int, int)| b.subrange(p.0, p.1))
}

/// `part` is a name, not the root or one of the two dot components.
pub open spec fn is_name(part: Seq<u8>) -> bool {
    part != seq![SEPARATOR] && part != seq![DOT] && part != seq![DOT, DOT]
}

/// The last component, where it is a name.
pub open spec fn file_name(b: Seq<u8>) -> Option<Seq<u8>> {
    let c = components(b);
    if c.len() > 0 && is_name(c.last()) {
        Some(c.last())
    } else {
        None
    }
}

/// The path without its last component; the root and the empty path have none.
pub open spec fn parent(b: Seq<u8>) -> Option<Seq<u8>> {
    let p = pieces(b);
    if p.len() == 0 || components(b).last() == seq![SEPARATOR] {
        None
    } else if p.len() == 1 {
        Some(Seq::empty())
    } else {
        Some(b.subrange(0, p[p.len() - 2].1))
    }
}

/// The components of `base` are the first ones of `b`.
pub open spec fn starts_with(b: Seq<u8>, base: Seq<u8>) -> bool {
    components(base).is_prefix_of(components(b))
}

/// The components of `tail` are the last ones of `b`.
pub open spec fn ends_with(b: Seq<u8>, tail: Seq<u8>) -> bool {
    components(tail).is_suffix_of(components(b))
}

/// What is left of `b` behind the components of `base`.
pub open spec fn strip_prefix(b: Seq<u8>, base: Seq<u8>) -> Option<Seq<u8>> {
    let p = pieces(b);
    let n = pieces(base).len();
    if !starts_with(b, base) {
        None
    } else if n == p.len() {
        Some(Seq::empty())
    } else {
        Some(b.subrange(p[n as int].0, p.last().1))
    }
}

/// `tail` below `b`; a rooted `tail` stands for itself.
pub open spec fn joined(b: Seq<u8>, tail: Seq<u8>) -> Seq<u8> {
    if is_rooted(tail) {
        tail
    } else if b.len() == 0 || b.last() == SEPARATOR {
        b + tail
    } else {
        b.push(SEPARATOR) + tail
    }
}

/// The rank of a component among its kinds: root, opening dot, `..`, name.
pub open spec fn kind_rank(part: Seq<u8>) -> int {
    if part == seq![SEPARATOR] {
        0
    } else if part == seq![DOT] {
        1
    } else if part == seq![DOT, DOT] {
        2
    } else {
        3
    }
}

/// The order of components: by kind, names by their bytes.
pub open spec fn component_lt() -> spec_fn(Seq<u8>, Seq<u8>) -> bool {
    |a: Seq<u8>, b: Seq<u8>|
        kind_rank(a) < kind_rank(b) || (kind_rank(a) == kind_rank(b) && a != b && bytes_le(a, b))
}

/// The order of paths: component by component.
pub open spec fn path_le(a: Seq<u8>, b: Seq<u8>) -> bool {
    lex_le(components(a), components(b), component_lt())
}

/// The places of the parts lie behind the start, one behind the other.
pub proof fn lemma_named_parts(b: Seq<u8>, i: int)
    requires
        0 <= i,
    ensures
        forall|k: int|
            0 <= k < named_parts(b, i).len() ==> i <= (#[trigger] named_parts(b, i)[k]).0 < named_parts(b, i)[k].1
                <= b.len(),
        forall|k: int, l: int|
            0 <= k < l < named_parts(b, i).len() ==> (#[trigger] named_parts(b, i)[k]).1 <= (
            #[trigger] named_parts(b, i)[l]).0,
    decreases b.len() - i + 1,
{
    if i < b.len() {
        let e = part_end(b, i);
        lemma_part_end(b, i);
        lemma_named_parts(b, e + 1);
        let whole = named_parts(b, i);
        let rest = named_parts(b, e + 1);
        if !is_idle(b.subrange(i, e)) {
            assert(whole == seq![(i, e)] + rest);
            assert forall|k: int| 0 <= k < whole.len() implies i <= (#[trigger] whole[k]).0 < whole[k].1 <= b.len() by {
                if k > 0 {
                    assert(whole[k] == rest[k - 1]);
                }
            }
            assert forall|k: int, l: int| 0 <= k < l < whole.len() implies (#[trigger] whole[k]).1 <= (
            #[trigger] whole[l]).0 by {
                assert(whole[l] == rest[l - 1]);
                if k > 0 {
                    assert(whole[k] == rest[k - 1]);
                }
            }
        }
    }
}

/// The places of the components lie in the path, one behind the other.
pub proof fn lemma_pieces(b: Seq<u8>)
    ensures
        forall|k: int|
            0 <= k < pieces(b).len() ==> 0 <= (#[trigger] pieces(b)[k]).0 < pieces(b)[k].1 <= b.len(),
        forall|k: int, l: int|
            0 <= k < l < pieces(b).len() ==> (#[trigger] pieces(b)[k]).1 <= (#[trigger] pieces(b)[l]).0,
{
    lemma_named_parts(b, 0);
    if is_rooted(b) {
        assert(part_end(b, 0) == 0);
        assert(b.subrange(0, 0).len() == 0);
        assert(named_parts(b, 0) == named_parts(b, 1));
        lemma_named_parts(b, 1);
    } else if opens_with_dot(b) {
        assert(part_end(b, 1) == 1);
        assert(part_end(b, 0) == 1);
        assert(b.subrange(0, 1) == seq![DOT]);
        assert(named_parts(b, 0) == named_parts(b, 2));
        lemma_named_parts(b, 2);
    }
}

/// A path, held as its bytes.
#[derive(Debug)]
pub struct EntryPath {
    bytes: Vec<u8>,
}

impl View for EntryPath {
    type V = Seq<u8>;

    closed spec fn view(&self) -> Seq<u8> {
        self.bytes@
    }
}

/// The places that a list of them holds, as numbers.
spec fn places(v: Seq<(usize, usize)>) -> Seq<(int, int)> {
    v.map_values(|p: (usize, usize)| (p.0 as int, p.1 as int))
}

impl EntryPath {
    /// The path that a text names.
    pub fn new(text: &str) -> (path: EntryPath)
        ensures
            path@ == encode_utf8(text@),
    {
        EntryPath { bytes: text.as_bytes_vec() }
    }

    /// The path with the given bytes.
    pub fn from_bytes(bytes: Vec<u8>) -> (path: EntryPath)
        ensures
            path@ == bytes@,
    {
        EntryPath { bytes }
    }

    /// The bytes of the path.
    pub fn as_bytes(&self) -> (bytes: &[u8])
        ensures
            bytes@ == self@,
    {
        self.bytes.as_slice()
    }

    /// Whether the path has no bytes at all.
    pub fn is_empty(&self) -> (empty: bool)
        ensures
            empty == (self@.len() == 0),
    {
        self.bytes.len() == 0
    }

    /// The path as text for people to read.
    pub fn to_string_lossy(&self) -> (text: String)
        ensures
            text@ == lossy_text(self@),
    {
        read_lossy(self.as_bytes())
    }

    /// Finds the components.
    fn locate_pieces(&self) -> (found: Vec<(usize, usize)>)
        ensures
            places(found@) == pieces(self@),
    {
        let b = self.bytes.as_slice();
        let n = b.len();
        let mut found: Vec<(usize, usize)> = Vec::new();
        if n > 0 && (b[0] == SEPARATOR || (b[0] == DOT && (n == 1 || b[1] == SEPARATOR))) {
            found.push((0, 1));
        }
        let mut i: usize = 0;
        proof {
            assert(places(found@) + named_parts(b@, 0) =~= pieces(b@));
        }
        while i < n
            invariant
                n == b@.len(),
                b@ == self@,
                i <= n,
                places(found@) + named_parts(b@, i as int) == pieces(b@),
            decreases n - i,
        {
            let mut e: usize = i;
            while e < n && b[e] != SEPARATOR
                invariant
                    n == b@.len(),
                    i <= e <= n,
                    part_end(b@, e as int) == part_end(b@, i as int),
                decreases n - e,
            {
                e += 1;
            }
            let idle = e == i || (e - i == 1 && b[i] == DOT);
            let ghost before = places(found@);
            proof {
                assert(part_end(b@, i as int) == e);
                let part = b@.subrange(i as int, e as int);
                assert(e - i == 1 ==> part =~= seq![b@[i as int]]);
                if part == seq![DOT] {
                    assert(part.len() == 1 && part[0] == DOT);
                }
                assert(idle == is_idle(part));
            }
            if !idle {
                found.push((i, e));
                proof {
                    assert(places(found@) =~= before.push((i as int, e as int)));
                    assert(before.push((i as int, e as int)) + named_parts(b@, e + 1)
                        =~= before + (seq![(i as int, e as int)] + named_parts(b@, e + 1)));
                }
            }
            if e < n {
                i = e + 1;
            } else {
                assert(named_parts(b@, e + 1) =~= named_parts(b@, e as int));
                i = e;
            }
        }
        assert(places(found@) + Seq::<(int, int)>::empty() =~= places(found@));
        found
    }
}

impl EntryPath {
    /// Whether `count` components of this path, from number `i` on, are those of
    /// `other` from number `j` on.
    fn same_pieces(
        &self,
        mine: &Vec<(usize, usize)>,
        i: usize,
        other: &EntryPath,
        theirs: &Vec<(usize, usize)>,
        j: usize,
        count: usize,
    ) -> (same: bool)
        requires
            places(mine@) == pieces(self@),
            places(theirs@) == pieces(other@),
            i + count <= mine.len(),
            j + count <= theirs.len(),
        ensures
            same == (components(self@).subrange(i as int, i + count) == components(other@).subrange(
                j as int,
                j + count,
            )),
    {
        let ghost a = components(self@).subrange(i as int, i + count);
        let ghost b = components(other@).subrange(j as int, j + count);
        proof {
            lemma_pieces(self@);
            lemma_pieces(other@);
        }
        let mut k: usize = 0;
        while k < count
            invariant
                k <= count,
                places(mine@) == pieces(self@),
                places(theirs@) == pieces(other@),
                i + count <= mine.len(),
                j + count <= theirs.len(),
                a == components(self@).subrange(i as int, i + count),
                b == components(other@).subrange(j as int, j + count),
                forall|m: int| 0 <= m < k ==> a[m] == b[m],
                forall|m: int|
                    0 <= m < pieces(self@).len() ==> 0 <= (#[trigger] pieces(self@)[m]).0 < pieces(self@)[m].1
                        <= self@.len(),
                forall|m: int|
                    0 <= m < pieces(other@).len() ==> 0 <= (#[trigger] pieces(other@)[m]).0 < pieces(other@)[m].1
                        <= other@.len(),
            decreases count - k,
        {
            let p = mine[i + k];
            let q = theirs[j + k];
            assert(places(mine@)[i + k] == (p.0 as int, p.1 as int));
            assert(places(theirs@)[j + k] == (q.0 as int, q.1 as int));
            let x = slice_subrange(self.bytes.as_slice(), p.0, p.1);
            let y = slice_subrange(other.bytes.as_slice(), q.0, q.1);
            assert(x@ == a[k as int] && y@ == b[k as int]);
            if !same_bytes(x, y) {
                return false;
            }
            k += 1;
        }
        assert(a =~= b);
        true
    }

    /// Whether two paths have the same components.
    pub fn same_as(&self, other: &EntryPath) -> (same: bool)
        ensures
            same == (components(self@) == components(other@)),
    {
        let mine = self.locate_pieces();
        let theirs = other.locate_pieces();
        proof {
            assert(places(mine@).len() == mine@.len() && places(theirs@).len() == theirs@.len());
            let n = mine@.len() as int;
            assert(components(self@).subrange(0, n) =~= components(self@));
            if mine@.len() == theirs@.len() {
                assert(components(other@).subrange(0, n) =~= components(other@));
            }
        }
        mine.len() == theirs.len() && self.same_pieces(&mine, 0, other, &theirs, 0, mine.len())
    }

    /// Whether the components of `base` are the first ones of this path.
    pub fn starts_with(&self, base: &EntryPath) -> (found: bool)
        ensures
            found == starts_with(self@, base@),
    {
        let mine = self.locate_pieces();
        let theirs = base.locate_pieces();
        proof {
            assert(places(mine@).len() == mine@.len() && places(theirs@).len() == theirs@.len());
            let n = theirs@.len() as int;
            assert(components(base@).subrange(0, n) =~= components(base@));
        }
        theirs.len() <= mine.len() && self.same_pieces(&mine, 0, base, &theirs, 0, theirs.len())
    }

    /// Whether the components of `tail` are the last ones of this path.
    pub fn ends_with(&self, tail: &EntryPath) -> (found: bool)
        ensures
            found == ends_with(self@, tail@),
    {
        let mine = self.locate_pieces();
        let theirs = tail.locate_pieces();
        proof {
            assert(places(mine@).len() == mine@.len() && places(theirs@).len() == theirs@.len());
            let n = theirs@.len() as int;
            assert(components(tail@).subrange(0, n) =~= components(tail@));
        }
        theirs.len() <= mine.len() && self.same_pieces(
            &mine,
            mine.len() - theirs.len(),
            tail,
            &theirs,
            0,
            theirs.len(),
        )
    }
}

impl PartialEq for EntryPath {
    fn eq(&self, other: &EntryPath) -> (same: bool) {
        self.same_as(other)
    }
}

impl PartialEqSpecImpl for EntryPath {
    open spec fn obeys_eq_spec() -> bool {
        true
    }

    open spec fn eq_spec(&self, other: &EntryPath) -> bool {
        components(self@) == components(other@)
    }
}

impl Eq for EntryPath {

}

impl Clone for EntryPath {
    fn clone(&self) -> (copy: EntryPath)
        ensures
            copy@ == self@,
    {
        EntryPath { bytes: vstd::slice::slice_to_vec(self.bytes.as_slice()) }
    }
}

impl EntryPath {
    /// The last component, where it is a name.
    pub fn file_name(&self) -> (name: Option<&[u8]>)
        ensures
            match name {
                Some(n) => file_name(self@) == Some(n@),
                None => file_name(self@) is None,
            },
    {
        let mine = self.locate_pieces();
        proof {
            lemma_pieces(self@);
            assert(places(mine@).len() == mine@.len());
        }
        if mine.len() == 0 {
            return None;
        }
        let p = mine[mine.len() - 1];
        assert(places(mine@)[mine@.len() - 1] == (p.0 as int, p.1 as int));
        let part = slice_subrange(self.bytes.as_slice(), p.0, p.1);
        assert(part@ == components(self@).last());
        if names_something(part) {
            Some(part)
        } else {
            None
        }
    }

    /// The path without its last component.
    pub fn parent(&self) -> (up: Option<EntryPath>)
        ensures
            match up {
                Some(p) => parent(self@) == Some(p@),
                None => parent(self@) is None,
            },
    {
        let mine = self.locate_pieces();
        proof {
            lemma_pieces(self@);
            assert(places(mine@).len() == mine@.len());
        }
        if mine.len() == 0 {
            return None;
        }
        let p = mine[mine.len() - 1];
        assert(places(mine@)[mine@.len() - 1] == (p.0 as int, p.1 as int));
        let part = slice_subrange(self.bytes.as_slice(), p.0, p.1);
        assert(part@ == components(self@).last());
        proof {
            assert(part@.len() == 1 ==> part@ =~= seq![part@[0]]);
        }
        if part.len() == 1 && part[0] == SEPARATOR {
            return None;
        }
        if mine.len() == 1 {
            let bytes: Vec<u8> = Vec::new();
            return Some(EntryPath { bytes });
        }
        let q = mine[mine.len() - 2];
        assert(places(mine@)[mine@.len() - 2] == (q.0 as int, q.1 as int));
        let up = slice_subrange(self.bytes.as_slice(), 0, q.1);
        Some(EntryPath { bytes: vstd::slice::slice_to_vec(up) })
    }

    /// What is left of the path behind the components of `base`.
    pub fn strip_prefix(&self, base: &EntryPath) -> (rest: Option<EntryPath>)
        ensures
            match rest {
                Some(r) => strip_prefix(self@, base@) == Some(r@),
                None => strip_prefix(self@, base@) is None,
            },
    {
        if !self.starts_with(base) {
            return None;
        }
        let mine = self.locate_pieces();
        let n = base.locate_pieces().len();
        proof {
            lemma_pieces(self@);
            assert(places(mine@).len() == mine@.len());
            assert(components(base@).len() == n && components(self@).len() == mine@.len());
        }
        if n == mine.len() {
            let bytes: Vec<u8> = Vec::new();
            return Some(EntryPath { bytes });
        }
        let p = mine[n];
        let q = mine[mine.len() - 1];
        assert(places(mine@)[n as int] == (p.0 as int, p.1 as int));
        assert(places(mine@)[mine@.len() - 1] == (q.0 as int, q.1 as int));
        let rest = slice_subrange(self.bytes.as_slice(), p.0, q.1);
        Some(EntryPath { bytes: vstd::slice::slice_to_vec(rest) })
    }

    /// `tail` below this path; a rooted `tail` stands for itself.
    pub fn join(&self, tail: &str) -> (path: EntryPath)
        ensures
            path@ == joined(self@, encode_utf8(tail@)),
    {
        let t = tail.as_bytes();
        if t.len() > 0 && t[0] == SEPARATOR {
            return EntryPath { bytes: vstd::slice::slice_to_vec(t) };
        }
        let mut bytes = vstd::slice::slice_to_vec(self.bytes.as_slice());
        if bytes.len() > 0 && bytes[bytes.len() - 1] != SEPARATOR {
            bytes.push(SEPARATOR);
        }
        let mut i: usize = 0;
        let ghost front = bytes@;
        while i < t.len()
            invariant
                i <= t@.len(),
                bytes@ == front + t@.take(i as int),
            decreases t@.len() - i,
        {
            bytes.push(t[i]);
            i += 1;
            assert(t@.take(i as int) =~= t@.take(i - 1).push(t@[i - 1]));
            assert(bytes@ =~= front + t@.take(i as int));
        }
        assert(t@.take(i as int) =~= t@);
        EntryPath { bytes }
    }
}

fn names_something(part: &[u8]) -> (yes: bool)
    ensures
        yes == is_name(part@),
{
    proof {
        assert(part@.len() == 1 ==> part@ =~= seq![part@[0]]);
        assert(part@.len() == 2 ==> part@ =~= seq![part@[0], part@[1]]);
        assert(seq![SEPARATOR].len() == 1 && seq![SEPARATOR][0] == SEPARATOR);
        assert(seq![DOT].len() == 1 && seq![DOT][0] == DOT);
        assert(seq![DOT, DOT].len() == 2 && seq![DOT, DOT][0] == DOT && seq![DOT, DOT][1] == DOT);
    }
    if part.len() == 1 {
        part[0] != SEPARATOR && part[0] != DOT
    } else if part.len() == 2 {
        !(part[0] == DOT && part[1] == DOT)
    } else {
        true
    }
}

/// The kind of a component, as its rank.
fn rank_of(part: &[u8]) -> (rank: u8)
    ensures
        rank == kind_rank(part@),
{
    proof {
        assert(part@.len() == 1 ==> part@ =~= seq![part@[0]]);
        assert(part@.len() == 2 ==> part@ =~= seq![part@[0], part@[1]]);
        assert(seq![SEPARATOR].len() == 1 && seq![SEPARATOR][0] == SEPARATOR);
        assert(seq![DOT].len() == 1 && seq![DOT][0] == DOT);
        assert(seq![DOT, DOT].len() == 2 && seq![DOT, DOT][0] == DOT && seq![DOT, DOT][1] == DOT);
    }
    if part.len() == 1 && part[0] == SEPARATOR {
        0
    } else if part.len() == 1 && part[0] == DOT {
        1
    } else if part.len() == 2 && part[0] == DOT && part[1] == DOT {
        2
    } else {
        3
    }
}

/// The order of components is a strict total order.
pub proof fn component_order_is_total()
    ensures
        strict_total_order(component_lt()),
{
    let lt = component_lt();
    byte_order_is_total();
    assert forall|a: Seq<u8>, b: Seq<u8>, c: Seq<u8>| #[trigger] lt(a, b) && #[trigger] lt(b, c) implies lt(a, c) by {
        if kind_rank(a) == kind_rank(b) && kind_rank(b) == kind_rank(c) {
            lemma_lex_transitive(a, b, c, byte_lt());
            if a == c {
                lemma_lex_antisymmetric(a, b, byte_lt());
            }
        }
    }
    assert forall|a: Seq<u8>, b: Seq<u8>| a == b || #[trigger] lt(a, b) || lt(b, a) by {
        lemma_lex_total(a, b, byte_lt());
    }
}

/// Any two paths are comparable, and their order is transitive.
pub proof fn path_order_is_total()
    ensures
        forall|a: Seq<u8>, b: Seq<u8>| #[trigger] path_le(a, b) || path_le(b, a),
        forall|a: Seq<u8>, b: Seq<u8>, c: Seq<u8>|
            #[trigger] path_le(a, b) && #[trigger] path_le(b, c) ==> path_le(a, c),
{
    component_order_is_total();
    assert forall|a: Seq<u8>, b: Seq<u8>| #[trigger] path_le(a, b) || path_le(b, a) by {
        lemma_lex_total(components(a), components(b), component_lt());
    }
    assert forall|a: Seq<u8>, b: Seq<u8>, c: Seq<u8>|
        #[trigger] path_le(a, b) && #[trigger] path_le(b, c) implies path_le(a, c) by {
        lemma_lex_transitive(components(a), components(b), components(c), component_lt());
    }
}

impl EntryPath {
    /// Whether this path comes before the other, or equals it, in the order of
    /// paths.
    pub fn may_precede(&self, other: &EntryPath) -> (le: bool)
        ensures
            le == path_le(self@, other@),
    {
        let mine = self.locate_pieces();
        let theirs = other.locate_pieces();
        let ghost a = components(self@);
        let ghost b = components(other@);
        proof {
            lemma_pieces(self@);
            lemma_pieces(other@);
            assert(places(mine@).len() == mine@.len() && places(theirs@).len() == theirs@.len());
        }
        let mut i: usize = 0;
        while i < mine.len()
            invariant
                i <= mine@.len(),
                i <= theirs@.len(),
                places(mine@) == pieces(self@),
                places(theirs@) == pieces(other@),
                a == components(self@),
                b == components(other@),
                a.len() == mine@.len(),
                b.len() == theirs@.len(),
                a.take(i as int) == b.take(i as int),
                forall|m: int|
                    0 <= m < pieces(self@).len() ==> 0 <= (#[trigger] pieces(self@)[m]).0 < pieces(self@)[m].1
                        <= self@.len(),
                forall|m: int|
                    0 <= m < pieces(other@).len() ==> 0 <= (#[trigger] pieces(other@)[m]).0 < pieces(other@)[m].1
                        <= other@.len(),
            decreases mine@.len() - i,
        {
            proof {
                lemma_lex_skip(a, b, component_lt(), i as int);
            }
            if i >= theirs.len() {
                return false;
            }
            let p = mine[i];
            let q = theirs[i];
            assert(places(mine@)[i as int] == (p.0 as int, p.1 as int));
            assert(places(theirs@)[i as int] == (q.0 as int, q.1 as int));
            let x = slice_subrange(self.bytes.as_slice(), p.0, p.1);
            let y = slice_subrange(other.bytes.as_slice(), q.0, q.1);
            assert(x@ == a[i as int] && y@ == b[i as int]);
            if !same_bytes(x, y) {
                let r = rank_of(x);
                let s = rank_of(y);
                return r < s || (r == s && compare_bytes(x, y));
            }
            proof {
                assert(a.take(i + 1) =~= a.take(i as int).push(a[i as int]));
                assert(b.take(i + 1) =~= b.take(i as int).push(b[i as int]));
            }
            i += 1;
        }
        proof {
            lemma_lex_skip(a, b, component_lt(), i as int);
        }
        true
    }
}

} // verus!
