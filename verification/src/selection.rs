//! Paths that are ticked for clearing. Two spellings of one path, `a/b` and `a//b/`,
//! are one entry.
use vstd::prelude::*;

use crate::path::{components, EntryPath};

verus! {

/// A set of paths.
#[derive(Debug)]
pub struct Selection {
    paths: Vec<EntryPath>,
}

impl View for Selection {
    type V = Set<Seq<Seq<u8>>>;

    closed spec fn view(&self) -> Set<Seq<Seq<u8>>> {
        Set::new(|c: Seq<Seq<u8>>| holds(self.paths@, c))
    }
}

/// One of the paths has these components.
spec fn holds(paths: Seq<EntryPath>, c: Seq<Seq<u8>>) -> bool {
    exists|i: int| 0 <= i < paths.len() && components((#[trigger] paths[i])@) == c
}

impl Selection {
    /// Nothing selected.
    pub fn new() -> (selection: Selection)
        ensures
            selection@ == Set::<Seq<Seq<u8>>>::empty(),
    {
        let selection = Selection { paths: Vec::new() };
        assert(selection@ =~= Set::<Seq<Seq<u8>>>::empty());
        selection
    }

    /// Whether a path is selected.
    pub fn contains(&self, path: &EntryPath) -> (found: bool)
        ensures
            found == self@.contains(components(path@)),
    {
        let mut i: usize = 0;
        while i < self.paths.len()
            invariant
                i <= self.paths@.len(),
                forall|k: int| 0 <= k < i ==> components((#[trigger] self.paths@[k])@) != components(path@),
            decreases self.paths@.len() - i,
        {
            if self.paths[i].same_as(path) {
                assert(components(self.paths@[i as int]@) == components(path@));
                return true;
            }
            i += 1;
        }
        false
    }

    /// Select a path.
    pub fn insert(&mut self, path: &EntryPath)
        ensures
            final(self)@ == old(self)@.insert(components(path@)),
    {
        let ghost before = self.paths@;
        if !self.contains(path) {
            self.paths.push(path.clone());
            proof {
                let c = components(path@);
                assert(self.paths@[before.len() as int]@ == path@);
                assert forall|d: Seq<Seq<u8>>| holds(self.paths@, d) <==> holds(before, d) || d == c by {
                    if holds(before, d) {
                        let i = choose|i: int| 0 <= i < before.len() && components((#[trigger] before[i])@) == d;
                        assert(self.paths@[i] == before[i]);
                    }
                    if holds(self.paths@, d) && d != c {
                        let i = choose|i: int|
                            0 <= i < self.paths@.len() && components((#[trigger] self.paths@[i])@) == d;
                        assert(self.paths@[i] == before[i]);
                    }
                }
            }
        }
        assert(self@ =~= old(self)@.insert(components(path@)));
    }

    /// Take a path out of the selection.
    pub fn remove(&mut self, path: &EntryPath)
        ensures
            final(self)@ == old(self)@.remove(components(path@)),
    {
        let ghost before = self.paths@;
        let ghost c = components(path@);
        let mut kept: Vec<EntryPath> = Vec::new();
        let mut i: usize = 0;
        while i < self.paths.len()
            invariant
                i <= self.paths@.len(),
                self.paths@ == before,
                c == components(path@),
                forall|d: Seq<Seq<u8>>| #[trigger] holds(kept@, d) <==> d != c && holds(before.take(i as int), d),
            decreases self.paths@.len() - i,
        {
            let ghost so_far = kept@;
            let ghost x = before[i as int];
            proof {
                assert forall|d: Seq<Seq<u8>>|
                    #[trigger] holds(before.take(i + 1), d) <==> holds(before.take(i as int), d) || components(x@) == d by {
                    let a = before.take(i as int);
                    let b = before.take(i + 1);
                    if holds(a, d) {
                        let k = choose|k: int| 0 <= k < a.len() && components((#[trigger] a[k])@) == d;
                        assert(b[k] == a[k]);
                    }
                    if components(x@) == d {
                        assert(b[i as int] == x);
                    }
                    if holds(b, d) && components(x@) != d {
                        let k = choose|k: int| 0 <= k < b.len() && components((#[trigger] b[k])@) == d;
                        assert(a[k] == b[k]);
                    }
                }
            }
            if !self.paths[i].same_as(path) {
                kept.push(self.paths[i].clone());
                proof {
                    assert forall|d: Seq<Seq<u8>>|
                        #[trigger] holds(kept@, d) <==> holds(so_far, d) || components(x@) == d by {
                        if holds(so_far, d) {
                            let k = choose|k: int| 0 <= k < so_far.len() && components((#[trigger] so_far[k])@) == d;
                            assert(kept@[k] == so_far[k]);
                        }
                        if components(x@) == d {
                            assert(components(kept@[so_far.len() as int]@) == d);
                        }
                        if holds(kept@, d) && components(x@) != d {
                            let k = choose|k: int| 0 <= k < kept@.len() && components((#[trigger] kept@[k])@) == d;
                            assert(so_far[k] == kept@[k]);
                        }
                    }
                }
            }
            i += 1;
        }
        assert(before.take(i as int) =~= before);
        self.paths = kept;
        assert(self@ =~= old(self)@.remove(c));
    }

    /// Select nothing any more.
    pub fn clear(&mut self)
        ensures
            final(self)@ == Set::<Seq<Seq<u8>>>::empty(),
    {
        self.paths = Vec::new();
        assert(self@ =~= Set::<Seq<Seq<u8>>>::empty());
    }
}

} // verus!
