//! The tree: an ordered mapping from relative path to entry kind.
//!
//! A tree is seen through its listing, the sequence of its entries in the
//! order in which it is walked. That order is always ascending by path.

use vstd::prelude::*;
use crate::listing::{
    ascending,
    is_place,
    lemma_precedes_place,
    lemma_recorded,
    mapping,
    recorded,
    EntryKind,
    Listing,
};
use crate::order::{lemma_precedes_irreflexive, lemma_precedes_total, path_precedes, precedes};

verus! {

/// One entry of a tree: a path relative to the root, and what it names.
#[derive(Debug)]
pub struct Entry {
    pub path: String,
    pub kind: EntryKind,
}

impl View for Entry {
    type V = (Seq<char>, EntryKind);

    open spec fn view(&self) -> (Seq<char>, EntryKind) {
        (self.path@, self.kind)
    }
}

/// An ordered mapping from relative path to entry kind.
#[derive(Debug)]
pub struct Tree {
    entries: Vec<Entry>,
}

impl View for Tree {
    type V = Listing;

    /// The listing: the entries in the order in which the tree is walked.
    closed spec fn view(&self) -> Listing {
        Seq::new(self.entries@.len(), |i: int| self.entries@[i]@)
    }
}

impl Tree {
    /// The listing is strictly ascending by path.
    pub open spec fn wf(&self) -> bool {
        ascending(self@)
    }

    /// The mapping that the tree stands for.
    pub open spec fn content(&self) -> Map<Seq<char>, EntryKind> {
        mapping(self@)
    }

    /// A tree without entries.
    pub fn new() -> (tree: Tree)
        ensures
            tree@ == Seq::<(Seq<char>, EntryKind)>::empty(),
            tree.wf(),
    {
        let tree = Tree { entries: Vec::new() };
        assert(tree@ =~= Seq::<(Seq<char>, EntryKind)>::empty());
        tree
    }

    /// The number of entries.
    pub fn len(&self) -> (n: usize)
        ensures
            n == self@.len(),
    {
        self.entries.len()
    }

    /// The entry at place `i` of the listing.
    pub fn entry(&self, i: usize) -> (entry: &Entry)
        requires
            i < self@.len(),
        ensures
            entry@ == self@[i as int],
    {
        &self.entries[i]
    }

    /// Finds the place of `path` in the listing.
    fn position(&self, path: &str) -> (at: usize)
        requires
            self.wf(),
        ensures
            is_place(self@, path@, at as int),
    {
        let mut low: usize = 0;
        let mut high: usize = self.entries.len();
        while low < high
            invariant
                self.wf(),
                low <= high <= self@.len(),
                self@.len() == self.entries@.len(),
                forall|i: int| 0 <= i < low ==> precedes((#[trigger] self@[i]).0, path@),
                forall|i: int|
                    high <= i < self@.len() ==> !precedes((#[trigger] self@[i]).0, path@),
            decreases high - low,
        {
            let mid = low + (high - low) / 2;
            let here = &self.entries[mid];
            proof {
                assert(here@ == self@[mid as int]);
                lemma_precedes_place(self@, mid as int, path@);
            }
            if path_precedes(here.path.as_str(), path) {
                low = mid + 1;
            } else {
                high = mid;
            }
        }
        low
    }

    /// Records that `path` names an entry of kind `kind`. Where the tree
    /// holds the path already, the new kind takes the place of the old.
    pub fn insert(&mut self, path: String, kind: EntryKind)
        requires
            old(self).wf(),
        ensures
            final(self).wf(),
            final(self).content() == old(self).content().insert(path@, kind),
    {
        let ghost before = self@;
        let at = self.position(path.as_str());
        proof {
            lemma_recorded(before, at as int, path@, kind);
            if at < before.len() {
                assert(self.entries@[at as int]@ == before[at as int]);
                lemma_precedes_total(before[at as int].0, path@);
                lemma_precedes_irreflexive(path@);
            }
        }
        if at < self.entries.len() && !path_precedes(
            path.as_str(),
            self.entries[at].path.as_str(),
        ) {
            self.entries[at].kind = kind;
            assert(self@ =~= recorded(before, at as int, path@, kind));
        } else {
            let ghost pair = (path@, kind);
            self.entries.insert(at, Entry { path, kind });
            assert(self@ =~= recorded(before, at as int, pair.0, kind));
        }
    }
}

} // verus!
