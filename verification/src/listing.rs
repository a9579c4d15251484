//! Listings: entries in sequence, and the mapping they stand for.
//!
//! A listing is a sequence of pairs, each a relative path with the kind of
//! what it names. Recording its pairs one after the other gives a mapping
//! from path to kind. Among the listings of one mapping exactly one is
//! strictly ascending by path: that is the order in which a tree is walked.

use vstd::prelude::*;
use crate::order::{
    lemma_precedes_asymmetric,
    lemma_precedes_irreflexive,
    lemma_precedes_total,
    lemma_precedes_transitive,
    precedes,
};

verus! {

/// Whether an entry is a file or a directory.
#[derive(Clone, Copy, Debug, PartialEq, Eq, Structural)]
pub enum EntryKind {
    File,
    Directory,
}

/// Entries in sequence, each a path with its kind.
pub type Listing = Seq<(Seq<char>, EntryKind)>;

/// The paths of `listing` are strictly ascending.
pub open spec fn ascending(listing: Listing) -> bool {
    forall|i: int, j: int|
        #![trigger listing[i], listing[j]]
        0 <= i < j < listing.len() ==> precedes(listing[i].0, listing[j].0)
}

/// No two pairs of `pairs` share a path.
pub open spec fn distinct_paths(pairs: Listing) -> bool {
    forall|i: int, j: int|
        #![trigger pairs[i], pairs[j]]
        0 <= i < j < pairs.len() ==> pairs[i].0 != pairs[j].0
}

/// Some pair of `pairs` has the path `path`.
pub open spec fn names(pairs: Listing, path: Seq<char>) -> bool {
    exists|i: int| 0 <= i < pairs.len() && (#[trigger] pairs[i]).0 == path
}

/// The mapping that results from recording the pairs of `pairs` one after
/// the other: where a path occurs more than once, its last pair stands.
pub open spec fn mapping(pairs: Listing) -> Map<Seq<char>, EntryKind>
    decreases pairs.len(),
{
    if pairs.len() == 0 {
        Map::empty()
    } else {
        mapping(pairs.drop_last()).insert(pairs.last().0, pairs.last().1)
    }
}

/// The ascending listing of `content`: its paths in ascending order, each
/// with its kind.
pub open spec fn listing_of(content: Map<Seq<char>, EntryKind>) -> Listing {
    choose|listing: Listing| ascending(listing) && mapping(listing) == content
}

/// `at` is the place of `path` in `listing`: every entry before it sorts
/// before `path`, and no entry from it on does.
pub open spec fn is_place(listing: Listing, path: Seq<char>, at: int) -> bool {
    &&& 0 <= at <= listing.len()
    &&& forall|i: int| 0 <= i < at ==> precedes((#[trigger] listing[i]).0, path)
    &&& forall|i: int| at <= i < listing.len() ==> !precedes((#[trigger] listing[i]).0, path)
}

/// The place of `path` in an ascending listing: just behind the last entry
/// that sorts before it.
pub open spec fn place(listing: Listing, path: Seq<char>) -> int
    decreases listing.len(),
{
    if listing.len() == 0 {
        0
    } else if precedes(listing.last().0, path) {
        listing.len() as int
    } else {
        place(listing.drop_last(), path)
    }
}

/// `listing` with `path` recorded at its place `at`: the kind of the entry
/// there is replaced where that entry has the path, and a new entry is put
/// in before it where it has not.
pub open spec fn recorded(listing: Listing, at: int, path: Seq<char>, kind: EntryKind) -> Listing {
    if at < listing.len() && listing[at].0 == path {
        listing.update(at, (path, kind))
    } else {
        listing.insert(at, (path, kind))
    }
}

/// The mapping holds exactly the paths that the pairs name.
pub proof fn lemma_mapping_keys(pairs: Listing, path: Seq<char>)
    ensures
        mapping(pairs).contains_key(path) <==> names(pairs, path),
    decreases pairs.len(),
{
    if pairs.len() > 0 {
        let front = pairs.drop_last();
        lemma_mapping_keys(front, path);
        if names(pairs, path) {
            let i = choose|i: int| 0 <= i < pairs.len() && (#[trigger] pairs[i]).0 == path;
            if i < front.len() {
                assert(front[i].0 == path);
            }
        }
        if names(front, path) {
            let i = choose|i: int| 0 <= i < front.len() && (#[trigger] front[i]).0 == path;
            assert(pairs[i].0 == path);
        }
        if pairs.last().0 == path {
            assert(pairs[pairs.len() - 1].0 == path);
        }
    }
}

/// A path is mapped to the kind of the last pair that names it.
pub proof fn lemma_mapping_value(pairs: Listing, i: int)
    requires
        0 <= i < pairs.len(),
        forall|j: int| i < j < pairs.len() ==> (#[trigger] pairs[j]).0 != pairs[i].0,
    ensures
        mapping(pairs).contains_key(pairs[i].0),
        mapping(pairs)[pairs[i].0] == pairs[i].1,
    decreases pairs.len(),
{
    if i < pairs.len() - 1 {
        let front = pairs.drop_last();
        assert(pairs[pairs.len() - 1].0 != pairs[i].0);
        assert forall|j: int| i < j < front.len() implies (#[trigger] front[j]).0 != front[i].0 by {
            assert(front[j] == pairs[j]);
        }
        lemma_mapping_value(front, i);
    }
}

/// Among pairs that share no path, each path is mapped to the kind of its
/// one pair.
pub proof fn lemma_mapping_distinct(pairs: Listing, i: int)
    requires
        distinct_paths(pairs),
        0 <= i < pairs.len(),
    ensures
        mapping(pairs).contains_key(pairs[i].0),
        mapping(pairs)[pairs[i].0] == pairs[i].1,
{
    assert forall|j: int| i < j < pairs.len() implies (#[trigger] pairs[j]).0 != pairs[i].0 by {
        assert(pairs[i].0 != pairs[j].0);
    }
    lemma_mapping_value(pairs, i);
}

/// In an ascending listing, position follows path: one entry stands before
/// another exactly if its path sorts before the other's.
pub proof fn lemma_listing_order(listing: Listing, i: int, j: int)
    requires
        ascending(listing),
        0 <= i < listing.len(),
        0 <= j < listing.len(),
    ensures
        i < j <==> precedes(listing[i].0, listing[j].0),
{
    if i < j {
        assert(precedes(listing[i].0, listing[j].0));
    } else if j < i {
        assert(precedes(listing[j].0, listing[i].0));
        lemma_precedes_asymmetric(listing[i].0, listing[j].0);
    } else {
        lemma_precedes_irreflexive(listing[i].0);
    }
}

/// No two entries of an ascending listing share a path.
pub proof fn lemma_ascending_distinct(listing: Listing)
    requires
        ascending(listing),
    ensures
        distinct_paths(listing),
{
    assert forall|i: int, j: int|
        #![trigger listing[i], listing[j]]
        0 <= i < j < listing.len() implies listing[i].0 != listing[j].0 by {
        lemma_listing_order(listing, i, j);
        lemma_precedes_irreflexive(listing[i].0);
    }
}

/// The first entries of an ascending listing are an ascending listing.
proof fn lemma_ascending_front(listing: Listing)
    requires
        ascending(listing),
        listing.len() > 0,
    ensures
        ascending(listing.drop_last()),
{
    let front = listing.drop_last();
    assert forall|i: int, j: int|
        #![trigger front[i], front[j]]
        0 <= i < j < front.len() implies precedes(front[i].0, front[j].0) by {
        assert(front[i] == listing[i] && front[j] == listing[j]);
    }
}

/// Recording a pair whose path no later pair names, at any place, is
/// recording it last.
proof fn lemma_mapping_insert(pairs: Listing, at: int, path: Seq<char>, kind: EntryKind)
    requires
        0 <= at <= pairs.len(),
        forall|j: int| at <= j < pairs.len() ==> (#[trigger] pairs[j]).0 != path,
    ensures
        mapping(pairs.insert(at, (path, kind))) == mapping(pairs).insert(path, kind),
    decreases pairs.len() - at,
{
    let grown = pairs.insert(at, (path, kind));
    if at == pairs.len() {
        assert(grown.drop_last() =~= pairs);
    } else {
        let front = pairs.drop_last();
        assert(grown.drop_last() =~= front.insert(at, (path, kind)));
        assert(grown.last() == pairs.last());
        assert(pairs[pairs.len() - 1].0 != path);
        assert forall|j: int| at <= j < front.len() implies (#[trigger] front[j]).0 != path by {
            assert(front[j] == pairs[j]);
        }
        lemma_mapping_insert(front, at, path, kind);
        assert(mapping(grown) =~= mapping(pairs).insert(path, kind));
    }
}

/// Replacing the kind of the last pair that names a path is recording the
/// path anew.
proof fn lemma_mapping_update(pairs: Listing, at: int, kind: EntryKind)
    requires
        0 <= at < pairs.len(),
        forall|j: int| at < j < pairs.len() ==> (#[trigger] pairs[j]).0 != pairs[at].0,
    ensures
        mapping(pairs.update(at, (pairs[at].0, kind))) == mapping(pairs).insert(pairs[at].0, kind),
    decreases pairs.len(),
{
    let path = pairs[at].0;
    let changed = pairs.update(at, (path, kind));
    let front = pairs.drop_last();
    if at == pairs.len() - 1 {
        assert(changed.drop_last() =~= front);
        assert(mapping(changed) =~= mapping(pairs).insert(path, kind));
    } else {
        assert(changed.drop_last() =~= front.update(at, (path, kind)));
        assert(changed.last() == pairs.last());
        assert(pairs[pairs.len() - 1].0 != path);
        assert forall|j: int| at < j < front.len() implies (#[trigger] front[j]).0
            != front[at].0 by {
            assert(front[j] == pairs[j]);
        }
        lemma_mapping_update(front, at, kind);
        assert(mapping(changed) =~= mapping(pairs).insert(path, kind));
    }
}

/// In an ascending listing, an entry that sorts before a path has only such
/// entries before it, and an entry that does not has none behind it.
pub proof fn lemma_precedes_place(listing: Listing, at: int, path: Seq<char>)
    requires
        ascending(listing),
        0 <= at < listing.len(),
    ensures
        precedes(listing[at].0, path) ==> forall|i: int|
            0 <= i <= at ==> precedes((#[trigger] listing[i]).0, path),
        !precedes(listing[at].0, path) ==> forall|i: int|
            at <= i < listing.len() ==> !precedes((#[trigger] listing[i]).0, path),
{
    if precedes(listing[at].0, path) {
        assert forall|i: int| 0 <= i <= at implies precedes((#[trigger] listing[i]).0, path) by {
            if i < at {
                assert(precedes(listing[i].0, listing[at].0));
                lemma_precedes_transitive(listing[i].0, listing[at].0, path);
            }
        }
    } else {
        assert forall|i: int| at <= i < listing.len() implies !precedes(
            (#[trigger] listing[i]).0,
            path,
        ) by {
            if at < i && precedes(listing[i].0, path) {
                assert(precedes(listing[at].0, listing[i].0));
                lemma_precedes_transitive(listing[at].0, listing[i].0, path);
            }
        }
    }
}

/// Every path has its place in an ascending listing.
pub proof fn lemma_place(listing: Listing, path: Seq<char>)
    requires
        ascending(listing),
    ensures
        is_place(listing, path, place(listing, path)),
    decreases listing.len(),
{
    if listing.len() > 0 {
        let last = listing.len() - 1;
        if precedes(listing[last].0, path) {
            assert forall|i: int| 0 <= i < listing.len() implies precedes(
                (#[trigger] listing[i]).0,
                path,
            ) by {
                if i < last {
                    assert(precedes(listing[i].0, listing[last].0));
                    lemma_precedes_transitive(listing[i].0, listing[last].0, path);
                }
            }
        } else {
            let front = listing.drop_last();
            lemma_ascending_front(listing);
            lemma_place(front, path);
            let at = place(front, path);
            assert forall|i: int| 0 <= i < at implies precedes((#[trigger] listing[i]).0, path) by {
                assert(listing[i] == front[i]);
            }
            assert forall|i: int| at <= i < listing.len() implies !precedes(
                (#[trigger] listing[i]).0,
                path,
            ) by {
                if i < last {
                    assert(listing[i] == front[i]);
                }
            }
        }
    }
}

/// Recording a path at its place keeps an ascending listing ascending, and
/// maps the path to its new kind while every other path keeps its own.
pub proof fn lemma_recorded(listing: Listing, at: int, path: Seq<char>, kind: EntryKind)
    requires
        ascending(listing),
        is_place(listing, path, at),
    ensures
        ascending(recorded(listing, at, path, kind)),
        mapping(recorded(listing, at, path, kind)) == mapping(listing).insert(path, kind),
{
    let after = recorded(listing, at, path, kind);
    lemma_ascending_distinct(listing);
    if at < listing.len() && listing[at].0 == path {
        assert forall|j: int| at < j < listing.len() implies (#[trigger] listing[j]).0
            != listing[at].0 by {
            assert(listing[at].0 != listing[j].0);
        }
        lemma_mapping_update(listing, at, kind);
        assert forall|i: int, j: int|
            #![trigger after[i], after[j]]
            0 <= i < j < after.len() implies precedes(after[i].0, after[j].0) by {
            assert(after[i].0 == listing[i].0 && after[j].0 == listing[j].0);
        }
    } else {
        assert forall|j: int| at <= j < listing.len() implies precedes(
            path,
            (#[trigger] listing[j]).0,
        ) by {
            lemma_precedes_total(listing[at].0, path);
            if at < j {
                assert(precedes(listing[at].0, listing[j].0));
                lemma_precedes_transitive(path, listing[at].0, listing[j].0);
            }
        }
        assert forall|j: int| at <= j < listing.len() implies (#[trigger] listing[j]).0 != path by {
            lemma_precedes_irreflexive(path);
        }
        lemma_mapping_insert(listing, at, path, kind);
        assert forall|i: int, j: int|
            #![trigger after[i], after[j]]
            0 <= i < j < after.len() implies precedes(after[i].0, after[j].0) by {
            if j < at {
                assert(after[i] == listing[i] && after[j] == listing[j]);
            } else if j == at {
                assert(after[i] == listing[i]);
            } else if i < at {
                assert(after[i] == listing[i] && after[j] == listing[j - 1]);
            } else if i == at {
                assert(after[j] == listing[j - 1]);
            } else {
                assert(after[i] == listing[i - 1] && after[j] == listing[j - 1]);
            }
        }
    }
}

/// A mapping has at most one ascending listing: two ascending listings that
/// stand for the same mapping are the same sequence.
pub proof fn lemma_listing_unique(a: Listing, b: Listing)
    requires
        ascending(a),
        ascending(b),
        mapping(a) == mapping(b),
    ensures
        a == b,
    decreases a.len(),
{
    if a.len() == 0 || b.len() == 0 {
        if a.len() > 0 {
            lemma_mapping_keys(a, a[0].0);
            lemma_mapping_keys(b, a[0].0);
        }
        if b.len() > 0 {
            lemma_mapping_keys(a, b[0].0);
            lemma_mapping_keys(b, b[0].0);
        }
        assert(a =~= b);
    } else {
        let last_a = a.len() - 1;
        let last_b = b.len() - 1;
        lemma_mapping_keys(a, a[last_a].0);
        lemma_mapping_keys(b, a[last_a].0);
        lemma_mapping_keys(a, b[last_b].0);
        lemma_mapping_keys(b, b[last_b].0);
        let i = choose|i: int| 0 <= i < a.len() && (#[trigger] a[i]).0 == b[last_b].0;
        let j = choose|j: int| 0 <= j < b.len() && (#[trigger] b[j]).0 == a[last_a].0;
        assert(a[last_a].0 == b[last_b].0) by {
            lemma_listing_order(a, i, last_a);
            lemma_listing_order(b, j, last_b);
            lemma_precedes_asymmetric(a[last_a].0, b[last_b].0);
            lemma_precedes_irreflexive(a[last_a].0);
        }
        lemma_ascending_distinct(a);
        lemma_ascending_distinct(b);
        assert(a[last_a].1 == b[last_b].1) by {
            lemma_mapping_distinct(a, last_a);
            lemma_mapping_distinct(b, last_b);
        }
        let front_a = a.drop_last();
        let front_b = b.drop_last();
        let path = a[last_a].0;
        assert(!mapping(front_a).contains_key(path)) by {
            lemma_mapping_keys(front_a, path);
            if names(front_a, path) {
                let k = choose|k: int| 0 <= k < front_a.len() && (#[trigger] front_a[k]).0 == path;
                assert(front_a[k] == a[k]);
                assert(a[k].0 != a[last_a].0);
            }
        }
        assert(!mapping(front_b).contains_key(path)) by {
            lemma_mapping_keys(front_b, path);
            if names(front_b, path) {
                let k = choose|k: int| 0 <= k < front_b.len() && (#[trigger] front_b[k]).0 == path;
                assert(front_b[k] == b[k]);
                assert(b[k].0 != b[last_b].0);
            }
        }
        assert(mapping(front_a) =~= mapping(a).remove(path));
        assert(mapping(front_b) =~= mapping(b).remove(path));
        lemma_ascending_front(a);
        lemma_ascending_front(b);
        lemma_listing_unique(front_a, front_b);
        assert(a =~= front_a.push(a[last_a]));
        assert(b =~= front_b.push(b[last_b]));
    }
}

/// An ascending listing is the listing of the mapping it stands for.
pub proof fn lemma_listing_of_mapping(listing: Listing)
    requires
        ascending(listing),
    ensures
        listing_of(mapping(listing)) == listing,
{
    lemma_listing_unique(listing_of(mapping(listing)), listing);
}

/// Whatever pairs are recorded, in whatever order, the mapping they stand
/// for has an ascending listing: it holds each path once, with the kind the
/// path was last recorded with.
pub proof fn lemma_listing_exists(pairs: Listing)
    ensures
        ascending(listing_of(mapping(pairs))),
        mapping(listing_of(mapping(pairs))) == mapping(pairs),
    decreases pairs.len(),
{
    if pairs.len() == 0 {
        let none = Seq::<(Seq<char>, EntryKind)>::empty();
        assert(ascending(none) && mapping(none) == mapping(pairs));
    } else {
        let front = pairs.drop_last();
        lemma_listing_exists(front);
        let sorted = listing_of(mapping(front));
        let (path, kind) = pairs.last();
        lemma_place(sorted, path);
        lemma_recorded(sorted, place(sorted, path), path, kind);
        let grown = recorded(sorted, place(sorted, path), path, kind);
        assert(ascending(grown) && mapping(grown) == mapping(pairs));
    }
}

/// Pairs that share no path stand for the same mapping in whatever order
/// they are recorded.
pub proof fn lemma_mapping_of_permutation(a: Listing, b: Listing)
    requires
        distinct_paths(a),
        a.to_multiset() == b.to_multiset(),
    ensures
        distinct_paths(b),
        mapping(a) == mapping(b),
{
    a.to_multiset_ensures();
    b.to_multiset_ensures();
    assert(a.no_duplicates()) by {
        assert forall|i: int, j: int| 0 <= i < a.len() && 0 <= j < a.len() && i != j implies a[i]
            != a[j] by {
            if i < j {
                assert(a[i].0 != a[j].0);
            } else {
                assert(a[j].0 != a[i].0);
            }
        }
    }
    a.lemma_multiset_has_no_duplicates();
    b.lemma_multiset_has_no_duplicates_conv();
    assert forall|i: int, j: int|
        #![trigger b[i], b[j]]
        0 <= i < j < b.len() implies b[i].0 != b[j].0 by {
        if b[i].0 == b[j].0 {
            assert(b.contains(b[i]) && b.to_multiset().count(b[i]) > 0);
            assert(b.contains(b[j]) && b.to_multiset().count(b[j]) > 0);
            assert(a.to_multiset().count(b[i]) > 0 && a.contains(b[i]));
            assert(a.to_multiset().count(b[j]) > 0 && a.contains(b[j]));
            let k = choose|k: int| 0 <= k < a.len() && a[k] == b[i];
            let l = choose|l: int| 0 <= l < a.len() && a[l] == b[j];
            assert(b[i] != b[j]);
            if k < l {
                assert(a[k].0 != a[l].0);
            } else {
                assert(a[l].0 != a[k].0);
            }
        }
    }
    assert forall|path: Seq<char>| #[trigger]
        mapping(a).dom().contains(path) == mapping(b).dom().contains(path) by {
        lemma_mapping_keys(a, path);
        lemma_mapping_keys(b, path);
        if names(a, path) {
            let i = choose|i: int| 0 <= i < a.len() && (#[trigger] a[i]).0 == path;
            assert(a.contains(a[i]) && a.to_multiset().count(a[i]) > 0);
            assert(b.to_multiset().count(a[i]) > 0 && b.contains(a[i]));
            let j = choose|j: int| 0 <= j < b.len() && b[j] == a[i];
            assert(b[j].0 == path);
        }
        if names(b, path) {
            let j = choose|j: int| 0 <= j < b.len() && (#[trigger] b[j]).0 == path;
            assert(b.contains(b[j]) && b.to_multiset().count(b[j]) > 0);
            assert(a.to_multiset().count(b[j]) > 0 && a.contains(b[j]));
            let i = choose|i: int| 0 <= i < a.len() && a[i] == b[j];
            assert(a[i].0 == path);
        }
    }
    assert forall|path: Seq<char>| #[trigger] mapping(a).dom().contains(path) implies mapping(
        a,
    )[path] == mapping(b)[path] by {
        lemma_mapping_keys(a, path);
        let i = choose|i: int| 0 <= i < a.len() && (#[trigger] a[i]).0 == path;
        assert(a.contains(a[i]) && a.to_multiset().count(a[i]) > 0);
        assert(b.to_multiset().count(a[i]) > 0 && b.contains(a[i]));
        let j = choose|j: int| 0 <= j < b.len() && b[j] == a[i];
        lemma_mapping_distinct(a, i);
        lemma_mapping_distinct(b, j);
    }
    assert(mapping(a) =~= mapping(b));
}

} // verus!
