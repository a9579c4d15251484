//! From a traversal to a tree.
//!
//! The traversal of the file system happens elsewhere. This module holds what
//! is decided about its results: which entries the traversal may enter, which
//! of the nodes it reports become entries of the tree, and which reports end
//! the run.
//!
//! The metadata directory of version control is shut out by its name alone,
//! whatever any ignore file says of it: the traversal does not enter it, and
//! no report of it is taken into the tree.

use vstd::prelude::*;
use crate::listing::{
    ascending,
    lemma_listing_exists,
    lemma_listing_of_mapping,
    lemma_mapping_keys,
    listing_of,
    mapping,
    names,
    EntryKind,
    Listing,
};
use crate::order::same_text;
use crate::path::{display_name, first_component, last_component, leading_name};
use crate::tree::Tree;

verus! {

/// What a traversal reports of one file system node.
#[derive(Debug)]
pub enum Visit {
    /// The node could not be read. `depth` is its distance from the root,
    /// where that is known: at depth 0 it is the root itself.
    Unreadable { depth: Option<usize> },
    /// The root of the traversal.
    Root,
    /// A node whose path cannot be stated relative to the root.
    Unrelated,
    /// A node beneath the root, by its path relative to the root.
    Found { path: String, is_dir: bool },
}

/// Why no tree could be built.
#[derive(Clone, Copy, Debug, PartialEq, Eq, Structural)]
pub enum TreeError {
    /// The root does not exist or cannot be traversed.
    InvalidRootPath,
    /// A visited path cannot be stated relative to the root.
    PathRelativization,
}

/// The name of the version-control metadata directory, which is never listed.
pub open spec fn metadata_name() -> Seq<char> {
    ".git"@
}

/// Whether the entry with the name `file_name` and the path `relative`
/// beneath the root is let in: it is not called like the metadata directory,
/// and it does not lie at or beneath the metadata directory of the root.
pub open spec fn admitted(file_name: Seq<char>, relative: Seq<char>) -> bool {
    file_name != metadata_name() && first_component(relative) != metadata_name()
}

/// Whether a node found at `path` is let in, going by the path alone: its
/// name is the last component of the path.
pub open spec fn listable(path: Seq<char>) -> bool {
    admitted(last_component(path), path)
}

/// The kind of a node, by whether it is a directory.
pub open spec fn kind_of(is_dir: bool) -> EntryKind {
    if is_dir {
        EntryKind::Directory
    } else {
        EntryKind::File
    }
}

/// The error with which a visit ends the run, if it does.
pub open spec fn fault_of(visit: Visit) -> Option<TreeError> {
    match visit {
        Visit::Unreadable { depth: Some(depth) } => if depth == 0 {
            Some(TreeError::InvalidRootPath)
        } else {
            None
        },
        Visit::Unrelated => Some(TreeError::PathRelativization),
        _ => None,
    }
}

/// The error of the first visit that ends the run, if any does.
pub open spec fn fault(visits: Seq<Visit>) -> Option<TreeError>
    decreases visits.len(),
{
    if visits.len() == 0 {
        None
    } else {
        match fault(visits.drop_last()) {
            Some(error) => Some(error),
            None => fault_of(visits.last()),
        }
    }
}

/// `visit` reports a node at `path` that is taken into the tree.
pub open spec fn keeps(visit: Visit, path: Seq<char>) -> bool {
    match visit {
        Visit::Found { path: at, .. } => at@ == path && listable(path),
        _ => false,
    }
}

/// The nodes that are taken into the tree, in the order of their visits,
/// each with its path and kind: those found beneath the root and let in.
pub open spec fn kept(visits: Seq<Visit>) -> Listing
    decreases visits.len(),
{
    if visits.len() == 0 {
        Seq::empty()
    } else {
        match visits.last() {
            Visit::Found { path, is_dir } => if listable(path@) {
                kept(visits.drop_last()).push((path@, kind_of(is_dir)))
            } else {
                kept(visits.drop_last())
            },
            _ => kept(visits.drop_last()),
        }
    }
}

/// The listing of the tree of a traversal: each path at which a node was
/// found and let in, once, in ascending order, with the kind that was last
/// reported of it.
pub open spec fn listed(visits: Seq<Visit>) -> Listing {
    listing_of(mapping(kept(visits)))
}

/// Every pair among the nodes kept comes from a visit that keeps its path.
proof fn lemma_kept_pairs(visits: Seq<Visit>, k: int)
    requires
        0 <= k < kept(visits).len(),
    ensures
        exists|i: int| 0 <= i < visits.len() && keeps(#[trigger] visits[i], kept(visits)[k].0),
    decreases visits.len(),
{
    let front = visits.drop_last();
    let last = visits.len() - 1;
    if k < kept(front).len() {
        lemma_kept_pairs(front, k);
        let i = choose|i: int| 0 <= i < front.len() && keeps(#[trigger] front[i], kept(front)[k].0);
        assert(keeps(visits[i], kept(visits)[k].0));
    } else {
        assert(keeps(visits[last], kept(visits)[k].0));
    }
}

/// Every visit that keeps a path has its pair among the nodes kept.
proof fn lemma_kept_visits(visits: Seq<Visit>, i: int, path: Seq<char>)
    requires
        0 <= i < visits.len(),
        keeps(visits[i], path),
    ensures
        names(kept(visits), path),
    decreases visits.len(),
{
    let front = visits.drop_last();
    let last = visits.len() - 1;
    if i < last {
        assert(front[i] == visits[i]);
        lemma_kept_visits(front, i, path);
        let k = choose|k: int| 0 <= k < kept(front).len() && (#[trigger] kept(front)[k]).0 == path;
        assert(kept(visits)[k].0 == path);
    } else {
        assert(kept(visits)[kept(visits).len() - 1].0 == path);
    }
}

/// The listing is ascending, and it stands for the mapping of the nodes
/// kept.
pub proof fn lemma_listed(visits: Seq<Visit>)
    ensures
        ascending(listed(visits)),
        mapping(listed(visits)) == mapping(kept(visits)),
{
    lemma_listing_exists(kept(visits));
}

/// The listing names exactly the paths at which some visit found a node
/// that is let in: none of them is left out, and no other path is listed.
pub proof fn lemma_listed_exactly_kept(visits: Seq<Visit>, path: Seq<char>)
    ensures
        names(listed(visits), path) <==> exists|i: int|
            0 <= i < visits.len() && keeps(#[trigger] visits[i], path),
{
    lemma_listed(visits);
    lemma_mapping_keys(listed(visits), path);
    lemma_mapping_keys(kept(visits), path);
    if names(kept(visits), path) {
        let pairs = kept(visits);
        let k = choose|k: int| 0 <= k < pairs.len() && (#[trigger] pairs[k]).0 == path;
        lemma_kept_pairs(visits, k);
    }
    if exists|i: int| 0 <= i < visits.len() && keeps(#[trigger] visits[i], path) {
        let i = choose|i: int| 0 <= i < visits.len() && keeps(#[trigger] visits[i], path);
        lemma_kept_visits(visits, i, path);
    }
}

/// A listed path has the kind that the last visit which keeps it reports.
pub proof fn lemma_listed_kind(visits: Seq<Visit>, i: int)
    requires
        0 <= i < visits.len(),
        visits[i] is Found,
        listable(visits[i]->path@),
        forall|j: int| i < j < visits.len() ==> !keeps(#[trigger] visits[j], visits[i]->path@),
    ensures
        mapping(listed(visits)).contains_key(visits[i]->path@),
        mapping(listed(visits))[visits[i]->path@] == kind_of(visits[i]->is_dir),
    decreases visits.len(),
{
    let front = visits.drop_last();
    let last = visits.len() - 1;
    let path = visits[i]->path@;
    lemma_listed(visits);
    lemma_listed(front);
    if keeps(visits[last], visits[last]->path@) {
        assert(kept(visits).drop_last() =~= kept(front));
    }
    if i < last {
        assert(!keeps(visits[last], path));
        assert(front[i] == visits[i]);
        assert forall|j: int| i < j < front.len() implies !keeps(#[trigger] front[j], path) by {
            assert(front[j] == visits[j]);
        }
        lemma_listed_kind(front, i);
    }
}

/// Whatever a traversal reports, no entry of the listing is called like the
/// metadata directory, and none lies at or beneath the metadata directory of
/// the root.
pub proof fn lemma_listed_shuts_out_metadata(visits: Seq<Visit>, k: int)
    requires
        0 <= k < listed(visits).len(),
    ensures
        last_component(listed(visits)[k].0) != metadata_name(),
        first_component(listed(visits)[k].0) != metadata_name(),
{
    let path = listed(visits)[k].0;
    assert(names(listed(visits), path));
    lemma_listed_exactly_kept(visits, path);
}

/// A fault among the first visits is the fault of the whole traversal.
pub proof fn lemma_fault_of_prefix(visits: Seq<Visit>, upto: int)
    requires
        0 <= upto <= visits.len(),
        fault(visits.take(upto)) is Some,
    ensures
        fault(visits) == fault(visits.take(upto)),
    decreases visits.len() - upto,
{
    if upto < visits.len() {
        assert(visits.take(upto + 1).drop_last() =~= visits.take(upto));
        lemma_fault_of_prefix(visits, upto + 1);
    } else {
        assert(visits.take(upto) =~= visits);
    }
}

/// Decides whether an entry is let in: a traversal neither yields nor enters
/// an entry that is not.
///
/// `file_name` is the name of the entry and `relative` its path beneath the
/// root, empty where it has none.
pub fn admits(file_name: &str, relative: &str) -> (yes: bool)
    ensures
        yes == admitted(file_name@, relative@),
{
    !same_text(file_name, ".git") && !same_text(leading_name(relative), ".git")
}

/// Builds the tree of the nodes that a traversal found.
///
/// Nodes that could not be read are passed over, and so are the root and
/// every node that is not let in. The first visit that reports the root
/// unreadable, or a path that cannot be stated relative to the root, ends
/// the run with its error.
pub fn generate_tree(visits: &[Visit]) -> (result: Result<Tree, TreeError>)
    ensures
        match result {
            Ok(tree) => {
                &&& fault(visits@) is None
                &&& tree.wf()
                &&& tree.content() == mapping(kept(visits@))
                &&& tree@ == listed(visits@)
            },
            Err(error) => fault(visits@) == Some(error),
        },
{
    let mut tree = Tree::new();
    let mut i: usize = 0;
    while i < visits.len()
        invariant
            i <= visits@.len(),
            fault(visits@.take(i as int)) is None,
            tree.wf(),
            tree.content() == mapping(kept(visits@.take(i as int))),
        decreases visits@.len() - i,
    {
        proof {
            assert(visits@.take(i + 1).drop_last() =~= visits@.take(i as int));
            assert(visits@.take(i + 1).last() == visits@[i as int]);
        }
        match &visits[i] {
            Visit::Unreadable { depth } => {
                match depth {
                    Some(d) => {
                        if *d == 0 {
                            proof {
                                lemma_fault_of_prefix(visits@, i + 1);
                            }
                            return Err(TreeError::InvalidRootPath);
                        }
                    },
                    None => {},
                }
            },
            Visit::Root => {},
            Visit::Unrelated => {
                proof {
                    lemma_fault_of_prefix(visits@, i + 1);
                }
                return Err(TreeError::PathRelativization);
            },
            Visit::Found { path, is_dir } => {
                if admits(display_name(path.as_str()), path.as_str()) {
                    let kind = if *is_dir {
                        EntryKind::Directory
                    } else {
                        EntryKind::File
                    };
                    proof {
                        let earlier = kept(visits@.take(i as int));
                        let pair = (path@, kind);
                        assert(kept(visits@.take(i + 1)) == earlier.push(pair));
                        assert(earlier.push(pair).drop_last() =~= earlier);
                    }
                    tree.insert(path.clone(), kind);
                }
            },
        }
        i = i + 1;
    }
    proof {
        assert(visits@.take(i as int) =~= visits@);
        lemma_listing_of_mapping(tree@);
    }
    Ok(tree)
}

} // verus!
