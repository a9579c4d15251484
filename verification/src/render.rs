//! The tree as text: a nested list between two markers, one line per entry,
//! indented by its depth.

use vstd::prelude::*;
use vstd::string::StringExecFns;
use crate::listing::{
    ascending,
    distinct_paths,
    lemma_listing_order,
    lemma_mapping_of_permutation,
    EntryKind,
    Listing,
};
use crate::order::precedes;
use crate::path::{
    components,
    depth,
    display_name,
    last_component,
    lemma_components,
    lemma_flat_path,
    separator,
    separator_count,
};
use crate::tree::Tree;
use crate::walk::{fault, generate_tree, kept, lemma_listed, listed, TreeError, Visit};

verus! {

/// The import statement that may open the text, with the blank line behind it.
pub open spec fn import_header() -> Seq<char> {
    "import { FileTree } from '@astrojs/starlight/components';\n\n"@
}

/// The line that opens the list.
pub open spec fn opening() -> Seq<char> {
    "<FileTree>\n"@
}

/// The line that closes the list.
pub open spec fn closing() -> Seq<char> {
    "</FileTree>\n"@
}

/// What stands before the entries: the import header, where it is asked for,
/// and the opening line.
pub open spec fn preamble(include_import: bool) -> Seq<char> {
    if include_import {
        import_header() + opening()
    } else {
        opening()
    }
}

/// The indentation of an entry at depth `depth`: two spaces for each level.
pub open spec fn indentation(depth: nat) -> Seq<char> {
    Seq::new(2 * depth, |i: int| ' ')
}

/// What follows the name of an entry: a separator for a directory, nothing
/// for a file.
pub open spec fn suffix(kind: EntryKind) -> Seq<char> {
    match kind {
        EntryKind::Directory => "/"@,
        EntryKind::File => Seq::empty(),
    }
}

/// The line of one entry: indented by the number of separators in its path,
/// a dash, the last component of the path as it is, and the suffix of its
/// kind.
pub open spec fn line(path: Seq<char>, kind: EntryKind) -> Seq<char> {
    indentation(separator_count(path)) + "- "@ + last_component(path) + suffix(kind) + "\n"@
}

/// The lines of the entries of `listing`, in its order.
pub open spec fn lines(listing: Listing) -> Seq<char>
    decreases listing.len(),
{
    if listing.len() == 0 {
        Seq::empty()
    } else {
        lines(listing.drop_last()) + line(listing.last().0, listing.last().1)
    }
}

/// The whole text for `listing`.
pub open spec fn document(listing: Listing, include_import: bool) -> Seq<char> {
    preamble(include_import) + lines(listing) + closing()
}

/// Where the line of the entry at place `i` begins among the lines of
/// `listing`.
pub open spec fn line_start(listing: Listing, i: int) -> int {
    lines(listing.take(i)).len() as int
}

/// What a run appends to its output for `visits`: the whole text for the
/// tree of the nodes found, or the preamble alone where a visit ends the run.
pub open spec fn rendered(visits: Seq<Visit>, include_import: bool) -> Seq<char> {
    if fault(visits) is None {
        document(listed(visits), include_import)
    } else {
        preamble(include_import)
    }
}

/// The width of the indentation of the entry at `path`: twice the number of
/// separators in the path.
pub open spec fn indent_width(path: Seq<char>) -> int {
    2 * (separator_count(path) as int)
}

/// The line of an entry opens with two spaces for each separator of its
/// path, that is for each of its components but the last, and with no more:
/// the dash follows at once. An entry directly beneath the root is not
/// indented at all, and its line shows its whole path.
pub proof fn lemma_line_indentation(path: Seq<char>, kind: EntryKind)
    ensures
        indent_width(path) == 2 * (components(path).len() - 1),
        line(path, kind).len() >= indent_width(path) + 3,
        forall|i: int| 0 <= i < indent_width(path) ==> line(path, kind)[i] == ' ',
        line(path, kind)[indent_width(path)] == '-',
        line(path, kind)[indent_width(path) + 1] == ' ',
        !path.contains(separator()) ==> line(path, kind) == "- "@ + path + suffix(kind) + "\n"@,
{
    reveal_strlit("- ");
    reveal_strlit("\n");
    lemma_components(path);
    if !path.contains(separator()) {
        lemma_flat_path(path);
        assert(indentation(0) + "- "@ =~= "- "@);
    }
}

/// With the import header, what a run appends is the header followed by
/// what it appends without: the header changes nothing behind it.
pub proof fn lemma_import_header(visits: Seq<Visit>)
    ensures
        rendered(visits, true) == import_header() + rendered(visits, false),
        document(listed(visits), true) == import_header() + document(listed(visits), false),
{
    let listing = listed(visits);
    assert(document(listing, true) =~= import_header() + document(listing, false));
}

/// The lines of a listing are those of its first entries followed by those
/// of the rest.
pub proof fn lemma_lines_split(listing: Listing, at: int)
    requires
        0 <= at <= listing.len(),
    ensures
        lines(listing) == lines(listing.take(at)) + lines(listing.skip(at)),
    decreases listing.len(),
{
    if at == listing.len() {
        assert(listing.take(at) =~= listing);
        assert(lines(listing) =~= lines(listing) + lines(listing.skip(at)));
    } else {
        let front = listing.drop_last();
        lemma_lines_split(front, at);
        assert(front.take(at) =~= listing.take(at));
        assert(listing.skip(at).drop_last() =~= front.skip(at));
        assert(listing.skip(at).last() == listing.last());
        assert(lines(listing) =~= lines(listing.take(at)) + lines(listing.skip(at)));
    }
}

/// The line of each entry stands in the lines of the listing, whole, where
/// the lines of the entries before it end.
pub proof fn lemma_line_placement(listing: Listing, i: int)
    requires
        0 <= i < listing.len(),
    ensures
        line_start(listing, i + 1) == line_start(listing, i) + line(
            listing[i].0,
            listing[i].1,
        ).len(),
        line_start(listing, i + 1) <= lines(listing).len(),
        lines(listing).subrange(line_start(listing, i), line_start(listing, i + 1)) == line(
            listing[i].0,
            listing[i].1,
        ),
{
    let upto = listing.take(i + 1);
    assert(upto.drop_last() =~= listing.take(i));
    assert(upto.last() == listing[i]);
    lemma_lines_split(listing, i + 1);
    assert(lines(listing).subrange(line_start(listing, i), line_start(listing, i + 1)) =~= line(
        listing[i].0,
        listing[i].1,
    ));
}

/// Lines begin in the order of the listing.
proof fn lemma_line_starts_ascend(listing: Listing, i: int, j: int)
    requires
        0 <= i < j < listing.len(),
    ensures
        line_start(listing, i) < line_start(listing, j),
    decreases j - i,
{
    lemma_line_placement(listing, j - 1);
    lemma_line_indentation(listing[j - 1].0, listing[j - 1].1);
    if i < j - 1 {
        lemma_line_starts_ascend(listing, i, j - 1);
    }
}

/// In the text of an ascending listing, the line of one entry begins before
/// the line of another exactly if its path sorts before the other's.
pub proof fn lemma_output_order(listing: Listing, i: int, j: int)
    requires
        ascending(listing),
        0 <= i < listing.len(),
        0 <= j < listing.len(),
    ensures
        line_start(listing, i) < line_start(listing, j) <==> precedes(listing[i].0, listing[j].0),
{
    lemma_listing_order(listing, i, j);
    if i < j {
        lemma_line_starts_ascend(listing, i, j);
    } else if j < i {
        lemma_line_starts_ascend(listing, j, i);
    }
}

/// In the text of a run, the line of one entry begins before the line of
/// another exactly if its path sorts before the other's.
pub proof fn lemma_rendered_order(visits: Seq<Visit>, i: int, j: int)
    requires
        0 <= i < listed(visits).len(),
        0 <= j < listed(visits).len(),
    ensures
        line_start(listed(visits), i) < line_start(listed(visits), j) <==> precedes(
            listed(visits)[i].0,
            listed(visits)[j].0,
        ),
{
    lemma_listed(visits);
    lemma_output_order(listed(visits), i, j);
}

/// The text does not depend on the order of the visits: two traversals that
/// take the same nodes into the tree, none of them twice, and that both run
/// to their end or are both cut short, give the same text. So does a second
/// traversal of a tree that has not changed.
pub proof fn lemma_visit_order_irrelevant(
    first: Seq<Visit>,
    second: Seq<Visit>,
    include_import: bool,
)
    requires
        fault(first) is None <==> fault(second) is None,
        distinct_paths(kept(first)),
        kept(first).to_multiset() == kept(second).to_multiset(),
    ensures
        rendered(first, include_import) == rendered(second, include_import),
{
    lemma_mapping_of_permutation(kept(first), kept(second));
}

/// Appends the line of one entry to `out`.
pub fn write_line(out: &mut String, path: &str, kind: EntryKind)
    ensures
        final(out)@ == old(out)@ + line(path@, kind),
{
    let levels = depth(path);
    let mut level: usize = 0;
    while level < levels
        invariant
            level <= levels,
            out@ == old(out)@ + indentation(level as nat),
        decreases levels - level,
    {
        proof {
            reveal_strlit("  ");
            assert(indentation((level + 1) as nat) =~= indentation(level as nat) + "  "@);
        }
        out.append("  ");
        level = level + 1;
    }
    out.append("- ");
    out.append(display_name(path));
    match kind {
        EntryKind::Directory => {
            out.append("/");
        },
        EntryKind::File => {
            assert(out@ + suffix(kind) =~= out@);
        },
    }
    out.append("\n");
}

/// Appends the lines of the entries of `tree` to `out`, in the order of its
/// listing.
pub fn write_tree(tree: &Tree, out: &mut String)
    ensures
        final(out)@ == old(out)@ + lines(tree@),
{
    let count = tree.len();
    let mut i: usize = 0;
    while i < count
        invariant
            i <= count,
            count == tree@.len(),
            out@ == old(out)@ + lines(tree@.take(i as int)),
        decreases count - i,
    {
        let entry = tree.entry(i);
        proof {
            assert(tree@.take(i + 1).drop_last() =~= tree@.take(i as int));
            assert(tree@.take(i + 1).last() == tree@[i as int]);
        }
        write_line(out, entry.path.as_str(), entry.kind);
        i = i + 1;
    }
    proof {
        assert(tree@.take(count as int) =~= tree@);
    }
}

/// Appends to `out` the text for the nodes that a traversal found: the
/// preamble, one line for each entry of their tree, and the closing line.
///
/// Where a visit ends the run, the preamble alone has been appended.
pub fn generate_filetree_mdx(
    visits: &[Visit],
    out: &mut String,
    include_import: bool,
) -> (result: Result<(), TreeError>)
    ensures
        final(out)@ == old(out)@ + rendered(visits@, include_import),
        match result {
            Ok(()) => fault(visits@) is None,
            Err(error) => fault(visits@) == Some(error),
        },
{
    if include_import {
        out.append("import { FileTree } from '@astrojs/starlight/components';\n\n");
    }
    out.append("<FileTree>\n");
    match generate_tree(visits) {
        Ok(tree) => {
            write_tree(&tree, out);
            out.append("</FileTree>\n");
            Ok(())
        },
        Err(error) => Err(error),
    }
}

} // verus!
