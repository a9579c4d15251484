//! Anatomy of a relative path: components separated by `/`.
//!
//! A path is a sequence of characters. Nothing is normalised: an empty
//! component (as in `a//b`) is a component like any other.

use vstd::prelude::*;
use vstd::std_specs::iter::IteratorSpec;
use vstd::string::{StrSliceExecFns, StringExecFns};

verus! {

/// The character that separates the components of a path.
pub open spec fn separator() -> char {
    '/'
}

/// How many separators `path` holds: the nesting depth of the entry it names.
pub open spec fn separator_count(path: Seq<char>) -> nat
    decreases path.len(),
{
    if path.len() == 0 {
        0
    } else if path.last() == separator() {
        separator_count(path.drop_last()) + 1
    } else {
        separator_count(path.drop_last())
    }
}

/// Where the last component of `path` begins: just behind the last
/// separator, or at 0 where there is none.
pub open spec fn name_start(path: Seq<char>) -> int
    decreases path.len(),
{
    if path.len() == 0 {
        0
    } else if path.last() == separator() {
        path.len() as int
    } else {
        name_start(path.drop_last())
    }
}

/// The last component of `path`: the name under which the entry is shown.
pub open spec fn last_component(path: Seq<char>) -> Seq<char> {
    path.skip(name_start(path))
}

/// Where the first component of `path` ends: at the first separator, or at
/// the end of the path where there is none.
pub open spec fn first_stop(path: Seq<char>) -> int
    decreases path.len(),
{
    if path.len() == 0 || path[0] == separator() {
        0
    } else {
        1 + first_stop(path.drop_first())
    }
}

/// The first component of `path`.
pub open spec fn first_component(path: Seq<char>) -> Seq<char> {
    path.take(first_stop(path))
}

/// The components of `path`: what stands before, between and behind its
/// separators, in order. A path without a separator is its only component.
pub open spec fn components(path: Seq<char>) -> Seq<Seq<char>>
    decreases path.len(),
{
    if 0 < name_start(path) <= path.len() {
        components(path.take(name_start(path) - 1)).push(last_component(path))
    } else {
        seq![path]
    }
}

/// Components in sequence with a separator between each two of them.
pub open spec fn joined(parts: Seq<Seq<char>>) -> Seq<char>
    decreases parts.len(),
{
    if parts.len() == 0 {
        Seq::empty()
    } else if parts.len() == 1 {
        parts[0]
    } else {
        joined(parts.drop_last()) + seq![separator()] + parts.last()
    }
}

/// The last component is the one suffix of the path that holds no separator
/// and stands either at the start of the path or just behind a separator.
pub proof fn lemma_last_component(path: Seq<char>)
    ensures
        0 <= name_start(path) <= path.len(),
        name_start(path) == 0 || path[name_start(path) - 1] == separator(),
        forall|i: int| name_start(path) <= i < path.len() ==> path[i] != separator(),
        !last_component(path).contains(separator()),
    decreases path.len(),
{
    if path.len() > 0 && path.last() != separator() {
        let front = path.drop_last();
        lemma_last_component(front);
        assert forall|i: int| name_start(path) <= i < path.len() implies path[i] != separator() by {
            if i < front.len() {
                assert(path[i] == front[i]);
            }
        }
        if name_start(path) > 0 {
            assert(path[name_start(path) - 1] == front[name_start(front) - 1]);
        }
    }
    let name = last_component(path);
    assert forall|i: int| 0 <= i < name.len() implies name[i] != separator() by {
        assert(name[i] == path[name_start(path) + i]);
    }
}

/// The first component is the one prefix of the path that holds no separator
/// and reaches either the end of the path or the first separator.
pub proof fn lemma_first_component(path: Seq<char>)
    ensures
        0 <= first_stop(path) <= path.len(),
        first_stop(path) == path.len() || path[first_stop(path)] == separator(),
        forall|i: int| 0 <= i < first_stop(path) ==> path[i] != separator(),
        !first_component(path).contains(separator()),
    decreases path.len(),
{
    if path.len() > 0 && path[0] != separator() {
        let rest = path.drop_first();
        lemma_first_component(rest);
        assert forall|i: int| 0 <= i < first_stop(path) implies path[i] != separator() by {
            if i > 0 {
                assert(path[i] == rest[i - 1]);
            }
        }
        if first_stop(path) < path.len() {
            assert(path[first_stop(path)] == rest[first_stop(rest)]);
        }
    }
}

/// A position that no separator precedes and at which the path ends or a
/// separator stands is where the first component ends.
pub proof fn lemma_first_stop_is(path: Seq<char>, stop: int)
    requires
        0 <= stop <= path.len(),
        forall|i: int| 0 <= i < stop ==> path[i] != separator(),
        stop == path.len() || path[stop] == separator(),
    ensures
        first_stop(path) == stop,
    decreases path.len(),
{
    if stop > 0 {
        let rest = path.drop_first();
        assert forall|i: int| 0 <= i < stop - 1 implies rest[i] != separator() by {
            assert(rest[i] == path[i + 1]);
        }
        lemma_first_stop_is(rest, stop - 1);
    }
}

/// A path without a separator is its own single component.
pub proof fn lemma_flat_path(path: Seq<char>)
    requires
        !path.contains(separator()),
    ensures
        separator_count(path) == 0,
        last_component(path) == path,
        first_component(path) == path,
    decreases path.len(),
{
    if path.len() > 0 {
        let front = path.drop_last();
        assert(path.last() == path[path.len() - 1]);
        assert forall|i: int| 0 <= i < front.len() implies front[i] != separator() by {
            assert(front[i] == path[i]);
        }
        lemma_flat_path(front);
        assert(name_start(front) == 0) by {
            lemma_last_component(front);
            if name_start(front) > 0 {
                assert(front[name_start(front) - 1] == separator());
            }
        }
    }
    assert(path.skip(0) =~= path);
    lemma_first_stop_is(path, path.len() as int);
    assert(path.take(path.len() as int) =~= path);
}

/// The separators of a path before its last one are those of the path up to
/// that separator.
proof fn lemma_separators_before_name(path: Seq<char>)
    requires
        name_start(path) > 0,
    ensures
        separator_count(path) == separator_count(path.take(name_start(path) - 1)) + 1,
        first_stop(path) == first_stop(path.take(name_start(path) - 1)),
    decreases path.len(),
{
    lemma_last_component(path);
    let start = name_start(path);
    let front = path.drop_last();
    if path.last() == separator() {
        assert(front =~= path.take(start - 1));
    } else {
        lemma_separators_before_name(front);
        assert(front.take(start - 1) =~= path.take(start - 1));
    }
    let head = path.take(start - 1);
    lemma_first_component(head);
    let stop = first_stop(head);
    assert forall|i: int| 0 <= i < stop implies path[i] != separator() by {
        assert(path[i] == head[i]);
    }
    if stop < head.len() {
        assert(path[stop] == head[stop]);
    }
    lemma_first_stop_is(path, stop);
}

/// Splitting a path at its separators gives one component more than it has
/// separators. No component holds a separator, the first and the last are
/// the first and the last component of the path, and the components joined
/// are the path again.
pub proof fn lemma_components(path: Seq<char>)
    ensures
        components(path).len() == separator_count(path) + 1,
        components(path).first() == first_component(path),
        components(path).last() == last_component(path),
        forall|i: int|
            0 <= i < components(path).len() ==> !(#[trigger] components(path)[i]).contains(
                separator(),
            ),
        joined(components(path)) == path,
    decreases path.len(),
{
    lemma_last_component(path);
    let start = name_start(path);
    if start > 0 {
        let head = path.take(start - 1);
        let parts = components(head);
        lemma_components(head);
        lemma_separators_before_name(path);
        assert(components(path).drop_last() =~= parts);
        assert(first_component(head) =~= first_component(path)) by {
            lemma_first_component(head);
        }
        assert(joined(components(path)) =~= path);
    } else {
        assert(!path.contains(separator()));
        lemma_flat_path(path);
    }
}

/// Behind a separator, a text that holds none is the last component.
proof fn lemma_name_behind_separator(front: Seq<char>, name: Seq<char>)
    requires
        !name.contains(separator()),
    ensures
        name_start(front + seq![separator()] + name) == front.len() + 1,
    decreases name.len(),
{
    let path = front + seq![separator()] + name;
    if name.len() == 0 {
        assert(path.last() == separator());
    } else {
        let shorter = name.drop_last();
        assert(path.last() == name[name.len() - 1]);
        assert forall|i: int| 0 <= i < shorter.len() implies shorter[i] != separator() by {
            assert(shorter[i] == name[i]);
        }
        lemma_name_behind_separator(front, shorter);
        assert(path.drop_last() =~= front + seq![separator()] + shorter);
    }
}

/// Components that hold no separator are the components of the path that
/// they are joined to.
pub proof fn lemma_components_of_joined(parts: Seq<Seq<char>>)
    requires
        parts.len() > 0,
        forall|i: int| 0 <= i < parts.len() ==> !(#[trigger] parts[i]).contains(separator()),
    ensures
        components(joined(parts)) == parts,
    decreases parts.len(),
{
    let path = joined(parts);
    if parts.len() == 1 {
        lemma_last_component(path);
        if name_start(path) > 0 {
            assert(path.contains(path[name_start(path) - 1]));
        }
        assert(components(path) =~= parts);
    } else {
        let front = parts.drop_last();
        let name = parts[parts.len() - 1];
        assert forall|i: int| 0 <= i < front.len() implies !(#[trigger] front[i]).contains(
            separator(),
        ) by {
            assert(front[i] == parts[i]);
        }
        lemma_components_of_joined(front);
        lemma_name_behind_separator(joined(front), name);
        assert(path.take(name_start(path) - 1) =~= joined(front));
        assert(last_component(path) =~= name);
        assert(components(path) =~= parts);
    }
}

/// The texts of `parts`, in order.
pub open spec fn texts(parts: Seq<String>) -> Seq<Seq<char>> {
    Seq::new(parts.len(), |i: int| parts[i]@)
}

/// Makes a path of its components: they follow each other with a separator
/// between each two of them.
pub fn join_components(parts: &[String]) -> (path: String)
    ensures
        path@ == joined(texts(parts@)),
{
    let mut path = String::new();
    let mut i: usize = 0;
    while i < parts.len()
        invariant
            i <= parts@.len(),
            path@ == joined(texts(parts@).take(i as int)),
        decreases parts@.len() - i,
    {
        proof {
            reveal_strlit("/");
            let upto = texts(parts@).take(i + 1);
            assert(upto.drop_last() =~= texts(parts@).take(i as int));
            assert(upto.last() == parts@[i as int]@);
            assert("/"@ =~= seq![separator()]);
            if i == 0 {
                assert(path@ + parts@[0]@ =~= parts@[0]@);
            }
        }
        if i > 0 {
            path.append("/");
        }
        path.append(parts[i].as_str());
        i = i + 1;
    }
    proof {
        assert(texts(parts@).take(i as int) =~= texts(parts@));
    }
    path
}

/// Counts the separators of `path`.
pub fn depth(path: &str) -> (d: usize)
    ensures
        d == separator_count(path@),
{
    broadcast use vstd::string::group_string_axioms;

    let total = path.unicode_len();
    let mut d: usize = 0;
    let chars = path.chars();
    for c in it: chars
        invariant
            it.seq() == path@,
            total == path@.len(),
            d <= it.index(),
            d == separator_count(path@.take(it.index() as int)),
    {
        proof {
            let upto = path@.take(it.index() + 1);
            assert(upto.drop_last() =~= path@.take(it.index() as int));
            assert(upto.last() == c);
        }
        if c == '/' {
            d = d + 1;
        }
    }
    proof {
        assert(path@.take(path@.len() as int) =~= path@);
    }
    d
}

/// The name under which the entry at `path` is shown: its last component.
pub fn display_name(path: &str) -> (name: &str)
    ensures
        name@ == last_component(path@),
{
    broadcast use vstd::string::group_string_axioms;

    let total = path.unicode_len();
    let mut start: usize = 0;
    let mut seen: usize = 0;
    let chars = path.chars();
    for c in it: chars
        invariant
            it.seq() == path@,
            total == path@.len(),
            seen == it.index(),
            start == name_start(path@.take(seen as int)),
            start <= seen,
    {
        proof {
            let upto = path@.take(seen + 1);
            assert(upto.drop_last() =~= path@.take(seen as int));
            assert(upto.last() == c);
        }
        seen = seen + 1;
        if c == '/' {
            start = seen;
        }
    }
    proof {
        assert(path@.take(path@.len() as int) =~= path@);
        assert(path@.subrange(start as int, total as int) =~= path@.skip(start as int));
    }
    path.substring_char(start, total)
}

/// The first component of `path`.
pub fn leading_name(path: &str) -> (name: &str)
    ensures
        name@ == first_component(path@),
{
    broadcast use vstd::string::group_string_axioms;

    let total = path.unicode_len();
    let mut stop: usize = 0;
    let mut rest = path.chars();
    loop
        invariant_except_break
            rest.obeys_prophetic_iter_laws(),
            rest.decrease() is Some,
            stop <= total,
            rest.remaining() == path@.skip(stop as int),
            forall|i: int| 0 <= i < stop ==> path@[i] != separator(),
        invariant
            total == path@.len(),
        ensures
            stop <= total,
            first_stop(path@) == stop,
        decreases rest.decrease()->0,
    {
        match rest.next() {
            None => {
                proof {
                    lemma_first_stop_is(path@, stop as int);
                }
                break ;
            },
            Some(c) => {
                assert(c == path@[stop as int]);
                if c == '/' {
                    proof {
                        lemma_first_stop_is(path@, stop as int);
                    }
                    break ;
                }
                proof {
                    assert(path@.skip(stop as int).drop_first() =~= path@.skip(stop + 1));
                }
                stop = stop + 1;
            },
        }
    }
    proof {
        assert(path@.subrange(0, stop as int) =~= path@.take(stop as int));
    }
    path.substring_char(0, stop)
}

} // verus!
