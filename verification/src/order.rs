//! The order in which paths are listed: lexicographic, character by
//! character, each character ranked by its code point.

use vstd::prelude::*;
use vstd::std_specs::iter::IteratorSpec;
use vstd::utf8::encode_utf8;
use crate::bytes::{bytes_precede, lemma_precedes_in_bytes};

verus! {

/// `a` sorts strictly before `b`.
///
/// A proper prefix sorts before every path it is a prefix of; otherwise the
/// first position at which the two paths differ decides.
pub open spec fn precedes(a: Seq<char>, b: Seq<char>) -> bool
    decreases a.len(),
{
    if b.len() == 0 {
        false
    } else if a.len() == 0 {
        true
    } else if a[0] != b[0] {
        (a[0] as int) < (b[0] as int)
    } else {
        precedes(a.drop_first(), b.drop_first())
    }
}

/// No path sorts before itself.
pub proof fn lemma_precedes_irreflexive(a: Seq<char>)
    ensures
        !precedes(a, a),
    decreases a.len(),
{
    if a.len() > 0 {
        lemma_precedes_irreflexive(a.drop_first());
    }
}

/// Two paths never sort before each other.
pub proof fn lemma_precedes_asymmetric(a: Seq<char>, b: Seq<char>)
    ensures
        !(precedes(a, b) && precedes(b, a)),
    decreases a.len(),
{
    if a.len() > 0 && b.len() > 0 && a[0] == b[0] {
        lemma_precedes_asymmetric(a.drop_first(), b.drop_first());
    }
}

/// The order is transitive.
pub proof fn lemma_precedes_transitive(a: Seq<char>, b: Seq<char>, c: Seq<char>)
    requires
        precedes(a, b),
        precedes(b, c),
    ensures
        precedes(a, c),
    decreases a.len(),
{
    if a.len() > 0 && a[0] == b[0] && b[0] == c[0] {
        lemma_precedes_transitive(a.drop_first(), b.drop_first(), c.drop_first());
    }
}

/// Two non-empty sequences with the same head and the same tail are equal.
proof fn lemma_head_and_tail(a: Seq<char>, b: Seq<char>)
    requires
        a.len() > 0,
        b.len() > 0,
        a[0] == b[0],
        a.drop_first() == b.drop_first(),
    ensures
        a == b,
{
    assert(a.len() == b.len()) by {
        assert(a.drop_first().len() == a.len() - 1);
        assert(b.drop_first().len() == b.len() - 1);
    }
    assert forall|i: int| 0 <= i < a.len() implies a[i] == b[i] by {
        if i > 0 {
            assert(a[i] == a.drop_first()[i - 1]);
            assert(b[i] == b.drop_first()[i - 1]);
        }
    }
    assert(a =~= b);
}

/// Any two different paths are ordered one way or the other.
pub proof fn lemma_precedes_total(a: Seq<char>, b: Seq<char>)
    ensures
        a == b || precedes(a, b) || precedes(b, a),
    decreases a.len(),
{
    if a.len() == 0 || b.len() == 0 {
        if a.len() == 0 && b.len() == 0 {
            assert(a =~= b);
        }
    } else if a[0] == b[0] {
        lemma_precedes_total(a.drop_first(), b.drop_first());
        if a.drop_first() == b.drop_first() {
            lemma_head_and_tail(a, b);
        }
    }
}

/// Decides whether `a` sorts strictly before `b`: by their characters, which
/// is to say by the bytes of the two strings.
pub fn path_precedes(a: &str, b: &str) -> (r: bool)
    ensures
        r == precedes(a@, b@),
        r == bytes_precede(encode_utf8(a@), encode_utf8(b@)),
{
    broadcast use vstd::string::group_string_axioms;

    proof {
        lemma_precedes_in_bytes(a@, b@);
    }
    let mut rest_a = a.chars();
    let mut rest_b = b.chars();
    loop
        invariant
            rest_a.obeys_prophetic_iter_laws(),
            rest_b.obeys_prophetic_iter_laws(),
            rest_a.decrease() is Some,
            precedes(a@, b@) == bytes_precede(encode_utf8(a@), encode_utf8(b@)),
            precedes(a@, b@) == precedes(rest_a.remaining(), rest_b.remaining()),
        decreases rest_a.decrease()->0,
    {
        let next_b = rest_b.next();
        let next_a = rest_a.next();
        match (next_a, next_b) {
            (_, None) => {
                return false;
            },
            (None, Some(_)) => {
                return true;
            },
            (Some(x), Some(y)) => {
                if x != y {
                    return x < y;
                }
            },
        }
    }
}

/// Decides whether two strings hold the same text.
pub fn same_text(a: &str, b: &str) -> (r: bool)
    ensures
        r == (a@ == b@),
{
    broadcast use vstd::string::group_string_axioms;

    let mut rest_a = a.chars();
    let mut rest_b = b.chars();
    let ghost mut seen: int = 0;
    loop
        invariant
            rest_a.obeys_prophetic_iter_laws(),
            rest_b.obeys_prophetic_iter_laws(),
            rest_a.decrease() is Some,
            0 <= seen <= a@.len(),
            seen <= b@.len(),
            rest_a.remaining() == a@.skip(seen),
            rest_b.remaining() == b@.skip(seen),
            a@.take(seen) == b@.take(seen),
        decreases rest_a.decrease()->0,
    {
        let next_b = rest_b.next();
        let next_a = rest_a.next();
        match (next_a, next_b) {
            (None, None) => {
                assert(a@ =~= a@.take(seen));
                assert(b@ =~= b@.take(seen));
                return true;
            },
            (Some(x), Some(y)) => {
                if x != y {
                    assert(a@[seen] != b@[seen]);
                    return false;
                }
                proof {
                    assert(a@.skip(seen).drop_first() =~= a@.skip(seen + 1));
                    assert(b@.skip(seen).drop_first() =~= b@.skip(seen + 1));
                    assert(a@.take(seen + 1) =~= a@.take(seen).push(a@[seen]));
                    assert(b@.take(seen + 1) =~= b@.take(seen).push(b@[seen]));
                    seen = seen + 1;
                }
            },
            _ => {
                assert(a@.len() != b@.len());
                return false;
            },
        }
    }
}

} // verus!
