//! The order of paths is the order of their bytes.
//!
//! A string is kept as the UTF-8 encoding of its characters, and strings are
//! compared byte by byte. UTF-8 keeps the order of code points, so comparing
//! the characters of two paths and comparing their bytes come to the same.

use vstd::prelude::*;
use vstd::utf8::{
    encode_scalar,
    encode_utf8,
    has_width_1_encoding,
    has_width_2_encoding,
    has_width_3_encoding,
    has_width_4_encoding,
    is_scalar,
    last_continuation_byte,
    leading_byte_width_1,
    leading_byte_width_2,
    leading_byte_width_3,
    leading_byte_width_4,
    second_last_continuation_byte,
    third_last_continuation_byte,
};
use crate::order::precedes;

verus! {

/// `a` sorts strictly before `b`, byte by byte: a proper prefix sorts before
/// every string it is a prefix of; otherwise the first byte at which the two
/// differ decides.
pub open spec fn bytes_precede(a: Seq<u8>, b: Seq<u8>) -> bool
    decreases a.len(),
{
    if b.len() == 0 {
        false
    } else if a.len() == 0 {
        true
    } else if a[0] != b[0] {
        a[0] < b[0]
    } else {
        bytes_precede(a.drop_first(), b.drop_first())
    }
}

/// `x` and `y` agree before place `at`, and there `x` holds the lesser byte.
spec fn parts_at(x: Seq<u8>, y: Seq<u8>, at: int) -> bool {
    &&& 0 <= at < x.len()
    &&& at < y.len()
    &&& forall|i: int| 0 <= i < at ==> x[i] == y[i]
    &&& x[at] < y[at]
}

/// The first byte of an encoding tells its width: encodings of greater width
/// begin with greater bytes.
proof fn lemma_leading_bytes(c: u32)
    by (bit_vector)
    ensures
        has_width_1_encoding(c) ==> leading_byte_width_1(c) <= 0x7F,
        has_width_2_encoding(c) ==> 0xC0 <= leading_byte_width_2(c) <= 0xDF,
        has_width_3_encoding(c) ==> 0xE0 <= leading_byte_width_3(c) <= 0xEF,
        has_width_4_encoding(c) ==> 0xF0 <= leading_byte_width_4(c) <= 0xF7,
{
}

proof fn lemma_order_width_1(c: u32, d: u32)
    by (bit_vector)
    requires
        has_width_1_encoding(c),
        has_width_1_encoding(d),
        c < d,
    ensures
        leading_byte_width_1(c) < leading_byte_width_1(d),
{
}

proof fn lemma_order_width_2(c: u32, d: u32)
    by (bit_vector)
    requires
        has_width_2_encoding(c),
        has_width_2_encoding(d),
        c < d,
    ensures
        leading_byte_width_2(c) < leading_byte_width_2(d) || (leading_byte_width_2(c)
            == leading_byte_width_2(d) && last_continuation_byte(c) < last_continuation_byte(d)),
{
}

proof fn lemma_order_width_3(c: u32, d: u32)
    by (bit_vector)
    requires
        has_width_3_encoding(c),
        has_width_3_encoding(d),
        c < d,
    ensures
        leading_byte_width_3(c) < leading_byte_width_3(d) || (leading_byte_width_3(c)
            == leading_byte_width_3(d) && (second_last_continuation_byte(c)
            < second_last_continuation_byte(d) || (second_last_continuation_byte(c)
            == second_last_continuation_byte(d) && last_continuation_byte(c)
            < last_continuation_byte(d)))),
{
}

proof fn lemma_order_width_4(c: u32, d: u32)
    by (bit_vector)
    requires
        has_width_4_encoding(c),
        has_width_4_encoding(d),
        c < d,
    ensures
        leading_byte_width_4(c) < leading_byte_width_4(d) || (leading_byte_width_4(c)
            == leading_byte_width_4(d) && (third_last_continuation_byte(c)
            < third_last_continuation_byte(d) || (third_last_continuation_byte(c)
            == third_last_continuation_byte(d) && (second_last_continuation_byte(c)
            < second_last_continuation_byte(d) || (second_last_continuation_byte(c)
            == second_last_continuation_byte(d) && last_continuation_byte(c)
            < last_continuation_byte(d)))))),
{
}

/// The encodings of two scalar values part where the encoding of the lesser
/// value holds the lesser byte.
proof fn lemma_scalar_order(c: u32, d: u32)
    requires
        is_scalar(c),
        is_scalar(d),
        c < d,
    ensures
        exists|at: int| parts_at(encode_scalar(c), encode_scalar(d), at),
{
    let x = encode_scalar(c);
    let y = encode_scalar(d);
    lemma_leading_bytes(c);
    lemma_leading_bytes(d);
    if has_width_1_encoding(d) {
        lemma_order_width_1(c, d);
        assert(parts_at(x, y, 0));
    } else if has_width_1_encoding(c) {
        assert(parts_at(x, y, 0));
    } else if has_width_2_encoding(d) {
        lemma_order_width_2(c, d);
        if x[0] < y[0] {
            assert(parts_at(x, y, 0));
        } else {
            assert(parts_at(x, y, 1));
        }
    } else if has_width_2_encoding(c) {
        assert(parts_at(x, y, 0));
    } else if has_width_3_encoding(d) {
        lemma_order_width_3(c, d);
        if x[0] < y[0] {
            assert(parts_at(x, y, 0));
        } else if x[1] < y[1] {
            assert(parts_at(x, y, 1));
        } else {
            assert(parts_at(x, y, 2));
        }
    } else if has_width_3_encoding(c) {
        assert(parts_at(x, y, 0));
    } else {
        lemma_order_width_4(c, d);
        if x[0] < y[0] {
            assert(parts_at(x, y, 0));
        } else if x[1] < y[1] {
            assert(parts_at(x, y, 1));
        } else if x[2] < y[2] {
            assert(parts_at(x, y, 2));
        } else {
            assert(parts_at(x, y, 3));
        }
    }
}

/// Where two strings part, the one with the lesser byte sorts first,
/// whatever follows.
proof fn lemma_parted(x: Seq<u8>, y: Seq<u8>, s: Seq<u8>, t: Seq<u8>, at: int)
    requires
        parts_at(x, y, at),
    ensures
        bytes_precede(x + s, y + t),
        !bytes_precede(y + t, x + s),
    decreases at,
{
    assert((x + s)[0] == x[0] && (y + t)[0] == y[0]);
    if at > 0 {
        let x_rest = x.drop_first();
        let y_rest = y.drop_first();
        assert forall|i: int| 0 <= i < at - 1 implies x_rest[i] == y_rest[i] by {
            assert(x_rest[i] == x[i + 1] && y_rest[i] == y[i + 1]);
        }
        assert(x_rest[at - 1] == x[at] && y_rest[at - 1] == y[at]);
        lemma_parted(x_rest, y_rest, s, t, at - 1);
        assert((x + s).drop_first() =~= x_rest + s);
        assert((y + t).drop_first() =~= y_rest + t);
    }
}

/// What two strings begin with alike does not bear on their order.
proof fn lemma_shared_front(x: Seq<u8>, s: Seq<u8>, t: Seq<u8>)
    ensures
        bytes_precede(x + s, x + t) == bytes_precede(s, t),
    decreases x.len(),
{
    if x.len() == 0 {
        assert(x + s =~= s);
        assert(x + t =~= t);
    } else {
        let rest = x.drop_first();
        assert((x + s)[0] == x[0] && (x + t)[0] == x[0]);
        assert((x + s).drop_first() =~= rest + s);
        assert((x + t).drop_first() =~= rest + t);
        lemma_shared_front(rest, s, t);
    }
}

/// A character as a scalar value: its rank among code points.
proof fn lemma_char_scalar(c: char)
    ensures
        is_scalar(c as u32),
        (c as u32) as int == c as int,
        encode_scalar(c as u32).len() > 0,
{
}

/// Paths sort by their characters as their UTF-8 encodings sort by their
/// bytes.
pub proof fn lemma_precedes_in_bytes(a: Seq<char>, b: Seq<char>)
    ensures
        precedes(a, b) <==> bytes_precede(encode_utf8(a), encode_utf8(b)),
    decreases a.len(),
{
    if a.len() == 0 || b.len() == 0 {
        if b.len() > 0 {
            lemma_char_scalar(b[0]);
        }
        if a.len() > 0 {
            lemma_char_scalar(a[0]);
        }
    } else {
        let x = encode_scalar(a[0] as u32);
        let y = encode_scalar(b[0] as u32);
        let s = encode_utf8(a.drop_first());
        let t = encode_utf8(b.drop_first());
        lemma_char_scalar(a[0]);
        lemma_char_scalar(b[0]);
        if a[0] == b[0] {
            lemma_precedes_in_bytes(a.drop_first(), b.drop_first());
            lemma_shared_front(x, s, t);
        } else if (a[0] as int) < (b[0] as int) {
            lemma_scalar_order(a[0] as u32, b[0] as u32);
            let at = choose|at: int| parts_at(x, y, at);
            lemma_parted(x, y, s, t, at);
        } else {
            lemma_scalar_order(b[0] as u32, a[0] as u32);
            let at = choose|at: int| parts_at(y, x, at);
            lemma_parted(y, x, t, s, at);
        }
    }
}

} // verus!
