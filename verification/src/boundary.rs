//! Finding a safe place to cut a UTF-8 byte sequence.
//!
//! A cut is safe when the byte that follows it is not a continuation byte,
//! so that no multi-byte code point is split in two.

use vstd::prelude::*;
use vstd::utf8::*;

verus! {

/// `cut` is the closest boundary of `bytes` at or below `max_len`: every byte
/// after it, up to and including the one at `max_len`, is a continuation
/// byte, and unless there is no room at all the byte at `cut` is not.
pub open spec fn is_closest_boundary(bytes: Seq<u8>, max_len: int, cut: int) -> bool
    recommends
        0 <= max_len < bytes.len(),
{
    &&& 0 <= cut <= max_len
    &&& max_len > 0 ==> !is_continuation_byte(bytes[cut])
    &&& forall|k: int| cut < k <= max_len ==> is_continuation_byte(#[trigger] bytes[k])
}

/// The closest boundary of `bytes` at or below `max_len`. There is one, and
/// only one, unless `bytes` begins with a continuation byte.
pub open spec fn closest_boundary(bytes: Seq<u8>, max_len: int) -> int
    recommends
        0 <= max_len < bytes.len(),
{
    choose|cut: int| is_closest_boundary(bytes, max_len, cut)
}

/// Tells whether `ch` has the bit pattern `10xxxxxx`, that is, whether it is
/// a byte of a multi-byte UTF-8 sequence other than the first.
pub fn is_not_first_utf8(ch: u8) -> (r: bool)
    ensures
        r == is_continuation_byte(ch),
        r == (ch & 0xC0 == 0x80),
{
    proof {
        utf8_byte_ranges_bitwise(ch);
    }
    (ch & 0xC0) == 0x80
}

/// Returns the largest length not above `max_len` at which `raw_string` can
/// be cut without splitting a code point.
///
/// There must be at least one byte beyond the cut, and the sequence must not
/// begin in the middle of a code point, which holds of every well-formed
/// UTF-8 string. In such a string the result is the last character boundary
/// at or before `max_len`, and the bytes in front of it are a well-formed
/// string again.
pub fn find_closest_boundary(raw_string: &[u8], max_len: usize) -> (cut: usize)
    requires
        max_len < raw_string@.len(),
        max_len > 0 ==> !is_continuation_byte(raw_string@[0]),
    ensures
        cut <= max_len,
        is_closest_boundary(raw_string@, max_len as int, cut as int),
        cut == closest_boundary(raw_string@, max_len as int),
        valid_utf8(raw_string@) ==> is_char_boundary(raw_string@, cut as int) && valid_utf8(
            raw_string@.subrange(0, cut as int),
        ),
{
    let cut = if max_len == 0 {
        0
    } else if !is_not_first_utf8(raw_string[max_len]) {
        max_len
    } else {
        let mut res_len: usize = max_len;
        while is_not_first_utf8(raw_string[res_len - 1])
            invariant
                0 < res_len <= max_len < raw_string@.len(),
                !is_continuation_byte(raw_string@[0]),
                forall|k: int|
                    res_len <= k <= max_len ==> is_continuation_byte(#[trigger] raw_string@[k]),
            decreases res_len,
        {
            res_len -= 1;
        }
        res_len - 1
    };
    proof {
        lemma_closest_boundary_eq(raw_string@, max_len as int, cut as int);
        if valid_utf8(raw_string@) {
            lemma_closest_boundary_is_char_boundary(raw_string@, max_len as int);
        }
    }
    cut
}

/// The sequence and the limit determine the closest boundary: at most one
/// index is it.
pub proof fn lemma_closest_boundary_unique(bytes: Seq<u8>, max_len: int, a: int, b: int)
    requires
        is_closest_boundary(bytes, max_len, a),
        is_closest_boundary(bytes, max_len, b),
    ensures
        a == b,
{
    if a < b {
        assert(is_continuation_byte(bytes[b]));
    } else if b < a {
        assert(is_continuation_byte(bytes[a]));
    }
}

/// An index that meets `is_closest_boundary` is the value of
/// `closest_boundary`.
pub proof fn lemma_closest_boundary_eq(bytes: Seq<u8>, max_len: int, cut: int)
    requires
        is_closest_boundary(bytes, max_len, cut),
    ensures
        closest_boundary(bytes, max_len) == cut,
{
    lemma_closest_boundary_unique(bytes, max_len, cut, closest_boundary(bytes, max_len));
}

/// A sequence that does not begin with a continuation byte has a closest
/// boundary for every limit.
pub proof fn lemma_closest_boundary_exists(bytes: Seq<u8>, max_len: int)
    requires
        0 <= max_len,
        max_len > 0 ==> !is_continuation_byte(bytes[0]),
    ensures
        is_closest_boundary(bytes, max_len, closest_boundary(bytes, max_len)),
    decreases max_len,
{
    if max_len == 0 {
        assert(is_closest_boundary(bytes, max_len, 0));
    } else if !is_continuation_byte(bytes[max_len]) {
        assert(is_closest_boundary(bytes, max_len, max_len));
    } else {
        lemma_closest_boundary_exists(bytes, max_len - 1);
        let cut = closest_boundary(bytes, max_len - 1);
        assert(is_closest_boundary(bytes, max_len, cut));
    }
}

/// A well-formed UTF-8 sequence that is not empty begins with the first byte
/// of a code point.
pub proof fn lemma_valid_utf8_first_byte(bytes: Seq<u8>)
    requires
        valid_utf8(bytes),
        bytes.len() > 0,
    ensures
        !is_continuation_byte(bytes[0]),
{
}

/// In a well-formed UTF-8 sequence the closest boundary is a character
/// boundary, no character boundary lies between it and the limit, and the
/// bytes before it are well-formed UTF-8 themselves.
pub proof fn lemma_closest_boundary_is_char_boundary(bytes: Seq<u8>, max_len: int)
    requires
        valid_utf8(bytes),
        0 <= max_len < bytes.len(),
    ensures
        is_closest_boundary(bytes, max_len, closest_boundary(bytes, max_len)),
        is_char_boundary(bytes, closest_boundary(bytes, max_len)),
        forall|k: int|
            closest_boundary(bytes, max_len) < k <= max_len ==> !is_char_boundary(bytes, k),
        valid_utf8(bytes.subrange(0, closest_boundary(bytes, max_len))),
{
    lemma_valid_utf8_first_byte(bytes);
    lemma_closest_boundary_exists(bytes, max_len);
    let cut = closest_boundary(bytes, max_len);
    if cut > 0 {
        is_char_boundary_iff_not_is_continuation_byte(bytes, cut);
    }
    assert forall|k: int| cut < k <= max_len implies !is_char_boundary(bytes, k) by {
        is_char_boundary_iff_not_is_continuation_byte(bytes, k);
    }
    valid_utf8_split(bytes, cut);
}

/// Cutting twice is cutting once: the closest boundary is its own closest
/// boundary.
pub proof fn lemma_closest_boundary_idempotent(bytes: Seq<u8>, max_len: int)
    requires
        0 <= max_len,
        max_len > 0 ==> !is_continuation_byte(bytes[0]),
    ensures
        closest_boundary(bytes, max_len) <= max_len,
        closest_boundary(bytes, closest_boundary(bytes, max_len)) == closest_boundary(
            bytes,
            max_len,
        ),
{
    lemma_closest_boundary_exists(bytes, max_len);
    let cut = closest_boundary(bytes, max_len);
    assert(is_closest_boundary(bytes, cut, cut));
    lemma_closest_boundary_eq(bytes, cut, cut);
}

/// What follows the limit has no say: where `head` alone is longer than
/// `max_len`, the closest boundary of `head + tail` is that of `head`.
pub proof fn lemma_closest_boundary_in_head(head: Seq<u8>, tail: Seq<u8>, max_len: int)
    requires
        0 <= max_len < head.len(),
        max_len > 0 ==> !is_continuation_byte(head[0]),
    ensures
        closest_boundary(head + tail, max_len) == closest_boundary(head, max_len),
{
    lemma_closest_boundary_exists(head, max_len);
    let cut = closest_boundary(head, max_len);
    assert forall|k: int| cut < k <= max_len implies is_continuation_byte(
        #[trigger] (head + tail)[k],
    ) by {
        assert((head + tail)[k] == head[k]);
    }
    assert((head + tail)[cut] == head[cut]);
    lemma_closest_boundary_eq(head + tail, max_len, cut);
}

/// Where the limit lies beyond `head`, in a `tail` that begins with the
/// first byte of a code point, the closest boundary of `head + tail` is that
/// of `tail`, counted from the end of `head`.
pub proof fn lemma_closest_boundary_in_tail(head: Seq<u8>, tail: Seq<u8>, max_len: int)
    requires
        0 <= max_len < tail.len(),
        !is_continuation_byte(tail[0]),
    ensures
        closest_boundary(head + tail, head.len() + max_len) == head.len() + closest_boundary(
            tail,
            max_len,
        ),
{
    lemma_closest_boundary_exists(tail, max_len);
    let cut = closest_boundary(tail, max_len);
    let whole = head + tail;
    assert forall|k: int| head.len() + cut < k <= head.len() + max_len implies is_continuation_byte(
        #[trigger] whole[k],
    ) by {
        assert(whole[k] == tail[k - head.len()]);
    }
    assert(whole[head.len() + cut] == tail[cut]);
    lemma_closest_boundary_eq(whole, head.len() + max_len, head.len() + cut);
}

/// A well-formed UTF-8 sequence cut in front of a continuation byte is not
/// well-formed: the cut goes through a code point.
pub proof fn lemma_cut_inside_code_point(bytes: Seq<u8>, k: int)
    requires
        valid_utf8(bytes),
        0 < k < bytes.len(),
        is_continuation_byte(bytes[k]),
    ensures
        !valid_utf8(bytes.subrange(0, k)),
    decreases bytes.len(),
{
    let prefix = bytes.subrange(0, k);
    let first = length_of_first_scalar(bytes);
    let rest = pop_first_scalar(bytes);
    assert(prefix[0] == bytes[0]);
    if k < first {
        assert(!valid_leading_and_continuation_bytes_first_codepoint(prefix));
    } else if k == first {
        assert(rest[0] == bytes[k]);
        lemma_valid_utf8_first_byte(rest);
    } else {
        assert(rest[k - first] == bytes[k]);
        lemma_cut_inside_code_point(rest, k - first);
        if valid_utf8(prefix) {
            assert(forall|i: int| 0 <= i < first ==> prefix[i] == bytes[i]);
            assert(length_of_first_scalar(prefix) == first);
            assert(pop_first_scalar(prefix) =~= rest.subrange(0, k - first));
        }
    }
}

} // verus!
