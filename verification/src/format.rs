//! Writing a run of fragments into a buffer in one call, and what comes out
//! of it: the fragments joined, as far as they fit.

use vstd::prelude::*;
use vstd::string::StringSliceAdditionalSpecFns;
use vstd::utf8::*;
use core::fmt::Write;
use crate::boundary::{
    closest_boundary, is_closest_boundary, lemma_closest_boundary_in_head,
    lemma_closest_boundary_in_tail, lemma_closest_boundary_is_char_boundary,
    lemma_cut_inside_code_point, lemma_valid_utf8_first_byte,
};
use crate::sink::{
    SinkView, WriteTo, all_valid_utf8, lemma_append, lemma_write_all_keeps_wf,
    lemma_write_keeps_wf,
};

verus! {

/// The bytes of each fragment.
pub open spec fn fragment_bytes(fragments: Seq<&str>) -> Seq<Seq<u8>> {
    Seq::new(fragments.len(), |i: int| fragments[i].spec_bytes())
}

/// The text that the fragments make up: their bytes, joined in order.
pub open spec fn joined(fragments: Seq<&str>) -> Seq<u8> {
    fragment_bytes(fragments).flatten()
}

/// `bytes` as far as it fits into `capacity` bytes: all of it, or else what
/// lies before its closest boundary.
pub open spec fn truncate_to(bytes: Seq<u8>, capacity: int) -> Seq<u8> {
    if bytes.len() <= capacity {
        bytes
    } else {
        bytes.subrange(0, closest_boundary(bytes, capacity))
    }
}

/// What a buffer holds after `text` has been written to its front: the
/// text, and behind it what was there before.
pub open spec fn overwritten(storage: Seq<u8>, text: Seq<u8>) -> Seq<u8> {
    text + storage.subrange(text.len() as int, storage.len() as int)
}

/// The bytes of string slices are well-formed UTF-8.
pub proof fn lemma_fragment_bytes_valid(fragments: Seq<&str>)
    ensures
        all_valid_utf8(fragment_bytes(fragments)),
{
    assert forall|i: int| 0 <= i < fragments.len() implies valid_utf8(
        #[trigger] fragment_bytes(fragments)[i],
    ) by {
        encode_utf8_valid_utf8(fragments[i]@);
    }
}

/// Well-formed fragments join to a well-formed whole.
pub proof fn lemma_flatten_valid(fragments: Seq<Seq<u8>>)
    requires
        all_valid_utf8(fragments),
    ensures
        valid_utf8(fragments.flatten()),
    decreases fragments.len(),
{
    if fragments.len() > 0 {
        lemma_flatten_valid(fragments.drop_first());
        valid_utf8_concat(fragments[0], fragments.drop_first().flatten());
    }
}

/// Truncation gives the longest well-formed prefix that fits: the result is
/// a prefix of `bytes` of at most `capacity` bytes, it is well-formed UTF-8,
/// and no longer prefix that fits is. Where all of `bytes` fits, the result
/// is `bytes`.
pub proof fn lemma_truncate_longest_valid_prefix(bytes: Seq<u8>, capacity: int)
    requires
        valid_utf8(bytes),
        0 <= capacity,
    ensures
        truncate_to(bytes, capacity).is_prefix_of(bytes),
        truncate_to(bytes, capacity).len() <= capacity,
        valid_utf8(truncate_to(bytes, capacity)),
        bytes.len() <= capacity ==> truncate_to(bytes, capacity) == bytes,
        forall|k: int|
            truncate_to(bytes, capacity).len() < k <= capacity && k <= bytes.len() ==> !valid_utf8(
                #[trigger] bytes.subrange(0, k),
            ),
{
    if bytes.len() > capacity {
        lemma_closest_boundary_is_char_boundary(bytes, capacity);
        let cut = closest_boundary(bytes, capacity);
        assert forall|k: int| cut < k <= capacity implies !valid_utf8(
            #[trigger] bytes.subrange(0, k),
        ) by {
            lemma_cut_inside_code_point(bytes, k);
        }
    }
}

/// Truncating the head and the tail in turn is truncating the whole: where
/// `head` fits, the rest of the room goes to `tail`.
pub proof fn lemma_truncate_concat(head: Seq<u8>, tail: Seq<u8>, capacity: int)
    requires
        valid_utf8(head),
        valid_utf8(tail),
        0 <= capacity,
    ensures
        head.len() <= capacity ==> truncate_to(head + tail, capacity) == head + truncate_to(
            tail,
            capacity - head.len(),
        ),
        head.len() > capacity ==> truncate_to(head + tail, capacity) == truncate_to(
            head,
            capacity,
        ),
{
    let whole = head + tail;
    if head.len() > capacity {
        lemma_valid_utf8_first_byte(head);
        lemma_closest_boundary_in_head(head, tail, capacity);
        lemma_closest_boundary_is_char_boundary(head, capacity);
        let cut = closest_boundary(head, capacity);
        assert(whole.subrange(0, cut) =~= head.subrange(0, cut));
    } else if whole.len() > capacity {
        let room = capacity - head.len();
        lemma_valid_utf8_first_byte(tail);
        lemma_closest_boundary_in_tail(head, tail, room);
        lemma_closest_boundary_is_char_boundary(tail, room);
        let cut = closest_boundary(tail, room);
        assert(whole.subrange(0, head.len() + cut) =~= head + tail.subrange(0, cut));
    } else {
        assert(truncate_to(tail, capacity - head.len()) == tail);
    }
}

/// Writing fragments one by one comes to the same as writing their
/// truncated whole in one piece, however the text is split into fragments.
/// The sink has overflowed exactly if the whole did not fit.
pub proof fn lemma_write_all_truncates(v: SinkView, fragments: Seq<Seq<u8>>)
    requires
        v.wf(),
        !v.overflow,
        all_valid_utf8(fragments),
    ensures
        v.write_all(fragments) == v.append(
            truncate_to(fragments.flatten(), v.remaining()),
            fragments.flatten().len() > v.remaining(),
        ),
    decreases fragments.len(),
{
    let whole = fragments.flatten();
    if fragments.len() == 0 {
        assert(v.append(Seq::empty(), false).storage =~= v.storage);
    } else {
        let head = fragments[0];
        let rest = fragments.drop_first();
        let tail = rest.flatten();
        let next = v.write(head);
        lemma_flatten_valid(rest);
        lemma_truncate_concat(head, tail, v.remaining());
        lemma_write_keeps_wf(v, head);
        if head.len() <= v.remaining() {
            lemma_append(v, head, false);
            lemma_write_all_truncates(next, rest);
            let more = truncate_to(tail, next.remaining());
            lemma_truncate_longest_valid_prefix(tail, next.remaining());
            assert(next.append(more, tail.len() > next.remaining()).storage =~= v.append(
                head + more,
                whole.len() > v.remaining(),
            ).storage);
        } else {
            lemma_write_all_keeps_wf(next, rest);
        }
    }
}

/// Whatever the buffer and whatever the fragments, the written bytes never
/// outgrow the buffer and are well-formed UTF-8.
pub proof fn lemma_output_fits_and_is_valid(storage: Seq<u8>, fragments: Seq<Seq<u8>>)
    requires
        all_valid_utf8(fragments),
    ensures
        SinkView::fresh(storage).write_all(fragments).wf(),
        SinkView::fresh(storage).write_all(fragments).capacity() == storage.len(),
{
    assert(SinkView::fresh(storage).written() =~= Seq::<u8>::empty());
    lemma_write_all_keeps_wf(SinkView::fresh(storage), fragments);
}

/// Text that fits the buffer is written as it is, and the sink does not
/// overflow.
pub proof fn lemma_fitting_output_is_whole(storage: Seq<u8>, fragments: Seq<Seq<u8>>)
    requires
        all_valid_utf8(fragments),
        fragments.flatten().len() <= storage.len(),
    ensures
        SinkView::fresh(storage).write_all(fragments).written() == fragments.flatten(),
        !SinkView::fresh(storage).write_all(fragments).overflow,
{
    let start = SinkView::fresh(storage);
    assert(start.written() =~= Seq::<u8>::empty());
    lemma_write_all_truncates(start, fragments);
    lemma_append(start, fragments.flatten(), false);
    assert(start.written() + fragments.flatten() =~= fragments.flatten());
}

/// Text that does not fit is cut to its longest well-formed prefix that
/// fits: the written bytes are a prefix of the text, and every longer prefix
/// within the length of the buffer ends inside a code point. The sink has
/// overflowed.
pub proof fn lemma_overflowing_output_is_longest_prefix(
    storage: Seq<u8>,
    fragments: Seq<Seq<u8>>,
)
    requires
        all_valid_utf8(fragments),
        fragments.flatten().len() > storage.len(),
    ensures
        SinkView::fresh(storage).write_all(fragments).overflow,
        SinkView::fresh(storage).write_all(fragments).written().is_prefix_of(fragments.flatten()),
        SinkView::fresh(storage).write_all(fragments).written().len() <= storage.len(),
        valid_utf8(SinkView::fresh(storage).write_all(fragments).written()),
        forall|k: int|
            SinkView::fresh(storage).write_all(fragments).written().len() < k <= storage.len()
                ==> !valid_utf8(#[trigger] fragments.flatten().subrange(0, k)),
{
    let start = SinkView::fresh(storage);
    let whole = fragments.flatten();
    let text = truncate_to(whole, start.remaining());
    assert(start.written() =~= Seq::<u8>::empty());
    lemma_flatten_valid(fragments);
    lemma_write_all_truncates(start, fragments);
    lemma_truncate_longest_valid_prefix(whole, start.remaining());
    lemma_append(start, text, true);
    assert(start.written() + text =~= text);
}

/// Writes the fragments that a formatting engine made into `buffer`, one
/// after the other, and returns what the buffer took of them as a string.
///
/// `rendered` is what the engine handed over: the fragments in their order,
/// or its failure. Output that does not fit is cut without splitting a code
/// point, and this is no failure. A failure of the engine gives the empty
/// string and leaves the buffer alone.
pub fn fmt_truncate<'a>(
    buffer: &'a mut [u8],
    rendered: Result<&[&str], core::fmt::Error>,
) -> (s: &'a str)
    ensures
        rendered is Ok ==> s.spec_bytes() == truncate_to(
            joined(rendered->Ok_0@),
            old(buffer)@.len() as int,
        ),
        rendered is Ok && joined(rendered->Ok_0@).len() > old(buffer)@.len()
            ==> is_closest_boundary(
                joined(rendered->Ok_0@),
                old(buffer)@.len() as int,
                s.spec_bytes().len() as int,
            ),
        rendered is Ok ==> final(buffer)@ == overwritten(old(buffer)@, s.spec_bytes()),
        rendered is Err ==> s.spec_bytes() == Seq::<u8>::empty(),
        rendered is Err ==> final(buffer)@ == old(buffer)@,
        s@ == decode_utf8(s.spec_bytes()),
        valid_utf8(s.spec_bytes()),
        s.spec_bytes().len() <= old(buffer)@.len(),
{
    match rendered {
        Err(_) => {
            proof {
                reveal_strlit("");
            }
            ""
        },
        Ok(fragments) => {
            let ghost frags = fragment_bytes(fragments@);
            let ghost start = SinkView::fresh(buffer@);
            let ghost at_end = final(buffer)@;
            let mut w = WriteTo::new(buffer);
            let mut i: usize = 0;
            assert(frags.skip(0) =~= frags);
            while i < fragments.len()
                invariant
                    i <= fragments@.len(),
                    frags == fragment_bytes(fragments@),
                    w@.write_all(frags.skip(i as int)) == start.write_all(frags),
                    final(w.buffer_ref())@ == at_end,
                decreases fragments@.len() - i,
            {
                assert(frags.skip(i as int).drop_first() =~= frags.skip(i + 1));
                let _ = w.write_str(fragments[i]);
                i += 1;
            }
            proof {
                lemma_fragment_bytes_valid(fragments@);
                lemma_flatten_valid(frags);
                lemma_write_all_truncates(start, frags);
                let text = truncate_to(frags.flatten(), start.remaining());
                lemma_truncate_longest_valid_prefix(frags.flatten(), start.remaining());
                if frags.flatten().len() > start.remaining() {
                    lemma_closest_boundary_is_char_boundary(frags.flatten(), start.remaining());
                }
                lemma_append(start, text, frags.flatten().len() > start.remaining());
                assert(start.written() =~= Seq::<u8>::empty());
                assert(w@.written() =~= text);
                assert(w@.storage =~= overwritten(start.storage, text));
            }
            let s = w.as_str();
            proof {
                encode_utf8_valid_utf8(s@);
                encode_utf8_decode_utf8(s@);
            }
            s
        },
    }
}

} // verus!
