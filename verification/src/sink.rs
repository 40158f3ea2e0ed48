//! The sink: a borrowed byte buffer that text fragments are written into.
//!
//! A sink never grows its buffer. Once a fragment does not fit, the sink
//! keeps what fits of it, up to a point where no code point is split, and
//! drops everything written afterwards. The bytes written so far are
//! therefore well-formed UTF-8 at every moment.

use vstd::prelude::*;
use vstd::string::StringSliceAdditionalSpecFns;
use vstd::utf8::*;
use crate::boundary::{
    closest_boundary, find_closest_boundary, is_closest_boundary,
    lemma_closest_boundary_is_char_boundary, lemma_valid_utf8_first_byte,
};

verus! {

/// The error type of `core::fmt`. Nothing is known of a value of it.
#[verifier::external_type_specification]
#[verifier::external_body]
pub struct ExFmtError(core::fmt::Error);

/// What a sink holds, as plain values.
pub struct SinkView {
    /// The whole buffer, written or not.
    pub storage: Seq<u8>,
    /// How many bytes at the front of the buffer have been written.
    pub used: nat,
    /// Whether a fragment has been cut short.
    pub overflow: bool,
}

impl SinkView {
    /// The state of a new sink over a buffer that holds `storage`.
    pub open spec fn fresh(storage: Seq<u8>) -> SinkView {
        SinkView { storage, used: 0, overflow: false }
    }

    /// The bytes written so far.
    pub open spec fn written(self) -> Seq<u8> {
        self.storage.subrange(0, self.used as int)
    }

    /// The length of the buffer.
    pub open spec fn capacity(self) -> nat {
        self.storage.len()
    }

    /// The number of bytes that the buffer can still take.
    pub open spec fn remaining(self) -> int {
        self.storage.len() - self.used
    }

    /// The written bytes fit the buffer and are well-formed UTF-8.
    pub open spec fn wf(self) -> bool {
        &&& self.used <= self.storage.len()
        &&& valid_utf8(self.written())
    }

    /// The state after `bytes` are copied in behind the written part. The
    /// rest of the buffer stays as it is.
    pub open spec fn append(self, bytes: Seq<u8>, overflow: bool) -> SinkView {
        SinkView {
            storage: self.written() + bytes + self.storage.subrange(
                self.used + bytes.len() as int,
                self.storage.len() as int,
            ),
            used: self.used + bytes.len(),
            overflow,
        }
    }

    /// The state after one fragment is written. A fragment that fits is
    /// copied whole. One that does not is cut at its closest boundary and
    /// ends the output: whatever is written after it is dropped.
    pub open spec fn write(self, fragment: Seq<u8>) -> SinkView {
        if self.overflow {
            self
        } else if fragment.len() <= self.remaining() {
            self.append(fragment, false)
        } else {
            self.append(fragment.subrange(0, closest_boundary(fragment, self.remaining())), true)
        }
    }

    /// The state after the fragments are written one after the other.
    pub open spec fn write_all(self, fragments: Seq<Seq<u8>>) -> SinkView
        decreases fragments.len(),
    {
        if fragments.len() == 0 {
            self
        } else {
            self.write(fragments[0]).write_all(fragments.drop_first())
        }
    }
}

/// Every fragment is well-formed UTF-8.
pub open spec fn all_valid_utf8(fragments: Seq<Seq<u8>>) -> bool {
    forall|i: int| 0 <= i < fragments.len() ==> valid_utf8(#[trigger] fragments[i])
}

/// Copying bytes in behind the written part extends the written part by
/// them and keeps the length of the buffer.
pub proof fn lemma_append(v: SinkView, bytes: Seq<u8>, overflow: bool)
    requires
        v.used + bytes.len() <= v.storage.len(),
    ensures
        v.append(bytes, overflow).written() == v.written() + bytes,
        v.append(bytes, overflow).capacity() == v.capacity(),
        v.append(bytes, overflow).remaining() == v.remaining() - bytes.len(),
{
    assert(v.append(bytes, overflow).written() =~= v.written() + bytes);
}

/// Writing a well-formed fragment never lets the written bytes outgrow the
/// buffer nor end inside a code point. The buffer keeps its length, the bytes
/// written before stay in front, and a sink that has overflowed stays so and
/// is left as it is.
pub proof fn lemma_write_keeps_wf(v: SinkView, fragment: Seq<u8>)
    requires
        v.wf(),
        valid_utf8(fragment),
    ensures
        v.write(fragment).wf(),
        v.write(fragment).capacity() == v.capacity(),
        v.written().is_prefix_of(v.write(fragment).written()),
        v.overflow ==> v.write(fragment) == v,
        !v.overflow ==> (v.write(fragment).overflow <==> fragment.len() > v.remaining()),
{
    if !v.overflow {
        if fragment.len() <= v.remaining() {
            lemma_append(v, fragment, false);
            valid_utf8_concat(v.written(), fragment);
        } else {
            lemma_closest_boundary_is_char_boundary(fragment, v.remaining());
            let head = fragment.subrange(0, closest_boundary(fragment, v.remaining()));
            lemma_append(v, head, true);
            valid_utf8_concat(v.written(), head);
        }
    }
}

/// The same holds after any number of well-formed fragments.
pub proof fn lemma_write_all_keeps_wf(v: SinkView, fragments: Seq<Seq<u8>>)
    requires
        v.wf(),
        all_valid_utf8(fragments),
    ensures
        v.write_all(fragments).wf(),
        v.write_all(fragments).capacity() == v.capacity(),
        v.written().is_prefix_of(v.write_all(fragments).written()),
        v.overflow ==> v.write_all(fragments) == v,
    decreases fragments.len(),
{
    if fragments.len() > 0 {
        lemma_write_keeps_wf(v, fragments[0]);
        lemma_write_all_keeps_wf(v.write(fragments[0]), fragments.drop_first());
    }
}

/// A sink over a borrowed byte buffer: it takes string fragments one after
/// the other and keeps as much of them as the buffer holds.
pub struct WriteTo<'a> {
    buffer: &'a mut [u8],
    used: usize,
    overflow: bool,
}

/// Copies the first `n` bytes of `src` into `dst` from offset `at` on, and
/// leaves the rest of `dst` as it was.
fn copy_into(dst: &mut [u8], at: usize, src: &[u8], n: usize)
    requires
        at + n <= old(dst)@.len(),
        n <= src@.len(),
    ensures
        final(dst)@ == old(dst)@.subrange(0, at as int) + src@.subrange(0, n as int) + old(
            dst,
        )@.subrange(at + n, old(dst)@.len() as int),
        final(dst)@.len() == old(dst)@.len(),
        final(dst)@.subrange(0, at as int) == old(dst)@.subrange(0, at as int),
    no_unwind
{
    proof {
        vstd::slice::axiom_spec_len::<u8>(&*dst);
    }
    let mut i: usize = 0;
    while i < n
        invariant
            i <= n <= src@.len(),
            at + n <= dst@.len() <= usize::MAX,
            dst@.len() == old(dst)@.len(),
            forall|k: int| 0 <= k < at ==> dst@[k] == old(dst)@[k],
            forall|k: int| 0 <= k < i ==> dst@[at + k] == src@[k],
            forall|k: int| at + i <= k < dst@.len() ==> dst@[k] == old(dst)@[k],
        decreases n - i,
    {
        dst[at + i] = src[i];
        i += 1;
    }
    assert(dst@ =~= old(dst)@.subrange(0, at as int) + src@.subrange(0, n as int) + old(
        dst,
    )@.subrange(at + n, old(dst)@.len() as int));
    assert(dst@.subrange(0, at as int) =~= old(dst)@.subrange(0, at as int));
}

/// `core::str::from_utf8`: the bytes as a string slice if they are
/// well-formed UTF-8, and nothing if they are not. The string slice is made
/// of the very bytes that were handed in.
#[verifier::external_body]
fn str_from_utf8<'b>(bytes: &'b [u8]) -> (r: Option<&'b str>)
    ensures
        r is Some <==> valid_utf8(bytes@),
        r is Some ==> r->0.spec_bytes() == bytes@,
{
    match core::str::from_utf8(bytes) {
        Ok(s) => Some(s),
        Err(_) => None,
    }
}

impl<'a> View for WriteTo<'a> {
    type V = SinkView;

    closed spec fn view(&self) -> SinkView {
        SinkView { storage: self.buffer@, used: self.used as nat, overflow: self.overflow }
    }
}

impl<'a> WriteTo<'a> {
    #[verifier::type_invariant]
    spec fn inv(&self) -> bool {
        self@.wf()
    }

    /// The mutable reference through which the sink reaches its buffer. Its
    /// `final` value is what the buffer holds once the sink is gone.
    pub closed spec fn buffer_ref(&self) -> &'a mut [u8] {
        self.buffer
    }

    /// Creates an empty sink over `buffer`. What the buffer holds does not
    /// matter: it is overwritten as fragments come in.
    pub fn new(buffer: &'a mut [u8]) -> (w: Self)
        ensures
            w@ == SinkView::fresh(old(buffer)@),
            w@.wf(),
            final(w.buffer_ref())@ == final(buffer)@,
    {
        assert(buffer@.subrange(0, 0) =~= Seq::<u8>::empty());
        WriteTo { buffer, used: 0, overflow: false }
    }

    /// Gives up the sink for the written part of its buffer, as a string.
    /// The buffer is left as the sink last had it.
    pub fn as_str(self) -> (s: &'a str)
        ensures
            s.spec_bytes() == self@.written(),
            s@ == decode_utf8(self@.written()),
            final(self.buffer_ref())@ == self@.storage,
    {
        proof {
            use_type_invariant(&self);
        }
        let used = self.used;
        let whole: &'a [u8] = self.buffer;
        let bytes = vstd::slice::slice_subrange(whole, 0, used);
        match str_from_utf8(bytes) {
            Some(s) => {
                proof {
                    encode_utf8_decode_utf8(s@);
                }
                s
            },
            None => "",
        }
    }
}

impl<'a> core::fmt::Write for WriteTo<'a> {
    /// Writes one fragment. This never fails: a fragment that does not fit
    /// is cut short at its closest boundary, and after that every fragment
    /// is dropped.
    fn write_str(&mut self, s: &str) -> (r: core::fmt::Result)
        ensures
            r is Ok,
            final(self)@ == old(self)@.write(s.spec_bytes()),
            final(self)@.wf(),
            !old(self)@.overflow && s.spec_bytes().len() > old(self)@.remaining()
                ==> is_closest_boundary(
                    s.spec_bytes(),
                    old(self)@.remaining(),
                    final(self)@.used - old(self)@.used,
                ),
            final(final(self).buffer_ref())@ == final(old(self).buffer_ref())@,
    {
        proof {
            use_type_invariant(&*self);
            encode_utf8_valid_utf8(s@);
        }
        if self.overflow {
            return Ok(());
        }
        let raw_s = s.as_bytes();
        let remaining = self.buffer.len() - self.used;
        let ghost before = self@;
        if remaining >= raw_s.len() {
            copy_into(self.buffer, self.used, raw_s, raw_s.len());
            proof {
                assert(raw_s@.subrange(0, raw_s@.len() as int) =~= raw_s@);
                lemma_write_keeps_wf(before, raw_s@);
            }
            self.used += raw_s.len();
        } else {
            self.overflow = true;
            proof {
                lemma_valid_utf8_first_byte(raw_s@);
            }
            let cut = find_closest_boundary(raw_s, remaining);
            copy_into(self.buffer, self.used, raw_s, cut);
            proof {
                lemma_write_keeps_wf(before, raw_s@);
            }
            self.used += cut;
        }
        Ok(())
    }
}

} // verus!
