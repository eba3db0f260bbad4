//! Work items of the writer.
//!
//! A frame that fits is stored inline, so that the common case costs no heap
//! allocation; a larger one owns its buffer.

use vstd::prelude::*;

verus! {

/// Size of the header that every frame starts with.
pub const HEADER_SIZE: usize = 16;

/// Largest frame stored inline, in bytes.
pub const INLINE_CAP: usize = 128;

/// Default depth of a publish ring, in frames.
pub const WRITE_QUEUE_CAP: usize = 4096;

/// Depth of a control ring, in frames.
pub const CONTROL_QUEUE_CAP: usize = 64;

/// One outbound frame.
#[derive(Debug)]
pub enum WriteFrame {
    /// Small frame and its length.
    Inline([u8; INLINE_CAP], u16),
    /// Frame with its own buffer.
    Mono(Vec<u8>),
    /// Batch publish.
    PubBatch(Vec<u8>),
}

impl View for WriteFrame {
    type V = Seq<u8>;

    open spec fn view(&self) -> Seq<u8> {
        match self {
            WriteFrame::Inline(data, len) => data@.take(*len as int),
            WriteFrame::Mono(b) => b@,
            WriteFrame::PubBatch(b) => b@,
        }
    }
}

impl WriteFrame {
    /// An inline frame's length stays within its array.
    pub open spec fn wf(&self) -> bool {
        self matches WriteFrame::Inline(_, len) ==> *len <= INLINE_CAP
    }

    /// The bytes to write.
    pub fn as_slice(&self) -> (r: &[u8])
        requires
            self.wf(),
        ensures
            r@ == self@,
    {
        match self {
            WriteFrame::Inline(data, len) => {
                let all: &[u8] = data.as_slice();
                let r = vstd::slice::slice_subrange(all, 0, *len as usize);
                assert(r@ =~= data@.take(*len as int));
                r
            },
            WriteFrame::Mono(b) => b.as_slice(),
            WriteFrame::PubBatch(b) => b.as_slice(),
        }
    }

    /// Store an encoded frame: inline where it fits.
    pub fn pack(bytes: Vec<u8>) -> (r: WriteFrame)
        ensures
            r.wf(),
            r@ == bytes@,
            bytes@.len() <= INLINE_CAP ==> r is Inline,
            r is Inline <==> bytes@.len() <= 128,
            bytes@.len() > INLINE_CAP ==> r is Mono,
    {
        if bytes.len() <= INLINE_CAP {
            let mut data: [u8; INLINE_CAP] = [0u8; INLINE_CAP];
            let mut i: usize = 0;
            while i < bytes.len()
                invariant
                    i <= bytes@.len(),
                    bytes@.len() <= INLINE_CAP,
                    data@.len() == INLINE_CAP,
                    forall|j: int| 0 <= j < i ==> data@[j] == bytes@[j],
                decreases bytes@.len() - i,
            {
                data[i] = bytes[i];
                i = i + 1;
            }
            let r = WriteFrame::Inline(data, bytes.len() as u16);
            assert(r@ =~= bytes@);
            r
        } else {
            WriteFrame::Mono(bytes)
        }
    }
}

} // verus!
