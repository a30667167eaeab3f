//! The pure state of a connection's read side: the bytes received from the
//! stream and not yet consumed. The I/O loop around it feeds in whatever the
//! stream delivered and asks for the next frame; when the peer closes, the
//! buffer decides whether that close was clean.

use vstd::prelude::*;
use crate::decode::{scan, ScanResult, FrameError, lemma_scan_bounds, lemma_scan_wf};
use crate::frame::{Frame, wf};

verus! {

broadcast use vstd::std_specs::vec::group_vec_axioms;

/// How a peer's close is to be reported: a clean end of stream, or a reset
/// that cut a frame short.
#[derive(Clone, Copy, Debug, PartialEq, Eq, Structural)]
pub enum PeerClose {
    /// Nothing was buffered: no more frames, not an error.
    Clean,
    /// Partial bytes were buffered: the peer disappeared mid-frame.
    Reset,
}

/// The receive buffer of one connection: every byte read from the stream and
/// not yet consumed by a parsed frame, in arrival order. No byte is ever
/// interpreted twice: a parsed frame's bytes leave the buffer at once.
pub struct FrameBuffer {
    buf: Vec<u8>,
}

impl View for FrameBuffer {
    type V = Seq<u8>;

    closed spec fn view(&self) -> Seq<u8> {
        self.buf@
    }
}

impl FrameBuffer {
    /// An empty buffer for a freshly accepted stream.
    pub fn new() -> (c: FrameBuffer)
        ensures
            c@ == Seq::<u8>::empty(),
    {
        let v: Vec<u8> = Vec::new();
        assert(v@ =~= Seq::<u8>::empty());
        FrameBuffer { buf: v }
    }

    /// How many bytes are buffered and unconsumed.
    pub fn len(&self) -> (n: usize)
        ensures
            n == self@.len(),
    {
        self.buf.len()
    }

    /// Appends bytes that arrived from the stream.
    pub fn feed(&mut self, data: &[u8])
        ensures
            final(self)@ == old(self)@ + data@,
    {
        let mut i: usize = 0;
        while i < data.len()
            invariant
                i <= data@.len(),
                self.buf@ == old(self).buf@ + data@.take(i as int),
            decreases data@.len() - i,
        {
            self.buf.push(data[i]);
            assert(self.buf@ =~= old(self).buf@ + data@.take(i + 1));
            i = i + 1;
        }
        assert(data@.take(data@.len() as int) =~= data@);
    }

    /// Removes the first `n` bytes, shifting the remainder down in place:
    /// the buffer's storage is reused, never reallocated here.
    fn consume(&mut self, n: usize)
        requires
            n <= old(self)@.len(),
        ensures
            final(self)@ == old(self)@.skip(n as int),
    {
        let len = self.buf.len();
        let mut i: usize = 0;
        while i < len - n
            invariant
                n + i <= len,
                len == self.buf@.len(),
                len == old(self)@.len(),
                forall|k: int| 0 <= k < i ==> #[trigger] self.buf@[k] == old(self).buf@[n + k],
                forall|k: int| i <= k < len ==> #[trigger] self.buf@[k] == old(self).buf@[k],
            decreases len - n - i,
        {
            let b = self.buf[n + i];
            self.buf.set(i, b);
            i = i + 1;
        }
        self.buf.truncate(len - n);
        assert(self.buf@ =~= old(self)@.skip(n as int));
    }

    /// The two-pass read attempt: `check` the buffered bytes for one
    /// complete frame, and only then `parse` it and remove exactly its
    /// bytes. Yields the frame, `None` when more bytes are needed (the
    /// buffer untouched either way), or a protocol error.
    pub fn parse_frame(&mut self) -> (r: Result<Option<Frame>, FrameError>)
        ensures
            (match scan(old(self)@, 0) {
                ScanResult::Found { frame, end } => (r matches Ok(Some(f)) && f@ == frame
                    && wf(f@)) && final(self)@ == old(self)@.skip(end),
                ScanResult::Incomplete => r == Ok::<Option<Frame>, FrameError>(None)
                    && final(self)@ == old(self)@,
                ScanResult::Malformed => r == Err::<Option<Frame>, FrameError>(
                    FrameError::Protocol,
                ) && final(self)@ == old(self)@,
            }),
    {
        proof {
            lemma_scan_bounds(self.buf@, 0);
            lemma_scan_wf(self.buf@, 0);
        }
        match Frame::check(self.buf.as_slice()) {
            Err(FrameError::Incomplete) => Ok(None),
            Err(FrameError::Protocol) => Err(FrameError::Protocol),
            Ok(end) => {
                match Frame::parse(self.buf.as_slice()) {
                    Ok(frame) => {
                        self.consume(end);
                        Ok(Some(frame))
                    },
                    Err(_) => {
                        // `check` found a frame, so `parse` cannot fail
                        assert(false);
                        Err(FrameError::Protocol)
                    },
                }
            },
        }
    }

    /// Classifies a zero-byte read from the stream: with an empty buffer the
    /// peer ended the stream cleanly; with partial bytes buffered it reset
    /// the connection mid-frame.
    pub fn peer_closed(&self) -> (r: PeerClose)
        ensures
            self@.len() == 0 ==> r == PeerClose::Clean,
            self@.len() > 0 ==> r == PeerClose::Reset,
    {
        if self.buf.len() == 0 {
            PeerClose::Clean
        } else {
            PeerClose::Reset
        }
    }
}

} // verus!
