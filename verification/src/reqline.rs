//! Bounded accumulation of the request line.
//!
//! A request is one URL of at most 1024 bytes followed by CR LF, so at
//! most 1026 bytes are ever buffered for one connection.  The caller reads
//! chunks from the transport into the space the buffer has left and feeds
//! them in; once the buffer is full without a terminator, only the empty
//! chunk can be fed, and the request fails.  This bounds memory per
//! connection whatever the client sends.

use vstd::prelude::*;

verus! {

/// Most bytes one request line may occupy: 1024 for the URL and 2 for the
/// CR LF terminator.
pub const REQUEST_CAP: usize = 1026;

/// True when a byte sequence ends with CR LF.
pub open spec fn ends_crlf(s: Seq<u8>) -> bool {
    s.len() >= 2 && s[s.len() - 2] == 13 && s[s.len() - 1] == 10
}

/// What one feed of a chunk yields.
pub enum FeedOutcome {
    /// The buffer now ends with CR LF; the bytes before the terminator are
    /// the request line.
    Line(Vec<u8>),
    /// No terminator yet; more bytes are needed.
    Again,
    /// The transport gave no more bytes (it closed, or the buffer is
    /// already full), and no terminator was seen: the request failed.
    Malformed,
}

/// Accumulates the bytes of one request line, capped at [`REQUEST_CAP`].
pub struct RequestBuffer {
    buf: Vec<u8>,
}

impl View for RequestBuffer {
    type V = Seq<u8>;

    closed spec fn view(&self) -> Seq<u8> {
        self.buf@
    }
}

impl RequestBuffer {
    /// The buffer never exceeds its cap.
    pub closed spec fn wf(&self) -> bool {
        self.buf@.len() <= 1026
    }

    pub fn new() -> (r: RequestBuffer)
        ensures
            r@ == Seq::<u8>::empty(),
            r.wf(),
    {
        RequestBuffer { buf: Vec::new() }
    }

    /// How many more bytes may be fed.
    pub fn space_left(&self) -> (r: usize)
        requires
            self.wf(),
        ensures
            r == 1026 - self@.len(),
    {
        1026 - self.buf.len()
    }

    /// Append one chunk read from the transport and decide how far the
    /// request line has come.  An empty chunk means the transport gave
    /// nothing more (it closed, or no space was left to read into).
    ///
    /// A returned line never exceeds 1024 bytes, and a buffer that fills
    /// up without a terminator leaves only empty chunks possible, so every
    /// overlong request line ends in `Malformed`.
    pub fn feed(&mut self, chunk: &[u8]) -> (r: FeedOutcome)
        requires
            old(self).wf(),
            chunk@.len() <= 1026 - old(self)@.len(),
        ensures
            final(self).wf(),
            final(self)@ == old(self)@ + chunk@,
            r matches FeedOutcome::Line(l) ==> ends_crlf(final(self)@) && l@ == final(self)@.take(
                final(self)@.len() - 2,
            ) && l@.len() <= 1024,
            r is Line <==> ends_crlf(final(self)@),
            r is Malformed <==> !ends_crlf(final(self)@) && chunk@.len() == 0,
            r is Again <==> !ends_crlf(final(self)@) && chunk@.len() > 0,
    {
        let chunk_len = chunk.len();
        let mut j: usize = 0;
        while j < chunk.len()
            invariant
                j <= chunk@.len(),
                self.buf@ == old(self)@ + chunk@.take(j as int),
                old(self).wf(),
                chunk@.len() <= 1026 - old(self)@.len(),
            decreases chunk@.len() - j,
        {
            self.buf.push(chunk[j]);
            proof {
                assert(old(self)@ + chunk@.take(j + 1) =~= (old(self)@ + chunk@.take(j as int)).push(
                    chunk@[j as int],
                ));
            }
            j = j + 1;
        }
        proof {
            assert(chunk@.take(chunk@.len() as int) =~= chunk@);
        }
        let n = self.buf.len();
        if n >= 2 && self.buf[n - 2] == 13 && self.buf[n - 1] == 10 {
            let mut line: Vec<u8> = Vec::new();
            let mut k: usize = 0;
            while k < n - 2
                invariant
                    n == self.buf@.len(),
                    n >= 2,
                    k <= n - 2,
                    line@ == self.buf@.take(k as int),
                decreases n - 2 - k,
            {
                line.push(self.buf[k]);
                proof {
                    assert(self.buf@.take(k + 1) =~= self.buf@.take(k as int).push(
                        self.buf@[k as int],
                    ));
                }
                k = k + 1;
            }
            FeedOutcome::Line(line)
        } else if chunk_len == 0 {
            FeedOutcome::Malformed
        } else {
            FeedOutcome::Again
        }
    }
}

/// A full, unterminated buffer can never complete: no space is left, so
/// only the empty chunk can be fed, and appending it leaves the buffer
/// without a terminator.
pub proof fn lemma_overlong_line_fails(buffered: Seq<u8>, chunk: Seq<u8>)
    requires
        buffered.len() == 1026,
        !ends_crlf(buffered),
        chunk.len() <= 1026 - buffered.len(),
    ensures
        chunk.len() == 0,
        !ends_crlf(buffered + chunk),
{
    assert(buffered + chunk =~= buffered);
}

} // verus!
