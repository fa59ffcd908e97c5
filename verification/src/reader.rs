//! The incremental stream decoder: buffers network bytes as they arrive and
//! produces one protocol value per call.
//!
//! The reader owns a growing buffer of fed bytes and a cursor over what it
//! has consumed. `next` decodes at the cursor: a whole value advances the
//! cursor past it; too few bytes is reported as `BufferFinished`, and the
//! caller — who knows whether the stream is still open — feeds more bytes
//! and retries, or treats it as the end of input; an unknown tag consumes
//! through the next line terminator before reporting, so the stream stays
//! aligned for an error reply.

use vstd::prelude::*;

use crate::data_type::{CR, LF};
use crate::decode::{parse_resp_value_at, ParseError};
use crate::error::RespReaderError;
use crate::value::RespValue;
use crate::wire::{dec_val, ScanOutcome};

verus! {

/// The position just after the first carriage-return-line-feed pair at or
/// after `i`, if the bytes so far hold one.
pub open spec fn resync_pos(s: Seq<u8>, i: int) -> Option<int>
    decreases s.len() - i,
{
    if i + 1 >= s.len() {
        None
    } else if s[i] == CR && s[i + 1] == LF {
        Some(i + 2)
    } else {
        resync_pos(s, i + 1)
    }
}

/// An incremental decoder over a byte stream fed to it chunk by chunk.
pub struct RespReader {
    buffer: Vec<u8>,
    pos: usize,
    finished: bool,
}

impl RespReader {
    /// Every byte ever fed, in order.
    pub closed spec fn contents(self) -> Seq<u8> {
        self.buffer@
    }

    /// How far the reader has consumed its contents.
    pub closed spec fn cursor(self) -> int {
        self.pos as int
    }

    /// Whether the stream behind the reader has ended.
    pub closed spec fn stream_ended(self) -> bool {
        self.finished
    }

    /// The cursor never passes the end of the contents.
    pub closed spec fn wf(self) -> bool {
        self.pos <= self.buffer@.len()
    }

    /// A fresh reader with nothing buffered.
    pub fn new() -> (r: RespReader)
        ensures
            r.wf(),
            r.contents() == Seq::<u8>::empty(),
            r.cursor() == 0,
            !r.stream_ended(),
    {
        let r = RespReader { buffer: Vec::new(), pos: 0, finished: false };
        proof {
            assert(r.contents() =~= Seq::<u8>::empty());
        }
        r
    }

    /// Buffers another chunk of stream bytes.
    pub fn feed(&mut self, bytes: &[u8])
        requires
            old(self).wf(),
        ensures
            final(self).wf(),
            final(self).contents() == old(self).contents() + bytes@,
            final(self).cursor() == old(self).cursor(),
            final(self).stream_ended() == old(self).stream_ended(),
    {
        let n = bytes.len();
        let mut i: usize = 0;
        proof {
            assert(self.contents() =~= old(self).contents() + bytes@.take(0));
        }
        loop
            invariant
                0 <= i <= n,
                n == bytes@.len(),
                self.buffer@ == old(self).buffer@ + bytes@.take(i as int),
                self.pos == old(self).pos,
                self.finished == old(self).finished,
                old(self).pos <= old(self).buffer@.len(),
            decreases n - i,
        {
            if i >= n {
                proof {
                    assert(bytes@.take(n as int) =~= bytes@);
                }
                return ;
            }
            self.buffer.push(bytes[i]);
            proof {
                assert(bytes@.take(i + 1) =~= bytes@.take(i as int).push(bytes@[i as int]));
                assert(self.buffer@ =~= old(self).buffer@ + bytes@.take(i + 1));
            }
            i = i + 1;
        }
    }

    /// Marks the current position for a speculative read: consuming may go
    /// on, and `rollback` restores this position so no bytes are lost.
    pub fn checkpoint(&self) -> (c: usize)
        requires
            self.wf(),
        ensures
            c as int == self.cursor(),
    {
        self.pos
    }

    /// Abandons a speculative read: the cursor returns to the marked
    /// position, and every byte consumed since then is readable again.
    pub fn rollback(&mut self, c: usize)
        requires
            old(self).wf(),
            c as int <= old(self).cursor(),
        ensures
            final(self).wf(),
            final(self).contents() == old(self).contents(),
            final(self).cursor() == c as int,
            final(self).stream_ended() == old(self).stream_ended(),
    {
        self.pos = c;
    }

    /// Whether fed bytes remain that no decoded value has consumed: at the
    /// end of input this distinguishes a clean close at a value boundary
    /// from a stream that died mid-value.
    pub fn has_unread(&self) -> (r: bool)
        requires
            self.wf(),
        ensures
            r == (self.cursor() < self.contents().len()),
    {
        self.pos < self.buffer.len()
    }

    /// Records that the stream has ended: no more bytes will ever arrive.
    pub fn close(&mut self)
        requires
            old(self).wf(),
        ensures
            final(self).wf(),
            final(self).contents() == old(self).contents(),
            final(self).cursor() == old(self).cursor(),
            final(self).stream_ended(),
    {
        self.finished = true;
    }

    /// Decodes the next protocol value at the cursor.
    ///
    /// A decoded value advances the cursor past its bytes. `BufferFinished`
    /// reports that the buffered bytes end before the value does — at a
    /// value boundary that is the clean end of input; mid-value the caller
    /// treats it as fatal once the stream has ended, and otherwise feeds
    /// more bytes and retries. An unknown tag consumes through the next
    /// line terminator (all remaining bytes if the stream ended without
    /// one, and none — reporting `BufferFinished` — while the line is still
    /// arriving), so the byte stream stays aligned. Any other protocol
    /// error leaves the cursor where it stood: the connection can no longer
    /// be trusted.
    #[verifier::loop_isolation(false)]
    pub fn next(&mut self) -> (r: Result<RespValue, RespReaderError>)
        requires
            old(self).wf(),
        ensures
            final(self).wf(),
            final(self).contents() == old(self).contents(),
            final(self).stream_ended() == old(self).stream_ended(),
            match dec_val(old(self).contents(), old(self).cursor()) {
                ScanOutcome::Done { next, val } => r matches Ok(v) && v.model() == val
                    && final(self).cursor() == next,
                ScanOutcome::Need => r == Err::<RespValue, _>(RespReaderError::BufferFinished)
                    && final(self).cursor() == old(self).cursor(),
                ScanOutcome::Fail(e) => {
                    if e is UnknownDataType {
                        match resync_pos(old(self).contents(), old(self).cursor()) {
                            Some(p) => r == Err::<RespValue, _>(e) && final(self).cursor() == p,
                            None => {
                                if old(self).stream_ended() {
                                    r == Err::<RespValue, _>(e) && final(self).cursor() == old(
                                        self,
                                    ).contents().len()
                                } else {
                                    r == Err::<RespValue, _>(RespReaderError::BufferFinished)
                                        && final(self).cursor() == old(self).cursor()
                                }
                            },
                        }
                    } else {
                        r == Err::<RespValue, _>(e) && final(self).cursor() == old(self).cursor()
                    }
                },
            },
    {
        let ghost s = self.buffer@;
        let outcome = parse_resp_value_at(self.buffer.as_slice(), self.pos);
        match outcome {
            Ok((next, v)) => {
                self.pos = next;
                Ok(v)
            },
            Err(ParseError::Incomplete) => Err(RespReaderError::BufferFinished),
            Err(ParseError::Protocol(e)) => {
                let unknown = match &e {
                    RespReaderError::UnknownDataType(_) => true,
                    _ => false,
                };
                if unknown {
                    let n = self.buffer.len();
                    let mut j = self.pos;
                    loop
                        invariant
                            self.pos <= j <= n,
                            n == self.buffer@.len(),
                            self.buffer@ == s,
                            self.pos == old(self).pos,
                            self.finished == old(self).finished,
                            resync_pos(s, self.pos as int) == resync_pos(s, j as int),
                            self.pos <= self.buffer@.len(),
                        decreases n - j,
                    {
                        if n - j < 2 {
                            break ;
                        }
                        if self.buffer[j] == CR && self.buffer[j + 1] == LF {
                            self.pos = j + 2;
                            return Err(e);
                        }
                        j = j + 1;
                    }
                    if self.finished {
                        self.pos = n;
                        Err(e)
                    } else {
                        Err(RespReaderError::BufferFinished)
                    }
                } else {
                    Err(e)
                }
            },
        }
    }
}

} // verus!
