//! The per-stream ingestion state machine: owns the receive handle, the
//! chunk buffer and the decoder, and exposes the two-phase frame/payload
//! operations.  Suspension is explicit: an operation that cannot complete
//! returns `Pending` and the caller's scheduler re-invokes it after the
//! transport wakes it, so any task or callback model can drive it.

use vstd::prelude::*;
use crate::chunks::ChunkBuffer;
use crate::codec::{
    Frame,
    FrameModel,
    SpecStep,
    spec_next,
    spec_skipped,
    spec_step,
    skips_to,
    lemma_skips_to_extend,
    lemma_skips_to_next,
    lemma_skips_to_step,
    lemma_step_shape,
    encodable,
};
use crate::decoder::FrameDecoder;
use crate::errors::{Error, ErrorCode, FrameError};
use crate::wire::VARINT_LIMIT;

verus! {

/// What one non-blocking receive attempt produced.
#[derive(Debug)]
pub enum RecvEvent {
    /// One chunk of bytes; its size is unrelated to frame boundaries.
    Chunk(Vec<u8>),
    /// Clean end of stream: no further chunk will ever come.
    End,
    /// Nothing yet; the transport will wake the caller's scheduler.
    Pending,
    /// The transport failed; the description is carried through opaquely.
    Failed(String),
}

/// The outcome of an operation that cannot block: done, or to be retried
/// once the transport wakes the caller's scheduler.
#[derive(Debug)]
pub enum Polled<T> {
    Ready(T),
    Pending,
}

/// The receive side of one transport stream.  Implementations come from the
/// transport layer; the state machine here promises what holds of its own
/// state whatever an implementation returns.
pub trait RecvStream {
    /// How much the transport can still deliver before it must suspend or
    /// end: an abstract measure, not a byte count.  Every delivered chunk
    /// strictly decreases it, which is what lets the ingestion loops make
    /// progress toward a suspension point.
    open spec fn supply(&self) -> nat {
        0
    }

    /// Non-blocking attempt to take the next chunk.
    fn poll_data(&mut self) -> (r: RecvEvent)
        ensures
            r matches RecvEvent::Chunk(_) ==> final(self).supply() < old(self).supply(),
            !(r matches RecvEvent::Chunk(_)) ==> final(self).supply() <= old(self).supply(),
    ;

    /// Fire-and-forget abort signal toward the peer.
    fn stop_sending(&mut self, error_code: u64);
}

/// The send side of one transport stream, forwarded unchanged.
pub trait SendStream {
    fn poll_ready(&mut self) -> Polled<Result<(), String>>;

    fn send_data(&mut self, data: Vec<u8>) -> Result<(), String>;

    fn poll_finish(&mut self) -> Polled<Result<(), String>>;

    fn reset(&mut self, reset_code: u64);

    fn id(&self) -> u64;
}

/// Frame ingestion for one multiplexed stream.
pub struct FrameStream<S> {
    stream: S,
    bufs: ChunkBuffer,
    decoder: FrameDecoder,
    remaining_data: u64,
}

impl<S> FrameStream<S> {
    /// The bytes received and not yet consumed, in arrival order.
    pub closed spec fn buffered(&self) -> Seq<u8> {
        self.bufs@
    }

    /// Payload bytes of the last length-announcing frame not yet drained.
    pub closed spec fn remaining_payload(&self) -> u64 {
        self.remaining_data
    }

    pub closed spec fn wf(&self) -> bool {
        &&& self.bufs.wf()
        &&& self.bufs@.len() <= VARINT_LIMIT
        &&& self.decoder.wf(self.bufs@)
        &&& (self.remaining_data > 0 ==> self.decoder.is_idle())
    }

    /// Does the decode outcome name exactly this protocol error?
    pub open spec fn proto_matches(st: SpecStep, e: FrameError) -> bool {
        match e {
            FrameError::UnsupportedFrame(ty) => st == (SpecStep::Unsupported { ty }),
            FrameError::Settings => st matches SpecStep::BadSettings,
            FrameError::Malformed => st matches SpecStep::Malformed,
        }
    }

    /// What `poll_next` may answer, given that the transport handed over
    /// `rec` during the call: everything is determined by the byte sequence
    /// `buffered ++ rec` alone.
    pub open spec fn poll_next_post(
        pre: FrameStream<S>,
        post: FrameStream<S>,
        r: Polled<Result<Option<Frame>, Error>>,
        rec: Seq<u8>,
    ) -> bool {
        let s = pre.buffered() + rec;
        let skipped = spec_skipped(s);
        match r {
            Polled::Ready(Ok(Some(frame))) => {
                &&& spec_next(s) matches SpecStep::Got { f, used } && frame@ == f
                    && post.buffered() == s.skip(skipped + used)
                &&& post.remaining_payload() == (match frame@ {
                    FrameModel::Data { len } => len,
                    _ => 0u64,
                })
            },
            Polled::Ready(Ok(None)) => {
                &&& spec_next(s) matches SpecStep::Short { .. }
                &&& post.buffered().len() == 0
                &&& post.remaining_payload() == 0
            },
            Polled::Ready(Err(e)) => match e {
                Error::UnexpectedEnd => spec_next(s) matches SpecStep::Short { .. }
                    && post.buffered() == s.skip(skipped) && post.buffered().len() > 0
                    && post.remaining_payload() == 0,
                Error::Proto(pe) => Self::proto_matches(spec_next(s), pe) && post.buffered()
                    == s.skip(skipped) && post.remaining_payload() == 0,
                Error::Transport(_) => true,
            },
            Polled::Pending => spec_next(s) matches SpecStep::Short { .. } && post.buffered()
                == s.skip(skipped) && post.remaining_payload() == 0,
        }
    }

    /// What `poll_data` may answer when payload is owed, given that the
    /// transport handed over `rec` during the call.
    pub open spec fn poll_data_post(
        pre: FrameStream<S>,
        post: FrameStream<S>,
        r: Polled<Result<Option<Vec<u8>>, Error>>,
        rec: Seq<u8>,
    ) -> bool {
        let s = pre.buffered() + rec;
        let k = if pre.remaining_payload() <= s.len() {
            pre.remaining_payload() as int
        } else {
            s.len() as int
        };
        match r {
            Polled::Ready(Ok(Some(data))) => k > 0 && data@ == s.take(k) && post.buffered()
                == s.skip(k) && post.remaining_payload() == pre.remaining_payload() - k,
            Polled::Ready(Ok(None)) => false,
            Polled::Ready(Err(e)) => match e {
                Error::UnexpectedEnd => s.len() < pre.remaining_payload() && post.buffered() == s
                    && post.remaining_payload() == pre.remaining_payload(),
                Error::Transport(_) => true,
                Error::Proto(_) => false,
            },
            Polled::Pending => s.len() == 0 && post.buffered() == s && post.remaining_payload()
                == pre.remaining_payload(),
        }
    }
}

impl<S> FrameStream<S> {
    /// Whether a length-announcing frame still has payload to drain; while
    /// it does, `poll_next` must not be called.
    pub fn has_pending_payload(&self) -> (r: bool)
        ensures
            r == (self.remaining_payload() > 0),
    {
        self.remaining_data > 0
    }
}

impl<S: RecvStream> FrameStream<S> {
    pub fn new(stream: S) -> (r: FrameStream<S>)
        ensures
            r.wf(),
            r.buffered() == Seq::<u8>::empty(),
            r.remaining_payload() == 0,
    {
        let r = FrameStream {
            stream,
            bufs: ChunkBuffer::new(),
            decoder: FrameDecoder::default(),
            remaining_data: 0,
        };
        proof {
            FrameDecoder::lemma_idle_wf(r.decoder, r.bufs@);
        }
        r
    }

    /// One receive attempt: a fresh chunk is appended to the buffer, end of
    /// stream and suspension leave it alone.
    fn try_recv(&mut self) -> (r: Polled<Result<bool, Error>>)
        requires
            old(self).wf(),
        ensures
            final(self).wf(),
            final(self).remaining_payload() == old(self).remaining_payload(),
            final(self).decoder == old(self).decoder,
            final(self).stream.supply() <= old(self).stream.supply(),
            match r {
                Polled::Ready(Ok(end)) => (end ==> final(self).buffered() == old(self).buffered())
                    && (!end ==> old(self).buffered().is_prefix_of(final(self).buffered())
                    && final(self).stream.supply() < old(self).stream.supply()),
                Polled::Ready(Err(e)) => (e matches Error::Transport(_)) && final(self).buffered()
                    == old(self).buffered(),
                Polled::Pending => final(self).buffered() == old(self).buffered(),
            },
    {
        match self.stream.poll_data() {
            RecvEvent::Pending => Polled::Pending,
            RecvEvent::End => Polled::Ready(Ok(true)),
            RecvEvent::Failed(msg) => Polled::Ready(Err(Error::Transport(msg))),
            RecvEvent::Chunk(c) => {
                let cur = self.bufs.remaining();
                if c.len() > usize::MAX - cur || (cur as u64) + (c.len() as u64) > VARINT_LIMIT {
                    return Polled::Ready(
                        Err(
                            Error::Transport(
                                "buffered bytes would exceed the frame size limit".to_string(),
                            ),
                        ),
                    );
                }
                let ghost pre = self.bufs@;
                let ghost cv = c@;
                self.bufs.push(c);
                proof {
                    FrameDecoder::lemma_wf_extend(self.decoder, pre, self.bufs@);
                    assert((pre + cv).subrange(0, pre.len() as int) =~= pre);
                }
                Polled::Ready(Ok(false))
            },
        }
    }

    /// Pulls chunks and decodes until one frame is carved off, decoding
    /// fails, the transport suspends, or the stream ends.  A caller that
    /// still owes payload reads must not call this: that is a bug in the
    /// caller, excluded by precondition, never a runtime error.
    #[verifier::rlimit(100)]
    pub fn poll_next(&mut self) -> (r: Polled<Result<Option<Frame>, Error>>)
        requires
            old(self).wf(),
            old(self).remaining_payload() == 0,
        ensures
            final(self).wf(),
            exists|rec: Seq<u8>| Self::poll_next_post(*old(self), *final(self), r, rec),
    {
        let ghost s0 = old(self).buffered();
        let ghost mut rec: Seq<u8> = Seq::empty();
        let ghost mut d: int = 0;
        proof {
            assert(s0 + rec =~= s0);
            assert((s0 + rec).skip(0) =~= s0 + rec);
        }
        loop
            invariant
                self.wf(),
                self.remaining_data == 0,
                s0 == old(self).buffered(),
                0 <= d <= (s0 + rec).len(),
                skips_to(s0 + rec, d),
                self.bufs@ == (s0 + rec).skip(d),
            decreases self.stream.supply(), (s0 + rec).len() - d,
        {
            let ev = self.try_recv();
            let mut is_end = false;
            let mut is_pending = false;
            match ev {
                Polled::Ready(Err(e)) => {
                    let r = Polled::Ready(Err(e));
                    proof {
                        assert(Self::poll_next_post(*old(self), *self, r, rec));
                    }
                    return r;
                },
                Polled::Ready(Ok(true)) => {
                    is_end = true;
                },
                Polled::Ready(Ok(false)) => {
                    proof {
                        let prev = (s0 + rec).skip(d);
                        let c = self.bufs@.skip(prev.len() as int);
                        assert(self.bufs@ =~= prev + c);
                        lemma_skips_to_extend(s0 + rec, c, d);
                        assert((s0 + rec) + c =~= s0 + (rec + c));
                        assert(((s0 + rec) + c).skip(d) =~= prev + c);
                        rec = rec + c;
                        assert(skips_to(s0 + rec, d));
                        assert(self.bufs@ == (s0 + rec).skip(d));
                    }
                },
                Polled::Pending => {
                    is_pending = true;
                },
            }
            let before = self.bufs.remaining();
            let ghost view_pre = self.bufs@;
            let step = self.decoder.decode(&mut self.bufs);
            proof {
                lemma_skips_to_next(s0 + rec, d);
                lemma_step_shape(view_pre);
            }
            match step {
                Err(e) => {
                    let r = Polled::Ready(Err(e));
                    proof {
                        assert(Self::poll_next_post(*old(self), *self, r, rec));
                    }
                    return r;
                },
                Ok(Some(frame)) => {
                    match &frame {
                        Frame::Data { len } => {
                            self.remaining_data = *len;
                        },
                        _ => {},
                    }
                    let r = Polled::Ready(Ok(Some(frame)));
                    proof {
                        match spec_step(view_pre) {
                            SpecStep::Got { f, used } => {
                                assert(view_pre.skip(used) =~= (s0 + rec).skip(d + used));
                            },
                            _ => {
                                assert(false);
                            },
                        }
                        assert(Self::poll_next_post(*old(self), *self, r, rec));
                    }
                    return r;
                },
                Ok(None) => {
                    let after = self.bufs.remaining();
                    if after < before {
                        proof {
                            match spec_step(view_pre) {
                                SpecStep::Skip { used } => {
                                    lemma_skips_to_step(s0 + rec, d, used);
                                    assert(view_pre.skip(used) =~= (s0 + rec).skip(d + used));
                                    d = d + used;
                                },
                                _ => {
                                    assert(false);
                                },
                            }
                            assert(self.bufs@ == (s0 + rec).skip(d));
                        }
                    } else {
                        if is_pending {
                            proof {
                                assert(Self::poll_next_post(
                                    *old(self),
                                    *self,
                                    Polled::Pending,
                                    rec,
                                ));
                            }
                            return Polled::Pending;
                        }
                        if is_end {
                            if self.bufs.has_remaining() {
                                let r = Polled::Ready(Err(Error::UnexpectedEnd));
                                proof {
                                    assert(Self::poll_next_post(*old(self), *self, r, rec));
                                }
                                return r;
                            } else {
                                let r = Polled::Ready(Ok(None));
                                proof {
                                    assert(Self::poll_next_post(*old(self), *self, r, rec));
                                }
                                return r;
                            }
                        }
                    }
                },
            }
        }
    }

    /// Drains up to the announced payload length, handing back whatever is
    /// buffered or just arrived, at most what is still owed.  `Ok(None)`
    /// means the payload is complete; a clean end before that is the
    /// unexpected-end error.
    #[verifier::rlimit(100)]
    pub fn poll_data(&mut self) -> (r: Polled<Result<Option<Vec<u8>>, Error>>)
        requires
            old(self).wf(),
        ensures
            final(self).wf(),
            old(self).remaining_payload() == 0 ==> (r matches Polled::Ready(Ok(None))
                && *final(self) == *old(self)),
            old(self).remaining_payload() > 0 ==> exists|rec: Seq<u8>|
                Self::poll_data_post(*old(self), *final(self), r, rec),
    {
        if self.remaining_data == 0 {
            return Polled::Ready(Ok(None));
        }
        let ghost s0 = old(self).buffered();
        let ghost mut rec: Seq<u8> = Seq::empty();
        proof {
            assert(s0 + rec =~= s0);
        }
        loop
            invariant
                self.wf(),
                self.remaining_data == old(self).remaining_payload(),
                self.remaining_data > 0,
                s0 == old(self).buffered(),
                self.bufs@ == s0 + rec,
            decreases self.stream.supply(),
        {
            let ev = self.try_recv();
            let mut is_end = false;
            let mut is_pending = false;
            match ev {
                Polled::Ready(Err(e)) => {
                    let r = Polled::Ready(Err(e));
                    proof {
                        assert(Self::poll_data_post(*old(self), *self, r, rec));
                    }
                    return r;
                },
                Polled::Ready(Ok(true)) => {
                    is_end = true;
                },
                Polled::Ready(Ok(false)) => {
                    proof {
                        let prev = s0 + rec;
                        let c = self.bufs@.skip(prev.len() as int);
                        assert(self.bufs@ =~= prev + c);
                        assert((s0 + rec) + c =~= s0 + (rec + c));
                        rec = rec + c;
                        assert(self.bufs@ == s0 + rec);
                    }
                },
                Polled::Pending => {
                    is_pending = true;
                },
            }
            let avail = self.bufs.remaining();
            let read_size: usize = if self.remaining_data <= avail as u64 {
                self.remaining_data as usize
            } else {
                avail
            };
            if is_end && (read_size as u64) < self.remaining_data {
                let r = Polled::Ready(Err(Error::UnexpectedEnd));
                proof {
                    assert(Self::poll_data_post(*old(self), *self, r, rec));
                }
                return r;
            }
            if read_size > 0 {
                let data = self.bufs.copy_range(0, read_size);
                self.bufs.advance(read_size);
                self.remaining_data = self.remaining_data - read_size as u64;
                let r = Polled::Ready(Ok(Some(data)));
                proof {
                    FrameDecoder::lemma_idle_wf(self.decoder, self.bufs@);
                    assert((s0 + rec).subrange(0, read_size as int) =~= (s0 + rec).take(
                        read_size as int,
                    ));
                    assert(Self::poll_data_post(*old(self), *self, r, rec));
                }
                return r;
            }
            if is_pending {
                proof {
                    assert(Self::poll_data_post(*old(self), *self, Polled::Pending, rec));
                }
                return Polled::Pending;
            }
        }
    }

    /// Tells the transport to stop delivering for this stream, tagged with
    /// `error_code`: a fire-and-forget abort with no local effect.
    pub fn reset(&mut self, error_code: ErrorCode)
        requires
            old(self).wf(),
        ensures
            final(self).wf(),
            final(self).buffered() == old(self).buffered(),
            final(self).remaining_payload() == old(self).remaining_payload(),
    {
        self.stream.stop_sending(error_code.0);
    }
}

/// Encodes one frame and hands its bytes to the send side; the caller
/// awaits send readiness through `poll_ready` afterwards.
pub fn write<S: SendStream>(stream: &mut S, frame: &Frame) -> (r: Result<(), Error>)
    requires
        encodable(frame@),
    ensures
        r matches Err(e) ==> e matches Error::Transport(_),
{
    let mut buf: Vec<u8> = Vec::new();
    frame.encode(&mut buf);
    match stream.send_data(buf) {
        Ok(()) => Ok(()),
        Err(msg) => Err(Error::Transport(msg)),
    }
}

impl<S: RecvStream + SendStream> SendStream for FrameStream<S> {
    fn poll_ready(&mut self) -> Polled<Result<(), String>> {
        self.stream.poll_ready()
    }

    fn send_data(&mut self, data: Vec<u8>) -> Result<(), String> {
        self.stream.send_data(data)
    }

    fn poll_finish(&mut self) -> Polled<Result<(), String>> {
        self.stream.poll_finish()
    }

    fn reset(&mut self, reset_code: u64) {
        self.stream.reset(reset_code)
    }

    fn id(&self) -> u64 {
        self.stream.id()
    }
}

} // verus!
