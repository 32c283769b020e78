//! Carves one frame off the front of a `ChunkBuffer`, remembering how many
//! bytes the last attempt found missing so that new chunks smaller than that
//! are not re-parsed.

use vstd::prelude::*;
use crate::chunks::ChunkBuffer;
use crate::codec::{
    DecodeStep,
    Frame,
    SpecStep,
    decode_step,
    lemma_step_extend,
    lemma_step_shape,
    spec_step,
};
use crate::errors::{Error, FrameError};
use crate::wire::VARINT_LIMIT;

verus! {

/// The incremental frame-boundary decoder.  `expected` is the optimization
/// hint of the format: the least total byte count the next attempt needs.
pub struct FrameDecoder {
    expected: Option<u64>,
}

impl FrameDecoder {
    /// No hint is held.
    pub closed spec fn is_idle(&self) -> bool {
        self.expected matches None
    }

    /// The hint may be absent, but when present it must be truthful about
    /// `view`: while fewer than `expected` bytes are buffered, an attempt is
    /// sure to come up short asking exactly for `expected`.
    pub closed spec fn wf(&self, view: Seq<u8>) -> bool {
        self.expected matches Some(m) ==> (view.len() < m ==> spec_step(view)
            == SpecStep::Short { min: m as int })
    }

    /// An idle decoder is truthful about any buffer.
    pub proof fn lemma_idle_wf(d: FrameDecoder, view: Seq<u8>)
        requires
            d.is_idle(),
        ensures
            d.wf(view),
    {
    }

    /// The hint stays truthful when more bytes arrive behind the buffer.
    pub proof fn lemma_wf_extend(d: FrameDecoder, v: Seq<u8>, w: Seq<u8>)
        requires
            d.wf(v),
            v.is_prefix_of(w),
        ensures
            d.wf(w),
    {
        match d.expected {
            Some(m) => {
                if w.len() < m {
                    lemma_step_extend(v, w);
                }
            },
            None => {},
        }
    }

    /// One decode attempt: carve a frame off the front of `src`, skip one
    /// unknown frame, or leave `src` untouched when bytes are missing.  The
    /// outcome is a function of the buffered bytes alone.
    pub fn decode(&mut self, src: &mut ChunkBuffer) -> (r: Result<Option<Frame>, Error>)
        requires
            old(src).wf(),
            old(src)@.len() <= VARINT_LIMIT,
            old(self).wf(old(src)@),
        ensures
            final(src).wf(),
            final(src)@.len() <= old(src)@.len(),
            final(self).wf(final(src)@),
            ({
                let st = spec_step(old(src)@);
                match st {
                    SpecStep::Got { f, used } => (r matches Ok(Some(frame)) && frame@ == f)
                        && final(src)@ == old(src)@.skip(used) && final(self).is_idle(),
                    SpecStep::Skip { used } => r matches Ok(None) && final(src)@ == old(
                        src,
                    )@.skip(used) && final(self).is_idle(),
                    SpecStep::Short { min } => r matches Ok(None) && final(src)@ == old(src)@,
                    SpecStep::Unsupported { ty } => r matches Err(e) && e == Error::Proto(
                        FrameError::UnsupportedFrame(ty),
                    ) && final(src)@ == old(src)@,
                    SpecStep::BadSettings => r matches Err(e) && e == Error::Proto(
                        FrameError::Settings,
                    ) && final(src)@ == old(src)@,
                    SpecStep::Malformed => r matches Err(e) && e == Error::Proto(
                        FrameError::Malformed,
                    ) && final(src)@ == old(src)@,
                }
            }),
    {
        proof {
            lemma_step_shape(src@);
        }
        if !src.has_remaining() {
            return Ok(None);
        }
        if let Some(min) = self.expected {
            let rem = src.remaining();
            if (rem as u64) < min {
                return Ok(None);
            }
        }
        match decode_step(src) {
            DecodeStep::Got { frame, used } => {
                src.advance(used);
                self.expected = None;
                Ok(Some(frame))
            },
            DecodeStep::Skip { used } => {
                src.advance(used);
                self.expected = None;
                Ok(None)
            },
            DecodeStep::Short { min } => {
                self.expected = Some(min);
                Ok(None)
            },
            DecodeStep::Unsupported { ty } => Err(Error::Proto(FrameError::UnsupportedFrame(ty))),
            DecodeStep::BadSettings => Err(Error::Proto(FrameError::Settings)),
            DecodeStep::Malformed => Err(Error::Proto(FrameError::Malformed)),
        }
    }
}

impl Default for FrameDecoder {
    /// A fresh decoder holds no hint.
    fn default() -> (r: FrameDecoder)
        ensures
            r.is_idle(),
    {
        FrameDecoder { expected: None }
    }
}

} // verus!
