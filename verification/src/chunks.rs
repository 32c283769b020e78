//! An ordered aggregation of immutable byte chunks, consumable front to back
//! as one logical byte sequence without concatenating the chunks.

use vstd::prelude::*;
use vstd::slice::slice_subrange;

verus! {

/// All bytes of `cs` laid end to end, in order.
pub open spec fn concat_of(cs: Seq<Seq<u8>>) -> Seq<u8>
    decreases cs.len(),
{
    if cs.len() == 0 {
        Seq::empty()
    } else {
        cs[0] + concat_of(cs.skip(1))
    }
}

pub proof fn lemma_concat_push(cs: Seq<Seq<u8>>, c: Seq<u8>)
    ensures
        concat_of(cs.push(c)) == concat_of(cs) + c,
    decreases cs.len(),
{
    if cs.len() == 0 {
        assert(cs.push(c)[0] == c);
        assert(cs.push(c).skip(1) =~= Seq::<Seq<u8>>::empty());
        assert(concat_of(Seq::<Seq<u8>>::empty()) == Seq::<u8>::empty());
        assert(concat_of(cs.push(c)) == cs.push(c)[0] + concat_of(cs.push(c).skip(1)));
        assert(concat_of(cs.push(c)) =~= concat_of(cs) + c);
    } else {
        lemma_concat_push(cs.skip(1), c);
        assert(cs.push(c)[0] == cs[0]);
        assert(cs.push(c).skip(1) =~= cs.skip(1).push(c));
        assert(concat_of(cs.push(c)) =~= concat_of(cs) + c);
    }
}

/// Chunks as received from the transport, plus a read cursor.  The cursor is
/// the pair (first chunk, offset into it): everything before it is consumed
/// and already discarded, everything after it is the buffer's logical
/// content, exposed as the view.
pub struct ChunkBuffer {
    chunks: Vec<Vec<u8>>,
    first_offset: usize,
    total: usize,
}

impl View for ChunkBuffer {
    type V = Seq<u8>;

    closed spec fn view(&self) -> Seq<u8> {
        concat_of(self.chunks@.map_values(|c: Vec<u8>| c@)).skip(self.first_offset as int)
    }
}

impl ChunkBuffer {
    pub closed spec fn chunk_views(&self) -> Seq<Seq<u8>> {
        self.chunks@.map_values(|c: Vec<u8>| c@)
    }

    /// Stored chunks are never empty, the cursor sits strictly inside the
    /// first chunk, and `total` caches the unconsumed byte count.
    pub closed spec fn wf(&self) -> bool {
        &&& forall|i: int|
            0 <= i < self.chunk_views().len() ==> (#[trigger] self.chunk_views()[i]).len() > 0
        &&& if self.chunk_views().len() == 0 {
            self.first_offset == 0
        } else {
            self.first_offset < self.chunk_views()[0].len()
        }
        &&& self.total == self@.len()
    }

    pub fn new() -> (r: ChunkBuffer)
        ensures
            r.wf(),
            r@ == Seq::<u8>::empty(),
    {
        let r = ChunkBuffer { chunks: Vec::new(), first_offset: 0, total: 0 };
        proof {
            assert(r.chunk_views() =~= Seq::<Seq<u8>>::empty());
            assert(r@ =~= Seq::<u8>::empty());
        }
        r
    }

    /// Appends one received chunk at the back; zero-length chunks add nothing
    /// and are not retained.
    pub fn push(&mut self, chunk: Vec<u8>)
        requires
            old(self).wf(),
            old(self)@.len() + chunk@.len() <= usize::MAX,
        ensures
            final(self).wf(),
            final(self)@ == old(self)@ + chunk@,
    {
        let ghost cv = chunk@;
        if chunk.len() == 0 {
            proof {
                assert(self@ + cv =~= self@);
            }
            return;
        }
        let ghost cs = self.chunk_views();
        let ghost fo = self.first_offset as int;
        self.total = self.total + chunk.len();
        self.chunks.push(chunk);
        proof {
            assert(self.chunk_views() =~= cs.push(cv));
            lemma_concat_push(cs, cv);
            assert(concat_of(cs.push(cv)).skip(fo) =~= concat_of(cs).skip(fo) + cv);
            assert(self@ == old(self)@ + cv);
            if cs.len() == 0 {
                assert(self.chunk_views()[0] == cv);
            }
        }
    }

    /// Total unconsumed bytes across all chunks.
    pub fn remaining(&self) -> (r: usize)
        requires
            self.wf(),
        ensures
            r == self@.len(),
    {
        self.total
    }

    pub fn has_remaining(&self) -> (r: bool)
        requires
            self.wf(),
        ensures
            r == (self@.len() > 0),
    {
        self.total > 0
    }

    /// Speculative read: the byte `i` places past the cursor, fetched without
    /// consuming anything.  A trial parse reads through this and commits its
    /// final position with `advance`.
    pub fn byte_at(&self, i: usize) -> (r: u8)
        requires
            self.wf(),
            i < self@.len(),
        ensures
            r == self@[i as int],
    {
        let ghost cs = self.chunk_views();
        proof {
            if cs.len() == 0 {
                assert(self@ =~= Seq::<u8>::empty());
            }
            assert(cs.skip(0) =~= cs);
        }
        let mut k: usize = 0;
        let mut off: usize = self.first_offset;
        let mut rem: usize = i;
        loop
            invariant
                self.wf(),
                cs == self.chunk_views(),
                k < self.chunks@.len(),
                off <= self.chunk_views()[k as int].len(),
                off + rem < concat_of(self.chunk_views().skip(k as int)).len(),
                concat_of(self.chunk_views().skip(k as int))[off + rem] == self@[i as int],
            decreases self.chunks@.len() - k,
        {
            proof {
                assert(cs.skip(k as int)[0] == cs[k as int]);
                assert(cs.skip(k as int).skip(1) =~= cs.skip(k as int + 1));
                assert(concat_of(cs.skip(k as int)) == cs[k as int] + concat_of(
                    cs.skip(k as int + 1),
                ));
            }
            let nchunks = self.chunks.len();
            let clen = self.chunks[k].len();
            let avail = clen - off;
            if rem < avail {
                assert(concat_of(cs.skip(k as int))[off + rem] == cs[k as int][off + rem]);
                return self.chunks[k][off + rem];
            }
            proof {
                assert(concat_of(cs.skip(k as int))[off + rem] == concat_of(
                    cs.skip(k as int + 1),
                )[off + rem - clen]);
                if k as int + 1 == cs.len() {
                    assert(cs.skip(k as int + 1) =~= Seq::<Seq<u8>>::empty());
                    assert(concat_of(cs.skip(k as int + 1)).len() == 0);
                }
            }
            rem = rem - avail;
            k = k + 1;
            off = 0;
        }
    }

    /// Consumes `n` bytes from the front, crossing chunk boundaries as
    /// needed; fully consumed chunks are discarded for good.
    pub fn advance(&mut self, n: usize)
        requires
            old(self).wf(),
            n <= old(self)@.len(),
        ensures
            final(self).wf(),
            final(self)@ == old(self)@.skip(n as int),
    {
        let mut left = n;
        proof {
            assert(self@.skip(left as int) =~= old(self)@.skip(n as int));
        }
        while left > 0
            invariant
                self.wf(),
                left <= self@.len(),
                self@.skip(left as int) == old(self)@.skip(n as int),
            decreases left,
        {
            let ghost cs = self.chunk_views();
            let ghost fo = self.first_offset as int;
            let ghost pre = self@;
            proof {
                if cs.len() == 0 {
                    assert(pre =~= Seq::<u8>::empty());
                }
                assert(cs.skip(0) =~= cs);
                assert(cs[0] == cs.skip(0)[0]);
                assert(concat_of(cs) == cs[0] + concat_of(cs.skip(1)));
            }
            let clen = self.chunks[0].len();
            let avail = clen - self.first_offset;
            if left >= avail {
                self.chunks.remove(0);
                self.first_offset = 0;
                self.total = self.total - avail;
                proof {
                    assert(self.chunk_views() =~= cs.skip(1));
                    assert(self@ =~= concat_of(cs.skip(1)));
                    assert(self@ =~= pre.skip(avail as int));
                    assert(self@.skip((left - avail) as int) =~= pre.skip(left as int));
                    if self.chunk_views().len() > 0 {
                        assert(self.chunk_views()[0] == cs[1]);
                    }
                }
                left = left - avail;
            } else {
                self.first_offset = self.first_offset + left;
                self.total = self.total - left;
                proof {
                    assert(self@ =~= pre.skip(left as int));
                    assert(self@.skip(0) =~= self@);
                }
                left = 0;
            }
        }
        proof {
            assert(self@.skip(0) =~= self@);
        }
    }

    /// Copies the bytes `from .. to` (cursor-relative) into a fresh vector;
    /// the single copy paid when a decoded payload is handed to the caller.
    pub fn copy_range(&self, from: usize, to: usize) -> (r: Vec<u8>)
        requires
            self.wf(),
            from <= to,
            to <= self@.len(),
        ensures
            r@ == self@.subrange(from as int, to as int),
    {
        let mut out: Vec<u8> = Vec::new();
        proof {
            assert(out@ =~= self@.subrange(from as int, from as int));
        }
        let mut i = from;
        while i < to
            invariant
                self.wf(),
                from <= i <= to,
                to <= self@.len(),
                out@ == self@.subrange(from as int, i as int),
            decreases to - i,
        {
            out.push(self.byte_at(i));
            i = i + 1;
            proof {
                assert(self@.subrange(from as int, i as int) =~= self@.subrange(
                    from as int,
                    i - 1,
                ).push(self@[i - 1]));
            }
        }
        out
    }

    /// The longest contiguous unconsumed run that does not cross a chunk
    /// boundary: a prefix of the view, borrowed without copying.
    pub fn peek_contiguous(&self) -> (r: &[u8])
        requires
            self.wf(),
            self@.len() > 0,
        ensures
            r@.len() > 0,
            r@ == self@.take(r@.len() as int),
    {
        let ghost cs = self.chunk_views();
        proof {
            if cs.len() == 0 {
                assert(self@ =~= Seq::<u8>::empty());
            }
            assert(cs.skip(0) =~= cs);
            assert(cs[0] == cs.skip(0)[0]);
            assert(concat_of(cs) == cs[0] + concat_of(cs.skip(1)));
        }
        let first: &Vec<u8> = &self.chunks[0];
        let r = slice_subrange(first.as_slice(), self.first_offset, first.len());
        proof {
            assert(r@ =~= self@.take(r@.len() as int));
        }
        r
    }
}

} // verus!
