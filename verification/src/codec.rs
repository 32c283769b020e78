//! The frame boundary format: a type varint, a length varint, then `length`
//! payload bytes.  The length-announcing (data) frame is the one exception:
//! its payload is not part of the frame and is streamed to the caller
//! separately.  Unknown types are skipped for forward compatibility.

use vstd::prelude::*;
use crate::chunks::ChunkBuffer;
use crate::wire::{
    VarintStep,
    VarintParsed,
    parse_varint,
    parse_varint_at,
    encode_varint,
    encode_varint_push,
    varint_size_of,
    lemma_parse_varint_shape,
    lemma_parse_varint_extend,
    lemma_encode_varint_len,
    VARINT_LIMIT,
};

verus! {

pub const FRAME_DATA: u64 = 0x00;

pub const FRAME_HEADERS: u64 = 0x01;

pub const FRAME_SETTINGS: u64 = 0x04;

pub const FRAME_GOAWAY: u64 = 0x07;

/// Frame types that are structurally decodable here but disallowed at this
/// layer; meeting one aborts the stream rather than skipping it.
pub open spec fn is_reserved_type(ty: int) -> bool {
    ty == 0x02 || ty == 0x06 || ty == 0x08 || ty == 0x09
}

/// The mathematical model of a decoded frame.
pub enum FrameModel {
    Data { len: u64 },
    Headers { payload: Seq<u8> },
    Settings { entries: Seq<(u64, u64)> },
    Goaway { id: u64 },
}

/// One decoded protocol frame.  `Data` carries only the announced payload
/// length: the payload itself is drained separately, never buffered here.
#[derive(Debug)]
pub enum Frame {
    Data { len: u64 },
    Headers { payload: Vec<u8> },
    Settings { entries: Vec<(u64, u64)> },
    Goaway { id: u64 },
}

impl View for Frame {
    type V = FrameModel;

    open spec fn view(&self) -> FrameModel {
        match self {
            Frame::Data { len } => FrameModel::Data { len: *len },
            Frame::Headers { payload } => FrameModel::Headers { payload: payload@ },
            Frame::Settings { entries } => FrameModel::Settings { entries: entries@ },
            Frame::Goaway { id } => FrameModel::Goaway { id: *id },
        }
    }
}

/// A settings body read from `pos` on: id/value varint pairs filling the
/// body exactly, or nothing if it is malformed.
pub open spec fn parse_settings_from(p: Seq<u8>, pos: int) -> Option<Seq<(u64, u64)>>
    decreases p.len() - pos,
{
    if pos == p.len() {
        Some(Seq::empty())
    } else if pos < 0 || pos > p.len() {
        None
    } else {
        match parse_varint(p, pos) {
            VarintStep::Need { .. } => None,
            VarintStep::Val { v: id, end: e1 } => match parse_varint(p, e1) {
                VarintStep::Need { .. } => None,
                VarintStep::Val { v: val, end: e2 } => {
                    if pos < e2 <= p.len() {
                        match parse_settings_from(p, e2) {
                            Some(rest) => Some(seq![(id as u64, val as u64)] + rest),
                            None => None,
                        }
                    } else {
                        None
                    }
                },
            },
        }
    }
}

/// What one decode attempt at the front of `s` determines.
pub enum SpecStep {
    /// A frame, consuming `used` bytes.
    Got { f: FrameModel, used: int },
    /// An unknown frame to skip, consuming `used` bytes.
    Skip { used: int },
    /// Undecidable until at least `min` bytes are present.
    Short { min: int },
    /// A reserved type: the stream must fail.
    Unsupported { ty: u64 },
    /// A settings frame failing validation: the stream must fail.
    BadSettings,
    /// Any other field validation failure: the stream must fail.
    Malformed,
}

/// The decode attempt itself, as a function of the buffered bytes alone:
/// chunk boundaries can play no part in it.
pub open spec fn spec_step(s: Seq<u8>) -> SpecStep {
    match parse_varint(s, 0) {
        VarintStep::Need { min } => SpecStep::Short { min },
        VarintStep::Val { v: ty, end: e1 } => {
            if is_reserved_type(ty) {
                SpecStep::Unsupported { ty: ty as u64 }
            } else {
                match parse_varint(s, e1) {
                    VarintStep::Need { min } => SpecStep::Short { min },
                    VarintStep::Val { v: len, end: e2 } => {
                        if ty == FRAME_DATA as int {
                            SpecStep::Got { f: FrameModel::Data { len: len as u64 }, used: e2 }
                        } else if s.len() < e2 + len {
                            SpecStep::Short { min: e2 + len }
                        } else {
                            let payload = s.subrange(e2, e2 + len);
                            if ty == FRAME_HEADERS as int {
                                SpecStep::Got {
                                    f: FrameModel::Headers { payload },
                                    used: e2 + len,
                                }
                            } else if ty == FRAME_SETTINGS as int {
                                match parse_settings_from(payload, 0) {
                                    Some(entries) => SpecStep::Got {
                                        f: FrameModel::Settings { entries },
                                        used: e2 + len,
                                    },
                                    None => SpecStep::BadSettings,
                                }
                            } else if ty == FRAME_GOAWAY as int {
                                match parse_varint(payload, 0) {
                                    VarintStep::Val { v: id, end } => {
                                        if end == payload.len() {
                                            SpecStep::Got {
                                                f: FrameModel::Goaway { id: id as u64 },
                                                used: e2 + len,
                                            }
                                        } else {
                                            SpecStep::Malformed
                                        }
                                    },
                                    VarintStep::Need { .. } => SpecStep::Malformed,
                                }
                            } else {
                                SpecStep::Skip { used: e2 + len }
                            }
                        }
                    },
                }
            }
        },
    }
}

pub proof fn lemma_step_shape(s: Seq<u8>)
    ensures
        spec_step(s) matches SpecStep::Short { min } ==> s.len() < min <= s.len() + (
        VARINT_LIMIT as int),
        spec_step(s) matches SpecStep::Got { f, used } ==> 0 < used <= s.len(),
        spec_step(s) matches SpecStep::Skip { used } ==> 0 < used <= s.len(),
{
    lemma_parse_varint_shape(s, 0);
    match parse_varint(s, 0) {
        VarintStep::Need { min } => {},
        VarintStep::Val { v: ty, end: e1 } => {
            lemma_parse_varint_shape(s, e1);
        },
    }
}

/// New bytes arriving behind the buffered ones never change a determined
/// outcome, and while fewer than `min` bytes are present an undecided
/// attempt stays undecided at the same `min`.
pub proof fn lemma_step_extend(s: Seq<u8>, w: Seq<u8>)
    requires
        s.is_prefix_of(w),
    ensures
        spec_step(s) matches SpecStep::Short { min } ==> (w.len() < min ==> spec_step(w)
            == SpecStep::Short { min }),
        !(spec_step(s) matches SpecStep::Short { .. }) ==> spec_step(w) == spec_step(s),
{
    lemma_parse_varint_extend(s, w, 0);
    match parse_varint(s, 0) {
        VarintStep::Need { min } => {},
        VarintStep::Val { v: ty, end: e1 } => {
            lemma_parse_varint_shape(s, 0);
            lemma_parse_varint_extend(s, w, e1);
            if !is_reserved_type(ty) {
                match parse_varint(s, e1) {
                    VarintStep::Need { min } => {},
                    VarintStep::Val { v: len, end: e2 } => {
                        lemma_parse_varint_shape(s, e1);
                        if ty != FRAME_DATA as int && s.len() >= e2 + len {
                            assert(w.subrange(e2, e2 + len) =~= s.subrange(e2, e2 + len));
                        }
                    },
                }
            }
        },
    }
}

/// What decoding determines once unknown frames at the front are skipped:
/// the first outcome of repeated attempts that is not a skip.
pub open spec fn spec_next(s: Seq<u8>) -> SpecStep
    decreases s.len(),
{
    match spec_step(s) {
        SpecStep::Skip { used } => {
            if 0 < used <= s.len() {
                spec_next(s.skip(used))
            } else {
                SpecStep::Skip { used }
            }
        },
        st => st,
    }
}

/// Bytes consumed by the unknown frames that `spec_next` folds away.
pub open spec fn spec_skipped(s: Seq<u8>) -> int
    decreases s.len(),
{
    match spec_step(s) {
        SpecStep::Skip { used } => {
            if 0 < used <= s.len() {
                used + spec_skipped(s.skip(used))
            } else {
                0
            }
        },
        _ => 0,
    }
}

/// The first `d` bytes of `s` are whole unknown frames, skipped one at a
/// time.
pub open spec fn skips_to(s: Seq<u8>, d: int) -> bool
    decreases d,
{
    if d == 0 {
        true
    } else if d < 0 {
        false
    } else {
        spec_step(s) matches SpecStep::Skip { used } && 0 < used <= d && used <= s.len()
            && skips_to(s.skip(used), d - used)
    }
}

pub proof fn lemma_skips_to_bound(s: Seq<u8>, d: int)
    requires
        0 <= d,
        skips_to(s, d),
    ensures
        d <= s.len(),
    decreases d,
{
    if d > 0 {
        match spec_step(s) {
            SpecStep::Skip { used } => {
                lemma_skips_to_bound(s.skip(used), d - used);
            },
            _ => {
                assert(false);
            },
        }
    }
}

/// Once `d` leading bytes are known to be skipped frames, what comes next
/// (and how much was skipped in total) is determined past them.
#[verifier::rlimit(50)]
pub proof fn lemma_skips_to_next(s: Seq<u8>, d: int)
    requires
        0 <= d,
        skips_to(s, d),
    ensures
        spec_next(s) == spec_next(s.skip(d)),
        spec_skipped(s) == d + spec_skipped(s.skip(d)),
    decreases d,
{
    lemma_skips_to_bound(s, d);
    if d == 0 {
        assert(s.skip(0) =~= s);
    } else {
        match spec_step(s) {
            SpecStep::Skip { used } => {
                lemma_skips_to_next(s.skip(used), d - used);
                assert(s.skip(used).skip(d - used) =~= s.skip(d));
            },
            _ => {
                assert(false);
            },
        }
    }
}

/// Skipped leading frames stay skipped when more bytes arrive behind them.
#[verifier::rlimit(50)]
pub proof fn lemma_skips_to_extend(s: Seq<u8>, e: Seq<u8>, d: int)
    requires
        0 <= d,
        skips_to(s, d),
    ensures
        skips_to(s + e, d),
    decreases d,
{
    if d > 0 {
        match spec_step(s) {
            SpecStep::Skip { used } => {
                assert(s.is_prefix_of(s + e)) by {
                    assert((s + e).subrange(0, s.len() as int) =~= s);
                }
                lemma_step_extend(s, s + e);
                assert((s + e).skip(used) =~= s.skip(used) + e);
                lemma_skips_to_extend(s.skip(used), e, d - used);
            },
            _ => {
                assert(false);
            },
        }
    }
}

/// One more unknown frame right after `d` skipped bytes extends the skip.
#[verifier::rlimit(50)]
pub proof fn lemma_skips_to_step(s: Seq<u8>, d: int, used: int)
    requires
        0 <= d,
        skips_to(s, d),
        spec_step(s.skip(d)) == (SpecStep::Skip { used }),
        0 < used <= s.skip(d).len(),
    ensures
        skips_to(s, d + used),
    decreases d,
{
    if d == 0 {
        assert(s.skip(0) =~= s);
        assert(skips_to(s.skip(used), 0));
    } else {
        match spec_step(s) {
            SpecStep::Skip { used: u0 } => {
                assert(0 < u0 <= d && u0 <= s.len() && skips_to(s.skip(u0), d - u0));
                lemma_skips_to_bound(s.skip(u0), d - u0);
                assert(s.skip(u0).skip(d - u0) =~= s.skip(d));
                lemma_skips_to_step(s.skip(u0), d - u0, used);
            },
            _ => {
                assert(false);
            },
        }
    }
}

/// The encoded settings body: each id/value pair as two varints.
pub open spec fn settings_bytes(es: Seq<(u64, u64)>) -> Seq<u8>
    decreases es.len(),
{
    if es.len() == 0 {
        Seq::empty()
    } else {
        encode_varint(es[0].0 as int) + encode_varint(es[0].1 as int) + settings_bytes(es.skip(1))
    }
}

pub open spec fn settings_ids_small(es: Seq<(u64, u64)>) -> bool {
    forall|i: int|
        0 <= i < es.len() ==> (#[trigger] es[i]).0 < VARINT_LIMIT && es[i].1 < VARINT_LIMIT
}

/// The wire bytes of `f`.
pub open spec fn spec_encode(f: FrameModel) -> Seq<u8> {
    match f {
        FrameModel::Data { len } => encode_varint(FRAME_DATA as int) + encode_varint(len as int),
        FrameModel::Headers { payload } => encode_varint(FRAME_HEADERS as int) + encode_varint(
            payload.len() as int,
        ) + payload,
        FrameModel::Settings { entries } => encode_varint(FRAME_SETTINGS as int) + encode_varint(
            settings_bytes(entries).len() as int,
        ) + settings_bytes(entries),
        FrameModel::Goaway { id } => encode_varint(FRAME_GOAWAY as int) + encode_varint(
            encode_varint(id as int).len() as int,
        ) + encode_varint(id as int),
    }
}

/// Every varint the encoding writes must stay below the varint limit.
pub open spec fn encodable(f: FrameModel) -> bool {
    match f {
        FrameModel::Data { len } => len < VARINT_LIMIT,
        FrameModel::Headers { payload } => payload.len() < VARINT_LIMIT as int,
        FrameModel::Settings { entries } => settings_ids_small(entries) && settings_bytes(
            entries,
        ).len() < VARINT_LIMIT as int,
        FrameModel::Goaway { id } => id < VARINT_LIMIT,
    }
}

pub proof fn lemma_settings_bytes_take(es: Seq<(u64, u64)>, i: int)
    requires
        0 <= i < es.len(),
    ensures
        settings_bytes(es.take(i + 1)) == settings_bytes(es.take(i)) + encode_varint(
            es[i].0 as int,
        ) + encode_varint(es[i].1 as int),
    decreases i,
{
    if i == 0 {
        assert(es.take(0) =~= Seq::<(u64, u64)>::empty());
        assert(es.take(1)[0] == es[0]);
        assert(es.take(1).skip(1) =~= Seq::<(u64, u64)>::empty());
        assert(settings_bytes(Seq::<(u64, u64)>::empty()) == Seq::<u8>::empty());
        assert(settings_bytes(es.take(1)) =~= settings_bytes(es.take(0)) + encode_varint(
            es[0].0 as int,
        ) + encode_varint(es[0].1 as int));
    } else {
        lemma_settings_bytes_take(es.skip(1), i - 1);
        assert(es.take(i + 1)[0] == es[0]);
        assert(es.take(i)[0] == es[0]);
        assert(es.take(i + 1).skip(1) =~= es.skip(1).take(i));
        assert(es.take(i).skip(1) =~= es.skip(1).take(i - 1));
        assert(es.skip(1)[i - 1] == es[i]);
        assert(settings_bytes(es.take(i + 1)) =~= settings_bytes(es.take(i)) + encode_varint(
            es[i].0 as int,
        ) + encode_varint(es[i].1 as int));
    }
}

/// `settings_bytes` splits at any entry boundary.
pub proof fn lemma_settings_bytes_split(es: Seq<(u64, u64)>, i: int)
    requires
        0 <= i <= es.len(),
    ensures
        settings_bytes(es) == settings_bytes(es.take(i)) + settings_bytes(es.skip(i)),
    decreases i,
{
    if i == 0 {
        assert(es.take(0) =~= Seq::<(u64, u64)>::empty());
        assert(es.skip(0) =~= es);
        assert(settings_bytes(es) =~= settings_bytes(es.take(0)) + settings_bytes(es.skip(0)));
    } else {
        lemma_settings_bytes_split(es.skip(1), i - 1);
        assert(es.take(i)[0] == es[0]);
        assert(es.take(i).skip(1) =~= es.skip(1).take(i - 1));
        assert(es.skip(i) =~= es.skip(1).skip(i - 1));
        assert(settings_bytes(es) =~= settings_bytes(es.take(i)) + settings_bytes(es.skip(i)));
    }
}

/// Wraps an owned payload as a buffer, so the same speculative reads can
/// run over it.
fn buffer_of(payload: Vec<u8>) -> (r: ChunkBuffer)
    ensures
        r.wf(),
        r@ == payload@,
{
    let ghost pv = payload@;
    let n = payload.len();
    let mut b = ChunkBuffer::new();
    b.push(payload);
    proof {
        assert(b@ =~= pv);
    }
    b
}

/// Reads a settings body as id/value pairs; the executable counterpart of
/// `parse_settings_from`.
fn parse_settings_entries(payload: Vec<u8>) -> (r: Option<Vec<(u64, u64)>>)
    requires
        payload@.len() <= VARINT_LIMIT,
    ensures
        ({
            let st = parse_settings_from(payload@, 0);
            match r {
                Some(v) => st == Some(v@),
                None => st matches None,
            }
        }),
{
    let ghost pv = payload@;
    let n = payload.len();
    let buf = buffer_of(payload);
    let mut entries: Vec<(u64, u64)> = Vec::new();
    let mut pos: usize = 0;
    proof {
        match parse_settings_from(pv, 0) {
            Some(rest) => {
                assert(entries@ + rest =~= rest);
            },
            None => {},
        }
    }
    loop
        invariant
            buf.wf(),
            buf@ == pv,
            pv == payload@,
            pv.len() <= VARINT_LIMIT,
            n == pv.len(),
            pos <= n,
            parse_settings_from(pv, 0) == (match parse_settings_from(pv, pos as int) {
                Some(rest) => Some(entries@ + rest),
                None => None::<Seq<(u64, u64)>>,
            }),
        decreases n - pos,
    {
        if pos == n {
            proof {
                assert(parse_settings_from(pv, pos as int) == Some(Seq::<(u64, u64)>::empty()));
                assert(entries@ + Seq::<(u64, u64)>::empty() =~= entries@);
                assert(parse_settings_from(pv, 0) == Some(entries@));
            }
            return Some(entries);
        }
        let ghost p0 = pos as int;
        let a = parse_varint_at(&buf, pos);
        let (id, e1) = match a {
            VarintParsed::Need { .. } => {
                proof {
                    assert(parse_settings_from(pv, p0) == None::<Seq<(u64, u64)>>);
                }
                return None;
            },
            VarintParsed::Val { v, end } => (v, end),
        };
        let b = parse_varint_at(&buf, e1);
        let (val, e2) = match b {
            VarintParsed::Need { .. } => {
                proof {
                    assert(parse_settings_from(pv, p0) == None::<Seq<(u64, u64)>>);
                }
                return None;
            },
            VarintParsed::Val { v, end } => (v, end),
        };
        let ghost old_entries = entries@;
        entries.push((id, val));
        proof {
            assert(parse_settings_from(pv, p0) == (match parse_settings_from(pv, e2 as int) {
                Some(rest) => Some(seq![(id, val)] + rest),
                None => None::<Seq<(u64, u64)>>,
            }));
            match parse_settings_from(pv, e2 as int) {
                Some(rest) => {
                    assert(old_entries + (seq![(id, val)] + rest) =~= entries@ + rest);
                },
                None => {},
            }
        }
        pos = e2;
    }
}

/// What one executable decode attempt produced.
pub enum DecodeStep {
    Got { frame: Frame, used: usize },
    Skip { used: usize },
    Short { min: u64 },
    Unsupported { ty: u64 },
    BadSettings,
    Malformed,
}

/// The executable outcome agrees with the specified one.
pub open spec fn step_matches(r: DecodeStep, st: SpecStep) -> bool {
    match st {
        SpecStep::Got { f, used } => r matches DecodeStep::Got { frame, used: u } && frame@ == f
            && u as int == used,
        SpecStep::Skip { used } => r matches DecodeStep::Skip { used: u } && u as int == used,
        SpecStep::Short { min } => r matches DecodeStep::Short { min: m } && m as int == min,
        SpecStep::Unsupported { ty } => r matches DecodeStep::Unsupported { ty: t } && t == ty,
        SpecStep::BadSettings => r matches DecodeStep::BadSettings,
        SpecStep::Malformed => r matches DecodeStep::Malformed,
    }
}

/// One decode attempt against the buffer's speculative cursor.  Nothing is
/// consumed: the caller commits `used` bytes on `Got` or `Skip`.
pub fn decode_step(buf: &ChunkBuffer) -> (r: DecodeStep)
    requires
        buf.wf(),
        buf@.len() <= VARINT_LIMIT,
    ensures
        step_matches(r, spec_step(buf@)),
        r matches DecodeStep::Got { frame, used } ==> used <= buf@.len(),
        r matches DecodeStep::Skip { used } ==> 0 < used <= buf@.len(),
{
    proof {
        lemma_step_shape(buf@);
        lemma_parse_varint_shape(buf@, 0);
    }
    let t = parse_varint_at(buf, 0);
    let (ty, e1) = match t {
        VarintParsed::Need { min } => {
            return DecodeStep::Short { min };
        },
        VarintParsed::Val { v, end } => (v, end),
    };
    if ty == 0x02 || ty == 0x06 || ty == 0x08 || ty == 0x09 {
        return DecodeStep::Unsupported { ty };
    }
    proof {
        lemma_parse_varint_shape(buf@, e1 as int);
    }
    let lv = parse_varint_at(buf, e1);
    let (len, e2) = match lv {
        VarintParsed::Need { min } => {
            return DecodeStep::Short { min };
        },
        VarintParsed::Val { v, end } => (v, end),
    };
    if ty == FRAME_DATA {
        return DecodeStep::Got { frame: Frame::Data { len }, used: e2 };
    }
    let rem = buf.remaining();
    if ((rem - e2) as u64) < len {
        return DecodeStep::Short { min: e2 as u64 + len };
    }
    let plen = len as usize;
    let pend = e2 + plen;
    let payload = buf.copy_range(e2, pend);
    if ty == FRAME_HEADERS {
        return DecodeStep::Got { frame: Frame::Headers { payload }, used: pend };
    }
    if ty == FRAME_SETTINGS {
        return match parse_settings_entries(payload) {
            Some(entries) => DecodeStep::Got { frame: Frame::Settings { entries }, used: pend },
            None => DecodeStep::BadSettings,
        };
    }
    if ty == FRAME_GOAWAY {
        let pbuf = buffer_of(payload);
        return match parse_varint_at(&pbuf, 0) {
            VarintParsed::Val { v, end } => {
                if end == plen {
                    DecodeStep::Got { frame: Frame::Goaway { id: v }, used: pend }
                } else {
                    DecodeStep::Malformed
                }
            },
            VarintParsed::Need { .. } => DecodeStep::Malformed,
        };
    }
    DecodeStep::Skip { used: pend }
}

/// Appends all of `src` to `out`.
fn push_slice(out: &mut Vec<u8>, src: &Vec<u8>)
    ensures
        final(out)@ == old(out)@ + src@,
{
    let mut i: usize = 0;
    proof {
        assert(old(out)@ + src@.take(0) =~= old(out)@);
    }
    while i < src.len()
        invariant
            i <= src@.len(),
            out@ == old(out)@ + src@.take(i as int),
        decreases src@.len() - i,
    {
        out.push(src[i]);
        i = i + 1;
        proof {
            assert(old(out)@ + src@.take(i as int) =~= (old(out)@ + src@.take(i - 1)).push(
                src@[i - 1],
            ));
        }
    }
    proof {
        assert(src@.take(src@.len() as int) =~= src@);
    }
}

impl Frame {
    /// Whether `encode` may be called: every varint the encoding writes
    /// fits the varint limit.
    pub fn is_encodable(&self) -> (r: bool)
        ensures
            r == encodable(self@),
    {
        match self {
            Frame::Data { len } => *len < VARINT_LIMIT,
            Frame::Headers { payload } => (payload.len() as u64) < VARINT_LIMIT,
            Frame::Goaway { id } => *id < VARINT_LIMIT,
            Frame::Settings { entries } => {
                let mut total: u64 = 0;
                let mut i: usize = 0;
                let n = entries.len();
                proof {
                    assert(entries@.take(0) =~= Seq::<(u64, u64)>::empty());
                }
                while i < n
                    invariant
                        self@ == (FrameModel::Settings { entries: entries@ }),
                        n == entries@.len(),
                        i <= n,
                        settings_ids_small(entries@.take(i as int)),
                        total == settings_bytes(entries@.take(i as int)).len(),
                        total < VARINT_LIMIT,
                    decreases n - i,
                {
                    let (id, val) = entries[i];
                    if id >= VARINT_LIMIT || val >= VARINT_LIMIT {
                        proof {
                            assert(entries@[i as int].0 == id && entries@[i as int].1 == val);
                            assert(!(entries@[i as int].0 < VARINT_LIMIT && entries@[i as int].1
                                < VARINT_LIMIT));
                            assert(!settings_ids_small(entries@));
                        }
                        return false;
                    }
                    let sz = varint_size_of(id) + varint_size_of(val);
                    proof {
                        lemma_settings_bytes_take(entries@, i as int);
                        lemma_encode_varint_len(id as int);
                        lemma_encode_varint_len(val as int);
                        assert(settings_bytes(entries@.take(i as int + 1)).len() == total + sz);
                    }
                    if total + (sz as u64) >= VARINT_LIMIT {
                        proof {
                            lemma_settings_bytes_split(entries@, i as int + 1);
                            assert(settings_bytes(entries@).len() >= settings_bytes(
                                entries@.take(i as int + 1),
                            ).len());
                            assert(settings_bytes(entries@).len() >= VARINT_LIMIT as int);
                            assert(!encodable(self@));
                        }
                        return false;
                    }
                    total = total + sz as u64;
                    i = i + 1;
                }
                proof {
                    assert(entries@.take(n as int) =~= entries@);
                }
                true
            },
        }
    }

    /// Appends the wire bytes of this frame to `buf`.
    pub fn encode(&self, buf: &mut Vec<u8>)
        requires
            encodable(self@),
        ensures
            final(buf)@ == old(buf)@ + spec_encode(self@),
    {
        match self {
            Frame::Data { len } => {
                encode_varint_push(FRAME_DATA, buf);
                encode_varint_push(*len, buf);
                proof {
                    assert(buf@ =~= old(buf)@ + spec_encode(self@));
                }
            },
            Frame::Headers { payload } => {
                encode_varint_push(FRAME_HEADERS, buf);
                encode_varint_push(payload.len() as u64, buf);
                push_slice(buf, payload);
                proof {
                    assert(buf@ =~= old(buf)@ + spec_encode(self@));
                }
            },
            Frame::Settings { entries } => {
                let mut body: Vec<u8> = Vec::new();
                let mut i: usize = 0;
                let n = entries.len();
                proof {
                    assert(body@ =~= settings_bytes(entries@.take(0)));
                }
                while i < n
                    invariant
                        n == entries@.len(),
                        i <= n,
                        settings_ids_small(entries@),
                        body@ == settings_bytes(entries@.take(i as int)),
                    decreases n - i,
                {
                    let (id, val) = entries[i];
                    encode_varint_push(id, &mut body);
                    encode_varint_push(val, &mut body);
                    proof {
                        lemma_settings_bytes_take(entries@, i as int);
                        assert(body@ =~= settings_bytes(entries@.take(i as int + 1)));
                    }
                    i = i + 1;
                }
                proof {
                    assert(entries@.take(n as int) =~= entries@);
                }
                encode_varint_push(FRAME_SETTINGS, buf);
                encode_varint_push(body.len() as u64, buf);
                push_slice(buf, &body);
                proof {
                    assert(buf@ =~= old(buf)@ + spec_encode(self@));
                }
            },
            Frame::Goaway { id } => {
                let mut body: Vec<u8> = Vec::new();
                encode_varint_push(*id, &mut body);
                proof {
                    lemma_encode_varint_len(*id as int);
                }
                encode_varint_push(FRAME_GOAWAY, buf);
                encode_varint_push(body.len() as u64, buf);
                push_slice(buf, &body);
                proof {
                    assert(buf@ =~= old(buf)@ + spec_encode(self@));
                }
            },
        }
    }
}

} // verus!
