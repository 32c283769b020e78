//! The crate-level guarantees, stated once over the byte-sequence model:
//! chunking never matters, truncation is always detected as incompleteness,
//! encoded frames decode back to themselves, and unknown frames vanish
//! without a trace.

use vstd::prelude::*;
use crate::chunks::concat_of;
use crate::codec::{
    FrameModel,
    SpecStep,
    FRAME_DATA,
    FRAME_HEADERS,
    FRAME_SETTINGS,
    FRAME_GOAWAY,
    encodable,
    is_reserved_type,
    lemma_step_shape,
    parse_settings_from,
    settings_bytes,
    settings_ids_small,
    spec_encode,
    spec_next,
    spec_skipped,
    spec_step,
};
use crate::wire::{
    VARINT_LIMIT,
    encode_varint,
    lemma_encode_varint_len,
    lemma_parse_encode_varint,
    lemma_parse_varint_truncated,
    varint_size,
};

verus! {

/// Every frame the byte sequence `s` yields, in order, unknown frames
/// skipped, stopping at the first incompleteness, error or end.
pub open spec fn frames_of(s: Seq<u8>) -> Seq<FrameModel>
    decreases s.len(),
{
    match spec_next(s) {
        SpecStep::Got { f, used } => {
            let c = spec_skipped(s) + used;
            if 0 < c <= s.len() {
                seq![f] + frames_of(s.skip(c))
            } else {
                seq![f]
            }
        },
        _ => Seq::empty(),
    }
}

/// What `spec_next` resolves to consumes at most the whole sequence.
pub proof fn lemma_skipped_bound(s: Seq<u8>)
    ensures
        0 <= spec_skipped(s) <= s.len(),
        spec_next(s) matches SpecStep::Got { f, used } ==> 0 < used && spec_skipped(s) + used
            <= s.len(),
    decreases s.len(),
{
    lemma_step_shape(s);
    match spec_step(s) {
        SpecStep::Skip { used } => {
            lemma_skipped_bound(s.skip(used));
        },
        _ => {},
    }
}

/// The frame type field each frame kind is written with.
pub open spec fn wire_type(f: FrameModel) -> u64 {
    match f {
        FrameModel::Data { .. } => FRAME_DATA,
        FrameModel::Headers { .. } => FRAME_HEADERS,
        FrameModel::Settings { .. } => FRAME_SETTINGS,
        FrameModel::Goaway { .. } => FRAME_GOAWAY,
    }
}

/// The body bytes following the header; empty for the length-announcing
/// frame, whose payload is streamed separately.
pub open spec fn wire_body(f: FrameModel) -> Seq<u8> {
    match f {
        FrameModel::Data { .. } => Seq::empty(),
        FrameModel::Headers { payload } => payload,
        FrameModel::Settings { entries } => settings_bytes(entries),
        FrameModel::Goaway { id } => encode_varint(id as int),
    }
}

/// The value of the length field.
pub open spec fn wire_len(f: FrameModel) -> int {
    match f {
        FrameModel::Data { len } => len as int,
        _ => wire_body(f).len() as int,
    }
}

/// Every encoding is type varint, length varint, body.
pub proof fn lemma_encode_shape(f: FrameModel)
    requires
        encodable(f),
    ensures
        spec_encode(f) == encode_varint(wire_type(f) as int) + encode_varint(wire_len(f))
            + wire_body(f),
        0 <= wire_len(f) < VARINT_LIMIT,
        !(f matches FrameModel::Data { .. }) ==> wire_len(f) == wire_body(f).len(),
        f matches FrameModel::Goaway { id } ==> wire_body(f).len() == varint_size(id as int),
{
    match f {
        FrameModel::Data { len } => {
            assert(spec_encode(f) =~= encode_varint(FRAME_DATA as int) + encode_varint(len as int)
                + Seq::<u8>::empty());
        },
        FrameModel::Headers { payload } => {},
        FrameModel::Settings { entries } => {},
        FrameModel::Goaway { id } => {
            lemma_encode_varint_len(id as int);
        },
    }
}

/// A settings body parses back to exactly the entries it was written from,
/// wherever it sits behind a prefix `q`.
pub proof fn lemma_parse_settings_append(q: Seq<u8>, es: Seq<(u64, u64)>)
    requires
        settings_ids_small(es),
    ensures
        parse_settings_from(q + settings_bytes(es), q.len() as int) == Some(es),
    decreases es.len(),
{
    let p = q + settings_bytes(es);
    if es.len() == 0 {
        assert(settings_bytes(es) =~= Seq::<u8>::empty());
        assert(p =~= q);
        assert(Some(Seq::<(u64, u64)>::empty()) == Some(es)) by {
            assert(es =~= Seq::<(u64, u64)>::empty());
        }
    } else {
        let a = es[0].0;
        let b = es[0].1;
        let ea = encode_varint(a as int);
        let eb = encode_varint(b as int);
        lemma_encode_varint_len(a as int);
        lemma_encode_varint_len(b as int);
        assert(settings_bytes(es) == ea + eb + settings_bytes(es.skip(1)));
        assert(p.subrange(q.len() as int, q.len() + ea.len() as int) =~= ea);
        lemma_parse_encode_varint(p, q.len() as int, a as int);
        assert(p.subrange(q.len() + ea.len() as int, q.len() as int + ea.len() + eb.len()) =~= eb);
        lemma_parse_encode_varint(p, q.len() + ea.len() as int, b as int);
        assert(settings_ids_small(es.skip(1))) by {
            assert forall|i: int| 0 <= i < es.skip(1).len() implies (#[trigger] es.skip(1)[i]).0
                < VARINT_LIMIT && es.skip(1)[i].1 < VARINT_LIMIT by {
                assert(es.skip(1)[i] == es[i + 1]);
            }
        }
        lemma_parse_settings_append(q + ea + eb, es.skip(1));
        assert((q + ea + eb) + settings_bytes(es.skip(1)) =~= p);
        assert((q + ea + eb).len() == q.len() + ea.len() + eb.len());
        assert(seq![(a, b)] + es.skip(1) =~= es);
    }
}

/// An encoded frame at the front of any stream decodes to exactly the frame
/// that was encoded, consuming exactly its bytes.
pub proof fn lemma_step_of_encoded(f: FrameModel, rest: Seq<u8>)
    requires
        encodable(f),
    ensures
        spec_step(spec_encode(f) + rest) == (SpecStep::Got {
            f,
            used: spec_encode(f).len() as int,
        }),
{
    lemma_encode_shape(f);
    let ty = wire_type(f) as int;
    let lf = wire_len(f);
    let body = wire_body(f);
    let et = encode_varint(ty);
    let el = encode_varint(lf);
    lemma_encode_varint_len(ty);
    lemma_encode_varint_len(lf);
    let s = spec_encode(f) + rest;
    let tl = et.len() as int;
    let hl = tl + el.len();
    assert(s.subrange(0, tl) =~= et);
    lemma_parse_encode_varint(s, 0, ty);
    assert(s.subrange(tl, hl) =~= el);
    lemma_parse_encode_varint(s, tl, lf);
    match f {
        FrameModel::Data { len } => {
            assert(spec_encode(f).len() == hl);
        },
        FrameModel::Headers { payload } => {
            assert(s.subrange(hl, hl + lf) =~= payload);
        },
        FrameModel::Settings { entries } => {
            lemma_parse_settings_append(Seq::empty(), entries);
            assert(Seq::<u8>::empty() + settings_bytes(entries) =~= settings_bytes(entries));
            assert(s.subrange(hl, hl + lf) =~= settings_bytes(entries));
        },
        FrameModel::Goaway { id } => {
            let eid = encode_varint(id as int);
            assert(s.subrange(hl, hl + lf) =~= eid);
            assert(eid.subrange(0, varint_size(id as int) as int) =~= eid);
            lemma_parse_encode_varint(eid, 0, id as int);
        },
    }
}

/// P2: an encoded frame cut short anywhere before its end decodes as
/// incomplete — never as a frame, never as silent success — so a stream
/// that ends there raises the unexpected-end error rather than dropping
/// the partial frame.
pub proof fn lemma_truncated_frame_short(f: FrameModel, k: int)
    requires
        encodable(f),
        0 <= k < spec_encode(f).len(),
    ensures
        spec_step(spec_encode(f).take(k)) matches SpecStep::Short { .. },
{
    lemma_encode_shape(f);
    lemma_step_of_encoded(f, Seq::empty());
    let e = spec_encode(f);
    let s = e + Seq::<u8>::empty();
    assert(s =~= e);
    let ty = wire_type(f) as int;
    let lf = wire_len(f);
    let et = encode_varint(ty);
    let el = encode_varint(lf);
    lemma_encode_varint_len(ty);
    lemma_encode_varint_len(lf);
    let tl = et.len() as int;
    let hl = tl + el.len();
    assert(e.subrange(0, tl) =~= et);
    lemma_parse_encode_varint(e, 0, ty);
    assert(e.subrange(tl, hl) =~= el);
    lemma_parse_encode_varint(e, tl, lf);
    let w = e.take(k);
    if k < tl {
        lemma_parse_varint_truncated(e, 0, ty, tl, k);
    } else {
        assert(w.subrange(0, tl) =~= et);
        lemma_parse_encode_varint(w, 0, ty);
        if k < hl {
            lemma_parse_varint_truncated(e, tl, lf, hl, k);
        } else {
            assert(w.subrange(tl, hl) =~= el);
            lemma_parse_encode_varint(w, tl, lf);
            match f {
                FrameModel::Data { len } => {
                    assert(false);
                },
                _ => {
                    assert(e.len() == hl + lf);
                    assert(w.len() < hl + lf);
                },
            }
        }
    }
}

/// P1: however a byte stream is cut into chunks, what is decoded is a
/// function of the concatenated bytes alone, so any two chunkings of the
/// same bytes yield the same frames.
pub proof fn lemma_chunking_immaterial(cs: Seq<Seq<u8>>, ds: Seq<Seq<u8>>)
    requires
        concat_of(cs) == concat_of(ds),
    ensures
        frames_of(concat_of(cs)) == frames_of(concat_of(ds)),
{
}

/// A well-formed encoded frame in front of a stream contributes exactly
/// itself to the decoded frame sequence.
pub proof fn lemma_frames_of_encoded(f: FrameModel, rest: Seq<u8>)
    requires
        encodable(f),
    ensures
        frames_of(spec_encode(f) + rest) == seq![f] + frames_of(rest),
{
    lemma_step_of_encoded(f, rest);
    let s = spec_encode(f) + rest;
    let e = spec_encode(f);
    assert(spec_next(s) == (SpecStep::Got { f, used: e.len() as int }));
    assert(spec_skipped(s) == 0);
    assert(s.skip(e.len() as int) =~= rest);
    lemma_encode_varint_len(wire_type(f) as int);
    lemma_encode_shape(f);
    assert(e.len() > 0);
}

/// A sequence of frames laid out back to back on the wire.
pub open spec fn encode_all(fs: Seq<FrameModel>) -> Seq<u8>
    decreases fs.len(),
{
    if fs.len() == 0 {
        Seq::empty()
    } else {
        spec_encode(fs[0]) + encode_all(fs.skip(1))
    }
}

/// P1, completed: decoding a well-formed encoded frame sequence recovers
/// exactly the frames that were encoded — and by `lemma_chunking_immaterial`
/// this holds for every chunking of those bytes.
pub proof fn lemma_frames_of_encoded_all(fs: Seq<FrameModel>)
    requires
        forall|i: int| 0 <= i < fs.len() ==> encodable(#[trigger] fs[i]),
    ensures
        frames_of(encode_all(fs)) == fs,
    decreases fs.len(),
{
    if fs.len() == 0 {
        assert(frames_of(encode_all(fs)) =~= Seq::<FrameModel>::empty());
    } else {
        lemma_frames_of_encoded(fs[0], encode_all(fs.skip(1)));
        assert(forall|i: int|
            0 <= i < fs.skip(1).len() ==> encodable(#[trigger] fs.skip(1)[i])) by {
            assert forall|i: int| 0 <= i < fs.skip(1).len() implies encodable(
                #[trigger] fs.skip(1)[i],
            ) by {
                assert(fs.skip(1)[i] == fs[i + 1]);
            }
        }
        lemma_frames_of_encoded_all(fs.skip(1));
        assert(seq![fs[0]] + fs.skip(1) =~= fs);
    }
}

/// P8: an unknown frame type embedded in the stream is skipped silently;
/// everything after it is decoded exactly as if it were not there.
pub proof fn lemma_unknown_frame_skipped(ty: u64, payload: Seq<u8>, rest: Seq<u8>)
    requires
        ty < VARINT_LIMIT,
        payload.len() < VARINT_LIMIT as int,
        !is_reserved_type(ty as int),
        ty != FRAME_DATA,
        ty != FRAME_HEADERS,
        ty != FRAME_SETTINGS,
        ty != FRAME_GOAWAY,
    ensures
        ({
            let u = encode_varint(ty as int) + encode_varint(payload.len() as int) + payload;
            &&& spec_next(u + rest) == spec_next(rest)
            &&& spec_skipped(u + rest) == u.len() + spec_skipped(rest)
            &&& frames_of(u + rest) == frames_of(rest)
        }),
{
    let et = encode_varint(ty as int);
    let el = encode_varint(payload.len() as int);
    let u = et + el + payload;
    let s = u + rest;
    lemma_encode_varint_len(ty as int);
    lemma_encode_varint_len(payload.len() as int);
    let tl = et.len() as int;
    let hl = tl + el.len();
    assert(s.subrange(0, tl) =~= et);
    lemma_parse_encode_varint(s, 0, ty as int);
    assert(s.subrange(tl, hl) =~= el);
    lemma_parse_encode_varint(s, tl, payload.len() as int);
    assert(spec_step(s) == (SpecStep::Skip { used: u.len() as int }));
    assert(s.skip(u.len() as int) =~= rest);
    lemma_skipped_bound(rest);
    match spec_next(rest) {
        SpecStep::Got { f, used } => {
            let c = spec_skipped(rest) + used;
            assert(s.skip(u.len() + c) =~= rest.skip(c));
        },
        _ => {},
    }
}

} // verus!
