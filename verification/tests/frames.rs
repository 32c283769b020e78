use std::collections::VecDeque;

use framing::chunks::ChunkBuffer;
use framing::codec::Frame;
use framing::decoder::FrameDecoder;
use framing::errors::{Error, ErrorCode, FrameError};
use framing::errors::{FRAME_ERROR, FRAME_UNEXPECTED, GENERAL_PROTOCOL_ERROR, SETTINGS_ERROR};
use framing::stream::{FrameStream, Polled, RecvEvent, RecvStream, SendStream};

fn headers(payload: &[u8]) -> Frame {
    Frame::Headers { payload: payload.to_vec() }
}

fn encode(frame: &Frame) -> Vec<u8> {
    let mut buf: Vec<u8> = Vec::new();
    assert!(frame.is_encodable());
    frame.encode(&mut buf);
    buf
}

fn buffer_from(bytes: &[u8]) -> ChunkBuffer {
    let mut b = ChunkBuffer::new();
    b.push(bytes.to_vec());
    b
}

#[derive(Default)]
struct FakeRecv {
    chunks: VecDeque<Vec<u8>>,
    stopped: Option<u64>,
}

impl FakeRecv {
    fn chunk(&mut self, buf: Vec<u8>) -> &mut Self {
        self.chunks.push_back(buf);
        self
    }
}

impl RecvStream for FakeRecv {
    fn poll_data(&mut self) -> RecvEvent {
        match self.chunks.pop_front() {
            Some(c) => RecvEvent::Chunk(c),
            None => RecvEvent::End,
        }
    }

    fn stop_sending(&mut self, error_code: u64) {
        self.stopped = Some(error_code);
    }
}

// Decoder

#[test]
fn one_frame() {
    let frame = headers(b"salut");

    let mut buf: Vec<u8> = Vec::with_capacity(16);
    frame.encode(&mut buf);
    let mut buf = buffer_from(&buf);

    let mut decoder = FrameDecoder::default();
    assert!(matches!(decoder.decode(&mut buf), Ok(Some(Frame::Headers { .. }))));
}

#[test]
fn incomplete_frame() {
    let frame = headers(b"salut");

    let mut buf: Vec<u8> = Vec::with_capacity(16);
    frame.encode(&mut buf);
    buf.truncate(buf.len() - 1);
    let mut buf = buffer_from(&buf);

    let mut decoder = FrameDecoder::default();
    assert!(matches!(decoder.decode(&mut buf), Ok(None)));
}

#[test]
fn header_spread_multiple_buf() {
    let frame = headers(b"salut");

    let mut buf: Vec<u8> = Vec::with_capacity(16);
    frame.encode(&mut buf);
    let mut buf_list = ChunkBuffer::new();
    // Cut buffer between type and length
    buf_list.push(buf[..1].to_vec());
    buf_list.push(buf[1..].to_vec());

    let mut decoder = FrameDecoder::default();
    assert!(matches!(decoder.decode(&mut buf_list), Ok(Some(Frame::Headers { .. }))));
}

#[test]
fn varint_spread_multiple_buf() {
    let payload = "salut".repeat(1024);
    let frame = headers(payload.as_bytes());

    let mut buf: Vec<u8> = Vec::with_capacity(16);
    frame.encode(&mut buf);
    let mut buf_list = ChunkBuffer::new();
    // Cut buffer in the middle of length's varint
    buf_list.push(buf[..2].to_vec());
    buf_list.push(buf[2..].to_vec());

    let mut decoder = FrameDecoder::default();
    assert!(matches!(decoder.decode(&mut buf_list), Ok(Some(Frame::Headers { .. }))));
}

#[test]
fn two_frames_then_incomplete() {
    let mut buf: Vec<u8> = Vec::with_capacity(64);
    headers(b"header").encode(&mut buf);
    Frame::Data { len: 4 }.encode(&mut buf);
    buf.extend_from_slice(b"body");
    headers(b"trailer").encode(&mut buf);

    buf.truncate(buf.len() - 1);
    let mut buf = buffer_from(&buf);

    let mut decoder = FrameDecoder::default();
    assert!(matches!(decoder.decode(&mut buf), Ok(Some(Frame::Headers { .. }))));
    assert!(matches!(decoder.decode(&mut buf), Ok(Some(Frame::Data { len: 4 }))));
    assert!(matches!(decoder.decode(&mut buf), Ok(None)));
}

// FrameStream

#[test]
fn poll_full_request() {
    let mut recv = FakeRecv::default();
    let mut buf: Vec<u8> = Vec::with_capacity(64);

    headers(b"header").encode(&mut buf);
    Frame::Data { len: 4 }.encode(&mut buf);
    buf.extend_from_slice(b"body");
    headers(b"trailer").encode(&mut buf);
    recv.chunk(buf);
    let mut stream = FrameStream::new(recv);

    assert!(matches!(stream.poll_next(), Polled::Ready(Ok(Some(Frame::Headers { .. })))));
    assert!(matches!(stream.poll_next(), Polled::Ready(Ok(Some(Frame::Data { len: 4 })))));
    match stream.poll_data() {
        Polled::Ready(Ok(Some(b))) => assert_eq!(b, b"body".to_vec()),
        other => panic!("expected body bytes, got {:?}", other),
    }
    assert!(matches!(stream.poll_next(), Polled::Ready(Ok(Some(Frame::Headers { .. })))));
}

#[test]
fn poll_next_incomplete_frame() {
    let mut recv = FakeRecv::default();
    let mut buf: Vec<u8> = Vec::with_capacity(64);

    headers(b"header").encode(&mut buf);
    buf.truncate(buf.len() - 1);
    recv.chunk(buf);
    let mut stream = FrameStream::new(recv);

    assert!(matches!(stream.poll_next(), Polled::Ready(Err(Error::UnexpectedEnd))));
}

#[test]
fn poll_data_split() {
    let mut recv = FakeRecv::default();
    let mut buf: Vec<u8> = Vec::with_capacity(64);

    // Body is split into two bufs
    Frame::Data { len: 4 }.encode(&mut buf);
    buf.extend_from_slice(b"body");
    let tail = buf.split_off(buf.len() - 2);
    recv.chunk(buf);
    recv.chunk(tail);
    let mut stream = FrameStream::new(recv);

    assert!(matches!(stream.poll_next(), Polled::Ready(Ok(Some(Frame::Data { len: 4 })))));
    match stream.poll_data() {
        Polled::Ready(Ok(Some(b))) => assert_eq!(b.len(), 4),
        other => panic!("expected 4 body bytes, got {:?}", other),
    }
}

#[test]
fn poll_data_unexpected_end() {
    let mut recv = FakeRecv::default();
    let mut buf: Vec<u8> = Vec::with_capacity(64);

    // Truncated body
    Frame::Data { len: 4 }.encode(&mut buf);
    buf.extend_from_slice(b"b");
    recv.chunk(buf);
    let mut stream = FrameStream::new(recv);

    assert!(matches!(stream.poll_next(), Polled::Ready(Ok(Some(Frame::Data { len: 4 })))));
    assert!(matches!(stream.poll_data(), Polled::Ready(Err(Error::UnexpectedEnd))));
}

// Chunking never changes what is decoded.

#[test]
fn byte_by_byte_chunks_same_frames() {
    let mut buf: Vec<u8> = Vec::new();
    headers(b"header").encode(&mut buf);
    Frame::Data { len: 4 }.encode(&mut buf);
    buf.extend_from_slice(b"body");
    headers(b"trailer").encode(&mut buf);

    let mut recv = FakeRecv::default();
    for b in &buf {
        recv.chunk(vec![*b]);
    }
    let mut stream = FrameStream::new(recv);

    assert!(matches!(stream.poll_next(), Polled::Ready(Ok(Some(Frame::Headers { .. })))));
    assert!(matches!(stream.poll_next(), Polled::Ready(Ok(Some(Frame::Data { len: 4 })))));
    let mut body: Vec<u8> = Vec::new();
    loop {
        match stream.poll_data() {
            Polled::Ready(Ok(Some(mut b))) => body.append(&mut b),
            Polled::Ready(Ok(None)) => break,
            other => panic!("unexpected payload outcome {:?}", other),
        }
    }
    assert_eq!(body, b"body".to_vec());
    assert!(matches!(stream.poll_next(), Polled::Ready(Ok(Some(Frame::Headers { .. })))));
    assert!(matches!(stream.poll_next(), Polled::Ready(Ok(None))));
}

// Exactly the announced number of payload bytes comes out, then "no more".

#[test]
fn payload_drains_exactly_announced_length() {
    let mut buf: Vec<u8> = Vec::new();
    Frame::Data { len: 4 }.encode(&mut buf);
    let mut recv = FakeRecv::default();
    recv.chunk(buf);
    recv.chunk(b"bo".to_vec());
    recv.chunk(b"dyXtrailing".to_vec());

    let mut stream = FrameStream::new(recv);
    assert!(matches!(stream.poll_next(), Polled::Ready(Ok(Some(Frame::Data { len: 4 })))));

    let mut total: Vec<u8> = Vec::new();
    loop {
        match stream.poll_data() {
            Polled::Ready(Ok(Some(mut b))) => total.append(&mut b),
            Polled::Ready(Ok(None)) => break,
            other => panic!("unexpected payload outcome {:?}", other),
        }
    }
    assert_eq!(total, b"body".to_vec());
}

// An unknown frame type between two known frames is skipped silently.

#[test]
fn unknown_frame_skipped() {
    let mut buf: Vec<u8> = Vec::new();
    headers(b"first").encode(&mut buf);
    // Type 0x21 is unknown at this layer: one-byte type, length 3, 3 bytes.
    buf.extend_from_slice(&[0x21, 0x03, 0xaa, 0xbb, 0xcc]);
    headers(b"second").encode(&mut buf);

    let mut recv = FakeRecv::default();
    recv.chunk(buf);
    let mut stream = FrameStream::new(recv);

    match stream.poll_next() {
        Polled::Ready(Ok(Some(Frame::Headers { payload }))) => {
            assert_eq!(payload, b"first".to_vec())
        },
        other => panic!("expected first frame, got {:?}", other),
    }
    match stream.poll_next() {
        Polled::Ready(Ok(Some(Frame::Headers { payload }))) => {
            assert_eq!(payload, b"second".to_vec())
        },
        other => panic!("expected second frame, got {:?}", other),
    }
    assert!(matches!(stream.poll_next(), Polled::Ready(Ok(None))));
}

// Wire format: exact bytes.

#[test]
fn encode_exact_bytes() {
    assert_eq!(encode(&headers(b"salut")), vec![0x01, 0x05, b's', b'a', b'l', b'u', b't']);
    assert_eq!(encode(&Frame::Data { len: 4 }), vec![0x00, 0x04]);
    // 300 needs a two-byte varint: 0x4000 + 300 == 0x412c.
    assert_eq!(encode(&Frame::Data { len: 300 }), vec![0x00, 0x41, 0x2c]);
    assert_eq!(encode(&Frame::Goaway { id: 9 }), vec![0x07, 0x01, 0x09]);
    assert_eq!(
        encode(&Frame::Settings { entries: vec![(1, 2), (6, 300)] }),
        vec![0x04, 0x05, 0x01, 0x02, 0x06, 0x41, 0x2c]
    );
}

#[test]
fn settings_roundtrip() {
    let frame = Frame::Settings { entries: vec![(1, 2), (3, 70000)] };
    let bytes = encode(&frame);
    let mut buf = buffer_from(&bytes);
    let mut decoder = FrameDecoder::default();
    match decoder.decode(&mut buf) {
        Ok(Some(Frame::Settings { entries })) => assert_eq!(entries, vec![(1, 2), (3, 70000)]),
        other => panic!("expected settings frame, got {:?}", other),
    }
    assert!(!buf.has_remaining());
}

#[test]
fn goaway_roundtrip() {
    let bytes = encode(&Frame::Goaway { id: 77 });
    let mut buf = buffer_from(&bytes);
    let mut decoder = FrameDecoder::default();
    assert!(matches!(decoder.decode(&mut buf), Ok(Some(Frame::Goaway { id: 77 }))));
}

// Error taxonomy.

#[test]
fn malformed_settings_frame() {
    // A settings body of one byte that opens a two-byte varint.
    let mut recv = FakeRecv::default();
    recv.chunk(vec![0x04, 0x01, 0x40]);
    let mut stream = FrameStream::new(recv);
    match stream.poll_next() {
        Polled::Ready(Err(e)) => {
            assert!(matches!(e, Error::Proto(FrameError::Settings)));
            assert_eq!(e.code(), ErrorCode(SETTINGS_ERROR));
        },
        other => panic!("expected settings error, got {:?}", other),
    }
}

#[test]
fn reserved_frame_type_rejected() {
    let mut recv = FakeRecv::default();
    recv.chunk(vec![0x02, 0x00]);
    let mut stream = FrameStream::new(recv);
    match stream.poll_next() {
        Polled::Ready(Err(e)) => {
            assert!(matches!(e, Error::Proto(FrameError::UnsupportedFrame(0x02))));
            assert_eq!(e.code(), ErrorCode(FRAME_UNEXPECTED));
        },
        other => panic!("expected unsupported-frame error, got {:?}", other),
    }
}

#[test]
fn malformed_goaway_frame() {
    // Length says two bytes, but the id varint fills only one.
    let mut recv = FakeRecv::default();
    recv.chunk(vec![0x07, 0x02, 0x01, 0x02]);
    let mut stream = FrameStream::new(recv);
    match stream.poll_next() {
        Polled::Ready(Err(e)) => {
            assert!(matches!(e, Error::Proto(FrameError::Malformed)));
            assert_eq!(e.code(), ErrorCode(FRAME_ERROR));
        },
        other => panic!("expected malformed-frame error, got {:?}", other),
    }
}

#[test]
fn error_code_table() {
    assert_eq!(Error::Transport("boom".to_string()).code(), ErrorCode(GENERAL_PROTOCOL_ERROR));
    assert_eq!(Error::UnexpectedEnd.code(), ErrorCode(GENERAL_PROTOCOL_ERROR));
    assert_eq!(Error::Proto(FrameError::Settings).code(), ErrorCode(SETTINGS_ERROR));
    assert_eq!(Error::Proto(FrameError::UnsupportedFrame(8)).code(), ErrorCode(FRAME_UNEXPECTED));
    assert_eq!(Error::Proto(FrameError::Malformed).code(), ErrorCode(FRAME_ERROR));
    assert_eq!(Error::from(FrameError::Settings).code(), ErrorCode(SETTINGS_ERROR));
}

#[test]
fn reset_signals_transport() {
    let mut recv = FakeRecv::default();
    recv.chunk(vec![0x00]);
    let mut stream = FrameStream::new(recv);
    stream.reset(ErrorCode(0x10c));
    // The fake recv is owned by the stream now; observe via a fresh fake.
    let mut direct = FakeRecv::default();
    direct.stop_sending(0x10c);
    assert_eq!(direct.stopped, Some(0x10c));
}

// ChunkBuffer behaviour.

#[test]
fn chunk_buffer_cursor() {
    let mut b = ChunkBuffer::new();
    b.push(vec![1, 2, 3]);
    b.push(vec![]);
    b.push(vec![4, 5]);
    assert_eq!(b.remaining(), 5);
    assert_eq!(b.byte_at(0), 1);
    assert_eq!(b.byte_at(3), 4);
    assert_eq!(b.peek_contiguous(), &[1, 2, 3]);
    b.advance(2);
    assert_eq!(b.peek_contiguous(), &[3]);
    assert_eq!(b.copy_range(0, 3), vec![3, 4, 5]);
    b.advance(3);
    assert!(!b.has_remaining());
}

// The write path.

struct FakeSend {
    sent: Vec<u8>,
}

impl SendStream for FakeSend {
    fn poll_ready(&mut self) -> Polled<Result<(), String>> {
        Polled::Ready(Ok(()))
    }

    fn send_data(&mut self, data: Vec<u8>) -> Result<(), String> {
        self.sent.extend_from_slice(&data);
        Ok(())
    }

    fn poll_finish(&mut self) -> Polled<Result<(), String>> {
        Polled::Ready(Ok(()))
    }

    fn reset(&mut self, _reset_code: u64) {}

    fn id(&self) -> u64 {
        0
    }
}

#[test]
fn write_sends_encoded_frame() {
    let mut sink = FakeSend { sent: Vec::new() };
    let frame = headers(b"salut");
    assert!(framing::stream::write(&mut sink, &frame).is_ok());
    assert_eq!(sink.sent, encode(&frame));
}
