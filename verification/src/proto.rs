//! Frames on the session stream.

use crate::error::{Error, Result};
use crate::payload::{as_slice, contents, from_vec};
use crate::wire::{
    be_bytes, be_value, get_be, law_be_reads_back, law_be_writes_back, lemma_be_bytes_len,
    lemma_be_limits, lemma_be_value_bound, put_be,
};
use bytes::Bytes;
use vstd::prelude::*;

verus! {

pub const KIND_DATA: u8 = 0;

pub const KIND_ACK: u8 = 1;

pub const KIND_HELLO: u8 = 2;

pub const KIND_WELCOME: u8 = 3;

pub const KIND_REJECT: u8 = 4;

pub const KIND_FIN: u8 = 5;

pub const SESSION_ID_LEN: usize = 16;

/// A frame on the session stream. Bulk SSH bytes travel as `Data` frames
/// tagged with their absolute offset in the stream, so that after a reconnect
/// the sender can resume from the offset the receiver reports and the receiver
/// can discard any replayed bytes.
#[derive(Debug)]
pub enum Frame {
    Data { offset: u64, payload: Bytes },
    Ack { offset: u64 },
    Hello { session_id: [u8; SESSION_ID_LEN], applied: u64, resume: bool },
    Welcome { applied: u64 },
    Reject,
    Fin,
}

/// What a [`Frame`] says.
#[verifier::ext_equal]
pub enum Message {
    Data { offset: u64, payload: Seq<u8> },
    Ack { offset: u64 },
    Hello { session_id: Seq<u8>, applied: u64, resume: bool },
    Welcome { applied: u64 },
    Reject,
    Fin,
}

impl View for Frame {
    type V = Message;

    open spec fn view(&self) -> Message {
        match *self {
            Frame::Data { offset, payload } => Message::Data { offset, payload: contents(payload) },
            Frame::Ack { offset } => Message::Ack { offset },
            Frame::Hello { session_id, applied, resume } => Message::Hello {
                session_id: session_id@,
                applied,
                resume,
            },
            Frame::Welcome { applied } => Message::Welcome { applied },
            Frame::Reject => Message::Reject,
            Frame::Fin => Message::Fin,
        }
    }
}

impl Message {
    /// The message fits the fields of a frame.
    pub open spec fn encodable(self) -> bool {
        match self {
            Message::Data { payload, .. } => payload.len() <= u32::MAX,
            Message::Hello { session_id, .. } => session_id.len() == SESSION_ID_LEN,
            _ => true,
        }
    }

    /// The bytes of the frame: its kind, then its fields, numbers in network
    /// byte order.
    pub open spec fn encoded(self) -> Seq<u8> {
        match self {
            Message::Data { offset, payload } => seq![KIND_DATA] + be_bytes(offset as nat, 8)
                + be_bytes(payload.len(), 4) + payload,
            Message::Ack { offset } => seq![KIND_ACK] + be_bytes(offset as nat, 8),
            Message::Hello { session_id, applied, resume } => seq![KIND_HELLO] + session_id
                + be_bytes(applied as nat, 8) + seq![if resume { 1u8 } else { 0u8 }],
            Message::Welcome { applied } => seq![KIND_WELCOME] + be_bytes(applied as nat, 8),
            Message::Reject => seq![KIND_REJECT],
            Message::Fin => seq![KIND_FIN],
        }
    }
}

/// What the start of a stream of frames holds.
#[verifier::ext_equal]
pub enum Decoded {
    /// No whole frame yet. At least this many bytes are still to come, and all
    /// of them belong to the first frame.
    Incomplete { missing: nat },
    /// A frame, in this many bytes.
    Complete { message: Message, consumed: nat },
    /// The first byte is no kind of frame.
    UnknownKind { kind: u8 },
}

pub open spec fn be_at(s: Seq<u8>, at: int, n: int) -> nat {
    be_value(s.subrange(at, at + n))
}

/// A frame of `size` bytes that says `message`, if `buf` holds all of it.
pub open spec fn sized(buf: Seq<u8>, size: nat, message: Message) -> Decoded {
    if buf.len() < size {
        Decoded::Incomplete { missing: (size - buf.len()) as nat }
    } else {
        Decoded::Complete { message, consumed: size }
    }
}

pub open spec fn decoded(buf: Seq<u8>) -> Decoded {
    if buf.len() == 0 {
        Decoded::Incomplete { missing: 1 }
    } else if buf[0] == KIND_DATA {
        if buf.len() < 13 {
            Decoded::Incomplete { missing: (13 - buf.len()) as nat }
        } else {
            let len = be_at(buf, 9, 4);
            sized(
                buf,
                13 + len,
                Message::Data {
                    offset: be_at(buf, 1, 8) as u64,
                    payload: buf.subrange(13, 13 + len as int),
                },
            )
        }
    } else if buf[0] == KIND_ACK {
        sized(buf, 9, Message::Ack { offset: be_at(buf, 1, 8) as u64 })
    } else if buf[0] == KIND_HELLO {
        sized(
            buf,
            26,
            Message::Hello {
                session_id: buf.subrange(1, 17),
                applied: be_at(buf, 17, 8) as u64,
                resume: buf[25] != 0,
            },
        )
    } else if buf[0] == KIND_WELCOME {
        sized(buf, 9, Message::Welcome { applied: be_at(buf, 1, 8) as u64 })
    } else if buf[0] == KIND_REJECT {
        Decoded::Complete { message: Message::Reject, consumed: 1 }
    } else if buf[0] == KIND_FIN {
        Decoded::Complete { message: Message::Fin, consumed: 1 }
    } else {
        Decoded::UnknownKind { kind: buf[0] }
    }
}

/// What [`read_frame`] found.
#[derive(Debug)]
pub enum FrameRead {
    /// No whole frame yet: read up to `missing` more bytes and try again.
    Incomplete { missing: usize },
    /// A frame, in the first `consumed` bytes.
    Complete { frame: Frame, consumed: usize },
    /// The first byte is no kind of frame.
    UnknownKind { kind: u8 },
}

impl View for FrameRead {
    type V = Decoded;

    open spec fn view(&self) -> Decoded {
        match *self {
            FrameRead::Incomplete { missing } => Decoded::Incomplete { missing: missing as nat },
            FrameRead::Complete { frame, consumed } => Decoded::Complete {
                message: frame@,
                consumed: consumed as nat,
            },
            FrameRead::UnknownKind { kind } => Decoded::UnknownKind { kind },
        }
    }
}

fn get_u64(buf: &[u8], at: usize) -> (x: u64)
    requires
        at + 8 <= buf@.len(),
    ensures
        x == be_at(buf@, at as int, 8),
{
    proof {
        lemma_be_limits();
    }
    get_be(buf, at, 8) as u64
}

fn copy_range(buf: &[u8], from: usize, to: usize) -> (out: Vec<u8>)
    requires
        from <= to <= buf@.len(),
    ensures
        out@ == buf@.subrange(from as int, to as int),
{
    let mut out: Vec<u8> = Vec::with_capacity(to - from);
    let mut i: usize = from;
    while i < to
        invariant
            from <= i <= to <= buf@.len(),
            out@ == buf@.subrange(from as int, i as int),
        decreases to - i,
    {
        out.push(buf[i]);
        i = i + 1;
        assert(out@ =~= buf@.subrange(from as int, i as int));
    }
    out
}

fn get_session_id(buf: &[u8], at: usize) -> (id: [u8; SESSION_ID_LEN])
    requires
        at + SESSION_ID_LEN <= buf@.len(),
    ensures
        id@ == buf@.subrange(at as int, at + SESSION_ID_LEN),
{
    let have: usize = buf.len();
    let mut id: [u8; SESSION_ID_LEN] = [0u8; SESSION_ID_LEN];
    let mut i: usize = 0;
    while i < SESSION_ID_LEN
        invariant
            0 <= i <= SESSION_ID_LEN,
            at + SESSION_ID_LEN <= have == buf@.len(),
            id@.len() == SESSION_ID_LEN,
            forall|k: int| 0 <= k < i ==> id@[k] == buf@[at + k],
        decreases SESSION_ID_LEN - i,
    {
        id[i] = buf[at + i];
        i = i + 1;
    }
    assert(id@ =~= buf@.subrange(at as int, at + SESSION_ID_LEN));
    id
}

/// Reads the frame at the start of `buf`, or says how many more bytes to read
/// before there can be one. Reading no more than that never takes a byte of the
/// frame after it.
pub fn read_frame(buf: &[u8]) -> (read: FrameRead)
    ensures
        read@ == decoded(buf@),
{
    let have: usize = buf.len();
    if have == 0 {
        return FrameRead::Incomplete { missing: 1 };
    }
    let kind: u8 = buf[0];
    if kind == KIND_DATA {
        if have < 13 {
            return FrameRead::Incomplete { missing: 13 - have };
        }
        proof {
            lemma_be_limits();
        }
        let len: usize = get_be(buf, 9, 4) as usize;
        if have - 13 < len {
            return FrameRead::Incomplete { missing: len - (have - 13) };
        }
        let payload = from_vec(copy_range(buf, 13, 13 + len));
        FrameRead::Complete {
            frame: Frame::Data { offset: get_u64(buf, 1), payload },
            consumed: 13 + len,
        }
    } else if kind == KIND_ACK {
        if have < 9 {
            return FrameRead::Incomplete { missing: 9 - have };
        }
        FrameRead::Complete { frame: Frame::Ack { offset: get_u64(buf, 1) }, consumed: 9 }
    } else if kind == KIND_HELLO {
        if have < 26 {
            return FrameRead::Incomplete { missing: 26 - have };
        }
        FrameRead::Complete {
            frame: Frame::Hello {
                session_id: get_session_id(buf, 1),
                applied: get_u64(buf, 17),
                resume: buf[25] != 0,
            },
            consumed: 26,
        }
    } else if kind == KIND_WELCOME {
        if have < 9 {
            return FrameRead::Incomplete { missing: 9 - have };
        }
        FrameRead::Complete { frame: Frame::Welcome { applied: get_u64(buf, 1) }, consumed: 9 }
    } else if kind == KIND_REJECT {
        FrameRead::Complete { frame: Frame::Reject, consumed: 1 }
    } else if kind == KIND_FIN {
        FrameRead::Complete { frame: Frame::Fin, consumed: 1 }
    } else {
        FrameRead::UnknownKind { kind }
    }
}

/// The stream may end here: nothing was read of a frame.
pub open spec fn clean_end(partial: Seq<u8>) -> bool {
    partial.len() == 0
}

/// What the end of the stream makes of the bytes read so far of a frame: an end
/// between frames is clean, and nothing more is read; a frame that is cut off is
/// an error.
pub fn at_end(partial: &[u8]) -> (r: Result<Option<Frame>>)
    ensures
        partial@.len() == 0 ==> r == Ok::<Option<Frame>, Error>(None),
        partial@.len() > 0 ==> r == Err::<Option<Frame>, Error>(Error::UnexpectedEof),
        r is Ok <==> clean_end(partial@),
{
    if partial.len() == 0 {
        Ok(None)
    } else {
        Err(Error::UnexpectedEof)
    }
}

/// The bytes of a frame. Fails on a payload whose length takes more than 32 bits.
pub fn write_frame(frame: &Frame) -> (written: Result<Vec<u8>>)
    ensures
        written is Ok <==> frame@.encodable(),
        written is Err ==> written->Err_0 is FrameTooLarge,
        written matches Ok(bytes) ==> bytes@ == frame@.encoded(),
{
    let mut out: Vec<u8> = Vec::new();
    match frame {
        Frame::Data { offset, payload } => {
            let bytes = as_slice(payload);
            if bytes.len() as u64 > u32::MAX as u64 {
                return Err(Error::FrameTooLarge);
            }
            out.push(KIND_DATA);
            put_be(&mut out, *offset, 8);
            put_be(&mut out, bytes.len() as u64, 4);
            out.extend_from_slice(bytes);
        },
        Frame::Ack { offset } => {
            out.push(KIND_ACK);
            put_be(&mut out, *offset, 8);
        },
        Frame::Hello { session_id, applied, resume } => {
            out.push(KIND_HELLO);
            out.extend_from_slice(session_id);
            put_be(&mut out, *applied, 8);
            out.push(if *resume { 1 } else { 0 });
        },
        Frame::Welcome { applied } => {
            out.push(KIND_WELCOME);
            put_be(&mut out, *applied, 8);
        },
        Frame::Reject => {
            out.push(KIND_REJECT);
        },
        Frame::Fin => {
            out.push(KIND_FIN);
        },
    }
    assert(out@ =~= frame@.encoded());
    Ok(out)
}

/// A message is read back from its encoding, and only its own bytes are consumed.
pub proof fn law_frame_reads_back(message: Message, rest: Seq<u8>)
    requires
        message.encodable(),
    ensures
        decoded(message.encoded() + rest) == (Decoded::Complete {
            message,
            consumed: message.encoded().len(),
        }),
{
    let buf = message.encoded() + rest;
    lemma_be_limits();
    match message {
        Message::Data { offset, payload } => {
            lemma_be_bytes_len(offset as nat, 8);
            lemma_be_bytes_len(payload.len(), 4);
            law_be_reads_back(offset as nat, 8);
            law_be_reads_back(payload.len(), 4);
            assert(buf.subrange(1, 9) =~= be_bytes(offset as nat, 8));
            assert(buf.subrange(9, 13) =~= be_bytes(payload.len(), 4));
            assert(buf.subrange(13, 13 + payload.len() as int) =~= payload);
        },
        Message::Ack { offset } => {
            lemma_be_bytes_len(offset as nat, 8);
            law_be_reads_back(offset as nat, 8);
            assert(buf.subrange(1, 9) =~= be_bytes(offset as nat, 8));
        },
        Message::Hello { session_id, applied, resume } => {
            lemma_be_bytes_len(applied as nat, 8);
            law_be_reads_back(applied as nat, 8);
            assert(buf.subrange(1, 17) =~= session_id);
            assert(buf.subrange(17, 25) =~= be_bytes(applied as nat, 8));
        },
        Message::Welcome { applied } => {
            lemma_be_bytes_len(applied as nat, 8);
            law_be_reads_back(applied as nat, 8);
            assert(buf.subrange(1, 9) =~= be_bytes(applied as nat, 8));
        },
        Message::Reject => {},
        Message::Fin => {},
    }
}

/// The start of an encoding is incomplete, and what is reported missing never
/// reaches past the end of the frame.
pub proof fn law_partial_frame_is_incomplete(message: Message, have: int)
    requires
        message.encodable(),
        0 <= have < message.encoded().len(),
    ensures
        decoded(message.encoded().take(have)) matches Decoded::Incomplete { missing } && 0 < missing
            <= message.encoded().len() - have,
{
    let whole = message.encoded();
    let buf = whole.take(have);
    lemma_be_limits();
    match message {
        Message::Data { offset, payload } => {
            lemma_be_bytes_len(offset as nat, 8);
            lemma_be_bytes_len(payload.len(), 4);
            law_be_reads_back(payload.len(), 4);
            if have >= 13 {
                assert(buf.subrange(9, 13) =~= be_bytes(payload.len(), 4));
            }
        },
        Message::Ack { offset } => {
            lemma_be_bytes_len(offset as nat, 8);
        },
        Message::Hello { applied, .. } => {
            lemma_be_bytes_len(applied as nat, 8);
        },
        Message::Welcome { applied } => {
            lemma_be_bytes_len(applied as nat, 8);
        },
        Message::Reject => {},
        Message::Fin => {},
    }
}

/// A frame that was read is written as the bytes that it was read from; of a
/// `Hello`, provided that its last byte is 0 or 1.
pub proof fn law_frame_writes_back(buf: Seq<u8>)
    requires
        decoded(buf) is Complete,
        buf[0] == KIND_HELLO ==> buf[25] <= 1,
    ensures
        decoded(buf)->message.encodable(),
        decoded(buf)->consumed <= buf.len(),
        decoded(buf)->message.encoded() == buf.take(decoded(buf)->consumed as int),
{
    let message = decoded(buf)->message;
    let bytes = buf.take(decoded(buf)->consumed as int);
    lemma_be_limits();
    match message {
        Message::Data { offset, payload } => {
            lemma_be_value_bound(buf.subrange(1, 9));
            lemma_be_value_bound(buf.subrange(9, 13));
            law_be_writes_back(buf.subrange(1, 9));
            law_be_writes_back(buf.subrange(9, 13));
        },
        Message::Ack { offset } => {
            lemma_be_value_bound(buf.subrange(1, 9));
            law_be_writes_back(buf.subrange(1, 9));
        },
        Message::Hello { .. } => {
            lemma_be_value_bound(buf.subrange(17, 25));
            law_be_writes_back(buf.subrange(17, 25));
        },
        Message::Welcome { .. } => {
            lemma_be_value_bound(buf.subrange(1, 9));
            law_be_writes_back(buf.subrange(1, 9));
        },
        Message::Reject => {},
        Message::Fin => {},
    }
    assert(message.encoded() =~= bytes);
}

/// The frames of a stream, up to the first that is incomplete or unknown, and
/// the bytes left after them.
pub open spec fn frames_of(buf: Seq<u8>) -> (Seq<Message>, Seq<u8>)
    decreases buf.len(),
{
    match decoded(buf) {
        Decoded::Complete { message, consumed } => if 0 < consumed <= buf.len() {
            let (rest, left) = frames_of(buf.skip(consumed as int));
            (seq![message] + rest, left)
        } else {
            (Seq::empty(), buf)
        },
        _ => (Seq::empty(), buf),
    }
}

/// The encodings, one after the other.
pub open spec fn stream_of(messages: Seq<Message>) -> Seq<u8>
    decreases messages.len(),
{
    if messages.len() == 0 {
        Seq::empty()
    } else {
        messages[0].encoded() + stream_of(messages.skip(1))
    }
}

/// What is written on a stream, frame after frame, is read from it frame after
/// frame.
pub proof fn law_stream_reads_back(messages: Seq<Message>)
    requires
        forall|i: int| 0 <= i < messages.len() ==> (#[trigger] messages[i]).encodable(),
    ensures
        frames_of(stream_of(messages)) == (messages, Seq::<u8>::empty()),
{
    lemma_stream_reads_back(messages, Seq::empty());
    assert(stream_of(messages) + Seq::<u8>::empty() =~= stream_of(messages));
}

proof fn lemma_stream_reads_back(messages: Seq<Message>, tail: Seq<u8>)
    requires
        forall|i: int| 0 <= i < messages.len() ==> (#[trigger] messages[i]).encodable(),
        !(decoded(tail) is Complete),
    ensures
        frames_of(stream_of(messages) + tail) == (messages, tail),
    decreases messages.len(),
{
    let buf = stream_of(messages) + tail;
    if messages.len() > 0 {
        let rest = messages.skip(1);
        assert forall|i: int| 0 <= i < rest.len() implies (#[trigger] rest[i]).encodable() by {
            assert(rest[i] == messages[i + 1]);
        }
        lemma_stream_reads_back(rest, tail);
        law_frame_reads_back(messages[0], stream_of(rest) + tail);
        let n = messages[0].encoded().len() as int;
        assert(buf =~= messages[0].encoded() + (stream_of(rest) + tail));
        assert(buf.skip(n) =~= stream_of(rest) + tail);
        assert(seq![messages[0]] + rest =~= messages);
    } else {
        assert(buf =~= tail);
        assert(messages =~= Seq::empty());
    }
}

/// A stream that ends inside a frame gives the frames before it and nothing of
/// the one that is cut off: it stays incomplete, and the bytes of it that are
/// left say whether the end is clean, which it is just when there are none.
pub proof fn law_cut_off_frame_is_not_read(messages: Seq<Message>, last: Message, have: int)
    requires
        forall|i: int| 0 <= i < messages.len() ==> (#[trigger] messages[i]).encodable(),
        last.encodable(),
        0 <= have < last.encoded().len(),
    ensures
        ({
            let tail = last.encoded().take(have);
            let (read, left) = frames_of(stream_of(messages) + tail);
            &&& read == messages
            &&& left == tail
            &&& decoded(left) is Incomplete
            &&& clean_end(left) <==> have == 0
        }),
{
    law_partial_frame_is_incomplete(last, have);
    lemma_stream_reads_back(messages, last.encoded().take(have));
}

/// Where the fields of a message stand in its frame.
pub proof fn law_frame_layout(message: Message)
    requires
        message.encodable(),
    ensures
        ({
            let bytes = message.encoded();
            match message {
                Message::Data { offset, payload } => {
                    &&& bytes.len() == 13 + payload.len()
                    &&& bytes[0] == 0
                    &&& be_value(bytes.subrange(1, 9)) == offset
                    &&& be_value(bytes.subrange(9, 13)) == payload.len()
                    &&& bytes.skip(13) == payload
                },
                Message::Ack { offset } => {
                    &&& bytes.len() == 9
                    &&& bytes[0] == 1
                    &&& be_value(bytes.skip(1)) == offset
                },
                Message::Hello { session_id, applied, resume } => {
                    &&& bytes.len() == 26
                    &&& bytes[0] == 2
                    &&& bytes.subrange(1, 17) == session_id
                    &&& be_value(bytes.subrange(17, 25)) == applied
                    &&& bytes[25] == 1 <==> resume
                    &&& bytes[25] == 0 <==> !resume
                },
                Message::Welcome { applied } => {
                    &&& bytes.len() == 9
                    &&& bytes[0] == 3
                    &&& be_value(bytes.skip(1)) == applied
                },
                Message::Reject => bytes == seq![4u8],
                Message::Fin => bytes == seq![5u8],
            }
        }),
{
    let bytes = message.encoded();
    lemma_be_limits();
    match message {
        Message::Data { offset, payload } => {
            lemma_be_bytes_len(offset as nat, 8);
            lemma_be_bytes_len(payload.len(), 4);
            law_be_reads_back(offset as nat, 8);
            law_be_reads_back(payload.len(), 4);
            assert(bytes.subrange(1, 9) =~= be_bytes(offset as nat, 8));
            assert(bytes.subrange(9, 13) =~= be_bytes(payload.len(), 4));
            assert(bytes.skip(13) =~= payload);
        },
        Message::Ack { offset } => {
            lemma_be_bytes_len(offset as nat, 8);
            law_be_reads_back(offset as nat, 8);
            assert(bytes.skip(1) =~= be_bytes(offset as nat, 8));
        },
        Message::Hello { session_id, applied, resume } => {
            lemma_be_bytes_len(applied as nat, 8);
            law_be_reads_back(applied as nat, 8);
            assert(bytes.subrange(1, 17) =~= session_id);
            assert(bytes.subrange(17, 25) =~= be_bytes(applied as nat, 8));
        },
        Message::Welcome { applied } => {
            lemma_be_bytes_len(applied as nat, 8);
            law_be_reads_back(applied as nat, 8);
            assert(bytes.skip(1) =~= be_bytes(applied as nat, 8));
        },
        Message::Reject => {},
        Message::Fin => {},
    }
}

/// What was read of a stream does not depend on what follows it: a frame that is
/// whole stays the same one, and a byte that is no kind of frame stays that. A
/// byte is a kind of frame just when it is at most 5.
pub proof fn law_reading_looks_no_further(buf: Seq<u8>, rest: Seq<u8>)
    requires
        buf.len() > 0,
    ensures
        decoded(buf) is Complete ==> decoded(buf + rest) == decoded(buf),
        decoded(buf) is UnknownKind <==> buf[0] > 5,
        decoded(buf) is UnknownKind ==> decoded(buf) == (Decoded::UnknownKind { kind: buf[0] }),
        decoded(buf + rest) is UnknownKind <==> decoded(buf) is UnknownKind,
{
    let both = buf + rest;
    assert(both[0] == buf[0]);
    if buf.len() >= 9 {
        assert(both.subrange(1, 9) =~= buf.subrange(1, 9));
    }
    if buf.len() >= 13 {
        assert(both.subrange(9, 13) =~= buf.subrange(9, 13));
        let len = be_at(buf, 9, 4) as int;
        if buf.len() >= 13 + len {
            assert(both.subrange(13, 13 + len) =~= buf.subrange(13, 13 + len));
        }
    }
    if buf.len() >= 26 {
        assert(both.subrange(1, 17) =~= buf.subrange(1, 17));
        assert(both.subrange(17, 25) =~= buf.subrange(17, 25));
        assert(both[25] == buf[25]);
    }
}

/// Any hello of 26 bytes is read, whatever its last byte is: every byte but zero
/// asks to resume.
pub proof fn law_hello_is_read(buf: Seq<u8>)
    requires
        buf.len() >= 26,
        buf[0] == 2,
    ensures
        decoded(buf) matches Decoded::Complete { message: Message::Hello {
            session_id,
            applied,
            resume,
        }, consumed } && consumed == 26 && session_id == buf.subrange(1, 17) && applied
            == be_value(buf.subrange(17, 25)) && resume == (buf[25] != 0),
{
    lemma_be_limits();
    lemma_be_value_bound(buf.subrange(17, 25));
}

/// Any payload whose length takes at most 32 bits fits a frame, and no other; a
/// hello fits with an id of 16 bytes, and every other message always does.
pub proof fn law_what_fits_a_frame(message: Message)
    ensures
        message.encodable() <==> match message {
            Message::Data { payload, .. } => payload.len() <= 0xffff_ffff,
            Message::Hello { session_id, .. } => session_id.len() == 16,
            _ => true,
        },
{
}

} // verus!
