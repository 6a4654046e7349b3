//! The framed message codec: one self-describing wire record carrying a
//! message type, a 64-bit sequence number, and an optional payload.
//!
//! The layout is endian-stable (all integers little-endian) and
//! self-describing: a buffer that does not carry a valid encoding — an
//! all-zero datagram in particular — decodes to a frame whose type is
//! `Unknown`, distinguishable from the three valid kinds.

use vstd::bytes::*;
use vstd::prelude::*;
use vstd::slice::*;

verus! {

/// Largest datagram the codec may produce.
pub const MAX_PACKET_SIZE: usize = 1500;

/// Largest payload a single data message may carry, chosen so that the
/// encoded message fits within `MAX_PACKET_SIZE` for every sequence number.
pub const MAX_PAYLOAD_SIZE: usize = 1452;

/// Bytes of framing around a payload: one tag byte, eight sequence-number
/// bytes, and two payload-length bytes.
pub const HEADER_SIZE: usize = 11;

/// The kind of a wire message. `Unknown` is never encoded; it is what
/// decoding hands back for a buffer that carries no valid message.
#[derive(Clone, Copy, Debug, PartialEq, Eq, Structural)]
pub enum MsgType {
    Connect,
    Acknowledge,
    Message,
    Unknown,
}

/// A decoded wire record. `payload` is present exactly for `Message` frames.
pub struct Frame {
    pub msg_type: MsgType,
    pub seq_num: u64,
    pub payload: Option<Vec<u8>>,
}

/// The mathematical image of a `Frame`.
pub ghost struct FrameView {
    pub msg_type: MsgType,
    pub seq_num: u64,
    pub payload: Option<Seq<u8>>,
}

impl View for Frame {
    type V = FrameView;

    open spec fn view(&self) -> FrameView {
        FrameView {
            msg_type: self.msg_type,
            seq_num: self.seq_num,
            payload: match self.payload {
                Option::None => Option::None,
                Option::Some(p) => Option::Some(p@),
            },
        }
    }
}

/// A frame the codec agrees to encode: a control frame without payload, or a
/// data frame whose payload fits the size budget.
pub open spec fn frame_wf(f: FrameView) -> bool {
    match f.msg_type {
        MsgType::Connect => f.payload is None,
        MsgType::Acknowledge => f.payload is None,
        MsgType::Message => f.payload matches Some(p) && p.len() <= MAX_PAYLOAD_SIZE,
        MsgType::Unknown => false,
    }
}

/// The tag byte of each message kind. Zero is deliberately no valid tag, so
/// an all-zero buffer cannot be mistaken for a message.
pub open spec fn spec_tag(t: MsgType) -> u8 {
    match t {
        MsgType::Connect => 1u8,
        MsgType::Acknowledge => 2u8,
        MsgType::Message => 3u8,
        MsgType::Unknown => 0u8,
    }
}

/// What a frame is on the wire: tag, sequence number, and for data frames a
/// length-prefixed payload.
pub open spec fn spec_encode(f: FrameView) -> Seq<u8> {
    let head = seq![spec_tag(f.msg_type)] + spec_u64_to_le_bytes(f.seq_num);
    match f.payload {
        Option::None => head,
        Option::Some(p) => head + spec_u16_to_le_bytes(p.len() as u16) + p,
    }
}

/// The frame decoding yields on a buffer that carries no valid message.
pub open spec fn unknown_frame() -> FrameView {
    FrameView { msg_type: MsgType::Unknown, seq_num: 0u64, payload: Option::None }
}

/// What any byte buffer reads back as. Trailing bytes beyond the declared
/// payload are ignored, so a longer record from a newer peer still decodes.
pub open spec fn spec_decode(b: Seq<u8>) -> FrameView {
    if b.len() < 9 {
        unknown_frame()
    } else {
        let seq_num = spec_u64_from_le_bytes(b.subrange(1, 9));
        if b[0] == spec_tag(MsgType::Connect) {
            FrameView { msg_type: MsgType::Connect, seq_num, payload: Option::None }
        } else if b[0] == spec_tag(MsgType::Acknowledge) {
            FrameView { msg_type: MsgType::Acknowledge, seq_num, payload: Option::None }
        } else if b[0] == spec_tag(MsgType::Message) {
            if b.len() < HEADER_SIZE {
                unknown_frame()
            } else {
                let len = spec_u16_from_le_bytes(b.subrange(9, HEADER_SIZE as int)) as int;
                if len > MAX_PAYLOAD_SIZE || HEADER_SIZE + len > b.len() {
                    unknown_frame()
                } else {
                    FrameView {
                        msg_type: MsgType::Message,
                        seq_num,
                        payload: Option::Some(b.subrange(HEADER_SIZE as int, HEADER_SIZE + len)),
                    }
                }
            }
        } else {
            unknown_frame()
        }
    }
}

/// Encode one frame. The result is the exact wire image of `f` and always
/// fits in a single packet.
pub fn encode(f: &Frame) -> (r: Vec<u8>)
    requires
        frame_wf(f@),
    ensures
        r@ == spec_encode(f@),
        r@.len() <= MAX_PACKET_SIZE,
{
    let tag: u8 = match f.msg_type {
        MsgType::Connect => 1u8,
        MsgType::Acknowledge => 2u8,
        MsgType::Message => 3u8,
        MsgType::Unknown => 0u8,
    };
    let mut out: Vec<u8> = Vec::new();
    out.push(tag);
    let mut seq_bytes = u64_to_le_bytes(f.seq_num);
    out.append(&mut seq_bytes);
    match &f.payload {
        Option::None => {},
        Option::Some(p) => {
            let mut len_bytes = u16_to_le_bytes(p.len() as u16);
            out.append(&mut len_bytes);
            out.extend_from_slice(p.as_slice());
            assert(out@ =~= spec_encode(f@));
        },
    }
    assert(out@ =~= spec_encode(f@));
    out
}

/// Decode one buffer, totally: a buffer that carries no valid message comes
/// back as an `Unknown` frame rather than failing.
pub fn decode(buf: &[u8]) -> (r: Frame)
    ensures
        r@ == spec_decode(buf@),
{
    if buf.len() < 9 {
        return Frame { msg_type: MsgType::Unknown, seq_num: 0, payload: Option::None };
    }
    let tag = *slice_index_get(buf, 0);
    let seq_num = u64_from_le_bytes(slice_subrange(buf, 1, 9));
    if tag == 1 {
        Frame { msg_type: MsgType::Connect, seq_num, payload: Option::None }
    } else if tag == 2 {
        Frame { msg_type: MsgType::Acknowledge, seq_num, payload: Option::None }
    } else if tag == 3 {
        if buf.len() < HEADER_SIZE {
            return Frame { msg_type: MsgType::Unknown, seq_num: 0, payload: Option::None };
        }
        let len = u16_from_le_bytes(slice_subrange(buf, 9, HEADER_SIZE)) as usize;
        if len > MAX_PAYLOAD_SIZE || len > buf.len() - HEADER_SIZE {
            return Frame { msg_type: MsgType::Unknown, seq_num: 0, payload: Option::None };
        }
        let payload = slice_to_vec(slice_subrange(buf, HEADER_SIZE, HEADER_SIZE + len));
        Frame { msg_type: MsgType::Message, seq_num, payload: Option::Some(payload) }
    } else {
        Frame { msg_type: MsgType::Unknown, seq_num: 0, payload: Option::None }
    }
}

/// Every well-formed frame reads back from its own wire image unchanged:
/// encoding then decoding is the identity on well-formed frames.
pub proof fn lemma_encode_decode(f: FrameView)
    requires
        frame_wf(f),
    ensures
        spec_decode(spec_encode(f)) == f,
{
    lemma_auto_spec_u64_to_from_le_bytes();
    lemma_auto_spec_u16_to_from_le_bytes();
    let e = spec_encode(f);
    assert(e.subrange(1, 9) =~= spec_u64_to_le_bytes(f.seq_num));
    match f.payload {
        Option::None => {},
        Option::Some(p) => {
            assert(e.subrange(9, HEADER_SIZE as int) =~= spec_u16_to_le_bytes(p.len() as u16));
            assert(e.subrange(HEADER_SIZE as int, HEADER_SIZE + p.len()) =~= p);
        },
    }
}

/// A buffer of zero bytes — of any length — decodes to an `Unknown` frame.
pub proof fn lemma_zeros_decode_unknown(b: Seq<u8>)
    requires
        forall|i: int| 0 <= i < b.len() ==> b[i] == 0u8,
    ensures
        spec_decode(b).msg_type is Unknown,
{
}

} // verus!
