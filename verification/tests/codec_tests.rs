use bbr_transport::bbr_transport::buf2string;
use bbr_transport::codec::{decode, encode, Frame, MsgType, MAX_PACKET_SIZE, MAX_PAYLOAD_SIZE};

use rand::rngs::StdRng;
use rand::{RngExt, SeedableRng};

fn encode_decode(seq_num: u64, rng: &mut StdRng) {
    let mut payload = Vec::with_capacity(MAX_PAYLOAD_SIZE);
    for _ in 0..MAX_PAYLOAD_SIZE {
        payload.push(rng.random::<u8>());
    }

    let msg = Frame { msg_type: MsgType::Message, seq_num, payload: Some(payload.clone()) };
    let msg_buf = encode(&msg);

    assert!(msg_buf.len() <= MAX_PACKET_SIZE);

    let back = decode(&msg_buf);
    let got = back.payload.expect("Error getting payload");

    assert_eq!(MsgType::Message, back.msg_type);
    assert_eq!(seq_num, back.seq_num);
    assert!(got.len() <= MAX_PAYLOAD_SIZE);
    assert_eq!(payload, got);
}

#[test]
fn multiple_encode_decode() {
    let mut rng = StdRng::seed_from_u64(0xAB);

    encode_decode(0, &mut rng);
    encode_decode(0xAA, &mut rng);
    encode_decode(0xAABB, &mut rng);
    encode_decode(0xAABBCC, &mut rng);
    encode_decode(0xAABBCCDD, &mut rng);
    encode_decode(0xAABBCCDD_11, &mut rng);
    encode_decode(0xAABBCCDD_1122, &mut rng);
    encode_decode(0xAABBCCDD_112233, &mut rng);
    encode_decode(0xAABBCCDD_11223344, &mut rng);
}

#[test]
fn codec_round_trip() {
    // A full-size payload at a full-width sequence number survives the codec
    // unchanged, in a single packet.
    let payload = vec![0xBB; MAX_PAYLOAD_SIZE];
    let msg = Frame {
        msg_type: MsgType::Message,
        seq_num: 0xAABBCCDD_11223344,
        payload: Some(payload.clone()),
    };

    let buf = encode(&msg);
    assert!(buf.len() <= MAX_PACKET_SIZE);

    let back = decode(&buf);
    assert_eq!(MsgType::Message, back.msg_type);
    assert_eq!(0xAABBCCDD_11223344u64, back.seq_num);
    let got = back.payload.expect("Error getting payload");
    assert!(got.len() <= MAX_PAYLOAD_SIZE);
    assert_eq!(payload, got);
}

#[test]
fn control_frames_round_trip() {
    for (t, seq) in [(MsgType::Connect, 0u64), (MsgType::Acknowledge, 0xFFFF_FFFF_FFFF_FFFE)] {
        let f = Frame { msg_type: t, seq_num: seq, payload: None };
        let buf = encode(&f);
        assert!(buf.len() <= MAX_PACKET_SIZE);
        let back = decode(&buf);
        assert_eq!(t, back.msg_type);
        assert_eq!(seq, back.seq_num);
        assert_eq!(None, back.payload);
    }
}

#[test]
fn decode_zeros() {
    // A 1500-byte all-zero buffer carries no message: its type is none of
    // the three valid kinds, so the engine can reject it.
    let buf = vec![0u8; 1500];
    let back = decode(&buf);

    assert_ne!(MsgType::Connect, back.msg_type);
    assert_ne!(MsgType::Acknowledge, back.msg_type);
    assert_ne!(MsgType::Message, back.msg_type);
    assert_eq!(MsgType::Unknown, back.msg_type);
}

#[test]
fn decode_truncated_and_oversized() {
    // Too short for a header, or declaring more payload than the buffer
    // holds, reads back as Unknown rather than a mangled message.
    assert_eq!(MsgType::Unknown, decode(&[3u8, 0, 0, 0]).msg_type);

    let good = encode(&Frame { msg_type: MsgType::Message, seq_num: 7, payload: Some(vec![1, 2, 3]) });
    assert_eq!(MsgType::Unknown, decode(&good[..good.len() - 1]).msg_type);

    // trailing bytes beyond the declared payload are ignored
    let mut padded = good.clone();
    padded.push(0xFF);
    let back = decode(&padded);
    assert_eq!(MsgType::Message, back.msg_type);
    assert_eq!(Some(vec![1, 2, 3]), back.payload);
}

#[test]
fn payload_budget_fits_packet() {
    // The largest legal payload encodes within the packet budget for the
    // largest sequence number.
    let msg = Frame {
        msg_type: MsgType::Message,
        seq_num: u64::MAX,
        payload: Some(vec![0xFF; MAX_PAYLOAD_SIZE]),
    };
    assert!(encode(&msg).len() <= MAX_PACKET_SIZE);
}

#[test]
fn buf2string_format() {
    assert_eq!("", buf2string(&[]));
    assert_eq!("AB 01 FF 00 ", buf2string(&[0xAB, 0x01, 0xFF, 0x00]));
}
