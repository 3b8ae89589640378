use fragnet::codec::{decode_addr, decode_image, decode_msg, encode_addr, encode_image, encode_msg};
use fragnet::envelope::{Addr, Fragment, Image, Msg, MsgId, Type};

fn addr(ip: u32, port: u16) -> Addr {
    Addr { ip, port }
}

fn id(ip: u32, port: u16, counter: u32) -> MsgId {
    MsgId { addr: addr(ip, port), counter }
}

fn env(t: Type, payload: Option<MsgId>) -> Msg {
    Msg { sender: addr(0x7f000001, 9000), receiver: addr(0x0a000002, 8081), msg_type: t, payload }
}

#[test]
fn codec_client_request_round_trip() {
    let m = env(Type::ClientRequest(7), None);
    let bytes = encode_msg(&m);
    assert_eq!(decode_msg(&bytes), Some(m));
}

#[test]
fn codec_election_request_round_trip() {
    let m = env(Type::ElectionRequest(23), Some(id(1, 2, 3)));
    let bytes = encode_msg(&m);
    assert_eq!(decode_msg(&bytes), Some(m));
}

#[test]
fn codec_ok_msg_round_trip() {
    let m = env(Type::OKMsg(29), Some(id(0xffffffff, 0xffff, 0xffffffff)));
    let bytes = encode_msg(&m);
    assert_eq!(decode_msg(&bytes), Some(m));
}

#[test]
fn codec_coordinator_round_trip() {
    let m = env(Type::CoordinatorBrdCast(addr(0xc0a80101, 8081)), Some(id(9, 8, 7)));
    let bytes = encode_msg(&m);
    assert_eq!(decode_msg(&bytes), Some(m));
}

#[test]
fn codec_ack_round_trip() {
    let m = env(Type::Ack(id(5, 6, 7), 3), None);
    let bytes = encode_msg(&m);
    assert_eq!(decode_msg(&bytes), Some(m));
}

#[test]
fn codec_fragment_round_trip() {
    let frag = Fragment {
        msg_id: id(11, 12, 13),
        block_id: 1,
        frag_id: 9,
        msg_len: 75000,
        data: vec![0xde, 0xad, 0xbe, 0xef, 0x00, 0x01],
    };
    let m = env(Type::Fragment(frag), None);
    let bytes = encode_msg(&m);
    assert_eq!(decode_msg(&bytes), Some(m));
}

#[test]
fn codec_fragment_empty_data_round_trip() {
    let frag = Fragment { msg_id: id(1, 1, 1), block_id: 0, frag_id: 0, msg_len: 0, data: vec![] };
    let m = env(Type::Fragment(frag), None);
    let bytes = encode_msg(&m);
    assert_eq!(decode_msg(&bytes), Some(m));
}

#[test]
fn codec_fail_round_trip() {
    let m = env(Type::Fail(60), None);
    let bytes = encode_msg(&m);
    assert_eq!(decode_msg(&bytes), Some(m));
}

#[test]
fn codec_rejects_short_datagram() {
    assert_eq!(decode_msg(&vec![0u8; 12]), None);
    assert_eq!(decode_msg(&vec![]), None);
}

#[test]
fn codec_rejects_bad_tag() {
    let m = env(Type::Fail(60), None);
    let mut bytes = encode_msg(&m);
    let last_tag = bytes.len() - 5;
    bytes[last_tag] = 42;
    assert_eq!(decode_msg(&bytes), None);
}

#[test]
fn codec_rejects_trailing_bytes() {
    let m = env(Type::ClientRequest(1), None);
    let mut bytes = encode_msg(&m);
    bytes.push(0);
    assert_eq!(decode_msg(&bytes), None);
}

#[test]
fn codec_rejects_wrong_fragment_length() {
    let frag = Fragment {
        msg_id: id(1, 2, 3),
        block_id: 0,
        frag_id: 0,
        msg_len: 4,
        data: vec![1, 2, 3, 4],
    };
    let m = env(Type::Fragment(frag), None);
    let mut bytes = encode_msg(&m);
    bytes.pop();
    assert_eq!(decode_msg(&bytes), None);
}

#[test]
fn codec_exact_bytes_of_known_envelope() {
    let m = Msg {
        sender: addr(0x01020304, 0x0506),
        receiver: addr(0x0708090a, 0x0b0c),
        msg_type: Type::ClientRequest(0x0d0e0f10),
        payload: None,
    };
    let bytes = encode_msg(&m);
    assert_eq!(
        bytes,
        vec![1, 2, 3, 4, 5, 6, 7, 8, 9, 10, 11, 12, 0, 0, 0x0d, 0x0e, 0x0f, 0x10]
    );
}

#[test]
fn image_frame_round_trip() {
    let img = Image { width: 2, height: 2, data: vec![9, 8, 7, 6, 5, 4, 3, 2, 1, 0, 11, 12, 13, 14, 15, 16] };
    let bytes = encode_image(&img);
    assert_eq!(decode_image(&bytes), Some(img));
}

#[test]
fn image_frame_rejects_truncation() {
    let img = Image { width: 1, height: 1, data: vec![1, 2, 3, 4] };
    let mut bytes = encode_image(&img);
    bytes.pop();
    assert_eq!(decode_image(&bytes), None);
}

#[test]
fn addr_reply_round_trip() {
    let a = addr(0xc0a80064, 8082);
    let bytes = encode_addr(a);
    assert_eq!(bytes.len(), 6);
    assert_eq!(decode_addr(&bytes), Some(a));
    assert_eq!(decode_addr(&vec![1, 2, 3]), None);
}
