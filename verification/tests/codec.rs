use hyparview::messages::{deserialize, DecodeError, Disconnect, ForwardJoin, HyParViewMessage,
    Join, JoinAck, NeighborRequest, NeighborResponse, Priority, Result, Shuffle, ShuffleReply};
use hyparview::peer::PeerId;

fn peer(a: u8, b: u8, c: u8, d: u8, port: u16) -> PeerId {
    PeerId::new(a, b, c, d, port)
}

fn decode_all(bytes: &Vec<u8>) -> (HyParViewMessage, usize) {
    deserialize(bytes, 0).expect("frame should decode")
}

#[test]
fn test_join_serialization() {
    let arwl = 6u8;
    let prwl = 3u8;
    let ttl = 4u8;

    let sock_addr = peer(127, 0, 0, 1, 9090);
    let fjoin_msg = ForwardJoin::new(&sock_addr, arwl, prwl, ttl);
    let mut writer: Vec<u8> = Vec::new();
    let header_len = 7;
    let written = fjoin_msg.serialize(&mut writer, &sock_addr);
    assert_eq!(written, writer.len());

    let (return_fjoin_msg, end) =
        ForwardJoin::deserialize(&writer, header_len).expect("failed to parse socket addr");
    assert_eq!(end, writer.len());
    assert!(return_fjoin_msg.originator.eq(&sock_addr));
    assert_eq!(return_fjoin_msg.arwl, arwl);
    assert_eq!(return_fjoin_msg.prwl, prwl);
    assert_eq!(return_fjoin_msg.ttl, ttl);
}

#[test]
fn round_trip_join() {
    let s = peer(10, 0, 0, 1, 4000);
    let mut w: Vec<u8> = Vec::new();
    Join::new().serialize(&mut w, &s);
    let (m, end) = decode_all(&w);
    assert_eq!(end, w.len());
    assert_eq!(m, HyParViewMessage::JoinMessage(Join, s));
}

#[test]
fn round_trip_join_ack_and_disconnect() {
    let s = peer(192, 168, 1, 7, 12345);
    let mut w: Vec<u8> = Vec::new();
    JoinAck::new().serialize(&mut w, &s);
    let (m, _) = decode_all(&w);
    assert_eq!(m, HyParViewMessage::JoinAckMessage(JoinAck, s));

    let mut w2: Vec<u8> = Vec::new();
    Disconnect::new().serialize(&mut w2, &s);
    let (m2, _) = decode_all(&w2);
    assert_eq!(m2, HyParViewMessage::DisconnectMessage(Disconnect, s));
}

#[test]
fn round_trip_forward_join_boundaries() {
    let senders = [peer(0, 0, 0, 0, 0), peer(255, 255, 255, 255, 65535)];
    for s in senders.iter() {
        let fj = ForwardJoin::new(&peer(255, 255, 255, 255, 65535), 255, 0, 255);
        let mut w: Vec<u8> = Vec::new();
        fj.serialize(&mut w, s);
        let (m, end) = decode_all(&w);
        assert_eq!(end, w.len());
        assert_eq!(m, HyParViewMessage::ForwardJoinMessage(fj, *s));
    }
}

#[test]
fn round_trip_neighbor_request() {
    let s = peer(1, 2, 3, 4, 5);
    for prio in [Priority::High, Priority::Low] {
        let mut w: Vec<u8> = Vec::new();
        NeighborRequest::new(prio).serialize(&mut w, &s);
        let (m, _) = decode_all(&w);
        assert_eq!(m, HyParViewMessage::NeighborRequestMessage(NeighborRequest::new(prio), s));
    }
}

#[test]
fn round_trip_neighbor_response() {
    let s = peer(9, 8, 7, 6, 54321);
    for res in [Result::Accept, Result::Reject] {
        let mut w: Vec<u8> = Vec::new();
        NeighborResponse::new(res).serialize(&mut w, &s);
        let (m, _) = decode_all(&w);
        assert_eq!(m, HyParViewMessage::NeighborResponseMessage(NeighborResponse::new(res), s));
    }
}

#[test]
fn round_trip_shuffle_empty_nodes() {
    let s = peer(10, 1, 1, 1, 1);
    let sh = Shuffle::new(peer(0, 0, 0, 0, 0), Vec::new(), 0);
    let mut w: Vec<u8> = Vec::new();
    sh.serialize(&mut w, &s);
    let (m, end) = decode_all(&w);
    assert_eq!(end, w.len());
    match m {
        HyParViewMessage::ShuffleMessage(got, sender) => {
            assert_eq!(sender, s);
            assert_eq!(got.originator, peer(0, 0, 0, 0, 0));
            assert!(got.nodes.is_empty());
            assert_eq!(got.ttl, 0);
        }
        other => panic!("wrong message: {:?}", other),
    }
}

#[test]
fn round_trip_shuffle_255_nodes() {
    let s = peer(10, 1, 1, 1, 1);
    let mut nodes = Vec::new();
    for i in 0..255u16 {
        nodes.push(peer((i % 256) as u8, (i / 8) as u8, 3, 4, i));
    }
    let orig_nodes = nodes.clone();
    let sh = Shuffle::new(peer(255, 255, 255, 255, 65535), nodes, 255);
    let mut w: Vec<u8> = Vec::new();
    sh.serialize(&mut w, &s);
    let (m, end) = decode_all(&w);
    assert_eq!(end, w.len());
    match m {
        HyParViewMessage::ShuffleMessage(got, sender) => {
            assert_eq!(sender, s);
            assert_eq!(got.nodes, orig_nodes);
            assert_eq!(got.ttl, 255);
        }
        other => panic!("wrong message: {:?}", other),
    }
}

#[test]
fn round_trip_shuffle_reply() {
    let s = peer(172, 16, 0, 1, 65535);
    let sent = vec![peer(1, 1, 1, 1, 1), peer(2, 2, 2, 2, 2)];
    let nodes = vec![peer(3, 3, 3, 3, 3)];
    let sr = ShuffleReply::new(sent.clone(), nodes.clone());
    let mut w: Vec<u8> = Vec::new();
    sr.serialize(&mut w, &s);
    let (m, end) = decode_all(&w);
    assert_eq!(end, w.len());
    match m {
        HyParViewMessage::ShuffleReplyMessage(got, sender) => {
            assert_eq!(sender, s);
            assert_eq!(got.sent_nodes, sent);
            assert_eq!(got.nodes, nodes);
        }
        other => panic!("wrong message: {:?}", other),
    }
}

#[test]
fn round_trip_shuffle_reply_empty_lists() {
    let s = peer(0, 0, 0, 0, 0);
    let sr = ShuffleReply::new(Vec::new(), Vec::new());
    let mut w: Vec<u8> = Vec::new();
    sr.serialize(&mut w, &s);
    let (m, end) = decode_all(&w);
    assert_eq!(end, w.len());
    match m {
        HyParViewMessage::ShuffleReplyMessage(got, _) => {
            assert!(got.sent_nodes.is_empty());
            assert!(got.nodes.is_empty());
        }
        other => panic!("wrong message: {:?}", other),
    }
}

#[test]
fn decode_short_read() {
    let empty: Vec<u8> = Vec::new();
    assert_eq!(deserialize(&empty, 0), Err(DecodeError::ShortRead));

    // a complete header announcing a FORWARD_JOIN, but no body
    let s = peer(1, 2, 3, 4, 5);
    let mut w: Vec<u8> = Vec::new();
    ForwardJoin::new(&s, 1, 1, 1).serialize(&mut w, &s);
    w.truncate(10);
    assert_eq!(deserialize(&w, 0), Err(DecodeError::ShortRead));
}

#[test]
fn decode_unknown_message_type() {
    // header: sender 1.2.3.4:5, then a type byte out of range
    let w = vec![1, 2, 3, 4, 0, 5, 8];
    assert_eq!(deserialize(&w, 0), Err(DecodeError::UnknownMessageType));
}

#[test]
fn decode_priority_and_result_fallbacks() {
    // priority byte 2 falls back to Low
    let w = vec![1, 2, 3, 4, 0, 5, 4, 2];
    let (m, _) = deserialize(&w, 0).expect("decodes");
    assert_eq!(
        m,
        HyParViewMessage::NeighborRequestMessage(
            NeighborRequest::new(Priority::Low),
            peer(1, 2, 3, 4, 5)
        )
    );
    // result byte 7 falls back to Reject
    let w2 = vec![1, 2, 3, 4, 0, 5, 5, 7];
    let (m2, _) = deserialize(&w2, 0).expect("decodes");
    assert_eq!(
        m2,
        HyParViewMessage::NeighborResponseMessage(
            NeighborResponse::new(Result::Reject),
            peer(1, 2, 3, 4, 5)
        )
    );
}

#[test]
fn exact_frame_bytes() {
    // header: 4 address octets, big-endian port, type byte; then the body
    let sender = peer(1, 2, 3, 4, 0x1234);
    let fj = ForwardJoin::new(&peer(5, 6, 7, 8, 0x0102), 6, 3, 4);
    let mut w: Vec<u8> = Vec::new();
    fj.serialize(&mut w, &sender);
    assert_eq!(w, vec![1, 2, 3, 4, 0x12, 0x34, 1, 5, 6, 7, 8, 0x01, 0x02, 6, 3, 4]);

    let mut w2: Vec<u8> = Vec::new();
    Shuffle::new(peer(9, 9, 9, 9, 9), vec![peer(5, 6, 7, 8, 0x0102)], 7).serialize(&mut w2, &sender);
    assert_eq!(
        w2,
        vec![1, 2, 3, 4, 0x12, 0x34, 6, 9, 9, 9, 9, 0, 9, 1, 5, 6, 7, 8, 0x01, 0x02, 7]
    );
}
