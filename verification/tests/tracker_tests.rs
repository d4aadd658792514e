use ntorrent::peerlist::{parse_peerlist, PeerAddr};
use serde_bencode::value::Value;

#[test]
fn peerlist_test() {}

#[test]
fn parse_compact_peerlist() {
    let buf: Vec<u8> = vec![127, 0, 0, 1, 0x1b, 0x39, 10, 0, 0, 2, 0x11, 0x5c];
    let peers = parse_peerlist(&buf).expect("a multiple of six bytes");
    assert_eq!(peers.len(), 2);
    assert_eq!(peers[0], PeerAddr { a: 127, b: 0, c: 0, d: 1, port: 6969 });
    assert_eq!(peers[1], PeerAddr { a: 10, b: 0, c: 0, d: 2, port: 4444 });
}

#[test]
fn peerlist_length_must_be_multiple_of_six() {
    assert!(parse_peerlist(&vec![1, 2, 3, 4, 5]).is_none());
    assert!(parse_peerlist(&vec![1, 2, 3, 4, 5, 6, 7]).is_none());
    assert_eq!(parse_peerlist(&Vec::new()).unwrap().len(), 0);
}

#[test]
fn tracker_response_fixture_round_trips() {
    // a well-formed bencoded tracker response: decode, re-encode, decode again
    let fixture: &[u8] = b"d8:intervali1800e5:peers12:\x7f\x00\x00\x01\x1b\x39\x0a\x00\x00\x02\x11\x5ce";
    let v: Value = serde_bencode::from_bytes(fixture).expect("fixture decodes");
    let again = serde_bencode::to_bytes(&v).expect("re-encodes");
    let v2: Value = serde_bencode::from_bytes(&again).expect("round trip decodes");
    assert_eq!(v, v2);

    let dict = match v {
        Value::Dict(d) => d,
        other => panic!("expected a dict, got {:?}", other),
    };
    let interval = match dict.get(b"interval".as_slice()) {
        Some(Value::Int(i)) => *i,
        other => panic!("expected an integer interval, got {:?}", other),
    };
    assert_eq!(interval, 1800);
    let peers = match dict.get(b"peers".as_slice()) {
        Some(Value::Bytes(b)) => b.clone(),
        other => panic!("expected peer bytes, got {:?}", other),
    };
    let parsed = parse_peerlist(&peers).expect("compact list parses");
    assert_eq!(parsed[0], PeerAddr { a: 127, b: 0, c: 0, d: 1, port: 6969 });
    assert_eq!(parsed[1], PeerAddr { a: 10, b: 0, c: 0, d: 2, port: 4444 });
}

#[test]
fn calc_request_boundaries() {
    assert_eq!(ntorrent::utils::calc_request(0, 16384), 16384);
    assert_eq!(ntorrent::utils::calc_request(0, 16394), 16384);
    assert_eq!(ntorrent::utils::calc_request(16384, 16394), 10);
    assert_eq!(ntorrent::utils::calc_request(10, 10), 0);
}

#[test]
fn verified_codec_round_trips() {
    let peers: Vec<u8> = vec![127, 0, 0, 1, 0x1b, 0x39, 10, 0, 0, 2, 0x11, 0x5c];
    let wire = ntorrent::tracker::encode_tracker_response(1800, &peers);
    assert_eq!(
        wire,
        b"d8:intervali1800e5:peers12:\x7f\x00\x00\x01\x1b\x39\x0a\x00\x00\x02\x11\x5ce".to_vec()
    );
    let (interval, back) = ntorrent::tracker::parse_tracker_response(&wire).expect("round trip");
    assert_eq!(interval, 1800);
    assert_eq!(back, peers);

    // empty peer list, zero interval
    let wire = ntorrent::tracker::encode_tracker_response(0, &Vec::new());
    assert_eq!(wire, b"d8:intervali0e5:peers0:e".to_vec());
    let (interval, back) = ntorrent::tracker::parse_tracker_response(&wire).expect("round trip");
    assert_eq!(interval, 0);
    assert_eq!(back, Vec::<u8>::new());
}

#[test]
fn parse_rejects_garbage() {
    assert!(ntorrent::tracker::parse_tracker_response(&Vec::new()).is_none());
    assert!(ntorrent::tracker::parse_tracker_response(&b"hello".to_vec()).is_none());
    assert!(ntorrent::tracker::parse_tracker_response(&b"d8:intervali1800e".to_vec()).is_none());
    assert!(
        ntorrent::tracker::parse_tracker_response(&b"d8:intervali1800e5:peers3:abe".to_vec())
            .is_none()
    );
}
