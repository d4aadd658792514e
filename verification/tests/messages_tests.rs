use ntorrent::messages::Message;

#[test]
fn test_serialize() {}

#[test]
fn serialize_have() {
    let m = Message::Have(0x01010101);
    assert_eq!(m.serialize(), vec![4, 1, 1, 1, 1]);
}

#[test]
fn serialize_request() {
    let m = Message::Request(1, 16384, 10);
    assert_eq!(m.serialize(), vec![6, 0, 0, 0, 1, 0, 0, 0x40, 0, 0, 0, 0, 10]);
}

#[test]
fn round_trip_every_variant() {
    let cases = vec![
        Message::KeepAlive,
        Message::Choke,
        Message::Unchoke,
        Message::Interested,
        Message::NotInterested,
        Message::Bitfield(vec![0x80, 0x01]),
        Message::Request(3, 16384, 16384),
        Message::Have(7),
        Message::Piece(2, 32768, vec![9, 8, 7]),
        Message::Cancel(1, 2, 3),
        Message::Port(6881),
    ];
    for m in cases {
        let wire = m.clone().serialize();
        assert_eq!(Message::deserialize(&wire), Some(m));
    }
}

#[test]
fn empty_frame_is_keepalive() {
    assert_eq!(Message::deserialize(&[]), Some(Message::KeepAlive));
}

#[test]
fn truncated_and_unknown_frames_fail() {
    assert_eq!(Message::deserialize(&[4, 0, 0]), None);
    assert_eq!(Message::deserialize(&[6, 0, 0, 0, 1]), None);
    assert_eq!(Message::deserialize(&[7, 0, 0, 0, 1, 0, 0]), None);
    assert_eq!(Message::deserialize(&[9, 0]), None);
    assert_eq!(Message::deserialize(&[10]), None);
    assert_eq!(Message::deserialize(&[255]), None);
}

#[test]
fn piece_payload_lands_after_header() {
    let wire = vec![7, 0, 0, 0, 5, 0, 0, 0, 9, 0xaa, 0xbb];
    assert_eq!(Message::deserialize(&wire), Some(Message::Piece(5, 9, vec![0xaa, 0xbb])));
}
