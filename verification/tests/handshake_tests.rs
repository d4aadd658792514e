use ntorrent::handshake::Handshake;
use ntorrent::torrents::{FileInfo, Torrent};

#[test]
fn serialize_layout() {
    let h = Handshake { info_hash: vec![7; 20], peer_id: vec![9; 20] };
    let wire = h.serialize();
    assert_eq!(wire.len(), 68);
    assert_eq!(wire[0], 19);
    assert_eq!(&wire[1..20], b"BitTorrent protocol");
    assert_eq!(&wire[20..28], &[0; 8]);
    assert_eq!(&wire[28..48], &[7; 20]);
    assert_eq!(&wire[48..68], &[9; 20]);
}

#[test]
fn round_trip() {
    let h = Handshake { info_hash: (0..20).collect(), peer_id: (20..40).collect() };
    let wire = h.serialize();
    let back = Handshake::deserialize(wire).expect("a valid preamble");
    assert_eq!(back.info_hash, (0..20).collect::<Vec<u8>>());
    assert_eq!(back.peer_id, (20..40).collect::<Vec<u8>>());
}

#[test]
fn deserialize_rejects_bad_preambles() {
    let good = Handshake { info_hash: vec![1; 20], peer_id: vec![2; 20] }.serialize();

    let mut wrong_marker = good.clone();
    wrong_marker[0] = 18;
    assert!(Handshake::deserialize(wrong_marker).is_none());

    let mut wrong_protocol = good.clone();
    wrong_protocol[5] = b'x';
    assert!(Handshake::deserialize(wrong_protocol).is_none());

    assert!(Handshake::deserialize(good[..67].to_vec()).is_none());
    assert!(Handshake::deserialize(Vec::new()).is_none());
}

#[test]
fn from_copies_torrent_identity() {
    let t = Torrent {
        name: String::from("n"),
        announce: String::from("http://tracker.invalid/a"),
        piece_length: 4,
        info_hash: vec![3; 20],
        peer_id: vec![4; 20],
        files: vec![FileInfo { length: 4, path: vec![String::from("n")] }],
        length: 4,
    };
    let h = Handshake::from(&t);
    assert_eq!(h.info_hash, vec![3; 20]);
    assert_eq!(h.peer_id, vec![4; 20]);
}
