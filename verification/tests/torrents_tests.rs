use ntorrent::torrents::{info_hash_of, split_hash, Piece};
use sha1::{Digest, Sha1};

#[test]
fn t_works() {}

#[test]
fn torrents_test_split() {
    let r = split_hash(vec![1, 2, 3], 4, 4);
    assert_eq!(
        r[0],
        Piece(
            [1, 2, 3, 0, 0, 0, 0, 0, 0, 0, 0, 0, 0, 0, 0, 0, 0, 0, 0, 0],
            0,
            4
        )
    );

    let r = split_hash(vec![0; 39], 4, 8);
    assert_eq!(r.len(), 2);
    assert_eq!(r[1].0.len(), 20);

    let r = split_hash(vec![0; 41], 4, 10);
    assert_eq!(r.len(), 3);
    assert_eq!(r[2].2, 2);
}

#[test]
fn split_indices_and_lengths() {
    let r = split_hash(vec![7; 40], 16384, 16394);
    assert_eq!(r.len(), 2);
    assert_eq!(r[0].1, 0);
    assert_eq!(r[0].2, 16384);
    assert_eq!(r[1].1, 1);
    assert_eq!(r[1].2, 10);
}

#[test]
fn verify_checks_sha1_and_length() {
    let payload = vec![5u8; 64];
    let digest = Sha1::digest(payload.as_slice());
    let mut hash = [0u8; 20];
    hash.copy_from_slice(digest.as_slice());
    let piece = Piece(hash, 0, 64);
    assert!(piece.verify(&payload));

    let mut bad = payload.clone();
    bad[0] = 6;
    assert!(!piece.verify(&bad));
    assert!(!piece.verify(&payload[..63]));
}

#[test]
fn info_hash_matches_hasher() {
    let info = b"d6:lengthi4e4:name1:f12:piece lengthi4e6:pieces20:aaaaaaaaaaaaaaaaaaaae";
    let expected = Sha1::digest(info.as_slice());
    assert_eq!(info_hash_of(info.as_slice()), expected.as_slice().to_vec());
}
