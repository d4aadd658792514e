use ntorrent::partial::{split_output, Partial};
use ntorrent::queue::Queue;
use ntorrent::torrents::{split_hash, FileInfo, Torrent};
use sha1::{Digest, Sha1};

fn sha(data: &[u8]) -> [u8; 20] {
    let d = Sha1::digest(data);
    let mut h = [0u8; 20];
    h.copy_from_slice(d.as_slice());
    h
}

fn make(piece_length: u32, payloads: &[Vec<u8>]) -> (Torrent, Vec<u8>, Partial, Queue<ntorrent::torrents::Piece>) {
    let mut blob = Vec::new();
    let mut length = 0usize;
    for p in payloads {
        blob.extend_from_slice(&sha(p));
        length += p.len();
    }
    let t = Torrent {
        name: String::from("t"),
        announce: String::from("http://tracker.invalid/announce"),
        piece_length,
        info_hash: vec![0; 20],
        peer_id: vec![1; 20],
        files: vec![FileInfo { length, path: vec![String::from("t")] }],
        length,
    };
    let partial = Partial::from(&t, blob.clone());
    let work = Queue::from(split_hash(blob.clone(), piece_length as usize, length));
    (t, blob, partial, work)
}

#[test]
fn update_stores_and_reports_done() {
    let p0: Vec<u8> = vec![1, 2, 3, 4];
    let p1: Vec<u8> = vec![5, 6];
    let (_t, _blob, mut partial, _work) = make(4, &[p0.clone(), p1.clone()]);

    assert_eq!(partial.update(0, p0.clone()), Some(false));
    assert_eq!(partial.progress.downloaded, 4);
    assert_eq!(partial.progress.left, 2);
    assert!(!partial.done);

    assert_eq!(partial.update(1, p1.clone()), Some(true));
    assert!(partial.done);
    assert_eq!(partial.progress.left, 0);
    assert_eq!(partial.buf, vec![1, 2, 3, 4, 5, 6]);
}

#[test]
fn duplicate_update_is_ignored() {
    let p0: Vec<u8> = vec![1, 2, 3, 4];
    let p1: Vec<u8> = vec![5, 6, 7, 8];
    let p3: Vec<u8> = vec![9, 9];
    let (_t, _blob, mut partial, _work) = make(4, &[p0, p1.clone(), p3]);

    assert_eq!(partial.update(1, p1.clone()), Some(false));
    let before = partial.progress.downloaded;

    // the second-arriving copy of the same piece: a harmless race
    assert_eq!(partial.update(1, p1), None);
    assert_eq!(partial.progress.downloaded, before);
    assert_eq!(partial.received, 1);
}

#[test]
fn get_serves_only_present_pieces() {
    let p0: Vec<u8> = vec![1, 2, 3, 4];
    let p1: Vec<u8> = vec![5, 6];
    let (_t, _blob, mut partial, _work) = make(4, &[p0.clone(), p1]);

    assert_eq!(partial.get(0, 0, 2), None);
    partial.update(0, p0).unwrap();
    assert_eq!(partial.get(0, 0, 2), Some(vec![1, 2]));
    assert_eq!(partial.get(0, 1, 3), Some(vec![2, 3, 4]));
    assert_eq!(partial.get(1, 0, 1), None);
    assert_eq!(partial.get(0, 0, 1000), None);
}

#[test]
fn log_record_pads_to_piece_length() {
    let p0: Vec<u8> = vec![1, 2, 3, 4];
    let p1: Vec<u8> = vec![5, 6];
    let (_t, _blob, partial, _work) = make(4, &[p0, p1.clone()]);
    let rec = partial.log_record(1, &p1);
    assert_eq!(rec, vec![0, 0, 0, 1, 5, 6, 0, 0]);
}

#[test]
fn recover_replays_valid_log() {
    // seven pieces of four bytes each
    let payloads: Vec<Vec<u8>> = (0u8..7).map(|i| vec![i, i + 1, i + 2, i + 3]).collect();
    let (_t, _blob, mut partial, mut work) = make(4, &payloads);

    let mut log = Vec::new();
    for idx in [0u32, 2, 5] {
        log.extend_from_slice(&idx.to_be_bytes());
        log.extend_from_slice(&payloads[idx as usize]);
    }
    assert!(partial.recover_from_log(&log, &mut work));

    assert!(partial.bf.has(0) && partial.bf.has(2) && partial.bf.has(5));
    assert!(!partial.bf.has(1) && !partial.bf.has(3) && !partial.bf.has(4) && !partial.bf.has(6));
    assert_eq!(partial.received, 3);
    assert_eq!(partial.progress.downloaded, 12);
    assert!(!partial.done);

    let mut left = Vec::new();
    while let Some(p) = work.pop() {
        left.push(p.1);
    }
    assert_eq!(left, vec![1, 3, 4, 6]);
}

#[test]
fn recover_rejects_duplicates_and_bad_hashes() {
    let payloads: Vec<Vec<u8>> = (0u8..3).map(|i| vec![i; 4]).collect();

    // a duplicate index invalidates the whole file
    let (_t, _blob, mut partial, mut work) = make(4, &payloads);
    let mut log = Vec::new();
    for idx in [1u32, 1] {
        log.extend_from_slice(&idx.to_be_bytes());
        log.extend_from_slice(&payloads[idx as usize]);
    }
    assert!(!partial.recover_from_log(&log, &mut work));
    assert_eq!(partial.received, 0);
    assert_eq!(work.len(), 3);

    // so does a record that does not verify
    let (_t2, _blob2, mut partial2, mut work2) = make(4, &payloads);
    let mut bad = Vec::new();
    bad.extend_from_slice(&0u32.to_be_bytes());
    bad.extend_from_slice(&[9, 9, 9, 9]);
    assert!(!partial2.recover_from_log(&bad, &mut work2));
    assert_eq!(partial2.received, 0);

    // and a length that is not a whole number of records
    let (_t3, _blob3, mut partial3, mut work3) = make(4, &payloads);
    assert!(!partial3.recover_from_log(&vec![0; 7], &mut work3));

    // and an index past the last piece
    let (_t4, _blob4, mut partial4, mut work4) = make(4, &payloads);
    let mut oob = Vec::new();
    oob.extend_from_slice(&9u32.to_be_bytes());
    oob.extend_from_slice(&[0, 0, 0, 0]);
    assert!(!partial4.recover_from_log(&oob, &mut work4));
}

#[test]
fn seed_adopts_verified_files() {
    let p0: Vec<u8> = vec![1, 2, 3, 4];
    let p1: Vec<u8> = vec![5, 6];
    let (_t, _blob, mut partial, mut work) = make(4, &[p0.clone(), p1.clone()]);

    let mut data = p0.clone();
    data.extend_from_slice(&p1);
    assert!(partial.seed(data.clone(), &mut work));
    assert!(partial.done);
    assert_eq!(partial.progress.left, 0);
    assert_eq!(work.len(), 0);
    assert!(partial.bf.has(0) && partial.bf.has(1));

    // corrupt content is refused and nothing changes
    let (_t2, _blob2, mut partial2, mut work2) = make(4, &[p0, p1]);
    assert!(!partial2.seed(vec![0; 6], &mut work2));
    assert!(!partial2.done);
    assert_eq!(work2.len(), 2);
}

#[test]
fn output_splits_buffer_by_file_lengths() {
    let buf: Vec<u8> = (0u8..10).collect();
    let files = vec![
        FileInfo { length: 3, path: vec![String::from("a")] },
        FileInfo { length: 0, path: vec![String::from("b")] },
        FileInfo { length: 7, path: vec![String::from("c")] },
    ];
    let outs = split_output(&buf, &files);
    assert_eq!(outs, vec![vec![0, 1, 2], vec![], vec![3, 4, 5, 6, 7, 8, 9]]);
}
