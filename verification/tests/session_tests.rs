use ntorrent::bitfield::Bitfield;
use ntorrent::messages::Message;
use ntorrent::ops::{Op, OpType};
use ntorrent::partial::Partial;
use ntorrent::queue::Queue;
use ntorrent::session::{accept_bitfield, Action, Session};
use ntorrent::supervisor::handle_op;
use ntorrent::torrents::{split_hash, FileInfo, Torrent};
use sha1::{Digest, Sha1};

fn sha(data: &[u8]) -> [u8; 20] {
    let d = Sha1::digest(data);
    let mut h = [0u8; 20];
    h.copy_from_slice(d.as_slice());
    h
}

fn make(piece_length: u32, payloads: &[Vec<u8>]) -> (Partial, Queue<ntorrent::torrents::Piece>) {
    let mut blob = Vec::new();
    let mut length = 0usize;
    for p in payloads {
        blob.extend_from_slice(&sha(p));
        length += p.len();
    }
    let t = Torrent {
        name: String::from("t"),
        announce: String::from("http://tracker.invalid/announce"),
        piece_length,
        info_hash: vec![0; 20],
        peer_id: vec![1; 20],
        files: vec![FileInfo { length, path: vec![String::from("t")] }],
        length,
    };
    let partial = Partial::from(&t, blob.clone());
    let work = Queue::from(split_hash(blob, piece_length as usize, length));
    (partial, work)
}

#[test]
fn single_piece_from_one_peer() {
    // one 16 KiB piece; the peer advertises it, unchokes, and serves it
    let payload: Vec<u8> = (0..16384).map(|i| (i % 251) as u8).collect();
    let (mut partial, mut work) = make(16384, &[payload.clone()]);

    let mut remote = accept_bitfield(Message::Bitfield(vec![0x80]), 1).expect("bitfield accepted");
    let mut s = Session::new(1);
    assert!(s.get_piece(&remote, &mut work));
    assert_eq!(work.len(), 0);

    let (acts, ok) = s.process_msg(Some(Message::Unchoke), &mut remote, &mut work);
    assert!(ok && acts.is_empty());

    let (reqs, ok) = s.manage_io();
    assert!(ok);
    assert_eq!(reqs, vec![Message::Request(0, 0, 16384)]);

    let (acts, ok) = s.process_piece(0, 0, payload.clone(), &remote, &mut work);
    assert!(ok);
    assert_eq!(acts.len(), 2);
    assert_eq!(acts[1], Action::Send(Message::NotInterested));
    let op = match &acts[0] {
        Action::Forward(op) => op.clone(),
        other => panic!("expected a forwarded piece, got {:?}", other),
    };
    assert_eq!(op.id, 1);

    let out = handle_op(&mut partial, op);
    assert!(out.finished);
    assert!(partial.done);
    assert_eq!(out.broadcasts.len(), 2);
    assert_eq!(out.broadcasts[0].op_type, OpType::OpMessage(Message::Have(0)));
    assert_eq!(out.broadcasts[1].op_type, OpType::OpDownStop);
    assert_eq!(partial.buf, payload);
}

#[test]
fn short_last_piece_requests_its_true_length() {
    // piece_length 16384, total 16394: the last piece is 10 bytes
    let p0: Vec<u8> = vec![3; 16384];
    let p1: Vec<u8> = vec![4; 10];
    let (_partial, mut work) = make(16384, &[p0, p1.clone()]);

    // the remote only has piece 1
    let remote = Bitfield::from(vec![0b0100_0000]);
    let mut s = Session::new(2);
    assert!(s.get_piece(&remote, &mut work));

    let (reqs, ok) = s.manage_io();
    assert!(ok);
    assert_eq!(reqs, vec![Message::Request(1, 0, 10)]);

    // more than 10 bytes for piece 1 is a protocol violation: drop
    let before = work.len();
    let (acts, ok) = s.process_piece(1, 0, vec![0; 16], &remote, &mut work);
    assert!(!ok && acts.is_empty());
    assert_eq!(work.len(), before);
}

#[test]
fn verification_failure_returns_piece_to_queue() {
    let payload: Vec<u8> = vec![7; 16384];
    let (partial, mut work) = make(16384, &[payload]);

    let remote = Bitfield::from(vec![0x80]);
    let mut s = Session::new(3);
    assert!(s.get_piece(&remote, &mut work));
    assert_eq!(work.len(), 0);

    let junk: Vec<u8> = vec![8; 16384];
    let (acts, ok) = s.process_piece(0, 0, junk, &remote, &mut work);
    assert!(!ok);
    assert!(acts.is_empty(), "no OpPiece may reach the supervisor");
    assert_eq!(work.len(), 1, "the piece is back in the queue");
    assert_eq!(partial.received, 0);
}

#[test]
fn duplicate_piece_race_is_silent() {
    let payloads: Vec<Vec<u8>> = (0u8..4).map(|i| vec![i; 4]).collect();
    let (mut partial, _work) = make(4, &payloads);

    let first = handle_op(
        &mut partial,
        Op { id: 1, op_type: OpType::OpPiece(3, payloads[3].clone()) },
    );
    assert_eq!(first.broadcasts.len(), 1);
    assert_eq!(first.broadcasts[0].op_type, OpType::OpMessage(Message::Have(3)));
    let counted = partial.progress.downloaded;

    let second = handle_op(
        &mut partial,
        Op { id: 2, op_type: OpType::OpPiece(3, payloads[3].clone()) },
    );
    assert!(second.broadcasts.is_empty(), "no second Have broadcast");
    assert!(!second.finished);
    assert_eq!(partial.progress.downloaded, counted, "no double counting");
}

#[test]
fn seeder_serves_requests() {
    let p0: Vec<u8> = vec![1, 2, 3, 4];
    let p1: Vec<u8> = vec![5, 6];
    let (mut partial, mut work) = make(4, &[p0.clone(), p1.clone()]);
    let mut data = p0;
    data.extend_from_slice(&p1);
    assert!(partial.seed(data, &mut work));
    assert!(partial.done);

    let out = handle_op(&mut partial, Op { id: 4, op_type: OpType::OpRequest(1, 0, 2) });
    let reply = out.reply.expect("a reply is owed");
    assert_eq!(reply.op_type, OpType::OpMessage(Message::Piece(1, 0, vec![5, 6])));

    // a request for bytes we cannot serve disconnects that peer
    let out = handle_op(&mut partial, Op { id: 4, op_type: OpType::OpRequest(5, 0, 2) });
    assert_eq!(out.reply.unwrap().op_type, OpType::OpDisconnect);
}

#[test]
fn have_makes_idle_session_interested() {
    let payloads: Vec<Vec<u8>> = (0u8..2).map(|i| vec![i; 4]).collect();
    let (_partial, mut work) = make(4, &payloads);

    // the remote starts with nothing
    let mut remote = Bitfield::from(vec![0]);
    let mut s = Session::new(5);
    assert!(!s.get_piece(&remote, &mut work));

    let (acts, ok) = s.process_msg(Some(Message::Have(1)), &mut remote, &mut work);
    assert!(ok);
    assert_eq!(acts, vec![Action::Send(Message::Interested)]);
    assert_eq!(work.len(), 1);
}

#[test]
fn late_bitfield_and_mismatched_length_drop() {
    let payloads: Vec<Vec<u8>> = (0u8..2).map(|i| vec![i; 4]).collect();
    let (_partial, mut work) = make(4, &payloads);

    assert!(accept_bitfield(Message::Bitfield(vec![0, 0]), 1).is_none());
    assert!(accept_bitfield(Message::Unchoke, 1).is_none());
    assert!(accept_bitfield(Message::Bitfield(vec![0x80]), 1).is_some());

    let mut remote = Bitfield::from(vec![0]);
    let mut s = Session::new(6);
    let (acts, ok) = s.process_msg(Some(Message::Bitfield(vec![0x80])), &mut remote, &mut work);
    assert!(!ok && acts.is_empty(), "a bitfield mid-session drops the connection");
}

#[test]
fn choke_gates_the_pump_and_ops_relay() {
    let payloads: Vec<Vec<u8>> = (0u8..2).map(|i| vec![i; 4]).collect();
    let (_partial, mut work) = make(4, &payloads);
    let mut remote = Bitfield::from(vec![0b1100_0000]);
    let mut s = Session::new(7);
    assert!(s.get_piece(&remote, &mut work));
    assert!(s.choked);

    let (acts, ok) = s.process_msg(Some(Message::Choke), &mut remote, &mut work);
    assert!(ok && acts.is_empty() && s.choked);

    // a relayed message from the supervisor counts served piece bytes
    let (acts, ok, served) = s.process_op(Some(Op {
        id: 0,
        op_type: OpType::OpMessage(Message::Piece(0, 0, vec![1, 2, 3])),
    }));
    assert!(ok);
    assert_eq!(served, 3);
    assert_eq!(acts.len(), 1);

    // a stop broadcast ends the loop
    let (_acts, ok, _n) = s.process_op(Some(Op { id: 0, op_type: OpType::OpStop }));
    assert!(!ok && s.stop);

    // an op for another session is refused
    let (_acts, ok, _n) = s.process_op(Some(Op { id: 9, op_type: OpType::OpDisconnect }));
    assert!(!ok);
}

#[test]
fn request_is_forwarded_to_supervisor() {
    let payloads: Vec<Vec<u8>> = (0u8..2).map(|i| vec![i; 4]).collect();
    let (_partial, mut work) = make(4, &payloads);
    let mut remote = Bitfield::from(vec![0]);
    let mut s = Session::new(8);
    let (acts, ok) = s.process_msg(Some(Message::Request(0, 0, 4)), &mut remote, &mut work);
    assert!(ok);
    assert_eq!(
        acts,
        vec![Action::Forward(Op { id: 8, op_type: OpType::OpRequest(0, 0, 4) })]
    );
}

#[test]
fn pump_pipelines_five_blocks() {
    // one large piece: the pump keeps five blocks in flight
    let payload: Vec<u8> = vec![0; 6 * 16384];
    let (_partial, mut work) = make(6 * 16384, &[payload]);
    let remote = Bitfield::from(vec![0x80]);
    let mut s = Session::new(9);
    assert!(s.get_piece(&remote, &mut work));

    let (reqs, _ok) = s.manage_io();
    assert_eq!(reqs.len(), 5);
    for (k, r) in reqs.iter().enumerate() {
        assert_eq!(*r, Message::Request(0, (k as u32) * 16384, 16384));
    }
    // nothing more until blocks come back
    let (reqs, _ok) = s.manage_io();
    assert!(reqs.is_empty());
}
