use vstd::prelude::*;
use crate::bitfield::bit_set;
use crate::messages::{u32_bytes, Message};
use crate::ops::{Op, OpType};
use crate::partial::{zeros, Partial};
use crate::torrents::sha1_of;

verus! {

/// What the supervisor does with one operation from a session: an optional
/// reply to that session, broadcasts to every session, a record to append
/// to the recovery log, and whether the torrent just completed.
pub struct SupervisorOut {
    pub reply: Option<Op>,
    pub broadcasts: Vec<Op>,
    pub append: Option<Vec<u8>>,
    pub finished: bool,
}

/// `o` relays a served block: `Piece(i, off, b)` from the supervisor.
pub open spec fn is_piece_reply(o: Op, i: u32, off: u32, b: Seq<u8>) -> bool {
    o.id == 0 && match o.op_type {
        OpType::OpMessage(m) => match m {
            Message::Piece(j, s, v) => j == i && s == off && v@ == b,
            _ => false,
        },
        _ => false,
    }
}

/// `o` tells the session to drop its connection.
pub open spec fn is_disconnect_reply(o: Op) -> bool {
    o.id == 0 && o.op_type == OpType::OpDisconnect
}

/// `o` broadcasts `Have(i)`.
pub open spec fn is_have_broadcast(o: Op, i: u32) -> bool {
    o.id == 0 && o.op_type == OpType::OpMessage(Message::Have(i))
}

/// `o` broadcasts the downloaders' stop.
pub open spec fn is_downstop_broadcast(o: Op) -> bool {
    o.id == 0 && o.op_type == OpType::OpDownStop
}

/// The supervisor's receive step. A block request is answered from the
/// store — with the bytes when they are present and in range, with a
/// disconnect otherwise. A delivered piece is verified against its
/// descriptor and, when it is new, stored: `Have` goes out to every
/// session, a record is owed to the recovery log, and completion
/// additionally stops the downloaders. A duplicate delivery changes
/// nothing and broadcasts nothing; so does a payload that does not verify,
/// which no session as specified ever forwards.
pub fn handle_op(partial: &mut Partial, op: Op) -> (r: SupervisorOut)
    requires
        old(partial).wf(),
    ensures
        final(partial).wf(),
        final(partial).piece_length == old(partial).piece_length,
        final(partial).length == old(partial).length,
        final(partial).num_pieces == old(partial).num_pieces,
        final(partial).descs@ == old(partial).descs@,
        final(partial).progress.uploaded == old(partial).progress.uploaded,
        match op.op_type {
            OpType::OpRequest(i, o, l) => {
                let can = (i as int) < old(partial).num_pieces && bit_set(
                    old(partial).bf.bf@,
                    i as int,
                ) && i * old(partial).piece_length + o + l <= old(partial).length;
                &&& *final(partial) == *old(partial)
                &&& r.broadcasts@.len() == 0
                &&& r.append.is_none()
                &&& !r.finished
                &&& r.reply.is_some()
                &&& (can ==> is_piece_reply(
                    r.reply.unwrap(),
                    i,
                    o,
                    old(partial).buf@.subrange(
                        i * old(partial).piece_length + o,
                        i * old(partial).piece_length + o + l,
                    ),
                ))
                &&& (!can ==> is_disconnect_reply(r.reply.unwrap()))
            },
            OpType::OpPiece(idx, res) => {
                let fresh = (idx as int) < old(partial).num_pieces && res@.len() == old(
                    partial,
                ).descs@[idx as int].2 && sha1_of(res@) == old(partial).descs@[idx as int].0@
                    && !bit_set(old(partial).bf.bf@, idx as int);
                &&& r.reply.is_none()
                &&& if fresh {
                    &&& bit_set(final(partial).bf.bf@, idx as int)
                    &&& (forall|j: int|
                        0 <= j && j != idx ==> bit_set(final(partial).bf.bf@, j) == bit_set(
                            old(partial).bf.bf@,
                            j,
                        ))
                    &&& final(partial).buf@.subrange(
                        idx * old(partial).piece_length,
                        idx * old(partial).piece_length + res@.len(),
                    ) == res@
                    &&& final(partial).received == old(partial).received + 1
                    &&& final(partial).progress.downloaded == old(partial).progress.downloaded
                        + res@.len()
                    &&& r.finished == final(partial).done
                    &&& r.finished == (old(partial).received + 1 == old(partial).num_pieces)
                    &&& (r.finished ==> r.broadcasts@.len() == 2 && is_downstop_broadcast(
                        r.broadcasts@[1],
                    ))
                    &&& (!r.finished ==> r.broadcasts@.len() == 1)
                    &&& is_have_broadcast(r.broadcasts@[0], idx)
                    &&& r.append.is_some()
                    &&& r.append.unwrap()@ == u32_bytes(idx) + res@ + zeros(
                        old(partial).piece_length - res@.len(),
                    )
                } else {
                    &&& *final(partial) == *old(partial)
                    &&& r.broadcasts@.len() == 0
                    &&& r.append.is_none()
                    &&& !r.finished
                }
            },
            _ => *final(partial) == *old(partial) && r.reply.is_none() && r.broadcasts@.len() == 0
                && r.append.is_none() && !r.finished,
        },
{
    match op.op_type {
        OpType::OpRequest(i, o, l) => {
            match partial.get(i, o, l) {
                Some(b) => SupervisorOut {
                    reply: Some(Op { id: 0, op_type: OpType::OpMessage(Message::Piece(i, o, b)) }),
                    broadcasts: Vec::new(),
                    append: None,
                    finished: false,
                },
                None => SupervisorOut {
                    reply: Some(Op { id: 0, op_type: OpType::OpDisconnect }),
                    broadcasts: Vec::new(),
                    append: None,
                    finished: false,
                },
            }
        },
        OpType::OpPiece(idx, res) => {
            if (idx as usize) < partial.num_pieces {
                let d = partial.descs[idx as usize];
                if d.verify(res.as_slice()) && !partial.has_piece(idx as usize) {
                    let rec = partial.log_record(idx, &res);
                    match partial.update(idx, res) {
                        Some(fin) => {
                            let mut bcs: Vec<Op> = Vec::new();
                            bcs.push(
                                Op { id: 0, op_type: OpType::OpMessage(Message::Have(idx)) },
                            );
                            if fin {
                                bcs.push(Op { id: 0, op_type: OpType::OpDownStop });
                            }
                            SupervisorOut {
                                reply: None,
                                broadcasts: bcs,
                                append: Some(rec),
                                finished: fin,
                            }
                        },
                        None => SupervisorOut {
                            reply: None,
                            broadcasts: Vec::new(),
                            append: None,
                            finished: false,
                        },
                    }
                } else {
                    SupervisorOut {
                        reply: None,
                        broadcasts: Vec::new(),
                        append: None,
                        finished: false,
                    }
                }
            } else {
                SupervisorOut { reply: None, broadcasts: Vec::new(), append: None, finished: false }
            }
        },
        _ => SupervisorOut { reply: None, broadcasts: Vec::new(), append: None, finished: false },
    }
}

} // verus!
