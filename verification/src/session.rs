use vstd::prelude::*;
use crate::bitfield::{bit_set, Bitfield};
use crate::consts::{BLOCKSIZE, MAXREQUESTS};
use crate::messages::Message;
use crate::ops::{Op, OpType};
use crate::queue::Queue;
use crate::torrents::{sha1_of, Piece};
use crate::utils::{calc_request, clone_bytes, copy_into, zero_vec};

verus! {

/// What a session step asks of its driver: write a message to the wire,
/// or forward an operation to the supervisor. A step that also returns
/// `false` asks for the connection to be dropped.
#[derive(Debug, Clone, PartialEq)]
pub enum Action {
    Send(Message),
    Forward(Op),
}

/// `a` sends exactly the message `m`.
pub open spec fn is_send(a: Action, m: Message) -> bool {
    match a {
        Action::Send(x) => x == m,
        Action::Forward(_) => false,
    }
}

/// `a` forwards a verified piece `i` with payload `b` under session `id`.
pub open spec fn is_forward_piece(a: Action, id: u64, i: u32, b: Seq<u8>) -> bool {
    match a {
        Action::Forward(op) => op.id == id && match op.op_type {
            OpType::OpPiece(j, v) => j == i && v@ == b,
            _ => false,
        },
        Action::Send(_) => false,
    }
}

/// `a` forwards the remote's block request under session `id`.
pub open spec fn is_forward_request(a: Action, id: u64, i: u32, o: u32, l: u32) -> bool {
    match a {
        Action::Forward(op) => op.id == id && op.op_type == OpType::OpRequest(i, o, l),
        Action::Send(_) => false,
    }
}

/// `buf` with `data` written at offset `s`.
pub open spec fn overwrite(buf: Seq<u8>, s: int, data: Seq<u8>) -> Seq<u8> {
    buf.subrange(0, s) + data + buf.subrange(s + data.len(), buf.len() as int)
}

/// The length of the block requested at `off` of a piece of `len` bytes.
pub open spec fn spec_calc(off: int, len: int) -> int {
    if len - off < BLOCKSIZE {
        len - off
    } else {
        BLOCKSIZE as int
    }
}

/// One peer connection's protocol state. The socket, the channels and the
/// select loop live with the driver; every decision the loop takes is a
/// method here.
pub struct Session {
    pub id: u64,
    pub choked: bool,
    pub disconnect: bool,
    pub stop: bool,
    pub current: Option<Piece>,
    pub buf: Vec<u8>,
    pub requested: u32,
    pub received: u32,
}

/// The control flags a wire step may touch; everything else it must keep.
pub open spec fn same_identity(pre: Session, post: Session) -> bool {
    post.id == pre.id && post.stop == pre.stop
}

/// The outcome of looking for work: either the first queued piece the
/// remote has was extracted and adopted (counters reset, buffer sized for
/// it), or nothing in the queue matches and nothing moved.
pub open spec fn sought_piece(
    w0: Seq<Piece>,
    bfs: Seq<u8>,
    post: Session,
    w1: Seq<Piece>,
    got: bool,
) -> bool {
    if got {
        &&& post.current.is_some()
        &&& (exists|i: int|
            {
                &&& 0 <= i < w0.len()
                &&& post.current == Some(w0[i])
                &&& bit_set(bfs, w0[i].1 as int)
                &&& (forall|j: int| 0 <= j < i ==> !bit_set(bfs, (#[trigger] w0[j]).1 as int))
                &&& w1 == w0.remove(i)
            })
        &&& post.requested == 0
        &&& post.received == 0
        &&& post.buf@.len() == post.current.unwrap().2
    } else {
        &&& post.current.is_none()
        &&& w1 == w0
        &&& (forall|j: int| 0 <= j < w0.len() ==> !bit_set(bfs, (#[trigger] w0[j]).1 as int))
        &&& post.requested == 0
        &&& post.received == 0
    }
}

/// The full effect of one incoming `Piece(i, st, data)` block on the
/// session, its work queue and its outgoing actions:
/// - no owned piece, a wrong index, or a block past the piece's end is a
///   protocol violation: nothing changes and the connection drops;
/// - a block in range lands in the accumulation buffer at its offset;
/// - the block that completes the piece has it hashed: a match forwards
///   the payload to the supervisor and the session seeks its next piece
///   (sending NotInterested, and closing if it is a downloader, when the
///   queue has nothing the remote advertises); a mismatch pushes the
///   piece back into the queue and drops the connection.
pub open spec fn piece_step(
    pre: Session,
    w0: Seq<Piece>,
    bfs: Seq<u8>,
    i: u32,
    st: u32,
    data: Seq<u8>,
    post: Session,
    w1: Seq<Piece>,
    acts: Seq<Action>,
    ok: bool,
) -> bool {
    match pre.current {
        None => post == pre && w1 == w0 && acts.len() == 0 && !ok,
        Some(p) => {
            if i != p.1 || st + data.len() > pre.buf@.len() {
                post == pre && w1 == w0 && acts.len() == 0 && !ok
            } else {
                let nrecv = if pre.received + data.len() > p.2 {
                    p.2 as int
                } else {
                    pre.received + data.len()
                };
                let newbuf = overwrite(pre.buf@, st as int, data);
                &&& same_identity(pre, post)
                &&& post.choked == pre.choked
                &&& post.disconnect == pre.disconnect
                &&& if nrecv < p.2 {
                    &&& post.current == pre.current
                    &&& post.buf@ == newbuf
                    &&& post.received == nrecv
                    &&& post.requested == pre.requested
                    &&& w1 == w0
                    &&& acts.len() == 0
                    &&& ok
                } else {
                    if sha1_of(newbuf) == p.0@ {
                        &&& acts.len() >= 1
                        &&& is_forward_piece(acts[0], pre.id, p.1, newbuf)
                        &&& if acts.len() == 1 {
                            sought_piece(w0, bfs, post, w1, true) && ok
                        } else {
                            &&& acts.len() == 2
                            &&& is_send(acts[1], Message::NotInterested)
                            &&& sought_piece(w0, bfs, post, w1, false)
                            &&& ok == !pre.disconnect
                        }
                    } else {
                        &&& post.current.is_none()
                        &&& post.received == 0
                        &&& post.requested == pre.requested
                        &&& w1 == w0.push(p)
                        &&& acts.len() == 0
                        &&& !ok
                    }
                }
            }
        },
    }
}

impl Session {
    /// Counters and buffer agree with the owned piece, if any.
    pub open spec fn wf(self) -> bool {
        match self.current {
            Some(p) => self.buf@.len() == p.2 && self.requested <= p.2 && self.received <= p.2,
            None => true,
        }
    }

    /// A fresh session: choked by the remote, no piece, nothing counted.
    pub fn new(id: u64) -> (r: Session)
        ensures
            r.wf(),
            r.id == id,
            r.choked == true,
            r.disconnect == false,
            r.stop == false,
            r.current.is_none(),
            r.requested == 0,
            r.received == 0,
    {
        Session {
            id,
            choked: true,
            disconnect: false,
            stop: false,
            current: None,
            buf: Vec::new(),
            requested: 0,
            received: 0,
        }
    }

    /// If no piece is owned, takes the first queued piece the remote
    /// advertises and sizes the accumulation buffer for it. True exactly
    /// when a piece is owned afterwards.
    pub fn get_piece(&mut self, bf: &Bitfield, work: &mut Queue<Piece>) -> (r: bool)
        requires
            old(self).wf(),
        ensures
            final(self).wf(),
            same_identity(*old(self), *final(self)),
            final(self).choked == old(self).choked,
            final(self).disconnect == old(self).disconnect,
            r == final(self).current.is_some(),
            old(self).current.is_some() ==> *final(self) == *old(self) && final(work)@ == old(
                work,
            )@,
            old(self).current.is_none() ==> sought_piece(
                old(work)@,
                bf.bf@,
                *final(self),
                final(work)@,
                r,
            ),
    {
        if self.current.is_none() {
            let found = work.find_first(bf);
            self.current = found;
            self.requested = 0;
            self.received = 0;
            match self.current {
                Some(p) => {
                    self.buf = zero_vec(p.2 as usize);
                    true
                },
                None => false,
            }
        } else {
            true
        }
    }

    /// The request pump: while unchoked headroom remains — fewer bytes
    /// outstanding than the pipelining window allows and the piece not yet
    /// fully requested — emit the next block request and advance. Returns
    /// the requests to send, and false when no piece is owned.
    pub fn manage_io(&mut self) -> (r: (Vec<Message>, bool))
        requires
            old(self).wf(),
        ensures
            final(self).wf(),
            same_identity(*old(self), *final(self)),
            final(self).choked == old(self).choked,
            final(self).disconnect == old(self).disconnect,
            final(self).current == old(self).current,
            final(self).received == old(self).received,
            final(self).buf@ == old(self).buf@,
            r.1 == old(self).current.is_some(),
            old(self).current.is_none() ==> r.0@.len() == 0 && final(self).requested == old(
                self,
            ).requested,
            old(self).current.is_some() ==> ({
                let p = old(self).current.unwrap();
                let bound = if (p.2 as int) < old(self).received + MAXREQUESTS * BLOCKSIZE {
                    p.2 as int
                } else {
                    old(self).received + MAXREQUESTS * BLOCKSIZE
                };
                &&& (forall|k: int|
                    0 <= k < r.0@.len() ==> {
                        &&& #[trigger] r.0@[k] == Message::Request(
                            p.1,
                            (old(self).requested + k * BLOCKSIZE) as u32,
                            spec_calc(old(self).requested + k * BLOCKSIZE, p.2 as int) as u32,
                        )
                        &&& old(self).requested + k * BLOCKSIZE < bound
                    })
                &&& (r.0@.len() == 0 ==> final(self).requested == old(self).requested && old(
                    self,
                ).requested >= bound)
                &&& (r.0@.len() > 0 ==> final(self).requested == old(self).requested + (r.0@.len()
                    - 1) * BLOCKSIZE + spec_calc(
                    old(self).requested + (r.0@.len() - 1) * BLOCKSIZE,
                    p.2 as int,
                ))
                &&& final(self).requested >= bound
            }),
    {
        let p = match self.current {
            Some(p) => p,
            None => {
                return (Vec::new(), false);
            },
        };
        let mut msgs: Vec<Message> = Vec::new();
        let bound64: u64 = if (p.2 as u64) < self.received as u64 + (MAXREQUESTS as u64)
            * (BLOCKSIZE as u64) {
            p.2 as u64
        } else {
            self.received as u64 + (MAXREQUESTS as u64) * (BLOCKSIZE as u64)
        };
        let ghost req0 = old(self).requested as int;
        while (self.requested as u64) < bound64
            invariant
                self.wf(),
                self.current == old(self).current,
                self.current == Some(p),
                self.buf@ == old(self).buf@,
                self.received == old(self).received,
                self.id == old(self).id,
                self.stop == old(self).stop,
                self.choked == old(self).choked,
                self.disconnect == old(self).disconnect,
                req0 == old(self).requested,
                bound64 == if (p.2 as int) < old(self).received + MAXREQUESTS * BLOCKSIZE {
                    p.2 as int
                } else {
                    old(self).received + MAXREQUESTS * BLOCKSIZE
                },
                forall|k: int|
                    0 <= k < msgs@.len() ==> {
                        &&& #[trigger] msgs@[k] == Message::Request(
                            p.1,
                            (req0 + k * BLOCKSIZE) as u32,
                            spec_calc(req0 + k * BLOCKSIZE, p.2 as int) as u32,
                        )
                        &&& req0 + k * BLOCKSIZE < bound64
                    },
                msgs@.len() == 0 ==> self.requested == req0,
                msgs@.len() > 0 ==> self.requested == req0 + (msgs@.len() - 1) * BLOCKSIZE
                    + spec_calc(req0 + (msgs@.len() - 1) * BLOCKSIZE, p.2 as int),
                msgs@.len() > 0 ==> (self.requested == req0 + msgs@.len() * BLOCKSIZE
                    || self.requested == p.2),
            decreases p.2 - self.requested,
        {
            let ghost k = msgs@.len() as int;
            proof {
                if k > 0 {
                    assert(self.requested == req0 + k * BLOCKSIZE || self.requested == p.2);
                    assert((k - 1) * BLOCKSIZE + BLOCKSIZE == k * BLOCKSIZE) by (nonlinear_arith);
                }
            }
            let len = calc_request(self.requested, p.2);
            msgs.push(Message::Request(p.1, self.requested, len));
            self.requested = self.requested + len;
            proof {
                assert(k * BLOCKSIZE + BLOCKSIZE == (k + 1) * BLOCKSIZE) by (nonlinear_arith);
            }
        }
        (msgs, true)
    }

    /// One incoming block: exactly the transition `piece_step` describes.
    pub fn process_piece(
        &mut self,
        i: u32,
        st: u32,
        payload: Vec<u8>,
        bf: &Bitfield,
        work: &mut Queue<Piece>,
    ) -> (r: (Vec<Action>, bool))
        requires
            old(self).wf(),
        ensures
            final(self).wf(),
            piece_step(
                *old(self),
                old(work)@,
                bf.bf@,
                i,
                st,
                payload@,
                *final(self),
                final(work)@,
                r.0@,
                r.1,
            ),
    {
        let p = match self.current {
            Some(p) => p,
            None => {
                return (Vec::new(), false);
            },
        };
        if i != p.1 {
            return (Vec::new(), false);
        }
        if payload.len() as u64 > self.buf.len() as u64 || st as u64 > self.buf.len() as u64
            - payload.len() as u64 {
            return (Vec::new(), false);
        }
        copy_into(&mut self.buf, st as usize, payload.as_slice());
        proof {
            assert(self.buf@ =~= overwrite(old(self).buf@, st as int, payload@));
        }
        let nrecv64 = self.received as u64 + payload.len() as u64;
        if nrecv64 > p.2 as u64 {
            self.received = p.2;
        } else {
            self.received = self.received + payload.len() as u32;
        }
        if self.received >= p.2 {
            self.received = 0;
            self.current = None;
            if p.verify(self.buf.as_slice()) {
                let mut acts: Vec<Action> = Vec::new();
                acts.push(
                    Action::Forward(
                        Op { id: self.id, op_type: OpType::OpPiece(i, clone_bytes(&self.buf)) },
                    ),
                );
                let got = self.get_piece(bf, work);
                if !got {
                    acts.push(Action::Send(Message::NotInterested));
                    if self.disconnect {
                        return (acts, false);
                    }
                    return (acts, true);
                }
                (acts, true)
            } else {
                work.push(p);
                (Vec::new(), false)
            }
        } else {
            (Vec::new(), true)
        }
    }

    /// One wire message, dispatched per the protocol table. False asks
    /// the driver to drop the connection.
    pub fn process_msg(
        &mut self,
        msg: Option<Message>,
        bf: &mut Bitfield,
        work: &mut Queue<Piece>,
    ) -> (r: (Vec<Action>, bool))
        requires
            old(self).wf(),
        ensures
            final(self).wf(),
            match msg {
                None => *final(self) == *old(self) && *final(bf) == *old(bf) && final(work)@ == old(
                    work,
                )@ && r.0@.len() == 0 && !r.1,
                Some(m) => match m {
                    Message::Piece(i, st, d) => *final(bf) == *old(bf) && piece_step(
                        *old(self),
                        old(work)@,
                        old(bf).bf@,
                        i,
                        st,
                        d@,
                        *final(self),
                        final(work)@,
                        r.0@,
                        r.1,
                    ),
                    Message::Unchoke => *final(bf) == *old(bf) && final(work)@ == old(work)@
                        && only_choke_flags(*old(self), *final(self)) && final(self).choked
                        == false && final(self).disconnect == old(self).disconnect && r.0@.len()
                        == 0 && r.1,
                    Message::Choke => *final(bf) == *old(bf) && final(work)@ == old(work)@
                        && only_choke_flags(*old(self), *final(self)) && final(self).choked == true
                        && final(self).disconnect == old(self).disconnect && r.0@.len() == 0
                        && r.1,
                    Message::Have(i) => {
                        &&& final(bf).bf@.len() == old(bf).bf@.len()
                        &&& ((i as int) < old(bf).bf@.len() * 8 ==> bit_set(
                            final(bf).bf@,
                            i as int,
                        ))
                        &&& (forall|j: int|
                            0 <= j && j != i ==> bit_set(final(bf).bf@, j) == bit_set(
                                old(bf).bf@,
                                j,
                            ))
                        &&& ((i as int) >= old(bf).bf@.len() * 8 ==> final(bf).bf@ == old(bf).bf@)
                        &&& r.1
                        &&& if old(self).current.is_some() {
                            *final(self) == *old(self) && final(work)@ == old(work)@ && r.0@.len()
                                == 0
                        } else {
                            &&& same_identity(*old(self), *final(self))
                            &&& final(self).choked == old(self).choked
                            &&& final(self).disconnect == old(self).disconnect
                            &&& sought_piece(
                                old(work)@,
                                final(bf).bf@,
                                *final(self),
                                final(work)@,
                                final(self).current.is_some(),
                            )
                            &&& if final(self).current.is_some() {
                                r.0@.len() == 1 && is_send(r.0@[0], Message::Interested)
                            } else {
                                r.0@.len() == 0
                            }
                        }
                    },
                    Message::Interested => *final(bf) == *old(bf) && final(work)@ == old(work)@
                        && only_choke_flags(*old(self), *final(self)) && final(self).choked == old(
                        self,
                    ).choked && final(self).disconnect == false && r.0@.len() == 1 && is_send(
                        r.0@[0],
                        Message::Unchoke,
                    ) && r.1,
                    Message::NotInterested => {
                        &&& *final(bf) == *old(bf)
                        &&& final(work)@ == old(work)@
                        &&& r.0@.len() == 0
                        &&& r.1
                        &&& if old(self).current.is_some() {
                            *final(self) == *old(self)
                        } else {
                            only_choke_flags(*old(self), *final(self)) && final(self).choked
                                == old(self).choked && final(self).disconnect == true
                        }
                    },
                    Message::Request(i, o, l) => *final(self) == *old(self) && *final(bf) == *old(
                        bf,
                    ) && final(work)@ == old(work)@ && r.0@.len() == 1 && is_forward_request(
                        r.0@[0],
                        old(self).id,
                        i,
                        o,
                        l,
                    ) && r.1,
                    Message::Bitfield(_) => *final(self) == *old(self) && *final(bf) == *old(bf)
                        && final(work)@ == old(work)@ && r.0@.len() == 0 && !r.1,
                    _ => *final(self) == *old(self) && *final(bf) == *old(bf) && final(work)@
                        == old(work)@ && r.0@.len() == 0 && r.1,
                },
            },
    {
        let m = match msg {
            Some(m) => m,
            None => {
                return (Vec::new(), false);
            },
        };
        match m {
            Message::Piece(i, st, d) => self.process_piece(i, st, d, bf, work),
            Message::Unchoke => {
                self.choked = false;
                (Vec::new(), true)
            },
            Message::Choke => {
                self.choked = true;
                (Vec::new(), true)
            },
            Message::Have(i) => {
                bf.add(i as usize);
                if self.current.is_none() {
                    let got = self.get_piece(bf, work);
                    if got {
                        let mut acts: Vec<Action> = Vec::new();
                        acts.push(Action::Send(Message::Interested));
                        return (acts, true);
                    }
                }
                (Vec::new(), true)
            },
            Message::Interested => {
                self.disconnect = false;
                let mut acts: Vec<Action> = Vec::new();
                acts.push(Action::Send(Message::Unchoke));
                (acts, true)
            },
            Message::NotInterested => {
                if self.current.is_none() {
                    self.disconnect = true;
                }
                (Vec::new(), true)
            },
            Message::Request(i, o, l) => {
                let mut acts: Vec<Action> = Vec::new();
                acts.push(
                    Action::Forward(Op { id: self.id, op_type: OpType::OpRequest(i, o, l) }),
                );
                (acts, true)
            },
            Message::Bitfield(_) => (Vec::new(), false),
            _ => (Vec::new(), true),
        }
    }

    /// One operation from the supervisor's channels: relay a message
    /// (counting served piece bytes), or stop. False asks the driver to
    /// leave the loop.
    pub fn process_op(&mut self, op: Option<Op>) -> (r: (Vec<Action>, bool, usize))
        requires
            old(self).wf(),
        ensures
            final(self).wf(),
            match op {
                None => *final(self) == *old(self) && r.0@.len() == 0 && !r.1 && r.2 == 0,
                Some(o) => {
                    if o.id != 0 {
                        *final(self) == *old(self) && r.0@.len() == 0 && !r.1 && r.2 == 0
                    } else {
                        match o.op_type {
                            OpType::OpMessage(m) => *final(self) == *old(self) && r.0@.len() == 1
                                && is_send(r.0@[0], m) && r.1 && r.2 == (match m {
                                Message::Piece(_, _, v) => v@.len(),
                                _ => 0,
                            }),
                            OpType::OpStop => final(self).stop == true && same_but_stop(
                                *old(self),
                                *final(self),
                            ) && r.0@.len() == 0 && !r.1 && r.2 == 0,
                            _ => *final(self) == *old(self) && r.0@.len() == 0 && !r.1 && r.2
                                == 0,
                        }
                    }
                },
            },
    {
        let o = match op {
            Some(o) => o,
            None => {
                return (Vec::new(), false, 0);
            },
        };
        if o.id != 0 {
            return (Vec::new(), false, 0);
        }
        match o.op_type {
            OpType::OpMessage(m) => {
                let n: usize = match &m {
                    Message::Piece(_, _, v) => v.len(),
                    _ => 0,
                };
                let mut acts: Vec<Action> = Vec::new();
                acts.push(Action::Send(m));
                (acts, true, n)
            },
            OpType::OpStop => {
                self.stop = true;
                (Vec::new(), false, 0)
            },
            _ => (Vec::new(), false, 0),
        }
    }
}

/// The first message after the handshakes must be the remote's bitfield,
/// and its byte length must equal the local one: anything else drops the
/// connection before the session starts.
pub fn accept_bitfield(msg: Message, expected_len: usize) -> (r: Option<Bitfield>)
    ensures
        match r {
            Some(b) => (msg matches Message::Bitfield(v) && v@ == b.bf@) && b.bf@.len()
                == expected_len,
            None => !(msg matches Message::Bitfield(v) && v@.len() == expected_len),
        },
{
    match msg {
        Message::Bitfield(v) => {
            if v.len() == expected_len {
                Some(Bitfield::from(v))
            } else {
                None
            }
        },
        _ => None,
    }
}

/// Everything except the choke and interest flags is untouched.
pub open spec fn only_choke_flags(pre: Session, post: Session) -> bool {
    &&& post.id == pre.id
    &&& post.stop == pre.stop
    &&& post.current == pre.current
    &&& post.buf@ == pre.buf@
    &&& post.requested == pre.requested
    &&& post.received == pre.received
}

/// Everything except the stop flag is untouched.
pub open spec fn same_but_stop(pre: Session, post: Session) -> bool {
    &&& post.id == pre.id
    &&& post.choked == pre.choked
    &&& post.disconnect == pre.disconnect
    &&& post.current == pre.current
    &&& post.buf@ == pre.buf@
    &&& post.requested == pre.requested
    &&& post.received == pre.received
}

} // verus!
