use vstd::prelude::*;
use crate::bitfield::bit_set;
use crate::partial::remaining;
use crate::torrents::Piece;

verus! {

/// Piece `i` sits in the work queue.
pub open spec fn queued(q: Seq<Piece>, i: int) -> bool {
    exists|k: int| 0 <= k < q.len() && (#[trigger] q[k]).1 == i
}

/// Piece `i` is owned by some session's slot.
pub open spec fn inflight(cs: Seq<Option<Piece>>, i: int) -> bool {
    exists|k: int|
        0 <= k < cs.len() && (#[trigger] cs[k]).is_some() && cs[k].unwrap().1 == i
}

/// The queue never lists one index twice.
pub open spec fn queue_distinct(q: Seq<Piece>) -> bool {
    forall|k1: int, k2: int|
        0 <= k1 < k2 < q.len() ==> (#[trigger] q[k1]).1 != (#[trigger] q[k2]).1
}

/// No two sessions own the same index.
pub open spec fn slots_distinct(cs: Seq<Option<Piece>>) -> bool {
    forall|k1: int, k2: int|
        0 <= k1 < k2 < cs.len() && (#[trigger] cs[k1]).is_some() && (#[trigger] cs[k2]).is_some()
            ==> cs[k1].unwrap().1 != cs[k2].unwrap().1
}

/// The piece lattice's heart: at every instant each index below `num` is
/// in exactly one of the three states — Missing (in the work queue),
/// InFlight (owned by exactly one session), or Verified (its bit set in
/// the store) — and the queue and the slots never repeat an index.
pub open spec fn engine_inv(q: Seq<Piece>, cs: Seq<Option<Piece>>, bfs: Seq<u8>, num: int) -> bool {
    &&& (forall|i: int|
        #![trigger queued(q, i)]
        #![trigger inflight(cs, i)]
        #![trigger bit_set(bfs, i)]
        0 <= i < num ==> {
            let m = queued(q, i);
            let f = inflight(cs, i);
            let v = bit_set(bfs, i);
            &&& (m || f || v)
            &&& !(m && f)
            &&& !(m && v)
            &&& !(f && v)
        })
    &&& queue_distinct(q)
    &&& slots_distinct(cs)
    &&& (forall|k: int| 0 <= k < q.len() ==> (#[trigger] q[k]).1 < num)
    &&& (forall|k: int|
        0 <= k < cs.len() && (#[trigger] cs[k]).is_some() ==> cs[k].unwrap().1 < num)
}

/// Membership in the residual queue a recovery builds: exactly the
/// indices below `n` whose bit is clear.
proof fn lemma_remaining_membership(descs: Seq<Piece>, bfs: Seq<u8>, n: int, i: int)
    requires
        forall|k: int| 0 <= k < descs.len() ==> (#[trigger] descs[k]).1 == k,
        n <= descs.len(),
    ensures
        queued(remaining(descs, bfs, n), i) == (0 <= i < n && !bit_set(bfs, i)),
        queue_distinct(remaining(descs, bfs, n)),
        forall|k: int|
            0 <= k < remaining(descs, bfs, n).len() ==> (#[trigger] remaining(
                descs,
                bfs,
                n,
            )[k]).1 < n,
    decreases n,
{
    if n <= 0 {
    } else {
        lemma_remaining_membership(descs, bfs, n - 1, i);
        let prev = remaining(descs, bfs, n - 1);
        let cur = remaining(descs, bfs, n);
        if !bit_set(bfs, n - 1) {
            assert(cur == prev + seq![descs[n - 1]]);
            assert forall|t: int| 0 <= t < cur.len() implies (#[trigger] cur[t]).1 < n by {
                if t < prev.len() {
                    lemma_remaining_membership(descs, bfs, n - 1, prev[t].1 as int);
                }
            }
            if queued(cur, i) {
                let k = choose|k: int| 0 <= k < cur.len() && (#[trigger] cur[k]).1 == i;
                if k < prev.len() {
                    assert(queued(prev, i));
                } else {
                    assert(cur[k] == descs[n - 1]);
                }
            }
            if 0 <= i < n && !bit_set(bfs, i) {
                if i == n - 1 {
                    assert(cur[cur.len() - 1].1 == i);
                } else {
                    let k = choose|k: int| 0 <= k < prev.len() && (#[trigger] prev[k]).1 == i;
                    assert(cur[k].1 == i);
                }
            }
        } else {
            assert(cur =~= prev);
        }
    }
}

/// Starting states satisfy the invariant: a work queue holding exactly
/// the not-yet-verified descriptors (all of them on a fresh start, none
/// on a seeded one), no session owning anything, and the store's bitfield
/// as recovered.
pub proof fn lemma_engine_init(descs: Seq<Piece>, bfs: Seq<u8>, num: int, cs: Seq<Option<Piece>>)
    requires
        descs.len() == num,
        forall|k: int| 0 <= k < num ==> (#[trigger] descs[k]).1 == k,
        forall|k: int| 0 <= k < cs.len() ==> (#[trigger] cs[k]).is_none(),
    ensures
        engine_inv(remaining(descs, bfs, num), cs, bfs, num),
{
    let q = remaining(descs, bfs, num);
    assert forall|i: int|
        #![trigger queued(q, i)]
        #![trigger inflight(cs, i)]
        #![trigger bit_set(bfs, i)]
        0 <= i < num implies {
        let m = queued(q, i);
        let f = inflight(cs, i);
        let v = bit_set(bfs, i);
        &&& (m || f || v)
        &&& !(m && f)
        &&& !(m && v)
        &&& !(f && v)
    } by {
        lemma_remaining_membership(descs, bfs, num, i);
        assert(!inflight(cs, i));
    }
    lemma_remaining_membership(descs, bfs, num, 0);
    assert forall|k: int| 0 <= k < q.len() implies (#[trigger] q[k]).1 < num by {
        lemma_remaining_membership(descs, bfs, num, q[k].1 as int);
    }
    assert(slots_distinct(cs));
}

/// A session takes a queued piece: the index moves from Missing to
/// InFlight and the partition is intact.
pub proof fn lemma_engine_take(
    q0: Seq<Piece>,
    cs0: Seq<Option<Piece>>,
    bfs: Seq<u8>,
    num: int,
    t: int,
    s: int,
)
    requires
        engine_inv(q0, cs0, bfs, num),
        0 <= t < q0.len(),
        0 <= s < cs0.len(),
        cs0[s].is_none(),
    ensures
        engine_inv(q0.remove(t), cs0.update(s, Some(q0[t])), bfs, num),
{
    let q1 = q0.remove(t);
    let cs1 = cs0.update(s, Some(q0[t]));
    let x = q0[t].1 as int;

    assert forall|i: int|
        #![trigger queued(q1, i)]
        #![trigger inflight(cs1, i)]
        #![trigger bit_set(bfs, i)]
        0 <= i < num implies {
        let m = queued(q1, i);
        let f = inflight(cs1, i);
        let v = bit_set(bfs, i);
        &&& (m || f || v)
        &&& !(m && f)
        &&& !(m && v)
        &&& !(f && v)
    } by {
        // how queue membership changes under the removal
        if queued(q1, i) {
            let k = choose|k: int| 0 <= k < q1.len() && (#[trigger] q1[k]).1 == i;
            if k < t {
                assert(q0[k].1 == i);
            } else {
                assert(q0[k + 1].1 == i);
            }
            assert(queued(q0, i));
            assert(i != x);
        }
        if queued(q0, i) && i != x {
            let k = choose|k: int| 0 <= k < q0.len() && (#[trigger] q0[k]).1 == i;
            if k < t {
                assert(q1[k].1 == i);
            } else {
                assert(q1[k - 1].1 == i);
            }
            assert(queued(q1, i));
        }
        // how slot membership changes under the update
        if inflight(cs1, i) {
            let k = choose|k: int|
                0 <= k < cs1.len() && (#[trigger] cs1[k]).is_some() && cs1[k].unwrap().1 == i;
            if k != s {
                assert(cs0[k].is_some() && cs0[k].unwrap().1 == i);
                assert(inflight(cs0, i));
            }
        }
        if inflight(cs0, i) {
            let k = choose|k: int|
                0 <= k < cs0.len() && (#[trigger] cs0[k]).is_some() && cs0[k].unwrap().1 == i;
            assert(k != s);
            assert(cs1[k].is_some() && cs1[k].unwrap().1 == i);
            assert(inflight(cs1, i));
        }
        assert(cs1[s].is_some() && cs1[s].unwrap().1 == x);
        assert(queued(q0, x));
    }

    assert forall|k1: int, k2: int|
        0 <= k1 < k2 < q1.len() implies (#[trigger] q1[k1]).1 != (#[trigger] q1[k2]).1 by {
        let a = if k1 < t { k1 } else { k1 + 1 };
        let b = if k2 < t { k2 } else { k2 + 1 };
        assert(q1[k1] == q0[a] && q1[k2] == q0[b]);
    }

    assert forall|k1: int, k2: int|
        0 <= k1 < k2 < cs1.len() && (#[trigger] cs1[k1]).is_some() && (#[trigger] cs1[k2]).is_some()
        implies cs1[k1].unwrap().1 != cs1[k2].unwrap().1 by {
        if k1 != s && k2 != s {
            assert(cs0[k1] == cs1[k1] && cs0[k2] == cs1[k2]);
        } else {
            let o = if k1 == s { k2 } else { k1 };
            assert(cs1[o] == cs0[o]);
            if cs0[o].is_some() {
                assert(inflight(cs0, cs0[o].unwrap().1 as int));
                assert(queued(q0, x));
            }
        }
    }

    assert forall|k: int| 0 <= k < q1.len() implies (#[trigger] q1[k]).1 < num by {
        let a = if k < t { k } else { k + 1 };
        assert(q1[k] == q0[a]);
    }
}

/// What `get_piece` promises, fed straight into the invariant: whether
/// the session found work or not, the slot and the queue end up
/// partitioned as before.
pub proof fn lemma_engine_after_seek(
    q0: Seq<Piece>,
    cs0: Seq<Option<Piece>>,
    bfs: Seq<u8>,
    num: int,
    s: int,
    post: crate::session::Session,
    q1: Seq<Piece>,
    got: bool,
)
    requires
        engine_inv(q0, cs0, bfs, num),
        0 <= s < cs0.len(),
        cs0[s].is_none(),
        crate::session::sought_piece(q0, bfs, post, q1, got),
    ensures
        engine_inv(q1, cs0.update(s, post.current), bfs, num),
{
    if got {
        let i = choose|i: int|
            {
                &&& 0 <= i < q0.len()
                &&& post.current == Some(q0[i])
                &&& bit_set(bfs, q0[i].1 as int)
                &&& (forall|j: int| 0 <= j < i ==> !bit_set(bfs, (#[trigger] q0[j]).1 as int))
                &&& q1 == q0.remove(i)
            };
        lemma_engine_take(q0, cs0, bfs, num, i, s);
    } else {
        assert(cs0.update(s, post.current) =~= cs0);
    }
}

/// A session gives a piece back — a failed hash, or its exit path: the
/// index moves from InFlight back to Missing and the partition is intact.
pub proof fn lemma_engine_pushback(
    q0: Seq<Piece>,
    cs0: Seq<Option<Piece>>,
    bfs: Seq<u8>,
    num: int,
    s: int,
)
    requires
        engine_inv(q0, cs0, bfs, num),
        0 <= s < cs0.len(),
        cs0[s].is_some(),
    ensures
        engine_inv(q0.push(cs0[s].unwrap()), cs0.update(s, None), bfs, num),
{
    let p = cs0[s].unwrap();
    let x = p.1 as int;
    let q1 = q0.push(p);
    let cs1 = cs0.update(s, None);
    assert(inflight(cs0, x));

    assert forall|i: int|
        #![trigger queued(q1, i)]
        #![trigger inflight(cs1, i)]
        #![trigger bit_set(bfs, i)]
        0 <= i < num implies {
        let m = queued(q1, i);
        let f = inflight(cs1, i);
        let v = bit_set(bfs, i);
        &&& (m || f || v)
        &&& !(m && f)
        &&& !(m && v)
        &&& !(f && v)
    } by {
        if queued(q1, i) {
            let k = choose|k: int| 0 <= k < q1.len() && (#[trigger] q1[k]).1 == i;
            if k < q0.len() {
                assert(queued(q0, i));
            } else {
                assert(i == x);
            }
        }
        if queued(q0, i) {
            let k = choose|k: int| 0 <= k < q0.len() && (#[trigger] q0[k]).1 == i;
            assert(q1[k].1 == i);
            assert(queued(q1, i));
        }
        assert(q1[q0.len() as int].1 == x);
        assert(queued(q1, x));
        if inflight(cs1, i) {
            let k = choose|k: int|
                0 <= k < cs1.len() && (#[trigger] cs1[k]).is_some() && cs1[k].unwrap().1 == i;
            assert(k != s);
            assert(inflight(cs0, i));
        }
        if inflight(cs0, i) && i != x {
            let k = choose|k: int|
                0 <= k < cs0.len() && (#[trigger] cs0[k]).is_some() && cs0[k].unwrap().1 == i;
            assert(k != s);
            assert(cs1[k].is_some() && cs1[k].unwrap().1 == i);
            assert(inflight(cs1, i));
        }
        if inflight(cs1, x) {
            let k = choose|k: int|
                0 <= k < cs1.len() && (#[trigger] cs1[k]).is_some() && cs1[k].unwrap().1 == x;
            assert(k != s);
            assert(cs0[k].is_some() && cs0[k].unwrap().1 == x && cs0[s].unwrap().1 == x);
            assert(false);
        }
    }

    assert forall|k1: int, k2: int|
        0 <= k1 < k2 < q1.len() implies (#[trigger] q1[k1]).1 != (#[trigger] q1[k2]).1 by {
        if k2 < q0.len() {
        } else {
            assert(q1[k2].1 == x);
            assert(q1[k1] == q0[k1]);
            if q0[k1].1 == x {
                assert(queued(q0, x));
                assert(!(queued(q0, x) && inflight(cs0, x)));
                assert(false);
            }
        }
    }
}

/// A verified piece reaches the store: the session's slot empties and
/// the bit goes on — the index moves from InFlight to Verified and the
/// partition is intact. (A stale duplicate delivery, whose index is
/// already Verified, is rejected by the store and changes nothing.)
pub proof fn lemma_engine_store(
    q0: Seq<Piece>,
    cs0: Seq<Option<Piece>>,
    bfs0: Seq<u8>,
    bfs1: Seq<u8>,
    num: int,
    s: int,
)
    requires
        engine_inv(q0, cs0, bfs0, num),
        0 <= s < cs0.len(),
        cs0[s].is_some(),
        bit_set(bfs1, cs0[s].unwrap().1 as int),
        forall|j: int|
            0 <= j && j != cs0[s].unwrap().1 as int ==> bit_set(bfs1, j) == bit_set(bfs0, j),
    ensures
        engine_inv(q0, cs0.update(s, None), bfs1, num),
{
    let p = cs0[s].unwrap();
    let x = p.1 as int;
    let cs1 = cs0.update(s, None);
    assert(inflight(cs0, x));

    assert forall|i: int|
        #![trigger queued(q0, i)]
        #![trigger inflight(cs1, i)]
        #![trigger bit_set(bfs1, i)]
        0 <= i < num implies {
        let m = queued(q0, i);
        let f = inflight(cs1, i);
        let v = bit_set(bfs1, i);
        &&& (m || f || v)
        &&& !(m && f)
        &&& !(m && v)
        &&& !(f && v)
    } by {
        if inflight(cs1, i) {
            let k = choose|k: int|
                0 <= k < cs1.len() && (#[trigger] cs1[k]).is_some() && cs1[k].unwrap().1 == i;
            assert(k != s);
            assert(inflight(cs0, i));
            if i == x {
                assert(cs0[k].is_some() && cs0[k].unwrap().1 == x && cs0[s].unwrap().1 == x);
                assert(false);
            }
        }
        if inflight(cs0, i) && i != x {
            let k = choose|k: int|
                0 <= k < cs0.len() && (#[trigger] cs0[k]).is_some() && cs0[k].unwrap().1 == i;
            assert(k != s);
            assert(cs1[k].is_some() && cs1[k].unwrap().1 == i);
            assert(inflight(cs1, i));
        }
    }
}

} // verus!
