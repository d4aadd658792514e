use vstd::prelude::*;
use vstd::slice::{slice_subrange, slice_to_vec};
use std::collections::VecDeque;
use crate::bitfield::{bit_set, Bitfield};
use crate::queue::Queue;
use crate::messages::{push_u32, u32_bytes};
use crate::torrents::{piece_len_at, sha1_of, split_hash, num_pieces_of, Piece, Torrent};
use crate::utils::{clone_bytes, copy_into, zero_vec};

verus! {

/// The three counters reported to the tracker.
#[derive(Debug, Clone, Copy)]
pub struct Progress {
    pub uploaded: usize,
    pub downloaded: usize,
    pub left: usize,
}

/// How many of the first `n` bits are set.
pub open spec fn count_set(s: Seq<u8>, n: int) -> int
    decreases n,
{
    if n <= 0 {
        0
    } else {
        count_set(s, n - 1) + if bit_set(s, n - 1) {
            1int
        } else {
            0int
        }
    }
}

/// Total declared bytes of the pieces among the first `n` whose bit is set.
pub open spec fn bytes_set(descs: Seq<Piece>, s: Seq<u8>, n: int) -> int
    decreases n,
{
    if n <= 0 {
        0
    } else {
        bytes_set(descs, s, n - 1) + if bit_set(s, n - 1) {
            descs[n - 1].2 as int
        } else {
            0int
        }
    }
}

/// Total declared bytes of the first `n` pieces.
pub open spec fn sum_pieces(descs: Seq<Piece>, n: int) -> int
    decreases n,
{
    if n <= 0 {
        0
    } else {
        sum_pieces(descs, n - 1) + descs[n - 1].2 as int
    }
}

/// The first `n` descriptors whose bit is clear, in index order.
pub open spec fn remaining(descs: Seq<Piece>, s: Seq<u8>, n: int) -> Seq<Piece>
    decreases n,
{
    if n <= 0 {
        Seq::empty()
    } else {
        remaining(descs, s, n - 1) + if bit_set(s, n - 1) {
            Seq::empty()
        } else {
            seq![descs[n - 1]]
        }
    }
}

/// `n` zero bytes.
pub open spec fn zeros(n: int) -> Seq<u8> {
    Seq::new(n as nat, |i: int| 0u8)
}

/// Counting set bits never exceeds `n`, and hits `n` exactly when the
/// first `n` bits are all set.
pub proof fn lemma_count_set_bounds(s: Seq<u8>, n: int)
    ensures
        0 <= count_set(s, n) <= n || n < 0,
        count_set(s, n) == n ==> forall|i: int| 0 <= i < n ==> bit_set(s, i),
    decreases n,
{
    if n > 0 {
        lemma_count_set_bounds(s, n - 1);
    }
}

/// Setting one clear bit raises the count by one and the set-bytes total
/// by that piece's length.
proof fn lemma_count_after_set(descs: Seq<Piece>, s1: Seq<u8>, s2: Seq<u8>, x: int, n: int)
    requires
        0 <= x,
        !bit_set(s1, x),
        bit_set(s2, x),
        forall|j: int| 0 <= j && j != x ==> bit_set(s2, j) == bit_set(s1, j),
    ensures
        x < n ==> count_set(s2, n) == count_set(s1, n) + 1,
        x >= n ==> count_set(s2, n) == count_set(s1, n),
        x < n ==> bytes_set(descs, s2, n) == bytes_set(descs, s1, n) + descs[x].2,
        x >= n ==> bytes_set(descs, s2, n) == bytes_set(descs, s1, n),
    decreases n,
{
    if n > 0 {
        lemma_count_after_set(descs, s1, s2, x, n - 1);
    }
}

/// The set-bytes total is at most the total of all declared piece lengths.
proof fn lemma_bytes_set_le(descs: Seq<Piece>, s: Seq<u8>, n: int)
    ensures
        bytes_set(descs, s, n) <= sum_pieces(descs, n),
        0 <= bytes_set(descs, s, n) || n < 0,
    decreases n,
{
    if n > 0 {
        lemma_bytes_set_le(descs, s, n - 1);
    }
}

/// Canonical descriptors: every piece before the last is a full
/// `piece_length`, so their lengths sum like multiples.
proof fn lemma_sum_prefix(descs: Seq<Piece>, pl: int, num: int, length: int, i: int)
    requires
        num >= 1,
        descs.len() == num,
        0 <= i <= num - 1,
        forall|j: int|
            0 <= j < num ==> (#[trigger] descs[j]).2 == piece_len_at(j, num, pl, length),
    ensures
        sum_pieces(descs, i) == i * pl,
    decreases i,
{
    if i > 0 {
        lemma_sum_prefix(descs, pl, num, length, i - 1);
        assert(piece_len_at(i - 1, num, pl, length) == pl);
        assert(descs[i - 1].2 == pl);
        assert(sum_pieces(descs, i) == sum_pieces(descs, i - 1) + descs[i - 1].2);
        assert((i - 1) * pl + pl == i * pl) by (nonlinear_arith);
    } else {
        assert(sum_pieces(descs, i) == 0);
        assert(i * pl == 0) by (nonlinear_arith)
            requires i == 0;
    }
}

/// Arithmetic of the ceiling split: with `num` the number of pieces of a
/// `length`-byte payload in `pl`-byte pieces, the pieces tile the payload
/// exactly and the byte-sized bitfield covers every index.
proof fn lemma_ceil_facts(length: int, pl: int)
    requires
        length > 0,
        pl > 0,
    ensures
        ({
            let num = (length - 1) / pl + 1;
            &&& num >= 1
            &&& num * pl >= length
            &&& num * pl < length + pl
            &&& num <= length
            &&& (num - 1) * pl + piece_len_at(num - 1, num, pl, length) == length
            &&& num <= 8 * ((length - 1) / (8 * pl) + 1)
            &&& (forall|i: int| 0 <= i < num ==> {
                &&& 1 <= piece_len_at(i, num, pl, length) <= pl
                &&& i * pl + #[trigger] piece_len_at(i, num, pl, length) <= length
            })
        }),
{
    let q = (length - 1) / pl;
    let r = (length - 1) % pl;
    vstd::arithmetic::div_mod::lemma_fundamental_div_mod(length - 1, pl);
    vstd::arithmetic::div_mod::lemma_mod_bound(length - 1, pl);
    let num = q + 1;
    assert(num * pl == pl * q + pl) by (nonlinear_arith)
        requires num == q + 1;
    assert(q >= 0 && q <= length - 1) by (nonlinear_arith)
        requires pl > 0 && length > 0 && length - 1 == pl * q + r && 0 <= r < pl;

    // the final piece's canonical length closes the total exactly
    vstd::arithmetic::div_mod::lemma_fundamental_div_mod(length, pl);
    vstd::arithmetic::div_mod::lemma_mod_bound(length, pl);
    let qq = length / pl;
    let rr = length % pl;
    if rr != 0 {
        assert(q == qq) by (nonlinear_arith)
            requires
                length - 1 == pl * q + r && 0 <= r < pl && length == pl * qq + rr && 1 <= rr < pl;
        assert((num - 1) * pl == pl * qq) by (nonlinear_arith)
            requires num - 1 == q && q == qq;
    } else {
        assert(q == qq - 1) by (nonlinear_arith)
            requires
                length - 1 == pl * q + r && 0 <= r < pl && length == pl * qq + rr && rr == 0 && pl
                    > 0;
        assert(num * pl == pl * qq) by (nonlinear_arith)
            requires num == qq;
        assert((num - 1) * pl + pl == num * pl) by (nonlinear_arith);
    }

    // the bitfield of (length-1)/(8*pl)+1 bytes has a bit for every piece
    let q8 = (length - 1) / (8 * pl);
    vstd::arithmetic::div_mod::lemma_fundamental_div_mod(length - 1, 8 * pl);
    vstd::arithmetic::div_mod::lemma_mod_bound(length - 1, 8 * pl);
    let r8 = (length - 1) % (8 * pl);
    assert(q <= 8 * q8 + 7) by (nonlinear_arith)
        requires
            pl > 0 && length - 1 == pl * q + r && 0 <= r < pl && length - 1 == (8 * pl) * q8 + r8
                && 0 <= r8 < 8 * pl;

    // every piece's region lies inside the payload
    let last = piece_len_at(num - 1, num, pl, length);
    assert(last >= 1);
    assert forall|i: int| 0 <= i < num implies {
        &&& 1 <= piece_len_at(i, num, pl, length) <= pl
        &&& i * pl + #[trigger] piece_len_at(i, num, pl, length) <= length
    } by {
        if i < num - 1 {
            assert(piece_len_at(i, num, pl, length) == pl);
            assert((i + 1) * pl <= (num - 1) * pl) by (nonlinear_arith)
                requires i + 1 <= num - 1 && pl > 0;
            assert(i * pl + pl == (i + 1) * pl) by (nonlinear_arith);
        }
    }
}

/// The single owner of the content buffer, the have-bitfield, the tracker
/// counters and the done flag. File handles stay outside: callers append
/// `log_record` bytes to the recovery log and write `split_output` slices
/// to the final files.
pub struct Partial {
    pub buf: Vec<u8>,
    pub bf: Bitfield,
    pub received: usize,
    pub num_pieces: usize,
    pub piece_length: usize,
    pub length: usize,
    pub descs: Vec<Piece>,
    pub progress: Progress,
    pub done: bool,
}

impl Partial {
    /// Everything the store promises between calls: geometry, canonical
    /// descriptors, counters in step with the bitfield, and every marked
    /// piece's buffer region hashing to its descriptor.
    pub open spec fn wf(self) -> bool {
        let pl = self.piece_length as int;
        let num = self.num_pieces as int;
        &&& self.piece_length > 0
        &&& self.piece_length <= u32::MAX
        &&& 8 * (self.piece_length as int) <= usize::MAX
        &&& self.length > 0
        &&& num == (self.length - 1) / pl + 1
        &&& self.buf@.len() == self.length
        &&& self.bf.bf@.len() == (self.length - 1) / (8 * pl) + 1
        &&& num <= 8 * self.bf.bf@.len()
        &&& self.descs@.len() == num
        &&& (forall|i: int|
            0 <= i < num ==> {
                &&& (#[trigger] self.descs@[i]).1 == i
                &&& self.descs@[i].2 == piece_len_at(i, num, pl, self.length as int)
                &&& self.descs@[i].2 <= pl
                &&& i * pl + self.descs@[i].2 <= self.length
            })
        &&& sum_pieces(self.descs@, num) == self.length
        &&& (forall|j: int| num <= j ==> !bit_set(self.bf.bf@, j))
        &&& self.received == count_set(self.bf.bf@, num)
        &&& self.progress.downloaded == bytes_set(self.descs@, self.bf.bf@, num)
        &&& self.progress.downloaded <= self.length
        &&& self.progress.left == self.length - self.progress.downloaded
        &&& self.done == (self.received == self.num_pieces)
        &&& (forall|i: int|
            0 <= i < num && bit_set(self.bf.bf@, i) ==> sha1_of(
                #[trigger] self.buf@.subrange(i * pl, i * pl + self.descs@[i].2),
            ) == self.descs@[i].0@)
    }

    /// The piece descriptors this store verifies against, equal to what
    /// `split_hash` cuts from the same metainfo blob.
    pub fn from(t: &Torrent, pieces_blob: Vec<u8>) -> (r: Partial)
        requires
            t.wf(),
            pieces_blob@.len() > 0,
            pieces_blob@.len() <= usize::MAX - 20,
            num_pieces_of(pieces_blob@.len() as int) == t.spec_num_pieces(),
            t.spec_num_pieces() <= u32::MAX,
            8 * (t.piece_length as int) <= usize::MAX,
        ensures
            r.wf(),
            r.piece_length == t.piece_length,
            r.length == t.length,
            r.num_pieces == t.spec_num_pieces(),
            r.received == 0,
            r.done == false,
            r.progress.uploaded == 0,
            r.progress.downloaded == 0,
            r.progress.left == t.length,
            forall|j: int| 0 <= j ==> !bit_set(r.bf.bf@, j),
            r.descs@.len() == r.num_pieces,
            forall|i: int, k: int|
                0 <= i < r.descs@.len() && 0 <= k < 20 ==> (#[trigger] r.descs@[i].0@[k])
                    == crate::torrents::hash_byte_at(pieces_blob@, i, k),
    {
        let pl = t.piece_length as usize;
        let length = t.length;
        proof {
            lemma_ceil_facts(length as int, pl as int);
        }
        let num = t.num_pieces();
        let descs_deque = split_hash(pieces_blob, pl, length);
        let mut descs: Vec<Piece> = Vec::new();
        let n = descs_deque.len();
        let mut i: usize = 0;
        while i < n
            invariant
                n == descs_deque@.len(),
                0 <= i <= n,
                descs@.len() == i,
                forall|j: int| 0 <= j < i ==> descs@[j] == descs_deque@[j],
            decreases n - i,
        {
            descs.push(descs_deque[i]);
            i += 1;
        }
        let bf_len = (length - 1) / (8 * pl) + 1;
        let bf = Bitfield::new(bf_len);
        let buf = zero_vec(length);
        let r = Partial {
            buf,
            bf,
            received: 0,
            num_pieces: num,
            piece_length: pl,
            length,
            descs,
            progress: Progress { uploaded: 0, downloaded: 0, left: length },
            done: false,
        };
        proof {
            assert(count_set(r.bf.bf@, num as int) == 0) by {
                lemma_count_zero(r.bf.bf@, num as int);
            }
            assert(bytes_set(r.descs@, r.bf.bf@, num as int) == 0) by {
                lemma_bytes_zero(r.descs@, r.bf.bf@, num as int);
            }
            lemma_sum_prefix(r.descs@, pl as int, num as int, length as int, num as int - 1);
            assert(sum_pieces(r.descs@, num as int) == length);
        }
        r
    }

    /// True when the bit for piece `i` is set.
    pub fn has_piece(&self, i: usize) -> (r: bool)
        ensures
            r == bit_set(self.bf.bf@, i as int),
    {
        self.bf.has(i)
    }

    /// Accepts a freshly verified piece: copies it into the buffer at the
    /// piece's offset, marks the bit, advances the counters, and reports
    /// whether the torrent is now complete. `None` exactly when the piece
    /// was already present: a harmless duplicate, nothing changes.
    pub fn update(&mut self, idx: u32, res: Vec<u8>) -> (r: Option<bool>)
        requires
            old(self).wf(),
            (idx as int) < old(self).num_pieces,
            res@.len() == old(self).descs@[idx as int].2,
            sha1_of(res@) == old(self).descs@[idx as int].0@,
        ensures
            final(self).wf(),
            final(self).piece_length == old(self).piece_length,
            final(self).length == old(self).length,
            final(self).num_pieces == old(self).num_pieces,
            final(self).descs@ == old(self).descs@,
            final(self).progress.uploaded == old(self).progress.uploaded,
            match r {
                None => bit_set(old(self).bf.bf@, idx as int) && *final(self) == *old(self),
                Some(d) => {
                    &&& !bit_set(old(self).bf.bf@, idx as int)
                    &&& bit_set(final(self).bf.bf@, idx as int)
                    &&& (forall|j: int|
                        0 <= j && j != idx ==> bit_set(final(self).bf.bf@, j) == bit_set(
                            old(self).bf.bf@,
                            j,
                        ))
                    &&& final(self).buf@.subrange(
                        idx * old(self).piece_length,
                        idx * old(self).piece_length + res@.len(),
                    ) == res@
                    &&& (forall|j: int|
                        0 <= j < old(self).buf@.len() && !(idx * old(self).piece_length <= j < idx
                            * old(self).piece_length + res@.len()) ==> final(self).buf@[j] == old(
                            self,
                        ).buf@[j])
                    &&& final(self).received == old(self).received + 1
                    &&& final(self).progress.downloaded == old(self).progress.downloaded
                        + res@.len()
                    &&& final(self).progress.left == old(self).progress.left - res@.len()
                    &&& d == final(self).done
                    &&& d == (old(self).received + 1 == old(self).num_pieces)
                },
            },
    {
        let i = idx as usize;
        if self.bf.has(i) {
            return None;
        }
        let ghost prev = *self;
        let pl = self.piece_length;
        proof {
            assert(i * pl + self.descs@[i as int].2 <= self.length);
        }
        let start = i * pl;
        copy_into(&mut self.buf, start, res.as_slice());
        proof {
            lemma_count_set_bounds(self.bf.bf@, self.num_pieces as int);
        }
        self.received = self.received + 1;
        self.bf.add(i);
        proof {
            lemma_count_after_set(
                self.descs@,
                prev.bf.bf@,
                self.bf.bf@,
                i as int,
                self.num_pieces as int,
            );
            lemma_bytes_set_le(self.descs@, self.bf.bf@, self.num_pieces as int);
        }
        self.progress.downloaded = self.progress.downloaded + res.len();
        self.progress.left = self.progress.left - res.len();
        let d = self.received == self.num_pieces;
        self.done = d;
        proof {
            self.lemma_update_regions(prev, i as int, res@);
        }
        Some(d)
    }

    /// After one region write and one bit set, every other marked region
    /// still hashes right: the regions of distinct pieces do not overlap.
    proof fn lemma_update_regions(&self, prev: Partial, x: int, data: Seq<u8>)
        requires
            prev.wf(),
            0 <= x < prev.num_pieces,
            data.len() == prev.descs@[x].2,
            sha1_of(data) == prev.descs@[x].0@,
            self.piece_length == prev.piece_length,
            self.num_pieces == prev.num_pieces,
            self.length == prev.length,
            self.descs@ == prev.descs@,
            self.buf@.len() == prev.buf@.len(),
            self.buf@.subrange(
                x * prev.piece_length,
                x * prev.piece_length + data.len(),
            ) == data,
            forall|j: int|
                0 <= j < prev.buf@.len() && !(x * prev.piece_length <= j < x * prev.piece_length
                    + data.len()) ==> self.buf@[j] == prev.buf@[j],
            bit_set(self.bf.bf@, x),
            forall|j: int|
                0 <= j && j != x ==> bit_set(self.bf.bf@, j) == bit_set(prev.bf.bf@, j),
        ensures
            forall|i: int|
                0 <= i < self.num_pieces && bit_set(self.bf.bf@, i) ==> sha1_of(
                    #[trigger] self.buf@.subrange(
                        i * self.piece_length as int,
                        i * self.piece_length as int + self.descs@[i].2,
                    ),
                ) == self.descs@[i].0@,
    {
        let pl = prev.piece_length as int;
        let num = prev.num_pieces as int;
        assert forall|i: int|
            0 <= i < num && bit_set(self.bf.bf@, i) implies sha1_of(
            self.buf@.subrange(i * pl, i * pl + self.descs@[i].2),
        ) == self.descs@[i].0@ by {
            if i == x {
                assert(self.buf@.subrange(i * pl, i * pl + self.descs@[i].2) == data);
            } else {
                // the two regions are disjoint, so this one kept its bytes
                if i < x {
                    assert(i * pl + self.descs@[i].2 <= x * pl) by (nonlinear_arith)
                        requires i < x && self.descs@[i].2 <= pl && pl > 0;
                } else {
                    assert(x * pl + data.len() <= i * pl) by (nonlinear_arith)
                        requires x < i && data.len() <= pl && pl > 0;
                }
                assert(self.buf@.subrange(i * pl, i * pl + self.descs@[i].2) =~= prev.buf@.subrange(
                    i * pl,
                    i * pl + self.descs@[i].2,
                ));
            }
        }
    }

    /// Hands out `len` bytes at `offset` within piece `idx`: a value
    /// exactly when the piece is present and the range lies inside the
    /// buffer, and then the bytes are the buffer's.
    pub fn get(&self, idx: u32, offset: u32, len: u32) -> (r: Option<Vec<u8>>)
        requires
            self.wf(),
        ensures
            r.is_some() == ((idx as int) < self.num_pieces && bit_set(self.bf.bf@, idx as int)
                && idx * self.piece_length + offset + len <= self.length),
            r.is_some() ==> r.unwrap()@ == self.buf@.subrange(
                idx * self.piece_length + offset,
                idx * self.piece_length + offset + len,
            ),
    {
        let i = idx as usize;
        if i >= self.num_pieces || !self.bf.has(i) {
            return None;
        }
        proof {
            assert((idx as int) * (self.piece_length as int) + (offset as int) <= (u32::MAX as int)
                * (u32::MAX as int) + u32::MAX) by (nonlinear_arith)
                requires
                    0 <= idx <= u32::MAX && 0 <= self.piece_length <= u32::MAX && 0 <= offset
                        <= u32::MAX;
        }
        let start_wide = (idx as u64) * (self.piece_length as u64) + (offset as u64);
        if start_wide > usize::MAX as u64 - len as u64 {
            proof {
                assert(idx * self.piece_length + offset + len > self.length);
            }
            return None;
        }
        let start = start_wide as usize;
        if start + len as usize > self.length {
            return None;
        }
        let b = slice_to_vec(slice_subrange(self.buf.as_slice(), start, start + len as usize));
        Some(b)
    }

    /// The record `update` owes the recovery log: the index big-endian,
    /// then the payload padded with zeros to a full piece length.
    pub fn log_record(&self, idx: u32, res: &Vec<u8>) -> (r: Vec<u8>)
        requires
            self.wf(),
            (idx as int) < self.num_pieces,
            res@.len() == self.descs@[idx as int].2,
        ensures
            r@ == u32_bytes(idx) + res@ + zeros(self.piece_length - res@.len()),
            r@.len() == 4 + self.piece_length,
    {
        let mut r: Vec<u8> = Vec::new();
        push_u32(&mut r, idx);
        let mut body = clone_bytes(res);
        r.append(&mut body);
        let pad = self.piece_length - res.len();
        let mut k: usize = 0;
        while k < pad
            invariant
                0 <= k <= pad,
                r@ == u32_bytes(idx) + res@ + zeros(k as int),
            decreases pad - k,
        {
            r.push(0u8);
            proof {
                assert(r@ =~= u32_bytes(idx) + res@ + zeros(k + 1));
            }
            k += 1;
        }
        proof {
            assert(r@ =~= u32_bytes(idx) + res@ + zeros(self.piece_length - res@.len()));
        }
        r
    }
}

/// How many records a log of `len` bytes holds, at `pl + 4` bytes each.
pub open spec fn rec_count(data: Seq<u8>, pl: int) -> int {
    (data.len() as int) / (pl + 4)
}

/// The piece index of record `k`, read big-endian from its first 4 bytes.
pub open spec fn rec_idx(data: Seq<u8>, pl: int, k: int) -> u32 {
    crate::messages::u32_of(
        data[k * (pl + 4)],
        data[k * (pl + 4) + 1],
        data[k * (pl + 4) + 2],
        data[k * (pl + 4) + 3],
    )
}

/// The `pl` payload bytes of record `k`.
pub open spec fn rec_body(data: Seq<u8>, pl: int, k: int) -> Seq<u8> {
    data.subrange(k * (pl + 4) + 4, (k + 1) * (pl + 4))
}

/// What makes a recovery log acceptable as a whole: record-aligned length,
/// every index in range and fresh, every payload hashing to its descriptor
/// over the piece's true byte length.
pub open spec fn good_log(data: Seq<u8>, pl: int, descs: Seq<Piece>, num: int) -> bool {
    &&& (data.len() as int) % (pl + 4) == 0
    &&& (forall|k: int| 0 <= k < rec_count(data, pl) ==> (#[trigger] rec_idx(data, pl, k) as int)
        < num)
    &&& (forall|k1: int, k2: int|
        0 <= k1 < k2 < rec_count(data, pl) ==> rec_idx(data, pl, k1) != rec_idx(data, pl, k2))
    &&& (forall|k: int|
        0 <= k < rec_count(data, pl) ==> sha1_of(
            #[trigger] rec_body(data, pl, k).subrange(
                0,
                descs[rec_idx(data, pl, k) as int].2 as int,
            ),
        ) == descs[rec_idx(data, pl, k) as int].0@)
}

/// All of the first `n` bits set: the count is `n` and the byte total is
/// the full sum.
proof fn lemma_count_full(descs: Seq<Piece>, s: Seq<u8>, n: int)
    requires
        forall|i: int| 0 <= i < n ==> bit_set(s, i),
    ensures
        count_set(s, n) == n || n < 0,
        bytes_set(descs, s, n) == sum_pieces(descs, n),
    decreases n,
{
    if n > 0 {
        lemma_count_full(descs, s, n - 1);
    }
}

/// A write confined to piece `x`'s region leaves the region of any other
/// piece byte-for-byte as it was.
proof fn lemma_other_region(
    buf1: Seq<u8>,
    buf2: Seq<u8>,
    pl: int,
    leni: int,
    lenx: int,
    i: int,
    x: int,
)
    requires
        buf1.len() == buf2.len(),
        i != x,
        0 <= i,
        0 <= x,
        pl > 0,
        leni <= pl,
        lenx <= pl,
        0 <= leni,
        0 <= lenx,
        i * pl + leni <= buf1.len(),
        x * pl + lenx <= buf1.len(),
        forall|j: int| 0 <= j < buf1.len() && !(x * pl <= j < x * pl + lenx) ==> buf2[j] == buf1[j],
    ensures
        buf2.subrange(i * pl, i * pl + leni) == buf1.subrange(i * pl, i * pl + leni),
{
    assert(i * pl >= 0 && x * pl >= 0) by (nonlinear_arith)
        requires i >= 0 && x >= 0 && pl > 0;
    if i < x {
        assert(i * pl + leni <= x * pl) by (nonlinear_arith)
            requires i < x && leni <= pl && pl > 0;
    } else {
        assert(x * pl + lenx <= i * pl) by (nonlinear_arith)
            requires x < i && lenx <= pl && pl > 0;
    }
    assert forall|m: int| 0 <= m < leni implies #[trigger] buf2.subrange(
        i * pl,
        i * pl + leni,
    )[m] == buf1.subrange(i * pl, i * pl + leni)[m] by {
        assert(buf2[i * pl + m] == buf1[i * pl + m]);
    }
    assert(buf2.subrange(i * pl, i * pl + leni) =~= buf1.subrange(i * pl, i * pl + leni));
}

impl Partial {
    /// Replays a recovery log against a fresh store. Returns true and
    /// installs exactly the logged pieces — marking their bits, advancing
    /// the counters, and narrowing the work queue to what is still missing,
    /// in order — precisely when the whole log is acceptable. A log broken
    /// anywhere leaves the store fresh: the caller deletes the file and the
    /// download starts over.
    pub fn recover_from_log(&mut self, data: &Vec<u8>, work: &mut Queue<Piece>) -> (r: bool)
        requires
            old(self).wf(),
            old(self).received == 0,
            old(self).progress.uploaded == 0,
            forall|j: int| 0 <= j ==> !bit_set(old(self).bf.bf@, j),
            old(work)@ == old(self).descs@,
        ensures
            final(self).wf(),
            final(self).piece_length == old(self).piece_length,
            final(self).length == old(self).length,
            final(self).num_pieces == old(self).num_pieces,
            final(self).descs@ == old(self).descs@,
            final(self).progress.uploaded == 0,
            r == good_log(
                data@,
                old(self).piece_length as int,
                old(self).descs@,
                old(self).num_pieces as int,
            ),
            !r ==> {
                &&& final(self).received == 0
                &&& final(self).progress.downloaded == 0
                &&& final(self).done == false
                &&& (forall|j: int| 0 <= j ==> !bit_set(final(self).bf.bf@, j))
                &&& final(work)@ == old(work)@
            },
            r ==> {
                let pl = old(self).piece_length as int;
                let cnt = rec_count(data@, pl);
                &&& (forall|i: int|
                    0 <= i < old(self).num_pieces ==> bit_set(final(self).bf.bf@, i) == (exists|
                        k: int,
                    |
                        0 <= k < cnt && rec_idx(data@, pl, k) == i))
                &&& (forall|k: int|
                    0 <= k < cnt ==> final(self).buf@.subrange(
                        rec_idx(data@, pl, k) * pl,
                        rec_idx(data@, pl, k) * pl + old(self).descs@[rec_idx(
                            data@,
                            pl,
                            k,
                        ) as int].2,
                    ) == rec_body(data@, pl, k).subrange(
                        0,
                        old(self).descs@[rec_idx(data@, pl, k) as int].2 as int,
                    ))
                &&& final(self).received == cnt
                &&& final(self).done == (cnt == old(self).num_pieces)
                &&& final(work)@ == remaining(
                    old(self).descs@,
                    final(self).bf.bf@,
                    old(self).num_pieces as int,
                )
            },
    {
        proof {
            lemma_bytes_zero(old(self).descs@, old(self).bf.bf@, old(self).num_pieces as int);
            lemma_count_zero(old(self).bf.bf@, old(self).num_pieces as int);
        }
        let pl = self.piece_length;
        let rec: usize = pl + 4;
        if data.len() % rec != 0 {
            return false;
        }
        let n = data.len() / rec;
        proof {
            vstd::arithmetic::div_mod::lemma_fundamental_div_mod(data@.len() as int, rec as int);
        }
        assert(n * rec == data@.len()) by (nonlinear_arith)
            requires
                data@.len() as int == (rec as int) * n + (data@.len() as int) % (rec as int) && (
                data@.len() as int) % (rec as int) == 0 && rec > 0 && n == (data@.len() as int) / (
                rec as int);

        let dlen = data.len();
        let ghost gdata = data@;
        let ghost descs0 = self.descs@;
        let num = self.num_pieces;
        let mut bf = Bitfield::new(self.bf.len());
        proof {
            lemma_count_zero(bf.bf@, num as int);
            lemma_bytes_zero(descs0, bf.bf@, num as int);
        }
        let mut downloaded: usize = 0;
        let mut i: usize = 0;
        while i < n
            invariant
                self.wf(),
                self.received == 0,
                self.progress.uploaded == 0,
                self.progress.downloaded == 0,
                self.progress.left == self.length,
                self.done == false,
                self.piece_length == old(self).piece_length,
                self.length == old(self).length,
                self.num_pieces == old(self).num_pieces,
                self.descs == old(self).descs,
                self.buf@.len() == old(self).buf@.len(),
                forall|j: int| 0 <= j ==> !bit_set(self.bf.bf@, j),
                work@ == old(work)@,
                data@ == gdata,
                descs0 == self.descs@,
                pl == self.piece_length,
                rec == pl + 4,
                num == self.num_pieces,
                n == rec_count(gdata, pl as int),
                n * rec == gdata.len(),
                gdata.len() == dlen,
                0 <= i <= n,
                bf.bf@.len() == self.bf.bf@.len(),
                forall|t: int|
                    0 <= t ==> (bit_set(bf.bf@, t) == exists|k: int|
                        0 <= k < i && rec_idx(gdata, pl as int, k) == t),
                forall|k: int|
                    0 <= k < i ==> (#[trigger] rec_idx(gdata, pl as int, k) as int) < num,
                forall|k1: int, k2: int|
                    0 <= k1 < k2 < i ==> rec_idx(gdata, pl as int, k1) != rec_idx(
                        gdata,
                        pl as int,
                        k2,
                    ),
                forall|k: int|
                    0 <= k < i ==> sha1_of(
                        #[trigger] rec_body(gdata, pl as int, k).subrange(
                            0,
                            descs0[rec_idx(gdata, pl as int, k) as int].2 as int,
                        ),
                    ) == descs0[rec_idx(gdata, pl as int, k) as int].0@,
                forall|k: int|
                    0 <= k < i ==> self.buf@.subrange(
                        rec_idx(gdata, pl as int, k) * (pl as int),
                        rec_idx(gdata, pl as int, k) * (pl as int) + descs0[rec_idx(
                            gdata,
                            pl as int,
                            k,
                        ) as int].2,
                    ) == rec_body(gdata, pl as int, k).subrange(
                        0,
                        descs0[rec_idx(gdata, pl as int, k) as int].2 as int,
                    ),
                count_set(bf.bf@, num as int) == i,
                bytes_set(descs0, bf.bf@, num as int) == downloaded,
                downloaded <= self.length,
            decreases n - i,
        {
            proof {
                assert((i + 1) * rec <= n * rec && i * rec + rec == (i + 1) * rec)
                    by (nonlinear_arith)
                    requires i < n && rec > 0;
            }
            let off = i * rec;
            let idx = crate::messages::read_u32_at(data.as_slice(), off);
            proof {
                assert(idx == rec_idx(gdata, pl as int, i as int));
            }
            if idx as usize >= num {
                return false;
            }
            if bf.has(idx as usize) {
                return false;
            }
            let tl = self.descs[idx as usize].2 as usize;
            let body = slice_subrange(data.as_slice(), off + 4, off + 4 + tl);
            proof {
                assert(body@ =~= rec_body(gdata, pl as int, i as int).subrange(0, tl as int));
            }
            let d = self.descs[idx as usize];
            if !d.verify(body) {
                return false;
            }
            proof {
                assert(idx * (pl as int) + tl <= self.length);
            }
            let start = idx as usize * pl;
            let ghost prev_buf = self.buf@;
            copy_into(&mut self.buf, start, body);
            let ghost prev_bf = bf.bf@;
            bf.add(idx as usize);
            proof {
                lemma_count_after_set(descs0, prev_bf, bf.bf@, idx as int, num as int);
                lemma_bytes_set_le(descs0, bf.bf@, num as int);
                // earlier records' regions survive this confined write
                assert forall|k: int| 0 <= k < i implies self.buf@.subrange(
                    rec_idx(gdata, pl as int, k) * (pl as int),
                    rec_idx(gdata, pl as int, k) * (pl as int) + descs0[rec_idx(
                        gdata,
                        pl as int,
                        k,
                    ) as int].2,
                ) == rec_body(gdata, pl as int, k).subrange(
                    0,
                    descs0[rec_idx(gdata, pl as int, k) as int].2 as int,
                ) by {
                    let kidx = rec_idx(gdata, pl as int, k) as int;
                    lemma_other_region(
                        prev_buf,
                        self.buf@,
                        pl as int,
                        descs0[kidx].2 as int,
                        tl as int,
                        kidx,
                        idx as int,
                    );
                }
            }
            downloaded = downloaded + tl;
            i += 1;
        }

        // the whole log checked out: install it
        self.bf = bf;
        self.received = n;
        self.progress.downloaded = downloaded;
        self.progress.left = self.length - downloaded;
        self.done = n == num;

        let mut newq: VecDeque<Piece> = VecDeque::new();
        let mut t: usize = 0;
        while t < num
            invariant
                self.wf(),
                num == self.num_pieces,
                descs0 == self.descs@,
                0 <= t <= num,
                newq@ == remaining(descs0, self.bf.bf@, t as int),
            decreases num - t,
        {
            if !self.bf.has(t) {
                newq.push_back(self.descs[t]);
                proof {
                    assert(newq@ =~= remaining(descs0, self.bf.bf@, t + 1));
                }
            } else {
                proof {
                    assert(newq@ =~= remaining(descs0, self.bf.bf@, t + 1));
                }
            }
            t += 1;
        }
        work.replace(newq);
        true
    }

    /// Adopts an already-complete payload, as when every destination file
    /// was found on disk: true exactly when all pieces verify, and then the
    /// store is done, every bit set, nothing left to download and an empty
    /// work queue. On false nothing changes.
    pub fn seed(&mut self, data: Vec<u8>, work: &mut Queue<Piece>) -> (r: bool)
        requires
            old(self).wf(),
            data@.len() == old(self).length,
            old(self).received == 0,
            forall|j: int| 0 <= j ==> !bit_set(old(self).bf.bf@, j),
            old(work)@ == old(self).descs@,
        ensures
            final(self).wf(),
            final(self).piece_length == old(self).piece_length,
            final(self).length == old(self).length,
            final(self).num_pieces == old(self).num_pieces,
            final(self).descs@ == old(self).descs@,
            final(self).progress.uploaded == old(self).progress.uploaded,
            r == (forall|i: int|
                0 <= i < old(self).num_pieces ==> sha1_of(
                    #[trigger] data@.subrange(
                        i * old(self).piece_length,
                        i * old(self).piece_length + old(self).descs@[i].2,
                    ),
                ) == old(self).descs@[i].0@),
            !r ==> *final(self) == *old(self) && final(work)@ == old(work)@,
            r ==> {
                &&& final(self).done
                &&& final(self).buf@ == data@
                &&& final(self).received == old(self).num_pieces
                &&& final(self).progress.left == 0
                &&& (forall|i: int|
                    0 <= i < old(self).num_pieces ==> bit_set(final(self).bf.bf@, i))
                &&& final(work)@.len() == 0
            },
    {
        let pl = self.piece_length;
        let num = self.num_pieces;
        let mut i: usize = 0;
        while i < num
            invariant
                self.wf(),
                *self == *old(self),
                pl == self.piece_length,
                num == self.num_pieces,
                data@.len() == self.length,
                0 <= i <= num,
                forall|t: int|
                    0 <= t < i ==> sha1_of(
                        #[trigger] data@.subrange(
                            t * (pl as int),
                            t * (pl as int) + self.descs@[t].2,
                        ),
                    ) == self.descs@[t].0@,
            decreases num - i,
        {
            let tl = self.descs[i].2 as usize;
            proof {
                assert(i * (pl as int) + tl <= self.length);
            }
            let start = i * pl;
            let region = slice_subrange(data.as_slice(), start, start + tl);
            let d = self.descs[i];
            if !d.verify(region) {
                return false;
            }
            i += 1;
        }

        let ghost descs0 = self.descs@;
        let mut bf = Bitfield::new(self.bf.len());
        let mut t: usize = 0;
        while t < num
            invariant
                self.wf(),
                *self == *old(self),
                num == self.num_pieces,
                bf.bf@.len() == self.bf.bf@.len(),
                0 <= t <= num,
                forall|j: int| 0 <= j < t ==> bit_set(bf.bf@, j),
                forall|j: int| t <= j ==> !bit_set(bf.bf@, j),
            decreases num - t,
        {
            proof {
                assert((t as int) < 8 * bf.bf@.len());
            }
            bf.add(t);
            t += 1;
        }
        proof {
            lemma_count_full(descs0, bf.bf@, num as int);
        }
        self.buf = data;
        self.bf = bf;
        self.received = num;
        self.progress.downloaded = self.length;
        self.progress.left = 0;
        self.done = true;
        work.clear();
        true
    }
}

/// The first `n` byte strings of `ss`, concatenated in order.
pub open spec fn concat_all(ss: Seq<Seq<u8>>, n: int) -> Seq<u8>
    decreases n,
{
    if n <= 0 {
        Seq::empty()
    } else {
        concat_all(ss, n - 1) + ss[n - 1]
    }
}

/// The first `n` piece regions of the buffer, concatenated in index order.
pub open spec fn pieces_concat(buf: Seq<u8>, descs: Seq<Piece>, pl: int, n: int) -> Seq<u8>
    decreases n,
{
    if n <= 0 {
        Seq::empty()
    } else {
        pieces_concat(buf, descs, pl, n - 1) + buf.subrange(
            (n - 1) * pl,
            (n - 1) * pl + descs[n - 1].2,
        )
    }
}

/// File-length prefix sums grow with the prefix and start at zero.
proof fn lemma_sum_files_mono(files: Seq<crate::torrents::FileInfo>, i: int, j: int)
    requires
        0 <= i <= j,
    ensures
        0 <= crate::torrents::sum_files(files, i) <= crate::torrents::sum_files(files, j),
    decreases j,
{
    if j > 0 && i < j {
        lemma_sum_files_mono(files, i, j - 1);
    } else if j > 0 {
        lemma_sum_files_mono(files, 0, j - 1);
    }
}

/// Piece-length prefix sums grow with the prefix and start at zero.
proof fn lemma_sum_pieces_mono(descs: Seq<Piece>, i: int, j: int)
    requires
        0 <= i <= j,
    ensures
        0 <= sum_pieces(descs, i) <= sum_pieces(descs, j),
    decreases j,
{
    if j > 0 && i < j {
        lemma_sum_pieces_mono(descs, i, j - 1);
    } else if j > 0 {
        lemma_sum_pieces_mono(descs, 0, j - 1);
    }
}

/// Cuts the completed buffer into one byte vector per declared file, each
/// file's bytes starting where the previous file's ended.
pub fn split_output(buf: &Vec<u8>, files: &Vec<crate::torrents::FileInfo>) -> (r: Vec<Vec<u8>>)
    requires
        crate::torrents::sum_files(files@, files@.len() as int) == buf@.len(),
    ensures
        r@.len() == files@.len(),
        forall|i: int|
            0 <= i < files@.len() ==> (#[trigger] r@[i])@ == buf@.subrange(
                crate::torrents::sum_files(files@, i),
                crate::torrents::sum_files(files@, i) + files@[i].length,
            ),
{
    let mut r: Vec<Vec<u8>> = Vec::new();
    let mut off: usize = 0;
    let n = files.len();
    let buflen = buf.len();
    let mut i: usize = 0;
    while i < n
        invariant
            n == files@.len(),
            buflen == buf@.len(),
            0 <= i <= n,
            off == crate::torrents::sum_files(files@, i as int),
            crate::torrents::sum_files(files@, n as int) == buf@.len(),
            r@.len() == i,
            forall|t: int|
                0 <= t < i ==> (#[trigger] r@[t])@ == buf@.subrange(
                    crate::torrents::sum_files(files@, t),
                    crate::torrents::sum_files(files@, t) + files@[t].length,
                ),
        decreases n - i,
    {
        proof {
            lemma_sum_files_mono(files@, i + 1, n as int);
        }
        let len = files[i].length;
        let piece = slice_to_vec(slice_subrange(buf.as_slice(), off, off + len));
        r.push(piece);
        off = off + len;
        i += 1;
    }
    r
}

/// Contiguous slices laid head to tail concatenate back to the prefix
/// they cover.
proof fn lemma_concat_files(
    buf: Seq<u8>,
    files: Seq<crate::torrents::FileInfo>,
    outs: Seq<Seq<u8>>,
    i: int,
)
    requires
        0 <= i <= files.len(),
        outs.len() == files.len(),
        crate::torrents::sum_files(files, files.len() as int) <= buf.len(),
        forall|t: int|
            0 <= t < files.len() ==> #[trigger] outs[t] == buf.subrange(
                crate::torrents::sum_files(files, t),
                crate::torrents::sum_files(files, t) + files[t].length,
            ),
    ensures
        concat_all(outs, i) == buf.subrange(0, crate::torrents::sum_files(files, i)),
    decreases i,
{
    lemma_sum_files_mono(files, i, files.len() as int);
    if i > 0 {
        lemma_concat_files(buf, files, outs, i - 1);
        lemma_sum_files_mono(files, i - 1, i);
        assert(concat_all(outs, i) =~= buf.subrange(0, crate::torrents::sum_files(files, i)));
    } else {
        assert(concat_all(outs, 0) =~= buf.subrange(0, 0));
    }
}

/// Piece regions laid head to tail concatenate back to the prefix they
/// cover: each region starts at its index times the piece length, which
/// for canonical descriptors is exactly the sum of the earlier lengths.
proof fn lemma_concat_pieces(buf: Seq<u8>, descs: Seq<Piece>, pl: int, num: int, i: int)
    requires
        0 <= i <= num,
        num >= 1,
        pl > 0,
        descs.len() == num,
        sum_pieces(descs, num) <= buf.len(),
        forall|j: int| 0 <= j < num ==> (#[trigger] descs[j]).2 <= pl,
        forall|j: int| 0 <= j <= num - 1 ==> sum_pieces(descs, j) == j * pl,
    ensures
        pieces_concat(buf, descs, pl, i) == buf.subrange(0, sum_pieces(descs, i)),
    decreases i,
{
    lemma_sum_pieces_mono(descs, i, num);
    if i > 0 {
        lemma_concat_pieces(buf, descs, pl, num, i - 1);
        lemma_sum_pieces_mono(descs, i - 1, i);
        assert(sum_pieces(descs, i - 1) == (i - 1) * pl);
        assert(pieces_concat(buf, descs, pl, i) =~= buf.subrange(0, sum_pieces(descs, i)));
    } else {
        assert(pieces_concat(buf, descs, pl, 0) =~= buf.subrange(0, 0));
    }
}

/// Of a completed store, the produced file contents, concatenated in
/// declared order, equal the concatenation of the verified pieces — and
/// every piece region hashes to its descriptor.
pub proof fn lemma_output_matches_pieces(
    p: Partial,
    files: Seq<crate::torrents::FileInfo>,
    outs: Seq<Seq<u8>>,
)
    requires
        p.wf(),
        p.done,
        crate::torrents::sum_files(files, files.len() as int) == p.length,
        outs.len() == files.len(),
        forall|t: int|
            0 <= t < files.len() ==> #[trigger] outs[t] == p.buf@.subrange(
                crate::torrents::sum_files(files, t),
                crate::torrents::sum_files(files, t) + files[t].length,
            ),
    ensures
        concat_all(outs, outs.len() as int) == pieces_concat(
            p.buf@,
            p.descs@,
            p.piece_length as int,
            p.num_pieces as int,
        ),
        forall|k: int|
            0 <= k < p.num_pieces ==> sha1_of(
                #[trigger] p.buf@.subrange(
                    k * (p.piece_length as int),
                    k * (p.piece_length as int) + p.descs@[k].2,
                ),
            ) == p.descs@[k].0@,
{
    let pl = p.piece_length as int;
    let num = p.num_pieces as int;
    lemma_count_set_bounds(p.bf.bf@, num);
    assert(forall|i: int| 0 <= i < num ==> bit_set(p.bf.bf@, i));
    assert forall|j: int| 0 <= j <= num - 1 implies sum_pieces(p.descs@, j) == j * pl by {
        lemma_sum_prefix(p.descs@, pl, num, p.length as int, j);
    }
    lemma_concat_files(p.buf@, files, outs, files.len() as int);
    lemma_concat_pieces(p.buf@, p.descs@, pl, num, num);
}

/// No bit set: zero count, zero bytes.
proof fn lemma_count_zero(s: Seq<u8>, n: int)
    requires
        forall|j: int| 0 <= j ==> !bit_set(s, j),
    ensures
        count_set(s, n) == 0,
    decreases n,
{
    if n > 0 {
        lemma_count_zero(s, n - 1);
    }
}

/// No bit set: zero byte total.
proof fn lemma_bytes_zero(descs: Seq<Piece>, s: Seq<u8>, n: int)
    requires
        forall|j: int| 0 <= j ==> !bit_set(s, j),
    ensures
        bytes_set(descs, s, n) == 0,
    decreases n,
{
    if n > 0 {
        lemma_bytes_zero(descs, s, n - 1);
    }
}

} // verus!
