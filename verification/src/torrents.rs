use vstd::prelude::*;
use std::collections::VecDeque;
use crate::utils::bytes_eq;

verus! {

/// The SHA-1 digest of a byte sequence, as the outside hasher computes it.
pub uninterp spec fn sha1_of(data: Seq<u8>) -> Seq<u8>;

/// Relies on sha1::Sha1 through digest's `Digest::digest`: a one-shot
/// SHA-1, a 20-byte digest that depends on the input bytes alone.
#[verifier::external_body]
fn sha1_digest(data: &[u8]) -> (r: Vec<u8>)
    ensures
        r@ == sha1_of(data@),
        r@.len() == 20,
{
    <sha1::Sha1 as sha1::Digest>::digest(data).to_vec()
}

/// One file of the torrent: its byte length and its path segments in order.
#[derive(Debug, Clone)]
pub struct FileInfo {
    pub length: usize,
    pub path: Vec<String>,
}

/// One piece descriptor: SHA-1 hash, index, byte length.
#[derive(PartialEq, Debug, Clone, Copy)]
pub struct Piece(pub [u8; 20], pub u32, pub u32);

impl Piece {
    /// True exactly when `buf` is this piece's full payload: the declared
    /// byte length, hashing to the declared SHA-1.
    pub fn verify(&self, buf: &[u8]) -> (r: bool)
        ensures
            r == (buf@.len() == self.2 && sha1_of(buf@) == self.0@),
    {
        if buf.len() != self.2 as usize {
            return false;
        }
        let digest = sha1_digest(buf);
        bytes_eq(digest.as_slice(), self.0.as_slice())
    }
}

/// SHA-1 of the bencoded info dictionary: the torrent's identity on the wire.
pub fn info_hash_of(info: &[u8]) -> (r: Vec<u8>)
    ensures
        r@ == sha1_of(info@),
        r@.len() == 20,
{
    sha1_digest(info)
}

/// Sum of the byte lengths of the first `i` files.
pub open spec fn sum_files(files: Seq<FileInfo>, i: int) -> int
    decreases i,
{
    if i <= 0 {
        0
    } else {
        sum_files(files, i - 1) + files[i - 1].length
    }
}

/// The immutable descriptor of the torrent being exchanged: identity,
/// geometry and output layout. Piece hashes live in the work queue's
/// descriptors, split off the metainfo blob by `split_hash`.
pub struct Torrent {
    pub name: String,
    pub announce: String,
    pub piece_length: u32,
    pub info_hash: Vec<u8>,
    pub peer_id: Vec<u8>,
    pub files: Vec<FileInfo>,
    pub length: usize,
}

impl Torrent {
    /// Number of pieces: total length over piece length, rounding up.
    pub open spec fn spec_num_pieces(self) -> int {
        (self.length - 1) / (self.piece_length as int) + 1
    }

    /// A usable descriptor: positive geometry, 20-byte identifiers, and
    /// file lengths that add up to the total.
    pub open spec fn wf(self) -> bool {
        &&& self.piece_length > 0
        &&& self.length > 0
        &&& self.info_hash@.len() == 20
        &&& self.peer_id@.len() == 20
        &&& sum_files(self.files@, self.files@.len() as int) == self.length
    }

    /// Number of pieces, computed.
    pub fn num_pieces(&self) -> (r: usize)
        requires
            self.wf(),
        ensures
            r == self.spec_num_pieces(),
    {
        (self.length - 1) / (self.piece_length as usize) + 1
    }
}

/// How many pieces a hash blob of `n` bytes describes: one per 20 bytes,
/// rounding up.
pub open spec fn num_pieces_of(n: int) -> int {
    (n - 1) / 20 + 1
}

/// The canonical byte length of piece `i`: `piece_length` throughout,
/// except a shorter final piece when the total is not a multiple.
pub open spec fn piece_len_at(i: int, num: int, pl: int, length: int) -> int {
    if i == num - 1 && length % pl != 0 {
        length % pl
    } else {
        pl
    }
}

/// Byte `k` of piece `i`'s declared hash: read from the blob, zero past its end.
pub open spec fn hash_byte_at(pieces: Seq<u8>, i: int, k: int) -> u8 {
    if 20 * i + k < pieces.len() {
        pieces[20 * i + k]
    } else {
        0u8
    }
}

/// Splits the metainfo's concatenated hash blob into per-piece descriptors,
/// indexed in order, each carrying its canonical byte length.
pub fn split_hash(pieces: Vec<u8>, piece_length: usize, length: usize) -> (r: VecDeque<Piece>)
    requires
        pieces@.len() > 0,
        pieces@.len() <= usize::MAX - 20,
        piece_length > 0,
        piece_length <= u32::MAX,
        num_pieces_of(pieces@.len() as int) <= u32::MAX,
        num_pieces_of(pieces@.len() as int) * piece_length >= length,
        num_pieces_of(pieces@.len() as int) * piece_length < length + piece_length,
    ensures
        r@.len() == num_pieces_of(pieces@.len() as int),
        forall|i: int| 0 <= i < r@.len() ==> {
            &&& (#[trigger] r@[i]).1 == i
            &&& r@[i].2 == piece_len_at(i, r@.len() as int, piece_length as int, length as int)
            &&& forall|k: int| 0 <= k < 20 ==> r@[i].0@[k] == hash_byte_at(pieces@, i, k)
        },
{
    let num_pieces: usize = ((pieces.len() - 1) / 20) + 1;
    let mut res: VecDeque<Piece> = VecDeque::with_capacity(num_pieces);

    let mut i: usize = 0;
    while i < num_pieces
        invariant
            num_pieces == num_pieces_of(pieces@.len() as int),
            num_pieces <= u32::MAX,
            piece_length > 0,
            piece_length <= u32::MAX,
            num_pieces * piece_length >= length,
            num_pieces * piece_length < length + piece_length,
            0 <= i <= num_pieces,
            pieces@.len() > 0,
            pieces@.len() <= usize::MAX - 20,
            res@.len() == i,
            forall|t: int| 0 <= t < i ==> {
                &&& (#[trigger] res@[t]).1 == t
                &&& res@[t].2 == piece_len_at(t, num_pieces as int, piece_length as int,
                    length as int)
                &&& forall|k: int| 0 <= k < 20 ==> res@[t].0@[k] == hash_byte_at(pieces@, t, k)
            },
        decreases num_pieces - i,
    {
        let mut new = [0u8; 20];
        let mut k: usize = 0;
        while k < 20
            invariant
                0 <= k <= 20,
                i < num_pieces <= u32::MAX,
                num_pieces == num_pieces_of(pieces@.len() as int),
                pieces@.len() > 0,
                pieces@.len() <= usize::MAX - 20,
                new@.len() == 20,
                forall|t: int| 0 <= t < k ==> new@[t] == hash_byte_at(pieces@, i as int, t),
                forall|t: int| k <= t < 20 ==> new@[t] == 0u8,
            decreases 20 - k,
        {
            proof {
                let n = pieces@.len() as int;
                vstd::arithmetic::div_mod::lemma_fundamental_div_mod(n - 1, 20);
                assert(i <= (n - 1) / 20);
                assert(20 * i <= 20 * ((n - 1) / 20)) by (nonlinear_arith)
                    requires i <= (n - 1) / 20;
                assert(20 * i <= n - 1);
            }
            let j = 20 * i;
            if j + k < pieces.len() {
                new[k] = pieces[j + k];
            }
            k += 1;
        }

        if i == num_pieces - 1 && length % piece_length != 0 {
            res.push_back(Piece(new, i as u32, (length % piece_length) as u32));
        } else {
            res.push_back(Piece(new, i as u32, piece_length as u32));
        }
        i += 1;
    }
    res
}

} // verus!
