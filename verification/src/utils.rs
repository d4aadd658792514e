use vstd::prelude::*;
use crate::consts::BLOCKSIZE;

verus! {

/// Length of the next block to request: a full block, or whatever remains
/// of the piece when less than a block is left.
pub fn calc_request(start: u32, len: u32) -> (r: u32)
    requires
        start <= len,
    ensures
        r == if len - start < BLOCKSIZE { len - start } else { BLOCKSIZE as int },
{
    let mut l = BLOCKSIZE;
    if BLOCKSIZE as u64 + start as u64 > len as u64 {
        l = len - start;
    }
    l
}

/// A fresh vector with the same bytes.
pub fn clone_bytes(v: &Vec<u8>) -> (r: Vec<u8>)
    ensures
        r@ == v@,
{
    let r = v.clone();
    proof {
        assert forall|i: int| 0 <= i < v@.len() implies r@[i] == v@[i] by {
            assert(vstd::pervasive::cloned::<u8>(v@[i], r@[i]));
        }
        assert(r@ =~= v@);
    }
    r
}

/// A vector of `n` zero bytes.
pub fn zero_vec(n: usize) -> (r: Vec<u8>)
    ensures
        r@.len() == n,
        forall|j: int| 0 <= j < n ==> r@[j] == 0u8,
{
    let mut v: Vec<u8> = Vec::new();
    let mut i: usize = 0;
    while i < n
        invariant
            0 <= i <= n,
            v@.len() == i,
            forall|k: int| 0 <= k < i ==> v@[k] == 0u8,
        decreases n - i,
    {
        v.push(0u8);
        i += 1;
    }
    v
}

/// Overwrites `buf[start .. start + data.len()]` with `data`, leaving
/// every byte outside that range as it was.
pub fn copy_into(buf: &mut Vec<u8>, start: usize, data: &[u8])
    requires
        start + data@.len() <= old(buf)@.len(),
    ensures
        final(buf)@.len() == old(buf)@.len(),
        final(buf)@.subrange(start as int, start + data@.len()) == data@,
        forall|j: int|
            0 <= j < old(buf)@.len() && !(start <= j < start + data@.len()) ==> final(buf)@[j]
                == old(buf)@[j],
{
    let n = data.len();
    let buflen = buf.len();
    let mut k: usize = 0;
    while k < n
        invariant
            n == data@.len(),
            start + n <= buf@.len(),
            buflen == buf@.len(),
            buf@.len() == old(buf)@.len(),
            0 <= k <= n,
            forall|j: int| 0 <= j < k ==> buf@[start + j] == data@[j],
            forall|j: int|
                0 <= j < old(buf)@.len() && !(start <= j < start + n) ==> buf@[j] == old(buf)@[j],
        decreases n - k,
    {
        buf.set(start + k, data[k]);
        k += 1;
    }
    proof {
        assert(buf@.subrange(start as int, start + data@.len()) =~= data@);
    }
}

/// True exactly when the two byte slices hold the same bytes.
pub fn bytes_eq(a: &[u8], b: &[u8]) -> (r: bool)
    ensures
        r == (a@ == b@),
{
    if a.len() != b.len() {
        assert(a@ != b@) by {
            assert(a@.len() != b@.len());
        }
        return false;
    }
    let n = a.len();
    let mut i: usize = 0;
    while i < n
        invariant
            n == a@.len() == b@.len(),
            0 <= i <= n,
            forall|j: int| 0 <= j < i ==> a@[j] == b@[j],
        decreases n - i,
    {
        if a[i] != b[i] {
            return false;
        }
        i += 1;
    }
    assert(a@ =~= b@);
    true
}

} // verus!
