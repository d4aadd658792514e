use vstd::prelude::*;

verus! {

/// Packed bit vector: one bit per piece, most significant bit first within
/// each byte, so bit `x` lives in byte `x / 8` at position `7 - x % 8`.
#[derive(Debug, Clone)]
pub struct Bitfield {
    pub bf: Vec<u8>,
}

/// The bit for index `x` in the packed bytes `s`; indices at or past
/// `8 * s.len()` read as clear.
pub open spec fn bit_set(s: Seq<u8>, x: int) -> bool {
    &&& 0 <= x < s.len() * 8
    &&& (s[x / 8] >> ((7 - x % 8) as u8)) & 1u8 == 1u8
}

proof fn lemma_or_bit(b: u8, i: u8, j: u8)
    requires
        i < 8,
        j < 8,
    ensures
        ((b | (1u8 << i)) >> j) & 1u8 == if i == j { 1u8 } else { (b >> j) & 1u8 },
{
    assert(i < 8 && j < 8 ==> ((b | (1u8 << i)) >> j) & 1u8 == if i == j {
        1u8
    } else {
        (b >> j) & 1u8
    }) by (bit_vector);
}

/// A byte index below the length pins the quotient: `x / 8 < len` exactly
/// when `x < len * 8`.
proof fn lemma_div8_bound(x: int, len: int)
    requires
        0 <= x,
        0 <= len,
    ensures
        (x / 8 < len) <==> (x < len * 8),
{
    assert((x / 8 < len) <==> (x < len * 8)) by (nonlinear_arith)
        requires 0 <= x && 0 <= len;
}

impl Bitfield {
    /// Returns true if the bit at index `x` is set; out-of-range indices
    /// are reported clear rather than failing.
    pub fn has(&self, x: usize) -> (r: bool)
        ensures
            r == bit_set(self.bf@, x as int),
    {
        if self.bf.len() == 0 || x / 8 >= self.bf.len() {
            proof {
                lemma_div8_bound(x as int, self.bf@.len() as int);
            }
            return false;
        }
        proof {
            lemma_div8_bound(x as int, self.bf@.len() as int);
        }
        let i = x / 8;
        let j = (7 - x % 8) as u8;
        (self.bf[i] >> j) & 1 == 1
    }

    /// Sets the bit at index `x` to 1; every other bit keeps its value.
    /// Out-of-range indices leave the bitfield unchanged.
    pub fn add(&mut self, x: usize)
        ensures
            final(self).bf@.len() == old(self).bf@.len(),
            x < old(self).bf@.len() * 8 ==> bit_set(final(self).bf@, x as int),
            forall|j: int|
                0 <= j && j != x ==> bit_set(final(self).bf@, j) == bit_set(old(self).bf@, j),
            x >= old(self).bf@.len() * 8 ==> final(self).bf@ == old(self).bf@,
    {
        if self.bf.len() == 0 || x / 8 >= self.bf.len() {
            proof {
                lemma_div8_bound(x as int, self.bf@.len() as int);
            }
            return;
        }
        proof {
            lemma_div8_bound(x as int, self.bf@.len() as int);
        }
        let i = x / 8;
        let j = (7 - x % 8) as u8;
        let b = self.bf[i];
        self.bf.set(i, b | (1u8 << j));
        proof {
            self.lemma_add_effect(old(self).bf@, x as int);
        }
    }

    proof fn lemma_add_effect(&self, prev: Seq<u8>, x: int)
        requires
            0 <= x < prev.len() * 8,
            self.bf@ == prev.update(x / 8, prev[x / 8] | (1u8 << ((7 - x % 8) as u8))),
        ensures
            bit_set(self.bf@, x),
            forall|j: int| 0 <= j && j != x ==> bit_set(self.bf@, j) == bit_set(prev, j),
    {
        let s = self.bf@;
        lemma_div8_bound(x, prev.len() as int);
        lemma_or_bit(prev[x / 8], (7 - x % 8) as u8, (7 - x % 8) as u8);
        assert(bit_set(s, x));
        assert forall|j: int| 0 <= j && j != x implies bit_set(s, j) == bit_set(prev, j) by {
            if j < prev.len() * 8 {
                lemma_div8_bound(j, prev.len() as int);
                if j / 8 == x / 8 {
                    assert(j % 8 != x % 8) by {
                        assert(j == 8 * (j / 8) + j % 8);
                        assert(x == 8 * (x / 8) + x % 8);
                    }
                    lemma_or_bit(prev[x / 8], (7 - x % 8) as u8, (7 - j % 8) as u8);
                } else {
                    assert(s[j / 8] == prev[j / 8]);
                }
            }
        }
    }

    /// Number of bytes in the packed vector.
    pub fn len(&self) -> (r: usize)
        ensures
            r == self.bf@.len(),
    {
        self.bf.len()
    }

    /// Wraps raw bytes received off the wire.
    pub fn from(bf: Vec<u8>) -> (r: Bitfield)
        ensures
            r.bf@ == bf@,
    {
        Bitfield { bf }
    }

    /// An all-clear bitfield of `n` bytes.
    pub fn new(n: usize) -> (r: Bitfield)
        ensures
            r.bf@.len() == n,
            forall|j: int| 0 <= j ==> !bit_set(r.bf@, j),
    {
        let mut v: Vec<u8> = Vec::new();
        let mut i: usize = 0;
        while i < n
            invariant
                0 <= i <= n,
                v@.len() == i,
                forall|k: int| 0 <= k < i ==> v@[k] == 0u8,
            decreases n - i,
        {
            v.push(0u8);
            i += 1;
        }
        proof {
            assert forall|j: int| 0 <= j implies !bit_set(v@, j) by {
                if j < v@.len() * 8 {
                    lemma_div8_bound(j, v@.len() as int);
                    let sh = (7 - j % 8) as u8;
                    assert(sh < 8 ==> (0u8 >> sh) & 1u8 == 0u8) by (bit_vector);
                }
            }
        }
        Bitfield { bf: v }
    }

    /// An all-set bitfield of `n` bytes, as a seeder advertises.
    pub fn full(n: usize) -> (r: Bitfield)
        ensures
            r.bf@.len() == n,
            forall|j: int| 0 <= j < n * 8 ==> bit_set(r.bf@, j),
    {
        let mut v: Vec<u8> = Vec::new();
        let mut i: usize = 0;
        while i < n
            invariant
                0 <= i <= n,
                v@.len() == i,
                forall|k: int| 0 <= k < i ==> v@[k] == 255u8,
            decreases n - i,
        {
            v.push(255u8);
            i += 1;
        }
        proof {
            assert forall|j: int| 0 <= j < n * 8 implies bit_set(v@, j) by {
                lemma_div8_bound(j, n as int);
                let sh = (7 - j % 8) as u8;
                assert(sh < 8 ==> (255u8 >> sh) & 1u8 == 1u8) by (bit_vector);
            }
        }
        Bitfield { bf: v }
    }
}

} // verus!
