use vstd::prelude::*;
use crate::messages::u16_of;

verus! {

/// One peer address from the tracker's compact list: four IPv4 octets and
/// a port. Formatting as `a.b.c.d:port` text is the caller's affair.
#[derive(PartialEq, Eq, Structural, Debug, Clone, Copy)]
pub struct PeerAddr {
    pub a: u8,
    pub b: u8,
    pub c: u8,
    pub d: u8,
    pub port: u16,
}

/// Decodes the tracker's compact peer list: six bytes per peer, four
/// octets then a big-endian port. Any length that is not a multiple of
/// six fails the whole list.
pub fn parse_peerlist(buf: &Vec<u8>) -> (r: Option<Vec<PeerAddr>>)
    ensures
        r.is_some() == (buf@.len() % 6 == 0),
        r.is_some() ==> {
            let ps = r.unwrap()@;
            &&& ps.len() * 6 == buf@.len()
            &&& (forall|k: int|
                0 <= k < ps.len() ==> {
                    &&& (#[trigger] ps[k]).a == buf@[6 * k]
                    &&& ps[k].b == buf@[6 * k + 1]
                    &&& ps[k].c == buf@[6 * k + 2]
                    &&& ps[k].d == buf@[6 * k + 3]
                    &&& ps[k].port == u16_of(buf@[6 * k + 4], buf@[6 * k + 5])
                })
        },
{
    if buf.len() % 6 != 0 {
        return None;
    }
    let n = buf.len() / 6;
    proof {
        vstd::arithmetic::div_mod::lemma_fundamental_div_mod(buf@.len() as int, 6);
    }
    assert(n * 6 == buf@.len()) by (nonlinear_arith)
        requires
            buf@.len() as int == 6 * n + (buf@.len() as int) % 6 && (buf@.len() as int) % 6 == 0
                && n == (buf@.len() as int) / 6;
    let mut res: Vec<PeerAddr> = Vec::new();
    let blen = buf.len();
    let mut k: usize = 0;
    while k < n
        invariant
            n * 6 == buf@.len(),
            blen == buf@.len(),
            0 <= k <= n,
            res@.len() == k,
            forall|t: int|
                0 <= t < k ==> {
                    &&& (#[trigger] res@[t]).a == buf@[6 * t]
                    &&& res@[t].b == buf@[6 * t + 1]
                    &&& res@[t].c == buf@[6 * t + 2]
                    &&& res@[t].d == buf@[6 * t + 3]
                    &&& res@[t].port == u16_of(buf@[6 * t + 4], buf@[6 * t + 5])
                },
        decreases n - k,
    {
        proof {
            assert((k + 1) * 6 <= n * 6 && 6 * k == k * 6 && k * 6 + 6 == (k + 1) * 6)
                by (nonlinear_arith)
                requires k < n;
        }
        let off = k * 6;
        let port = crate::messages::read_u16_at(buf.as_slice(), off + 4);
        res.push(
            PeerAddr { a: buf[off], b: buf[off + 1], c: buf[off + 2], d: buf[off + 3], port },
        );
        k += 1;
    }
    Some(res)
}

} // verus!
