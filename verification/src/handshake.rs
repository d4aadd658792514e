use vstd::prelude::*;
use vstd::slice::{slice_subrange, slice_to_vec};
use crate::torrents::Torrent;
use crate::utils::{bytes_eq, clone_bytes};

verus! {

/// The 68-byte connection preamble: protocol marker, reserved bytes,
/// info hash, peer id.
pub struct Handshake {
    pub info_hash: Vec<u8>,
    pub peer_id: Vec<u8>,
}

/// The 19 bytes of the literal protocol string.
pub open spec fn spec_protocol() -> Seq<u8> {
    seq![
        66u8, 105u8, 116u8, 84u8, 111u8, 114u8, 114u8, 101u8, 110u8, 116u8, 32u8, 112u8, 114u8,
        111u8, 116u8, 111u8, 99u8, 111u8, 108u8,
    ]
}

/// The full wire image of a handshake with the given hash and id.
pub open spec fn spec_handshake_bytes(info_hash: Seq<u8>, peer_id: Seq<u8>) -> Seq<u8> {
    seq![19u8] + spec_protocol() + Seq::new(8, |i: int| 0u8) + info_hash + peer_id
}

/// A byte string the deserializer accepts: 68 bytes, leading 19, exact
/// protocol string. Reserved bytes are not inspected.
pub open spec fn valid_handshake(s: Seq<u8>) -> bool {
    &&& s.len() == 68
    &&& s[0] == 19
    &&& s.subrange(1, 20) == spec_protocol()
}

/// The protocol string as bytes.
fn protocol_bytes() -> (r: Vec<u8>)
    ensures
        r@ == spec_protocol(),
{
    let mut v: Vec<u8> = Vec::new();
    v.push(66);
    v.push(105);
    v.push(116);
    v.push(84);
    v.push(111);
    v.push(114);
    v.push(114);
    v.push(101);
    v.push(110);
    v.push(116);
    v.push(32);
    v.push(112);
    v.push(114);
    v.push(111);
    v.push(116);
    v.push(111);
    v.push(99);
    v.push(111);
    v.push(108);
    proof {
        assert(v@ =~= spec_protocol());
    }
    v
}

impl Handshake {
    /// The handshake this torrent sends: its info hash and our peer id.
    pub fn from(t: &Torrent) -> (r: Handshake)
        ensures
            r.info_hash@ == t.info_hash@,
            r.peer_id@ == t.peer_id@,
    {
        Handshake { info_hash: clone_bytes(&t.info_hash), peer_id: clone_bytes(&t.peer_id) }
    }

    /// Serializes to the fixed 68-byte preamble.
    pub fn serialize(&self) -> (r: Vec<u8>)
        requires
            self.info_hash@.len() == 20,
            self.peer_id@.len() == 20,
        ensures
            r@ == spec_handshake_bytes(self.info_hash@, self.peer_id@),
            r@.len() == 68,
    {
        let mut res: Vec<u8> = Vec::new();
        res.push(19);
        let mut proto = protocol_bytes();
        res.append(&mut proto);
        let mut i: usize = 0;
        while i < 8
            invariant
                0 <= i <= 8,
                res@ == seq![19u8] + spec_protocol() + Seq::new(i as nat, |k: int| 0u8),
            decreases 8 - i,
        {
            res.push(0);
            proof {
                assert(res@ =~= seq![19u8] + spec_protocol() + Seq::new(
                    (i + 1) as nat,
                    |k: int| 0u8,
                ));
            }
            i += 1;
        }
        let mut ih = clone_bytes(&self.info_hash);
        res.append(&mut ih);
        let mut pid = clone_bytes(&self.peer_id);
        res.append(&mut pid);
        proof {
            assert(res@ =~= spec_handshake_bytes(self.info_hash@, self.peer_id@));
        }
        res
    }

    /// Decodes a received preamble: `Some` exactly when the length, the
    /// marker byte and the protocol string are right, and then the two
    /// 20-byte fields are handed back as read.
    pub fn deserialize(msg: Vec<u8>) -> (r: Option<Handshake>)
        ensures
            r.is_some() == valid_handshake(msg@),
            r.is_some() ==> {
                &&& r.unwrap().info_hash@ == msg@.subrange(28, 48)
                &&& r.unwrap().peer_id@ == msg@.subrange(48, 68)
            },
    {
        if msg.len() != 68 {
            return None;
        }
        if msg[0] != 19 {
            return None;
        }
        let proto = protocol_bytes();
        if !bytes_eq(slice_subrange(msg.as_slice(), 1, 20), proto.as_slice()) {
            return None;
        }
        let info_hash = slice_to_vec(slice_subrange(msg.as_slice(), 28, 48));
        let peer_id = slice_to_vec(slice_subrange(msg.as_slice(), 48, 68));
        Some(Handshake { info_hash, peer_id })
    }
}

/// Serializing a handshake and decoding the bytes gives the handshake
/// back: decoding accepts, and returns the same two fields.
pub proof fn lemma_handshake_round_trip(info_hash: Seq<u8>, peer_id: Seq<u8>)
    requires
        info_hash.len() == 20,
        peer_id.len() == 20,
    ensures
        valid_handshake(spec_handshake_bytes(info_hash, peer_id)),
        spec_handshake_bytes(info_hash, peer_id).subrange(28, 48) == info_hash,
        spec_handshake_bytes(info_hash, peer_id).subrange(48, 68) == peer_id,
{
    let s = spec_handshake_bytes(info_hash, peer_id);
    assert(s.subrange(1, 20) =~= spec_protocol());
    assert(s.subrange(28, 48) =~= info_hash);
    assert(s.subrange(48, 68) =~= peer_id);
}

/// The other direction of the bijection on the valid domain: a valid
/// 68-byte image with zeroed reserved bytes is exactly the serialization
/// of the two fields decoded from it.
pub proof fn lemma_handshake_image(s: Seq<u8>)
    requires
        valid_handshake(s),
        forall|i: int| 20 <= i < 28 ==> s[i] == 0u8,
    ensures
        spec_handshake_bytes(s.subrange(28, 48), s.subrange(48, 68)) == s,
{
    assert(spec_handshake_bytes(s.subrange(28, 48), s.subrange(48, 68)) =~= s);
}

} // verus!
