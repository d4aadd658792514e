use vstd::prelude::*;
use vstd::slice::{slice_subrange, slice_to_vec};

verus! {

/// A peer-wire message, one variant per frame type. `KeepAlive` is the
/// empty frame; every other frame is a one-byte type id followed by the body.
#[derive(PartialEq, Debug, Clone)]
pub enum Message {
    KeepAlive,
    Choke,
    Unchoke,
    Interested,
    NotInterested,
    Bitfield(Vec<u8>),
    Request(u32, u32, u32),
    Have(u32),
    Piece(u32, u32, Vec<u8>),
    Cancel(u32, u32, u32),
    Port(u16),
}

/// Big-endian bytes of a 32-bit integer.
pub open spec fn u32_bytes(x: u32) -> Seq<u8> {
    seq![
        ((x >> 24) & 0xff) as u8,
        ((x >> 16) & 0xff) as u8,
        ((x >> 8) & 0xff) as u8,
        (x & 0xff) as u8,
    ]
}

/// The 32-bit integer read big-endian from four bytes.
pub open spec fn u32_of(b0: u8, b1: u8, b2: u8, b3: u8) -> u32 {
    ((b0 as u32) << 24) | ((b1 as u32) << 16) | ((b2 as u32) << 8) | (b3 as u32)
}

/// Big-endian bytes of a 16-bit integer.
pub open spec fn u16_bytes(x: u16) -> Seq<u8> {
    seq![((x >> 8) & 0xff) as u8, (x & 0xff) as u8]
}

/// The 16-bit integer read big-endian from two bytes.
pub open spec fn u16_of(b0: u8, b1: u8) -> u16 {
    ((b0 as u16) << 8) | (b1 as u16)
}

/// Appends the big-endian bytes of `x`.
pub fn push_u32(v: &mut Vec<u8>, x: u32)
    ensures
        final(v)@ == old(v)@ + u32_bytes(x),
{
    proof {
        assert((x >> 24) & 0xff < 256 && (x >> 16) & 0xff < 256 && (x >> 8) & 0xff < 256 && x
            & 0xff < 256) by (bit_vector);
    }
    v.push(((x >> 24) & 0xff) as u8);
    v.push(((x >> 16) & 0xff) as u8);
    v.push(((x >> 8) & 0xff) as u8);
    v.push((x & 0xff) as u8);
    proof {
        assert(v@ =~= old(v)@ + u32_bytes(x));
    }
}

/// Appends the big-endian bytes of `x`.
pub fn push_u16(v: &mut Vec<u8>, x: u16)
    ensures
        final(v)@ == old(v)@ + u16_bytes(x),
{
    proof {
        assert((x >> 8) & 0xff < 256 && x & 0xff < 256) by (bit_vector);
    }
    v.push(((x >> 8) & 0xff) as u8);
    v.push((x & 0xff) as u8);
    proof {
        assert(v@ =~= old(v)@ + u16_bytes(x));
    }
}

/// Reads the big-endian 32-bit integer at offset `i`.
pub fn read_u32_at(buf: &[u8], i: usize) -> (r: u32)
    requires
        i + 4 <= buf@.len(),
    ensures
        r == u32_of(buf@[i as int], buf@[i + 1], buf@[i + 2], buf@[i + 3]),
{
    let b0 = buf[i];
    let b1 = buf[i + 1];
    let b2 = buf[i + 2];
    let b3 = buf[i + 3];
    ((b0 as u32) << 24) | ((b1 as u32) << 16) | ((b2 as u32) << 8) | (b3 as u32)
}

/// Reads the big-endian 16-bit integer at offset `i`.
pub fn read_u16_at(buf: &[u8], i: usize) -> (r: u16)
    requires
        i + 2 <= buf@.len(),
    ensures
        r == u16_of(buf@[i as int], buf@[i + 1]),
{
    let b0 = buf[i];
    let b1 = buf[i + 1];
    ((b0 as u16) << 8) | (b1 as u16)
}

/// The frame payload a message serializes to: the type id, then the body
/// of the wire table, integers big-endian; the empty sequence for KeepAlive.
pub open spec fn spec_serialize(m: Message) -> Seq<u8> {
    match m {
        Message::KeepAlive => seq![],
        Message::Choke => seq![0u8],
        Message::Unchoke => seq![1u8],
        Message::Interested => seq![2u8],
        Message::NotInterested => seq![3u8],
        Message::Have(i) => seq![4u8] + u32_bytes(i),
        Message::Bitfield(v) => seq![5u8] + v@,
        Message::Request(i, s, l) => seq![6u8] + u32_bytes(i) + u32_bytes(s) + u32_bytes(l),
        Message::Piece(i, s, p) => seq![7u8] + u32_bytes(i) + u32_bytes(s) + p@,
        Message::Cancel(i, s, l) => seq![8u8] + u32_bytes(i) + u32_bytes(s) + u32_bytes(l),
        Message::Port(p) => seq![9u8] + u16_bytes(p),
    }
}

/// Whether a frame payload decodes at all: a known type id with a body
/// long enough for its fixed fields.
pub open spec fn parse_ok(s: Seq<u8>) -> bool {
    ||| s.len() == 0
    ||| (s.len() >= 1 && {
        ||| s[0] == 0 || s[0] == 1 || s[0] == 2 || s[0] == 3 || s[0] == 5
        ||| (s[0] == 4 && s.len() >= 5)
        ||| ((s[0] == 6 || s[0] == 8) && s.len() >= 13)
        ||| (s[0] == 7 && s.len() >= 9)
        ||| (s[0] == 9 && s.len() >= 3)
    })
}

/// The message a frame payload decodes to. Fixed-field frames tolerate
/// trailing bytes rather than rejecting the frame.
pub open spec fn msg_matches(s: Seq<u8>, m: Message) -> bool {
    match m {
        Message::KeepAlive => s.len() == 0,
        Message::Choke => s.len() >= 1 && s[0] == 0,
        Message::Unchoke => s.len() >= 1 && s[0] == 1,
        Message::Interested => s.len() >= 1 && s[0] == 2,
        Message::NotInterested => s.len() >= 1 && s[0] == 3,
        Message::Have(i) => s.len() >= 5 && s[0] == 4 && i == u32_of(s[1], s[2], s[3], s[4]),
        Message::Bitfield(v) => s.len() >= 1 && s[0] == 5 && v@ == s.skip(1),
        Message::Request(i, o, l) => s.len() >= 13 && s[0] == 6 && i == u32_of(s[1], s[2], s[3],
            s[4]) && o == u32_of(s[5], s[6], s[7], s[8]) && l == u32_of(s[9], s[10], s[11], s[12]),
        Message::Piece(i, o, p) => s.len() >= 9 && s[0] == 7 && i == u32_of(s[1], s[2], s[3], s[4])
            && o == u32_of(s[5], s[6], s[7], s[8]) && p@ == s.skip(9),
        Message::Cancel(i, o, l) => s.len() >= 13 && s[0] == 8 && i == u32_of(s[1], s[2], s[3],
            s[4]) && o == u32_of(s[5], s[6], s[7], s[8]) && l == u32_of(s[9], s[10], s[11], s[12]),
        Message::Port(p) => s.len() >= 3 && s[0] == 9 && p == u16_of(s[1], s[2]),
    }
}

/// Two messages with the same wire image: equal variant by variant, with
/// byte payloads compared by contents.
pub open spec fn msg_eqv(m1: Message, m2: Message) -> bool {
    match (m1, m2) {
        (Message::Bitfield(a), Message::Bitfield(b)) => a@ == b@,
        (Message::Piece(i, o, a), Message::Piece(j, q, b)) => i == j && o == q && a@ == b@,
        _ => m1 == m2,
    }
}

impl Message {
    /// Serializes to the frame payload; consumes the message.
    pub fn serialize(self) -> (r: Vec<u8>)
        ensures
            r@ == spec_serialize(self),
    {
        let mut buf: Vec<u8> = Vec::new();
        match self {
            Message::KeepAlive => {},
            Message::Choke => {
                buf.push(0);
            },
            Message::Unchoke => {
                buf.push(1);
            },
            Message::Interested => {
                buf.push(2);
            },
            Message::NotInterested => {
                buf.push(3);
            },
            Message::Have(i) => {
                buf.push(4);
                push_u32(&mut buf, i);
            },
            Message::Bitfield(v) => {
                buf.push(5);
                let mut rest = v;
                buf.append(&mut rest);
            },
            Message::Request(i, s, l) => {
                buf.push(6);
                push_u32(&mut buf, i);
                push_u32(&mut buf, s);
                push_u32(&mut buf, l);
            },
            Message::Piece(i, s, p) => {
                buf.push(7);
                push_u32(&mut buf, i);
                push_u32(&mut buf, s);
                let mut rest = p;
                buf.append(&mut rest);
            },
            Message::Cancel(i, s, l) => {
                buf.push(8);
                push_u32(&mut buf, i);
                push_u32(&mut buf, s);
                push_u32(&mut buf, l);
            },
            Message::Port(p) => {
                buf.push(9);
                push_u16(&mut buf, p);
            },
        }
        proof {
            assert(buf@ =~= spec_serialize(self));
        }
        buf
    }

    /// Decodes a frame payload: `Some` exactly for well-formed payloads,
    /// and the decoded message is the one the payload spells.
    pub fn deserialize(buf: &[u8]) -> (r: Option<Message>)
        ensures
            r.is_some() == parse_ok(buf@),
            r.is_some() ==> msg_matches(buf@, r.unwrap()),
    {
        if buf.len() == 0 {
            return Some(Message::KeepAlive);
        }
        match buf[0] {
            0 => Some(Message::Choke),
            1 => Some(Message::Unchoke),
            2 => Some(Message::Interested),
            3 => Some(Message::NotInterested),
            4 => {
                if buf.len() >= 5 {
                    Some(Message::Have(read_u32_at(buf, 1)))
                } else {
                    None
                }
            },
            5 => {
                let v = slice_to_vec(slice_subrange(buf, 1, buf.len()));
                assert(v@ =~= buf@.skip(1));
                Some(Message::Bitfield(v))
            },
            6 => {
                if buf.len() >= 13 {
                    Some(
                        Message::Request(
                            read_u32_at(buf, 1),
                            read_u32_at(buf, 5),
                            read_u32_at(buf, 9),
                        ),
                    )
                } else {
                    None
                }
            },
            7 => {
                if buf.len() >= 9 {
                    let v = slice_to_vec(slice_subrange(buf, 9, buf.len()));
                    assert(v@ =~= buf@.skip(9));
                    Some(Message::Piece(read_u32_at(buf, 1), read_u32_at(buf, 5), v))
                } else {
                    None
                }
            },
            8 => {
                if buf.len() >= 13 {
                    Some(
                        Message::Cancel(
                            read_u32_at(buf, 1),
                            read_u32_at(buf, 5),
                            read_u32_at(buf, 9),
                        ),
                    )
                } else {
                    None
                }
            },
            9 => {
                if buf.len() >= 3 {
                    Some(Message::Port(read_u16_at(buf, 1)))
                } else {
                    None
                }
            },
            _ => None,
        }
    }
}

/// The bytes of a big-endian 32-bit integer read back as written.
pub proof fn lemma_u32_round(x: u32)
    ensures
        u32_of(
            ((x >> 24) & 0xff) as u8,
            ((x >> 16) & 0xff) as u8,
            ((x >> 8) & 0xff) as u8,
            (x & 0xff) as u8,
        ) == x,
{
    assert(((((x >> 24) & 0xff) as u8 as u32) << 24) | ((((x >> 16) & 0xff) as u8 as u32) << 16)
        | ((((x >> 8) & 0xff) as u8 as u32) << 8) | ((x & 0xff) as u8 as u32) == x)
        by (bit_vector);
}

/// The bytes of a big-endian 16-bit integer read back as written.
pub proof fn lemma_u16_round(x: u16)
    ensures
        u16_of(((x >> 8) & 0xff) as u8, (x & 0xff) as u8) == x,
{
    assert(((((x >> 8) & 0xff) as u8 as u16) << 8) | ((x & 0xff) as u8 as u16) == x)
        by (bit_vector);
}

/// A serialized message is a well-formed frame payload, and it spells the
/// message it came from.
pub proof fn lemma_serialize_parses(m: Message)
    ensures
        parse_ok(spec_serialize(m)),
        msg_matches(spec_serialize(m), m),
{
    let s = spec_serialize(m);
    match m {
        Message::Have(i) => {
            lemma_u32_round(i);
        },
        Message::Bitfield(v) => {
            assert(v@ =~= s.skip(1));
        },
        Message::Request(i, o, l) => {
            lemma_u32_round(i);
            lemma_u32_round(o);
            lemma_u32_round(l);
        },
        Message::Piece(i, o, p) => {
            lemma_u32_round(i);
            lemma_u32_round(o);
            assert(p@ =~= s.skip(9));
        },
        Message::Cancel(i, o, l) => {
            lemma_u32_round(i);
            lemma_u32_round(o);
            lemma_u32_round(l);
        },
        Message::Port(p) => {
            lemma_u16_round(p);
        },
        _ => {},
    }
}

/// A frame payload spells at most one message, up to payload contents.
pub proof fn lemma_parse_unique(s: Seq<u8>, m1: Message, m2: Message)
    requires
        msg_matches(s, m1),
        msg_matches(s, m2),
    ensures
        msg_eqv(m1, m2),
{
}

/// Round trip: whatever `deserialize` returns for `serialize(m)` is `m`
/// again, for every message.
pub proof fn lemma_round_trip(m: Message, m2: Message)
    requires
        msg_matches(spec_serialize(m), m2),
    ensures
        msg_eqv(m2, m),
{
    lemma_serialize_parses(m);
    lemma_parse_unique(spec_serialize(m), m2, m);
}

} // verus!
