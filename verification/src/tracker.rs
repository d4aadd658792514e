use vstd::prelude::*;
use vstd::slice::{slice_subrange, slice_to_vec};
use crate::utils::{bytes_eq, clone_bytes};

verus! {

/// An ASCII decimal digit.
pub open spec fn is_digit(c: u8) -> bool {
    48 <= c <= 57
}

/// The decimal digits of `n`, most significant first.
pub open spec fn spec_digits(n: int) -> Seq<u8>
    decreases n,
{
    if n < 10 {
        seq![(48 + if n >= 0 { n } else { 0 }) as u8]
    } else {
        spec_digits(n / 10) + seq![(48 + n % 10) as u8]
    }
}

/// The value a digit string spells, most significant first.
pub open spec fn digits_val(s: Seq<u8>) -> int
    decreases s.len(),
{
    if s.len() == 0 {
        0
    } else {
        digits_val(s.drop_last()) * 10 + (s.last() - 48)
    }
}

/// Where the digit run starting at `i` ends: the first position at or
/// after `i` holding no digit.
pub open spec fn digits_end(s: Seq<u8>, i: int) -> int
    decreases s.len() - i,
{
    if 0 <= i < s.len() && is_digit(s[i]) {
        digits_end(s, i + 1)
    } else {
        i
    }
}

/// The digits of a number are digits, at least one, and spell it back.
pub proof fn lemma_digits_round(n: int)
    requires
        n >= 0,
    ensures
        spec_digits(n).len() >= 1,
        forall|k: int| 0 <= k < spec_digits(n).len() ==> is_digit(#[trigger] spec_digits(n)[k]),
        digits_val(spec_digits(n)) == n,
    decreases n,
{
    if n < 10 {
        assert(spec_digits(n) == seq![(48 + n) as u8]);
        assert(digits_val(spec_digits(n)) == digits_val(spec_digits(n).drop_last()) * 10 + (
        spec_digits(n).last() - 48));
        assert(spec_digits(n).drop_last() =~= Seq::<u8>::empty());
    } else {
        lemma_digits_round(n / 10);
        vstd::arithmetic::div_mod::lemma_fundamental_div_mod(n, 10);
        vstd::arithmetic::div_mod::lemma_mod_bound(n, 10);
        let s = spec_digits(n);
        assert(s.drop_last() =~= spec_digits(n / 10));
        assert(s.last() == (48 + n % 10) as u8);
        assert(digits_val(s) == digits_val(spec_digits(n / 10)) * 10 + n % 10);
    }
}

/// A digit run bounded on the right by a non-digit (or the end) stops
/// exactly there.
pub proof fn lemma_digits_end_at(s: Seq<u8>, i: int, j: int)
    requires
        0 <= i <= j <= s.len(),
        forall|k: int| i <= k < j ==> is_digit(s[k]),
        j == s.len() || !is_digit(s[j]),
    ensures
        digits_end(s, i) == j,
    decreases j - i,
{
    if i < j {
        lemma_digits_end_at(s, i + 1, j);
    }
}

/// Appending digits never shrinks the value.
proof fn lemma_digits_val_grows(s: Seq<u8>, t: Seq<u8>)
    requires
        forall|k: int| 0 <= k < s.len() ==> is_digit(s[k]),
        forall|k: int| 0 <= k < t.len() ==> is_digit(t[k]),
    ensures
        digits_val(s) >= 0,
        digits_val(s + t) >= digits_val(s),
    decreases s.len() + t.len(),
{
    if s.len() == 0 {
        if t.len() == 0 {
            assert(s + t =~= s);
        } else {
            assert((s + t).drop_last() =~= s + t.drop_last());
            lemma_digits_val_grows(s, t.drop_last());
            assert(digits_val(s + t) == digits_val(s + t.drop_last()) * 10 + ((s + t).last()
                - 48));
        }
    } else {
        if t.len() == 0 {
            assert(s + t =~= s);
            lemma_digits_val_grows(s.drop_last(), Seq::empty());
            assert(digits_val(s) == digits_val(s.drop_last()) * 10 + (s.last() - 48));
        } else {
            assert((s + t).drop_last() =~= s + t.drop_last());
            lemma_digits_val_grows(s, t.drop_last());
            assert(digits_val(s + t) == digits_val(s + t.drop_last()) * 10 + ((s + t).last()
                - 48));
        }
    }
}

/// Appends the decimal digits of `n`.
pub fn push_digits(v: &mut Vec<u8>, n: u64)
    ensures
        final(v)@ == old(v)@ + spec_digits(n as int),
    decreases n,
{
    if n >= 10 {
        push_digits(v, n / 10);
    }
    let d = (48 + (n % 10) as u8) as u8;
    v.push(d);
    proof {
        if n < 10 {
            assert(v@ =~= old(v)@ + spec_digits(n as int));
        } else {
            assert(v@ =~= old(v)@ + (spec_digits(n as int / 10) + seq![(48 + n as int % 10) as u8]));
        }
    }
}

/// Reads the digit run at `i`: its value, where it ended, and whether it
/// was non-empty and fit in 64 bits.
fn scan_digits(data: &[u8], i: usize) -> (r: (u64, usize, bool))
    requires
        i <= data@.len(),
    ensures
        r.2 == (i < data@.len() && is_digit(data@[i as int]) && digits_val(
            data@.subrange(i as int, digits_end(data@, i as int)),
        ) <= u64::MAX),
        r.2 ==> {
            &&& r.1 == digits_end(data@, i as int)
            &&& i < r.1 <= data@.len()
            &&& r.0 == digits_val(data@.subrange(i as int, r.1 as int))
        },
{
    let n = data.len();
    proof {
        lemma_digits_end_props(data@, i as int);
    }
    if i >= n || !(48 <= data[i] && data[i] <= 57) {
        proof {
            assert(digits_end(data@, i as int) == i);
        }
        return (0, i, false);
    }
    let ghost e = digits_end(data@, i as int);
    let mut j: usize = i;
    let mut acc: u64 = 0;
    while j < n && 48 <= data[j] && data[j] <= 57
        invariant
            i <= j <= n,
            n == data@.len(),
            j <= e <= n,
            e == digits_end(data@, i as int),
            e == digits_end(data@, j as int),
            forall|k: int| i <= k < j ==> is_digit(data@[k]),
            acc == digits_val(data@.subrange(i as int, j as int)),
        decreases n - j,
    {
        let d = data[j] - 48;
        proof {
            lemma_digits_end_props(data@, j as int);
            // the tail of the run still ends at the same place
            assert(digits_end(data@, j as int) == digits_end(data@, j + 1));
            let pre = data@.subrange(i as int, j as int);
            let cur = data@.subrange(i as int, j + 1);
            assert(cur.drop_last() =~= pre);
            assert(cur.last() == data@[j as int]);
            // would the next accumulation overflow?
            let full = data@.subrange(i as int, e);
            let here = data@.subrange(i as int, j + 1);
            assert(full =~= here + data@.subrange(j + 1, e));
            assert forall|k: int| 0 <= k < here.len() implies is_digit(#[trigger] here[k]) by {}
            assert forall|k: int|
                0 <= k < data@.subrange(j + 1, e).len() implies is_digit(
                #[trigger] data@.subrange(j + 1, e)[k],
            ) by {
                lemma_digits_run(data@, j + 1, e);
            }
            lemma_digits_val_grows(here, data@.subrange(j + 1, e));
        }
        if acc > (u64::MAX - d as u64) / 10 {
            proof {
                vstd::arithmetic::div_mod::lemma_fundamental_div_mod(
                    (u64::MAX - d as u64) as int,
                    10,
                );
                vstd::arithmetic::div_mod::lemma_mod_bound((u64::MAX - d as u64) as int, 10);
                assert(acc * 10 + d > u64::MAX) by (nonlinear_arith)
                    requires
                        acc > ((u64::MAX - d as u64) as int) / 10 && (u64::MAX - d as u64) as int
                            == 10 * (((u64::MAX - d as u64) as int) / 10) + ((u64::MAX
                            - d as u64) as int) % 10 && 0 <= ((u64::MAX - d as u64) as int) % 10
                            < 10 && d <= 9;
            }
            return (0, j, false);
        }
        proof {
            vstd::arithmetic::div_mod::lemma_fundamental_div_mod((u64::MAX - d as u64) as int, 10);
            vstd::arithmetic::div_mod::lemma_mod_bound((u64::MAX - d as u64) as int, 10);
            assert(acc * 10 + d <= u64::MAX) by (nonlinear_arith)
                requires
                    acc <= ((u64::MAX - d as u64) as int) / 10 && (u64::MAX - d as u64) as int == 10
                        * (((u64::MAX - d as u64) as int) / 10) + ((u64::MAX - d as u64) as int)
                        % 10 && 0 <= ((u64::MAX - d as u64) as int) % 10 < 10 && 0 <= d;
        }
        acc = acc * 10 + d as u64;
        j += 1;
    }
    proof {
        assert(digits_end(data@, j as int) == j);
        assert(e == j);
    }
    (acc, j, true)
}

/// The bytes `d8:intervali`: a bencoded dictionary opening straight into
/// the integer-valued `interval` key.
pub open spec fn spec_prefix() -> Seq<u8> {
    seq![100u8, 56u8, 58u8, 105u8, 110u8, 116u8, 101u8, 114u8, 118u8, 97u8, 108u8, 105u8]
}

/// The bytes `5:peers`.
pub open spec fn spec_peers_key() -> Seq<u8> {
    seq![53u8, 58u8, 112u8, 101u8, 101u8, 114u8, 115u8]
}

/// The canonical bencoding of a tracker response: a dictionary holding
/// `interval` (an integer) and `peers` (a byte string), in that order.
pub open spec fn spec_encode_response(interval: int, peers: Seq<u8>) -> Seq<u8> {
    spec_prefix() + spec_digits(interval) + seq![101u8] + spec_peers_key() + spec_digits(
        peers.len() as int,
    ) + seq![58u8] + peers + seq![101u8]
}

/// `spec_encode_response` over exec values, for quantifying.
pub open spec fn resp_bytes(interval: u64, peers: Seq<u8>) -> Seq<u8> {
    spec_encode_response(interval as int, peers)
}

fn prefix_bytes() -> (r: Vec<u8>)
    ensures
        r@ == spec_prefix(),
{
    let mut v: Vec<u8> = Vec::new();
    v.push(100);
    v.push(56);
    v.push(58);
    v.push(105);
    v.push(110);
    v.push(116);
    v.push(101);
    v.push(114);
    v.push(118);
    v.push(97);
    v.push(108);
    v.push(105);
    proof {
        assert(v@ =~= spec_prefix());
    }
    v
}

fn peers_key_bytes() -> (r: Vec<u8>)
    ensures
        r@ == spec_peers_key(),
{
    let mut v: Vec<u8> = Vec::new();
    v.push(53);
    v.push(58);
    v.push(112);
    v.push(101);
    v.push(101);
    v.push(114);
    v.push(115);
    proof {
        assert(v@ =~= spec_peers_key());
    }
    v
}

/// Encodes a tracker response in canonical form.
pub fn encode_tracker_response(interval: u64, peers: &Vec<u8>) -> (r: Vec<u8>)
    ensures
        r@ == resp_bytes(interval, peers@),
{
    let mut v = prefix_bytes();
    push_digits(&mut v, interval);
    v.push(101);
    let mut key = peers_key_bytes();
    v.append(&mut key);
    push_digits(&mut v, peers.len() as u64);
    v.push(58);
    let mut ps = clone_bytes(peers);
    v.append(&mut ps);
    v.push(101);
    proof {
        assert(v@ =~= resp_bytes(interval, peers@));
    }
    v
}

/// Where everything sits in a canonically encoded response.
proof fn lemma_canonical(data: Seq<u8>, iv: u64, ps: Seq<u8>)
    requires
        data == resp_bytes(iv, ps),
    ensures
        ({
            let di = spec_digits(iv as int);
            let dl = spec_digits(ps.len() as int);
            let j = 12 + di.len() as int;
            let m = j + 8 + dl.len() as int;
            &&& di.len() >= 1
            &&& dl.len() >= 1
            &&& data.len() == m + 1 + ps.len() + 1
            &&& data.subrange(0, 12) == spec_prefix()
            &&& digits_end(data, 12) == j
            &&& digits_val(data.subrange(12, j)) == iv
            &&& data[j] == 101
            &&& data.subrange(j + 1, j + 8) == spec_peers_key()
            &&& digits_end(data, j + 8) == m
            &&& digits_val(data.subrange(j + 8, m)) == ps.len()
            &&& data[m] == 58
            &&& data.subrange(m + 1, data.len() as int - 1) == ps
            &&& data[data.len() as int - 1] == 101
        }),
{
    lemma_digits_round(iv as int);
    lemma_digits_round(ps.len() as int);
    let di = spec_digits(iv as int);
    let dl = spec_digits(ps.len() as int);
    let j = 12 + di.len() as int;
    let m = j + 8 + dl.len() as int;
    assert(data.subrange(0, 12) =~= spec_prefix());
    assert(data.subrange(12, j) =~= di);
    assert(data.subrange(j + 1, j + 8) =~= spec_peers_key());
    assert(data.subrange(j + 8, m) =~= dl);
    assert(data.subrange(m + 1, data.len() as int - 1) =~= ps);
    assert forall|k: int| 12 <= k < j implies is_digit(data[k]) by {
        assert(data[k] == di[k - 12]);
    }
    lemma_digits_end_at(data, 12, j);
    assert forall|k: int| j + 8 <= k < m implies is_digit(data[k]) by {
        assert(data[k] == dl[k - (j + 8)]);
    }
    lemma_digits_end_at(data, j + 8, m);
}

/// Decodes a canonically encoded tracker response: for every interval and
/// peer string, the encoding of that pair parses back to exactly that
/// pair. This is the round-trip law; inputs of any other shape give no
/// promise beyond returning without failure.
pub fn parse_tracker_response(data: &Vec<u8>) -> (r: Option<(u64, Vec<u8>)>)
    ensures
        forall|iv: u64, ps: Seq<u8>|
            data@ == #[trigger] resp_bytes(iv, ps) ==> r.is_some() && r.unwrap().0 == iv
                && r.unwrap().1@ == ps,
{
    let n = data.len();
    let s = data.as_slice();
    if n < 12 {
        proof {
            assert forall|iv: u64, ps: Seq<u8>| data@ == #[trigger] resp_bytes(iv, ps) implies
            false by {
                lemma_canonical(data@, iv, ps);
            }
        }
        return None;
    }
    let pre = prefix_bytes();
    if !bytes_eq(slice_subrange(s, 0, 12), pre.as_slice()) {
        proof {
            assert forall|iv: u64, ps: Seq<u8>| data@ == #[trigger] resp_bytes(iv, ps) implies
            false by {
                lemma_canonical(data@, iv, ps);
            }
        }
        return None;
    }
    let (iv, j, ok) = scan_digits(s, 12);
    if !ok {
        proof {
            assert forall|iv0: u64, ps: Seq<u8>| data@ == #[trigger] resp_bytes(iv0, ps) implies
            false by {
                lemma_canonical(data@, iv0, ps);
                let di = spec_digits(iv0 as int);
                assert(data@[12] == data@.subrange(12, 12 + di.len() as int)[0]);
                lemma_digits_round(iv0 as int);
            }
        }
        return None;
    }
    if j >= n || s[j] != 101 {
        proof {
            assert forall|iv0: u64, ps: Seq<u8>| data@ == #[trigger] resp_bytes(iv0, ps) implies
            false by {
                lemma_canonical(data@, iv0, ps);
            }
        }
        return None;
    }
    if n - j < 9 {
        proof {
            assert forall|iv0: u64, ps: Seq<u8>| data@ == #[trigger] resp_bytes(iv0, ps) implies
            false by {
                lemma_canonical(data@, iv0, ps);
            }
        }
        return None;
    }
    let key = peers_key_bytes();
    if !bytes_eq(slice_subrange(s, j + 1, j + 8), key.as_slice()) {
        proof {
            assert forall|iv0: u64, ps: Seq<u8>| data@ == #[trigger] resp_bytes(iv0, ps) implies
            false by {
                lemma_canonical(data@, iv0, ps);
            }
        }
        return None;
    }
    let (plen, m, ok2) = scan_digits(s, j + 8);
    if !ok2 {
        proof {
            assert forall|iv0: u64, ps: Seq<u8>| data@ == #[trigger] resp_bytes(iv0, ps) implies
            false by {
                lemma_canonical(data@, iv0, ps);
                let di = spec_digits(iv0 as int);
                let dl = spec_digits(ps.len() as int);
                let jj = 12 + di.len() as int;
                assert(data@[jj + 8] == data@.subrange(jj + 8, jj + 8 + dl.len() as int)[0]);
                lemma_digits_round(ps.len() as int);
            }
        }
        return None;
    }
    if m >= n || s[m] != 58 {
        proof {
            assert forall|iv0: u64, ps: Seq<u8>| data@ == #[trigger] resp_bytes(iv0, ps) implies
            false by {
                lemma_canonical(data@, iv0, ps);
            }
        }
        return None;
    }
    if n - m < 2 || s[n - 1] != 101 {
        proof {
            assert forall|iv0: u64, ps: Seq<u8>| data@ == #[trigger] resp_bytes(iv0, ps) implies
            false by {
                lemma_canonical(data@, iv0, ps);
            }
        }
        return None;
    }
    if plen != (n - 1 - (m + 1)) as u64 {
        proof {
            assert forall|iv0: u64, ps: Seq<u8>| data@ == #[trigger] resp_bytes(iv0, ps) implies
            false by {
                lemma_canonical(data@, iv0, ps);
            }
        }
        return None;
    }
    let peers = slice_to_vec(slice_subrange(s, m + 1, n - 1));
    proof {
        assert forall|iv0: u64, ps: Seq<u8>| data@ == #[trigger] resp_bytes(iv0, ps) implies iv
            == iv0 && peers@ == ps by {
            lemma_canonical(data@, iv0, ps);
        }
    }
    Some((iv, peers))
}

/// Every position of a run before its end holds a digit.
proof fn lemma_digits_run(s: Seq<u8>, i: int, j: int)
    requires
        0 <= i,
        j == digits_end(s, i),
    ensures
        forall|k: int| i <= k < j ==> is_digit(s[k]),
        i <= j <= s.len() || (j == i && i > s.len()),
    decreases s.len() - i,
{
    if 0 <= i < s.len() && is_digit(s[i]) {
        lemma_digits_run(s, i + 1, j);
    }
}

/// The run's end lies between `i` and the end of the string.
proof fn lemma_digits_end_props(s: Seq<u8>, i: int)
    requires
        0 <= i <= s.len(),
    ensures
        i <= digits_end(s, i) <= s.len(),
        digits_end(s, i) == s.len() || !is_digit(s[digits_end(s, i)]),
        i < s.len() && is_digit(s[i]) ==> digits_end(s, i) > i,
        !(i < s.len() && is_digit(s[i])) ==> digits_end(s, i) == i,
    decreases s.len() - i,
{
    if i < s.len() && is_digit(s[i]) {
        lemma_digits_end_props(s, i + 1);
    }
}

} // verus!
