//! Wire codec: variable-length integers (VarInt), length-prefixed
//! byte arrays, and big-endian fixed-width integers.
//!
//! A VarInt carries a signed 32-bit value as its unsigned two's
//! complement image, split into little-endian 7-bit groups with a
//! continuation bit: at most 5 bytes. Decoding accepts only the
//! canonical (minimal) encoding and rejects a continuation bit that
//! is still set after the maximum number of bytes.
use vstd::prelude::*;

use crate::error::Error;

verus! {

/// The unsigned two's complement image of a signed 32-bit value.
pub open spec fn u32_rep(n: i32) -> nat {
    if n >= 0 {
        n as nat
    } else {
        (n + 0x1_0000_0000) as nat
    }
}

/// The canonical VarInt encoding of an unsigned value: little-endian
/// 7-bit groups, high bit set on every group but the last.
pub open spec fn varint_enc(u: nat) -> Seq<u8>
    decreases u,
{
    if u < 128 {
        seq![u as u8]
    } else {
        seq![(u % 128 + 128) as u8] + varint_enc(u / 128)
    }
}

/// Decodes at most `max` VarInt groups from the front of `s`:
/// the value and the number of bytes read. Rejects a run-out of
/// input or of `max`, and any non-minimal encoding (a continuation
/// into groups that encode zero).
pub open spec fn varint_dec_groups(s: Seq<u8>, max: nat) -> Option<(nat, nat)>
    decreases max,
{
    if s.len() == 0 || max == 0 {
        None
    } else if s[0] < 128 {
        Some((s[0] as nat, 1))
    } else {
        match varint_dec_groups(s.skip(1), (max - 1) as nat) {
            Some(p) => if p.0 == 0 {
                None
            } else {
                Some((((s[0] - 128) + 128 * p.0) as nat, p.1 + 1))
            },
            None => None,
        }
    }
}

/// Decodes a 32-bit VarInt from the front of `s`: at most 5 groups,
/// canonical, and the value must fit in 32 bits.
pub open spec fn varint_dec(s: Seq<u8>) -> Option<(nat, nat)> {
    match varint_dec_groups(s, 5) {
        Some(p) => if p.0 < 0x1_0000_0000 {
            Some(p)
        } else {
            None
        },
        None => None,
    }
}

/// The encoding of any value below 128^k takes at most k groups.
pub proof fn lemma_varint_enc_len(u: nat)
    ensures
        1 <= varint_enc(u).len(),
        u < 0x80 ==> varint_enc(u).len() == 1,
        u < 0x4000 ==> varint_enc(u).len() <= 2,
        u < 0x20_0000 ==> varint_enc(u).len() <= 3,
        u < 0x1000_0000 ==> varint_enc(u).len() <= 4,
        u < 0x8_0000_0000 ==> varint_enc(u).len() <= 5,
    decreases u,
{
    if u >= 128 {
        lemma_varint_enc_len(u / 128);
    }
}

/// Any value a bounded group decode returns is below 128^max.
pub proof fn lemma_varint_dec_groups_bound(s: Seq<u8>, max: nat)
    ensures
        match varint_dec_groups(s, max) {
            Some(p) => p.0 < pow128(max) && 1 <= p.1 <= max && p.1 <= s.len(),
            None => true,
        },
    decreases max,
{
    if s.len() == 0 || max == 0 {
    } else if s[0] < 128 {
        assert(pow128(max) > 127) by {
            lemma_pow128_at_least(max);
        }
    } else {
        lemma_varint_dec_groups_bound(s.skip(1), (max - 1) as nat);
    }
}

/// 128^k.
pub open spec fn pow128(k: nat) -> nat
    decreases k,
{
    if k == 0 {
        1
    } else {
        128 * pow128((k - 1) as nat)
    }
}

proof fn lemma_pow128_pos(k: nat)
    ensures
        pow128(k) >= 1,
    decreases k,
{
    if k > 0 {
        lemma_pow128_pos((k - 1) as nat);
    }
}

proof fn lemma_pow128_at_least(k: nat)
    requires
        k >= 1,
    ensures
        pow128(k) >= 128,
{
    lemma_pow128_pos((k - 1) as nat);
    assert(pow128(k) == 128 * pow128((k - 1) as nat));
}

/// Law: decoding inverts encoding, for any value that fits in the
/// group budget, with any bytes following the encoding.
pub proof fn lemma_varint_groups_round_trip(u: nat, rest: Seq<u8>, max: nat)
    requires
        varint_enc(u).len() <= max,
    ensures
        varint_dec_groups(varint_enc(u) + rest, max) == Some((u, varint_enc(u).len())),
    decreases u,
{
    let s = varint_enc(u) + rest;
    if u < 128 {
        assert(s[0] == u as u8);
    } else {
        assert(s[0] == (u % 128 + 128) as u8);
        assert(s[0] >= 128);
        lemma_varint_groups_round_trip(u / 128, rest, (max - 1) as nat);
        assert(s.skip(1) =~= varint_enc(u / 128) + rest);
        assert(u / 128 > 0);
        assert((s[0] - 128) + 128 * (u / 128) == u % 128 + 128 * (u / 128));
        assert(u % 128 + 128 * (u / 128) == u);
    }
}

/// Law: a VarInt round-trips for every 32-bit value; the encoding is
/// canonical and at most 5 bytes.
pub proof fn lemma_varint_round_trip(n: i32)
    ensures
        varint_enc(u32_rep(n)).len() <= 5,
        varint_dec(varint_enc(u32_rep(n))) == Some(
            (u32_rep(n), varint_enc(u32_rep(n)).len()),
        ),
{
    let u = u32_rep(n);
    lemma_varint_enc_len(u);
    lemma_varint_groups_round_trip(u, Seq::<u8>::empty(), 5);
    assert(varint_enc(u) + Seq::<u8>::empty() =~= varint_enc(u));
}

/// Law: an encoding whose continuation bit is still set after 5
/// bytes is rejected.
pub proof fn lemma_varint_overlong_rejected(s: Seq<u8>)
    requires
        s.len() >= 5,
        forall|i: int| 0 <= i < 5 ==> s[i] >= 128,
    ensures
        varint_dec(s) is None,
{
    let s1 = s.skip(1);
    let s2 = s1.skip(1);
    let s3 = s2.skip(1);
    let s4 = s3.skip(1);
    assert(s1 =~= s.skip(1));
    assert(s2 =~= s.skip(2));
    assert(s3 =~= s.skip(3));
    assert(s4 =~= s.skip(4));
    assert(s4[0] == s[4]);
    assert(varint_dec_groups(s4.skip(1), 0) is None);
    assert(varint_dec_groups(s4, 1) is None);
    assert(varint_dec_groups(s3, 2) is None);
    assert(varint_dec_groups(s2, 3) is None);
    assert(varint_dec_groups(s1, 4) is None);
    assert(varint_dec_groups(s, 5) is None);
}

/// Encodes `n` as a canonical VarInt.
pub fn write_varint(n: i32) -> (r: Vec<u8>)
    ensures
        r@ == varint_enc(u32_rep(n)),
        1 <= r@.len() <= 5,
{
    let mut u: u64 = if n >= 0 {
        n as u64
    } else {
        ((n as i64) + 0x1_0000_0000) as u64
    };
    proof {
        assert(u == u32_rep(n));
        lemma_varint_enc_len(u as nat);
    }
    let ghost u0 = u as nat;
    let mut out: Vec<u8> = Vec::new();
    while u >= 128
        invariant
            u <= u0,
            varint_enc(u0) == out@ + varint_enc(u as nat),
        decreases u,
    {
        let b = ((u % 128) + 128) as u8;
        let ghost uprev = u as nat;
        let ghost pre_out = out@;
        out.push(b);
        u = u / 128;
        proof {
            assert(varint_enc(uprev) == seq![b] + varint_enc(uprev / 128));
            assert(pre_out + varint_enc(uprev) =~= out@ + varint_enc(u as nat));
        }
    }
    let ghost pre_out = out@;
    out.push(u as u8);
    proof {
        assert(varint_enc(u as nat) =~= seq![u as u8]);
        assert(pre_out + varint_enc(u as nat) =~= out@);
        lemma_varint_enc_len(u0);
    }
    out
}

/// Appends the canonical VarInt encoding of `n` to `out`.
pub fn write_varint_to(out: &mut Vec<u8>, n: i32)
    ensures
        final(out)@ == old(out)@ + varint_enc(u32_rep(n)),
{
    let mut v = write_varint(n);
    out.append(&mut v);
}

/// Reads at most `max` VarInt groups of `buf` starting at `pos`.
fn read_varint_groups(buf: &Vec<u8>, pos: usize, max: u8) -> (r: Option<(u64, usize)>)
    requires
        pos <= buf@.len(),
        max <= 5,
    ensures
        match varint_dec_groups(buf@.skip(pos as int), max as nat) {
            Some(p) => r is Some && r.unwrap().0 == p.0 && r.unwrap().1 == pos + p.1,
            None => r is None,
        },
    decreases max,
{
    proof {
        lemma_varint_dec_groups_bound(buf@.skip(pos as int), max as nat);
    }
    if max == 0 || pos >= buf.len() {
        return None;
    }
    let b = buf[pos];
    if b < 128 {
        Some((b as u64, pos + 1))
    } else {
        proof {
            assert(buf@.skip(pos as int).skip(1) =~= buf@.skip(pos as int + 1));
            lemma_varint_dec_groups_bound(buf@.skip(pos as int + 1), (max - 1) as nat);
            lemma_pow128_values();
        }
        match read_varint_groups(buf, pos + 1, max - 1) {
            None => None,
            Some((v, np)) => {
                if v == 0 {
                    None
                } else {
                    Some((((b - 128) as u64) + 128 * v, np))
                }
            },
        }
    }
}

proof fn lemma_pow128_values()
    ensures
        pow128(0) == 1,
        pow128(1) == 128,
        pow128(2) == 0x4000,
        pow128(3) == 0x20_0000,
        pow128(4) == 0x1000_0000,
        pow128(5) == 0x8_0000_0000,
{
    assert(pow128(0) == 1);
    assert(pow128(1) == 128 * pow128(0));
    assert(pow128(2) == 128 * pow128(1));
    assert(pow128(3) == 128 * pow128(2));
    assert(pow128(4) == 128 * pow128(3));
    assert(pow128(5) == 128 * pow128(4));
}

/// Reads a 32-bit VarInt of `buf` starting at `pos`: the value and
/// the position just past it. Fails with `Protocol` iff the bytes at
/// `pos` are not a canonical 32-bit VarInt.
pub fn read_varint(buf: &Vec<u8>, pos: usize) -> (r: Result<(i32, usize), Error>)
    requires
        pos <= buf@.len(),
    ensures
        r is Ok ==> pos < r.unwrap().1 <= buf@.len(),
        match varint_dec(buf@.skip(pos as int)) {
            Some(p) => r is Ok && u32_rep(r.unwrap().0) == p.0 && r.unwrap().1 == pos + p.1,
            None => r == Err::<(i32, usize), Error>(Error::Protocol),
        },
{
    proof {
        lemma_varint_dec_groups_bound(buf@.skip(pos as int), 5);
        lemma_pow128_values();
    }
    match read_varint_groups(buf, pos, 5) {
        None => Err(Error::Protocol),
        Some((v, np)) => {
            if v >= 0x1_0000_0000 {
                Err(Error::Protocol)
            } else {
                let n: i32 = if v < 0x8000_0000 {
                    v as i32
                } else {
                    ((v as i64) - 0x1_0000_0000) as i32
                };
                Ok((n, np))
            }
        },
    }
}

/// Reads a length-prefixed byte array: a VarInt byte count, then
/// that many raw bytes. Fails with `Protocol` iff the prefix is not
/// a canonical VarInt, the count is negative or above `max_len`, or
/// the buffer ends early.
pub fn read_prefixed_bytes(buf: &Vec<u8>, pos: usize, max_len: i32) -> (r: Result<
    (Vec<u8>, usize),
    Error,
>)
    requires
        pos <= buf@.len(),
    ensures
        match r {
            Ok(p) => {
                match varint_dec(buf@.skip(pos as int)) {
                    Some(q) => {
                        let n = q.0 as int;
                        &&& 0 <= n <= max_len
                        &&& pos + q.1 + n <= buf@.len()
                        &&& p.0@ == buf@.subrange(pos + q.1, pos + q.1 + n)
                        &&& p.1 == pos + q.1 + n
                    },
                    None => false,
                }
            },
            Err(e) => {
                &&& e == Error::Protocol
                &&& match varint_dec(buf@.skip(pos as int)) {
                    Some(q) => q.0 > max_len || pos + q.1 + q.0 > buf@.len(),
                    None => true,
                }
            },
        },
{
    proof {
        lemma_varint_dec_groups_bound(buf@.skip(pos as int), 5);
    }
    let (n, mut at) = match read_varint(buf, pos) {
        Ok(p) => p,
        Err(e) => {
            return Err(Error::Protocol);
        },
    };
    if n < 0 || n > max_len {
        return Err(Error::Protocol);
    }
    let count = n as usize;
    if count > buf.len() - at {
        return Err(Error::Protocol);
    }
    let stop = at + count;
    let mut out: Vec<u8> = Vec::new();
    let ghost start = at as int;
    while at < stop
        invariant
            0 <= start <= at <= stop <= buf@.len(),
            out@ == buf@.subrange(start, at as int),
        decreases stop - at,
    {
        let b = buf[at];
        out.push(b);
        proof {
            assert(out@ =~= buf@.subrange(start, at + 1));
        }
        at = at + 1;
    }
    Ok((out, stop))
}

/// Reads a big-endian 16-bit integer (network order).
pub fn read_u16_be(buf: &Vec<u8>, pos: usize) -> (r: Result<(u16, usize), Error>)
    requires
        pos <= buf@.len(),
    ensures
        match r {
            Ok(p) => {
                &&& pos + 2 <= buf@.len()
                &&& p.0 == buf@[pos as int] * 256 + buf@[pos as int + 1]
                &&& p.1 == pos + 2
            },
            Err(e) => e == Error::Protocol && pos + 2 > buf@.len(),
        },
{
    if buf.len() < 2 || pos > buf.len() - 2 {
        return Err(Error::Protocol);
    }
    let hi = buf[pos];
    let lo = buf[pos + 1];
    Ok(((hi as u16) * 256 + (lo as u16), pos + 2))
}

} // verus!
