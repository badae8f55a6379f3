//! Chunk persistence: a key-value store of world chunks, keyed by
//! dimension name and chunk column coordinates, holding a compact
//! self-describing binary serialization of each chunk record.
//!
//! Integers are stored as offset-binary 64-bit little-endian words;
//! lists carry a 64-bit element count. Decoding inverts encoding for
//! every chunk record, which is the store's round-trip guarantee.
use vstd::prelude::*;

use vstd::bytes::lemma_auto_spec_u64_to_from_le_bytes;
use vstd::bytes::spec_u64_to_le_bytes;
use vstd::bytes::u64_from_le_bytes;
use vstd::bytes::u64_to_le_bytes;
use vstd::slice::slice_subrange;

use crate::error::Error;

verus! {

/// A decoded world chunk record: a 16-wide column of the world at
/// `(x_pos, z_pos)`, starting at section `y_pos`, with its section
/// block-state and biome palettes, heightmaps, and raw block-entity
/// and structure data.
#[derive(Debug, Clone)]
pub struct Chunk {
    pub x_pos: i32,
    pub y_pos: i32,
    pub z_pos: i32,
    pub heightmaps: Vec<i64>,
    pub block_states: Vec<i64>,
    pub biomes: Vec<i64>,
    pub block_entities: Vec<u8>,
    pub structures: Vec<u8>,
}

/// The mathematical value of a chunk record.
pub ghost struct ChunkV {
    pub x_pos: i32,
    pub y_pos: i32,
    pub z_pos: i32,
    pub heightmaps: Seq<i64>,
    pub block_states: Seq<i64>,
    pub biomes: Seq<i64>,
    pub block_entities: Seq<u8>,
    pub structures: Seq<u8>,
}

impl ChunkV {
    /// Every list of a chunk held in memory fits the machine.
    pub open spec fn wf(self) -> bool {
        &&& self.heightmaps.len() <= usize::MAX
        &&& self.block_states.len() <= usize::MAX
        &&& self.biomes.len() <= usize::MAX
        &&& self.block_entities.len() <= usize::MAX
        &&& self.structures.len() <= usize::MAX
    }
}

impl View for Chunk {
    type V = ChunkV;

    open spec fn view(&self) -> ChunkV {
        ChunkV {
            x_pos: self.x_pos,
            y_pos: self.y_pos,
            z_pos: self.z_pos,
            heightmaps: self.heightmaps@,
            block_states: self.block_states@,
            biomes: self.biomes@,
            block_entities: self.block_entities@,
            structures: self.structures@,
        }
    }
}

/// The offset-binary image of a signed 64-bit value.
pub open spec fn off_i64(x: i64) -> u64 {
    (x + 0x8000_0000_0000_0000) as u64
}

/// A 64-bit word, little-endian.
pub open spec fn enc_u64(v: u64) -> Seq<u8> {
    spec_u64_to_le_bytes(v)
}

/// A signed 64-bit value, offset-binary.
pub open spec fn enc_i64(x: i64) -> Seq<u8> {
    enc_u64(off_i64(x))
}

/// A signed 32-bit value, widened.
pub open spec fn enc_i32(x: i32) -> Seq<u8> {
    enc_i64(x as i64)
}

/// A list of signed 64-bit values: element count, then the elements.
pub open spec fn enc_i64s(l: Seq<i64>) -> Seq<u8> {
    enc_u64(l.len() as u64) + enc_i64_items(l)
}

/// The elements of a list, in order.
pub open spec fn enc_i64_items(l: Seq<i64>) -> Seq<u8>
    decreases l.len(),
{
    if l.len() == 0 {
        Seq::<u8>::empty()
    } else {
        enc_i64(l[0]) + enc_i64_items(l.skip(1))
    }
}

/// A byte array: byte count, then the raw bytes.
pub open spec fn enc_bytes(b: Seq<u8>) -> Seq<u8> {
    enc_u64(b.len() as u64) + b
}

/// The serialization of a chunk record: every field in order.
pub open spec fn chunk_enc(c: ChunkV) -> Seq<u8> {
    enc_i32(c.x_pos) + enc_i32(c.y_pos) + enc_i32(c.z_pos) + enc_i64s(c.heightmaps) + enc_i64s(
        c.block_states,
    ) + enc_i64s(c.biomes) + enc_bytes(c.block_entities) + enc_bytes(c.structures)
}

/// The element encoding is 8 bytes per element, and element `i`
/// occupies bytes `8*i .. 8*i + 8`.
proof fn lemma_enc_i64_items_index(l: Seq<i64>)
    ensures
        enc_i64_items(l).len() == 8 * l.len(),
        forall|i: int|
            0 <= i < l.len() ==> enc_i64_items(l).subrange(8 * i, 8 * i + 8) == enc_i64(
                #[trigger] l[i],
            ),
    decreases l.len(),
{
    lemma_auto_spec_u64_to_from_le_bytes();
    if l.len() > 0 {
        lemma_enc_i64_items_index(l.skip(1));
        assert(enc_i64(l[0]).len() == 8);
        assert forall|i: int| 0 <= i < l.len() implies enc_i64_items(l).subrange(8 * i, 8 * i + 8)
            == enc_i64(#[trigger] l[i]) by {
            if i == 0 {
                assert(enc_i64_items(l).subrange(0, 8) =~= enc_i64(l[0]));
            } else {
                assert(l.skip(1)[i - 1] == l[i]);
                assert(enc_i64_items(l).subrange(8 * i, 8 * i + 8) =~= enc_i64_items(
                    l.skip(1),
                ).subrange(8 * (i - 1), 8 * (i - 1) + 8));
            }
        }
    }
}

/// Appending an element appends its encoding.
proof fn lemma_enc_i64_items_push(l: Seq<i64>, x: i64)
    ensures
        enc_i64_items(l.push(x)) == enc_i64_items(l) + enc_i64(x),
    decreases l.len(),
{
    if l.len() == 0 {
        assert(l.push(x)[0] == x);
        assert(l.push(x).skip(1) =~= l);
        assert(enc_i64_items(l) =~= Seq::<u8>::empty());
        assert(enc_i64_items(l.push(x)) =~= enc_i64_items(l) + enc_i64(x));
    } else {
        lemma_enc_i64_items_push(l.skip(1), x);
        assert(l.push(x).skip(1) =~= l.skip(1).push(x));
        assert(l.push(x)[0] == l[0]);
        assert(enc_i64_items(l.push(x)) =~= enc_i64_items(l) + enc_i64(x));
    }
}

/// Where the pieces of an encoded list stand, given that the list's
/// encoding stands at `pos`.
proof fn lemma_i64s_prefix_parts(data: Seq<u8>, pos: int, l: Seq<i64>)
    requires
        prefix_at(data, pos, enc_i64s(l)),
    ensures
        prefix_at(data, pos, enc_u64(l.len() as u64)),
        enc_i64s(l).len() == 8 + 8 * l.len(),
        pos + 8 + 8 * l.len() <= data.len(),
        forall|i: int|
            0 <= i < l.len() ==> prefix_at(data, pos + 8 + 8 * i, enc_i64(#[trigger] l[i])),
{
    lemma_auto_spec_u64_to_from_le_bytes();
    lemma_enc_i64_items_index(l);
    let whole = data.subrange(pos, pos + enc_i64s(l).len());
    assert(whole =~= enc_u64(l.len() as u64) + enc_i64_items(l));
    assert(data.subrange(pos, pos + 8) =~= whole.subrange(0, 8));
    assert(whole.subrange(0, 8) =~= enc_u64(l.len() as u64));
    assert forall|i: int| 0 <= i < l.len() implies prefix_at(
        data,
        pos + 8 + 8 * i,
        enc_i64(#[trigger] l[i]),
    ) by {
        assert(data.subrange(pos + 8 + 8 * i, pos + 8 + 8 * i + 8) =~= whole.subrange(
            8 + 8 * i,
            8 + 8 * i + 8,
        ));
        assert(whole.subrange(8 + 8 * i, 8 + 8 * i + 8) =~= enc_i64_items(l).subrange(
            8 * i,
            8 * i + 8,
        ));
    }
}

/// Where the pieces of an encoded byte array stand, given that the
/// array's encoding stands at `pos`.
proof fn lemma_bytes_prefix_parts(data: Seq<u8>, pos: int, b: Seq<u8>)
    requires
        prefix_at(data, pos, enc_bytes(b)),
    ensures
        prefix_at(data, pos, enc_u64(b.len() as u64)),
        enc_bytes(b).len() == 8 + b.len(),
        pos + 8 + b.len() <= data.len(),
        data.subrange(pos + 8, pos + 8 + b.len()) == b,
{
    lemma_auto_spec_u64_to_from_le_bytes();
    let whole = data.subrange(pos, pos + enc_bytes(b).len());
    assert(whole =~= enc_u64(b.len() as u64) + b);
    assert(data.subrange(pos, pos + 8) =~= whole.subrange(0, 8));
    assert(whole.subrange(0, 8) =~= enc_u64(b.len() as u64));
    assert(data.subrange(pos + 8, pos + 8 + b.len() as int) =~= whole.subrange(8, 8 + b.len() as int));
    assert(whole.subrange(8, 8 + b.len() as int) =~= b);
}

/// The offset-binary image of `x`, computed without overflow.
fn off_i64_exec(x: i64) -> (u: u64)
    ensures
        u == off_i64(x),
{
    if x >= 0 {
        (x as u64) + 0x8000_0000_0000_0000u64
    } else {
        (x - i64::MIN) as u64
    }
}

/// Inverts `off_i64`.
fn unoff_i64_exec(u: u64) -> (x: i64)
    ensures
        off_i64(x) == u,
{
    if u >= 0x8000_0000_0000_0000u64 {
        (u - 0x8000_0000_0000_0000u64) as i64
    } else {
        i64::MIN + (u as i64)
    }
}

fn encode_u64_to(out: &mut Vec<u8>, v: u64)
    ensures
        final(out)@ == old(out)@ + enc_u64(v),
{
    let mut b = u64_to_le_bytes(v);
    out.append(&mut b);
}

fn encode_i64_to(out: &mut Vec<u8>, x: i64)
    ensures
        final(out)@ == old(out)@ + enc_i64(x),
{
    encode_u64_to(out, off_i64_exec(x));
}

fn encode_i32_to(out: &mut Vec<u8>, x: i32)
    ensures
        final(out)@ == old(out)@ + enc_i32(x),
{
    encode_i64_to(out, x as i64);
}

fn encode_i64s_to(out: &mut Vec<u8>, l: &Vec<i64>)
    ensures
        final(out)@ == old(out)@ + enc_i64s(l@),
        l@.len() <= usize::MAX,
{
    encode_u64_to(out, l.len() as u64);
    let ghost base = out@;
    let mut i: usize = 0;
    while i < l.len()
        invariant
            i <= l@.len(),
            out@ == base + enc_i64_items(l@.take(i as int)),
        decreases l@.len() - i,
    {
        encode_i64_to(out, l[i]);
        proof {
            lemma_enc_i64_items_push(l@.take(i as int), l@[i as int]);
            assert(l@.take(i as int).push(l@[i as int]) =~= l@.take(i as int + 1));
            assert(base + enc_i64_items(l@.take(i as int)) + enc_i64(l@[i as int]) =~= base
                + enc_i64_items(l@.take(i as int + 1)));
        }
        i = i + 1;
    }
    proof {
        assert(l@.take(l@.len() as int) =~= l@);
        assert(base + enc_i64_items(l@) =~= old(out)@ + enc_i64s(l@));
    }
}

fn encode_bytes_to(out: &mut Vec<u8>, b: &Vec<u8>)
    ensures
        final(out)@ == old(out)@ + enc_bytes(b@),
        b@.len() <= usize::MAX,
{
    encode_u64_to(out, b.len() as u64);
    let ghost base = out@;
    let mut i: usize = 0;
    while i < b.len()
        invariant
            i <= b@.len(),
            out@ == base + b@.take(i as int),
        decreases b@.len() - i,
    {
        out.push(b[i]);
        proof {
            assert(base + b@.take(i as int) + seq![b@[i as int]] =~= base + b@.take(i as int + 1));
            assert(out@ =~= base + b@.take(i as int + 1));
        }
        i = i + 1;
    }
    proof {
        assert(b@.take(b@.len() as int) =~= b@);
        assert(base + b@ =~= old(out)@ + enc_bytes(b@));
    }
}

/// Serializes a chunk record.
pub fn encode_chunk(c: &Chunk) -> (r: Vec<u8>)
    ensures
        r@ == chunk_enc(c@),
        c@.wf(),
{
    let mut out: Vec<u8> = Vec::new();
    encode_i32_to(&mut out, c.x_pos);
    encode_i32_to(&mut out, c.y_pos);
    encode_i32_to(&mut out, c.z_pos);
    encode_i64s_to(&mut out, &c.heightmaps);
    encode_i64s_to(&mut out, &c.block_states);
    encode_i64s_to(&mut out, &c.biomes);
    encode_bytes_to(&mut out, &c.block_entities);
    encode_bytes_to(&mut out, &c.structures);
    proof {
        assert(out@ =~= chunk_enc(c@));
    }
    out
}

/// The bytes of `enc` stand at `pos` in `data`.
pub open spec fn prefix_at(data: Seq<u8>, pos: int, enc: Seq<u8>) -> bool {
    &&& 0 <= pos
    &&& pos + enc.len() <= data.len()
    &&& data.subrange(pos, pos + enc.len()) == enc
}

fn parse_u64(data: &Vec<u8>, pos: usize) -> (r: Option<(u64, usize)>)
    ensures
        r is Some ==> pos + 8 <= data@.len() && r.unwrap().1 == pos + 8,
        forall|v: u64| prefix_at(data@, pos as int, enc_u64(v)) ==> r == Some(
            (v, (pos + 8) as usize),
        ),
{
    proof {
        lemma_auto_spec_u64_to_from_le_bytes();
    }
    if data.len() < 8 || pos > data.len() - 8 {
        return None;
    }
    let s = slice_subrange(data.as_slice(), pos, pos + 8);
    let v = u64_from_le_bytes(s);
    proof {
        assert forall|w: u64| prefix_at(data@, pos as int, enc_u64(w)) implies v == w by {
            assert(s@ == enc_u64(w));
        }
    }
    Some((v, pos + 8))
}

fn parse_i64(data: &Vec<u8>, pos: usize) -> (r: Option<(i64, usize)>)
    ensures
        r is Some ==> pos + 8 <= data@.len() && r.unwrap().1 == pos + 8,
        forall|x: i64| prefix_at(data@, pos as int, enc_i64(x)) ==> r == Some(
            (x, (pos + 8) as usize),
        ),
{
    match parse_u64(data, pos) {
        None => None,
        Some((v, p)) => {
            let x = unoff_i64_exec(v);
            Some((x, p))
        },
    }
}

fn parse_i32(data: &Vec<u8>, pos: usize) -> (r: Option<(i32, usize)>)
    ensures
        r is Some ==> pos + 8 <= data@.len() && r.unwrap().1 == pos + 8,
        forall|x: i32| prefix_at(data@, pos as int, enc_i32(x)) ==> r == Some(
            (x, (pos + 8) as usize),
        ),
{
    match parse_i64(data, pos) {
        None => None,
        Some((v, p)) => {
            if v >= -0x8000_0000i64 && v <= 0x7FFF_FFFFi64 {
                Some((v as i32, p))
            } else {
                None
            }
        },
    }
}

fn parse_len(data: &Vec<u8>, pos: usize) -> (r: Option<(usize, usize)>)
    ensures
        r is Some ==> pos + 8 <= data@.len() && r.unwrap().1 == pos + 8,
        forall|v: u64| prefix_at(data@, pos as int, enc_u64(v)) ==> if v <= usize::MAX as u64 {
            r == Some((v as usize, (pos + 8) as usize))
        } else {
            r is None
        },
{
    match parse_u64(data, pos) {
        None => None,
        Some((v, p)) => {
            if v <= usize::MAX as u64 {
                Some((v as usize, p))
            } else {
                None
            }
        },
    }
}

fn parse_i64s(data: &Vec<u8>, pos: usize) -> (r: Option<(Vec<i64>, usize)>)
    ensures
        r is Some ==> pos <= r.unwrap().1 <= data@.len(),
        forall|l: Seq<i64>|
            l.len() <= usize::MAX && prefix_at(data@, pos as int, enc_i64s(l)) ==> r is Some
                && r.unwrap().0@ == l && r.unwrap().1 == pos + enc_i64s(l).len(),
{
    let (n, start) = match parse_len(data, pos) {
        None => {
            proof {
                assert forall|l: Seq<i64>|
                    l.len() <= usize::MAX && prefix_at(data@, pos as int, enc_i64s(l)) implies false
                    by {
                    lemma_i64s_prefix_parts(data@, pos as int, l);
                }
            }
            return None;
        },
        Some(p) => p,
    };
    proof {
        assert forall|l: Seq<i64>|
            l.len() <= usize::MAX && prefix_at(data@, pos as int, enc_i64s(l)) implies n == l.len()
            && start == pos + 8 by {
            lemma_i64s_prefix_parts(data@, pos as int, l);
        }
    }
    let mut out: Vec<i64> = Vec::new();
    let mut cur = start;
    let mut i: usize = 0;
    while i < n
        invariant
            i <= n,
            pos <= cur <= data@.len(),
            out@.len() == i,
            pos + 8 <= data@.len(),
            start == pos + 8,
            forall|l: Seq<i64>|
                l.len() <= usize::MAX && prefix_at(data@, pos as int, #[trigger] enc_i64s(l)) ==> n
                    == l.len() && out@ == l.take(i as int) && cur == pos + 8 + 8 * i,
        decreases n - i,
    {
        let item = match parse_i64(data, cur) {
            None => {
                proof {
                    assert forall|l: Seq<i64>|
                        l.len() <= usize::MAX && prefix_at(data@, pos as int, enc_i64s(l)) implies
                        false by {
                        lemma_i64s_prefix_parts(data@, pos as int, l);
                        assert(prefix_at(data@, cur as int, enc_i64(l[i as int])));
                    }
                }
                return None;
            },
            Some((v, p)) => {
                proof {
                    assert forall|l: Seq<i64>|
                        l.len() <= usize::MAX && prefix_at(data@, pos as int, enc_i64s(l)) implies v
                        == l[i as int] by {
                        lemma_i64s_prefix_parts(data@, pos as int, l);
                        assert(prefix_at(data@, cur as int, enc_i64(l[i as int])));
                    }
                }
                cur = p;
                v
            },
        };
        out.push(item);
        proof {
            assert forall|l: Seq<i64>|
                l.len() <= usize::MAX && prefix_at(data@, pos as int, enc_i64s(l)) implies out@
                == l.take(i as int + 1) by {
                assert(out@ =~= l.take(i as int + 1));
            }
        }
        i = i + 1;
    }
    proof {
        assert forall|l: Seq<i64>|
            l.len() <= usize::MAX && prefix_at(data@, pos as int, enc_i64s(l)) implies out@ == l
            && cur == pos + enc_i64s(l).len() by {
            lemma_i64s_prefix_parts(data@, pos as int, l);
            assert(l.take(l.len() as int) =~= l);
        }
    }
    Some((out, cur))
}

fn parse_bytes(data: &Vec<u8>, pos: usize) -> (r: Option<(Vec<u8>, usize)>)
    ensures
        r is Some ==> pos <= r.unwrap().1 <= data@.len(),
        forall|b: Seq<u8>|
            b.len() <= usize::MAX && prefix_at(data@, pos as int, enc_bytes(b)) ==> r is Some
                && r.unwrap().0@ == b && r.unwrap().1 == pos + enc_bytes(b).len(),
{
    let (n, start) = match parse_len(data, pos) {
        None => {
            proof {
                assert forall|b: Seq<u8>|
                    b.len() <= usize::MAX && prefix_at(data@, pos as int, enc_bytes(b)) implies
                    false by {
                    lemma_bytes_prefix_parts(data@, pos as int, b);
                }
            }
            return None;
        },
        Some(p) => p,
    };
    proof {
        assert forall|b: Seq<u8>|
            b.len() <= usize::MAX && prefix_at(data@, pos as int, enc_bytes(b)) implies n == b.len()
            && start == pos + 8 && pos + 8 + b.len() <= data@.len() by {
            lemma_bytes_prefix_parts(data@, pos as int, b);
        }
    }
    if n > data.len() - start {
        return None;
    }
    let stop = start + n;
    let mut out: Vec<u8> = Vec::new();
    let mut cur = start;
    while cur < stop
        invariant
            pos + 8 == start,
            start <= cur <= stop <= data@.len(),
            out@ == data@.subrange(start as int, cur as int),
        decreases stop - cur,
    {
        let x = data[cur];
        out.push(x);
        proof {
            assert(out@ =~= data@.subrange(start as int, cur + 1));
        }
        cur = cur + 1;
    }
    proof {
        assert forall|b: Seq<u8>|
            b.len() <= usize::MAX && prefix_at(data@, pos as int, enc_bytes(b)) implies out@ == b
            && stop == pos + enc_bytes(b).len() by {
            lemma_bytes_prefix_parts(data@, pos as int, b);
        }
    }
    Some((out, stop))
}

/// Deserializes a chunk record: inverts `encode_chunk` on every
/// serialized chunk.
pub fn decode_chunk(data: &Vec<u8>) -> (r: Option<Chunk>)
    ensures
        forall|c: ChunkV|
            c.wf() && data@ == chunk_enc(c) ==> r is Some && r.unwrap()@ == c,
{
    proof {
        lemma_auto_spec_u64_to_from_le_bytes();
        assert forall|c: ChunkV| c.wf() && data@ == chunk_enc(c) implies chunk_enc_parts_at(
            data@,
            c,
        ) by {
            lemma_chunk_enc_parts(data@, c);
        }
    }
    let (x_pos, p1) = match parse_i32(data, 0) {
        None => {
            return None;
        },
        Some(p) => p,
    };
    let (y_pos, p2) = match parse_i32(data, p1) {
        None => {
            return None;
        },
        Some(p) => p,
    };
    let (z_pos, p3) = match parse_i32(data, p2) {
        None => {
            return None;
        },
        Some(p) => p,
    };
    let (heightmaps, p4) = match parse_i64s(data, p3) {
        None => {
            return None;
        },
        Some(p) => p,
    };
    let (block_states, p5) = match parse_i64s(data, p4) {
        None => {
            return None;
        },
        Some(p) => p,
    };
    let (biomes, p6) = match parse_i64s(data, p5) {
        None => {
            return None;
        },
        Some(p) => p,
    };
    let (block_entities, p7) = match parse_bytes(data, p6) {
        None => {
            return None;
        },
        Some(p) => p,
    };
    let (structures, _p8) = match parse_bytes(data, p7) {
        None => {
            return None;
        },
        Some(p) => p,
    };
    Some(
        Chunk {
            x_pos,
            y_pos,
            z_pos,
            heightmaps,
            block_states,
            biomes,
            block_entities,
            structures,
        },
    )
}

/// Where each field of a serialized chunk stands in `data`.
pub open spec fn chunk_enc_parts_at(data: Seq<u8>, c: ChunkV) -> bool {
    let o3 = 24int;
    let o4 = o3 + enc_i64s(c.heightmaps).len();
    let o5 = o4 + enc_i64s(c.block_states).len();
    let o6 = o5 + enc_i64s(c.biomes).len();
    let o7 = o6 + enc_bytes(c.block_entities).len();
    let o8 = o7 + enc_bytes(c.structures).len();
    &&& data.len() == o8
    &&& prefix_at(data, 0, enc_i32(c.x_pos))
    &&& prefix_at(data, 8, enc_i32(c.y_pos))
    &&& prefix_at(data, 16, enc_i32(c.z_pos))
    &&& prefix_at(data, o3, enc_i64s(c.heightmaps))
    &&& prefix_at(data, o4, enc_i64s(c.block_states))
    &&& prefix_at(data, o5, enc_i64s(c.biomes))
    &&& prefix_at(data, o6, enc_bytes(c.block_entities))
    &&& prefix_at(data, o7, enc_bytes(c.structures))
}

/// One stored record: the serialized chunk under its composite key
/// `(dimension, x, z)`, with the chunk's value kept as a ghost
/// witness of what the bytes decode to.
struct StoreEntry {
    dim: String,
    x: i32,
    z: i32,
    data: Vec<u8>,
    chunk: Ghost<ChunkV>,
}

/// The entry's key is exactly `(d, x, z)`.
spec fn key_matches(e: StoreEntry, d: Seq<char>, x: int, z: int) -> bool {
    e.dim@ == d && e.x == x && e.z == z
}

/// The first entry under key `(d, x, z)`, if any.
spec fn find_entry(entries: Seq<StoreEntry>, d: Seq<char>, x: int, z: int) -> Option<StoreEntry>
    decreases entries.len(),
{
    if entries.len() == 0 {
        None
    } else if key_matches(entries[0], d, x, z) {
        Some(entries[0])
    } else {
        find_entry(entries.skip(1), d, x, z)
    }
}

/// Replacing the first entry under a key with another entry under
/// the same key changes only that key's record.
proof fn lemma_find_entry_update(entries: Seq<StoreEntry>, i: int, e: StoreEntry, d: Seq<char>, x: int, z: int)
    requires
        0 <= i < entries.len(),
        forall|j: int| 0 <= j < i ==> !key_matches(#[trigger] entries[j], d, x, z),
        key_matches(entries[i], d, x, z),
        key_matches(e, d, x, z),
    ensures
        find_entry(entries.update(i, e), d, x, z) == Some(e),
        forall|d2: Seq<char>, x2: int, z2: int|
            !(d2 == d && x2 == x && z2 == z) ==> #[trigger] find_entry(
                entries.update(i, e),
                d2,
                x2,
                z2,
            ) == find_entry(entries, d2, x2, z2),
    decreases entries.len(),
{
    let post = entries.update(i, e);
    if i == 0 {
        assert(post[0] == e);
        assert(post.skip(1) =~= entries.skip(1));
        assert forall|d2: Seq<char>, x2: int, z2: int|
            !(d2 == d && x2 == x && z2 == z) implies #[trigger] find_entry(post, d2, x2, z2)
            == find_entry(entries, d2, x2, z2) by {
            if key_matches(e, d2, x2, z2) {
                assert(d2 == d && x2 == x && z2 == z);
            }
            if key_matches(entries[0], d2, x2, z2) {
                assert(d2 == d && x2 == x && z2 == z);
            }
            assert(find_entry(post, d2, x2, z2) == find_entry(post.skip(1), d2, x2, z2));
            assert(find_entry(entries, d2, x2, z2) == find_entry(entries.skip(1), d2, x2, z2));
        }
    } else {
        assert(post[0] == entries[0]);
        assert(post.skip(1) =~= entries.skip(1).update(i - 1, e));
        assert(forall|j: int|
            0 <= j < i - 1 ==> !key_matches(#[trigger] entries.skip(1)[j], d, x, z));
        assert(entries.skip(1)[i - 1] == entries[i]);
        lemma_find_entry_update(entries.skip(1), i - 1, e, d, x, z);
        assert(!key_matches(entries[0], d, x, z));
        assert forall|d2: Seq<char>, x2: int, z2: int|
            !(d2 == d && x2 == x && z2 == z) implies #[trigger] find_entry(post, d2, x2, z2)
            == find_entry(entries, d2, x2, z2) by {
            if !key_matches(entries[0], d2, x2, z2) {
                assert(find_entry(post, d2, x2, z2) == find_entry(post.skip(1), d2, x2, z2));
                assert(find_entry(entries, d2, x2, z2) == find_entry(
                    entries.skip(1),
                    d2,
                    x2,
                    z2,
                ));
                assert(find_entry(entries.skip(1).update(i - 1, e), d2, x2, z2) == find_entry(
                    entries.skip(1),
                    d2,
                    x2,
                    z2,
                ));
            }
        }
    }
}

/// Appending an entry under a key that has no record yet creates
/// that key's record and changes no other.
proof fn lemma_find_entry_push(entries: Seq<StoreEntry>, e: StoreEntry, d: Seq<char>, x: int, z: int)
    requires
        find_entry(entries, d, x, z) is None,
        key_matches(e, d, x, z),
    ensures
        find_entry(entries.push(e), d, x, z) == Some(e),
        forall|d2: Seq<char>, x2: int, z2: int|
            !(d2 == d && x2 == x && z2 == z) ==> #[trigger] find_entry(entries.push(e), d2, x2, z2)
                == find_entry(entries, d2, x2, z2),
    decreases entries.len(),
{
    let post = entries.push(e);
    if entries.len() == 0 {
        assert(post[0] == e);
        assert(post.skip(1) =~= entries);
        assert forall|d2: Seq<char>, x2: int, z2: int|
            !(d2 == d && x2 == x && z2 == z) implies #[trigger] find_entry(post, d2, x2, z2)
            == find_entry(entries, d2, x2, z2) by {
            if key_matches(e, d2, x2, z2) {
                assert(d2 == d && x2 == x && z2 == z);
            }
            assert(find_entry(post, d2, x2, z2) == find_entry(post.skip(1), d2, x2, z2));
        }
    } else {
        assert(post[0] == entries[0]);
        assert(post.skip(1) =~= entries.skip(1).push(e));
        assert(!key_matches(entries[0], d, x, z));
        lemma_find_entry_push(entries.skip(1), e, d, x, z);
        assert forall|d2: Seq<char>, x2: int, z2: int|
            !(d2 == d && x2 == x && z2 == z) implies #[trigger] find_entry(post, d2, x2, z2)
            == find_entry(entries, d2, x2, z2) by {
            if !key_matches(entries[0], d2, x2, z2) {
                assert(find_entry(post, d2, x2, z2) == find_entry(post.skip(1), d2, x2, z2));
                assert(find_entry(entries, d2, x2, z2) == find_entry(
                    entries.skip(1),
                    d2,
                    x2,
                    z2,
                ));
                assert(find_entry(entries.skip(1).push(e), d2, x2, z2) == find_entry(
                    entries.skip(1),
                    d2,
                    x2,
                    z2,
                ));
            }
        }
    }
}

/// The chunk key-value store: one record per `(dimension, x, z)`,
/// holding the serialized chunk. The runtime around the library
/// offloads these calls to its blocking-capable worker pool.
pub struct Database {
    entries: Vec<StoreEntry>,
}

/// What one cell of a chunk-range result reports of the store:
/// the chunk stored at `(d, x, z)`, or `None` where none is.
pub open spec fn range_cell(db: &Database, d: Seq<char>, x: int, z: int, c: Option<Chunk>) -> bool {
    match c {
        Some(c0) => db.contains_chunk(d, x, z) && c0@ == db.chunk_at(d, x, z),
        None => !db.contains_chunk(d, x, z),
    }
}

impl Database {
    /// Whether a record is stored under `(d, x, z)`.
    pub closed spec fn contains_chunk(&self, d: Seq<char>, x: int, z: int) -> bool {
        find_entry(self.entries@, d, x, z) is Some
    }

    /// The chunk stored under `(d, x, z)`.
    pub closed spec fn chunk_at(&self, d: Seq<char>, x: int, z: int) -> ChunkV {
        find_entry(self.entries@, d, x, z).unwrap().chunk@
    }

    /// Every stored record holds the serialization of its ghost
    /// witness chunk.
    pub closed spec fn wf(&self) -> bool {
        forall|i: int|
            0 <= i < self.entries@.len() ==> (#[trigger] self.entries@[i]).data@ == chunk_enc(
                self.entries@[i].chunk@,
            ) && self.entries@[i].chunk@.wf()
    }

    pub fn new() -> (db: Database)
        ensures
            db.wf(),
            forall|d: Seq<char>, x: int, z: int| !(#[trigger] db.contains_chunk(d, x, z)),
    {
        Database { entries: Vec::new() }
    }

    /// The first index whose entry is keyed `(dim, x, z)`, if any.
    fn find(&self, dim: &String, x: i32, z: i32) -> (r: Option<usize>)
        ensures
            match r {
                Some(i) => {
                    &&& (i as int) < self.entries@.len()
                    &&& key_matches(self.entries@[i as int], dim@, x as int, z as int)
                    &&& forall|j: int|
                        0 <= j < i ==> !key_matches(
                            #[trigger] self.entries@[j],
                            dim@,
                            x as int,
                            z as int,
                        )
                    &&& find_entry(self.entries@, dim@, x as int, z as int) == Some(
                        self.entries@[i as int],
                    )
                },
                None => find_entry(self.entries@, dim@, x as int, z as int) is None,
            },
    {
        let n = self.entries.len();
        proof {
            assert(self.entries@.skip(0) =~= self.entries@);
        }
        let mut i: usize = 0;
        while i < n
            invariant
                i <= n,
                n == self.entries@.len(),
                forall|j: int|
                    0 <= j < i ==> !key_matches(#[trigger] self.entries@[j], dim@, x as int, z as int),
                find_entry(self.entries@, dim@, x as int, z as int) == find_entry(
                    self.entries@.skip(i as int),
                    dim@,
                    x as int,
                    z as int,
                ),
            decreases n - i,
        {
            let e = &self.entries[i];
            proof {
                assert(self.entries@.skip(i as int)[0] == self.entries@[i as int]);
                assert(self.entries@.skip(i as int).skip(1) =~= self.entries@.skip(i as int + 1));
            }
            if e.dim == *dim && e.x == x && e.z == z {
                return Some(i);
            }
            i = i + 1;
        }
        None
    }

    /// Inserts a chunk into the store for a dimension, keyed by the
    /// chunk's own coordinates: `Ok(true)` iff the key already held a
    /// record (which is overwritten), `Ok(false)` on first insert.
    pub fn insert_chunk(&mut self, value: Chunk, dimension: &str) -> (r: Result<bool, Error>)
        requires
            old(self).wf(),
        ensures
            final(self).wf(),
            insert_chunk_post(*old(self), *final(self), value@, dimension@, r),
    {
        let x = value.x_pos;
        let z = value.z_pos;
        let ghost cv = value@;
        let data = encode_chunk(&value);
        let dim_owned = dimension.to_owned();
        let found = self.find(&dim_owned, x, z);
        let entry = StoreEntry { dim: dim_owned, x, z, data, chunk: Ghost(cv) };
        match found {
            Some(i) => {
                let ghost pre = self.entries@;
                self.entries[i] = entry;
                proof {
                    assert(self.entries@ =~= pre.update(i as int, entry));
                    lemma_find_entry_update(pre, i as int, entry, dimension@, x as int, z as int);
                }
                Ok(true)
            },
            None => {
                let ghost pre = self.entries@;
                self.entries.push(entry);
                proof {
                    lemma_find_entry_push(pre, entry, dimension@, x as int, z as int);
                }
                Ok(false)
            },
        }
    }

    /// Updates a chunk in place; the store treats an update exactly
    /// as an insert: `Ok(true)` iff the record was replaced.
    pub fn update_chunk(&mut self, value: Chunk, dimension: String) -> (r: Result<bool, Error>)
        requires
            old(self).wf(),
        ensures
            final(self).wf(),
            insert_chunk_post(*old(self), *final(self), value@, dimension@, r),
    {
        self.insert_chunk(value, dimension.as_str())
    }

    /// Retrieves the chunk stored under `(x, z)` in a dimension:
    /// `Ok(Some(..))` iff the key holds a record.
    pub fn get_chunk(&self, x: i32, z: i32, dimension: &str) -> (r: Result<Option<Chunk>, Error>)
        requires
            self.wf(),
        ensures
            match r {
                Ok(Some(c)) => self.contains_chunk(dimension@, x as int, z as int) && c@
                    == self.chunk_at(dimension@, x as int, z as int),
                Ok(None) => !self.contains_chunk(dimension@, x as int, z as int),
                Err(_) => false,
            },
    {
        let dim_owned = dimension.to_owned();
        match self.find(&dim_owned, x, z) {
            None => Ok(None),
            Some(i) => {
                let entry = &self.entries[i];
                match decode_chunk(&entry.data) {
                    Some(c) => Ok(Some(c)),
                    None => {
                        proof {
                            assert(false);
                        }
                        Err(Error::Deserialize)
                    },
                }
            },
        }
    }

    /// Retrieves the rectangle of chunks with `start` inclusive and
    /// `end` exclusive in both axes, in row-major order with `x`
    /// outermost and `z` innermost: exactly
    /// `(end.0 - start.0) * (end.1 - start.1)` entries, one per
    /// coordinate, `None` where no record is stored.
    pub fn get_chunk_range(&self, start: (i32, i32), end: (i32, i32), dimension: &str) -> (r:
        Result<Vec<Option<Chunk>>, Error>)
        requires
            self.wf(),
        ensures
            ({
                let dx: int = if end.0 > start.0 { end.0 - start.0 } else { 0 };
                let dz: int = if end.1 > start.1 { end.1 - start.1 } else { 0 };
                match r {
                    Ok(v) => {
                        &&& v@.len() == dx * dz
                        &&& forall|i: int, j: int|
                            0 <= i < dx && 0 <= j < dz ==> range_cell(
                                self,
                                dimension@,
                                start.0 + i,
                                start.1 + j,
                                #[trigger] v@[i * dz + j],
                            )
                    },
                    Err(_) => false,
                }
            }),
    {
        let mut results: Vec<Option<Chunk>> = Vec::new();
        if start.0 >= end.0 || start.1 >= end.1 {
            return Ok(results);
        }
        let ghost dz = end.1 - start.1;
        let mut x = start.0;
        while x < end.0
            invariant
                self.wf(),
                start.0 <= x <= end.0,
                start.1 < end.1,
                dz == end.1 - start.1,
                results@.len() == (x - start.0) * dz,
                forall|i: int, j: int|
                    0 <= i < x - start.0 && 0 <= j < dz ==> range_cell(
                        self,
                        dimension@,
                        start.0 + i,
                        start.1 + j,
                        #[trigger] results@[i * dz + j],
                    ),
            decreases end.0 - x,
        {
            let ghost xi = x - start.0;
            let mut z = start.1;
            while z < end.1
                invariant
                    self.wf(),
                    start.0 <= x < end.0,
                    start.1 <= z <= end.1,
                    dz == end.1 - start.1,
                    xi == x - start.0,
                    results@.len() == xi * dz + (z - start.1),
                    forall|i: int, j: int|
                        0 <= i < xi && 0 <= j < dz ==> range_cell(
                            self,
                            dimension@,
                            start.0 + i,
                            start.1 + j,
                            #[trigger] results@[i * dz + j],
                        ),
                    forall|j: int|
                        0 <= j < z - start.1 ==> range_cell(
                            self,
                            dimension@,
                            x as int,
                            start.1 + j,
                            #[trigger] results@[xi * dz + j],
                        ),
                decreases end.1 - z,
            {
                let cell = match self.get_chunk(x, z, dimension) {
                    Ok(c) => c,
                    Err(e) => {
                        return Err(e);
                    },
                };
                let ghost pre = results@;
                results.push(cell);
                proof {
                    assert forall|i: int, j: int| 0 <= i < xi && 0 <= j < dz implies range_cell(
                        self,
                        dimension@,
                        start.0 + i,
                        start.1 + j,
                        #[trigger] results@[i * dz + j],
                    ) by {
                        assert(i * dz + j < xi * dz) by (nonlinear_arith)
                            requires 0 <= i < xi, 0 <= j < dz;
                        assert(results@[i * dz + j] == pre[i * dz + j]);
                    }
                    assert(results@[xi * dz + (z - start.1)] == cell);
                }
                z = z + 1;
            }
            proof {
                assert((xi + 1) * dz == xi * dz + dz) by (nonlinear_arith);
                assert forall|i: int, j: int| 0 <= i < xi + 1 && 0 <= j < dz implies range_cell(
                    self,
                    dimension@,
                    start.0 + i,
                    start.1 + j,
                    #[trigger] results@[i * dz + j],
                ) by {
                    if i == xi {
                        assert(range_cell(
                            self,
                            dimension@,
                            x as int,
                            start.1 + j,
                            results@[xi * dz + j],
                        ));
                    }
                }
            }
            x = x + 1;
        }
        Ok(results)
    }

    /// Whether a record is stored under `(x, z)` in a dimension.
    pub fn chunk_exists(&self, x: i32, z: i32, dimension: String) -> (r: Result<bool, Error>)
        ensures
            r == Ok::<bool, Error>(self.contains_chunk(dimension@, x as int, z as int)),
    {
        match self.find(&dimension, x, z) {
            Some(_) => Ok(true),
            None => Ok(false),
        }
    }
}

/// What one insert (or update) does to the store: the record under
/// the chunk's own key is exactly the given chunk, the result says
/// whether the key already held a record, and every other key's
/// record is untouched.
pub open spec fn insert_chunk_post(
    pre: Database,
    post: Database,
    c: ChunkV,
    d: Seq<char>,
    r: Result<bool, Error>,
) -> bool {
    &&& r == Ok::<bool, Error>(pre.contains_chunk(d, c.x_pos as int, c.z_pos as int))
    &&& post.contains_chunk(d, c.x_pos as int, c.z_pos as int)
    &&& post.chunk_at(d, c.x_pos as int, c.z_pos as int) == c
    &&& forall|d2: Seq<char>, x2: int, z2: int|
        !(d2 == d && x2 == c.x_pos as int && z2 == c.z_pos as int) ==> {
            &&& #[trigger] post.contains_chunk(d2, x2, z2) == pre.contains_chunk(d2, x2, z2)
            &&& post.chunk_at(d2, x2, z2) == pre.chunk_at(d2, x2, z2)
        }
}

/// Law: the chunk store round-trips. After an insert of chunk `c`
/// under dimension `d`, the store holds exactly `c` under
/// `(d, c.x_pos, c.z_pos)` — so a get at those coordinates returns a
/// chunk equal to `c` — and the insert reported whether the key
/// already existed.
pub proof fn lemma_chunk_store_round_trip(
    pre: Database,
    post: Database,
    c: ChunkV,
    d: Seq<char>,
    r: Result<bool, Error>,
)
    requires
        insert_chunk_post(pre, post, c, d, r),
    ensures
        post.contains_chunk(d, c.x_pos as int, c.z_pos as int),
        post.chunk_at(d, c.x_pos as int, c.z_pos as int) == c,
        r == Ok::<bool, Error>(pre.contains_chunk(d, c.x_pos as int, c.z_pos as int)),
{
}

proof fn lemma_chunk_enc_parts(data: Seq<u8>, c: ChunkV)
    requires
        data == chunk_enc(c),
    ensures
        chunk_enc_parts_at(data, c),
{
    lemma_auto_spec_u64_to_from_le_bytes();
    let o3 = 24int;
    let o4 = o3 + enc_i64s(c.heightmaps).len();
    let o5 = o4 + enc_i64s(c.block_states).len();
    let o6 = o5 + enc_i64s(c.biomes).len();
    let o7 = o6 + enc_bytes(c.block_entities).len();
    assert(data.subrange(0, 8) =~= enc_i32(c.x_pos));
    assert(data.subrange(8, 16) =~= enc_i32(c.y_pos));
    assert(data.subrange(16, 24) =~= enc_i32(c.z_pos));
    assert(data.subrange(o3, o4) =~= enc_i64s(c.heightmaps));
    assert(data.subrange(o4, o5) =~= enc_i64s(c.block_states));
    assert(data.subrange(o5, o6) =~= enc_i64s(c.biomes));
    assert(data.subrange(o6, o7) =~= enc_bytes(c.block_entities));
    assert(data.subrange(o7, o7 + enc_bytes(c.structures).len()) =~= enc_bytes(c.structures));
}

} // verus!
