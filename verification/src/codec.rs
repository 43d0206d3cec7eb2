//! Little-endian fixed-width integer codec, and the neutron adjacency record
//! schema built on it.
//!
//! All on-disk integers are little-endian with fixed widths: `u32` as four
//! bytes, `u64` as eight.  A neutron record is its global index followed by a
//! count-prefixed list of neighbor references.

use vstd::prelude::*;

use crate::system::NeutronStarSystem;

verus! {

/// The four little-endian bytes of `v`.
pub open spec fn le_bytes_u32(v: u32) -> Seq<u8> {
    seq![
        (v % 0x100) as u8,
        ((v / 0x100) % 0x100) as u8,
        ((v / 0x1_0000) % 0x100) as u8,
        ((v / 0x100_0000) % 0x100) as u8,
    ]
}

/// The eight little-endian bytes of `v`.
pub open spec fn le_bytes_u64(v: u64) -> Seq<u8> {
    seq![
        (v % 0x100) as u8,
        ((v / 0x100) % 0x100) as u8,
        ((v / 0x1_0000) % 0x100) as u8,
        ((v / 0x100_0000) % 0x100) as u8,
        ((v / 0x1_0000_0000) % 0x100) as u8,
        ((v / 0x100_0000_0000) % 0x100) as u8,
        ((v / 0x1_0000_0000_0000) % 0x100) as u8,
        ((v / 0x100_0000_0000_0000) % 0x100) as u8,
    ]
}

/// The `u32` encoded by four little-endian bytes.
pub open spec fn le_u32_of(b: Seq<u8>) -> u32
    recommends
        b.len() == 4,
{
    (b[0] + 0x100 * b[1] + 0x1_0000 * b[2] + 0x100_0000 * b[3]) as u32
}

/// The `u64` encoded by eight little-endian bytes.
pub open spec fn le_u64_of(b: Seq<u8>) -> u64
    recommends
        b.len() == 8,
{
    (b[0] + 0x100 * b[1] + 0x1_0000 * b[2] + 0x100_0000 * b[3] + 0x1_0000_0000 * b[4]
        + 0x100_0000_0000 * b[5] + 0x1_0000_0000_0000 * b[6] + 0x100_0000_0000_0000 * b[7]) as u64
}

/// Decoding inverts encoding for `u32`.
pub proof fn lemma_le_u32_roundtrip(v: u32)
    ensures
        le_u32_of(le_bytes_u32(v)) == v,
{
    assert(le_u32_of(le_bytes_u32(v)) == v) by (bit_vector);
}

/// Decoding inverts encoding for `u64`.
pub proof fn lemma_le_u64_roundtrip(v: u64)
    ensures
        le_u64_of(le_bytes_u64(v)) == v,
{
    assert(le_u64_of(le_bytes_u64(v)) == v) by (bit_vector);
}

/// Appends the four little-endian bytes of `v`.
pub fn encode_u32(v: u32, out: &mut Vec<u8>)
    ensures
        final(out)@ == old(out)@ + le_bytes_u32(v),
{
    out.push((v % 0x100) as u8);
    out.push(((v / 0x100) % 0x100) as u8);
    out.push(((v / 0x1_0000) % 0x100) as u8);
    out.push(((v / 0x100_0000) % 0x100) as u8);
    proof {
        assert(out@ =~= old(out)@ + le_bytes_u32(v));
    }
}

/// Appends the eight little-endian bytes of `v`.
pub fn encode_u64(v: u64, out: &mut Vec<u8>)
    ensures
        final(out)@ == old(out)@ + le_bytes_u64(v),
{
    out.push((v % 0x100) as u8);
    out.push(((v / 0x100) % 0x100) as u8);
    out.push(((v / 0x1_0000) % 0x100) as u8);
    out.push(((v / 0x100_0000) % 0x100) as u8);
    out.push(((v / 0x1_0000_0000) % 0x100) as u8);
    out.push(((v / 0x100_0000_0000) % 0x100) as u8);
    out.push(((v / 0x1_0000_0000_0000) % 0x100) as u8);
    out.push(((v / 0x100_0000_0000_0000) % 0x100) as u8);
    proof {
        assert(out@ =~= old(out)@ + le_bytes_u64(v));
    }
}

/// Reads the `u32` at byte offset `off`.
pub fn read_u32(bytes: &Vec<u8>, off: usize) -> (r: u32)
    requires
        off + 4 <= bytes@.len(),
    ensures
        r == le_u32_of(bytes@.subrange(off as int, off + 4)),
{
    let blen = bytes.len();
    proof {
        assert(off + 4 <= blen);
    }
    let b0 = bytes[off] as u32;
    let b1 = bytes[off + 1] as u32;
    let b2 = bytes[off + 2] as u32;
    let b3 = bytes[off + 3] as u32;
    let r = b0 + 0x100 * b1 + 0x1_0000 * b2 + 0x100_0000 * b3;
    proof {
        let s = bytes@.subrange(off as int, off + 4);
        assert(s[0] == bytes@[off as int] && s[1] == bytes@[off + 1] && s[2] == bytes@[off + 2]
            && s[3] == bytes@[off + 3]);
    }
    r
}

/// Reads the `u64` at byte offset `off`.
pub fn read_u64(bytes: &Vec<u8>, off: usize) -> (r: u64)
    requires
        off + 8 <= bytes@.len(),
    ensures
        r == le_u64_of(bytes@.subrange(off as int, off + 8)),
{
    let blen = bytes.len();
    proof {
        assert(off + 8 <= blen);
    }
    let b0 = bytes[off] as u64;
    let b1 = bytes[off + 1] as u64;
    let b2 = bytes[off + 2] as u64;
    let b3 = bytes[off + 3] as u64;
    let b4 = bytes[off + 4] as u64;
    let b5 = bytes[off + 5] as u64;
    let b6 = bytes[off + 6] as u64;
    let b7 = bytes[off + 7] as u64;
    let r = b0 + 0x100 * b1 + 0x1_0000 * b2 + 0x100_0000 * b3 + 0x1_0000_0000 * b4
        + 0x100_0000_0000 * b5 + 0x1_0000_0000_0000 * b6 + 0x100_0000_0000_0000 * b7;
    proof {
        let s = bytes@.subrange(off as int, off + 8);
        assert(s[0] == bytes@[off as int] && s[1] == bytes@[off + 1] && s[2] == bytes@[off + 2]
            && s[3] == bytes@[off + 3] && s[4] == bytes@[off + 4] && s[5] == bytes@[off + 5]
            && s[6] == bytes@[off + 6] && s[7] == bytes@[off + 7]);
    }
    r
}

/// The concatenated little-endian encodings of a list of `u32` values.
pub open spec fn concat_le_u32s(s: Seq<u32>) -> Seq<u8>
    decreases s.len(),
{
    if s.len() == 0 {
        Seq::empty()
    } else {
        le_bytes_u32(s.first()) + concat_le_u32s(s.drop_first())
    }
}

/// The concatenation has four bytes per value.
pub proof fn lemma_concat_le_u32s_len(s: Seq<u32>)
    ensures
        concat_le_u32s(s).len() == 4 * s.len(),
    decreases s.len(),
{
    if s.len() > 0 {
        lemma_concat_le_u32s_len(s.drop_first());
    }
}

/// A neutron record: global index, then a count-prefixed neighbor list.
pub open spec fn neutron_record_bytes(idx: u32, neighbors: Seq<u32>) -> Seq<u8> {
    le_bytes_u32(idx) + le_bytes_u64(neighbors.len() as u64) + concat_le_u32s(neighbors)
}

/// The neighbor values encoded in `b`, four bytes at a time from the front.
pub open spec fn parse_le_u32s(b: Seq<u8>) -> Seq<u32>
    decreases b.len(),
{
    if b.len() < 4 {
        Seq::empty()
    } else {
        seq![le_u32_of(b.take(4))] + parse_le_u32s(b.skip(4))
    }
}

/// The record encoded in `b`, if `b` is exactly one well-formed record.
pub open spec fn parse_neutron_record(b: Seq<u8>) -> Option<(u32, Seq<u32>)> {
    if b.len() < 12 {
        None
    } else {
        let idx = le_u32_of(b.subrange(0, 4));
        let cnt = le_u64_of(b.subrange(4, 12)) as int;
        if b.len() == 12 + 4 * cnt {
            Some((idx, parse_le_u32s(b.skip(12))))
        } else {
            None
        }
    }
}

/// Parsing inverts the list encoding.
pub proof fn lemma_parse_concat_le_u32s(s: Seq<u32>)
    ensures
        parse_le_u32s(concat_le_u32s(s)) == s,
    decreases s.len(),
{
    lemma_concat_le_u32s_len(s);
    if s.len() == 0 {
        assert(concat_le_u32s(s).len() == 0);
        assert(parse_le_u32s(concat_le_u32s(s)) =~= s);
    } else {
        let b = concat_le_u32s(s);
        lemma_concat_le_u32s_len(s.drop_first());
        assert(b.take(4) =~= le_bytes_u32(s.first()));
        assert(b.skip(4) =~= concat_le_u32s(s.drop_first()));
        lemma_le_u32_roundtrip(s.first());
        lemma_parse_concat_le_u32s(s.drop_first());
        assert(parse_le_u32s(b) =~= s) by {
            assert(parse_le_u32s(b) == seq![s.first()] + s.drop_first());
        }
    }
}

/// Parsing inverts the record encoding.
pub proof fn lemma_neutron_record_roundtrip(idx: u32, neighbors: Seq<u32>)
    requires
        neighbors.len() <= 0xffff_ffff,
    ensures
        parse_neutron_record(neutron_record_bytes(idx, neighbors)) == Some((idx, neighbors)),
{
    let b = neutron_record_bytes(idx, neighbors);
    lemma_concat_le_u32s_len(neighbors);
    assert(b.subrange(0, 4) =~= le_bytes_u32(idx));
    assert(b.subrange(4, 12) =~= le_bytes_u64(neighbors.len() as u64));
    assert(b.skip(12) =~= concat_le_u32s(neighbors));
    lemma_le_u32_roundtrip(idx);
    lemma_le_u64_roundtrip(neighbors.len() as u64);
    lemma_parse_concat_le_u32s(neighbors);
}

/// Encodes one neutron record.
pub fn encode_neutron_record(e: &NeutronStarSystem) -> (r: Vec<u8>)
    ensures
        r@ == neutron_record_bytes(e.idx, e.neighbors@),
{
    let mut out: Vec<u8> = Vec::new();
    encode_u32(e.idx, &mut out);
    encode_u64(e.neighbors.len() as u64, &mut out);
    let mut i: usize = 0;
    while i < e.neighbors.len()
        invariant
            i <= e.neighbors@.len(),
            out@ == le_bytes_u32(e.idx) + le_bytes_u64(e.neighbors@.len() as u64) + concat_le_u32s(
                e.neighbors@.take(i as int),
            ),
        decreases e.neighbors@.len() - i,
    {
        let ghost pre = e.neighbors@.take(i as int);
        encode_u32(e.neighbors[i], &mut out);
        proof {
            lemma_concat_push(pre, e.neighbors@[i as int]);
            assert(e.neighbors@.take(i + 1) =~= pre.push(e.neighbors@[i as int]));
            assert(out@ =~= le_bytes_u32(e.idx) + le_bytes_u64(e.neighbors@.len() as u64)
                + concat_le_u32s(e.neighbors@.take(i + 1)));
        }
        i = i + 1;
    }
    proof {
        assert(e.neighbors@.take(e.neighbors@.len() as int) =~= e.neighbors@);
        assert(out@ =~= neutron_record_bytes(e.idx, e.neighbors@));
    }
    out
}

/// Appending one value appends its four bytes.
proof fn lemma_concat_push(s: Seq<u32>, x: u32)
    ensures
        concat_le_u32s(s.push(x)) == concat_le_u32s(s) + le_bytes_u32(x),
    decreases s.len(),
{
    if s.len() == 0 {
        assert(s.push(x).drop_first() =~= s);
        assert(s.push(x).first() == x);
        assert(concat_le_u32s(s.push(x)) == le_bytes_u32(x) + concat_le_u32s(s));
        assert(concat_le_u32s(s) =~= Seq::<u8>::empty());
        assert(le_bytes_u32(x) + concat_le_u32s(s) =~= concat_le_u32s(s) + le_bytes_u32(x));
    } else {
        assert(s.push(x).drop_first() =~= s.drop_first().push(x));
        lemma_concat_push(s.drop_first(), x);
        assert(concat_le_u32s(s.push(x)) =~= concat_le_u32s(s) + le_bytes_u32(x));
    }
}

/// Decodes one neutron record; `None` means `b` is not exactly one
/// well-formed record.
pub fn decode_neutron_record(b: &Vec<u8>) -> (r: Option<NeutronStarSystem>)
    ensures
        r matches Some(e) ==> parse_neutron_record(b@) == Some((e.idx, e.neighbors@)),
        r is None ==> parse_neutron_record(b@) is None,
{
    let blen = b.len();
    if blen < 12 {
        return None;
    }
    let idx = read_u32(b, 0);
    let cnt = read_u64(b, 4);
    proof {
        assert(b@.subrange(0, 4) =~= b@.subrange(0int, 0int + 4));
        assert(b@.subrange(4, 12) =~= b@.subrange(4int, 4int + 8));
    }
    if cnt > 0x3fff_ffff_ffff_fffc || (blen as u64) != 12 + 4 * cnt {
        proof {
            if cnt > 0x3fff_ffff_ffff_fffc {
                assert(b@.len() < 12 + 4 * (cnt as int));
            }
        }
        return None;
    }
    let count = cnt as usize;
    let mut neighbors: Vec<u32> = Vec::new();
    let mut i: usize = 0;
    while i < count
        invariant
            b@.len() == 12 + 4 * count,
            b@.len() <= usize::MAX,
            i <= count,
            neighbors@ == parse_le_u32s(b@.skip(12).take(4 * i as int)),
            neighbors@.len() == i,
        decreases count - i,
    {
        let v = read_u32(b, 12 + 4 * i);
        proof {
            let tail = b@.skip(12);
            let pre = tail.take(4 * i as int);
            let nxt = tail.take(4 * (i + 1));
            assert(nxt =~= pre + b@.subrange(12 + 4 * i as int, 12 + 4 * i + 4));
            lemma_parse_take_step(tail, i as int);
        }
        neighbors.push(v);
        proof {
            let tail = b@.skip(12);
            assert(b@.subrange(12 + 4 * i as int, 12 + 4 * i + 4) =~= tail.take(4 * (i + 1)).skip(
                4 * i as int,
            ));
            assert(neighbors@ =~= parse_le_u32s(tail.take(4 * (i + 1))));
        }
        i = i + 1;
    }
    proof {
        assert(b@.skip(12).take(4 * count as int) =~= b@.skip(12));
    }
    Some(NeutronStarSystem { idx, neighbors })
}

/// One parsing step: the first `i + 1` values are the first `i` values plus
/// the value at position `i`.
proof fn lemma_parse_take_step(tail: Seq<u8>, i: int)
    requires
        0 <= i,
        4 * (i + 1) <= tail.len(),
    ensures
        parse_le_u32s(tail.take(4 * (i + 1))) == parse_le_u32s(tail.take(4 * i)).push(
            le_u32_of(tail.take(4 * (i + 1)).skip(4 * i)),
        ),
    decreases i,
{
    let cur = tail.take(4 * (i + 1));
    if i == 0 {
        assert(cur.len() == 4);
        assert(parse_le_u32s(cur) == seq![le_u32_of(cur.take(4))] + parse_le_u32s(cur.skip(4)));
        assert(cur.skip(4).len() == 0);
        assert(parse_le_u32s(cur.skip(4)) =~= Seq::<u32>::empty());
        assert(tail.take(0).len() == 0);
        assert(parse_le_u32s(tail.take(0)) =~= Seq::<u32>::empty());
        assert(cur.take(4) =~= cur.skip(0));
        assert(parse_le_u32s(cur) =~= parse_le_u32s(tail.take(0)).push(le_u32_of(cur.skip(0))));
    } else {
        lemma_parse_take_step(tail.skip(4), i - 1);
        let prev = tail.take(4 * i);
        assert(cur.len() == 4 * i + 4);
        assert(parse_le_u32s(cur) == seq![le_u32_of(cur.take(4))] + parse_le_u32s(cur.skip(4)));
        assert(parse_le_u32s(prev) == seq![le_u32_of(prev.take(4))] + parse_le_u32s(prev.skip(4)));
        assert(cur.take(4) =~= prev.take(4));
        assert(cur.skip(4) =~= tail.skip(4).take(4 * i));
        assert(prev.skip(4) =~= tail.skip(4).take(4 * (i - 1)));
        assert(cur.skip(4 * i) =~= tail.skip(4).take(4 * i).skip(4 * (i - 1)));
        assert(parse_le_u32s(tail.skip(4).take(4 * i)) == parse_le_u32s(
            tail.skip(4).take(4 * (i - 1)),
        ).push(le_u32_of(tail.skip(4).take(4 * i).skip(4 * (i - 1)))));
        assert(parse_le_u32s(cur) =~= parse_le_u32s(prev).push(le_u32_of(cur.skip(4 * i))));
        assert(cur.skip(4 * i) =~= cur.take(4 * (i + 1)).skip(4 * i));
        assert(cur.take(4 * (i + 1)) =~= cur);
    }
}

} // verus!
