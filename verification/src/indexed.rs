//! The indexed record-file format: O(1) random access to variable-length
//! binary records inside a single byte image.
//!
//! Layout, little-endian throughout: eight bytes giving the byte size of the
//! offset table, then the table itself (a count followed by one
//! `(u64 file offset, u32 record size)` pair per record), then the
//! concatenated record payloads.  `indexed_file_bytes` produces the image,
//! `IndexedFileMap::new` opens one, and `lemma_indexed_roundtrip` proves that
//! opening an image hands back exactly the records that were written.

use vstd::prelude::*;

use crate::codec::{
    encode_u32, encode_u64, le_bytes_u32, le_bytes_u64, le_u32_of, le_u64_of,
    lemma_le_u32_roundtrip, lemma_le_u64_roundtrip, read_u32, read_u64,
};

verus! {

/// Total payload size of the first `i` records.
pub open spec fn payload_len(rs: Seq<Seq<u8>>, i: int) -> int
    decreases i,
{
    if i <= 0 {
        0
    } else {
        payload_len(rs, i - 1) + rs[i - 1].len()
    }
}

/// File offset of record `i`: past the header, the table, and the payloads
/// of all earlier records.
pub open spec fn record_offset(rs: Seq<Seq<u8>>, i: int) -> int {
    16 + 12 * rs.len() + payload_len(rs, i)
}

/// The offset table for the first `i` records.
pub open spec fn table_bytes(rs: Seq<Seq<u8>>, i: int) -> Seq<u8>
    decreases i,
{
    if i <= 0 {
        Seq::empty()
    } else {
        table_bytes(rs, i - 1) + le_bytes_u64(record_offset(rs, i - 1) as u64) + le_bytes_u32(
            rs[i - 1].len() as u32,
        )
    }
}

/// The concatenated payloads of the first `i` records.
pub open spec fn payload_bytes(rs: Seq<Seq<u8>>, i: int) -> Seq<u8>
    decreases i,
{
    if i <= 0 {
        Seq::empty()
    } else {
        payload_bytes(rs, i - 1) + rs[i - 1]
    }
}

/// The records fit the format: bounded count, each record's size fits the
/// table's size field, and the whole image has a bounded length.
pub open spec fn indexed_encodable(rs: Seq<Seq<u8>>) -> bool {
    &&& rs.len() <= 0x7fff_ffff
    &&& forall|i: int| 0 <= i < rs.len() ==> (#[trigger] rs[i]).len() <= 0xffff_ffff
    &&& 16 + 12 * rs.len() + payload_len(rs, rs.len() as int) <= 0xffff_ffff_ffff
}

/// The complete byte image of an indexed file over `rs`.
pub open spec fn indexed_bytes(rs: Seq<Seq<u8>>) -> Seq<u8> {
    le_bytes_u64((8 + 12 * rs.len()) as u64) + le_bytes_u64(rs.len() as u64) + table_bytes(
        rs,
        rs.len() as int,
    ) + payload_bytes(rs, rs.len() as int)
}

pub proof fn lemma_payload_len_mono(rs: Seq<Seq<u8>>, i: int, j: int)
    requires
        0 <= i <= j,
    ensures
        0 <= payload_len(rs, i) <= payload_len(rs, j),
    decreases j,
{
    if j > 0 {
        if i <= j - 1 {
            lemma_payload_len_mono(rs, i, j - 1);
        } else {
            lemma_payload_len_mono(rs, i - 1, j - 1);
        }
    }
}

pub proof fn lemma_table_bytes_len(rs: Seq<Seq<u8>>, i: int)
    requires
        i >= 0,
    ensures
        table_bytes(rs, i).len() == 12 * i,
    decreases i,
{
    if i > 0 {
        lemma_table_bytes_len(rs, i - 1);
    }
}

pub proof fn lemma_payload_bytes_len(rs: Seq<Seq<u8>>, i: int)
    requires
        i >= 0,
    ensures
        payload_bytes(rs, i).len() == payload_len(rs, i),
    decreases i,
{
    if i > 0 {
        lemma_payload_bytes_len(rs, i - 1);
    }
}

/// The table entry for record `k` sits at table offset `12 * k`.
proof fn lemma_table_entry(rs: Seq<Seq<u8>>, i: int, k: int)
    requires
        0 <= k < i,
    ensures
        table_bytes(rs, i).len() == 12 * i,
        table_bytes(rs, i).subrange(12 * k, 12 * k + 8) == le_bytes_u64(
            record_offset(rs, k) as u64,
        ),
        table_bytes(rs, i).subrange(12 * k + 8, 12 * k + 12) == le_bytes_u32(rs[k].len() as u32),
    decreases i,
{
    lemma_table_bytes_len(rs, i);
    lemma_table_bytes_len(rs, i - 1);
    let t = table_bytes(rs, i);
    if k == i - 1 {
        assert(t.subrange(12 * k, 12 * k + 8) =~= le_bytes_u64(record_offset(rs, k) as u64));
        assert(t.subrange(12 * k + 8, 12 * k + 12) =~= le_bytes_u32(rs[k].len() as u32));
    } else {
        lemma_table_entry(rs, i - 1, k);
        assert(t.subrange(12 * k, 12 * k + 8) =~= table_bytes(rs, i - 1).subrange(
            12 * k,
            12 * k + 8,
        ));
        assert(t.subrange(12 * k + 8, 12 * k + 12) =~= table_bytes(rs, i - 1).subrange(
            12 * k + 8,
            12 * k + 12,
        ));
    }
}

/// The payload of record `k` sits at payload offset `payload_len(rs, k)`.
proof fn lemma_payload_slice(rs: Seq<Seq<u8>>, i: int, k: int)
    requires
        0 <= k < i,
    ensures
        payload_bytes(rs, i).len() == payload_len(rs, i),
        payload_bytes(rs, i).subrange(payload_len(rs, k), payload_len(rs, k) + rs[k].len())
            == rs[k],
    decreases i,
{
    lemma_payload_bytes_len(rs, i);
    lemma_payload_bytes_len(rs, i - 1);
    let p = payload_bytes(rs, i);
    if k == i - 1 {
        assert(p.subrange(payload_len(rs, k), payload_len(rs, k) + rs[k].len()) =~= rs[k]);
    } else {
        lemma_payload_slice(rs, i - 1, k);
        lemma_payload_len_mono(rs, 0, k);
        lemma_payload_len_mono(rs, k + 1, i - 1);
        assert(payload_len(rs, k) + rs[k].len() == payload_len(rs, k + 1));
        assert(p.subrange(payload_len(rs, k), payload_len(rs, k) + rs[k].len())
            =~= payload_bytes(rs, i - 1).subrange(
            payload_len(rs, k),
            payload_len(rs, k) + rs[k].len(),
        ));
    }
}

/// Count field of an image.
pub open spec fn parsed_count(b: Seq<u8>) -> int {
    le_u64_of(b.subrange(8, 16)) as int
}

/// Offset field of table entry `k`.
pub open spec fn entry_offset(b: Seq<u8>, k: int) -> int {
    le_u64_of(b.subrange(16 + 12 * k, 16 + 12 * k + 8)) as int
}

/// Size field of table entry `k`.
pub open spec fn entry_size(b: Seq<u8>, k: int) -> int {
    le_u32_of(b.subrange(16 + 12 * k + 8, 16 + 12 * k + 12)) as int
}

/// The records stored in the image `b`, or `None` when the header, the
/// table's size field, the record count, or some table entry is inconsistent
/// with the image's length.
pub open spec fn parse_indexed(b: Seq<u8>) -> Option<Seq<Seq<u8>>> {
    if b.len() < 16 {
        None
    } else {
        let ts = le_u64_of(b.subrange(0, 8)) as int;
        let cnt = parsed_count(b);
        if ts != 8 + 12 * cnt {
            None
        } else if cnt > 0xffff_ffff {
            None
        } else if b.len() < 16 + 12 * cnt {
            None
        } else if exists|k: int|
            0 <= k < cnt && entry_offset(b, k) + entry_size(b, k) > b.len() {
            None
        } else {
            Some(
                Seq::new(
                    cnt as nat,
                    |k: int| b.subrange(entry_offset(b, k), entry_offset(b, k) + entry_size(b, k)),
                ),
            )
        }
    }
}

/// Opening an image written from `rs` hands back exactly `rs`.
pub proof fn lemma_indexed_roundtrip(rs: Seq<Seq<u8>>)
    requires
        indexed_encodable(rs),
    ensures
        parse_indexed(indexed_bytes(rs)) == Some(rs),
{
    let b = indexed_bytes(rs);
    let n = rs.len() as int;
    lemma_table_bytes_len(rs, n);
    lemma_payload_bytes_len(rs, n);
    lemma_payload_len_mono(rs, 0, n);
    assert(b.len() == 16 + 12 * n + payload_len(rs, n));
    assert(b.subrange(0, 8) =~= le_bytes_u64((8 + 12 * rs.len()) as u64));
    assert(b.subrange(8, 16) =~= le_bytes_u64(rs.len() as u64));
    lemma_le_u64_roundtrip((8 + 12 * rs.len()) as u64);
    lemma_le_u64_roundtrip(rs.len() as u64);
    assert(le_u64_of(b.subrange(0, 8)) == 8 + 12 * n);
    assert(parsed_count(b) == n);
    assert forall|k: int| 0 <= k < n implies entry_offset(b, k) == record_offset(rs, k)
        && entry_size(b, k) == rs[k].len() by {
        lemma_table_entry(rs, n, k);
        assert(b.subrange(16 + 12 * k, 16 + 12 * k + 8) =~= table_bytes(rs, n).subrange(
            12 * k,
            12 * k + 8,
        ));
        assert(b.subrange(16 + 12 * k + 8, 16 + 12 * k + 12) =~= table_bytes(rs, n).subrange(
            12 * k + 8,
            12 * k + 12,
        ));
        lemma_payload_len_mono(rs, 0, k);
        lemma_payload_len_mono(rs, k, n);
        lemma_le_u64_roundtrip(record_offset(rs, k) as u64);
        lemma_le_u32_roundtrip(rs[k].len() as u32);
    }
    assert forall|k: int| 0 <= k < n implies entry_offset(b, k) + entry_size(b, k) <= b.len() by {
        lemma_payload_len_mono(rs, k + 1, n);
    }
    let parsed = Seq::new(
        n as nat,
        |k: int| b.subrange(entry_offset(b, k), entry_offset(b, k) + entry_size(b, k)),
    );
    assert(parsed =~= rs) by {
        assert forall|k: int| 0 <= k < n implies parsed[k] == rs[k] by {
            lemma_payload_slice(rs, n, k);
            lemma_payload_len_mono(rs, 0, k);
            assert(b.subrange(record_offset(rs, k), record_offset(rs, k) + rs[k].len())
                =~= payload_bytes(rs, n).subrange(
                payload_len(rs, k),
                payload_len(rs, k) + rs[k].len(),
            ));
        }
    }
    assert(parse_indexed(b) == Some(parsed));
}

/// A view over the records stored in `records`, as byte sequences.
pub open spec fn views_of(records: Seq<Vec<u8>>) -> Seq<Seq<u8>> {
    records.map_values(|v: Vec<u8>| v@)
}

/// Builds the byte image of an indexed file over the given encoded records.
pub fn indexed_file_bytes(records: &Vec<Vec<u8>>) -> (r: Vec<u8>)
    requires
        indexed_encodable(views_of(records@)),
    ensures
        r@ == indexed_bytes(views_of(records@)),
{
    let ghost rs = views_of(records@);
    let n = records.len();
    proof {
        assert(rs.len() == n);
    }
    let mut out: Vec<u8> = Vec::new();
    encode_u64(8 + 12 * (n as u64), &mut out);
    encode_u64(n as u64, &mut out);
    let ghost header = le_bytes_u64((8 + 12 * rs.len()) as u64) + le_bytes_u64(rs.len() as u64);
    proof {
        assert(out@ =~= header + table_bytes(rs, 0));
    }
    let mut cur: u64 = 16 + 12 * (n as u64);
    let mut i: usize = 0;
    while i < n
        invariant
            rs == views_of(records@),
            indexed_encodable(rs),
            n == records@.len(),
            n == rs.len(),
            i <= n,
            cur == record_offset(rs, i as int),
            out@ == header + table_bytes(rs, i as int),
            header == le_bytes_u64((8 + 12 * rs.len()) as u64) + le_bytes_u64(rs.len() as u64),
        decreases n - i,
    {
        proof {
            assert(rs[i as int] == records@[i as int]@);
            lemma_payload_len_mono(rs, 0, i as int);
            lemma_payload_len_mono(rs, i + 1, rs.len() as int);
        }
        encode_u64(cur, &mut out);
        encode_u32(records[i].len() as u32, &mut out);
        proof {
            assert(out@ =~= header + table_bytes(rs, i + 1));
        }
        cur = cur + records[i].len() as u64;
        i = i + 1;
    }
    proof {
        assert(out@ =~= header + table_bytes(rs, rs.len() as int) + payload_bytes(rs, 0));
    }
    let ghost head2 = header + table_bytes(rs, rs.len() as int);
    let mut i: usize = 0;
    while i < n
        invariant
            rs == views_of(records@),
            n == records@.len(),
            n == rs.len(),
            i <= n,
            out@ == head2 + payload_bytes(rs, i as int),
        decreases n - i,
    {
        let m = records[i].len();
        let mut j: usize = 0;
        while j < m
            invariant
                rs == views_of(records@),
                n == records@.len(),
                n == rs.len(),
                i < n,
                m == records@[i as int]@.len(),
                j <= m,
                out@ == head2 + payload_bytes(rs, i as int) + records@[i as int]@.take(j as int),
            decreases m - j,
        {
            out.push(records[i][j]);
            proof {
                assert(records@[i as int]@.take(j + 1) =~= records@[i as int]@.take(j as int).push(
                    records@[i as int]@[j as int],
                ));
                assert(out@ =~= head2 + payload_bytes(rs, i as int) + records@[i as int]@.take(
                    j + 1,
                ));
            }
            j = j + 1;
        }
        proof {
            assert(records@[i as int]@.take(m as int) =~= records@[i as int]@);
            assert(rs[i as int] == records@[i as int]@);
            assert(out@ =~= head2 + payload_bytes(rs, i + 1));
        }
        i = i + 1;
    }
    proof {
        assert(out@ =~= indexed_bytes(rs));
    }
    out
}

/// An opened indexed file: the raw image plus the decoded offset table.
pub struct IndexedFileMap {
    data: Vec<u8>,
    offset_table: Vec<(u64, u32)>,
}

impl IndexedFileMap {
    /// Every table entry stays inside the image, and the count fits `u32`.
    pub closed spec fn wf(self) -> bool {
        &&& self.offset_table@.len() <= 0xffff_ffff
        &&& forall|k: int|
            0 <= k < self.offset_table@.len() ==> (#[trigger] self.offset_table@[k]).0
                + self.offset_table@[k].1 <= self.data@.len()
    }

    /// The stored records, as byte sequences.
    pub closed spec fn records(self) -> Seq<Seq<u8>> {
        Seq::new(
            self.offset_table@.len(),
            |k: int|
                self.data@.subrange(
                    self.offset_table@[k].0 as int,
                    self.offset_table@[k].0 + self.offset_table@[k].1,
                ),
        )
    }

    /// Opens an image: decodes the header and the offset table, checking
    /// every entry against the image's length.
    pub fn new(data: Vec<u8>) -> (r: Option<IndexedFileMap>)
        ensures
            r matches Some(m) ==> m.wf() && parse_indexed(data@) == Some(m.records()),
            r is None ==> parse_indexed(data@) is None,
    {
        let dlen = data.len();
        if dlen < 16 {
            return None;
        }
        let ts = read_u64(&data, 0);
        let cnt = read_u64(&data, 8);
        proof {
            assert(data@.subrange(0, 8) =~= data@.subrange(0int, 0int + 8));
            assert(data@.subrange(8, 16) =~= data@.subrange(8int, 8int + 8));
        }
        if cnt > 0xffff_ffff {
            return None;
        }
        if ts != 8 + 12 * cnt {
            return None;
        }
        if (dlen as u64) < 16 + 12 * cnt {
            return None;
        }
        let count = cnt as usize;
        let mut table: Vec<(u64, u32)> = Vec::new();
        let mut k: usize = 0;
        while k < count
            invariant
                data@.len() == dlen,
                dlen <= usize::MAX,
                count <= 0xffff_ffff,
                16 + 12 * count <= dlen,
                parsed_count(data@) == count as int,
                le_u64_of(data@.subrange(0, 8)) == 8 + 12 * (count as int),
                k <= count,
                table@.len() == k,
                forall|j: int|
                    0 <= j < k ==> (#[trigger] table@[j]).0 == entry_offset(data@, j)
                        && table@[j].1 == entry_size(data@, j) && table@[j].0 + table@[j].1
                        <= data@.len(),
            decreases count - k,
        {
            let off = read_u64(&data, 16 + 12 * k);
            let size = read_u32(&data, 16 + 12 * k + 8);
            proof {
                assert(data@.subrange(16 + 12 * k as int, 16 + 12 * k + 8) =~= data@.subrange(
                    (16 + 12 * k) as int,
                    (16 + 12 * k) as int + 8,
                ));
                assert(data@.subrange(16 + 12 * k + 8, 16 + 12 * k + 12) =~= data@.subrange(
                    (16 + 12 * k + 8) as int,
                    (16 + 12 * k + 8) as int + 4,
                ));
            }
            if size as u64 > dlen as u64 || off > dlen as u64 - size as u64 {
                proof {
                    assert(entry_offset(data@, k as int) + entry_size(data@, k as int)
                        > data@.len());
                }
                return None;
            }
            table.push((off, size));
            k = k + 1;
        }
        let m = IndexedFileMap { data, offset_table: table };
        proof {
            let b = m.data@;
            let cnti = count as int;
            assert forall|j: int| 0 <= j < cnti implies entry_offset(b, j) + entry_size(b, j)
                <= b.len() by {
                assert(table@[j].0 == entry_offset(b, j) && table@[j].1 == entry_size(b, j));
            }
            let parsed = Seq::new(
                cnti as nat,
                |j: int| b.subrange(entry_offset(b, j), entry_offset(b, j) + entry_size(b, j)),
            );
            assert(parse_indexed(b) == Some(parsed));
            assert(m.records() =~= parsed);
        }
        Some(m)
    }

    /// Number of stored records.
    pub fn len(&self) -> (r: u32)
        requires
            self.wf(),
        ensures
            r == self.records().len(),
    {
        self.offset_table.len() as u32
    }

    /// A fresh copy of record `index`'s bytes.
    pub fn get(&self, index: u32) -> (r: Vec<u8>)
        requires
            self.wf(),
            (index as int) < self.records().len(),
        ensures
            r@ == self.records()[index as int],
    {
        let (off, size) = self.offset_table[index as usize];
        let dlen = self.data.len();
        proof {
            assert(off + size <= dlen);
        }
        let start = off as usize;
        let mut r: Vec<u8> = Vec::new();
        let mut j: usize = 0;
        while j < size as usize
            invariant
                self.data@.len() == dlen,
                off + size <= dlen,
                start == off as usize,
                j <= size,
                r@ == self.data@.subrange(off as int, off + j),
            decreases size - j,
        {
            r.push(self.data[start + j]);
            proof {
                assert(self.data@.subrange(off as int, off + j + 1) =~= self.data@.subrange(
                    off as int,
                    off + j,
                ).push(self.data@[off + j]));
            }
            j = j + 1;
        }
        proof {
            assert(r@ =~= self.records()[index as int]);
        }
        r
    }
}

} // verus!
