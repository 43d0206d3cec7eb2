use neutron_route_finder::codec::{decode_neutron_record, encode_neutron_record, encode_u32, encode_u64, read_u32, read_u64};
use neutron_route_finder::{indexed_file_bytes, IndexedFileMap, NeutronStarSystem};

#[test]
fn integer_codec_round_trips() {
    let mut out: Vec<u8> = Vec::new();
    encode_u32(0xdead_beef, &mut out);
    encode_u64(0x0123_4567_89ab_cdef, &mut out);
    assert_eq!(out.len(), 12);
    assert_eq!(out[0], 0xef);
    assert_eq!(out[3], 0xde);
    assert_eq!(read_u32(&out, 0), 0xdead_beef);
    assert_eq!(read_u64(&out, 4), 0x0123_4567_89ab_cdef);
}

#[test]
fn neutron_record_round_trips() {
    let e = NeutronStarSystem { idx: 42, neighbors: vec![7, 0, 123456] };
    let bytes = encode_neutron_record(&e);
    assert_eq!(bytes.len(), 4 + 8 + 12);
    let back = decode_neutron_record(&bytes).expect("well-formed record");
    assert_eq!(back.idx, 42);
    assert_eq!(back.neighbors, vec![7, 0, 123456]);
}

#[test]
fn neutron_record_rejects_truncation() {
    let e = NeutronStarSystem { idx: 1, neighbors: vec![2, 3] };
    let mut bytes = encode_neutron_record(&e);
    bytes.pop();
    assert!(decode_neutron_record(&bytes).is_none());
    assert!(decode_neutron_record(&Vec::new()).is_none());
}

#[test]
fn indexed_file_round_trip_thousand_records() {
    let mut records: Vec<Vec<u8>> = Vec::new();
    for i in 0..1000u32 {
        let len = (i * 7) % 113;
        let mut rec = Vec::new();
        for j in 0..len {
            rec.push(((i + 3 * j) % 256) as u8);
        }
        records.push(rec);
    }
    let bytes = indexed_file_bytes(&records);
    let map = IndexedFileMap::new(bytes).expect("well-formed image");
    assert_eq!(map.len(), 1000);
    for i in 0..1000u32 {
        assert_eq!(map.get(i), records[i as usize]);
    }
}

#[test]
fn indexed_file_layout() {
    let records = vec![vec![0xaau8, 0xbb], vec![0xccu8]];
    let bytes = indexed_file_bytes(&records);
    // header: table byte size = 8 + 12 * 2
    assert_eq!(read_u64(&bytes, 0), 32);
    // count
    assert_eq!(read_u64(&bytes, 8), 2);
    // first entry: offset just past header + table, size 2
    assert_eq!(read_u64(&bytes, 16), 40);
    assert_eq!(read_u32(&bytes, 24), 2);
    // second entry
    assert_eq!(read_u64(&bytes, 28), 42);
    assert_eq!(read_u32(&bytes, 36), 1);
    assert_eq!(&bytes[40..], &[0xaa, 0xbb, 0xcc]);
}

#[test]
fn indexed_file_rejects_corrupt_images() {
    assert!(IndexedFileMap::new(Vec::new()).is_none());
    assert!(IndexedFileMap::new(vec![0u8; 15]).is_none());
    let records = vec![vec![1u8, 2, 3]];
    let good = indexed_file_bytes(&records);
    // Flip the table-size field.
    let mut bad = good.clone();
    bad[0] = bad[0].wrapping_add(1);
    assert!(IndexedFileMap::new(bad).is_none());
    // Truncate the payload: the entry now reaches past the end.
    let mut short = good.clone();
    short.pop();
    assert!(IndexedFileMap::new(short).is_none());
}

#[test]
fn neutron_records_through_indexed_file() {
    let entries = vec![
        NeutronStarSystem { idx: 5, neighbors: vec![1] },
        NeutronStarSystem { idx: 9, neighbors: vec![] },
        NeutronStarSystem { idx: 11, neighbors: vec![0, 1, 2] },
    ];
    let mut records = Vec::new();
    for e in &entries {
        records.push(encode_neutron_record(e));
    }
    let map = IndexedFileMap::new(indexed_file_bytes(&records)).expect("well-formed image");
    assert_eq!(map.len(), 3);
    for (i, e) in entries.iter().enumerate() {
        let back = decode_neutron_record(&map.get(i as u32)).expect("well-formed record");
        assert_eq!(back.idx, e.idx);
        assert_eq!(back.neighbors, e.neighbors);
    }
}
