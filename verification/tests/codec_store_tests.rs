use shard::codec::{decode_fragment, decode_pointer, encode_fragment, encode_pointer};
use shard::index::ShardIndex;
use shard::store::FragmentStore;
use shard::types::{Data, Key, NodeFragment, NodeID, Pointer, ShardError, Value};

fn small_fragment() -> NodeFragment {
    NodeFragment {
        id: NodeID { graph: b"default".to_vec(), nodeid: b"42".to_vec() },
        keys: vec![
            Key { timestamp: 11, name: b"name".to_vec() },
            Key { timestamp: 12, name: b"uses".to_vec() },
        ],
        values: vec![
            Value { data: Data::StringData(b"Austin Harris".to_vec()) },
            Value { data: Data::StringData(b"Linux".to_vec()) },
        ],
    }
}

#[test]
fn write_buffers_round_trip() {
    let p = Pointer { partition_key: 101, offset: 202, length: 303, filename: 404 };
    let data = encode_pointer(&p);
    assert_eq!(data.len(), 32);
    // four unsigned 64-bit little-endian fields
    assert_eq!(data[0], 101);
    assert_eq!(&data[1..8], &[0u8; 7][..]);
    assert_eq!(data[8], 202);
    assert_eq!(&data[9..16], &[0u8; 7][..]);
    assert_eq!(data[16], 0x2f);
    assert_eq!(data[17], 0x01);
    assert_eq!(&data[18..24], &[0u8; 6][..]);
    assert_eq!(data[24], 0x94);
    assert_eq!(data[25], 0x01);
    assert_eq!(&data[26..32], &[0u8; 6][..]);
    let back = decode_pointer(&data).expect("an encoded pointer must decode");
    assert_eq!(back, p);
}

#[test]
fn pointer_decode_rejects_wrong_length() {
    let p = Pointer { partition_key: 1, offset: 2, length: 3, filename: 4 };
    let mut data = encode_pointer(&p);
    data.push(0);
    assert!(matches!(decode_pointer(&data), Err(ShardError::DecodeError)));
    assert!(matches!(decode_pointer(&Vec::new()), Err(ShardError::DecodeError)));
}

#[test]
fn fragment_codec_round_trip() {
    let f = small_fragment();
    let bytes = encode_fragment(&f);
    let back = decode_fragment(&bytes).expect("an encoded fragment must decode");
    assert_eq!(back.id.graph, f.id.graph);
    assert_eq!(back.id.nodeid, f.id.nodeid);
    assert_eq!(back.keys.len(), 2);
    assert_eq!(back.values.len(), 2);
    for i in 0..2 {
        assert_eq!(back.keys[i].timestamp, f.keys[i].timestamp);
        assert_eq!(back.keys[i].name, f.keys[i].name);
        let Data::StringData(ref got) = back.values[i].data;
        let Data::StringData(ref want) = f.values[i].data;
        assert_eq!(got, want);
    }
}

#[test]
fn fragment_codec_round_trip_empty_lists() {
    let f = NodeFragment {
        id: NodeID { graph: Vec::new(), nodeid: Vec::new() },
        keys: Vec::new(),
        values: Vec::new(),
    };
    let bytes = encode_fragment(&f);
    let back = decode_fragment(&bytes).expect("an encoded fragment must decode");
    assert_eq!(back.id.graph.len(), 0);
    assert_eq!(back.id.nodeid.len(), 0);
    assert_eq!(back.keys.len(), 0);
    assert_eq!(back.values.len(), 0);
}

#[test]
fn fragment_decode_rejects_malformed_bytes() {
    // truncated buffer
    let f = small_fragment();
    let bytes = encode_fragment(&f);
    let truncated = bytes[..bytes.len() - 1].to_vec();
    assert!(matches!(decode_fragment(&truncated), Err(ShardError::DecodeError)));
    // trailing garbage
    let mut padded = bytes.clone();
    padded.push(0);
    assert!(matches!(decode_fragment(&padded), Err(ShardError::DecodeError)));
    // a corrupted value tag
    let mut bad_tag = bytes.clone();
    let tag_pos = bytes.len() - (b"Linux".len() + 8 + 1);
    assert_eq!(bad_tag[tag_pos], 1);
    bad_tag[tag_pos] = 9;
    assert!(matches!(decode_fragment(&bad_tag), Err(ShardError::DecodeError)));
    // the empty buffer
    assert!(matches!(decode_fragment(&Vec::new()), Err(ShardError::DecodeError)));
}

#[test]
fn store_appends_do_not_overlap() {
    let mut store = FragmentStore::new(1, 1 << 30);
    let a = store.append(&b"aaaa".to_vec()).expect("append must fit");
    let b = store.append(&b"bbbbbb".to_vec()).expect("append must fit");
    let c = store.append(&b"cc".to_vec()).expect("append must fit");
    assert_eq!(a.filename, b.filename);
    assert_eq!(b.filename, c.filename);
    assert!(a.offset + a.length <= b.offset);
    assert!(b.offset + b.length <= c.offset);
    assert_eq!(a.offset, 0);
    assert_eq!(a.length, 4);
    assert_eq!(b.offset, 4);
    assert_eq!(c.offset, 10);
    assert_eq!(store.read_range(&a).unwrap(), b"aaaa".to_vec());
    assert_eq!(store.read_range(&b).unwrap(), b"bbbbbb".to_vec());
    assert_eq!(store.read_range(&c).unwrap(), b"cc".to_vec());
}

#[test]
fn store_rotates_files_at_the_size_threshold() {
    let mut store = FragmentStore::new(1, 8);
    let a = store.append(&b"12345678".to_vec()).expect("append must fit");
    // the first file is now at the threshold; the next append rotates
    let b = store.append(&b"abc".to_vec()).expect("append must fit");
    assert_eq!(a.filename, 0);
    assert_eq!(b.filename, 1);
    assert_eq!(b.offset, 0);
    assert_eq!(store.read_range(&a).unwrap(), b"12345678".to_vec());
    assert_eq!(store.read_range(&b).unwrap(), b"abc".to_vec());
}

#[test]
fn store_read_of_unallocated_range_fails() {
    let mut store = FragmentStore::new(1, 1 << 30);
    let a = store.append(&b"abcdef".to_vec()).expect("append must fit");
    let past_end = Pointer { partition_key: 1, offset: 4, length: 10, filename: a.filename };
    assert!(matches!(store.read_range(&past_end), Err(ShardError::StoreIOError)));
    let bad_file = Pointer { partition_key: 1, offset: 0, length: 1, filename: 9 };
    assert!(matches!(store.read_range(&bad_file), Err(ShardError::StoreIOError)));
}

#[test]
fn store_flush_marks_everything_durable() {
    let mut store = FragmentStore::new(1, 8);
    store.append(&b"12345678".to_vec()).expect("append must fit");
    store.append(&b"abc".to_vec()).expect("append must fit");
    assert_eq!(store.files[0].durable_len, 0);
    assert_eq!(store.files[1].durable_len, 0);
    store.flush();
    assert_eq!(store.files[0].durable_len, 8);
    assert_eq!(store.files[1].durable_len, 3);
}

#[test]
fn index_upsert_and_lookup() {
    let mut index = ShardIndex::new();
    let id = NodeID { graph: b"default".to_vec(), nodeid: b"n".to_vec() };
    let other = NodeID { graph: b"default".to_vec(), nodeid: b"m".to_vec() };
    assert!(index.lookup(&id).is_none());
    index.insert(
        NodeID { graph: b"default".to_vec(), nodeid: b"n".to_vec() },
        Pointer { partition_key: 1, offset: 0, length: 4, filename: 0 },
    );
    index.insert(
        NodeID { graph: b"default".to_vec(), nodeid: b"n".to_vec() },
        Pointer { partition_key: 1, offset: 4, length: 6, filename: 0 },
    );
    let got = index.lookup(&id).expect("inserted id must be found");
    assert_eq!(got.offset, 4);
    assert_eq!(got.length, 6);
    assert!(index.lookup(&other).is_none());
}
