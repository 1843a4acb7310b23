use mini_lsm::block::iterator::BlockIterator;
use mini_lsm::table::{BlockMeta, SsTable};
use mini_lsm::table::builder::SsTableBuilder;
use mini_lsm::Error;

fn build_eight(block_size: usize) -> SsTable {
    let mut b = SsTableBuilder::new(block_size);
    let keys: [&[u8]; 8] = [
        b"key_1", b"key_2", b"key_3", b"key_4", b"key_5", b"key_6", b"key_7", b"key_8",
    ];
    let vals: [&[u8]; 8] = [b"v1", b"v2", b"v3", b"v4", b"v5", b"v6", b"v7", b"v8"];
    for i in 0..8 {
        b.add(keys[i], vals[i]);
    }
    b.build(0)
}

#[test]
fn sst_round_trip() {
    let table = build_eight(32);
    assert!(table.num_of_blocks() >= 2);
    assert_eq!(table.first_key().as_slice(), b"key_1");
    assert_eq!(table.last_key().as_slice(), b"key_8");

    // the whole byte image opens back to the same index
    let bytes = table.bytes.clone().unwrap();
    let reopened = SsTable::open(7, bytes).unwrap();
    assert_eq!(reopened.sst_id(), 7);
    assert_eq!(reopened.num_of_blocks(), table.num_of_blocks());
    assert_eq!(reopened.first_key().as_slice(), b"key_1");
    assert_eq!(reopened.last_key().as_slice(), b"key_8");
    assert_eq!(reopened.max_ts(), 0);
    assert_eq!(reopened.table_size() as usize, table.bytes.as_ref().unwrap().len());

    // the block found for key_5 holds it
    let idx = reopened.find_block_idx(b"key_5");
    let meta = &reopened.block_meta[idx];
    assert!(meta.first_key.as_slice() <= b"key_5".as_slice());
    assert!(b"key_5".as_slice() <= meta.last_key.as_slice());

    // every block decodes to a contiguous sorted sub-range of the input
    let mut all: Vec<(Vec<u8>, Vec<u8>)> = Vec::new();
    for i in 0..reopened.num_of_blocks() {
        let block = reopened.read_block(i).unwrap();
        let mut it = BlockIterator::new(block);
        while it.is_valid() {
            all.push((it.key(), it.value()));
            it.next();
        }
    }
    let expect: Vec<(Vec<u8>, Vec<u8>)> = (1..9u8)
        .map(|i| {
            (
                format!("key_{}", i).into_bytes(),
                format!("v{}", i).into_bytes(),
            )
        })
        .collect();
    assert_eq!(all, expect);
}

#[test]
fn sst_index_monotonic() {
    let table = build_eight(32);
    let meta = &table.block_meta;
    for i in 0..meta.len() {
        assert!(meta[i].first_key <= meta[i].last_key);
        if i + 1 < meta.len() {
            assert!(meta[i].offset < meta[i + 1].offset);
            assert!(meta[i].last_key < meta[i + 1].first_key);
        }
    }
}

#[test]
fn sst_find_block_idx_bounds() {
    let table = build_eight(32);
    // below every first key
    assert_eq!(table.find_block_idx(b"aaa"), 0);
    // above every first key: the last block
    let idx = table.find_block_idx(b"zzz");
    assert_eq!(idx, table.num_of_blocks());
    // an exact first key finds its own block
    let first_of_block0 = table.block_meta[0].first_key.clone();
    assert_eq!(table.find_block_idx(first_of_block0.as_slice()), 0);
}

#[test]
fn sst_meta_encode_decode_round_trip() {
    let metas = vec![
        BlockMeta { offset: 0, first_key: b"aa".to_vec(), last_key: b"cc".to_vec() },
        BlockMeta { offset: 40, first_key: b"dd".to_vec(), last_key: b"ff".to_vec() },
    ];
    let mut buf: Vec<u8> = Vec::new();
    BlockMeta::encode_block_meta(&metas, &mut buf);
    let back = BlockMeta::decode_block_meta(buf.as_slice()).unwrap();
    assert_eq!(back.len(), 2);
    assert_eq!(back[0].offset, 0);
    assert_eq!(back[0].first_key, b"aa".to_vec());
    assert_eq!(back[0].last_key, b"cc".to_vec());
    assert_eq!(back[1].offset, 40);
    assert_eq!(back[1].first_key, b"dd".to_vec());
    assert_eq!(back[1].last_key, b"ff".to_vec());
}

#[test]
fn sst_meta_decode_underflow() {
    // a record needs at least 24 bytes
    let buf = vec![1u8; 23];
    assert!(matches!(
        BlockMeta::decode_block_meta(buf.as_slice()),
        Err(Error::Truncated)
    ));
    // an empty region decodes to no records
    let empty: Vec<u8> = Vec::new();
    assert_eq!(BlockMeta::decode_block_meta(empty.as_slice()).unwrap().len(), 0);
}

#[test]
fn sst_open_rejects_corrupt_trailer() {
    // too short for the trailer
    assert!(SsTable::open(0, vec![1, 2, 3]).is_err());
    // trailer points past the end
    let bad = vec![0u8, 0, 0, 9];
    assert!(SsTable::open(0, bad).is_err());
}

#[test]
fn sst_meta_only_has_no_bytes() {
    let t = SsTable::create_meta_only(3, 1234, b"alpha".to_vec(), b"omega".to_vec());
    assert_eq!(t.sst_id(), 3);
    assert_eq!(t.table_size(), 1234);
    assert_eq!(t.first_key().as_slice(), b"alpha");
    assert_eq!(t.last_key().as_slice(), b"omega");
    assert_eq!(t.num_of_blocks(), 0);
    assert!(matches!(t.read_block(0), Err(Error::MissingFile)));
}

#[test]
fn sst_read_block_past_end_is_empty() {
    let table = build_eight(32);
    let n = table.num_of_blocks();
    let blk = table.read_block(n + 5).unwrap();
    assert_eq!(blk.num_of_entries(), 0);
}

#[test]
fn sst_builder_estimated_size_grows() {
    let mut b = SsTableBuilder::new(32);
    assert_eq!(b.estimated_size(), 0);
    b.add(b"key_1", b"v1");
    b.add(b"key_2", b"v2");
    // still inside the first, unflushed block
    assert_eq!(b.estimated_size(), 0);
    b.add(b"key_3", b"v3");
    // the first block was flushed by the split
    assert!(b.estimated_size() > 0);
}

#[test]
fn sst_builder_split_new_block_empty_is_silent() {
    let mut b = SsTableBuilder::new(64);
    b.split_new_block();
    assert_eq!(b.estimated_size(), 0);
    let t = b.build(0);
    assert_eq!(t.num_of_blocks(), 0);
    // an empty table still opens
    let bytes = t.bytes.clone().unwrap();
    let back = SsTable::open(0, bytes).unwrap();
    assert_eq!(back.num_of_blocks(), 0);
}

#[test]
fn sst_find_block_idx_between_blocks() {
    let table = build_eight(32);
    // a key that is no block's first key lands at its insertion point, and
    // the record before it starts at or below the key
    let idx = table.find_block_idx(b"key_45");
    assert!(idx > 0);
    assert!(table.block_meta[idx - 1].first_key.as_slice() <= b"key_45".as_slice());
    for j in 0..idx {
        assert!(table.block_meta[j].first_key.as_slice() < b"key_45".as_slice());
    }
    if idx < table.num_of_blocks() {
        assert!(table.block_meta[idx].first_key.as_slice() >= b"key_45".as_slice());
    }
}
