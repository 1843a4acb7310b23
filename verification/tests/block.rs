use mini_lsm::block::Block;
use mini_lsm::block::builder::BlockBuilder;
use mini_lsm::block::iterator::BlockIterator;
use mini_lsm::Error;

#[test]
fn block_build_and_iterate() {
    let mut b = BlockBuilder::new(4096);
    assert!(b.add(b"11", b"11"));
    assert!(b.add(b"22", b"22"));
    assert!(b.add(b"33", b"33"));
    let block = b.build();
    assert_eq!(block.first_key(), Some(b"11".to_vec()));
    assert_eq!(block.last_key(), Some(b"33".to_vec()));
    // entries: 3 x (2 + 2 + 2 + 2), offsets: 3 x 2, trailer: 2
    let encoded = block.encode();
    assert_eq!(encoded.len(), 32);
    let mut it = BlockIterator::new(block);
    let mut seen: Vec<(Vec<u8>, Vec<u8>)> = Vec::new();
    while it.is_valid() {
        seen.push((it.key(), it.value()));
        it.next();
    }
    assert_eq!(
        seen,
        vec![
            (b"11".to_vec(), b"11".to_vec()),
            (b"22".to_vec(), b"22".to_vec()),
            (b"33".to_vec(), b"33".to_vec()),
        ]
    );
}

#[test]
fn block_overflow() {
    let mut b = BlockBuilder::new(16);
    // the first entry is always admitted
    assert!(b.add(b"a", b"1"));
    // a second entry would need 4 + 8 more bytes than the budget allows
    assert!(!b.add(b"b", b"2"));
    let block = b.build();
    assert_eq!(block.num_of_entries(), 1);
    assert_eq!(block.first_key(), Some(b"a".to_vec()));
    assert_eq!(block.last_key(), Some(b"a".to_vec()));
}

#[test]
fn block_encode_decode_round_trip() {
    let mut b = BlockBuilder::new(4096);
    assert!(b.add(b"apple", b"red"));
    assert!(b.add(b"banana", b""));
    assert!(b.add(b"cherry", b"dark"));
    let block = b.build();
    let encoded = block.encode();
    let back = Block::decode(encoded.as_slice()).unwrap();
    assert_eq!(back.data, block.data);
    assert_eq!(back.offsets, block.offsets);
}

#[test]
fn block_size_bound_kept() {
    // every accepted sequence without the first-entry override stays within
    // the byte budget
    let sizes = [64usize, 100, 333, 4096];
    for &s in sizes.iter() {
        let mut b = BlockBuilder::new(s);
        let mut k: Vec<u8> = Vec::new();
        loop {
            k.push(b'x');
            if !b.add(k.as_slice(), b"value") {
                break;
            }
            if k.len() > 300 {
                break;
            }
        }
        let encoded = b.build().encode();
        assert!(encoded.len() <= s);
    }
}

#[test]
fn block_decode_truncated() {
    // shorter than the trailing count
    assert!(matches!(Block::decode(&[7u8]), Err(Error::Truncated)));
    // count says two entries but no offset bytes precede it
    assert!(matches!(Block::decode(&[2u8, 0u8]), Err(Error::Truncated)));
    // an empty encoding decodes to an empty block
    let empty = Block::decode(&[0u8, 0u8]).unwrap();
    assert_eq!(empty.num_of_entries(), 0);
    assert_eq!(empty.first_key(), None);
    assert_eq!(empty.last_key(), None);
}

#[test]
fn block_iterator_seek_to_key() {
    let mut b = BlockBuilder::new(4096);
    assert!(b.add(b"bb", b"2"));
    assert!(b.add(b"dd", b"4"));
    assert!(b.add(b"ff", b"6"));
    let mut it = BlockIterator::new(b.build());
    it.seek_to_key(b"dd");
    assert!(it.is_valid());
    assert_eq!(it.key(), b"dd".to_vec());
    it.seek_to_key(b"cc");
    assert!(it.is_valid());
    assert_eq!(it.key(), b"dd".to_vec());
    it.seek_to_key(b"aa");
    assert!(it.is_valid());
    assert_eq!(it.key(), b"bb".to_vec());
    it.seek_to_key(b"zz");
    assert!(!it.is_valid());
    it.seek_to_first();
    assert_eq!(it.key(), b"bb".to_vec());
    it.seek_to(2);
    assert_eq!(it.key(), b"ff".to_vec());
    it.seek_to(3);
    assert!(!it.is_valid());
}

#[test]
fn block_single_oversized_entry() {
    // the first-entry rule admits an entry far beyond the byte budget, and
    // the encoding still round-trips
    let key = vec![b'k'; 40000];
    let value = vec![b'v'; 30000];
    let mut b = BlockBuilder::new(64);
    assert!(b.add(key.as_slice(), value.as_slice()));
    assert!(!b.add(b"z", b"1"));
    let block = b.build();
    assert_eq!(block.first_key(), Some(key.clone()));
    let encoded = block.encode();
    let back = Block::decode(encoded.as_slice()).unwrap();
    assert_eq!(back.num_of_entries(), 1);
    assert_eq!(back.first_key(), Some(key));
    let mut it = BlockIterator::new(back);
    assert_eq!(it.value(), value);
    it.next();
    assert!(!it.is_valid());
}
