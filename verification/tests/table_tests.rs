use sstable::Block;
use sstable::BlockBuilder;
use sstable::SsTable;
use sstable::SsTableIterator;
use std::sync::Arc;

fn block_of(pairs: &[(&[u8], &[u8])]) -> Block {
    let mut builder = BlockBuilder::new(4096);
    for (k, v) in pairs {
        let accepted = builder.add(k, v);
        assert!(accepted, "pair unexpectedly rejected");
    }
    builder.build()
}

fn three_block_table() -> Arc<SsTable> {
    let b0 = block_of(&[(b"a", b"1"), (b"c", b"2")]);
    let b1 = block_of(&[(b"e", b"3"), (b"g", b"4")]);
    let b2 = block_of(&[(b"i", b"5"), (b"k", b"6")]);
    Arc::new(SsTable::new(vec![b0, b1, b2]))
}

#[test]
fn table_traversal_in_global_order() {
    let table = three_block_table();
    let expected: [(&[u8], &[u8]); 6] = [
        (b"a", b"1"),
        (b"c", b"2"),
        (b"e", b"3"),
        (b"g", b"4"),
        (b"i", b"5"),
        (b"k", b"6"),
    ];
    let mut it = SsTableIterator::create_and_seek_to_first(Arc::clone(&table)).unwrap();
    let mut n = 0;
    while it.is_valid() {
        let (k, v) = expected[n];
        assert_eq!(it.key(), k);
        assert_eq!(it.value(), v);
        it.next().unwrap();
        n += 1;
    }
    // invalid exactly after the last entry of the last block
    assert_eq!(n, 6);
}

#[test]
fn table_seek_within_block() {
    let table = three_block_table();
    let it = SsTableIterator::create_and_seek_to_key(Arc::clone(&table), b"c").unwrap();
    assert!(it.is_valid());
    assert_eq!(it.key(), &b"c"[..]);
    assert_eq!(it.value(), &b"2"[..]);

    let it = SsTableIterator::create_and_seek_to_key(Arc::clone(&table), b"f").unwrap();
    assert!(it.is_valid());
    assert_eq!(it.key(), &b"g"[..]);
}

#[test]
fn table_cross_block_seek() {
    let table = three_block_table();
    // "d" falls strictly between "c" (last key of block 0) and "e" (first
    // key of block 1): the seek must land on the first entry of block 1
    let it = SsTableIterator::create_and_seek_to_key(Arc::clone(&table), b"d").unwrap();
    assert!(it.is_valid());
    assert_eq!(it.key(), &b"e"[..]);
    assert_eq!(it.value(), &b"3"[..]);
}

#[test]
fn table_seek_past_end_is_invalid() {
    let table = three_block_table();
    let it = SsTableIterator::create_and_seek_to_key(Arc::clone(&table), b"z").unwrap();
    assert!(!it.is_valid());
}

#[test]
fn table_seek_idempotent() {
    let table = three_block_table();
    let fresh = SsTableIterator::create_and_seek_to_key(Arc::clone(&table), b"f").unwrap();
    let mut reused = SsTableIterator::create_and_seek_to_first(Arc::clone(&table)).unwrap();
    reused.seek_to_key(b"f").unwrap();
    assert_eq!(fresh.is_valid(), reused.is_valid());
    assert_eq!(fresh.key(), reused.key());
    assert_eq!(fresh.value(), reused.value());
    // seeking the same iterator again does not move it
    reused.seek_to_key(b"f").unwrap();
    assert_eq!(reused.key(), fresh.key());
}

#[test]
fn table_seek_to_first_resets() {
    let table = three_block_table();
    let mut it = SsTableIterator::create_and_seek_to_key(Arc::clone(&table), b"i").unwrap();
    assert_eq!(it.key(), &b"i"[..]);
    it.seek_to_first().unwrap();
    assert!(it.is_valid());
    assert_eq!(it.key(), &b"a"[..]);
    assert_eq!(it.value(), &b"1"[..]);
}

#[test]
fn empty_table_reports_read_error() {
    let table = Arc::new(SsTable::new(Vec::new()));
    assert_eq!(table.num_of_blocks(), 0);
    let r = SsTableIterator::create_and_seek_to_first(Arc::clone(&table));
    match r {
        Ok(_) => panic!("empty table must not yield an iterator"),
        Err(e) => assert_eq!(e.block_idx, 0),
    }
    let r = SsTableIterator::create_and_seek_to_key(Arc::clone(&table), b"a");
    assert!(r.is_err());
}

#[test]
fn read_block_out_of_range_reports_ordinal() {
    let table = three_block_table();
    assert_eq!(table.num_of_blocks(), 3);
    match table.read_block_cached(5) {
        Ok(_) => panic!("out-of-range read must fail"),
        Err(e) => assert_eq!(e.block_idx, 5),
    }
    assert!(table.read_block_cached(2).is_ok());
}

#[test]
fn find_block_idx_picks_last_at_or_before() {
    let table = three_block_table();
    // first keys are "a", "e", "i"
    assert_eq!(table.find_block_idx(b"0"), 0); // before every first key
    assert_eq!(table.find_block_idx(b"a"), 0); // equal selects that block
    assert_eq!(table.find_block_idx(b"d"), 0);
    assert_eq!(table.find_block_idx(b"e"), 1);
    assert_eq!(table.find_block_idx(b"h"), 1);
    assert_eq!(table.find_block_idx(b"i"), 2);
    assert_eq!(table.find_block_idx(b"z"), 2);
}

#[test]
fn single_block_table_traverses() {
    let b0 = block_of(&[(b"k", b"v")]);
    let table = Arc::new(SsTable::new(vec![b0]));
    let mut it = SsTableIterator::create_and_seek_to_first(table).unwrap();
    assert!(it.is_valid());
    assert_eq!(it.key(), &b"k"[..]);
    assert_eq!(it.value(), &b"v"[..]);
    it.next().unwrap();
    assert!(!it.is_valid());
}
