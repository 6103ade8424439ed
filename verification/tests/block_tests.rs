use sstable::Block;
use sstable::BlockBuilder;
use sstable::BlockIterator;
use std::sync::Arc;

fn build_block(pairs: &[(&[u8], &[u8])], block_size: usize) -> Block {
    let mut builder = BlockBuilder::new(block_size);
    for (k, v) in pairs {
        let accepted = builder.add(k, v);
        assert!(accepted, "pair unexpectedly rejected");
    }
    builder.build()
}

#[test]
fn builder_accepts_first_pair_even_oversized() {
    let mut builder = BlockBuilder::new(10);
    // first pair: estimated size would be 2 + (2 + 1 + 2 + 20) + 2 = 29 > 10,
    // but an empty builder always accepts
    let accepted = builder.add(b"a", b"xxxxxxxxxxxxxxxxxxxx");
    assert!(accepted);
    assert!(!builder.is_empty());
    // any further pair would push the estimate over the budget
    let accepted = builder.add(b"b", b"y");
    assert!(!accepted);
}

#[test]
fn builder_admission_formula() {
    // block_size = 28
    let mut builder = BlockBuilder::new(28);
    assert!(builder.is_empty());
    // builder empty: accepted regardless of the estimate
    assert!(builder.add(b"a", b"1"));
    assert!(!builder.is_empty());
    // data = 2+1+2+1 = 6, offsets = 1 -> estimate = 2*1 + 6 + 2 = 10
    // candidate: 10 + 2 + 2 + 6 = 20 <= 28 -> accepted
    assert!(builder.add(b"bb", b"22"));
    // data = 6 + 2+2+2+2 = 14, offsets = 2 -> estimate = 2*2 + 14 + 2 = 20
    // candidate: 20 + 2 + 2 + 6 = 30 > 28 -> rejected
    assert!(!builder.add(b"cc", b"33"));
    // a smaller pair still fits: 20 + 1 + 1 + 6 = 28 <= 28 -> accepted
    assert!(builder.add(b"c", b"3"));
}

#[test]
fn block_round_trip() {
    let pairs: [(&[u8], &[u8]); 3] = [
        (b"apple", b"red"),
        (b"banana", b"yellow"),
        (b"cherry", b""),
    ];
    let block = build_block(&pairs, 4096);
    let mut it = BlockIterator::create_and_seek_to_first(Arc::new(block));
    let mut seen: Vec<(Vec<u8>, Vec<u8>)> = Vec::new();
    while it.is_valid() {
        seen.push((it.key().to_vec(), it.value().to_vec()));
        it.next();
    }
    assert_eq!(seen.len(), 3);
    for (i, (k, v)) in pairs.iter().enumerate() {
        assert_eq!(seen[i].0.as_slice(), *k);
        assert_eq!(seen[i].1.as_slice(), *v);
    }
}

#[test]
fn block_seek_lands_on_first_at_or_after() {
    let pairs: [(&[u8], &[u8]); 3] = [(b"b", b"1"), (b"d", b"2"), (b"f", b"3")];
    let block = Arc::new(build_block(&pairs, 4096));

    let it = BlockIterator::create_and_seek_to_key(Arc::clone(&block), b"a");
    assert!(it.is_valid());
    assert_eq!(it.key(), &b"b"[..]);

    let it = BlockIterator::create_and_seek_to_key(Arc::clone(&block), b"c");
    assert!(it.is_valid());
    assert_eq!(it.key(), &b"d"[..]);

    // an exact hit selects that entry, not the next one
    let it = BlockIterator::create_and_seek_to_key(Arc::clone(&block), b"d");
    assert!(it.is_valid());
    assert_eq!(it.key(), &b"d"[..]);
    assert_eq!(it.value(), &b"2"[..]);

    // past every key: invalid, a normal outcome
    let it = BlockIterator::create_and_seek_to_key(Arc::clone(&block), b"g");
    assert!(!it.is_valid());
}

#[test]
fn empty_block_iterates_nothing() {
    let builder = BlockBuilder::new(64);
    let block = builder.build();
    let it = BlockIterator::create_and_seek_to_first(Arc::new(block));
    assert!(!it.is_valid());
}

#[test]
fn block_keeps_duplicate_keys_in_entry_order() {
    // the block itself does not enforce sorted keys; that invariant is the
    // builder's caller's.  Duplicates come back in the order they went in.
    let block = build_block(&[(b"k", b"first"), (b"k", b"second")], 4096);
    let mut it = BlockIterator::create_and_seek_to_first(Arc::new(block));
    assert!(it.is_valid());
    assert_eq!(it.value(), &b"first"[..]);
    it.next();
    assert!(it.is_valid());
    assert_eq!(it.key(), &b"k"[..]);
    assert_eq!(it.value(), &b"second"[..]);
    it.next();
    assert!(!it.is_valid());
}

#[test]
fn near_maximal_entry_round_trips() {
    // one entry close to the 65535-byte limit of the data region: accepted
    // unconditionally as the first pair, and read back intact
    let value = vec![7u8; 60000];
    let mut builder = BlockBuilder::new(64);
    let accepted = builder.add(b"big", &value);
    assert!(accepted);
    let mut it = BlockIterator::create_and_seek_to_first(Arc::new(builder.build()));
    assert!(it.is_valid());
    assert_eq!(it.key(), &b"big"[..]);
    assert_eq!(it.value(), value.as_slice());
    it.next();
    assert!(!it.is_valid());
}

#[test]
fn byte_order_helpers() {
    assert!(sstable::keys::bytes_lt(b"a", b"ab"));
    assert!(!sstable::keys::bytes_lt(b"ab", b"a"));
    assert!(sstable::keys::bytes_lt(b"ab", b"b"));
    assert!(!sstable::keys::bytes_lt(b"a", b"a"));
    assert!(sstable::keys::bytes_le(b"a", b"a"));
    assert!(sstable::keys::bytes_le(b"", b"a"));
    assert!(!sstable::keys::bytes_le(b"a", b""));
}
