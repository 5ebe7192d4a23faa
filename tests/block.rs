use rusty_leveldb::block::{decode_entry_exec, Block, BlockBuilder};
use rusty_leveldb::memtable::{LookupKey, MemTable, MemtableKeyCmp};
use rusty_leveldb::options::Options;
use rusty_leveldb::types::{StandardComparator, ValueType};

fn get_data() -> Vec<(&'static [u8], &'static [u8])> {
    vec![
        ("key1".as_bytes(), "value1".as_bytes()),
        (
            "loooooooooooooooooooooooooooooooooongerkey1".as_bytes(),
            "shrtvl1".as_bytes(),
        ),
        ("medium length key 1".as_bytes(), "some value 2".as_bytes()),
        ("prefix_key1".as_bytes(), "value".as_bytes()),
        ("prefix_key2".as_bytes(), "value".as_bytes()),
        ("prefix_key3".as_bytes(), "value".as_bytes()),
    ]
}

#[test]
fn test_block_builder() {
    let mut o = Options::default();
    o.block_restart_interval = 3;

    let mut builder = BlockBuilder::new(o);

    for &(k, v) in get_data().iter() {
        builder.add(k, v);
        assert!(builder.entries() <= 3);
        assert_eq!(builder.last_key(), k);
    }

    let block = builder.finish();
    assert_eq!(block.len(), 149);
}

#[test]
fn test_block_empty() {
    let mut o = Options::default();
    o.block_restart_interval = 16;
    let builder = BlockBuilder::new(o);

    let blockc = builder.finish();
    assert_eq!(blockc.len(), 8);
    assert_eq!(blockc, vec![0, 0, 0, 0, 1, 0, 0, 0]);

    let block = Block::new(Options::default(), blockc);

    let mut it = block.iter();
    while let Some(_) = it.next() {
        panic!("expected 0 iterations");
    }
    assert!(!it.valid());
}

#[test]
fn test_block_build_iterate() {
    let data = get_data();
    let mut builder = BlockBuilder::new(Options::default());

    for &(k, v) in data.iter() {
        builder.add(k, v);
    }

    let block_contents = builder.finish();
    let mut block = Block::new(Options::default(), block_contents).iter();
    let mut i = 0;

    assert!(!block.valid());

    while let Some((k, v)) = block.next() {
        assert_eq!(&k[..], data[i].0);
        assert_eq!(v, data[i].1);
        i += 1;
    }
    assert_eq!(i, data.len());
}

#[test]
fn test_block_iterate_reverse() {
    let mut o = Options::default();
    o.block_restart_interval = 3;
    let data = get_data();
    let mut builder = BlockBuilder::new(o.clone());

    for &(k, v) in data.iter() {
        builder.add(k, v);
    }

    let block_contents = builder.finish();
    let mut block = Block::new(o.clone(), block_contents).iter();

    while let Some(_) = block.next() {}

    block.prev();
    assert!(block.valid());
    assert_eq!(
        block.current(),
        Some(("prefix_key2".as_bytes().to_vec(), "value".as_bytes().to_vec()))
    );
}

#[test]
fn test_block_seek() {
    let mut o = Options::default();
    o.block_restart_interval = 3;

    let data = get_data();
    let mut builder = BlockBuilder::new(o.clone());

    for &(k, v) in data.iter() {
        builder.add(k, v);
    }

    let block_contents = builder.finish();

    let mut block = Block::new(o.clone(), block_contents).iter();

    block.seek(&"prefix_key2".as_bytes());
    assert!(block.valid());
    assert_eq!(
        block.current(),
        Some(("prefix_key2".as_bytes().to_vec(), "value".as_bytes().to_vec()))
    );

    block.seek(&"prefix_key0".as_bytes());
    assert!(block.valid());
    assert_eq!(
        block.current(),
        Some(("prefix_key1".as_bytes().to_vec(), "value".as_bytes().to_vec()))
    );

    block.seek(&"key1".as_bytes());
    assert!(block.valid());
    assert_eq!(
        block.current(),
        Some(("key1".as_bytes().to_vec(), "value1".as_bytes().to_vec()))
    );

    block.seek(&"prefix_key3".as_bytes());
    assert!(block.valid());
    assert_eq!(
        block.current(),
        Some(("prefix_key3".as_bytes().to_vec(), "value".as_bytes().to_vec()))
    );

    block.seek(&"prefix_key8".as_bytes());
    assert!(block.valid());
    assert_eq!(
        block.current(),
        Some(("prefix_key3".as_bytes().to_vec(), "value".as_bytes().to_vec()))
    );
}

#[test]
fn test_block_seek_to_last() {
    let mut o = Options::default();

    for block_restart_interval in vec![2, 6, 10] {
        o.block_restart_interval = block_restart_interval;

        let data = get_data();
        let mut builder = BlockBuilder::new(o.clone());

        for &(k, v) in data.iter() {
            builder.add(k, v);
        }

        let block_contents = builder.finish();

        let mut block = Block::new(o.clone(), block_contents).iter();

        block.seek_to_last();
        assert!(block.valid());
        assert_eq!(
            block.current(),
            Some(("prefix_key3".as_bytes().to_vec(), "value".as_bytes().to_vec()))
        );
    }
}

#[test]
fn block_seek_lower_bound_past_last_key_is_invalid() {
    let mut builder = BlockBuilder::new(Options::default());
    for &(k, v) in get_data().iter() {
        builder.add(k, v);
    }
    let mut it = Block::new(Options::default(), builder.finish()).iter();
    it.seek_lower_bound("zzz".as_bytes());
    assert!(!it.valid());
    assert_eq!(it.current(), None);
    it.seek_lower_bound("prefix_key20".as_bytes());
    assert_eq!(
        it.current(),
        Some(("prefix_key3".as_bytes().to_vec(), "value".as_bytes().to_vec()))
    );
}

#[test]
fn block_seek_every_restart_interval() {
    let data = get_data();
    for interval in 1..8 {
        let mut o = Options::default();
        o.block_restart_interval = interval;
        let mut builder = BlockBuilder::new(o);
        for &(k, v) in data.iter() {
            builder.add(k, v);
        }
        let mut it = Block::new(o, builder.finish()).iter();
        for &(k, v) in data.iter() {
            it.seek(k);
            assert_eq!(it.current(), Some((k.to_vec(), v.to_vec())));
        }
        it.seek("".as_bytes());
        assert_eq!(it.current(), Some((data[0].0.to_vec(), data[0].1.to_vec())));
    }
}

#[test]
fn block_prev_walks_back_to_start() {
    let data = get_data();
    let mut o = Options::default();
    o.block_restart_interval = 2;
    let mut builder = BlockBuilder::new(o);
    for &(k, v) in data.iter() {
        builder.add(k, v);
    }
    let mut it = Block::new(o, builder.finish()).iter();
    it.seek_to_last();
    let mut i = data.len() - 1;
    loop {
        assert_eq!(it.current(), Some((data[i].0.to_vec(), data[i].1.to_vec())));
        if !it.prev() {
            break;
        }
        i -= 1;
    }
    assert_eq!(i, 0);
    assert!(!it.valid());
}

#[test]
fn block_restart_layout_and_size_estimate() {
    let mut o = Options::default();
    o.block_restart_interval = 2;
    let mut builder = BlockBuilder::new(o);
    assert_eq!(builder.size_estimate(), 8);
    builder.add("ab".as_bytes(), "1".as_bytes());
    assert_eq!(builder.size_estimate(), 3 + 2 + 1 + 8);
    builder.add("ac".as_bytes(), "2".as_bytes());
    builder.add("b".as_bytes(), "3".as_bytes());
    let contents = builder.finish();
    // entries: [0,2,1,a,b,1] [1,1,1,c,2] [0,1,1,b,3]; restarts 0 and 11; count 2
    assert_eq!(
        contents,
        vec![
            0, 2, 1, 97, 98, 49, 1, 1, 1, 99, 50, 0, 1, 1, 98, 51, 0, 0, 0, 0, 11, 0, 0, 0, 2,
            0, 0, 0
        ]
    );
}

#[test]
fn block_entry_round_trip() {
    let bytes = vec![3u8, 4, 5, 1, 2, 3, 4, 9, 9, 9, 9, 9, 77];
    let (shared, non_shared, valsize, header) = decode_entry_exec(&bytes).unwrap();
    assert_eq!((shared, non_shared, valsize, header), (3, 4, 5, 3));
    assert_eq!(&bytes[header..header + non_shared], &[1, 2, 3, 4]);
    assert_eq!(&bytes[header + non_shared..header + non_shared + valsize], &[9, 9, 9, 9, 9]);
    assert_eq!(decode_entry_exec(&bytes[..10]), None);
}

#[test]
fn block_builder_reset_starts_over() {
    let mut builder = BlockBuilder::new(Options::default());
    builder.add("a".as_bytes(), "b".as_bytes());
    builder.reset();
    assert_eq!(builder.entries(), 0);
    assert_eq!(builder.last_key(), "".as_bytes());
    assert_eq!(builder.finish(), vec![0, 0, 0, 0, 1, 0, 0, 0]);
}

#[test]
fn block_under_memtable_key_order() {
    use_memtable_order();
}

fn use_memtable_order() {
    let key = |k: &[u8], seq: u64| {
        MemTable::<StandardComparator>::build_memtable_key(k, b"", ValueType::TypeValue, seq)
    };
    let mut o = Options::default();
    o.block_restart_interval = 2;
    let mut builder = BlockBuilder::with_comparator(o, MemtableKeyCmp::<StandardComparator>::new());
    let keys = vec![key(b"a", 5), key(b"a", 3), key(b"b", 9), key(b"b", 1), key(b"c", 2)];
    for k in keys.iter() {
        builder.add(k, b"v");
    }
    let block = Block::with_comparator(o, builder.finish(), MemtableKeyCmp::<StandardComparator>::new());
    let mut it = block.iter();
    it.seek_lower_bound(LookupKey::new(b"a", 4).memtable_key());
    assert_eq!(it.current(), Some((keys[1].clone(), b"v".to_vec())));
    it.seek_lower_bound(LookupKey::new(b"b", 100).memtable_key());
    assert_eq!(it.current(), Some((keys[2].clone(), b"v".to_vec())));
    it.seek_lower_bound(LookupKey::new(b"b", 0).memtable_key());
    assert_eq!(it.current(), Some((keys[4].clone(), b"v".to_vec())));
}

#[test]
fn cursor_outlives_block_and_shares_its_bytes() {
    let mut builder = BlockBuilder::new(Options::default());
    builder.add(b"a", b"1");
    let block = Block::new(Options::default(), builder.finish());
    let shared = block.contents();
    let mut it = block.iter();
    drop(block);
    assert_eq!(it.next(), Some((b"a".to_vec(), b"1".to_vec())));
    assert_eq!(shared.len(), 3 + 1 + 1 + 8);
}

#[test]
fn block_collect_entries_round_trip() {
    let data = get_data();
    for interval in 1..5 {
        let mut o = Options::default();
        o.block_restart_interval = interval;
        let mut builder = BlockBuilder::new(o);
        for &(k, v) in data.iter() {
            builder.add(k, v);
        }
        let mut it = Block::new(o, builder.finish()).iter();
        let all = it.collect_entries();
        let expected: Vec<(Vec<u8>, Vec<u8>)> =
            data.iter().map(|&(k, v)| (k.to_vec(), v.to_vec())).collect();
        assert_eq!(all, expected);
        assert!(!it.valid());
    }
}
