use rusty_leveldb::block::{Block, BlockBuilder};
use rusty_leveldb::iterator::LdbIterator;
use rusty_leveldb::memtable::{MemTable, MemtableKeyCmp};
use rusty_leveldb::merging_iter::MergingIter;
use rusty_leveldb::options::Options;
use rusty_leveldb::skipmap::{SkipMap, SkipMapIter};
use rusty_leveldb::types::{Comparator, StandardComparator, ValueType};

fn b(s: &'static str) -> &'static [u8] {
    s.as_bytes()
}

fn make_map(entries: &[(&[u8], &[u8])]) -> SkipMap<StandardComparator> {
    let mut m = SkipMap::new_with_cmp(StandardComparator {});
    for &(k, v) in entries {
        m.insert(k.to_vec(), v.to_vec());
    }
    m
}

fn make_skipmap() -> SkipMap<StandardComparator> {
    let keys = ["aba", "abb", "abc", "abd", "abe", "abf", "abg", "abh", "abi", "abj"];
    let mut m = SkipMap::new_with_cmp(StandardComparator {});
    for k in keys.iter() {
        m.insert(k.as_bytes().to_vec(), b"def".to_vec());
    }
    m
}

fn current_key_val<C: Comparator, I: LdbIterator<C>>(it: &MergingIter<C, I>) -> Option<(Vec<u8>, Vec<u8>)> {
    let mut k = Vec::new();
    let mut v = Vec::new();
    if it.current(&mut k, &mut v) {
        Some((k, v))
    } else {
        None
    }
}

#[test]
fn test_merging_one() {
    let skm = make_skipmap();
    let iter = skm.iter();
    let mut iter2 = skm.iter();

    let mut miter = MergingIter::new(Options::default(), vec![iter]);

    loop {
        if let Some((k, v)) = miter.next() {
            if let Some((k2, v2)) = iter2.next() {
                assert_eq!(k, k2);
                assert_eq!(v, v2);
            } else {
                panic!("Expected element from iter2");
            }
        } else {
            break;
        }
    }
}

#[test]
fn test_merging_two() {
    let skm = make_skipmap();
    let iter = skm.iter();
    let iter2 = skm.iter();

    let mut miter = MergingIter::new(Options::default(), vec![iter, iter2]);

    loop {
        if let Some((k, v)) = miter.next() {
            if let Some((k2, v2)) = miter.next() {
                assert_eq!(k, k2);
                assert_eq!(v, v2);
            } else {
                panic!("Odd number of elements");
            }
        } else {
            break;
        }
    }
}

#[test]
fn test_merging_fwd_bckwd() {
    let val = "def".as_bytes();
    let m1 = make_map(&[(b("aba"), val), (b("abc"), val), (b("abe"), val)]);
    let m2 = make_map(&[(b("abb"), val), (b("abd"), val)]);

    let mut miter = MergingIter::new(Options::default(), vec![m1.iter(), m2.iter()]);

    let first = miter.next();
    let second = miter.next();
    let third = miter.next();
    println!("{:?} {:?} {:?}", first, second, third);

    assert!(first != third);
    assert!(miter.prev());
    assert_eq!(second, current_key_val(&miter));
    assert!(miter.prev());
    assert_eq!(first, current_key_val(&miter));
    assert!(miter.advance());
    assert_eq!(second, current_key_val(&miter));
    assert!(miter.advance());
    assert_eq!(third, current_key_val(&miter));
    assert!(miter.advance());
    assert_eq!(Some((b("abd").to_vec(), val.to_vec())), current_key_val(&miter));
}

#[test]
fn test_merging_real() {
    let val = "def".as_bytes();

    let m1 = make_map(&[(b("aba"), val), (b("abc"), val), (b("abe"), val)]);
    let m2 = make_map(&[(b("abb"), val), (b("abd"), val)]);
    let expected = vec![b("aba"), b("abb"), b("abc"), b("abd"), b("abe")];

    let mut iter = MergingIter::new(Options::default(), vec![m1.iter(), m2.iter()]);

    let mut i = 0;
    while let Some((k, _)) = iter.next() {
        assert_eq!(k, expected[i]);
        i += 1;
    }
    assert_eq!(i, expected.len());
}

#[test]
fn test_merging_seek_reset() {
    let val = "def".as_bytes();

    let m1 = make_map(&[(b("aba"), val), (b("abc"), val), (b("abe"), val)]);
    let m2 = make_map(&[(b("abb"), val), (b("abd"), val)]);

    let mut iter = MergingIter::new(Options::default(), vec![m1.iter(), m2.iter()]);

    assert!(!iter.valid());
    iter.advance();
    assert!(iter.valid());
    assert!(current_key_val(&iter).is_some());

    iter.seek("abc".as_bytes());
    assert_eq!(current_key_val(&iter), Some((b("abc").to_vec(), val.to_vec())));
    iter.seek("ab0".as_bytes());
    assert_eq!(current_key_val(&iter), Some((b("aba").to_vec(), val.to_vec())));
    iter.seek("abx".as_bytes());
    assert_eq!(current_key_val(&iter), None);

    iter.reset();
    assert!(!iter.valid());
    iter.next();
    assert_eq!(current_key_val(&iter), Some((b("aba").to_vec(), val.to_vec())));
}

#[test]
fn merging_prev_at_first_key_is_invalid() {
    let val = b("v");
    let m1 = make_map(&[(b("b"), val), (b("d"), val)]);
    let m2 = make_map(&[(b("a"), val), (b("c"), val)]);
    let mut iter = MergingIter::new(Options::default(), vec![m1.iter(), m2.iter()]);
    assert!(iter.advance());
    assert_eq!(current_key_val(&iter), Some((b("a").to_vec(), val.to_vec())));
    assert!(!iter.prev());
    assert!(!iter.valid());
}

#[test]
fn merging_backward_from_the_end() {
    let val = b("v");
    let m1 = make_map(&[(b("b"), val), (b("d"), val), (b("e"), val)]);
    let m2 = make_map(&[(b("a"), val), (b("c"), val)]);
    let mut iter = MergingIter::new(Options::default(), vec![m1.iter(), m2.iter()]);
    iter.seek(b("e"));
    let mut seen = Vec::new();
    loop {
        let (k, _) = current_key_val(&iter).unwrap();
        seen.push(k);
        if !iter.prev() {
            break;
        }
    }
    assert_eq!(seen, vec![b"e".to_vec(), b"d".to_vec(), b"c".to_vec(), b"b".to_vec(), b"a".to_vec()]);
}

#[test]
fn merging_blocks() {
    let mut b1 = BlockBuilder::new(Options::default());
    b1.add(b("k1"), b("1"));
    b1.add(b("k3"), b("3"));
    let mut b2 = BlockBuilder::new(Options::default());
    b2.add(b("k2"), b("2"));
    let blk1 = Block::new(Options::default(), b1.finish());
    let blk2 = Block::new(Options::default(), b2.finish());
    let mut iter: MergingIter<StandardComparator, _> =
        MergingIter::new(Options::default(), vec![blk1.iter(), blk2.iter()]);
    let mut keys = Vec::new();
    while let Some((k, _)) = iter.next() {
        keys.push(k);
    }
    assert_eq!(keys, vec![b"k1".to_vec(), b"k2".to_vec(), b"k3".to_vec()]);
}

#[test]
fn merging_no_children() {
    let mut iter: MergingIter<StandardComparator, SkipMapIter<StandardComparator>> =
        MergingIter::new(Options::default(), Vec::new());
    assert!(!iter.advance());
    assert!(!iter.valid());
}

#[test]
fn merging_equal_keys_come_in_child_order() {
    let m1 = make_map(&[(b("k"), b("first")), (b("m"), b("first"))]);
    let m2 = make_map(&[(b("a"), b("second")), (b("k"), b("second"))]);
    let mut iter = MergingIter::new(Options::default(), vec![m1.iter(), m2.iter()]);
    let mut seen = Vec::new();
    while let Some((k, v)) = iter.next() {
        seen.push((k, v));
    }
    assert_eq!(
        seen,
        vec![
            (b"a".to_vec(), b"second".to_vec()),
            (b"k".to_vec(), b"first".to_vec()),
            (b"k".to_vec(), b"second".to_vec()),
            (b"m".to_vec(), b"first".to_vec()),
        ]
    );
    iter.seek(b("k"));
    assert_eq!(current_key_val(&iter), Some((b"k".to_vec(), b"first".to_vec())));
}

#[test]
fn merging_memtable_maps_under_their_own_order() {
    let mut m1 = MemTable::new();
    m1.add(5, ValueType::TypeValue, &b"k".to_vec(), &b"old".to_vec());
    let mut m2 = MemTable::new();
    m2.add(9, ValueType::TypeValue, &b"k".to_vec(), &b"new".to_vec());
    let mut iter: MergingIter<MemtableKeyCmp<StandardComparator>, _> =
        MergingIter::new(Options::default(), vec![m1.map_iter(), m2.map_iter()]);
    let (first, _) = iter.next().unwrap();
    // the newer version of the same user key sorts first
    assert_eq!(first, MemTable::<StandardComparator>::build_memtable_key(b"k", b"new", ValueType::TypeValue, 9));
    assert!(iter.advance());
    assert!(!iter.advance());
}

#[test]
fn merging_collect_entries_gives_the_merge() {
    let val = b("def");
    let m1 = make_map(&[(b("aba"), val), (b("abc"), val), (b("abe"), val)]);
    let m2 = make_map(&[(b("abb"), val), (b("abd"), val)]);
    let mut iter = MergingIter::new(Options::default(), vec![m1.iter(), m2.iter()]);
    iter.advance();
    iter.advance();
    let all = iter.collect_entries();
    let keys: Vec<Vec<u8>> = all.into_iter().map(|(k, _)| k).collect();
    assert_eq!(keys, vec![b"aba".to_vec(), b"abb".to_vec(), b"abc".to_vec(), b"abd".to_vec(), b"abe".to_vec()]);
}
