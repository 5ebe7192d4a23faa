use rusty_leveldb::memtable::{LookupKey, MemTable};
use rusty_leveldb::types::{StandardComparator, Status, ValueType};

fn get_memtable() -> MemTable<StandardComparator> {
    let mut mt = MemTable::new();
    let entries = vec![
        (120, "abc", "123"),
        (121, "abd", "124"),
        (122, "abe", "125"),
        (123, "abf", "126"),
    ];

    for e in entries.iter() {
        mt.add(
            e.0,
            ValueType::TypeValue,
            &e.1.as_bytes().to_vec(),
            &e.2.as_bytes().to_vec(),
        );
    }
    mt
}

#[test]
fn test_add() {
    let mut mt = MemTable::new();
    mt.add(
        123,
        ValueType::TypeValue,
        &"abc".as_bytes().to_vec(),
        &"123".as_bytes().to_vec(),
    );

    assert_eq!(
        mt.map_iter().next().unwrap().0,
        vec![3, 97, 98, 99, 1, 123, 0, 0, 0, 0, 0, 0, 3, 49, 50, 51]
    );
}

#[test]
fn test_add_get() {
    let mt = get_memtable();

    if let Result::Ok(v) = mt.get(&LookupKey::new(&"abc".as_bytes().to_vec(), 120)) {
        assert_eq!(v, "123".as_bytes().to_vec());
    } else {
        panic!("not found");
    }

    if let Result::Ok(v) = mt.get(&LookupKey::new(&"abe".as_bytes().to_vec(), 122)) {
        assert_eq!(v, "125".as_bytes().to_vec());
    } else {
        panic!("not found");
    }

    // The newest version of "abc" at or below sequence 124 is the one at 120.
    if let Result::Ok(v) = mt.get(&LookupKey::new(&"abc".as_bytes().to_vec(), 124)) {
        assert_eq!(v, "123".as_bytes().to_vec());
    } else {
        panic!("not found");
    }
}

#[test]
fn test_memtable_iterator() {
    let mt = get_memtable();
    let mut iter = mt.iter();

    assert!(!iter.valid());

    iter.next();
    assert!(iter.valid());
    assert_eq!(iter.current().0, vec![97, 98, 99].as_slice());
    assert_eq!(iter.current().1, vec![49, 50, 51].as_slice());

    iter.seek(&"abf".as_bytes().to_vec());
    assert_eq!(iter.current().0, vec![97, 98, 102].as_slice());
    assert_eq!(iter.current().1, vec![49, 50, 54].as_slice());
}

#[test]
fn test_parse_memtable_key() {
    let key = vec![3, 1, 2, 3, 1, 123, 0, 0, 0, 0, 0, 0, 3, 4, 5, 6];
    let (keylen, keyoff, tag, vallen, valoff) =
        MemTable::<StandardComparator>::parse_memtable_key(&key);
    assert_eq!(keylen, 3);
    assert_eq!(&key[keyoff..keyoff + keylen], vec![1, 2, 3].as_slice());
    assert_eq!(tag, 123 << 8 | 1);
    assert_eq!(vallen, 3);
    assert_eq!(&key[valoff..valoff + vallen], vec![4, 5, 6].as_slice());
}

#[test]
fn memtable_get_before_first_version_is_not_found() {
    let mt = get_memtable();
    match mt.get(&LookupKey::new("abc".as_bytes(), 119)) {
        Err(Status::NotFound(_)) => {}
        other => panic!("{:?}", other),
    }
    match mt.get(&LookupKey::new("abz".as_bytes(), 500)) {
        Err(Status::NotFound(_)) => {}
        other => panic!("{:?}", other),
    }
}

#[test]
fn memtable_newest_visible_version_wins() {
    let mut mt = MemTable::new();
    mt.add(10, ValueType::TypeValue, &b"k".to_vec(), &b"v10".to_vec());
    mt.add(20, ValueType::TypeDeletion, &b"k".to_vec(), &Vec::new());
    mt.add(30, ValueType::TypeValue, &b"k".to_vec(), &b"v30".to_vec());
    mt.add(15, ValueType::TypeValue, &b"j".to_vec(), &b"j15".to_vec());

    assert_eq!(mt.get(&LookupKey::new(b"k", 10)), Ok(b"v10".to_vec()));
    assert_eq!(mt.get(&LookupKey::new(b"k", 19)), Ok(b"v10".to_vec()));
    assert!(matches!(mt.get(&LookupKey::new(b"k", 20)), Err(Status::NotFound(_))));
    assert!(matches!(mt.get(&LookupKey::new(b"k", 29)), Err(Status::NotFound(_))));
    assert_eq!(mt.get(&LookupKey::new(b"k", 30)), Ok(b"v30".to_vec()));
    assert_eq!(mt.get(&LookupKey::new(b"k", 1000)), Ok(b"v30".to_vec()));
    assert!(matches!(mt.get(&LookupKey::new(b"k", 9)), Err(Status::NotFound(_))));
    assert_eq!(mt.get(&LookupKey::new(b"j", 15)), Ok(b"j15".to_vec()));
}

#[test]
fn memtable_iterator_skips_tombstones() {
    let mut mt = MemTable::new();
    mt.add(1, ValueType::TypeValue, &b"a".to_vec(), &b"1".to_vec());
    mt.add(2, ValueType::TypeDeletion, &b"b".to_vec(), &Vec::new());
    mt.add(3, ValueType::TypeValue, &b"c".to_vec(), &b"3".to_vec());
    let mut it = mt.iter();
    let mut seen = Vec::new();
    while let Some((k, v)) = it.next() {
        seen.push((k.to_vec(), v.to_vec()));
    }
    assert_eq!(seen, vec![(b"a".to_vec(), b"1".to_vec()), (b"c".to_vec(), b"3".to_vec())]);
    let mut it = mt.iter();
    it.seek(b"b");
    assert_eq!(it.current().0, b"c");
}

#[test]
fn lookup_key_parts() {
    let lk = LookupKey::new(b"abc", 7);
    assert_eq!(lk.memtable_key(), &vec![3, 97, 98, 99, 1, 7, 0, 0, 0, 0, 0, 0]);
    assert_eq!(lk.user_key(), b"abc".to_vec());
    assert_eq!(lk.internal_key(), vec![97, 98, 99, 1, 7, 0, 0, 0, 0, 0, 0]);
}

#[test]
fn memtable_memory_estimate_grows() {
    let mut mt = MemTable::new();
    assert_eq!(mt.approx_mem_usage(), 0);
    mt.add(1, ValueType::TypeValue, &b"abc".to_vec(), &b"xy".to_vec());
    // key 1 + 3 + 8 + 1 + 2 bytes, an empty value, and the per-node cost
    assert_eq!(mt.approx_mem_usage(), 15 + 32);
}

#[test]
fn memtable_get_not_found_carries_empty_message() {
    let mt = get_memtable();
    assert_eq!(mt.get(&LookupKey::new(b"zzz", 500)), Err(Status::NotFound(String::new())));
}
