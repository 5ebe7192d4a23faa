use rusty_leveldb::skipmap::{height_from_bits, SkipMap, MAX_HEIGHT};
use rusty_leveldb::types::StandardComparator;

fn key(i: u32) -> Vec<u8> {
    format!("key{:05}", i).into_bytes()
}

#[test]
fn skipmap_many_inserts_stay_sorted() {
    let mut m = SkipMap::new_with_cmp(StandardComparator {});
    // 7919 is prime, so i * 7919 % 2000 visits every value below 2000 once.
    for i in 0..2000u32 {
        let k = (i * 7919) % 2000;
        m.insert(key(k), k.to_le_bytes().to_vec());
    }
    assert_eq!(m.len(), 2000);
    assert!(!m.is_empty());

    let mut it = m.iter();
    let mut n = 0u32;
    while let Some((k, v)) = it.next() {
        assert_eq!(k, key(n));
        assert_eq!(v, n.to_le_bytes().to_vec());
        n += 1;
    }
    assert_eq!(n, 2000);

    for probe in [0u32, 1, 999, 1998, 1999] {
        assert!(m.contains(&key(probe)));
    }
    assert!(!m.contains(b"key02000"));
    assert!(!m.contains(b"a"));
}

#[test]
fn skipmap_cursor_moves_both_ways() {
    let mut m = SkipMap::new_with_cmp(StandardComparator {});
    for i in (0..500u32).rev() {
        m.insert(key(2 * i), Vec::new());
    }
    let mut it = m.iter();
    it.seek(&key(301));
    assert_eq!(it.current().0, key(302).as_slice());
    assert!(it.prev());
    assert_eq!(it.current().0, key(300).as_slice());
    it.seek_to_last();
    assert_eq!(it.current().0, key(998).as_slice());
    assert!(!it.advance());
    assert!(!it.valid());
    it.seek_to_first();
    assert_eq!(it.current().0, key(0).as_slice());
    assert!(!it.prev());
    it.seek(b"zzz");
    assert!(!it.valid());
}

#[test]
fn skipmap_empty() {
    let m = SkipMap::new_with_cmp(StandardComparator {});
    assert!(m.is_empty());
    assert_eq!(m.approx_memory(), 0);
    let mut it = m.iter();
    assert!(!it.advance());
    it.seek_to_last();
    assert!(!it.valid());
}

#[test]
fn heights_from_drawn_bits() {
    use_heights();
}

fn use_heights() {
    assert_eq!(height_from_bits(1), 1);
    assert_eq!(height_from_bits(4), 2);
    assert_eq!(height_from_bits(12), 2);
    assert_eq!(height_from_bits(16), 3);
    assert_eq!(height_from_bits(1 << 30), 12);
    assert_eq!(height_from_bits(0), MAX_HEIGHT);
}
