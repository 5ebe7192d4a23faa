use rusty_leveldb::codec::{
    decode_fixed32_at, decode_fixed64_at, decode_varint_at, encode_fixed32, encode_fixed64,
    encode_varint,
};
use rusty_leveldb::options::{int_to_compressiontype, CompressionType};
use rusty_leveldb::skipmap::SkipMap;
use rusty_leveldb::types::{compare_bytes, StandardComparator};
use std::cmp::Ordering;

#[test]
fn varint_known_encodings() {
    let mut out = Vec::new();
    encode_varint(0, &mut out);
    encode_varint(127, &mut out);
    encode_varint(128, &mut out);
    encode_varint(300, &mut out);
    assert_eq!(out, vec![0, 127, 0x80, 0x01, 0xac, 0x02]);

    let mut big = Vec::new();
    encode_varint(u64::MAX, &mut big);
    assert_eq!(big.len(), 10);
    assert_eq!(decode_varint_at(&big, 0), Some((u64::MAX, 10)));
}

#[test]
fn varint_round_trip_and_errors() {
    for v in [0u64, 1, 127, 128, 16383, 16384, 1 << 35, u64::MAX - 1] {
        let mut out = vec![9u8];
        encode_varint(v, &mut out);
        out.push(0xff);
        assert_eq!(decode_varint_at(&out, 1), Some((v, out.len() - 2)));
    }
    // truncated
    assert_eq!(decode_varint_at(&[0x80, 0x80], 0), None);
    assert_eq!(decode_varint_at(&[], 0), None);
    // more than ten bytes
    assert_eq!(decode_varint_at(&[0x80; 11], 0), None);
    // ten bytes whose value does not fit in 64 bits
    let mut over = vec![0xffu8; 9];
    over.push(0x02);
    assert_eq!(decode_varint_at(&over, 0), None);
}

#[test]
fn fixed_width_little_endian() {
    let mut out = Vec::new();
    encode_fixed32(0x0403_0201, &mut out);
    encode_fixed64(0x0807_0605_0403_0201, &mut out);
    assert_eq!(out, vec![1, 2, 3, 4, 1, 2, 3, 4, 5, 6, 7, 8]);
    assert_eq!(decode_fixed32_at(&out, 0), 0x0403_0201);
    assert_eq!(decode_fixed64_at(&out, 4), 0x0807_0605_0403_0201);
}

#[test]
fn compression_type_codes() {
    assert_eq!(int_to_compressiontype(0), Some(CompressionType::CompressionNone));
    assert_eq!(int_to_compressiontype(1), Some(CompressionType::CompressionSnappy));
    assert_eq!(int_to_compressiontype(2), None);
}

#[test]
fn bytes_compare_lexicographically() {
    assert_eq!(compare_bytes(b"abc", b"abd"), Ordering::Less);
    assert_eq!(compare_bytes(b"ab", b"abc"), Ordering::Less);
    assert_eq!(compare_bytes(b"abc", b"abc"), Ordering::Equal);
    assert_eq!(compare_bytes(b"b", b"abc"), Ordering::Greater);
    assert_eq!(compare_bytes(b"", b""), Ordering::Equal);
}

#[test]
fn skipmap_iterates_in_key_order() {
    let mut m = SkipMap::new_with_cmp(StandardComparator {});
    for k in ["m", "c", "x", "a", "q", "b"].iter() {
        m.insert(k.as_bytes().to_vec(), k.as_bytes().to_vec());
    }
    assert!(m.contains(b"q"));
    assert!(!m.contains(b"z"));
    assert_eq!(m.len(), 6);
    let mut it = m.iter();
    let mut keys = Vec::new();
    while let Some((k, _)) = it.next() {
        keys.push(k);
    }
    assert_eq!(keys, vec![b"a".to_vec(), b"b".to_vec(), b"c".to_vec(), b"m".to_vec(), b"q".to_vec(), b"x".to_vec()]);
    let mut it = m.iter();
    it.seek(b"d");
    assert_eq!(it.current().0, b"m");
    assert!(it.prev());
    assert_eq!(it.current().0, b"c");
}
