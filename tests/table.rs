use rusty_leveldb::table::{BlockHandle, Footer, FOOTER_LENGTH};
use rusty_leveldb::types::StandardComparator;

#[test]
fn block_handle_round_trip() {
    let h = BlockHandle::new(300, 5);
    let bytes = h.encode();
    assert_eq!(bytes, vec![0xac, 0x02, 0x05]);
    let mut framed = vec![7u8, 7];
    h.encode_to(&mut framed);
    framed.push(1);
    assert_eq!(BlockHandle::decode(&framed, 2), Some((h, 3)));
    assert_eq!(BlockHandle::decode(&[0x80], 0), None);
}

#[test]
fn footer_layout_and_round_trip() {
    let f = Footer::new(BlockHandle::new(1000, 200), BlockHandle::new(1200, 64));
    let bytes = f.encode();
    assert_eq!(bytes.len(), FOOTER_LENGTH);
    assert_eq!(&bytes[0..6], &[0xe8, 0x07, 0xc8, 0x01, 0xb0, 0x09]);
    assert_eq!(&bytes[7..40], &[0u8; 33]);
    assert_eq!(&bytes[40..], &[0x57, 0xfb, 0x80, 0x8b, 0x24, 0x75, 0x47, 0xdb]);
    assert_eq!(Footer::decode(&bytes), Some(f));

    let mut bad = bytes.clone();
    bad[47] = 0;
    assert_eq!(Footer::decode(&bad), None);
    assert_eq!(Footer::decode(&bytes[1..]), None);
}

#[test]
fn shortest_separator() {
    assert_eq!(StandardComparator::find_shortest_separator(b"abc1xyz", b"abc5"), b"abc2".to_vec());
    assert_eq!(StandardComparator::find_shortest_separator(b"abc", b"abd"), b"abc".to_vec());
    assert_eq!(StandardComparator::find_shortest_separator(b"ab", b"abc"), b"ab".to_vec());
    assert_eq!(StandardComparator::find_shortest_separator(b"a\xffz", b"b"), b"a\xffz".to_vec());
    assert_eq!(StandardComparator::find_shortest_separator(b"", b"x"), b"".to_vec());
}

#[test]
fn short_successor() {
    assert_eq!(StandardComparator::find_short_successor(b"abc"), b"b".to_vec());
    assert_eq!(StandardComparator::find_short_successor(b"\xff\xffa"), b"\xff\xffb".to_vec());
    assert_eq!(StandardComparator::find_short_successor(b"\xff\xff"), b"\xff\xff".to_vec());
    assert_eq!(StandardComparator::find_short_successor(b""), b"".to_vec());
}
