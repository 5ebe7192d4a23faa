//! Framing of a table file: block handles and the fixed-size footer.
use vstd::prelude::*;
use crate::codec::{
    varint,
    decode_varint_u64,
    encode_varint,
    encode_fixed64,
    decode_varint_at,
    decode_fixed64_at,
    fixed64,
    decode_fixed64_spec,
    lemma_varint_len,
    lemma_varint_round_trip,
    lemma_fixed64_round_trip,
    lemma_decode_varint_len,
    MAX_VARINT_LEN,
};

verus! {

/// The length of a table footer: two block handles padded to 40 bytes, then
/// the magic number.
pub const FOOTER_LENGTH: usize = 48;

/// The space for the two handles at the front of a footer.
pub const FOOTER_HANDLES_LENGTH: usize = 40;

/// The number that ends every table file.
pub const TABLE_MAGIC: u64 = 0xdb4775248b80fb57;

/// Where a block lies in a table file.
#[derive(Clone, Copy, PartialEq, Eq, Debug, Structural)]
pub struct BlockHandle {
    pub offset: u64,
    pub size: u64,
}

/// `varint(offset) || varint(size)`.
pub open spec fn handle_bytes(h: BlockHandle) -> Seq<u8> {
    varint(h.offset as nat) + varint(h.size as nat)
}

/// The handle at the front of `b` and the bytes it takes.
pub open spec fn decode_handle(b: Seq<u8>) -> Option<(BlockHandle, nat)> {
    match decode_varint_u64(b) {
        Some((o, n1)) => match decode_varint_u64(b.subrange(n1 as int, b.len() as int)) {
            Some((s, n2)) => Some((BlockHandle { offset: o, size: s }, n1 + n2)),
            None => None,
        },
        None => None,
    }
}

/// Decoding an encoded handle, followed by anything, gives it back.
pub proof fn lemma_handle_round_trip(h: BlockHandle, rest: Seq<u8>)
    ensures
        decode_handle(handle_bytes(h) + rest) == Some((h, handle_bytes(h).len())),
        handle_bytes(h).len() <= 20,
{
    let v1 = varint(h.offset as nat);
    let v2 = varint(h.size as nat);
    lemma_varint_len(h.offset as nat);
    lemma_varint_len(h.size as nat);
    let b = handle_bytes(h) + rest;
    assert(b =~= v1 + (v2 + rest));
    lemma_varint_round_trip(h.offset as nat, v2 + rest, MAX_VARINT_LEN as nat);
    assert(b.subrange(v1.len() as int, b.len() as int) =~= v2 + rest);
    lemma_varint_round_trip(h.size as nat, rest, MAX_VARINT_LEN as nat);
}

impl BlockHandle {
    pub fn new(offset: u64, size: u64) -> (r: BlockHandle)
        ensures
            r.offset == offset,
            r.size == size,
    {
        BlockHandle { offset, size }
    }

    /// Appends the encoded handle to `out`.
    pub fn encode_to(&self, out: &mut Vec<u8>)
        ensures
            final(out)@ == old(out)@ + handle_bytes(*self),
    {
        encode_varint(self.offset, out);
        encode_varint(self.size, out);
        assert(final(out)@ =~= old(out)@ + handle_bytes(*self));
    }

    /// The encoded handle.
    pub fn encode(&self) -> (r: Vec<u8>)
        ensures
            r@ == handle_bytes(*self),
    {
        let mut v: Vec<u8> = Vec::new();
        self.encode_to(&mut v);
        assert(v@ =~= handle_bytes(*self));
        v
    }

    /// Decodes the handle at `b[start..]`, with the number of bytes it took;
    /// `None` where either varint is truncated or does not fit in 64 bits.
    pub fn decode(b: &[u8], start: usize) -> (r: Option<(BlockHandle, usize)>)
        requires
            start <= b@.len(),
        ensures
            match (r, decode_handle(b@.subrange(start as int, b@.len() as int))) {
                (Some((h, n)), Some((sh, sn))) => h == sh && n == sn,
                (None, None) => true,
                _ => false,
            },
    {
        let ghost s = b@.subrange(start as int, b@.len() as int);
        let _len = b.len();
        match decode_varint_at(b, start) {
            None => None,
            Some((offset, n1)) => {
                proof {
                    lemma_decode_varint_len(s, MAX_VARINT_LEN as nat);
                    assert(s.subrange(n1 as int, s.len() as int) =~= b@.subrange(start + n1, b@.len() as int));
                }
                match decode_varint_at(b, start + n1) {
                    None => None,
                    Some((size, n2)) => {
                        proof {
                            lemma_decode_varint_len(s.subrange(n1 as int, s.len() as int), MAX_VARINT_LEN as nat);
                        }
                        Some((BlockHandle { offset, size }, n1 + n2))
                    },
                }
            },
        }
    }
}

/// The end of a table file: the handles of its meta-index and index blocks.
#[derive(Clone, Copy, PartialEq, Eq, Debug, Structural)]
pub struct Footer {
    pub meta_index: BlockHandle,
    pub index: BlockHandle,
}

/// The 48 bytes of a footer: both handles, zeros up to 40 bytes, and the
/// magic number in eight little-endian bytes.
pub open spec fn footer_bytes(f: Footer) -> Seq<u8> {
    let hs = handle_bytes(f.meta_index) + handle_bytes(f.index);
    hs + Seq::new((FOOTER_HANDLES_LENGTH - hs.len()) as nat, |i: int| 0u8) + fixed64(TABLE_MAGIC)
}

/// The footer that 48 bytes hold, if they end in the magic number and start
/// with two handles.
pub open spec fn decode_footer(b: Seq<u8>) -> Option<Footer> {
    if b.len() != FOOTER_LENGTH || decode_fixed64_spec(b.subrange(40, 48)) != TABLE_MAGIC {
        None
    } else {
        match decode_handle(b) {
            Some((m, n1)) => match decode_handle(b.subrange(n1 as int, b.len() as int)) {
                Some((i, _)) => Some(Footer { meta_index: m, index: i }),
                None => None,
            },
            None => None,
        }
    }
}

/// Decoding an encoded footer gives it back.
pub proof fn lemma_footer_round_trip(f: Footer)
    ensures
        footer_bytes(f).len() == FOOTER_LENGTH,
        decode_footer(footer_bytes(f)) == Some(f),
{
    let h1 = handle_bytes(f.meta_index);
    let h2 = handle_bytes(f.index);
    let hs = h1 + h2;
    let pad = Seq::new((FOOTER_HANDLES_LENGTH - hs.len()) as nat, |i: int| 0u8);
    let b = footer_bytes(f);
    lemma_handle_round_trip(f.meta_index, h2 + pad + fixed64(TABLE_MAGIC));
    lemma_handle_round_trip(f.index, pad + fixed64(TABLE_MAGIC));
    assert(b =~= h1 + (h2 + pad + fixed64(TABLE_MAGIC)));
    assert(b.subrange(h1.len() as int, b.len() as int) =~= h2 + (pad + fixed64(TABLE_MAGIC)));
    assert(b.subrange(40, 48) =~= fixed64(TABLE_MAGIC) + Seq::<u8>::empty());
    lemma_fixed64_round_trip(TABLE_MAGIC, Seq::empty());
}

impl Footer {
    pub fn new(meta_index: BlockHandle, index: BlockHandle) -> (r: Footer)
        ensures
            r.meta_index == meta_index,
            r.index == index,
    {
        Footer { meta_index, index }
    }

    /// The 48 bytes of the footer.
    pub fn encode(&self) -> (r: Vec<u8>)
        ensures
            r@ == footer_bytes(*self),
            r@.len() == FOOTER_LENGTH,
            decode_footer(r@) == Some(*self),
    {
        let mut v: Vec<u8> = Vec::new();
        self.meta_index.encode_to(&mut v);
        self.index.encode_to(&mut v);
        proof {
            lemma_handle_round_trip(self.meta_index, Seq::empty());
            lemma_handle_round_trip(self.index, Seq::empty());
        }
        let ghost hs = v@;
        while v.len() < FOOTER_HANDLES_LENGTH
            invariant
                hs.len() <= FOOTER_HANDLES_LENGTH,
                hs.len() <= v@.len() <= FOOTER_HANDLES_LENGTH,
                v@ == hs + Seq::new((v@.len() - hs.len()) as nat, |i: int| 0u8),
            decreases FOOTER_HANDLES_LENGTH - v@.len(),
        {
            let ghost before = v@;
            v.push(0);
            assert(v@ =~= hs + Seq::new((v@.len() - hs.len()) as nat, |i: int| 0u8));
        }
        encode_fixed64(TABLE_MAGIC, &mut v);
        assert(v@ =~= footer_bytes(*self));
        proof {
            lemma_footer_round_trip(*self);
        }
        v
    }

    /// Decodes a footer; `None` unless `b` holds 48 bytes that end in the
    /// magic number and start with two handles.
    pub fn decode(b: &[u8]) -> (r: Option<Footer>)
        ensures
            r == decode_footer(b@),
    {
        if b.len() != FOOTER_LENGTH {
            return None;
        }
        let magic = decode_fixed64_at(b, FOOTER_HANDLES_LENGTH);
        proof {
            assert(b@.subrange(40, b@.len() as int) =~= b@.subrange(40, 48));
        }
        if magic != TABLE_MAGIC {
            return None;
        }
        assert(b@.subrange(0, b@.len() as int) =~= b@);
        match BlockHandle::decode(b, 0) {
            None => None,
            Some((m, n1)) => {
                proof {
                    lemma_handle_len(b@);
                }
                match BlockHandle::decode(b, n1) {
                    None => None,
                    Some((i, _)) => Some(Footer { meta_index: m, index: i }),
                }
            },
        }
    }
}

/// A decoded handle lies within the bytes it came from.
proof fn lemma_handle_len(b: Seq<u8>)
    ensures
        decode_handle(b) matches Some((h, n)) ==> n <= b.len(),
{
    if let Some((o, n1)) = decode_varint_u64(b) {
        lemma_decode_varint_len(b, MAX_VARINT_LEN as nat);
        lemma_decode_varint_len(b.subrange(n1 as int, b.len() as int), MAX_VARINT_LEN as nat);
    }
}

} // verus!
