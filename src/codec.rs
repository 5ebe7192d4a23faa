//! Variable-length and fixed-width little-endian integer framing.
use vstd::prelude::*;

verus! {

/// The varint encoding of `v`: base-128 digits, least significant first, every
/// byte but the last carrying the continuation bit 0x80.
pub open spec fn varint(v: nat) -> Seq<u8>
    decreases v,
{
    if v < 128 {
        seq![v as u8]
    } else {
        seq![((v % 128) + 128) as u8] + varint(v / 128)
    }
}

/// Reads a varint from the front of `b`, looking at no more than `width` bytes.
/// Returns the value and the number of bytes it took.
pub open spec fn decode_varint(b: Seq<u8>, width: nat) -> Option<(nat, nat)>
    decreases width,
{
    if width == 0 || b.len() == 0 {
        None
    } else if b[0] < 128 {
        Some((b[0] as nat, 1))
    } else {
        match decode_varint(b.drop_first(), (width - 1) as nat) {
            Some((v, n)) => Some(((b[0] - 128) as nat + 128 * v, n + 1)),
            None => None,
        }
    }
}

/// The widest varint that a 64-bit value takes.
pub const MAX_VARINT_LEN: usize = 10;

/// What the executable decoder returns: the varint at the front of `b`, if it is
/// complete within ten bytes and its value fits in 64 bits.
pub open spec fn decode_varint_u64(b: Seq<u8>) -> Option<(u64, nat)> {
    match decode_varint(b, MAX_VARINT_LEN as nat) {
        Some((v, n)) => if v <= u64::MAX { Some((v as u64, n)) } else { None },
        None => None,
    }
}

/// 128 to the power `k`.
pub open spec fn pow128(k: nat) -> nat
    decreases k,
{
    if k == 0 {
        1
    } else {
        128 * pow128((k - 1) as nat)
    }
}

pub proof fn lemma_varint_len_pow(v: nat, k: nat)
    requires
        v < pow128(k),
    ensures
        1 <= varint(v).len() <= if k == 0 { 1 } else { k },
        v < 128 <==> varint(v).len() == 1,
    decreases v,
{
    if v >= 128 {
        assert(k > 1) by {
            if k <= 1 {
                reveal_with_fuel(pow128, 2);
            }
        }
        lemma_varint_len_pow(v / 128, (k - 1) as nat);
    }
}

proof fn lemma_pow128_grows(k: nat)
    ensures
        k < pow128(k),
    decreases k,
{
    if k > 0 {
        lemma_pow128_grows((k - 1) as nat);
    }
}

pub proof fn lemma_varint_len(v: nat)
    ensures
        1 <= varint(v).len(),
        v < 0x1_0000_0000_0000_0000 ==> varint(v).len() <= 10,
        v < 0x1_0000_0000 ==> varint(v).len() <= 5,
        v < 128 <==> varint(v).len() == 1,
{
    reveal_with_fuel(pow128, 11);
    assert(pow128(10) == 0x40_0000_0000_0000_0000);
    assert(pow128(5) == 0x8_0000_0000);
    if v < 0x1_0000_0000 {
        lemma_varint_len_pow(v, 5);
    } else if v < 0x1_0000_0000_0000_0000 {
        lemma_varint_len_pow(v, 10);
    } else {
        lemma_pow128_grows(v);
        lemma_varint_len_pow(v, v);
    }
}

/// A decoded varint takes between one and `width` bytes of `b`.
pub proof fn lemma_decode_varint_len(b: Seq<u8>, width: nat)
    ensures
        decode_varint(b, width) matches Some((v, n)) ==> 1 <= n <= width && n <= b.len(),
    decreases width,
{
    if width > 0 && b.len() > 0 && b[0] >= 128 {
        lemma_decode_varint_len(b.drop_first(), (width - 1) as nat);
    }
}

/// Decoding the varint of `v`, followed by anything, gives back `v` and the
/// varint's length.
pub proof fn lemma_varint_round_trip(v: nat, rest: Seq<u8>, width: nat)
    requires
        varint(v).len() <= width,
    ensures
        decode_varint(varint(v) + rest, width) == Some((v, varint(v).len())),
    decreases v,
{
    let b = varint(v) + rest;
    if v < 128 {
        assert(b[0] == v as u8);
    } else {
        lemma_varint_round_trip(v / 128, rest, (width - 1) as nat);
        assert(b.drop_first() =~= varint(v / 128) + rest);
        assert(b[0] == ((v % 128) + 128) as u8);
    }
}

/// Appends the varint encoding of `v` to `out`.
pub fn encode_varint(v: u64, out: &mut Vec<u8>)
    ensures
        final(out)@ == old(out)@ + varint(v as nat),
{
    let mut x: u64 = v;
    while x >= 128
        invariant
            out@ + varint(x as nat) == old(out)@ + varint(v as nat),
        decreases x,
    {
        let low: u8 = (x % 128) as u8 + 128;
        let ghost before = out@;
        out.push(low);
        assert(varint(x as nat) == seq![low] + varint((x / 128) as nat));
        assert(out@ + varint((x / 128) as nat) =~= before + varint(x as nat));
        x = x / 128;
    }
    let ghost before = out@;
    out.push(x as u8);
    assert(out@ =~= before + varint(x as nat));
}

/// Reads the varint that starts at `b[start..]`, in the way of
/// `decode_varint_u64`.
pub fn decode_varint_at(b: &[u8], start: usize) -> (r: Option<(u64, usize)>)
    requires
        start <= b@.len(),
    ensures
        match (r, decode_varint_u64(b@.subrange(start as int, b@.len() as int))) {
            (Some((v, n)), Some((sv, sn))) => v == sv && n == sn,
            (None, None) => true,
            _ => false,
        },
{
    decode_varint_rec(b, start, MAX_VARINT_LEN)
}

fn decode_varint_rec(b: &[u8], start: usize, width: usize) -> (r: Option<(u64, usize)>)
    requires
        start <= b@.len(),
        width <= MAX_VARINT_LEN,
    ensures
        match (r, decode_varint(b@.subrange(start as int, b@.len() as int), width as nat)) {
            (Some((v, n)), Some((sv, sn))) => v == sv && n == sn,
            (None, Some((sv, sn))) => sv > u64::MAX,
            (None, None) => true,
            _ => false,
        },
    decreases width,
{
    let ghost s = b@.subrange(start as int, b@.len() as int);
    if width == 0 || start == b.len() {
        return None;
    }
    let first = b[start];
    if first < 128 {
        return Some((first as u64, 1));
    }
    assert(s.drop_first() =~= b@.subrange(start + 1, b@.len() as int));
    let inner = decode_varint_rec(b, start + 1, width - 1);
    proof {
        lemma_decode_varint_len(s.drop_first(), (width - 1) as nat);
    }
    match inner {
        Some((v, n)) => {
            if v > (u64::MAX - 127) / 128 {
                return None;
            }
            let low = (first - 128) as u64;
            Some((low + 128 * v, n + 1))
        },
        None => None,
    }
}

/// The 4-byte little-endian encoding of `v`.
pub open spec fn fixed32(v: u32) -> Seq<u8> {
    seq![v as u8, (v >> 8) as u8, (v >> 16) as u8, (v >> 24) as u8]
}

/// The value of four little-endian bytes.
pub open spec fn decode_fixed32(b0: u8, b1: u8, b2: u8, b3: u8) -> u32 {
    (b0 as u32) | ((b1 as u32) << 8) | ((b2 as u32) << 16) | ((b3 as u32) << 24)
}

/// The 8-byte little-endian encoding of `v`.
pub open spec fn fixed64(v: u64) -> Seq<u8> {
    seq![
        v as u8,
        (v >> 8) as u8,
        (v >> 16) as u8,
        (v >> 24) as u8,
        (v >> 32) as u8,
        (v >> 40) as u8,
        (v >> 48) as u8,
        (v >> 56) as u8,
    ]
}

/// The value of the eight little-endian bytes at the front of `b`.
pub open spec fn decode_fixed64_spec(b: Seq<u8>) -> u64 {
    (b[0] as u64) | ((b[1] as u64) << 8) | ((b[2] as u64) << 16) | ((b[3] as u64) << 24) | ((
    b[4] as u64) << 32) | ((b[5] as u64) << 40) | ((b[6] as u64) << 48) | ((b[7] as u64) << 56)
}

pub proof fn lemma_fixed32_round_trip(v: u32)
    ensures
        decode_fixed32(fixed32(v)[0], fixed32(v)[1], fixed32(v)[2], fixed32(v)[3]) == v,
{
    let b0 = v as u8;
    let b1 = (v >> 8) as u8;
    let b2 = (v >> 16) as u8;
    let b3 = (v >> 24) as u8;
    assert((b0 as u32) | ((b1 as u32) << 8) | ((b2 as u32) << 16) | ((b3 as u32) << 24) == v)
        by (bit_vector)
        requires
            b0 == v as u8,
            b1 == (v >> 8) as u8,
            b2 == (v >> 16) as u8,
            b3 == (v >> 24) as u8,
    ;
}

pub proof fn lemma_fixed64_round_trip(v: u64, rest: Seq<u8>)
    ensures
        decode_fixed64_spec(fixed64(v) + rest) == v,
{
    let b = fixed64(v) + rest;
    let b0 = v as u8;
    let b1 = (v >> 8) as u8;
    let b2 = (v >> 16) as u8;
    let b3 = (v >> 24) as u8;
    let b4 = (v >> 32) as u8;
    let b5 = (v >> 40) as u8;
    let b6 = (v >> 48) as u8;
    let b7 = (v >> 56) as u8;
    assert(b[0] == b0 && b[1] == b1 && b[2] == b2 && b[3] == b3);
    assert(b[4] == b4 && b[5] == b5 && b[6] == b6 && b[7] == b7);
    assert((b0 as u64) | ((b1 as u64) << 8) | ((b2 as u64) << 16) | ((b3 as u64) << 24) | ((
    b4 as u64) << 32) | ((b5 as u64) << 40) | ((b6 as u64) << 48) | ((b7 as u64) << 56) == v)
        by (bit_vector)
        requires
            b0 == v as u8,
            b1 == (v >> 8) as u8,
            b2 == (v >> 16) as u8,
            b3 == (v >> 24) as u8,
            b4 == (v >> 32) as u8,
            b5 == (v >> 40) as u8,
            b6 == (v >> 48) as u8,
            b7 == (v >> 56) as u8,
    ;
}

/// Appends the 4-byte little-endian encoding of `v` to `out`.
pub fn encode_fixed32(v: u32, out: &mut Vec<u8>)
    ensures
        final(out)@ == old(out)@ + fixed32(v),
{
    out.push(v as u8);
    out.push((v >> 8) as u8);
    out.push((v >> 16) as u8);
    out.push((v >> 24) as u8);
    assert(out@ =~= old(out)@ + fixed32(v));
}

/// Appends the 8-byte little-endian encoding of `v` to `out`.
pub fn encode_fixed64(v: u64, out: &mut Vec<u8>)
    ensures
        final(out)@ == old(out)@ + fixed64(v),
{
    out.push(v as u8);
    out.push((v >> 8) as u8);
    out.push((v >> 16) as u8);
    out.push((v >> 24) as u8);
    out.push((v >> 32) as u8);
    out.push((v >> 40) as u8);
    out.push((v >> 48) as u8);
    out.push((v >> 56) as u8);
    assert(out@ =~= old(out)@ + fixed64(v));
}

/// Reads four little-endian bytes at `b[at..at + 4]`.
pub fn decode_fixed32_at(b: &[u8], at: usize) -> (r: u32)
    requires
        at + 4 <= b@.len(),
    ensures
        r == decode_fixed32(b@[at as int], b@[at + 1], b@[at + 2], b@[at + 3]),
{
    (b[at] as u32) | ((b[at + 1] as u32) << 8) | ((b[at + 2] as u32) << 16) | ((b[at + 3] as u32)
        << 24)
}

/// Reads eight little-endian bytes at `b[at..at + 8]`.
pub fn decode_fixed64_at(b: &[u8], at: usize) -> (r: u64)
    requires
        at + 8 <= b@.len(),
    ensures
        r == decode_fixed64_spec(b@.subrange(at as int, b@.len() as int)),
{
    (b[at] as u64) | ((b[at + 1] as u64) << 8) | ((b[at + 2] as u64) << 16) | ((b[at + 3] as u64)
        << 24) | ((b[at + 4] as u64) << 32) | ((b[at + 5] as u64) << 40) | ((b[at + 6] as u64)
        << 48) | ((b[at + 7] as u64) << 56)
}

} // verus!
