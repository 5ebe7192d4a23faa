//! Sorted blocks: entries with prefix-compressed keys followed by an array of
//! restart offsets, the builder that writes them and the cursor that reads them.
use vstd::prelude::*;
use crate::codec::{
    varint,
    decode_varint_u64,
    decode_varint_at,
    encode_varint,
    encode_fixed32,
    decode_fixed32_at,
    fixed32,
    decode_fixed32,
    lemma_varint_len,
    lemma_varint_round_trip,
    lemma_decode_varint_len,
    lemma_fixed32_round_trip,
    MAX_VARINT_LEN,
};
use crate::types::{Comparator, StandardComparator, common_prefix_len, first_difference, lemma_common_prefix_len};
use crate::skipmap::sorted_by;
use core::marker::PhantomData;
use std::rc::Rc;
use crate::memtable::{slice_range, bytes_to_vec};
use crate::options::Options;
use crate::skipmap::{lower_bound, lemma_lower_bound};
use std::cmp::Ordering;

verus! {

/// The bytes of one entry: `varint(shared) || varint(suffix_len) ||
/// varint(value_len) || suffix || value`.
pub open spec fn encode_entry(shared: nat, suffix: Seq<u8>, value: Seq<u8>) -> Seq<u8> {
    varint(shared) + varint(suffix.len()) + varint(value.len()) + suffix + value
}

/// The entry at the front of `b`: shared length, key suffix, value, and the
/// number of bytes it takes; `None` where the three lengths do not decode or
/// the bytes they announce run past the end of `b`.
#[verifier::opaque]
pub open spec fn decode_entry(b: Seq<u8>) -> Option<(nat, Seq<u8>, Seq<u8>, nat)> {
    match decode_varint_u64(b) {
        None => None,
        Some((shared, h1)) => {
            let b1 = b.subrange(h1 as int, b.len() as int);
            match decode_varint_u64(b1) {
                None => None,
                Some((ns, h2)) => {
                    let b2 = b1.subrange(h2 as int, b1.len() as int);
                    match decode_varint_u64(b2) {
                        None => None,
                        Some((vs, h3)) => {
                            let h = h1 + h2 + h3;
                            if h + ns + vs <= b.len() {
                                Some(
                                    (
                                        shared as nat,
                                        b.subrange(h as int, h + ns),
                                        b.subrange(h + ns, h + ns + vs),
                                        (h + ns + vs) as nat,
                                    ),
                                )
                            } else {
                                None
                            }
                        },
                    }
                },
            }
        },
    }
}

#[verifier::spinoff_prover]
#[verifier::rlimit(50)]
/// Decoding an encoded entry, followed by anything, gives back its shared
/// length, key suffix and value, and its length.
pub proof fn lemma_entry_round_trip(shared: nat, suffix: Seq<u8>, value: Seq<u8>, rest: Seq<u8>)
    requires
        shared <= u64::MAX,
        suffix.len() <= u64::MAX,
        value.len() <= u64::MAX,
    ensures
        decode_entry(encode_entry(shared, suffix, value) + rest) == Some(
            (shared, suffix, value, encode_entry(shared, suffix, value).len()),
        ),
{
    reveal(decode_entry);
    let b = encode_entry(shared, suffix, value) + rest;
    let v1 = varint(shared);
    let v2 = varint(suffix.len());
    let v3 = varint(value.len());
    lemma_varint_len(shared);
    lemma_varint_len(suffix.len());
    lemma_varint_len(value.len());
    let t1 = v2 + v3 + suffix + value + rest;
    assert(b =~= v1 + t1);
    lemma_varint_round_trip(shared, t1, MAX_VARINT_LEN as nat);
    let b1 = b.subrange(v1.len() as int, b.len() as int);
    assert(b1 =~= t1);
    let t2 = v3 + suffix + value + rest;
    assert(t1 =~= v2 + t2);
    lemma_varint_round_trip(suffix.len(), t2, MAX_VARINT_LEN as nat);
    let b2 = b1.subrange(v2.len() as int, b1.len() as int);
    assert(b2 =~= t2);
    let t3 = suffix + value + rest;
    assert(t2 =~= v3 + t3);
    lemma_varint_round_trip(value.len(), t3, MAX_VARINT_LEN as nat);
    let h: int = (v1.len() + v2.len() + v3.len()) as int;
    assert(b.subrange(h, h + suffix.len()) =~= suffix);
    assert(b.subrange(h + suffix.len(), h + suffix.len() + value.len()) =~= value);
}

/// Decodes the entry at the front of `b`: (shared, non_shared, value_len,
/// header_len).
pub fn decode_entry_exec(b: &[u8]) -> (r: Option<(u64, usize, usize, usize)>)
    ensures
        match (r, decode_entry(b@)) {
            (Some((shared, ns, vs, h)), Some((sshared, suffix, value, n))) => {
                &&& shared == sshared
                &&& h + ns + vs == n
                &&& n <= b@.len()
                &&& b@.subrange(h as int, h + ns) == suffix
                &&& b@.subrange(h + ns, h + ns + vs) == value
                &&& h >= 3
            },
            (None, None) => true,
            _ => false,
        },
{
    reveal(decode_entry);
    let len = b.len();
    assert(b@.subrange(0, b@.len() as int) =~= b@);
    let (shared, h1) = match decode_varint_at(b, 0) {
        Some(x) => x,
        None => return None,
    };
    proof {
        lemma_decode_varint_len(b@, MAX_VARINT_LEN as nat);
    }
    let ghost b1 = b@.subrange(h1 as int, b@.len() as int);
    let (ns, h2) = match decode_varint_at(b, h1) {
        Some(x) => x,
        None => return None,
    };
    proof {
        lemma_decode_varint_len(b1, MAX_VARINT_LEN as nat);
    }
    let ghost b2 = b1.subrange(h2 as int, b1.len() as int);
    assert(b2 =~= b@.subrange(h1 + h2, b@.len() as int));
    let (vs, h3) = match decode_varint_at(b, h1 + h2) {
        Some(x) => x,
        None => return None,
    };
    proof {
        lemma_decode_varint_len(b2, MAX_VARINT_LEN as nat);
    }
    let h = h1 + h2 + h3;
    if ns > (len - h) as u64 || vs > (len - h - ns as usize) as u64 {
        return None;
    }
    Some((shared, ns as usize, vs as usize, h))
}

} // verus!

verus! {

/// One parsed entry: its offset, shared length, full key, value, and the
/// offset just past it.
pub type ParsedEntry = (int, nat, Seq<u8>, Seq<u8>, int);

/// The entries of `data` from `off` up to `limit`, keys rebuilt from `prev`
/// onwards. Parsing stops at the first entry that does not decode within
/// `limit` or shares more than the previous key holds.
pub open spec fn parse_entries(data: Seq<u8>, off: int, limit: int, prev: Seq<u8>) -> Seq<
    ParsedEntry,
>
    decreases limit - off,
{
    if 0 <= off < limit && limit <= data.len() {
        match decode_entry(data.subrange(off, limit)) {
            Some((sh, suf, val, n)) => if sh <= prev.len() && n > 0 && off + n <= limit {
                let key = prev.subrange(0, sh as int) + suf;
                seq![(off, sh, key, val, off + n)] + parse_entries(data, off + n, limit, key)
            } else {
                Seq::empty()
            },
            None => Seq::empty(),
        }
    } else {
        Seq::empty()
    }
}

/// Where a parse ends: past its last entry, or at `off` if it found none.
pub open spec fn parse_end(p: Seq<ParsedEntry>, off: int) -> int {
    if p.len() == 0 {
        off
    } else {
        p.last().4
    }
}

/// The key that the next entry after a parse would build on.
pub open spec fn parse_last_key(p: Seq<ParsedEntry>, prev: Seq<u8>) -> Seq<u8> {
    if p.len() == 0 {
        prev
    } else {
        p.last().2
    }
}

/// The (key, value) pairs of a parse.
pub open spec fn pairs(p: Seq<ParsedEntry>) -> Seq<(Seq<u8>, Seq<u8>)> {
    p.map_values(|e: ParsedEntry| (e.2, e.3))
}

/// Decoding reads only the bytes it covers: what follows changes nothing.
pub proof fn lemma_decode_varint_extend(b: Seq<u8>, rest: Seq<u8>, width: nat)
    requires
        crate::codec::decode_varint(b, width) is Some,
    ensures
        crate::codec::decode_varint(b + rest, width) == crate::codec::decode_varint(b, width),
    decreases width,
{
    if b[0] >= 128 {
        assert((b + rest).drop_first() =~= b.drop_first() + rest);
        lemma_decode_varint_extend(b.drop_first(), rest, (width - 1) as nat);
    }
}

pub proof fn lemma_decode_entry_extend(b: Seq<u8>, rest: Seq<u8>)
    requires
        decode_entry(b) is Some,
    ensures
        decode_entry(b + rest) == decode_entry(b),
{
    reveal(decode_entry);
    let c = b + rest;
    lemma_decode_varint_extend(b, rest, MAX_VARINT_LEN as nat);
    let (s, h1) = decode_varint_u64(b).unwrap();
    lemma_decode_varint_len(b, MAX_VARINT_LEN as nat);
    let b1 = b.subrange(h1 as int, b.len() as int);
    assert(c.subrange(h1 as int, c.len() as int) =~= b1 + rest);
    lemma_decode_varint_extend(b1, rest, MAX_VARINT_LEN as nat);
    let (ns, h2) = decode_varint_u64(b1).unwrap();
    lemma_decode_varint_len(b1, MAX_VARINT_LEN as nat);
    let b2 = b1.subrange(h2 as int, b1.len() as int);
    assert((b1 + rest).subrange(h2 as int, (b1 + rest).len() as int) =~= b2 + rest);
    lemma_decode_varint_extend(b2, rest, MAX_VARINT_LEN as nat);
    let h = h1 + h2 + decode_varint_u64(b2).unwrap().1;
    let ns = ns as int;
    let vs = decode_varint_u64(b2).unwrap().0 as int;
    assert(c.subrange(h as int, h + ns) =~= b.subrange(h as int, h + ns));
    assert(c.subrange(h + ns, h + ns + vs) =~= b.subrange(h + ns, h + ns + vs));
}

/// The parse depends only on the bytes before `limit`.
pub proof fn lemma_parse_prefix(d1: Seq<u8>, d2: Seq<u8>, off: int, limit: int, prev: Seq<u8>)
    requires
        0 <= limit <= d1.len(),
        limit <= d2.len(),
        d1.subrange(0, limit) == d2.subrange(0, limit),
    ensures
        parse_entries(d1, off, limit, prev) == parse_entries(d2, off, limit, prev),
    decreases limit - off,
{
    if 0 <= off < limit {
        assert(d1.subrange(off, limit) =~= d2.subrange(off, limit)) by {
            assert forall|j: int| 0 <= j < limit - off implies d1.subrange(off, limit)[j]
                == d2.subrange(off, limit)[j] by {
                assert(d1.subrange(0, limit)[off + j] == d2.subrange(0, limit)[off + j]);
                assert(d1.subrange(0, limit)[off + j] == d1[off + j]);
                assert(d2.subrange(0, limit)[off + j] == d2[off + j]);
            }
        }
        match decode_entry(d1.subrange(off, limit)) {
            Some((sh, suf, val, n)) => {
                if sh <= prev.len() && n > 0 && off + n <= limit {
                    lemma_parse_prefix(d1, d2, off + n, limit, prev.subrange(0, sh as int) + suf);
                }
            },
            None => {},
        }
    }
}

/// Facts about every parse: entries lie in order within `[off, limit]`, each
/// starts where the one before ends.
pub proof fn lemma_parse_chain(data: Seq<u8>, off: int, limit: int, prev: Seq<u8>)
    ensures
        ({
            let p = parse_entries(data, off, limit, prev);
            &&& forall|i: int| 0 <= i < p.len() ==> off <= (#[trigger] p[i]).0 < p[i].4 <= limit
            &&& forall|i: int| 0 <= i < p.len() - 1 ==> (#[trigger] p[i]).4 == p[i + 1].0
            &&& p.len() > 0 ==> p[0].0 == off
            &&& parse_end(p, off) <= limit || p.len() == 0
        }),
    decreases limit - off,
{
    let p = parse_entries(data, off, limit, prev);
    if 0 <= off < limit && limit <= data.len() {
        match decode_entry(data.subrange(off, limit)) {
            Some((sh, suf, val, n)) => {
                if sh <= prev.len() && n > 0 && off + n <= limit {
                    let key = prev.subrange(0, sh as int) + suf;
                    lemma_parse_chain(data, off + n, limit, key);
                    let rest = parse_entries(data, off + n, limit, key);
                    assert(p == seq![(off, sh, key, val, off + n)] + rest);
                    reveal(decode_entry);
                    assert forall|i: int| 0 <= i < p.len() implies off <= (#[trigger] p[i]).0
                        < p[i].4 <= limit by {
                        if i > 0 {
                            assert(p[i] == rest[i - 1]);
                        }
                    }
                    assert forall|i: int| 0 <= i < p.len() - 1 implies (#[trigger] p[i]).4 == p[i
                        + 1].0 by {
                        if i > 0 {
                            assert(p[i] == rest[i - 1]);
                            assert(p[i + 1] == rest[i]);
                        }
                    }
                }
            },
            None => {},
        }
    }
}

/// Parsing from entry `i` of a parse, with the key before it, gives the rest
/// of that parse.
pub proof fn lemma_parse_suffix(data: Seq<u8>, off: int, limit: int, prev: Seq<u8>, i: int)
    requires
        0 <= i < parse_entries(data, off, limit, prev).len(),
    ensures
        ({
            let p = parse_entries(data, off, limit, prev);
            parse_entries(data, p[i].0, limit, if i == 0 { prev } else { p[i - 1].2 })
                == p.subrange(i, p.len() as int)
        }),
    decreases i,
{
    let p = parse_entries(data, off, limit, prev);
    if i == 0 {
        assert(p.subrange(0, p.len() as int) =~= p);
    } else {
        let (_, sh, suf_key, val, end) = p[0];
        let (sh2, suf, v2, n) = decode_entry(data.subrange(off, limit)).unwrap();
        let key = prev.subrange(0, sh2 as int) + suf;
        let rest = parse_entries(data, off + n, limit, key);
        assert(p == seq![(off, sh2, key, v2, off + n)] + rest);
        lemma_parse_suffix(data, off + n, limit, key, i - 1);
        assert(p[i] == rest[i - 1]);
        if i > 1 {
            assert(p[i - 1] == rest[i - 2]);
        }
        assert(p.subrange(i, p.len() as int) =~= rest.subrange(i - 1, rest.len() as int));
    }
}

/// From an entry that shares nothing, the key before it does not matter.
pub proof fn lemma_parse_restart(data: Seq<u8>, off: int, limit: int, prev_a: Seq<u8>, prev_b: Seq<u8>)
    requires
        parse_entries(data, off, limit, prev_a).len() > 0,
        parse_entries(data, off, limit, prev_a)[0].1 == 0,
    ensures
        parse_entries(data, off, limit, prev_a) == parse_entries(data, off, limit, prev_b),
{
    let (sh, suf, val, n) = decode_entry(data.subrange(off, limit)).unwrap();
    assert(prev_a.subrange(0, 0) + suf =~= prev_b.subrange(0, 0) + suf);
}

} // verus!

verus! {

/// Appending an encoded entry to bytes that parse completely adds exactly that
/// entry to the parse.
pub proof fn lemma_parse_append(
    d: Seq<u8>,
    off: int,
    prev: Seq<u8>,
    sh: nat,
    suf: Seq<u8>,
    val: Seq<u8>,
)
    requires
        0 <= off <= d.len(),
        parse_end(parse_entries(d, off, d.len() as int, prev), off) == d.len(),
        sh <= parse_last_key(parse_entries(d, off, d.len() as int, prev), prev).len(),
        sh <= u64::MAX,
        suf.len() <= u64::MAX,
        val.len() <= u64::MAX,
    ensures
        ({
            let d2 = d + encode_entry(sh, suf, val);
            let p = parse_entries(d, off, d.len() as int, prev);
            let lk = parse_last_key(p, prev);
            parse_entries(d2, off, d2.len() as int, prev) == p.push(
                (d.len() as int, sh, lk.subrange(0, sh as int) + suf, val, d2.len() as int),
            )
        }),
    decreases d.len() - off,
{
    let e = encode_entry(sh, suf, val);
    let d2 = d + e;
    let p = parse_entries(d, off, d.len() as int, prev);
    lemma_entry_round_trip(sh, suf, val, Seq::empty());
    assert(e + Seq::<u8>::empty() =~= e);
    reveal(decode_entry);
    if off == d.len() {
        assert(d2.subrange(off, d2.len() as int) =~= e);
        let key = prev.subrange(0, sh as int) + suf;
        assert(parse_entries(d2, d2.len() as int, d2.len() as int, key) == Seq::<ParsedEntry>::empty());
        assert(parse_entries(d2, off, d2.len() as int, prev) =~= p.push(
            (d.len() as int, sh, prev.subrange(0, sh as int) + suf, val, d2.len() as int),
        ));
    } else {
        let x = d.subrange(off, d.len() as int);
        let (sh0, suf0, val0, n0) = decode_entry(x).unwrap();
        lemma_decode_entry_extend(x, e);
        assert(d2.subrange(off, d2.len() as int) =~= x + e);
        let key0 = prev.subrange(0, sh0 as int) + suf0;
        let rest = parse_entries(d, off + n0, d.len() as int, key0);
        assert(p == seq![(off, sh0, key0, val0, off + n0)] + rest);
        lemma_parse_append(d, off + n0, key0, sh, suf, val);
        let rest2 = parse_entries(d2, off + n0, d2.len() as int, key0);
        assert(parse_entries(d2, off, d2.len() as int, prev) == seq![(off, sh0, key0, val0, off + n0)]
            + rest2);
        if rest.len() > 0 {
            assert(rest.last() == p.last());
        }
        assert(parse_entries(d2, off, d2.len() as int, prev) =~= p.push(
            (
                d.len() as int,
                sh,
                parse_last_key(p, prev).subrange(0, sh as int) + suf,
                val,
                d2.len() as int,
            ),
        ));
    }
}

} // verus!

verus! {

/// The little-endian u32 at `b[at..at + 4]`.
pub open spec fn u32_at(b: Seq<u8>, at: int) -> int {
    decode_fixed32(b[at], b[at + 1], b[at + 2], b[at + 3]) as int
}

/// The restart count in the block's last four bytes.
pub open spec fn num_restarts(b: Seq<u8>) -> int {
    if b.len() >= 4 {
        u32_at(b, b.len() - 4)
    } else {
        0
    }
}

/// Where the restart array starts, which is where the entries end.
pub open spec fn restarts_offset(b: Seq<u8>) -> int {
    b.len() - 4 - 4 * num_restarts(b)
}

/// Restart point `k` of the block.
pub open spec fn restart_point(b: Seq<u8>, k: int) -> int {
    u32_at(b, restarts_offset(b) + 4 * k)
}

/// The entries of the block, parsed.
pub open spec fn block_parse(b: Seq<u8>) -> Seq<ParsedEntry> {
    parse_entries(b, 0, restarts_offset(b), Seq::empty())
}

/// The (key, value) pairs of the block, in order.
pub open spec fn block_entries(b: Seq<u8>) -> Seq<(Seq<u8>, Seq<u8>)> {
    pairs(block_parse(b))
}

/// A well-formed block: its entries parse up to the restart array, their keys
/// ascend, and each restart point is the offset of an entry that shares
/// nothing with the one before, the first at offset zero.
pub open spec fn block_wf<C: Comparator>(b: Seq<u8>) -> bool {
    let p = block_parse(b);
    let nr = num_restarts(b);
    let ro = restarts_offset(b);
    &&& b.len() >= 8
    &&& nr >= 1
    &&& ro >= 0
    &&& parse_end(p, 0) == ro
    &&& sorted_by::<C>(pairs(p))
    &&& restart_point(b, 0) == 0
    &&& forall|k: int| 0 <= k < nr - 1 ==> restart_point(b, k) < #[trigger] restart_point(b, k + 1)
    &&& forall|k: int|
        0 <= k < nr && (k > 0 || p.len() > 0) ==> restart_has_entry(p, #[trigger] restart_point(b, k))
}

/// Some entry of the parse starts at `off` and shares nothing.
pub open spec fn restart_has_entry(p: Seq<ParsedEntry>, off: int) -> bool {
    exists|i: int| 0 <= i < p.len() && (#[trigger] p[i]).0 == off && p[i].1 == 0
}

/// The pairs of a parse are its keys and values, index by index.
pub proof fn lemma_pairs(p: Seq<ParsedEntry>)
    ensures
        pairs(p).len() == p.len(),
        forall|j: int| 0 <= j < p.len() ==> #[trigger] pairs(p)[j] == (p[j].2, p[j].3),
{
}

/// The restart array: each offset as four little-endian bytes.
pub open spec fn restart_bytes(rs: Seq<u32>) -> Seq<u8>
    decreases rs.len(),
{
    if rs.len() == 0 {
        Seq::empty()
    } else {
        restart_bytes(rs.drop_last()) + fixed32(rs.last())
    }
}

pub proof fn lemma_restart_bytes(rs: Seq<u32>, k: int)
    requires
        0 <= k < rs.len(),
    ensures
        restart_bytes(rs).len() == 4 * rs.len(),
        u32_at(restart_bytes(rs), 4 * k) == rs[k] as int,
    decreases rs.len(),
{
    let b = restart_bytes(rs);
    let f = fixed32(rs.last());
    lemma_restart_bytes_len(rs);
    if k == rs.len() - 1 {
        assert(b[4 * k] == f[0]);
        assert(b[4 * k + 1] == f[1]);
        assert(b[4 * k + 2] == f[2]);
        assert(b[4 * k + 3] == f[3]);
        lemma_fixed32_round_trip(rs.last());
    } else {
        lemma_restart_bytes(rs.drop_last(), k);
        lemma_restart_bytes_len(rs.drop_last());
        let a = restart_bytes(rs.drop_last());
        assert(b[4 * k] == a[4 * k]);
        assert(b[4 * k + 1] == a[4 * k + 1]);
        assert(b[4 * k + 2] == a[4 * k + 2]);
        assert(b[4 * k + 3] == a[4 * k + 3]);
    }
}

pub proof fn lemma_restart_bytes_len(rs: Seq<u32>)
    ensures
        restart_bytes(rs).len() == 4 * rs.len(),
    decreases rs.len(),
{
    if rs.len() > 0 {
        lemma_restart_bytes_len(rs.drop_last());
    }
}

/// A sequence of u32 is strictly ascending.
pub open spec fn ascending_u32(rs: Seq<u32>) -> bool {
    forall|a: int, b: int| 0 <= a < b < rs.len() ==> rs[a] < rs[b]
}

/// What a builder holds is consistent: the buffer parses to the entries, the
/// last key is the last entry's, keys ascend, and the restart points are
/// ascending offsets of entries that share nothing.
pub open spec fn builder_state<C: Comparator>(
    d: Seq<u8>,
    rs: Seq<u32>,
    entries: Seq<(Seq<u8>, Seq<u8>)>,
    last_key: Seq<u8>,
) -> bool {
    let p = parse_entries(d, 0, d.len() as int, Seq::empty());
    &&& parse_end(p, 0) == d.len()
    &&& pairs(p) == entries
    &&& last_key == parse_last_key(p, Seq::empty())
    &&& sorted_by::<C>(entries)
    &&& d.len() <= MAX_BLOCK_BYTES
    &&& rs.len() >= 1
    &&& rs.len() <= d.len() + 1
    &&& rs[0] == 0
    &&& ascending_u32(rs)
    &&& forall|k: int|
        0 <= k < rs.len() && (k > 0 || p.len() > 0) ==> exists|i: int|
            0 <= i < p.len() && (#[trigger] p[i]).0 == (#[trigger] rs[k]) as int && p[i].1 == 0
    &&& forall|k: int| 0 <= k < rs.len() ==> #[trigger] rs[k] <= d.len()
    &&& forall|k: int| 0 < k < rs.len() ==> #[trigger] rs[k] < d.len()
}

/// The block that a consistent builder finishes into is well formed and holds
/// the builder's entries.
pub proof fn lemma_finished_block<C: Comparator>(
    d: Seq<u8>,
    rs: Seq<u32>,
    entries: Seq<(Seq<u8>, Seq<u8>)>,
    last_key: Seq<u8>,
)
    requires
        builder_state::<C>(d, rs, entries, last_key),
    ensures
        ({
            let b = d + restart_bytes(rs) + fixed32(rs.len() as u32);
            &&& block_wf::<C>(b)
            &&& block_entries(b) == entries
            &&& num_restarts(b) == rs.len()
        }),
{
    let n = rs.len() as u32;
    let b = d + restart_bytes(rs) + fixed32(n);
    let rb = restart_bytes(rs);
    lemma_restart_bytes_len(rs);
    lemma_fixed32_round_trip(n);
    let f = fixed32(n);
    assert(b[b.len() - 4] == f[0]);
    assert(b[b.len() - 3] == f[1]);
    assert(b[b.len() - 2] == f[2]);
    assert(b[b.len() - 1] == f[3]);
    assert(num_restarts(b) == rs.len());
    assert(restarts_offset(b) == d.len());
    assert forall|k: int| 0 <= k < rs.len() implies #[trigger] restart_point(b, k) == rs[k] as int by {
        lemma_restart_bytes(rs, k);
        let at = d.len() + 4 * k;
        assert(b[at] == rb[4 * k]);
        assert(b[at + 1] == rb[4 * k + 1]);
        assert(b[at + 2] == rb[4 * k + 2]);
        assert(b[at + 3] == rb[4 * k + 3]);
    }
    assert(b.subrange(0, d.len() as int) =~= d.subrange(0, d.len() as int));
    lemma_parse_prefix(b, d, 0, d.len() as int, Seq::empty());
    let p = block_parse(b);
    assert forall|k: int| 0 <= k < rs.len() - 1 implies restart_point(b, k) < #[trigger] restart_point(
        b,
        k + 1,
    ) by {
        assert(restart_point(b, k) == rs[k] as int);
        assert(restart_point(b, k + 1) == rs[k + 1] as int);
    }
    assert forall|k: int| 0 <= k < rs.len() && (k > 0 || p.len() > 0) implies exists|i: int|
        0 <= i < p.len() && (#[trigger] p[i]).0 == #[trigger] restart_point(b, k) && p[i].1 == 0 by {
        assert(restart_point(b, k) == rs[k] as int);
        let i = choose|i: int| 0 <= i < p.len() && (#[trigger] p[i]).0 == (rs[k]) as int && p[i].1 == 0;
    }
    assert(restart_point(b, 0) == rs[0] as int);
}

/// Writes a sorted sequence of entries into a block, starting a new restart
/// interval every `block_restart_interval` entries.
pub struct BlockBuilder<C: Comparator> {
    order: PhantomData<C>,
    restart_interval: usize,
    buffer: Vec<u8>,
    restarts: Vec<u32>,
    last_key: Vec<u8>,
    counter: usize,
    entries: Ghost<Seq<(Seq<u8>, Seq<u8>)>>,
}

impl BlockBuilder<StandardComparator> {
    /// An empty builder with the options' restart interval, for keys in
    /// bytewise order.
    pub fn new(o: Options) -> (r: BlockBuilder<StandardComparator>)
        ensures
            r.wf(),
            r.entries_spec() == Seq::<(Seq<u8>, Seq<u8>)>::empty(),
            r.interval_spec() == o.block_restart_interval,
            r.counter_spec() == 0,
            r.buffer_spec().len() == 0,
            r.restarts_len() == 1,
            r.restarts_spec() == seq![0u32],
    {
        BlockBuilder::with_comparator(o, StandardComparator {})
    }
}

/// The key of the last entry; empty where there is none.
pub open spec fn last_key_of(entries: Seq<(Seq<u8>, Seq<u8>)>) -> Seq<u8> {
    if entries.len() == 0 {
        Seq::empty()
    } else {
        entries.last().0
    }
}

/// The most bytes the entries of a block may take, so that restart offsets and
/// the size of the whole block fit in 32 bits.
pub const MAX_BLOCK_BYTES: usize = 0x3000_0000;

impl<C: Comparator> BlockBuilder<C> {
    /// The entries added so far, in order.
    pub closed spec fn entries_spec(&self) -> Seq<(Seq<u8>, Seq<u8>)> {
        self.entries@
    }

    /// The bytes of the entries written so far.
    pub closed spec fn buffer_spec(&self) -> Seq<u8> {
        self.buffer@
    }

    /// The restart points so far.
    pub closed spec fn restarts_spec(&self) -> Seq<u32> {
        self.restarts@
    }

    /// The number of restart points so far.
    pub open spec fn restarts_len(&self) -> nat {
        self.restarts_spec().len()
    }

    /// The entries of the current restart interval.
    pub closed spec fn counter_spec(&self) -> nat {
        self.counter as nat
    }

    /// The entries between restarts.
    pub closed spec fn interval_spec(&self) -> nat {
        self.restart_interval as nat
    }

    /// The next entry starts a new restart interval: the current one is full
    /// and the block is not empty.
    pub open spec fn starts_restart(&self) -> bool {
        !(self.counter_spec() < self.interval_spec() || self.buffer_spec().len() == 0)
    }

    /// How many bytes the next entry, with key `key`, shares with the last
    /// key: none at a restart, else their longest common prefix.
    pub open spec fn shared_for(&self, key: Seq<u8>) -> nat {
        if self.starts_restart() {
            0
        } else {
            common_prefix_len(last_key_of(self.entries_spec()), key)
        }
    }

    pub closed spec fn wf(&self) -> bool {
        &&& builder_state::<C>(self.buffer@, self.restarts@, self.entries@, self.last_key@)
        &&& self.counter <= self.buffer@.len()
    }

    /// An empty builder with the options' restart interval, for keys in the
    /// order of `C`.
    pub fn with_comparator(o: Options, _cmp: C) -> (r: BlockBuilder<C>)
        ensures
            r.wf(),
            r.entries_spec() == Seq::<(Seq<u8>, Seq<u8>)>::empty(),
            r.interval_spec() == o.block_restart_interval,
            r.counter_spec() == 0,
            r.buffer_spec().len() == 0,
            r.restarts_len() == 1,
            r.restarts_spec() == seq![0u32],
    {
        let mut restarts: Vec<u32> = Vec::new();
        restarts.push(0);
        let r = BlockBuilder {
            order: PhantomData,
            restart_interval: o.block_restart_interval,
            buffer: Vec::new(),
            restarts,
            last_key: Vec::new(),
            counter: 0,
            entries: Ghost(Seq::empty()),
        };
        assert(pairs(Seq::<ParsedEntry>::empty()) =~= Seq::<(Seq<u8>, Seq<u8>)>::empty());
        assert(r.restarts@ =~= seq![0u32]);
        r
    }

    /// The number of entries in the current restart interval.
    pub fn entries(&self) -> (r: usize)
        ensures
            r == self.counter_spec(),
    {
        self.counter
    }

    /// The last key added; empty before the first.
    pub fn last_key(&self) -> (r: &[u8])
        requires
            self.wf(),
        ensures
            self.entries_spec().len() > 0 ==> r@ == self.entries_spec().last().0,
            self.entries_spec().len() == 0 ==> r@.len() == 0,
    {
        let ghost p = parse_entries(self.buffer@, 0, self.buffer@.len() as int, Seq::empty());
        assert(self.entries@.len() == p.len());
        proof {
            if p.len() > 0 {
                assert(self.entries@.last() == pairs(p)[p.len() - 1]);
            }
        }
        self.last_key.as_slice()
    }

    /// The size of the block so far: entries, restart array and count.
    pub fn size_estimate(&self) -> (r: usize)
        requires
            self.wf(),
        ensures
            r == self.buffer_spec().len() + 4 * self.restarts_len() + 4,
    {
        self.buffer.len() + self.restarts.len() * 4 + 4
    }

    /// Starts over with no entries.
    pub fn reset(&mut self)
        ensures
            final(self).wf(),
            final(self).entries_spec() == Seq::<(Seq<u8>, Seq<u8>)>::empty(),
            final(self).interval_spec() == old(self).interval_spec(),
            final(self).counter_spec() == 0,
            final(self).buffer_spec().len() == 0,
            final(self).restarts_len() == 1,
            final(self).restarts_spec() == seq![0u32],
    {
        self.buffer.clear();
        self.restarts.clear();
        self.restarts.push(0);
        self.last_key.clear();
        self.counter = 0;
        self.entries = Ghost(Seq::empty());
        assert(pairs(Seq::<ParsedEntry>::empty()) =~= Seq::<(Seq<u8>, Seq<u8>)>::empty());
        assert(self.buffer@ =~= Seq::<u8>::empty());
        assert(self.last_key@ =~= Seq::<u8>::empty());
        assert(self.restarts@ =~= seq![0u32]);
    }
}

} // verus!

verus! {

impl<C: Comparator> BlockBuilder<C> {
    /// Appends an entry. Keys must come in strictly ascending order of `C`. Within a
    /// restart interval the key shares its longest common prefix with the
    /// previous key; once the interval is full a restart point is recorded and
    /// the key is written whole.
    #[verifier::rlimit(80)]
    pub fn add(&mut self, key: &[u8], val: &[u8])
        requires
            old(self).wf(),
            old(self).entries_spec().len() > 0 ==> C::less(old(self).entries_spec().last().0, key@),
            old(self).buffer_spec().len() + key@.len() + val@.len() + 30 <= MAX_BLOCK_BYTES,
        ensures
            final(self).wf(),
            final(self).entries_spec() == old(self).entries_spec().push((key@, val@)),
            final(self).interval_spec() == old(self).interval_spec(),
            final(self).counter_spec() == if old(self).counter_spec() < old(self).interval_spec()
                || old(self).buffer_spec().len() == 0 {
                old(self).counter_spec() + 1
            } else {
                1
            },
            final(self).restarts_len() == if old(self).counter_spec() < old(self).interval_spec()
                || old(self).buffer_spec().len() == 0 {
                old(self).restarts_len()
            } else {
                old(self).restarts_len() + 1
            },
            final(self).buffer_spec() == old(self).buffer_spec() + encode_entry(
                old(self).shared_for(key@),
                key@.subrange(old(self).shared_for(key@) as int, key@.len() as int),
                val@,
            ),
            final(self).restarts_spec() == if old(self).starts_restart() {
                old(self).restarts_spec().push(old(self).buffer_spec().len() as u32)
            } else {
                old(self).restarts_spec()
            },
    {
        let ghost d = self.buffer@;
        let ghost p = parse_entries(d, 0, d.len() as int, Seq::empty());
        let ghost lk = self.last_key@;
        let ghost rs = self.restarts@;
        proof {
            assert(self.entries@.len() == p.len());
            if p.len() > 0 {
                assert(self.entries@.last() == pairs(p)[p.len() - 1]);
            }
            assert(lk == last_key_of(self.entries@));
        }
        let mut shared: usize = 0;
        if self.counter < self.restart_interval || self.buffer.len() == 0 {
            let smallest = if self.last_key.len() < key.len() {
                self.last_key.len()
            } else {
                key.len()
            };
            while shared < smallest && self.last_key[shared] == key[shared]
                invariant
                    smallest <= self.last_key@.len(),
                    smallest <= key@.len(),
                    shared <= smallest,
                    self.last_key@ == lk,
                    lk.subrange(0, shared as int) == key@.subrange(0, shared as int),
                decreases smallest - shared,
            {
                assert(lk.subrange(0, shared + 1) =~= lk.subrange(0, shared as int).push(lk[shared as int]));
                assert(key@.subrange(0, shared + 1) =~= key@.subrange(0, shared as int).push(key@[shared as int]));
                shared = shared + 1;
            }
            proof {
                lemma_common_prefix_len(lk, key@, shared as int);
            }
            self.counter = self.counter + 1;
        } else {
            self.restarts.push(self.buffer.len() as u32);
            self.counter = 1;
        }
        let ghost sh = shared as nat;
        let non_shared = key.len() - shared;
        let suffix = slice_range(key, shared, non_shared);
        encode_varint(shared as u64, &mut self.buffer);
        encode_varint(non_shared as u64, &mut self.buffer);
        encode_varint(val.len() as u64, &mut self.buffer);
        self.buffer.extend_from_slice(suffix);
        self.buffer.extend_from_slice(val);
        self.last_key.clear();
        self.last_key.extend_from_slice(key);
        self.entries = Ghost(self.entries@.push((key@, val@)));
        proof {
            let e = encode_entry(sh, suffix@, val@);
            assert(self.buffer@ =~= d + e);
            lemma_parse_append(d, 0, Seq::empty(), sh, suffix@, val@);
            let parsed = parse_entries(self.buffer@, 0, self.buffer@.len() as int, Seq::empty());
            assert(lk.subrange(0, sh as int) + suffix@ =~= key@);
            assert(parsed == p.push((d.len() as int, sh, key@, val@, self.buffer@.len() as int)));
            assert(pairs(parsed) =~= pairs(p).push((key@, val@)));
            assert(self.last_key@ =~= key@);
            lemma_varint_len(sh);
            lemma_varint_len(suffix@.len() as nat);
            lemma_varint_len(val@.len() as nat);
            assert(e.len() >= 3);
            assert forall|i: int, j: int| 0 <= i < j < self.entries@.len() implies C::less(
                #[trigger] self.entries@[i].0,
                #[trigger] self.entries@[j].0,
            ) by {
                if j == self.entries@.len() - 1 && i < j {
                    let old_e = old(self).entries_spec();
                    if i < old_e.len() - 1 {
                        C::lemma_strict_total_order(old_e[i].0, old_e.last().0, key@);
                    }
                }
            }
            let rs2 = self.restarts@;
            assert forall|k: int|
                0 <= k < rs2.len() && (k > 0 || parsed.len() > 0) implies exists|i: int|
                0 <= i < parsed.len() && (#[trigger] parsed[i]).0 == (#[trigger] rs2[k]) as int && parsed[i].1
                    == 0 by {
                if k < rs.len() && (k > 0 || p.len() > 0) {
                    let i = choose|i: int|
                        0 <= i < p.len() && (#[trigger] p[i]).0 == (rs[k]) as int && p[i].1 == 0;
                    assert(parsed[i] == p[i]);
                } else {
                    let i = p.len() as int;
                    assert(parsed[i].0 == d.len());
                    if k < rs.len() {
                        assert(k == 0);
                        assert(d.len() == 0) by {
                            if d.len() != 0 {
                                assert(parse_end(p, 0) == d.len());
                            }
                        }
                        assert(sh == 0);
                    }
                }
            }
            assert(ascending_u32(rs2)) by {
            assert forall|a: int, b: int| 0 <= a < b < rs2.len() implies rs2[a] < rs2[b] by {
                if b == rs.len() {
                    assert(rs2[b] == d.len());
                    if a > 0 {
                        assert(rs[a] < d.len());
                    } else {
                        assert(d.len() > 0);
                    }
                }
            }
            }
            assert(parse_end(parsed, 0) == self.buffer@.len());
            assert(self.buffer@.len() <= MAX_BLOCK_BYTES);
            assert(rs2.len() >= 1 && rs2.len() <= self.buffer@.len() + 1);
            assert(rs2[0] == 0);
            assert(forall|k: int| 0 <= k < rs2.len() ==> #[trigger] rs2[k] <= self.buffer@.len());
            assert(forall|k: int| 0 < k < rs2.len() ==> #[trigger] rs2[k] < self.buffer@.len());
        }
    }

    /// Appends the restart array and the restart count, and returns the
    /// finished block.
    pub fn finish(self) -> (r: Vec<u8>)
        requires
            self.wf(),
        ensures
            block_wf::<C>(r@),
            block_entries(r@) == self.entries_spec(),
            r@ == self.buffer_spec() + restart_bytes(self.restarts_spec()) + fixed32(
                self.restarts_len() as u32,
            ),
            num_restarts(r@) == self.restarts_len(),
            r@.len() == self.buffer_spec().len() + 4 * self.restarts_len() + 4,
    {
        let ghost d = self.buffer@;
        let ghost rs = self.restarts@;
        proof {
            lemma_restart_bytes_len(rs);
        }
        let mut buf = self.buffer;
        let mut i: usize = 0;
        while i < self.restarts.len()
            invariant
                i <= rs.len(),
                rs == self.restarts@,
                buf@ == d + restart_bytes(rs.subrange(0, i as int)),
            decreases rs.len() - i,
        {
            let ghost before = buf@;
            encode_fixed32(self.restarts[i], &mut buf);
            assert(rs.subrange(0, i + 1).drop_last() =~= rs.subrange(0, i as int));
            assert(buf@ =~= d + restart_bytes(rs.subrange(0, i + 1)));
            i = i + 1;
        }
        assert(rs.subrange(0, rs.len() as int) =~= rs);
        let n = self.restarts.len() as u32;
        encode_fixed32(n, &mut buf);
        proof {
            lemma_finished_block::<C>(d, rs, self.entries@, self.last_key@);
        }
        buf
    }
}

} // verus!

verus! {

/// Entry offsets grow strictly along a parse.
pub proof fn lemma_offsets_increasing(data: Seq<u8>, off: int, limit: int, prev: Seq<u8>)
    ensures
        ({
            let p = parse_entries(data, off, limit, prev);
            forall|i: int, j: int| 0 <= i < j < p.len() ==> (#[trigger] p[i]).4 <= (#[trigger] p[j]).0
        }),
{
    let p = parse_entries(data, off, limit, prev);
    lemma_parse_chain(data, off, limit, prev);
    assert forall|i: int, j: int| 0 <= i < j < p.len() implies (#[trigger] p[i]).4 <= (
    #[trigger] p[j]).0 by {
        lemma_offsets_step(p, i, j);
    }
}

proof fn lemma_offsets_step(p: Seq<ParsedEntry>, i: int, j: int)
    requires
        0 <= i < j < p.len(),
        forall|x: int| 0 <= x < p.len() ==> (#[trigger] p[x]).0 < p[x].4,
        forall|x: int| 0 <= x < p.len() - 1 ==> (#[trigger] p[x]).4 == p[x + 1].0,
    ensures
        p[i].4 <= p[j].0,
    decreases j - i,
{
    if j > i + 1 {
        lemma_offsets_step(p, i, j - 1);
        assert(p[j - 1].4 == p[j].0);
    }
}

/// A block of sorted entries. Its bytes are shared, by reference count, with
/// every cursor made from it; a cursor may outlive the block.
pub struct Block<C: Comparator> {
    block: Rc<Vec<u8>>,
    order: PhantomData<C>,
}

impl<C: Comparator> Block<C> {
    /// The bytes of the block.
    pub closed spec fn view(&self) -> Seq<u8> {
        self.block@
    }

    /// Wraps block contents, whose keys are in the order of `C`; they must
    /// hold more than the restart count.
    pub fn with_comparator(_opt: Options, contents: Vec<u8>, _cmp: C) -> (r: Block<C>)
        requires
            contents@.len() > 4,
        ensures
            r@ == contents@,
    {
        Block { block: Rc::new(contents), order: PhantomData }
    }

    /// The block's bytes, shared.
    pub fn contents(&self) -> (r: Rc<Vec<u8>>)
        ensures
            r@ == self@,
    {
        self.block.clone()
    }

    /// A cursor over the block, before its first entry.
    pub fn iter(&self) -> (r: BlockIter<C>)
        ensures
            r.inv(),
            r.data() == self@,
            r.position() is None,
            block_wf::<C>(self@) ==> r.next_index() == 0,
    {
        BlockIter::from_contents(self.block.clone())
    }
}

impl Block<StandardComparator> {
    /// Wraps block contents, whose keys are in bytewise order; they must hold
    /// more than the restart count.
    pub fn new(opt: Options, contents: Vec<u8>) -> (r: Block<StandardComparator>)
        requires
            contents@.len() > 4,
        ensures
            r@ == contents@,
    {
        Block::with_comparator(opt, contents, StandardComparator {})
    }
}

/// A cursor over the entries of a block. It decodes entries as it goes,
/// rebuilding each key from the shared part of the key before it.
pub struct BlockIter<C: Comparator> {
    order: PhantomData<C>,
    block: Rc<Vec<u8>>,
    restarts_off: usize,
    num_restarts: usize,
    offset: usize,
    current_entry_offset: usize,
    current_restart_ix: usize,
    key: Vec<u8>,
    val_offset: usize,
    val_len: usize,
    is_valid: bool,
    has_current: bool,
    next_ix: Ghost<int>,
    cur_ix: Ghost<int>,
}

impl<C: Comparator> BlockIter<C> {
    /// The bytes of the block.
    pub closed spec fn data(&self) -> Seq<u8> {
        self.block@
    }

    /// The index of the current entry, if the cursor is valid.
    pub closed spec fn position(&self) -> Option<int> {
        if self.is_valid {
            Some(self.cur_ix@)
        } else {
            None
        }
    }

    /// The byte offset of the entry that `next` reads.
    pub closed spec fn read_offset(&self) -> int {
        self.offset as int
    }

    /// The index of the entry that `next` reads.
    pub closed spec fn next_index(&self) -> int {
        self.next_ix@
    }

    /// The index of the entry last visited, which `prev` steps back from;
    /// `None` before the first or after a reset.
    pub closed spec fn anchor(&self) -> Option<int> {
        if self.has_current {
            Some(self.cur_ix@)
        } else {
            None
        }
    }

    pub closed spec fn inv(&self) -> bool {
        let b = self.block@;
        let p = block_parse(b);
        &&& self.restarts_off <= b.len()
        &&& self.offset <= self.restarts_off
        &&& (restarts_offset(b) >= 0 ==> self.restarts_off == restarts_offset(b)
            && self.num_restarts == num_restarts(b))
        &&& (restarts_offset(b) < 0 ==> self.restarts_off == 0 && self.num_restarts == 0)
        &&& self.is_valid ==> self.val_offset + self.val_len <= b.len()
        &&& self.is_valid ==> self.has_current
        &&& block_wf::<C>(b) ==> {
            &&& 0 <= self.next_ix@ <= p.len()
            &&& parse_entries(b, self.offset as int, self.restarts_off as int, self.key@)
                == p.subrange(self.next_ix@, p.len() as int)
            &&& self.is_valid ==> {
                &&& self.cur_ix@ == self.next_ix@ - 1
                &&& self.key@ == p[self.cur_ix@].2
                &&& b.subrange(self.val_offset as int, self.val_offset + self.val_len)
                    == p[self.cur_ix@].3
            }
            &&& self.has_current ==> 0 <= self.cur_ix@ < p.len() && self.current_entry_offset
                == p[self.cur_ix@].0
            &&& self.is_valid ==> self.offset == p[self.cur_ix@].4
        }
    }

    /// In a well-formed block the cursor's indices lie within the entries.
    pub proof fn lemma_inv(&self)
        requires
            self.inv(),
            block_wf::<C>(self.data()),
        ensures
            0 <= self.next_index() <= block_entries(self.data()).len(),
            self.position() matches Some(i) ==> 0 <= i < block_entries(self.data()).len() && i
                == self.next_index() - 1,
            self.anchor() matches Some(i) ==> 0 <= i < block_entries(self.data()).len(),
            self.position() is Some ==> self.anchor() == self.position(),
    {
    }

    fn from_contents(block: Rc<Vec<u8>>) -> (r: BlockIter<C>)
        ensures
            r.inv(),
            r.data() == block@,
            r.position() is None,
            r.anchor() is None,
            block_wf::<C>(block@) ==> r.next_index() == 0,
    {
        let len = block.len();
        let mut restarts_off: usize = 0;
        let mut nr: usize = 0;
        if len >= 4 {
            let n = decode_fixed32_at(block.as_slice(), len - 4) as usize;
            if n <= (len - 4) / 4 {
                nr = n;
                restarts_off = len - 4 - 4 * n;
            }
        }
        proof {
            let b = block@;
            if len >= 4 {
                assert(num_restarts(b) == u32_at(b, b.len() - 4));
            }
            let p = block_parse(b);
            assert(p.subrange(0, p.len() as int) =~= p);
        }
        let key: Vec<u8> = Vec::new();
        assert(key@ =~= Seq::<u8>::empty());
        BlockIter {
            order: PhantomData,
            block,
            restarts_off,
            num_restarts: nr,
            offset: 0,
            current_entry_offset: 0,
            current_restart_ix: 0,
            key,
            val_offset: 0,
            val_len: 0,
            is_valid: false,
            has_current: false,
            next_ix: Ghost(0),
            cur_ix: Ghost(0),
        }
    }

    pub fn valid(&self) -> (r: bool)
        ensures
            r == self.position() is Some,
    {
        self.is_valid
    }

    /// Returns to the state before the first entry.
    pub fn reset(&mut self)
        requires
            old(self).inv(),
        ensures
            final(self).inv(),
            final(self).data() == old(self).data(),
            final(self).position() is None,
            final(self).anchor() is None,
            block_wf::<C>(final(self).data()) ==> final(self).next_index() == 0,
    {
        self.offset = 0;
        self.val_offset = 0;
        self.val_len = 0;
        self.current_restart_ix = 0;
        self.key.clear();
        self.is_valid = false;
        self.has_current = false;
        self.next_ix = Ghost(0);
        proof {
            let p = block_parse(self.block@);
            assert(p.subrange(0, p.len() as int) =~= p);
            assert(self.key@ =~= Seq::<u8>::empty());
        }
    }

    /// Moves to the next entry and returns it; past the last entry, or at an
    /// entry that does not decode, the cursor becomes invalid and `None` comes
    /// back.
    pub fn next(&mut self) -> (r: Option<(Vec<u8>, Vec<u8>)>)
        requires
            old(self).inv(),
        ensures
            final(self).inv(),
            final(self).data() == old(self).data(),
            block_wf::<C>(old(self).data()) ==> {
                let e = block_entries(old(self).data());
                let n = old(self).next_index();
                if n < e.len() {
                    &&& final(self).position() == Some(n)
                    &&& final(self).anchor() == Some(n)
                    &&& final(self).next_index() == n + 1
                    &&& r matches Some(kv) && kv.0@ == e[n].0 && kv.1@ == e[n].1
                } else {
                    &&& final(self).position() is None
                    &&& final(self).anchor() == old(self).anchor()
                    &&& final(self).next_index() == n
                    &&& r is None
                }
            },
            r is Some <==> final(self).position() is Some,
            final(self).read_offset() >= old(self).read_offset(),
            r is Some ==> final(self).read_offset() > old(self).read_offset(),
    {
        let ghost b = self.block@;
        let ghost p = block_parse(b);
        if self.offset >= self.restarts_off {
            self.is_valid = false;
            proof {
                if block_wf::<C>(b) {
                    assert(parse_entries(b, self.offset as int, self.restarts_off as int, self.key@)
                        == Seq::<ParsedEntry>::empty());
                    assert(p.subrange(self.next_ix@, p.len() as int).len() == 0);
                }
            }
            return None;
        }
        let entry = slice_range(self.block.as_slice(), self.offset, self.restarts_off - self.offset);
        let ghost here = self.offset as int;
        assert(entry@ == b.subrange(here, self.restarts_off as int));
        let dec = decode_entry_exec(entry);
        match dec {
            None => {
                self.is_valid = false;
                proof {
                    if block_wf::<C>(b) {
                        assert(p.subrange(self.next_ix@, p.len() as int).len() == 0);
                    }
                }
                None
            },
            Some((shared, non_shared, valsize, h)) => {
                if shared > self.key.len() as u64 {
                    self.is_valid = false;
                    proof {
                        if block_wf::<C>(b) {
                            assert(p.subrange(self.next_ix@, p.len() as int).len() == 0);
                        }
                    }
                    return None;
                }
                let ghost old_key = self.key@;
                let ghost old_next = self.next_ix@;
                let shared = shared as usize;
                self.key.truncate(shared);
                let suffix = slice_range(entry, h, non_shared);
                self.key.extend_from_slice(suffix);
                self.current_entry_offset = self.offset;
                self.val_offset = self.offset + h + non_shared;
                self.val_len = valsize;
                self.offset = self.offset + h + non_shared + valsize;
                self.is_valid = true;
                self.has_current = true;
                self.cur_ix = Ghost(old_next);
                self.next_ix = Ghost(old_next + 1);
                let ghost n = (h + non_shared + valsize) as int;
                proof {
                    assert(self.key@ =~= old_key.subrange(0, shared as int) + suffix@);
                    if block_wf::<C>(b) {
                        let ro = self.restarts_off as int;
                        let key = old_key.subrange(0, shared as int) + suffix@;
                        let val = entry@.subrange(h + non_shared, h + non_shared + valsize);
                        let rest = parse_entries(b, here + n, ro, key);
                        assert(parse_entries(b, here, ro, old_key) == seq![
                            (here, shared as nat, key, val, here + n),
                        ] + rest);
                        let s = p.subrange(old_next, p.len() as int);
                        assert(s[0] == p[old_next]);
                        assert(rest =~= p.subrange(old_next + 1, p.len() as int)) by {
                            assert(rest =~= s.subrange(1, s.len() as int));
                        }
                        assert(b.subrange(self.val_offset as int, self.val_offset + self.val_len)
                            =~= val);
                    }
                }
                let k = self.key.clone();
                let v = bytes_to_vec(slice_range(self.block.as_slice(), self.val_offset, self.val_len));
                proof {
                    if block_wf::<C>(b) {
                        assert(block_entries(b)[old_next] == (p[old_next].2, p[old_next].3));
                    }
                }
                Some((k, v))
            },
        }
    }

    /// The current key and value.
    pub fn current(&self) -> (r: Option<(Vec<u8>, Vec<u8>)>)
        requires
            self.inv(),
        ensures
            r is Some <==> self.position() is Some,
            block_wf::<C>(self.data()) ==> (self.position() matches Some(i) ==> r matches Some(kv)
                && kv.0@ == block_entries(self.data())[i].0 && kv.1@ == block_entries(
                self.data(),
            )[i].1),
    {
        if self.is_valid {
            let k = self.key.clone();
            let v = bytes_to_vec(slice_range(self.block.as_slice(), self.val_offset, self.val_len));
            proof {
                if block_wf::<C>(self.block@) {
                    let p = block_parse(self.block@);
                    assert(block_entries(self.block@)[self.cur_ix@] == (p[self.cur_ix@].2, p[self.cur_ix@].3));
                }
            }
            Some((k, v))
        } else {
            None
        }
    }
}

} // verus!

verus! {

/// The index of the entry at restart point `k`; the number of entries where
/// no entry is there.
pub open spec fn restart_index(b: Seq<u8>, k: int) -> int {
    let p = block_parse(b);
    if exists|i: int| 0 <= i < p.len() && (#[trigger] p[i]).0 == restart_point(b, k) && p[i].1 == 0 {
        choose|i: int| 0 <= i < p.len() && (#[trigger] p[i]).0 == restart_point(b, k) && p[i].1 == 0
    } else {
        p.len() as int
    }
}

/// Facts about a well-formed block: entry offsets ascend from zero, the last
/// entry ends at the restart array, and parsing from a restart point with no
/// previous key gives the entries from that restart's index on.
pub proof fn lemma_block_restart<C: Comparator>(b: Seq<u8>, k: int)
    requires
        block_wf::<C>(b),
        0 <= k < num_restarts(b),
    ensures
        ({
            let p = block_parse(b);
            let ri = restart_index(b, k);
            &&& 0 <= ri <= p.len()
            &&& ri < p.len() ==> p[ri].0 == restart_point(b, k)
            &&& ri == p.len() ==> restart_point(b, k) == restarts_offset(b)
            &&& 0 <= restart_point(b, k) <= restarts_offset(b)
            &&& parse_entries(b, restart_point(b, k), restarts_offset(b), Seq::empty())
                == p.subrange(ri, p.len() as int)
            &&& k == 0 ==> ri == 0
            &&& k > 0 ==> ri < p.len()
        }),
{
    let p = block_parse(b);
    let ro = restarts_offset(b);
    lemma_parse_chain(b, 0, ro, Seq::empty());
    lemma_offsets_increasing(b, 0, ro, Seq::empty());
    if k > 0 || p.len() > 0 {
        assert(restart_has_entry(p, restart_point(b, k)));
        assert(exists|i: int| 0 <= i < p.len() && (#[trigger] p[i]).0 == restart_point(b, k) && p[i].1 == 0);
        let i = restart_index(b, k);
        lemma_parse_suffix(b, 0, ro, Seq::empty(), i);
        let prev = if i == 0 { Seq::<u8>::empty() } else { p[i - 1].2 };
        assert(p.subrange(i, p.len() as int)[0] == p[i]);
        lemma_parse_restart(b, p[i].0, ro, prev, Seq::empty());
        if k == 0 {
            if i > 0 {
                assert(p[0].4 <= p[i].0);
            }
        }
    } else {
        assert(restart_point(b, 0) == 0);
    }
}

impl<C: Comparator> BlockIter<C> {
    /// The offset that restart point `ix` holds.
    fn get_restart_point(&self, ix: usize) -> (r: usize)
        requires
            self.inv(),
            ix < self.num_restarts,
        ensures
            r == restart_point(self.block@, ix as int),
    {
        let _len = self.block.len();
        assert(self.restarts_off + 4 * ix + 4 <= self.block@.len());
        let at = self.restarts_off + 4 * ix;
        decode_fixed32_at(self.block.as_slice(), at) as usize
    }

    /// Places the cursor so that `next` reads the entry at restart point `ix`.
    fn jump_to_restart(&mut self, ix: usize)
        requires
            old(self).inv(),
            ix < old(self).num_restarts,
        ensures
            final(self).inv(),
            final(self).block@ == old(self).block@,
            final(self).num_restarts == old(self).num_restarts,
            final(self).restarts_off == old(self).restarts_off,
            final(self).position() is None,
            final(self).anchor() == old(self).anchor(),
            final(self).current_entry_offset == old(self).current_entry_offset,
            final(self).offset as int == if restart_point(old(self).block@, ix as int) <= old(
                self,
            ).restarts_off {
                restart_point(old(self).block@, ix as int)
            } else {
                old(self).restarts_off as int
            },
            block_wf::<C>(old(self).block@) ==> final(self).next_ix@ == restart_index(
                old(self).block@,
                ix as int,
            ),
    {
        let off = self.get_restart_point(ix);
        if off <= self.restarts_off {
            self.offset = off;
        } else {
            self.offset = self.restarts_off;
        }
        self.key.clear();
        self.is_valid = false;
        self.current_restart_ix = ix;
        self.next_ix = Ghost(restart_index(self.block@, ix as int));
        proof {
            assert(self.key@ =~= Seq::<u8>::empty());
            if block_wf::<C>(self.block@) {
                lemma_block_restart::<C>(self.block@, ix as int);
            }
        }
    }

    /// Moves to the first entry; invalid on an empty block.
    pub fn seek_to_first(&mut self)
        requires
            old(self).inv(),
        ensures
            final(self).inv(),
            final(self).data() == old(self).data(),
            block_wf::<C>(old(self).data()) ==> final(self).position() == if block_entries(
                old(self).data(),
            ).len() > 0 {
                Some(0int)
            } else {
                None
            },
    {
        self.reset();
        self.next();
    }

    /// Moves to the first entry whose key is not before `to`; where every key
    /// is before `to`, to the last entry.
    pub fn seek(&mut self, to: &[u8])
        requires
            old(self).inv(),
        ensures
            final(self).inv(),
            final(self).data() == old(self).data(),
            block_wf::<C>(old(self).data()) ==> {
                let e = block_entries(old(self).data());
                let lb = lower_bound::<C>(e, to@);
                final(self).position() == if lb < e.len() {
                    Some(lb)
                } else if e.len() > 0 {
                    Some(e.len() - 1)
                } else {
                    None
                }
            },
    {
        self.seek_lower_bound(to);
        if !self.is_valid {
            self.seek_to_last();
        }
    }

    /// Moves to the first entry whose key is not before `to`; invalid if there
    /// is none. Finds the last restart point whose key is before `to` by binary
    /// search, then scans forward from it.
    pub fn seek_lower_bound(&mut self, to: &[u8])
        requires
            old(self).inv(),
        ensures
            final(self).inv(),
            final(self).data() == old(self).data(),
            block_wf::<C>(old(self).data()) ==> {
                let e = block_entries(old(self).data());
                let lb = lower_bound::<C>(e, to@);
                final(self).position() == if lb < e.len() {
                    Some(lb)
                } else {
                    None
                }
            },
    {
        let ghost b = self.block@;
        let ghost p = block_parse(b);
        let ghost e = block_entries(b);
        proof {
            lemma_pairs(p);
        }
        self.reset();
        if self.num_restarts == 0 {
            proof {
                if block_wf::<C>(b) {
                    assert(false);
                }
            }
            return;
        }
        let mut left: usize = 0;
        let mut right: usize = self.num_restarts - 1;
        while left < right
            invariant
                self.inv(),
                self.block@ == b,
                b == old(self).block@,
                p == block_parse(b),
                e == block_entries(b),
                e.len() == p.len(),
                forall|j: int| 0 <= j < p.len() ==> #[trigger] e[j] == (p[j].2, p[j].3),
                left <= right < self.num_restarts,
                block_wf::<C>(b) ==> (left == 0 || (restart_index(b, left as int) < p.len() && C::less(
                    p[restart_index(b, left as int)].2,
                    to@,
                ))),
            decreases right - left,
        {
            let middle = left + (right - left + 1) / 2;
            self.jump_to_restart(middle);
            proof {
                if block_wf::<C>(b) {
                    lemma_block_restart::<C>(b, middle as int);
                }
            }
            let found = self.next();
            match found {
                Some((k, _)) => {
                    if matches!(C::cmp(k.as_slice(), to), Ordering::Less) {
                        left = middle;
                    } else {
                        right = middle - 1;
                    }
                },
                None => {
                    right = middle - 1;
                },
            }
        }
        self.jump_to_restart(left);
        proof {
            if block_wf::<C>(b) {
                lemma_block_restart::<C>(b, left as int);
                let ri = restart_index(b, left as int);
                assert forall|j: int| 0 <= j < ri implies C::less(#[trigger] p[j].2, to@) by {
                    assert(pairs(p)[j].0 == p[j].2);
                    assert(pairs(p)[ri].0 == p[ri].2);
                    C::lemma_strict_total_order(p[j].2, p[ri].2, to@);
                }
            }
        }
        loop
            invariant
                self.inv(),
                self.block@ == b,
                b == old(self).block@,
                p == block_parse(b),
                e == block_entries(b),
                e.len() == p.len(),
                forall|j: int| 0 <= j < p.len() ==> #[trigger] e[j] == (p[j].2, p[j].3),
                block_wf::<C>(b) ==> self.next_ix@ <= p.len(),
                block_wf::<C>(b) ==> forall|j: int| 0 <= j < self.next_ix@ ==> C::less(#[trigger] p[j].2, to@),
            decreases self.restarts_off - self.offset,
        {
            let found = self.next();
            match found {
                None => {
                    proof {
                        if block_wf::<C>(b) {
                            assert forall|j: int| 0 <= j < e.len() implies C::less(
                                #[trigger] e[j].0,
                                to@,
                            ) by {
                                assert(e[j].0 == p[j].2);
                            }
                            assert(self.next_ix@ == p.len());
                            lemma_lower_bound::<C>(e, to@, e.len() as int);
                        }
                    }
                    return;
                },
                Some((k, _)) => {
                    if !matches!(C::cmp(k.as_slice(), to), Ordering::Less) {
                        proof {
                            if block_wf::<C>(b) {
                                let i = self.cur_ix@;
                                assert forall|j: int| 0 <= j < i implies C::less(
                                    #[trigger] e[j].0,
                                    to@,
                                ) by {
                                    assert(e[j].0 == p[j].2);
                                }
                                lemma_lower_bound::<C>(e, to@, i);
                            }
                        }
                        return;
                    }
                    proof {
                        if block_wf::<C>(b) {
                            assert(e[self.cur_ix@].0 == p[self.cur_ix@].2);
                        }
                    }
                },
            }
        }
    }
}

} // verus!

verus! {

impl<C: Comparator> BlockIter<C> {
    /// Steps back to the entry before the one last visited: scans forward
    /// from the closest restart point before it. Before the first entry, or
    /// from the first, the cursor is reset and `false` comes back.
    pub fn prev(&mut self) -> (r: bool)
        requires
            old(self).inv(),
        ensures
            final(self).inv(),
            final(self).data() == old(self).data(),
            r == final(self).position() is Some,
            block_wf::<C>(old(self).data()) ==> final(self).position() == match old(self).anchor() {
                Some(a) => if a > 0 {
                    Some(a - 1)
                } else {
                    None
                },
                None => None,
            },
            block_wf::<C>(old(self).data()) ==> (final(self).position() is None ==> final(self).anchor() is None),
    {
        let ghost b = self.block@;
        let ghost p = block_parse(b);
        let ghost ro = restarts_offset(b);
        proof {
            if block_wf::<C>(b) {
                lemma_parse_chain(b, 0, ro, Seq::empty());
                lemma_offsets_increasing(b, 0, ro, Seq::empty());
            }
        }
        if !self.has_current || self.current_entry_offset == 0 || self.num_restarts == 0 {
            proof {
                if block_wf::<C>(b) && self.has_current && self.current_entry_offset == 0 {
                    let a = self.cur_ix@;
                    if a > 0 {
                        assert(p[0].4 <= p[a].0);
                    }
                }
            }
            self.reset();
            return false;
        }
        let orig = self.current_entry_offset;
        let ghost a = self.cur_ix@;
        let mut k: usize = if self.current_restart_ix < self.num_restarts {
            self.current_restart_ix
        } else {
            self.num_restarts - 1
        };
        while k > 0 && self.get_restart_point(k) >= orig
            invariant
                self.inv(),
                self.block@ == b,
                k < self.num_restarts,
            decreases k,
        {
            k = k - 1;
        }
        if self.get_restart_point(k) >= orig {
            proof {
                if block_wf::<C>(b) {
                    assert(k == 0);
                    assert(restart_point(b, 0) == 0);
                }
            }
            self.reset();
            return false;
        }
        proof {
            if block_wf::<C>(b) {
                lemma_block_restart::<C>(b, k as int);
                let ri = restart_index(b, k as int);
                if ri >= a {
                    if ri > a {
                        assert(p[a].4 <= p[ri].0);
                    }
                }
            }
        }
        self.jump_to_restart(k);
        loop
            invariant
                self.inv(),
                self.block@ == b,
                b == old(self).block@,
                old(self).has_current,
                a == old(self).cur_ix@,
                p == block_parse(b),
                ro == restarts_offset(b),
                block_wf::<C>(b) ==> {
                    &&& 0 < a < p.len()
                    &&& orig == p[a].0
                    &&& self.next_ix@ < a
                    &&& forall|i: int, j: int| 0 <= i < j < p.len() ==> (#[trigger] p[i]).4 <= (
                    #[trigger] p[j]).0
                    &&& forall|i: int| 0 <= i < p.len() ==> (#[trigger] p[i]).0 < p[i].4
                    &&& forall|i: int| 0 <= i < p.len() - 1 ==> (#[trigger] p[i]).4 == p[i + 1].0
                },
            decreases self.restarts_off - self.offset,
        {
            let res = self.next();
            if res.is_none() {
                proof {
                    if block_wf::<C>(b) {
                        assert(false);
                    }
                }
                self.has_current = false;
                return false;
            }
            if self.offset >= orig {
                proof {
                    if block_wf::<C>(b) {
                        let j = self.cur_ix@;
                        if j < a - 1 {
                            assert(p[j].4 == p[j + 1].0);
                            assert(p[j + 1].4 <= p[a].0);
                        }
                    }
                }
                return true;
            }
            proof {
                if block_wf::<C>(b) {
                    let j = self.cur_ix@;
                    assert(p[j].4 == p[j + 1].0 || j + 1 == p.len());
                    if j + 1 >= a {
                        assert(p[j].4 <= p[a].0);
                        if j + 1 > a {
                            assert(p[a].4 <= p[j].0);
                        }
                    }
                }
            }
        }
    }

    /// Moves to the last entry; invalid on an empty block.
    pub fn seek_to_last(&mut self)
        requires
            old(self).inv(),
        ensures
            final(self).inv(),
            final(self).data() == old(self).data(),
            block_wf::<C>(old(self).data()) ==> final(self).position() == if block_entries(
                old(self).data(),
            ).len() > 0 {
                Some(block_entries(old(self).data()).len() - 1)
            } else {
                None
            },
    {
        let ghost b = self.block@;
        let ghost p = block_parse(b);
        let ghost ro = restarts_offset(b);
        proof {
            lemma_pairs(p);
            if block_wf::<C>(b) {
                lemma_parse_chain(b, 0, ro, Seq::empty());
                lemma_offsets_increasing(b, 0, ro, Seq::empty());
            }
        }
        if self.num_restarts == 0 {
            self.reset();
            return;
        }
        let last = self.num_restarts - 1;
        proof {
            if block_wf::<C>(b) {
                lemma_block_restart::<C>(b, last as int);
            }
        }
        self.jump_to_restart(last);
        loop
            invariant
                self.inv(),
                self.block@ == b,
                b == old(self).block@,
                p == block_parse(b),
                ro == restarts_offset(b),
                pairs(p).len() == p.len(),
                block_wf::<C>(b) ==> {
                    &&& (self.offset < ro ==> self.next_ix@ < p.len())
                    &&& (!self.is_valid ==> (self.offset >= ro ==> p.len() == 0))
                    &&& forall|i: int, j: int| 0 <= i < j < p.len() ==> (#[trigger] p[i]).4 <= (
                    #[trigger] p[j]).0
                    &&& forall|i: int| 0 <= i < p.len() ==> (#[trigger] p[i]).0 < p[i].4
                    &&& parse_end(p, 0) == ro
                },
            decreases self.restarts_off - self.offset,
        {
            if self.offset >= self.restarts_off {
                proof {
                    if block_wf::<C>(b) && self.is_valid {
                        let j = self.cur_ix@;
                        if j < p.len() - 1 {
                            assert(p[j].4 <= p[p.len() - 1].0);
                        }
                    }
                }
                return;
            }
            let res = self.next();
            if res.is_none() {
                proof {
                    if block_wf::<C>(b) {
                        assert(false);
                    }
                }
                return;
            }
            proof {
                if block_wf::<C>(b) {
                    let j = self.cur_ix@;
                    if self.offset < ro && j + 1 >= p.len() {
                        assert(p[j].4 == ro);
                    }
                }
            }
        }
    }
}

} // verus!


verus! {

/// The (key, value) views of a vector of owned pairs.
pub open spec fn pairs_view(v: Seq<(Vec<u8>, Vec<u8>)>) -> Seq<(Seq<u8>, Seq<u8>)> {
    v.map_values(|e: (Vec<u8>, Vec<u8>)| (e.0@, e.1@))
}

impl<C: Comparator> BlockIter<C> {
    /// Steps with `next` until the end and returns the entries met, in order.
    pub fn collect_entries(&mut self) -> (r: Vec<(Vec<u8>, Vec<u8>)>)
        requires
            old(self).inv(),
        ensures
            final(self).inv(),
            final(self).data() == old(self).data(),
            block_wf::<C>(old(self).data()) ==> pairs_view(r@) == block_entries(old(self).data()).subrange(
                old(self).next_index(),
                block_entries(old(self).data()).len() as int,
            ),
    {
        let ghost b = self.block@;
        let ghost e = block_entries(b);
        let ghost start = self.next_ix@;
        proof {
            if block_wf::<C>(b) {
                self.lemma_inv();
            }
        }
        let mut r: Vec<(Vec<u8>, Vec<u8>)> = Vec::new();
        loop
            invariant
                self.inv(),
                self.block@ == b,
                b == old(self).block@,
                start == old(self).next_ix@,
                e == block_entries(b),
                block_wf::<C>(b) ==> 0 <= start <= self.next_ix@ <= e.len() && pairs_view(r@) =~= e.subrange(
                    start,
                    self.next_ix@,
                ),
            decreases self.restarts_off - self.offset,
        {
            let ghost before = self.next_ix@;
            proof {
                if block_wf::<C>(b) {
                    self.lemma_inv();
                }
            }
            match self.next() {
                Some(kv) => {
                    let ghost kvv = (kv.0@, kv.1@);
                    let ghost old_r = r@;
                    r.push(kv);
                    proof {
                        if block_wf::<C>(b) {
                            assert(before < e.len());
                            assert(kvv == e[before]);
                            assert(pairs_view(r@) =~= pairs_view(old_r).push(kvv));
                            assert(start <= before);
                            assert(pairs_view(old_r) == e.subrange(start, before));
                            assert(self.next_ix@ == before + 1);
                            let lhs = e.subrange(start, before).push(e[before]);
                            let rhs = e.subrange(start, before + 1);
                            assert(0 <= start <= before < e.len());
                            assert(e.subrange(start, before).len() == before - start);
                            assert(rhs.len() == before + 1 - start);
                            assert(lhs.len() == rhs.len());
                            assert forall|i: int| 0 <= i < lhs.len() implies lhs[i] == rhs[i] by {
                                if i < before - start {
                                    assert(lhs[i] == e[start + i]);
                                } else {
                                    assert(lhs[i] == e[before]);
                                }
                            }
                            assert(lhs =~= rhs);
                        }
                    }
                },
                None => {
                    proof {
                        if block_wf::<C>(b) {
                            self.lemma_inv();
                        }
                    }
                    return r;
                },
            }
        }
    }
}

} // verus!
