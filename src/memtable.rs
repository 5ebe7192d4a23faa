//! The memtable: versioned records encoded as keys of an ordered map, and
//! lookups that find the newest version visible at a snapshot.
use vstd::prelude::*;
use crate::codec::{
    varint,
    decode_varint_u64,
    fixed64,
    decode_fixed64_spec,
    encode_varint,
    encode_fixed64,
    decode_varint_at,
    decode_fixed64_at,
    lemma_varint_len,
    lemma_varint_round_trip,
    lemma_fixed64_round_trip,
    lemma_decode_varint_len,
    MAX_VARINT_LEN,
};
use crate::types::{
    Comparator,
    StandardComparator,
    ValueType,
    SequenceNumber,
    Status,
    lex_lt,
    value_type_code,
    value_type_to_u64,
    lemma_lex_irreflexive,
    lemma_lex_total,
    lemma_lex_transitive,
    lemma_lex_prefix,
    compare_bytes,
    MAX_SEQUENCE_NUMBER,
};
use crate::skipmap::{SkipMap, SkipMapIter, sorted_by, lower_bound, lemma_lower_bound_props, NODE_OVERHEAD};
use std::cmp::Ordering;
use core::marker::PhantomData;

verus! {

/// The 64-bit tag of a mutation: its sequence number above its type byte.
pub open spec fn tag_of(seq: u64, t: ValueType) -> u64 {
    ((seq << 8u64) | value_type_code(t)) as u64
}

/// `varint(len) || user_key || fixed64(tag)`: the part of a memtable key that
/// decides its place in the order.
pub open spec fn key_prefix(uk: Seq<u8>, tag: u64) -> Seq<u8> {
    varint(uk.len()) + uk + fixed64(tag)
}

/// The lookup key for `uk` at snapshot `seq`.
pub open spec fn lookup_key_bytes(uk: Seq<u8>, seq: u64) -> Seq<u8> {
    key_prefix(uk, tag_of(seq, ValueType::TypeValue))
}

/// The memtable key of a record: `varint(len) || user_key || fixed64(tag) ||
/// varint(value_len) || value`.
pub open spec fn memtable_key(uk: Seq<u8>, seq: u64, t: ValueType, v: Seq<u8>) -> Seq<u8> {
    key_prefix(uk, tag_of(seq, t)) + varint(v.len()) + v
}

/// The user key and the tag at the front of `b`, if it holds them.
#[verifier::opaque]
pub open spec fn key_head(b: Seq<u8>) -> Option<(Seq<u8>, u64)> {
    match decode_varint_u64(b) {
        Some((n, h)) => if h + n + 8 <= b.len() {
            Some((b.subrange(h as int, h + n), decode_fixed64_spec(b.subrange(h + n, b.len() as int))))
        } else {
            None
        },
        None => None,
    }
}

/// The user key, the tag and the value of a complete memtable key.
#[verifier::opaque]
pub open spec fn parse_entry(b: Seq<u8>) -> Option<(Seq<u8>, u64, Seq<u8>)> {
    match decode_varint_u64(b) {
        Some((n, h)) => if h + n + 8 <= b.len() {
            let vstart = h + n + 8;
            match decode_varint_u64(b.subrange(vstart as int, b.len() as int)) {
                Some((vn, vh)) => if vstart + vh + vn <= b.len() {
                    Some(
                        (
                            b.subrange(h as int, h + n),
                            decode_fixed64_spec(b.subrange(h + n, b.len() as int)),
                            b.subrange(vstart + vh, vstart + vh + vn),
                        ),
                    )
                } else {
                    None
                },
                None => None,
            }
        } else {
            None
        },
        None => None,
    }
}

pub proof fn lemma_key_head(uk: Seq<u8>, tag: u64, rest: Seq<u8>)
    requires
        uk.len() <= u64::MAX,
    ensures
        key_head(key_prefix(uk, tag) + rest) == Some((uk, tag)),
{
    reveal(key_head);
    let n = uk.len();
    let b = key_prefix(uk, tag) + rest;
    let tail = uk + fixed64(tag) + rest;
    lemma_varint_len(n);
    lemma_varint_round_trip(n, tail, MAX_VARINT_LEN as nat);
    assert(b =~= varint(n) + tail);
    let h = varint(n).len();
    assert(b.subrange(h as int, (h + n) as int) =~= uk);
    assert(b.subrange((h + n) as int, b.len() as int) =~= fixed64(tag) + rest);
    lemma_fixed64_round_trip(tag, rest);
}

pub proof fn lemma_parse_entry(uk: Seq<u8>, seq: u64, t: ValueType, v: Seq<u8>)
    requires
        uk.len() <= u64::MAX,
        v.len() <= u64::MAX,
    ensures
        parse_entry(memtable_key(uk, seq, t, v)) == Some((uk, tag_of(seq, t), v)),
{
    reveal(parse_entry);
    let tag = tag_of(seq, t);
    let b = memtable_key(uk, seq, t, v);
    let n = uk.len();
    lemma_varint_len(n);
    lemma_varint_round_trip(n, uk + fixed64(tag) + varint(v.len()) + v, MAX_VARINT_LEN as nat);
    assert(b =~= varint(n) + (uk + fixed64(tag) + varint(v.len()) + v));
    let vstart = varint(n).len() + n + 8;
    assert(b.subrange(vstart as int, b.len() as int) =~= varint(v.len()) + v);
    lemma_varint_len(v.len());
    lemma_varint_round_trip(v.len(), v, MAX_VARINT_LEN as nat);
    let vh = varint(v.len()).len();
    assert(b.subrange((vstart + vh) as int, (vstart + vh + v.len()) as int) =~= v);
    assert(b.subrange(varint(n).len() as int, (varint(n).len() + n) as int) =~= uk);
    assert(b.subrange((varint(n).len() + n) as int, b.len() as int) =~= fixed64(tag) + (varint(
        v.len(),
    ) + v));
    lemma_fixed64_round_trip(tag, varint(v.len()) + v);
}

/// Distinct sequence numbers or types give distinct tags, and tags order as
/// their sequence numbers do.
pub proof fn lemma_tag(s1: u64, t1: ValueType, s2: u64, t2: ValueType)
    requires
        s1 <= MAX_SEQUENCE_NUMBER,
        s2 <= MAX_SEQUENCE_NUMBER,
    ensures
        tag_of(s1, t1) == tag_of(s2, t2) <==> (s1 == s2 && t1 == t2),
        s1 < s2 ==> tag_of(s1, t1) < tag_of(s2, t2),
        tag_of(s1, t1) <= tag_of(s2, ValueType::TypeValue) <==> s1 <= s2,
{
    let c1 = value_type_code(t1);
    let c2 = value_type_code(t2);
    assert(c1 <= 1 && c2 <= 1);
    assert(((s1 << 8u64) | c1) == ((s2 << 8u64) | c2) <==> (s1 == s2 && c1 == c2)) by (bit_vector)
        requires
            s1 <= 0xff_ffff_ffff_ffff,
            s2 <= 0xff_ffff_ffff_ffff,
            c1 <= 1,
            c2 <= 1,
    ;
    assert(s1 < s2 ==> ((s1 << 8u64) | c1) < ((s2 << 8u64) | c2)) by (bit_vector)
        requires
            s1 <= 0xff_ffff_ffff_ffff,
            s2 <= 0xff_ffff_ffff_ffff,
            c1 <= 1,
            c2 <= 1,
    ;
    assert(((s1 << 8u64) | c1) <= ((s2 << 8u64) | 1u64) <==> s1 <= s2) by (bit_vector)
        requires
            s1 <= 0xff_ffff_ffff_ffff,
            s2 <= 0xff_ffff_ffff_ffff,
            c1 <= 1,
    ;
    if c1 == c2 {
        assert(t1 == t2);
    }
}

/// Order on memtable keys: by user key under `C`, then by tag, higher first,
/// then by the bytes. Strings that hold no key come after all that do.
pub open spec fn mkey_less<C: Comparator>(a: Seq<u8>, b: Seq<u8>) -> bool {
    match (key_head(a), key_head(b)) {
        (Some((ua, ta)), Some((ub, tb))) => C::less(ua, ub) || (ua == ub && ta > tb) || (ua == ub
            && ta == tb && lex_lt(a, b)),
        (Some(_), None) => true,
        (None, Some(_)) => false,
        (None, None) => lex_lt(a, b),
    }
}

/// The comparator of the memtable's map, over user keys ordered by `C`.
pub struct MemtableKeyCmp<C: Comparator> {
    _user: PhantomData<C>,
}

/// The `n` bytes of `b` from `off` on.
pub fn slice_range(b: &[u8], off: usize, n: usize) -> (r: &[u8])
    requires
        off + n <= b@.len(),
    ensures
        r@ == b@.subrange(off as int, off + n),
{
    let _len = b.len();
    &b[off..off + n]
}

impl<C: Comparator> MemtableKeyCmp<C> {
    pub fn new() -> (r: MemtableKeyCmp<C>) {
        MemtableKeyCmp { _user: PhantomData }
    }
}

/// Reads the user key's offset and length and the tag at the front of `b`.
fn parse_key_head(b: &[u8]) -> (r: Option<(usize, usize, u64)>)
    ensures
        match (r, key_head(b@)) {
            (Some((off, n, tag)), Some((uk, stag))) => off + n + 8 <= b@.len() && b@.subrange(
                off as int,
                off + n,
            ) == uk && tag == stag && off == decode_varint_u64(b@).unwrap().1 && n
                == decode_varint_u64(b@).unwrap().0,
            (None, None) => true,
            _ => false,
        },
        r matches Some((off, n, tag)) ==> off + n + 8 <= b@.len(),
{
    reveal(key_head);
    assert(b@.subrange(0, b@.len() as int) =~= b@);
    match decode_varint_at(b, 0) {
        Some((n, h)) => {
            proof {
                lemma_decode_varint_len(b@, MAX_VARINT_LEN as nat);
            }
            if n > (b.len() - h) as u64 || (b.len() - h - n as usize) < 8 {
                None
            } else {
                let n = n as usize;
                proof {
                    assert(b@.subrange((h + n) as int, b@.len() as int) == b@.subrange(
                        (h + n) as int,
                        b@.len() as int,
                    ));
                }
                let tag = decode_fixed64_at(b, h + n);
                Some((h, n, tag))
            }
        },
        None => None,
    }
}

impl<C: Comparator> Comparator for MemtableKeyCmp<C> {
    open spec fn less(a: Seq<u8>, b: Seq<u8>) -> bool {
        mkey_less::<C>(a, b)
    }

    proof fn lemma_strict_total_order(a: Seq<u8>, b: Seq<u8>, c: Seq<u8>) {
        lemma_lex_irreflexive(a);
        lemma_lex_total(a, b);
        if lex_lt(a, b) && lex_lt(b, c) {
            lemma_lex_transitive(a, b, c);
        }
        if let Some((ua, ta)) = key_head(a) {
            C::lemma_strict_total_order(ua, ua, ua);
        }
        match (key_head(a), key_head(b), key_head(c)) {
            (Some((ua, ta)), Some((ub, tb)), Some((uc, tc))) => {
                C::lemma_strict_total_order(ua, ub, uc);
                C::lemma_strict_total_order(ub, ua, uc);
                C::lemma_strict_total_order(ua, uc, ub);
                C::lemma_strict_total_order(ub, uc, ua);
            },
            (Some((ua, ta)), Some((ub, tb)), _) => {
                C::lemma_strict_total_order(ua, ub, ub);
            },
            _ => {},
        }
    }

    fn cmp(a: &[u8], b: &[u8]) -> (r: Ordering) {
        let ha = parse_key_head(a);
        let hb = parse_key_head(b);
        proof {
            lemma_lex_irreflexive(a@);
            lemma_lex_total(a@, b@);
        }
        match (ha, hb) {
            (Some((oa, na, ta)), Some((ob, nb, tb))) => {
                assert(oa + na + 8 <= a@.len());
                assert(ob + nb + 8 <= b@.len());
                let ua = slice_range(a, oa, na);
                let ub = slice_range(b, ob, nb);
                proof {
                    C::lemma_strict_total_order(ua@, ub@, ub@);
                }
                match C::cmp(ua, ub) {
                    Ordering::Less => Ordering::Less,
                    Ordering::Greater => Ordering::Greater,
                    Ordering::Equal => {
                        if ta > tb {
                            Ordering::Less
                        } else if ta < tb {
                            Ordering::Greater
                        } else {
                            compare_bytes(a, b)
                        }
                    },
                }
            },
            (Some(_), None) => Ordering::Less,
            (None, Some(_)) => Ordering::Greater,
            (None, None) => compare_bytes(a, b),
        }
    }
}

} // verus!

verus! {

/// A versioned record: user key, sequence number, type and value.
pub type Record = (Seq<u8>, u64, ValueType, Seq<u8>);

/// The record is a version of `uk` that a read at snapshot `snap` sees.
pub open spec fn visible(r: Record, uk: Seq<u8>, snap: u64) -> bool {
    r.0 == uk && r.1 <= snap
}

/// Record `i` is the newest version of `uk` visible at `snap`.
pub open spec fn is_newest(recs: Seq<Record>, i: int, uk: Seq<u8>, snap: u64) -> bool {
    &&& 0 <= i < recs.len()
    &&& visible(recs[i], uk, snap)
    &&& forall|j: int| 0 <= j < recs.len() && visible(#[trigger] recs[j], uk, snap) ==> recs[j].1 <= recs[i].1
}

/// No two records share both user key and sequence number.
pub open spec fn versions_unique(recs: Seq<Record>) -> bool {
    forall|i: int, j: int|
        0 <= i < recs.len() && 0 <= j < recs.len() && i != j ==> !(#[trigger] recs[i].0 == #[trigger] recs[j].0
            && recs[i].1 == recs[j].1)
}

/// Record `a` comes before record `b` in internal-key order: by user key
/// under `C`, then higher sequence number first.
pub open spec fn record_before<C: Comparator>(a: Record, b: Record) -> bool {
    C::less(a.0, b.0) || (a.0 == b.0 && a.1 > b.1)
}

/// The map entries that stand for `recs`, in the same order.
pub open spec fn encodes(keys: Seq<(Seq<u8>, Seq<u8>)>, recs: Seq<Record>) -> bool {
    &&& keys.len() == recs.len()
    &&& forall|i: int|
        0 <= i < recs.len() ==> {
            &&& (#[trigger] keys[i]).0 == memtable_key(recs[i].0, recs[i].1, recs[i].2, recs[i].3)
            &&& keys[i].1.len() == 0
            &&& recs[i].1 <= MAX_SEQUENCE_NUMBER
            &&& recs[i].0.len() <= u64::MAX
            &&& recs[i].3.len() <= u64::MAX
        }
}

/// Where a seek for the lookup key of `(uk, snap)` lands decides the newest
/// visible version: if the entry there has user key `uk` it is that version,
/// else there is none.
pub proof fn lemma_seek_finds_newest<C: Comparator>(
    keys: Seq<(Seq<u8>, Seq<u8>)>,
    recs: Seq<Record>,
    uk: Seq<u8>,
    snap: u64,
    i: int,
)
    requires
        sorted_by::<MemtableKeyCmp<C>>(keys),
        encodes(keys, recs),
        versions_unique(recs),
        uk.len() <= u64::MAX,
        snap <= MAX_SEQUENCE_NUMBER,
        0 <= i <= keys.len(),
        forall|j: int| 0 <= j < i ==> mkey_less::<C>(#[trigger] keys[j].0, lookup_key_bytes(uk, snap)),
        i < keys.len() ==> !mkey_less::<C>(keys[i].0, lookup_key_bytes(uk, snap)),
    ensures
        i < keys.len() && recs[i].0 == uk ==> is_newest(recs, i, uk, snap),
        !(i < keys.len() && recs[i].0 == uk) ==> forall|j: int|
            0 <= j < recs.len() ==> !visible(#[trigger] recs[j], uk, snap),
{
    let lk = lookup_key_bytes(uk, snap);
    let tlk = tag_of(snap, ValueType::TypeValue);
    lemma_key_head(uk, tlk, Seq::empty());
    assert(lk =~= key_prefix(uk, tlk) + Seq::<u8>::empty());
    C::lemma_strict_total_order(uk, uk, uk);
    assert forall|j: int| 0 <= j < recs.len() && visible(#[trigger] recs[j], uk, snap) implies j >= i
        && !mkey_less::<C>(keys[j].0, lk) by {
        let r = recs[j];
        let kj = keys[j].0;
        let vpart = varint(r.3.len()) + r.3;
        lemma_key_head(r.0, tag_of(r.1, r.2), vpart);
        assert(kj =~= key_prefix(r.0, tag_of(r.1, r.2)) + vpart);
        lemma_tag(r.1, r.2, snap, ValueType::TypeValue);
        if tag_of(r.1, r.2) == tlk {
            lemma_lex_prefix(lk, vpart);
            lemma_lex_total(kj, lk);
        }
    }
    if i < keys.len() {
        let ri = recs[i];
        let ki = keys[i].0;
        let ti = tag_of(ri.1, ri.2);
        lemma_key_head(ri.0, ti, varint(ri.3.len()) + ri.3);
        assert(ki =~= key_prefix(ri.0, ti) + (varint(ri.3.len()) + ri.3));
        lemma_tag(ri.1, ri.2, snap, ValueType::TypeValue);
        assert forall|j: int| 0 <= j < recs.len() && i < j implies #[trigger] mkey_less::<C>(
            ki,
            keys[j].0,
        ) && key_head(keys[j].0) == Some((recs[j].0, tag_of(recs[j].1, recs[j].2))) by {
            let r = recs[j];
            lemma_key_head(r.0, tag_of(r.1, r.2), varint(r.3.len()) + r.3);
            assert(keys[j].0 =~= key_prefix(r.0, tag_of(r.1, r.2)) + (varint(r.3.len()) + r.3));
            assert(MemtableKeyCmp::<C>::less(keys[i].0, keys[j].0));
        }
        if ri.0 == uk {
            assert forall|j: int| 0 <= j < recs.len() && visible(#[trigger] recs[j], uk, snap)
                implies recs[j].1 <= ri.1 by {
                if j != i {
                    let r = recs[j];
                    lemma_tag(ri.1, ri.2, r.1, r.2);
                    assert(mkey_less::<C>(ki, keys[j].0));
                }
            }
        } else {
            assert forall|j: int| 0 <= j < recs.len() implies !visible(#[trigger] recs[j], uk, snap) by {
                if visible(recs[j], uk, snap) && j != i {
                    assert(mkey_less::<C>(ki, keys[j].0));
                }
            }
        }
    }
}

} // verus!

verus! {

/// A copy of `b` as an owned vector.
pub fn bytes_to_vec(b: &[u8]) -> (r: Vec<u8>)
    ensures
        r@ == b@,
{
    let mut v: Vec<u8> = Vec::new();
    v.extend_from_slice(b);
    v
}

/// Builds the tag of a mutation.
pub fn make_tag(seq: SequenceNumber, t: ValueType) -> (r: u64)
    ensures
        r == tag_of(seq, t),
{
    (seq << 8u64) | value_type_to_u64(t)
}

/// A user key and a snapshot sequence number, encoded for seeking in the
/// memtable.
pub struct LookupKey {
    key: Vec<u8>,
    key_offset: usize,
    user: Ghost<Seq<u8>>,
    seq: Ghost<u64>,
}

impl LookupKey {
    /// The user key.
    pub closed spec fn user_key_spec(&self) -> Seq<u8> {
        self.user@
    }

    /// The snapshot sequence number.
    pub closed spec fn seq_spec(&self) -> u64 {
        self.seq@
    }

    pub closed spec fn wf(&self) -> bool {
        &&& self.key@ == lookup_key_bytes(self.user@, self.seq@)
        &&& self.key_offset == varint(self.user@.len()).len()
        &&& self.seq@ <= MAX_SEQUENCE_NUMBER
        &&& self.user@.len() <= u64::MAX
    }

    /// Encodes `varint(len) || k || fixed64(s << 8 | Value)`.
    pub fn new(k: &[u8], s: SequenceNumber) -> (r: LookupKey)
        requires
            s <= MAX_SEQUENCE_NUMBER,
        ensures
            r.wf(),
            r.user_key_spec() == k@,
            r.seq_spec() == s,
    {
        let mut key: Vec<u8> = Vec::new();
        encode_varint(k.len() as u64, &mut key);
        let key_offset = key.len();
        key.extend_from_slice(k);
        encode_fixed64(make_tag(s, ValueType::TypeValue), &mut key);
        assert(key@ =~= lookup_key_bytes(k@, s));
        LookupKey { key, key_offset, user: Ghost(k@), seq: Ghost(s) }
    }

    /// The whole encoded key.
    pub fn memtable_key(&self) -> (r: &Vec<u8>)
        requires
            self.wf(),
        ensures
            r@ == lookup_key_bytes(self.user_key_spec(), self.seq_spec()),
    {
        &self.key
    }

    /// The user key alone.
    pub fn user_key(&self) -> (r: Vec<u8>)
        requires
            self.wf(),
        ensures
            r@ == self.user_key_spec(),
    {
        proof {
            lemma_varint_len(self.user@.len());
        }
        let r = bytes_to_vec(slice_range(self.key.as_slice(), self.key_offset, self.key.len() - 8 - self.key_offset));
        assert(r@ =~= self.user@);
        r
    }

    /// The user key followed by the tag.
    pub fn internal_key(&self) -> (r: Vec<u8>)
        requires
            self.wf(),
        ensures
            r@ == self.user_key_spec() + fixed64(tag_of(self.seq_spec(), ValueType::TypeValue)),
    {
        let r = bytes_to_vec(slice_range(self.key.as_slice(), self.key_offset, self.key.len() - self.key_offset));
        assert(r@ =~= self.user@ + fixed64(tag_of(self.seq@, ValueType::TypeValue)));
        r
    }
}

/// Versioned records of user keys, kept in the memtable order.
pub struct MemTable<C: Comparator> {
    map: SkipMap<MemtableKeyCmp<C>>,
    cmp: C,
    records: Ghost<Seq<Record>>,
}

impl MemTable<StandardComparator> {
    /// An empty memtable over lexicographically ordered user keys.
    pub fn new() -> (r: MemTable<StandardComparator>)
        ensures
            r.wf(),
            r.records() == Seq::<Record>::empty(),
            r.approx_mem_spec() == 0,
    {
        MemTable::new_custom_cmp(StandardComparator {})
    }
}

impl<C: Comparator> MemTable<C> {
    /// The records, in the memtable order.
    pub closed spec fn records(&self) -> Seq<Record> {
        self.records@
    }

    /// The memory estimate of the map beneath.
    pub closed spec fn approx_mem_spec(&self) -> nat {
        self.map.approx_spec()
    }

    /// The keys of the map beneath, in order.
    pub closed spec fn raw_keys(&self) -> Seq<(Seq<u8>, Seq<u8>)> {
        self.map@
    }

    pub closed spec fn wf(&self) -> bool {
        &&& self.map.wf()
        &&& encodes(self.map@, self.records@)
        &&& versions_unique(self.records@)
    }

    /// The map beneath holds, at each place, the memtable key of the record
    /// at that place with an empty value; versions are unique; and records
    /// are in internal-key order: by user key under `C`, then newest first.
    pub proof fn lemma_layout(&self)
        requires
            self.wf(),
        ensures
            encodes(self.raw_keys(), self.records()),
            versions_unique(self.records()),
            sorted_by::<MemtableKeyCmp<C>>(self.raw_keys()),
            forall|i: int, j: int|
                0 <= i < j < self.records().len() ==> record_before::<C>(
                    #[trigger] self.records()[i],
                    #[trigger] self.records()[j],
                ),
    {
        self.map.lemma_keys_ascending();
        let recs = self.records@;
        let keys = self.map@;
        assert forall|i: int, j: int| 0 <= i < j < recs.len() implies record_before::<C>(
            #[trigger] recs[i],
            #[trigger] recs[j],
        ) by {
            let a = recs[i];
            let b = recs[j];
            assert(keys[i].0 == memtable_key(a.0, a.1, a.2, a.3));
            assert(keys[j].0 == memtable_key(b.0, b.1, b.2, b.3));
            lemma_key_head(a.0, tag_of(a.1, a.2), varint(a.3.len()) + a.3);
            lemma_key_head(b.0, tag_of(b.1, b.2), varint(b.3.len()) + b.3);
            assert(keys[i].0 =~= key_prefix(a.0, tag_of(a.1, a.2)) + (varint(a.3.len()) + a.3));
            assert(keys[j].0 =~= key_prefix(b.0, tag_of(b.1, b.2)) + (varint(b.3.len()) + b.3));
            assert(MemtableKeyCmp::<C>::less(keys[i].0, keys[j].0));
            lemma_tag(a.1, a.2, b.1, b.2);
            lemma_tag(b.1, b.2, a.1, a.2);
            assert(!(recs[i].0 == recs[j].0 && recs[i].1 == recs[j].1));
        }
    }

    /// An empty memtable over user keys ordered by `comparator`.
    pub fn new_custom_cmp(comparator: C) -> (r: MemTable<C>)
        ensures
            r.wf(),
            r.records() == Seq::<Record>::empty(),
            r.approx_mem_spec() == 0,
    {
        let map = SkipMap::new_with_cmp(MemtableKeyCmp { _user: PhantomData });
        MemTable { map, cmp: comparator, records: Ghost(Seq::empty()) }
    }

    /// The memory estimate.
    pub fn approx_mem_usage(&self) -> (r: usize)
        ensures
            r == self.approx_mem_spec(),
    {
        self.map.approx_memory()
    }

    /// Encodes a record as a memtable key.
    pub fn build_memtable_key(key: &[u8], value: &[u8], t: ValueType, seq: SequenceNumber) -> (r:
        Vec<u8>)
        ensures
            r@ == memtable_key(key@, seq, t, value@),
    {
        let mut buf: Vec<u8> = Vec::new();
        encode_varint(key.len() as u64, &mut buf);
        buf.extend_from_slice(key);
        encode_fixed64(make_tag(seq, t), &mut buf);
        encode_varint(value.len() as u64, &mut buf);
        buf.extend_from_slice(value);
        assert(buf@ =~= memtable_key(key@, seq, t, value@));
        buf
    }

    /// Parses a memtable key into (key length, key offset, tag, value length,
    /// value offset); all zero where `mkey` is no complete memtable key.
    pub fn parse_memtable_key(mkey: &[u8]) -> (r: (usize, usize, u64, usize, usize))
        ensures
            match parse_entry(mkey@) {
                Some((uk, tag, v)) => {
                    &&& r.1 + r.0 <= mkey@.len()
                    &&& r.4 + r.3 <= mkey@.len()
                    &&& mkey@.subrange(r.1 as int, r.1 + r.0) == uk
                    &&& r.2 == tag
                    &&& mkey@.subrange(r.4 as int, r.4 + r.3) == v
                },
                None => r == (0usize, 0usize, 0u64, 0usize, 0usize),
            },
    {
        reveal(parse_entry);
        reveal(key_head);
        let none = (0usize, 0usize, 0u64, 0usize, 0usize);
        match parse_key_head(mkey) {
            None => none,
            Some((keyoff, keylen, tag)) => {
                let _len = mkey.len();
                let vstart = keyoff + keylen + 8;
                match decode_varint_at(mkey, vstart) {
                    None => none,
                    Some((vallen, vh)) => {
                        proof {
                            lemma_decode_varint_len(
                                mkey@.subrange(vstart as int, mkey@.len() as int),
                                MAX_VARINT_LEN as nat,
                            );
                        }
                        if vallen > (mkey.len() - vstart - vh) as u64 {
                            none
                        } else {
                            (keylen, keyoff, tag, vallen as usize, vstart + vh)
                        }
                    },
                }
            },
        }
    }

    /// Adds the record `(key, seq, t, value)`. Its user key and sequence
    /// number must not be in the memtable already.
    #[verifier::rlimit(60)]
    pub fn add(&mut self, seq: SequenceNumber, t: ValueType, key: &Vec<u8>, value: &Vec<u8>)
        requires
            old(self).wf(),
            seq <= MAX_SEQUENCE_NUMBER,
            forall|i: int|
                0 <= i < old(self).records().len() ==> !(#[trigger] old(self).records()[i].0
                    == key@ && old(self).records()[i].1 == seq),
        ensures
            final(self).wf(),
            exists|i: int|
                0 <= i <= old(self).records().len() && final(self).records() == old(
                    self,
                ).records().insert(i, (key@, seq, t, value@)),
            final(self).approx_mem_spec() == if old(self).approx_mem_spec() + memtable_key(
                key@,
                seq,
                t,
                value@,
            ).len() + NODE_OVERHEAD > usize::MAX {
                usize::MAX as nat
            } else {
                (old(self).approx_mem_spec() + memtable_key(key@, seq, t, value@).len()
                    + NODE_OVERHEAD) as nat
            },
    {
        let _klen = key.len();
        let _vlen = value.len();
        let mkey = Self::build_memtable_key(key.as_slice(), value.as_slice(), t, seq);
        let ghost recs = self.records@;
        let ghost keys = self.map@;
        let ghost rec: Record = (key@, seq, t, value@);
        proof {
            assert forall|j: int| 0 <= j < keys.len() implies #[trigger] keys[j].0 != mkey@ by {
                let r = recs[j];
                assert(keys[j].0 == memtable_key(r.0, r.1, r.2, r.3));
                assert(r.0.len() <= u64::MAX && r.3.len() <= u64::MAX && r.1 <= MAX_SEQUENCE_NUMBER);
                assert(recs[j] == old(self).records()[j]);
                assert(!(old(self).records()[j].0 == key@ && old(self).records()[j].1 == seq));
                lemma_parse_entry(r.0, r.1, r.2, r.3);
                lemma_parse_entry(key@, seq, t, value@);
                lemma_tag(r.1, r.2, seq, t);
                if keys[j].0 == mkey@ {
                    assert(parse_entry(keys[j].0) == parse_entry(mkey@));
                    assert(r.0 == key@);
                    assert(tag_of(r.1, r.2) == tag_of(seq, t));
                }
            }
        }
        let empty: Vec<u8> = Vec::new();
        self.map.insert(mkey, empty);
        let ghost i = choose|i: int|
            0 <= i <= keys.len() && self.map@ == keys.insert(i, (mkey@, Seq::<u8>::empty()));
        self.records = Ghost(recs.insert(i, rec));
        proof {
            assert forall|a: int, b: int|
                0 <= a < self.records@.len() && 0 <= b < self.records@.len() && a != b implies !(
                #[trigger] self.records@[a].0 == #[trigger] self.records@[b].0 && self.records@[a].1
                    == self.records@[b].1) by {
                if a != i && b != i {
                    let a2 = if a < i { a } else { a - 1 };
                    let b2 = if b < i { b } else { b - 1 };
                    assert(recs[a2] == self.records@[a]);
                    assert(recs[b2] == self.records@[b]);
                    assert(!(recs[a2].0 == recs[b2].0 && recs[a2].1 == recs[b2].1));
                } else if a == i {
                    let b2 = if b < i { b } else { b - 1 };
                    assert(recs[b2] == self.records@[b]);
                    assert(recs[b2] == old(self).records()[b2]);
                    assert(!(old(self).records()[b2].0 == key@ && old(self).records()[b2].1 == seq));
                } else {
                    let a2 = if a < i { a } else { a - 1 };
                    assert(recs[a2] == self.records@[a]);
                    assert(recs[a2] == old(self).records()[a2]);
                    assert(!(old(self).records()[a2].0 == key@ && old(self).records()[a2].1 == seq));
                }
            }
            assert forall|j: int| 0 <= j < self.records@.len() implies {
                &&& (#[trigger] self.map@[j]).0 == memtable_key(
                    self.records@[j].0,
                    self.records@[j].1,
                    self.records@[j].2,
                    self.records@[j].3,
                )
                &&& self.map@[j].1.len() == 0
                &&& self.records@[j].1 <= MAX_SEQUENCE_NUMBER
                &&& self.records@[j].0.len() <= u64::MAX
                &&& self.records@[j].3.len() <= u64::MAX
            } by {
                if j < i {
                    assert(self.map@[j] == keys[j]);
                } else if j > i {
                    assert(self.map@[j] == keys[j - 1]);
                }
            }
            assert(self.records() == old(self).records().insert(i, (key@, seq, t, value@)));
        }
    }

    /// Looks up the newest version of the user key that is visible at the
    /// lookup key's sequence number: its value if it is a live value,
    /// `NotFound` if it is a tombstone or there is none.
    pub fn get(&self, key: &LookupKey) -> (r: Result<Vec<u8>, Status>)
        requires
            self.wf(),
            key.wf(),
        ensures
            match r {
                Ok(v) => exists|i: int|
                    is_newest(self.records(), i, key.user_key_spec(), key.seq_spec())
                        && self.records()[i].2 == ValueType::TypeValue && #[trigger] self.records()[i].3
                        == v@,
                Err(e) => e matches Status::NotFound(m) && m@ == Seq::<char>::empty() && forall|i: int|
                    #[trigger] is_newest(self.records(), i, key.user_key_spec(), key.seq_spec())
                        ==> self.records()[i].2 == ValueType::TypeDeletion,
            },
    {
        let ghost uk = key.user@;
        let ghost snap = key.seq@;
        let ghost recs = self.records@;
        let mut iter = self.map.iter();
        let lk = key.memtable_key().as_slice();
        iter.seek(lk);
        let ghost i = lower_bound::<MemtableKeyCmp<C>>(self.map@, lk@);
        let ghost pos = iter.position();
        proof {
            self.map.lemma_keys_ascending();
            lemma_lower_bound_props::<MemtableKeyCmp<C>>(self.map@, lk@);
            lemma_seek_finds_newest::<C>(self.map@, recs, uk, snap, i);
            lemma_newest_unique(recs, uk, snap);
        }
        if iter.valid() {
            let (foundkey, _) = iter.current();
            let ghost r = recs[i];
            proof {
                lemma_parse_entry(r.0, r.1, r.2, r.3);
                lemma_varint_len(uk.len());
            }
            let (fkeylen, fkeyoff, tag, vallen, valoff) = Self::parse_memtable_key(foundkey);
            let ukey = slice_range(lk, key.key_offset, lk.len() - 8 - key.key_offset);
            assert(ukey@ =~= uk);
            let fkey = slice_range(foundkey, fkeyoff, fkeylen);
            let o = C::cmp(ukey, fkey);
            if matches!(o, Ordering::Equal) {
                proof {
                    lemma_tag_type(r.1, r.2);
                }
                if tag & 0xff == 1 {
                    return Ok(bytes_to_vec(slice_range(foundkey, valoff, vallen)));
                } else {
                    return Err(Status::NotFound(String::new()));
                }
            }
        }
        Err(Status::NotFound(String::new()))
    }

    /// A cursor over the map beneath: memtable keys with empty values.
    pub fn map_iter(&self) -> (r: SkipMapIter<'_, MemtableKeyCmp<C>>)
        requires
            self.wf(),
        ensures
            r.inv(),
            r.entries() == self.raw_keys(),
            r.position() is None,
    {
        self.map.iter()
    }

    /// A cursor over the live records, yielding user keys and values.
    pub fn iter(&self) -> (r: MemtableIterator<'_, C>)
        requires
            self.wf(),
        ensures
            r.inv(),
            r.records() == self.records(),
            r.position() is None,
    {
        MemtableIterator { skipmapiter: self.map.iter(), records: self.records }
    }
}

/// The type byte of a tag is the record's type.
pub proof fn lemma_tag_type(seq: u64, t: ValueType)
    ensures
        (tag_of(seq, t) & 0xff == 1) <==> (t == ValueType::TypeValue),
{
    let c = value_type_code(t);
    assert(c <= 1);
    assert((((seq << 8u64) | c) & 0xff == 1) <==> c == 1) by (bit_vector)
        requires
            c <= 1,
    ;
}

/// At most one record is the newest visible version of a key, given that
/// versions are unique.
pub proof fn lemma_newest_unique(recs: Seq<Record>, uk: Seq<u8>, snap: u64)
    requires
        versions_unique(recs),
    ensures
        forall|i: int, j: int|
            is_newest(recs, i, uk, snap) && is_newest(recs, j, uk, snap) ==> i == j,
{
    assert forall|i: int, j: int|
        is_newest(recs, i, uk, snap) && is_newest(recs, j, uk, snap) implies i == j by {
        if i != j {
            assert(recs[j].1 <= recs[i].1);
            assert(recs[i].1 <= recs[j].1);
        }
    }
}

} // verus!

verus! {

/// The index of the first live record of `recs` at or after `from`.
pub open spec fn next_live(recs: Seq<Record>, from: int) -> Option<int>
    decreases recs.len() - from,
{
    if from < 0 || from >= recs.len() {
        None
    } else if recs[from].2 == ValueType::TypeValue {
        Some(from)
    } else {
        next_live(recs, from + 1)
    }
}

/// The index of the first record whose user key is not before `k` under `C`.
pub open spec fn first_at_or_after<C: Comparator>(recs: Seq<Record>, k: Seq<u8>) -> int {
    if exists|i: int| 0 <= i < recs.len() && !C::less(#[trigger] recs[i].0, k) {
        choose|i: int|
            0 <= i < recs.len() && !C::less(#[trigger] recs[i].0, k) && forall|j: int|
                0 <= j < i ==> C::less(#[trigger] recs[j].0, k)
    } else {
        recs.len() as int
    }
}

/// Against the lookup key of `(k, MAX_SEQUENCE_NUMBER)` a stored key is
/// smaller exactly when its user key is.
proof fn lemma_seek_user_key<C: Comparator>(
    keys: Seq<(Seq<u8>, Seq<u8>)>,
    recs: Seq<Record>,
    k: Seq<u8>,
)
    requires
        encodes(keys, recs),
        k.len() <= u64::MAX,
    ensures
        forall|j: int|
            0 <= j < recs.len() ==> mkey_less::<C>(
                #[trigger] keys[j].0,
                lookup_key_bytes(k, MAX_SEQUENCE_NUMBER),
            ) == C::less(recs[j].0, k),
{
    let lk = lookup_key_bytes(k, MAX_SEQUENCE_NUMBER);
    let tlk = tag_of(MAX_SEQUENCE_NUMBER, ValueType::TypeValue);
    lemma_key_head(k, tlk, Seq::empty());
    assert(lk =~= key_prefix(k, tlk) + Seq::<u8>::empty());
    assert forall|j: int| 0 <= j < recs.len() implies mkey_less::<C>(
        #[trigger] keys[j].0,
        lk,
    ) == C::less(recs[j].0, k) by {
        let r = recs[j];
        let kj = keys[j].0;
        let vpart = varint(r.3.len()) + r.3;
        lemma_key_head(r.0, tag_of(r.1, r.2), vpart);
        assert(kj =~= key_prefix(r.0, tag_of(r.1, r.2)) + vpart);
        lemma_tag(r.1, r.2, MAX_SEQUENCE_NUMBER, ValueType::TypeValue);
        C::lemma_strict_total_order(k, k, k);
        if tag_of(r.1, r.2) == tlk {
            lemma_lex_prefix(lk, vpart);
            lemma_lex_total(kj, lk);
        }
    }
}

proof fn lemma_first_at_or_after<C: Comparator>(recs: Seq<Record>, k: Seq<u8>, i: int)
    requires
        0 <= i <= recs.len(),
        forall|j: int| 0 <= j < i ==> C::less(#[trigger] recs[j].0, k),
        i < recs.len() ==> !C::less(recs[i].0, k),
    ensures
        first_at_or_after::<C>(recs, k) == i,
{
    if i < recs.len() {
        assert(exists|x: int| 0 <= x < recs.len() && !C::less(#[trigger] recs[x].0, k));
        let c = choose|x: int|
            0 <= x < recs.len() && !C::less(#[trigger] recs[x].0, k) && forall|j: int|
                0 <= j < x ==> C::less(#[trigger] recs[j].0, k);
        assert(0 <= i < recs.len() && !C::less(recs[i].0, k) && forall|j: int|
            0 <= j < i ==> C::less(#[trigger] recs[j].0, k));
        if c < i {
            assert(C::less(recs[c].0, k));
        } else if c > i {
            assert(C::less(recs[i].0, k));
        }
    } else {
        if exists|x: int| 0 <= x < recs.len() && !C::less(#[trigger] recs[x].0, k) {
            let x = choose|x: int| 0 <= x < recs.len() && !C::less(#[trigger] recs[x].0, k);
            assert(C::less(recs[x].0, k));
        }
    }
}

/// A cursor over the live records of a memtable, in order.
pub struct MemtableIterator<'a, C: Comparator> {
    skipmapiter: SkipMapIter<'a, MemtableKeyCmp<C>>,
    records: Ghost<Seq<Record>>,
}

impl<'a, C: Comparator> MemtableIterator<'a, C> {
    /// The records of the memtable, tombstones included, in order.
    pub closed spec fn records(&self) -> Seq<Record> {
        self.records@
    }

    /// The index of the current record, if the cursor is valid.
    pub closed spec fn position(&self) -> Option<int> {
        self.skipmapiter.position()
    }

    pub closed spec fn inv(&self) -> bool {
        &&& self.skipmapiter.inv()
        &&& encodes(self.skipmapiter.entries(), self.records@)
        &&& versions_unique(self.records@)
        &&& self.skipmapiter.position() matches Some(i) ==> self.records@[i].2
            == ValueType::TypeValue
    }

    pub fn valid(&self) -> (r: bool)
        requires
            self.inv(),
        ensures
            r == self.position() is Some,
    {
        self.skipmapiter.valid()
    }

    /// Moves on from the map cursor's position, if that is a tombstone, to
    /// the next live record.
    fn skip_tombstones(&mut self)
        requires
            old(self).skipmapiter.inv(),
            encodes(old(self).skipmapiter.entries(), old(self).records@),
            versions_unique(old(self).records@),
        ensures
            final(self).inv(),
            final(self).records() == old(self).records(),
            final(self).position() == match old(self).skipmapiter.position() {
                Some(i) => next_live(old(self).records(), i),
                None => None,
            },
    {
        loop
            invariant
                self.skipmapiter.inv(),
                self.skipmapiter.entries() == old(self).skipmapiter.entries(),
                self.records@ == old(self).records@,
                encodes(self.skipmapiter.entries(), self.records@),
                versions_unique(self.records@),
                match old(self).skipmapiter.position() {
                    Some(i) => next_live(self.records@, i) == match self.skipmapiter.position() {
                        Some(j) => next_live(self.records@, j),
                        None => None,
                    },
                    None => self.skipmapiter.position() is None,
                },
            decreases self.records@.len() - match self.skipmapiter.position() {
                Some(j) => j,
                None => self.records@.len() as int,
            },
        {
            if !self.skipmapiter.valid() {
                return;
            }
            let (k, _) = self.skipmapiter.current();
            proof {
                self.skipmapiter.lemma_inv();
            }
            let ghost j = self.skipmapiter.position().unwrap();
            let ghost r = self.records@[j];
            proof {
                assert(self.skipmapiter.entries()[j].0 == memtable_key(r.0, r.1, r.2, r.3));
                lemma_parse_entry(r.0, r.1, r.2, r.3);
                lemma_tag_type(r.1, r.2);
            }
            let (_, _, tag, _, _) = MemTable::<C>::parse_memtable_key(k);
            if tag & 0xff == 1 {
                return;
            }
            assert(r.2 != ValueType::TypeValue);
            assert(next_live(self.records@, j) == next_live(self.records@, j + 1));
            self.skipmapiter.advance();
        }
    }

    /// Moves to the next live record; from before the first record, to the
    /// first live one. Returns its user key and value, or `None` past the end.
    pub fn next(&mut self) -> (r: Option<(&'a [u8], &'a [u8])>)
        requires
            old(self).inv(),
        ensures
            final(self).inv(),
            final(self).records() == old(self).records(),
            final(self).position() == match old(self).position() {
                None => next_live(old(self).records(), 0),
                Some(i) => next_live(old(self).records(), i + 1),
            },
            match final(self).position() {
                Some(i) => r matches Some(kv) && kv.0@ == final(self).records()[i].0 && kv.1@
                    == final(self).records()[i].3,
                None => r is None,
            },
    {
        self.skipmapiter.advance();
        self.skip_tombstones();
        if self.skipmapiter.valid() {
            Some(self.current())
        } else {
            None
        }
    }

    /// The current user key and value.
    pub fn current(&self) -> (r: (&'a [u8], &'a [u8]))
        requires
            self.inv(),
            self.position() is Some,
        ensures
            r.0@ == self.records()[self.position().unwrap()].0,
            r.1@ == self.records()[self.position().unwrap()].3,
    {
        let (k, _) = self.skipmapiter.current();
        let ghost j = self.skipmapiter.position().unwrap();
        let ghost r = self.records@[j];
        proof {
            self.skipmapiter.lemma_inv();
            assert(self.skipmapiter.entries()[j].0 == memtable_key(r.0, r.1, r.2, r.3));
            lemma_parse_entry(r.0, r.1, r.2, r.3);
        }
        let (keylen, keyoff, _, vallen, valoff) = MemTable::<C>::parse_memtable_key(k);
        (slice_range(k, keyoff, keylen), slice_range(k, valoff, vallen))
    }

    /// Moves to the first live record whose user key is not before `to`.
    pub fn seek(&mut self, to: &[u8])
        requires
            old(self).inv(),
        ensures
            final(self).inv(),
            final(self).records() == old(self).records(),
            final(self).position() == next_live(
                old(self).records(),
                first_at_or_after::<C>(old(self).records(), to@),
            ),
    {
        let lk = LookupKey::new(to, MAX_SEQUENCE_NUMBER);
        proof {
            lemma_seek_user_key::<C>(self.skipmapiter.entries(), self.records@, to@);
            let keys = self.skipmapiter.entries();
            let lkb = lookup_key_bytes(to@, MAX_SEQUENCE_NUMBER);
            lemma_lower_bound_props::<MemtableKeyCmp<C>>(keys, lkb);
            let i = lower_bound::<MemtableKeyCmp<C>>(keys, lkb);
            assert forall|j: int| 0 <= j < i implies C::less(#[trigger] self.records@[j].0, to@) by {
                assert(mkey_less::<C>(keys[j].0, lkb));
            }
            if i < keys.len() {
                assert(!mkey_less::<C>(keys[i].0, lkb));
            }
            lemma_first_at_or_after::<C>(self.records@, to@, i);
        }
        self.skipmapiter.seek(lk.memtable_key().as_slice());
        self.skip_tombstones();
    }
}

} // verus!
