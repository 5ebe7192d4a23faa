//! Byte-string order, the comparator abstraction and the small shared types.
use vstd::prelude::*;
use std::cmp::Ordering;

verus! {

/// Lexicographic order on byte strings: `a` comes strictly before `b`.
pub open spec fn lex_lt(a: Seq<u8>, b: Seq<u8>) -> bool
    decreases a.len(),
{
    if a.len() == 0 {
        b.len() > 0
    } else if b.len() == 0 {
        false
    } else if a[0] != b[0] {
        a[0] < b[0]
    } else {
        lex_lt(a.drop_first(), b.drop_first())
    }
}

pub proof fn lemma_lex_irreflexive(a: Seq<u8>)
    ensures
        !lex_lt(a, a),
    decreases a.len(),
{
    if a.len() > 0 {
        lemma_lex_irreflexive(a.drop_first());
    }
}

pub proof fn lemma_lex_total(a: Seq<u8>, b: Seq<u8>)
    ensures
        a != b ==> lex_lt(a, b) || lex_lt(b, a),
        !(lex_lt(a, b) && lex_lt(b, a)),
    decreases a.len(),
{
    if a.len() > 0 && b.len() > 0 && a[0] == b[0] {
        lemma_lex_total(a.drop_first(), b.drop_first());
        if a != b {
            assert(a =~= seq![a[0]] + a.drop_first());
            assert(b =~= seq![b[0]] + b.drop_first());
        }
    } else if a.len() == 0 && b.len() == 0 {
        assert(a =~= b);
    }
}

pub proof fn lemma_lex_transitive(a: Seq<u8>, b: Seq<u8>, c: Seq<u8>)
    requires
        lex_lt(a, b),
        lex_lt(b, c),
    ensures
        lex_lt(a, c),
    decreases a.len(),
{
    if a.len() > 0 && b.len() > 0 && c.len() > 0 && a[0] == b[0] && b[0] == c[0] {
        lemma_lex_transitive(a.drop_first(), b.drop_first(), c.drop_first());
    }
}

/// Comparing two byte strings after a common prefix of length `i` is
/// comparing what follows it.
pub proof fn lemma_lex_skip(a: Seq<u8>, b: Seq<u8>, i: int)
    requires
        0 <= i <= a.len(),
        i <= b.len(),
        a.subrange(0, i) == b.subrange(0, i),
    ensures
        lex_lt(a, b) == lex_lt(a.subrange(i, a.len() as int), b.subrange(i, b.len() as int)),
    decreases i,
{
    if i > 0 {
        assert(a[0] == a.subrange(0, i)[0]);
        assert(b[0] == b.subrange(0, i)[0]);
        assert(a.drop_first().subrange(0, i - 1) =~= b.drop_first().subrange(0, i - 1)) by {
            assert forall|j: int| 0 <= j < i - 1 implies a.drop_first()[j] == b.drop_first()[j] by {
                assert(a.subrange(0, i)[j + 1] == b.subrange(0, i)[j + 1]);
                assert(a.subrange(0, i)[j + 1] == a[j + 1]);
                assert(b.subrange(0, i)[j + 1] == b[j + 1]);
            }
        }
        lemma_lex_skip(a.drop_first(), b.drop_first(), i - 1);
        assert(a.drop_first().subrange(i - 1, a.len() - 1) =~= a.subrange(i, a.len() as int));
        assert(b.drop_first().subrange(i - 1, b.len() - 1) =~= b.subrange(i, b.len() as int));
    } else {
        assert(a.subrange(0, a.len() as int) =~= a);
        assert(b.subrange(0, b.len() as int) =~= b);
    }
}

/// A proper prefix comes before the whole.
pub proof fn lemma_lex_prefix(a: Seq<u8>, rest: Seq<u8>)
    requires
        rest.len() > 0,
    ensures
        lex_lt(a, a + rest),
    decreases a.len(),
{
    if a.len() > 0 {
        assert((a + rest).drop_first() =~= a.drop_first() + rest);
        lemma_lex_prefix(a.drop_first(), rest);
    }
}

/// Compares two byte strings lexicographically.
pub fn compare_bytes(a: &[u8], b: &[u8]) -> (r: Ordering)
    ensures
        (r == Ordering::Less) == lex_lt(a@, b@),
        (r == Ordering::Equal) == (a@ == b@),
        (r == Ordering::Greater) == lex_lt(b@, a@),
{
    let n: usize = if a.len() < b.len() {
        a.len()
    } else {
        b.len()
    };
    let mut i: usize = 0;
    while i < n
        invariant
            n <= a@.len(),
            n <= b@.len(),
            n == a@.len() || n == b@.len(),
            i <= n,
            a@.subrange(0, i as int) == b@.subrange(0, i as int),
        decreases n - i,
    {
        if a[i] != b[i] {
            proof {
                lemma_lex_skip(a@, b@, i as int);
                lemma_lex_skip(b@, a@, i as int);
            }
            if a[i] < b[i] {
                return Ordering::Less;
            } else {
                return Ordering::Greater;
            }
        }
        assert(a@.subrange(0, i + 1) =~= a@.subrange(0, i as int).push(a@[i as int]));
        assert(b@.subrange(0, i + 1) =~= b@.subrange(0, i as int).push(b@[i as int]));
        i = i + 1;
    }
    proof {
        lemma_lex_skip(a@, b@, i as int);
        lemma_lex_skip(b@, a@, i as int);
        lemma_lex_irreflexive(a@);
    }
    if a.len() < b.len() {
        Ordering::Less
    } else if a.len() > b.len() {
        Ordering::Greater
    } else {
        assert(a@ =~= a@.subrange(0, i as int));
        assert(b@ =~= b@.subrange(0, i as int));
        Ordering::Equal
    }
}

/// A total order over byte strings.
pub trait Comparator {
    /// `a` comes strictly before `b`.
    spec fn less(a: Seq<u8>, b: Seq<u8>) -> bool;

    /// `less` is a strict total order.
    proof fn lemma_strict_total_order(a: Seq<u8>, b: Seq<u8>, c: Seq<u8>)
        ensures
            !Self::less(a, a),
            a != b ==> Self::less(a, b) || Self::less(b, a),
            !(Self::less(a, b) && Self::less(b, a)),
            Self::less(a, b) && Self::less(b, c) ==> Self::less(a, c),
    ;

    fn cmp(a: &[u8], b: &[u8]) -> (r: Ordering)
        ensures
            (r == Ordering::Less) == Self::less(a@, b@),
            (r == Ordering::Equal) == (a@ == b@),
            (r == Ordering::Greater) == Self::less(b@, a@),
    ;
}

/// The default comparator: lexicographic order over bytes.
pub struct StandardComparator {}

impl Comparator for StandardComparator {
    open spec fn less(a: Seq<u8>, b: Seq<u8>) -> bool {
        lex_lt(a, b)
    }

    proof fn lemma_strict_total_order(a: Seq<u8>, b: Seq<u8>, c: Seq<u8>) {
        lemma_lex_irreflexive(a);
        lemma_lex_total(a, b);
        if lex_lt(a, b) && lex_lt(b, c) {
            lemma_lex_transitive(a, b, c);
        }
    }

    fn cmp(a: &[u8], b: &[u8]) -> (r: Ordering) {
        compare_bytes(a, b)
    }
}

/// The kind of a mutation: a live value or a tombstone.
#[derive(Clone, Copy, PartialEq, Eq, Debug, Structural)]
pub enum ValueType {
    TypeDeletion,
    TypeValue,
}

/// The 8-bit code of a value type, as stored in the low byte of a tag.
pub open spec fn value_type_code(t: ValueType) -> u64 {
    match t {
        ValueType::TypeDeletion => 0,
        ValueType::TypeValue => 1,
    }
}

pub fn value_type_to_u64(t: ValueType) -> (r: u64)
    ensures
        r == value_type_code(t),
{
    match t {
        ValueType::TypeDeletion => 0,
        ValueType::TypeValue => 1,
    }
}

/// A 56-bit sequence number, held in 64 bits.
pub type SequenceNumber = u64;

/// The largest sequence number that fits beside the type byte in a tag.
pub const MAX_SEQUENCE_NUMBER: u64 = 0xff_ffff_ffff_ffff;

/// The kinds of failure of the storage engine.
#[derive(PartialEq, Eq, Debug)]
pub enum Status {
    NotFound(String),
    Corruption(String),
    IOError(String),
    InvalidArgument(String),
    PermissionDenied(String),
    AlreadyExists(String),
}

} // verus!

verus! {

/// `i` is where `a` and `b` first differ: they agree before it, and it is the
/// end of the shorter one or a byte where they differ.
pub open spec fn first_difference(a: Seq<u8>, b: Seq<u8>, i: int) -> bool {
    &&& 0 <= i <= a.len()
    &&& i <= b.len()
    &&& a.subrange(0, i) == b.subrange(0, i)
    &&& (i == a.len() || i == b.len() || a[i] != b[i])
}

/// The separator for `a` and `b`: where their first differing byte of `a`
/// can grow by one and stay below `b`'s, the prefix up to it with that byte
/// grown; else `a` itself.
pub open spec fn separator_spec(a: Seq<u8>, b: Seq<u8>, i: int) -> Seq<u8> {
    if i < a.len() && i < b.len() && a[i] < 255 && a[i] + 1 < b[i] {
        a.subrange(0, i).push((a[i] + 1) as u8)
    } else {
        a
    }
}

/// The short successor of `a`: the prefix up to its first byte below 255,
/// with that byte grown by one; `a` itself where every byte is 255.
pub open spec fn successor_spec(a: Seq<u8>, i: int) -> Seq<u8> {
    if i < a.len() {
        a.subrange(0, i).push((a[i] + 1) as u8)
    } else {
        a
    }
}

/// `i` is the index of the first byte of `a` below 255, or its length.
pub open spec fn first_below_max(a: Seq<u8>, i: int) -> bool {
    &&& 0 <= i <= a.len()
    &&& forall|j: int| 0 <= j < i ==> a[j] == 255
    &&& i < a.len() ==> a[i] < 255
}

impl StandardComparator {
    /// A short key `c` with `a <= c < b` for `a < b`, used to separate blocks
    /// in a table index.
    pub fn find_shortest_separator(a: &[u8], b: &[u8]) -> (r: Vec<u8>)
        ensures
            forall|i: int| first_difference(a@, b@, i) ==> r@ == separator_spec(a@, b@, i),
            !lex_lt(r@, a@),
            lex_lt(a@, b@) ==> lex_lt(r@, b@),
            r@.len() <= a@.len(),
    {
        let n: usize = if a.len() < b.len() {
            a.len()
        } else {
            b.len()
        };
        let mut i: usize = 0;
        while i < n && a[i] == b[i]
            invariant
                n <= a@.len(),
                n <= b@.len(),
                n == a@.len() || n == b@.len(),
                i <= n,
                a@.subrange(0, i as int) == b@.subrange(0, i as int),
            decreases n - i,
        {
            assert(a@.subrange(0, i + 1) =~= a@.subrange(0, i as int).push(a@[i as int]));
            assert(b@.subrange(0, i + 1) =~= b@.subrange(0, i as int).push(b@[i as int]));
            i = i + 1;
        }
        proof {
            lemma_first_difference_unique(a@, b@, i as int);
            lemma_lex_irreflexive(a@);
        }
        if i < n && a[i] < 255 && a[i] + 1 < b[i] {
            let mut r: Vec<u8> = Vec::new();
            r.extend_from_slice(crate::memtable::slice_range(a, 0, i));
            r.push(a[i] + 1);
            proof {
                let c = r@;
                assert(c =~= a@.subrange(0, i as int).push((a@[i as int] + 1) as u8));
                assert(c.subrange(0, i as int) =~= a@.subrange(0, i as int));
                lemma_lex_skip(c, a@, i as int);
                lemma_lex_skip(c, b@, i as int);
                assert(c.subrange(i as int, c.len() as int)[0] == c[i as int]);
                assert(a@.subrange(i as int, a@.len() as int)[0] == a@[i as int]);
                assert(b@.subrange(i as int, b@.len() as int)[0] == b@[i as int]);
                lemma_lex_first_byte(c.subrange(i as int, c.len() as int), a@.subrange(i as int, a@.len() as int));
                lemma_lex_first_byte(c.subrange(i as int, c.len() as int), b@.subrange(i as int, b@.len() as int));
            }
            r
        } else {
            let mut r: Vec<u8> = Vec::new();
            r.extend_from_slice(a);
            assert(r@ =~= a@);
            r
        }
    }

    /// A short key `c` with `a <= c`, used after the last block of a table.
    pub fn find_short_successor(a: &[u8]) -> (r: Vec<u8>)
        ensures
            forall|i: int| first_below_max(a@, i) ==> r@ == successor_spec(a@, i),
            !lex_lt(r@, a@),
            r@.len() <= a@.len(),
    {
        let mut i: usize = 0;
        while i < a.len() && a[i] == 255
            invariant
                i <= a@.len(),
                forall|j: int| 0 <= j < i ==> a@[j] == 255,
            decreases a@.len() - i,
        {
            i = i + 1;
        }
        proof {
            assert forall|x: int| first_below_max(a@, x) implies x == i by {
                if x < i {
                    assert(a@[x] == 255);
                } else if x > i {
                    assert(a@[i as int] == 255);
                }
            }
            lemma_lex_irreflexive(a@);
        }
        if i < a.len() {
            let mut r: Vec<u8> = Vec::new();
            r.extend_from_slice(crate::memtable::slice_range(a, 0, i));
            r.push(a[i] + 1);
            proof {
                let c = r@;
                assert(c =~= a@.subrange(0, i as int).push((a@[i as int] + 1) as u8));
                assert(c.subrange(0, i as int) =~= a@.subrange(0, i as int));
                lemma_lex_skip(c, a@, i as int);
                assert(c.subrange(i as int, c.len() as int)[0] == c[i as int]);
                assert(a@.subrange(i as int, a@.len() as int)[0] == a@[i as int]);
                lemma_lex_first_byte(c.subrange(i as int, c.len() as int), a@.subrange(i as int, a@.len() as int));
            }
            r
        } else {
            let mut r: Vec<u8> = Vec::new();
            r.extend_from_slice(a);
            assert(r@ =~= a@);
            r
        }
    }
}

/// The length of the longest common prefix of `a` and `b`.
pub open spec fn common_prefix_len(a: Seq<u8>, b: Seq<u8>) -> nat
    decreases a.len(),
{
    if a.len() == 0 || b.len() == 0 || a[0] != b[0] {
        0
    } else {
        1 + common_prefix_len(a.drop_first(), b.drop_first())
    }
}

/// Where `a` and `b` first differ is the length of their common prefix.
pub proof fn lemma_common_prefix_len(a: Seq<u8>, b: Seq<u8>, i: int)
    requires
        first_difference(a, b, i),
    ensures
        common_prefix_len(a, b) == i,
    decreases i,
{
    if i > 0 {
        assert(a[0] == a.subrange(0, i)[0]);
        assert(b[0] == b.subrange(0, i)[0]);
        assert(a.drop_first().subrange(0, i - 1) =~= b.drop_first().subrange(0, i - 1)) by {
            assert forall|j: int| 0 <= j < i - 1 implies a.drop_first()[j] == b.drop_first()[j] by {
                assert(a.subrange(0, i)[j + 1] == b.subrange(0, i)[j + 1]);
            }
        }
        lemma_common_prefix_len(a.drop_first(), b.drop_first(), i - 1);
    }
}

/// Byte strings that differ in their first byte compare by it.
pub proof fn lemma_lex_first_byte(x: Seq<u8>, y: Seq<u8>)
    requires
        x.len() > 0,
        y.len() > 0,
        x[0] != y[0],
    ensures
        lex_lt(x, y) == (x[0] < y[0]),
        lex_lt(y, x) == (y[0] < x[0]),
{
}

/// The first difference of two byte strings is unique.
pub proof fn lemma_first_difference_unique(a: Seq<u8>, b: Seq<u8>, i: int)
    requires
        first_difference(a, b, i),
    ensures
        forall|x: int| first_difference(a, b, x) ==> x == i,
{
    assert forall|x: int| first_difference(a, b, x) implies x == i by {
        if x < i {
            assert(a.subrange(0, i)[x] == b.subrange(0, i)[x]);
        } else if x > i {
            assert(a.subrange(0, x)[i] == b.subrange(0, x)[i]);
        }
    }
}

} // verus!
