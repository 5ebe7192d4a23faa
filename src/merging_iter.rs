//! K-way merge of sorted cursors into one cursor that moves both ways, under
//! the cursors' comparator.
use vstd::prelude::*;
use crate::types::Comparator;
use crate::skipmap::{lower_bound, lemma_lower_bound_props, sorted_by};
use core::marker::PhantomData;
use crate::iterator::LdbIterator;
use crate::block::pairs_view;
use crate::options::Options;
use std::cmp::Ordering;

verus! {

/// The entries of several sorted sources.
pub type Sources = Seq<Seq<(Seq<u8>, Seq<u8>)>>;

/// `k` is the key of some entry of some source.
pub open spec fn in_union(cs: Sources, k: Seq<u8>) -> bool {
    exists|i: int, j: int| 0 <= i < cs.len() && 0 <= j < cs[i].len() && (#[trigger] cs[i][j]).0 == k
}

/// No key occurs in two sources.
pub open spec fn keys_distinct(cs: Sources) -> bool {
    forall|i1: int, j1: int, i2: int, j2: int|
        0 <= i1 < cs.len() && 0 <= i2 < cs.len() && i1 != i2 && 0 <= j1 < cs[i1].len() && 0 <= j2
            < cs[i2].len() ==> (#[trigger] cs[i1][j1]).0 != (#[trigger] cs[i2][j2]).0
}

/// Every source is sorted.
pub open spec fn all_sorted<C: Comparator>(cs: Sources) -> bool {
    forall|i: int| 0 <= i < cs.len() ==> sorted_by::<C>(#[trigger] cs[i])
}

/// `k2` is the greatest key of all sources before `k`: the previous key of
/// the merge.
pub open spec fn is_predecessor<C: Comparator>(cs: Sources, k: Seq<u8>, k2: Seq<u8>) -> bool {
    &&& in_union(cs, k2)
    &&& C::less(k2, k)
    &&& forall|i: int, j: int|
        0 <= i < cs.len() && 0 <= j < cs[i].len() && C::less((#[trigger] cs[i][j]).0, k) ==> !C::less(
            k2,
            cs[i][j].0,
        )
}

/// Order on (key, source index) pairs: by key, then by source.
pub open spec fn pair_lt<C: Comparator>(k1: Seq<u8>, i1: int, k2: Seq<u8>, i2: int) -> bool {
    C::less(k1, k2) || (k1 == k2 && i1 < i2)
}

/// The pair (`k`, `i`) is at or after the point (`t`, `bound`): its key is
/// after `t`, or is `t` in a source not before `bound`.
pub open spec fn from_point<C: Comparator>(k: Seq<u8>, i: int, t: Seq<u8>, bound: int) -> bool {
    C::less(t, k) || (k == t && i >= bound)
}

/// Source `c2` holds key `k2`, and (`k2`, `c2`) is the least (key, source)
/// pair of all sources at or after (`t`, `bound`).
pub open spec fn is_least_pair_from<C: Comparator>(cs: Sources, t: Seq<u8>, bound: int, k2: Seq<u8>, c2: int) -> bool {
    &&& 0 <= c2 < cs.len()
    &&& exists|j: int| 0 <= j < cs[c2].len() && (#[trigger] cs[c2][j]).0 == k2
    &&& from_point::<C>(k2, c2, t, bound)
    &&& forall|i: int, j: int|
        0 <= i < cs.len() && 0 <= j < cs[i].len() && from_point::<C>((#[trigger] cs[i][j]).0, i, t, bound)
            ==> !pair_lt::<C>(cs[i][j].0, i, k2, c2)
}

/// Source `c2` holds key `k2`, and (`k2`, `c2`) is the least (key, source)
/// pair of all sources.
pub open spec fn is_least_pair<C: Comparator>(cs: Sources, k2: Seq<u8>, c2: int) -> bool {
    &&& 0 <= c2 < cs.len()
    &&& exists|j: int| 0 <= j < cs[c2].len() && (#[trigger] cs[c2][j]).0 == k2
    &&& forall|i: int, j: int|
        0 <= i < cs.len() && 0 <= j < cs[i].len() ==> !pair_lt::<C>((#[trigger] cs[i][j]).0, i, k2, c2)
}

/// Every source is empty.
pub open spec fn all_empty(cs: Sources) -> bool {
    forall|i: int| 0 <= i < cs.len() ==> (#[trigger] cs[i]).len() == 0
}

/// No (key, source) pair of the sources is at or after (`t`, `bound`).
pub open spec fn none_from<C: Comparator>(cs: Sources, t: Seq<u8>, bound: int) -> bool {
    forall|i: int, j: int|
        0 <= i < cs.len() && 0 <= j < cs[i].len() ==> !from_point::<C>((#[trigger] cs[i][j]).0, i, t, bound)
}

/// The cursor of `s` is at its first entry not before `k` (strictly after
/// `k` if `strict`).
pub open spec fn at_first_after<C: Comparator>(s: Seq<(Seq<u8>, Seq<u8>)>, pos: Option<int>, k: Seq<u8>, strict: bool) -> bool {
    match pos {
        Some(p) => {
            &&& 0 <= p < s.len()
            &&& if strict { C::less(k, s[p].0) } else { !C::less(s[p].0, k) }
            &&& forall|j: int| 0 <= j < p ==> if strict { !C::less(k, #[trigger] s[j].0) } else { C::less(#[trigger] s[j].0, k) }
        },
        None => forall|j: int| 0 <= j < s.len() ==> if strict { !C::less(k, #[trigger] s[j].0) } else { C::less(#[trigger] s[j].0, k) },
    }
}

/// The cursor of `s` is at its last entry not after `k` (strictly before `k`
/// if `strict`).
pub open spec fn at_last_before<C: Comparator>(s: Seq<(Seq<u8>, Seq<u8>)>, pos: Option<int>, k: Seq<u8>, strict: bool) -> bool {
    match pos {
        Some(p) => {
            &&& 0 <= p < s.len()
            &&& if strict { C::less(s[p].0, k) } else { !C::less(k, s[p].0) }
            &&& forall|j: int| p < j < s.len() ==> if strict { !C::less(#[trigger] s[j].0, k) } else { C::less(k, #[trigger] s[j].0) }
        },
        None => forall|j: int| 0 <= j < s.len() ==> if strict { !C::less(#[trigger] s[j].0, k) } else { C::less(k, #[trigger] s[j].0) },
    }
}

/// `C` orders strictly and totally.
proof fn lemma_order_facts<C: Comparator>(a: Seq<u8>, b: Seq<u8>, c: Seq<u8>)
    ensures
        !C::less(a, a),
        a != b ==> C::less(a, b) || C::less(b, a),
        !(C::less(a, b) && C::less(b, a)),
        C::less(a, b) && C::less(b, c) ==> C::less(a, c),
{
    C::lemma_strict_total_order(a, b, c);
}

/// A seek to `k` leaves a sorted cursor at its first entry not before `k`.
proof fn lemma_seek_at<C: Comparator>(s: Seq<(Seq<u8>, Seq<u8>)>, k: Seq<u8>)
    ensures
        at_first_after::<C>(
            s,
            if lower_bound::<C>(s, k) < s.len() {
                Some(lower_bound::<C>(s, k))
            } else {
                None
            },
            k,
            false,
        ),
{
    lemma_lower_bound_props::<C>(s, k);
}

/// Where `k` is not a key of `s`, the first entry not before `k` is the first
/// after it, and the last not after it is the last before it.
proof fn lemma_not_key<C: Comparator>(s: Seq<(Seq<u8>, Seq<u8>)>, pos: Option<int>, k: Seq<u8>)
    requires
        forall|j: int| 0 <= j < s.len() ==> (#[trigger] s[j]).0 != k,
    ensures
        at_first_after::<C>(s, pos, k, false) <==> at_first_after::<C>(s, pos, k, true),
        at_last_before::<C>(s, pos, k, false) <==> at_last_before::<C>(s, pos, k, true),
{
    assert forall|j: int| 0 <= j < s.len() implies (C::less(k, #[trigger] s[j].0) <==> !C::less(s[j].0, k)) by {
        lemma_order_facts::<C>(k, s[j].0, k);
    }
}

/// After a seek to `k`, one step back (or, past the end, a move to the last
/// entry) leaves a sorted cursor at its last entry before `k`.
proof fn lemma_back_from_seek<C: Comparator>(s: Seq<(Seq<u8>, Seq<u8>)>, pos: Option<int>, k: Seq<u8>)
    requires
        sorted_by::<C>(s),
        at_first_after::<C>(s, pos, k, false),
    ensures
        pos matches Some(p) ==> at_last_before::<C>(s, if p > 0 { Some(p - 1) } else { None }, k, true),
        pos is None ==> at_last_before::<C>(s, if s.len() > 0 { Some(s.len() - 1) } else { None }, k, true),
{
    if let Some(p) = pos {
        assert forall|j: int| p <= j < s.len() implies !C::less(#[trigger] s[j].0, k) by {
            if j > p {
                assert(C::less(s[p].0, s[j].0));
                lemma_order_facts::<C>(s[p].0, s[j].0, k);
            }
        }
        if p > 0 {
            assert(C::less(s[p - 1].0, k));
        }
    } else {
        if s.len() > 0 {
            assert(C::less(s[s.len() - 1].0, k));
        }
    }
}

/// Stepping forward from the entry with key `k` reaches the first entry after `k`.
proof fn lemma_step_forward<C: Comparator>(s: Seq<(Seq<u8>, Seq<u8>)>, p: int, k: Seq<u8>)
    requires
        sorted_by::<C>(s),
        0 <= p < s.len(),
        s[p].0 == k,
    ensures
        at_first_after::<C>(s, if p + 1 < s.len() { Some(p + 1) } else { None }, k, true),
        at_first_after::<C>(s, Some(p), k, false),
        at_last_before::<C>(s, Some(p), k, false),
        at_last_before::<C>(s, if p > 0 { Some(p - 1) } else { None }, k, true),
{
    lemma_order_facts::<C>(k, k, k);
    assert forall|j: int| 0 <= j < s.len() && j != p implies (j < p ==> C::less(#[trigger] s[j].0, k)
        && !C::less(k, s[j].0)) && (j > p ==> C::less(k, s[j].0) && !C::less(s[j].0, k)) by {
        if j < p {
            assert(C::less(s[j].0, s[p].0));
        } else {
            assert(C::less(s[p].0, s[j].0));
        }
        lemma_order_facts::<C>(s[j].0, k, k);
    }
    assert forall|j: int| 0 <= j < p + 1 && j < s.len() implies !C::less(k, #[trigger] s[j].0) by {
        if j < p {
            lemma_order_facts::<C>(s[j].0, k, k);
        }
    }
    assert forall|j: int| p - 1 < j < s.len() implies !C::less(#[trigger] s[j].0, k) by {
        if j > p {
            lemma_order_facts::<C>(s[j].0, k, k);
        }
    }
    if p + 1 < s.len() {
        assert(C::less(k, s[p + 1].0));
    }
    if p > 0 {
        assert(C::less(s[p - 1].0, k));
    }
}

/// From the last entry before `k`, each cursor is at its last entry not after
/// `k2`, where `k2` is before `k` and no cursor's current key is after `k2`.
proof fn lemma_before_to_upto<C: Comparator>(s: Seq<(Seq<u8>, Seq<u8>)>, pos: Option<int>, k: Seq<u8>, k2: Seq<u8>)
    requires
        at_last_before::<C>(s, pos, k, true),
        C::less(k2, k),
        pos matches Some(p) ==> !C::less(k2, s[p].0),
    ensures
        at_last_before::<C>(s, pos, k2, false),
{
    assert forall|j: int| 0 <= j < s.len() && !C::less(#[trigger] s[j].0, k) implies C::less(k2, s[j].0) by {
        lemma_order_facts::<C>(k2, k, s[j].0);
        lemma_order_facts::<C>(k, s[j].0, k);
    }
}

} // verus!

verus! {

/// The key at a valid position.
pub open spec fn key_at(s: Seq<(Seq<u8>, Seq<u8>)>, pos: Option<int>) -> Seq<u8> {
    s[pos.unwrap()].0
}

/// With every cursor at its first entry at or after the point (`t`,
/// `bound`), the least current key, taken from the first source that holds
/// it, gives the least pair at or after that point; and every cursor is at
/// its first entry at or after (that key, that source).
proof fn lemma_select_min_pair<C: Comparator>(cs: Sources, ps: Seq<Option<int>>, t: Seq<u8>, bound: int, c: int)
    requires
        all_sorted::<C>(cs),
        cs.len() == ps.len(),
        forall|i: int| 0 <= i < cs.len() ==> at_first_after::<C>(#[trigger] cs[i], ps[i], t, i < bound),
        0 <= c < cs.len(),
        ps[c] is Some,
        forall|i: int|
            0 <= i < cs.len() && (#[trigger] ps[i]) is Some ==> !C::less(key_at(cs[i], ps[i]), key_at(cs[c], ps[c]))
                && (i < c ==> C::less(key_at(cs[c], ps[c]), key_at(cs[i], ps[i]))),
    ensures
        is_least_pair_from::<C>(cs, t, bound, key_at(cs[c], ps[c]), c),
        forall|i: int| 0 <= i < cs.len() ==> at_first_after::<C>(#[trigger] cs[i], ps[i], key_at(cs[c], ps[c]), i < c),
{
    let k2 = key_at(cs[c], ps[c]);
    assert(at_first_after::<C>(cs[c], ps[c], t, c < bound));
    let pc = ps[c].unwrap();
    assert(cs[c][pc].0 == k2);
    lemma_order_facts::<C>(k2, t, t);
    lemma_order_facts::<C>(t, k2, t);
    assert(from_point::<C>(k2, c, t, bound));
    assert forall|i: int, j: int|
        0 <= i < cs.len() && 0 <= j < cs[i].len() && from_point::<C>((#[trigger] cs[i][j]).0, i, t, bound)
        implies !pair_lt::<C>(cs[i][j].0, i, k2, c) by {
        assert(at_first_after::<C>(cs[i], ps[i], t, i < bound));
        let s = cs[i];
        assert(s[j] == cs[i][j]);
        lemma_order_facts::<C>(s[j].0, t, t);
        lemma_order_facts::<C>(t, s[j].0, t);
        if ps[i] is Some {
            let p = ps[i].unwrap();
            assert(key_at(cs[i], ps[i]) == s[p].0);
            assert(!C::less(s[p].0, k2));
            if j < p {
                assert(if i < bound { !C::less(t, s[j].0) } else { C::less(s[j].0, t) });
            } else if j > p {
                assert(sorted_by::<C>(s));
                assert(C::less(s[p].0, s[j].0));
                lemma_order_facts::<C>(s[p].0, s[j].0, k2);
                lemma_order_facts::<C>(k2, s[p].0, k2);
            } else {
                lemma_order_facts::<C>(k2, k2, k2);
            }
        }
    }
    assert forall|i: int| 0 <= i < cs.len() implies at_first_after::<C>(#[trigger] cs[i], ps[i], k2, i < c) by {
        let s = cs[i];
        assert(at_first_after::<C>(s, ps[i], t, i < bound));
        if ps[i] is Some {
            let p = ps[i].unwrap();
            assert(key_at(cs[i], ps[i]) == s[p].0);
        }
        assert forall|j: int| 0 <= j < s.len() && (ps[i] matches Some(p) ==> j < p) implies if i < c {
            !C::less(k2, #[trigger] s[j].0)
        } else {
            C::less(s[j].0, k2)
        } by {
            assert(if i < bound { !C::less(t, s[j].0) } else { C::less(s[j].0, t) });
            lemma_order_facts::<C>(s[j].0, t, k2);
            lemma_order_facts::<C>(t, s[j].0, k2);
            lemma_order_facts::<C>(k2, s[j].0, t);
            lemma_order_facts::<C>(s[j].0, k2, t);
        }
    }
}

/// With every cursor at its first entry, the least current key, taken from
/// the first source that holds it, gives the least pair of all; and every
/// cursor is at its first entry at or after (that key, that source).
proof fn lemma_select_first<C: Comparator>(cs: Sources, ps: Seq<Option<int>>, c: int)
    requires
        all_sorted::<C>(cs),
        cs.len() == ps.len(),
        forall|i: int| 0 <= i < cs.len() ==> (#[trigger] ps[i]) == if cs[i].len() > 0 { Some(0int) } else { None },
        0 <= c < cs.len(),
        ps[c] is Some,
        forall|i: int|
            0 <= i < cs.len() && (#[trigger] ps[i]) is Some ==> !C::less(key_at(cs[i], ps[i]), key_at(cs[c], ps[c]))
                && (i < c ==> C::less(key_at(cs[c], ps[c]), key_at(cs[i], ps[i]))),
    ensures
        is_least_pair::<C>(cs, key_at(cs[c], ps[c]), c),
        forall|i: int| 0 <= i < cs.len() ==> at_first_after::<C>(#[trigger] cs[i], ps[i], key_at(cs[c], ps[c]), i < c),
{
    let k2 = key_at(cs[c], ps[c]);
    assert(cs[c][0].0 == k2);
    assert forall|i: int, j: int| 0 <= i < cs.len() && 0 <= j < cs[i].len() implies !pair_lt::<C>((#[trigger] cs[i][j]).0, i, k2, c) by {
        let s = cs[i];
        assert(s[j] == cs[i][j]);
        assert(ps[i] == Some(0int));
        assert(key_at(cs[i], ps[i]) == s[0].0);
        lemma_order_facts::<C>(k2, k2, k2);
        if j > 0 {
            assert(sorted_by::<C>(s));
            assert(C::less(s[0].0, s[j].0));
            lemma_order_facts::<C>(s[0].0, s[j].0, k2);
            lemma_order_facts::<C>(k2, s[0].0, k2);
        }
    }
    assert forall|i: int| 0 <= i < cs.len() implies at_first_after::<C>(#[trigger] cs[i], ps[i], k2, i < c) by {
        if cs[i].len() > 0 {
            assert(ps[i] == Some(0int));
            assert(key_at(cs[i], ps[i]) == cs[i][0].0);
        }
    }
}

/// With every cursor at its first entry and none valid, every source is
/// empty.
proof fn lemma_select_first_none(cs: Sources, ps: Seq<Option<int>>)
    requires
        cs.len() == ps.len(),
        forall|i: int| 0 <= i < cs.len() ==> (#[trigger] ps[i]) == if cs[i].len() > 0 { Some(0int) } else { None },
        forall|i: int| 0 <= i < cs.len() ==> (#[trigger] ps[i]) is None,
    ensures
        all_empty(cs),
{
    assert forall|i: int| 0 <= i < cs.len() implies (#[trigger] cs[i]).len() == 0 by {
        assert(ps[i] is None);
    }
}

/// With every cursor at its first entry at or after (`t`, `bound`) and none
/// valid, no pair is at or after that point.
proof fn lemma_select_none_pair<C: Comparator>(cs: Sources, ps: Seq<Option<int>>, t: Seq<u8>, bound: int)
    requires
        cs.len() == ps.len(),
        forall|i: int| 0 <= i < cs.len() ==> at_first_after::<C>(#[trigger] cs[i], ps[i], t, i < bound),
        forall|i: int| 0 <= i < cs.len() ==> (#[trigger] ps[i]) is None,
    ensures
        none_from::<C>(cs, t, bound),
{
    assert forall|i: int, j: int| 0 <= i < cs.len() && 0 <= j < cs[i].len() implies !from_point::<C>(
        (#[trigger] cs[i][j]).0,
        i,
        t,
        bound,
    ) by {
        assert(at_first_after::<C>(cs[i], ps[i], t, i < bound));
        let s = cs[i];
        assert(s[j] == cs[i][j]);
        lemma_order_facts::<C>(s[j].0, t, t);
    }
}

/// Mirror image of `lemma_select_min`: the greatest current key among cursors
/// at their last entries before `t`.
proof fn lemma_select_max<C: Comparator>(cs: Sources, ps: Seq<Option<int>>, t: Seq<u8>, strict: bool, c: int)
    requires
        all_sorted::<C>(cs),
        cs.len() == ps.len(),
        forall|i: int| 0 <= i < cs.len() ==> at_last_before::<C>(#[trigger] cs[i], ps[i], t, strict),
        0 <= c < cs.len(),
        ps[c] is Some,
        forall|i: int|
            0 <= i < cs.len() && (#[trigger] ps[i]) is Some ==> !C::less(
                key_at(cs[c], ps[c]),
                key_at(cs[i], ps[i]),
            ),
        strict,
    ensures
        is_predecessor::<C>(cs, t, key_at(cs[c], ps[c])),
        forall|i: int| 0 <= i < cs.len() ==> at_last_before::<C>(#[trigger] cs[i], ps[i], key_at(cs[c], ps[c]), false),
{
    let k2 = key_at(cs[c], ps[c]);
    assert(at_last_before::<C>(cs[c], ps[c], t, strict));
    let pc = ps[c].unwrap();
    assert(cs[c][pc].0 == k2);
    assert(in_union(cs, k2));
    assert forall|i: int, j: int|
        0 <= i < cs.len() && 0 <= j < cs[i].len() && C::less((#[trigger] cs[i][j]).0, t)
        implies !C::less(k2, cs[i][j].0) by {
        assert(at_last_before::<C>(cs[i], ps[i], t, strict));
        let s = cs[i];
        assert(s[j] == cs[i][j]);
        if ps[i] is None {
            lemma_order_facts::<C>(s[j].0, t, t);
        } else {
            let p = ps[i].unwrap();
            if j > p {
                lemma_order_facts::<C>(s[j].0, t, t);
            } else if j < p {
                assert(sorted_by::<C>(s));
                assert(C::less(s[j].0, s[p].0));
                assert(!C::less(k2, s[p].0));
                lemma_order_facts::<C>(k2, s[j].0, s[p].0);
                lemma_order_facts::<C>(s[p].0, k2, s[p].0);
                lemma_order_facts::<C>(s[j].0, s[p].0, k2);
            }
        }
    }
    assert forall|i: int| 0 <= i < cs.len() implies at_last_before::<C>(#[trigger] cs[i], ps[i], k2, false) by {
        let s = cs[i];
        assert(at_last_before::<C>(s, ps[i], t, strict));
        lemma_before_to_upto::<C>(s, ps[i], t, k2);
    }
}

/// Mirror image of `lemma_select_none_fwd`.
proof fn lemma_select_none_rev<C: Comparator>(cs: Sources, ps: Seq<Option<int>>, t: Seq<u8>)
    requires
        cs.len() == ps.len(),
        forall|i: int| 0 <= i < cs.len() ==> at_last_before::<C>(#[trigger] cs[i], ps[i], t, true),
        forall|i: int| 0 <= i < cs.len() ==> (#[trigger] ps[i]) is None,
    ensures
        forall|i: int, j: int|
            0 <= i < cs.len() && 0 <= j < cs[i].len() ==> !C::less((#[trigger] cs[i][j]).0, t),
{
    assert forall|i: int, j: int| 0 <= i < cs.len() && 0 <= j < cs[i].len() implies !C::less(
        (#[trigger] cs[i][j]).0,
        t,
    ) by {
        assert(at_last_before::<C>(cs[i], ps[i], t, true));
        let s = cs[i];
        assert(s[j] == cs[i][j]);
    }
}

} // verus!

verus! {

/// The direction of the last move of a merging iterator.
#[derive(Clone, Copy, PartialEq, Eq, Debug, Structural)]
pub enum Direction {
    Fwd,
    Rvrs,
}

/// Merges sorted cursors into one sorted cursor. Going forward it stands on
/// the least current key, the first child holding it where several do; going
/// back, which needs keys unique across the children, on the greatest.
pub struct MergingIter<C: Comparator, I: LdbIterator<C>> {
    iters: Vec<I>,
    current: Option<usize>,
    direction: Direction,
    order: PhantomData<C>,
}

/// The entries of each cursor.
pub open spec fn sources_of<C: Comparator, I: LdbIterator<C>>(iters: Seq<I>) -> Sources {
    iters.map_values(|it: I| it.entries())
}

/// How many entries a cursor has from its current one on; none where it is
/// not valid.
pub open spec fn entries_left<C: Comparator, I: LdbIterator<C>>(it: I) -> nat {
    match it.position() {
        Some(p) => if 0 <= p < it.entries().len() {
            (it.entries().len() - p) as nat
        } else {
            0
        },
        None => 0,
    }
}

/// The entries left in the first `n` cursors.
pub open spec fn entries_left_upto<C: Comparator, I: LdbIterator<C>>(its: Seq<I>, n: int) -> nat
    decreases n,
{
    if n <= 0 {
        0
    } else {
        entries_left_upto::<C, I>(its, n - 1) + entries_left::<C, I>(its[n - 1])
    }
}

/// Where only cursor `c` changed, and it has fewer entries left, fewer are
/// left in all.
proof fn lemma_entries_left_step<C: Comparator, I: LdbIterator<C>>(a: Seq<I>, b: Seq<I>, c: int, n: int)
    requires
        a.len() == b.len(),
        0 <= c < a.len(),
        0 <= n <= a.len(),
        forall|i: int| 0 <= i < a.len() && i != c ==> entries_left::<C, I>(#[trigger] a[i]) == entries_left::<C, I>(b[i]),
        entries_left::<C, I>(b[c]) < entries_left::<C, I>(a[c]),
    ensures
        n > c ==> entries_left_upto::<C, I>(b, n) < entries_left_upto::<C, I>(a, n),
        n <= c ==> entries_left_upto::<C, I>(b, n) == entries_left_upto::<C, I>(a, n),
    decreases n,
{
    if n > 0 {
        lemma_entries_left_step::<C, I>(a, b, c, n - 1);
    }
}

/// `rv` is the merge of the sources: each entry, tagged with its source,
/// ascending by key and then by source, and every entry of every source once.
pub open spec fn is_merge<C: Comparator>(cs: Sources, rv: Seq<(Seq<u8>, Seq<u8>)>) -> bool {
    exists|srcs: Seq<int>|
        {
            &&& srcs.len() == rv.len()
            &&& forall|i: int| 0 <= i < rv.len() ==> 0 <= #[trigger] srcs[i] < cs.len() && exists|j: int|
                0 <= j < cs[srcs[i]].len() && #[trigger] cs[srcs[i]][j] == rv[i]
            &&& forall|i: int, j: int| 0 <= i < j < rv.len() ==> pair_lt::<C>((#[trigger] rv[i]).0, srcs[i], (#[trigger] rv[j]).0, srcs[j])
            &&& forall|a: int, b: int| 0 <= a < cs.len() && 0 <= b < cs[a].len() ==> exists|i: int|
                0 <= i < rv.len() && #[trigger] rv[i] == #[trigger] cs[a][b] && srcs[i] == a
        }
}

impl<C: Comparator, I: LdbIterator<C>> MergingIter<C, I> {
    /// The entries of each child cursor.
    pub closed spec fn sources(&self) -> Sources {
        sources_of::<C, I>(self.iters@)
    }

    closed spec fn positions(&self) -> Seq<Option<int>> {
        self.iters@.map_values(|it: I| it.position())
    }

    /// The current key, if the iterator is valid.
    pub closed spec fn key(&self) -> Option<Seq<u8>> {
        match self.current {
            Some(c) => if c < self.iters@.len() && self.iters@[c as int].position() is Some {
                Some(key_at(self.iters@[c as int].entries(), self.iters@[c as int].position()))
            } else {
                None
            },
            None => None,
        }
    }

    /// The index of the child that the current entry comes from, if the
    /// iterator is valid.
    pub closed spec fn source(&self) -> Option<int> {
        if self.key() is Some {
            Some(self.current.unwrap() as int)
        } else {
            None
        }
    }

    /// The iterator has made its first move since it was made or reset.
    pub closed spec fn started(&self) -> bool {
        self.current is Some
    }

    /// The last move went forward.
    pub closed spec fn forward(&self) -> bool {
        self.direction == Direction::Fwd
    }

    /// How many entries the children have from their current ones on.
    pub closed spec fn remaining(&self) -> nat {
        entries_left_upto::<C, I>(self.iters@, self.iters@.len() as int)
    }

    /// Whenever the iterator is valid, its source is a child that holds the
    /// current key.
    pub open spec fn source_holds_key(&self) -> bool {
        self.key() matches Some(k) ==> {
            &&& self.source() is Some
            &&& 0 <= self.source().unwrap() < self.sources().len()
            &&& exists|j: int|
                0 <= j < self.sources()[self.source().unwrap()].len()
                    && (#[trigger] self.sources()[self.source().unwrap()][j]).0 == k
        }
    }

    pub proof fn lemma_source_holds_key(&self)
        requires
            self.inv(),
        ensures
            self.source_holds_key(),
    {
        self.lemma_sources();
        if let Some(k) = self.key() {
            let c = self.current.unwrap() as int;
            assert(self.positions()[c] == self.iters@[c].position());
            let p = self.iters@[c].position().unwrap();
            assert(self.source() == Some(c));
            assert(0 <= p < self.sources()[c].len());
            assert(self.sources()[self.source().unwrap()][p].0 == k);
        }
    }

    pub closed spec fn inv(&self) -> bool {
        let cs = self.sources();
        let ps = self.positions();
        &&& forall|i: int| 0 <= i < self.iters@.len() ==> (#[trigger] self.iters@[i]).inv()
        &&& self.current matches Some(c) ==> c < self.iters@.len()
        &&& self.key() matches Some(k) ==> {
            &&& self.direction == Direction::Fwd ==> forall|i: int|
                0 <= i < cs.len() ==> at_first_after::<C>(#[trigger] cs[i], ps[i], k, i < self.current.unwrap())
            &&& self.direction == Direction::Rvrs ==> keys_distinct(cs) && forall|i: int|
                0 <= i < cs.len() ==> at_last_before::<C>(#[trigger] cs[i], ps[i], k, false)
        }
        &&& (self.current is Some && self.key() is None) ==> forall|i: int|
            0 <= i < ps.len() ==> (#[trigger] ps[i]) is None
    }

    proof fn lemma_sources(&self)
        requires
            forall|i: int| 0 <= i < self.iters@.len() ==> (#[trigger] self.iters@[i]).inv(),
        ensures
            self.sources().len() == self.iters@.len(),
            self.positions().len() == self.iters@.len(),
            all_sorted::<C>(self.sources()),
            forall|i: int| 0 <= i < self.iters@.len() ==> (#[trigger] self.sources()[i]) == self.iters@[i].entries(),
            forall|i: int| 0 <= i < self.iters@.len() ==> (#[trigger] self.positions()[i]) == self.iters@[i].position(),
            forall|i: int|
                0 <= i < self.iters@.len() ==> ((#[trigger] self.positions()[i]) matches Some(p) ==> 0 <= p < self.sources()[i].len()),
    {
        assert forall|i: int| 0 <= i < self.iters@.len() implies sorted_by::<C>(#[trigger] self.sources()[i]) && (self.positions()[i] matches Some(p) ==> 0 <= p < self.sources()[i].len()) by {
            self.iters@[i].lemma_iter_inv();
        }
        assert forall|i: int| 0 <= i < self.iters@.len() implies ((#[trigger] self.positions()[i]) matches Some(p) ==> 0 <= p < self.sources()[i].len()) by {
            self.iters@[i].lemma_iter_inv();
        }
    }

    /// A merging iterator over `iters`, before its first entry.
    pub fn new(_opt: Options, iters: Vec<I>) -> (r: MergingIter<C, I>)
        requires
            forall|i: int| 0 <= i < iters@.len() ==> (#[trigger] iters@[i]).inv(),
        ensures
            r.inv(),
            r.sources() == sources_of::<C, I>(iters@),
            !r.started(),
            r.key() is None,
    {
        MergingIter { iters, current: None, direction: Direction::Fwd, order: PhantomData }
    }

    /// Points `current` at the child with the least current key (`smallest`)
    /// or the greatest.
    fn find(&mut self, smallest: bool)
        requires
            old(self).iters@.len() > 0,
            forall|i: int| 0 <= i < old(self).iters@.len() ==> (#[trigger] old(self).iters@[i]).inv(),
        ensures
            final(self).iters@ == old(self).iters@,
            final(self).direction == old(self).direction,
            final(self).current matches Some(c) && c < final(self).iters@.len(),
            (exists|i: int| 0 <= i < final(self).iters@.len() && (#[trigger] final(self).iters@[i]).position() is Some)
                ==> final(self).iters@[final(self).current.unwrap() as int].position() is Some,
            forall|i: int|
                0 <= i < final(self).iters@.len() && (#[trigger] final(self).iters@[i]).position() is Some ==> if smallest {
                    !C::less(key_at(final(self).iters@[i].entries(), final(self).iters@[i].position()),
                        key_at(final(self).iters@[final(self).current.unwrap() as int].entries(), final(self).iters@[final(self).current.unwrap() as int].position()))
                } else {
                    !C::less(key_at(final(self).iters@[final(self).current.unwrap() as int].entries(), final(self).iters@[final(self).current.unwrap() as int].position()),
                        key_at(final(self).iters@[i].entries(), final(self).iters@[i].position()))
                },
            smallest ==> forall|i: int|
                0 <= i < final(self).current.unwrap() && (#[trigger] final(self).iters@[i]).position() is Some ==>
                    C::less(key_at(final(self).iters@[final(self).current.unwrap() as int].entries(), final(self).iters@[final(self).current.unwrap() as int].position()),
                        key_at(final(self).iters@[i].entries(), final(self).iters@[i].position())),
            !smallest ==> forall|i: int|
                0 <= i < final(self).current.unwrap() && (#[trigger] final(self).iters@[i]).position() is Some ==>
                    C::less(key_at(final(self).iters@[i].entries(), final(self).iters@[i].position()),
                        key_at(final(self).iters@[final(self).current.unwrap() as int].entries(), final(self).iters@[final(self).current.unwrap() as int].position())),
    {
        let n = self.iters.len();
        let mut best: usize = 0;
        let mut best_key: Vec<u8> = Vec::new();
        let mut scratch: Vec<u8> = Vec::new();
        let mut have = self.iters[0].current(&mut best_key, &mut scratch);
        proof {
            self.iters@[0].lemma_iter_inv();
            lemma_order_facts::<C>(best_key@, best_key@, best_key@);
        }
        let mut i: usize = 1;
        while i < n
            invariant
                n == self.iters@.len(),
                self.iters@ == old(self).iters@,
                self.direction == old(self).direction,
                forall|j: int| 0 <= j < n ==> (#[trigger] self.iters@[j]).inv(),
                1 <= i <= n,
                best < n,
                have == self.iters@[best as int].position() is Some,
                have ==> best_key@ == key_at(self.iters@[best as int].entries(), self.iters@[best as int].position()),
                forall|j: int| 0 <= j < i && (#[trigger] self.iters@[j]).position() is Some ==> have && if smallest {
                    !C::less(key_at(self.iters@[j].entries(), self.iters@[j].position()), best_key@)
                } else {
                    !C::less(best_key@, key_at(self.iters@[j].entries(), self.iters@[j].position()))
                },
                smallest ==> forall|j: int| 0 <= j < best && (#[trigger] self.iters@[j]).position() is Some ==>
                    C::less(best_key@, key_at(self.iters@[j].entries(), self.iters@[j].position())),
                !smallest ==> forall|j: int| 0 <= j < best && (#[trigger] self.iters@[j]).position() is Some ==>
                    C::less(key_at(self.iters@[j].entries(), self.iters@[j].position()), best_key@),
            decreases n - i,
        {
            let mut k: Vec<u8> = Vec::new();
            let mut v: Vec<u8> = Vec::new();
            if self.iters[i].current(&mut k, &mut v) {
                let o = C::cmp(k.as_slice(), best_key.as_slice());
                let better = if smallest {
                    matches!(o, Ordering::Less)
                } else {
                    matches!(o, Ordering::Greater)
                };
                if !have || better {
                    proof {
                        assert forall|j: int| 0 <= j < i && (#[trigger] self.iters@[j]).position() is Some implies if smallest {
                            !C::less(key_at(self.iters@[j].entries(), self.iters@[j].position()), k@)
                        } else {
                            !C::less(k@, key_at(self.iters@[j].entries(), self.iters@[j].position()))
                        } by {
                            let kj = key_at(self.iters@[j].entries(), self.iters@[j].position());
                            lemma_order_facts::<C>(kj, best_key@, k@);
                            lemma_order_facts::<C>(k@, best_key@, kj);
                            lemma_order_facts::<C>(best_key@, kj, k@);
                            lemma_order_facts::<C>(kj, k@, best_key@);
                        }
                        if smallest {
                            assert forall|j: int| 0 <= j < i && (#[trigger] self.iters@[j]).position() is Some implies
                                C::less(k@, key_at(self.iters@[j].entries(), self.iters@[j].position())) by {
                                let kj = key_at(self.iters@[j].entries(), self.iters@[j].position());
                                lemma_order_facts::<C>(k@, best_key@, kj);
                                lemma_order_facts::<C>(kj, best_key@, k@);
                            }
                        }
                        if !smallest {
                            assert forall|j: int| 0 <= j < i && (#[trigger] self.iters@[j]).position() is Some implies
                                C::less(key_at(self.iters@[j].entries(), self.iters@[j].position()), k@) by {
                                let kj = key_at(self.iters@[j].entries(), self.iters@[j].position());
                                lemma_order_facts::<C>(kj, best_key@, k@);
                                lemma_order_facts::<C>(best_key@, kj, k@);
                            }
                        }
                        lemma_order_facts::<C>(k@, k@, k@);
                    }
                    best = i;
                    best_key = k;
                    have = true;
                } else {
                    proof {
                        lemma_order_facts::<C>(k@, best_key@, k@);
                    }
                }
            }
            i = i + 1;
        }
        self.current = Some(best);
    }

    /// Moves every child other than the current one so that the children
    /// stand as a move in direction `d` expects: after the current key going
    /// forward, before it going back.
    fn update_direction(&mut self, d: Direction)
        requires
            old(self).inv(),
            old(self).key() is Some,
            keys_distinct(old(self).sources()),
        ensures
            final(self).inv(),
            final(self).sources() == old(self).sources(),
            final(self).current == old(self).current,
            final(self).key() == old(self).key(),
            final(self).direction == d,
            final(self).iters@.len() == old(self).iters@.len(),
    {
        let c = self.current.unwrap();
        let mut key: Vec<u8> = Vec::new();
        let mut val: Vec<u8> = Vec::new();
        self.iters[c].current(&mut key, &mut val);
        let ghost k = key@;
        let ghost cs = self.sources();
        let ghost pc = self.iters@[c as int].position().unwrap();
        proof {
            self.lemma_sources();
            assert(cs[c as int][pc].0 == k);
        }
        if d == self.direction {
            return;
        }
        let n = self.iters.len();
        let mut i: usize = 0;
        while i < n
            invariant
                n == self.iters@.len(),
                c < n,
                self.current == Some(c),
                self.direction == old(self).direction,
                self.direction != d,
                key@ == k,
                sources_of::<C, I>(self.iters@) == cs,
                keys_distinct(cs),
                all_sorted::<C>(cs),
                cs.len() == n,
                0 <= pc < cs[c as int].len(),
                cs[c as int][pc].0 == k,
                self.iters@[c as int] == old(self).iters@[c as int],
                forall|j: int| 0 <= j < n ==> (#[trigger] self.iters@[j]).inv(),
                forall|j: int| i <= j < n ==> (#[trigger] self.iters@[j]) == old(self).iters@[j],
                forall|j: int| 0 <= j < i && j != c ==> if d == Direction::Fwd {
                    at_first_after::<C>(cs[j], (#[trigger] self.iters@[j]).position(), k, false)
                } else {
                    at_last_before::<C>(cs[j], (#[trigger] self.iters@[j]).position(), k, true)
                },
            decreases n - i,
        {
            if i != c {
                let ghost s = cs[i as int];
                proof {
                    assert(self.iters@[i as int].entries() == s);
                    assert forall|j: int| 0 <= j < s.len() implies (#[trigger] s[j]).0 != k by {
                        assert(cs[i as int][j] == s[j]);
                    }
                    lemma_seek_at::<C>(s, k);
                }
                self.iters[i].seek(key.as_slice());
                let ghost pos = self.iters@[i as int].position();
                match d {
                    Direction::Fwd => {
                        let mut ck: Vec<u8> = Vec::new();
                        let mut cv: Vec<u8> = Vec::new();
                        if self.iters[i].current(&mut ck, &mut cv) {
                            if matches!(C::cmp(ck.as_slice(), key.as_slice()), Ordering::Equal) {
                                proof {
                                    assert(s[pos.unwrap()].0 == k);
                                }
                                self.iters[i].advance();
                            }
                        }
                    },
                    Direction::Rvrs => {
                        proof {
                            self.iters@[i as int].lemma_iter_inv();
                            lemma_back_from_seek::<C>(s, pos, k);
                        }
                        if self.iters[i].valid() {
                            self.iters[i].prev();
                        } else {
                            self.iters[i].seek_to_last();
                        }
                    },
                }
            }
            i = i + 1;
        }
        self.direction = d;
        proof {
            self.lemma_sources();
            let ps = self.positions();
            lemma_step_forward::<C>(cs[c as int], pc, k);
            assert forall|j: int| 0 <= j < n implies if d == Direction::Fwd {
                at_first_after::<C>(#[trigger] cs[j], ps[j], k, j < c)
            } else {
                at_last_before::<C>(#[trigger] cs[j], ps[j], k, false)
            } by {
                if j != c {
                    assert(self.iters@[j].position() == ps[j]);
                    assert forall|x: int| 0 <= x < cs[j].len() implies (#[trigger] cs[j][x]).0 != k by {
                    }
                    lemma_not_key::<C>(cs[j], ps[j], k);
                } else {
                    assert(ps[c as int] == Some(pc));
                }
            }
        }
    }
}

} // verus!

verus! {

impl<C: Comparator, I: LdbIterator<C>> MergingIter<C, I> {
    /// Proves what the selection after a move gives: the children stood at
    /// their first entries at or after (`t`, `bound`), and `find(true)` chose.
    proof fn lemma_after_find(&self, cs: Sources, t: Seq<u8>, bound: int)
        requires
            forall|i: int| 0 <= i < self.iters@.len() ==> (#[trigger] self.iters@[i]).inv(),
            sources_of::<C, I>(self.iters@) == cs,
            self.iters@.len() > 0,
            self.current matches Some(c) && c < self.iters@.len(),
            self.direction == Direction::Fwd,
            forall|i: int| 0 <= i < cs.len() ==> at_first_after::<C>(#[trigger] cs[i], self.iters@[i].position(), t, i < bound),
            (exists|i: int| 0 <= i < self.iters@.len() && (#[trigger] self.iters@[i]).position() is Some)
                ==> self.iters@[self.current.unwrap() as int].position() is Some,
            forall|i: int|
                0 <= i < self.iters@.len() && (#[trigger] self.iters@[i]).position() is Some ==>
                    !C::less(key_at(self.iters@[i].entries(), self.iters@[i].position()),
                        key_at(self.iters@[self.current.unwrap() as int].entries(), self.iters@[self.current.unwrap() as int].position())),
            forall|i: int|
                0 <= i < self.current.unwrap() && (#[trigger] self.iters@[i]).position() is Some ==>
                    C::less(key_at(self.iters@[self.current.unwrap() as int].entries(), self.iters@[self.current.unwrap() as int].position()),
                        key_at(self.iters@[i].entries(), self.iters@[i].position())),
        ensures
            self.inv(),
            self.sources() == cs,
            self.key() matches Some(k) ==> is_least_pair_from::<C>(cs, t, bound, k, self.source().unwrap()),
            self.key() is None ==> none_from::<C>(cs, t, bound),
    {
        self.lemma_sources();
        assert(self.sources() =~= cs);
        let ps = self.positions();
        let n = cs.len();
        let c = self.current.unwrap() as int;
        assert forall|j: int| 0 <= j < n implies at_first_after::<C>(#[trigger] cs[j], ps[j], t, j < bound) by {
            assert(ps[j] == self.iters@[j].position());
        }
        if ps[c] is Some {
            assert forall|j: int| 0 <= j < n && (#[trigger] ps[j]) is Some implies !C::less(
                key_at(cs[j], ps[j]),
                key_at(cs[c], ps[c]),
            ) && (j < c ==> C::less(key_at(cs[c], ps[c]), key_at(cs[j], ps[j]))) by {
                assert(self.iters@[j].position() is Some);
            }
            lemma_select_min_pair::<C>(cs, ps, t, bound, c);
        } else {
            assert forall|j: int| 0 <= j < n implies (#[trigger] ps[j]) is None by {
                if ps[j] is Some {
                    assert(self.iters@[j].position() is Some);
                }
            }
            lemma_select_none_pair::<C>(cs, ps, t, bound);
        }
    }

    /// Puts every child on its first entry and picks the least.
    fn init(&mut self)
        requires
            old(self).inv(),
            old(self).iters@.len() > 0,
        ensures
            final(self).inv(),
            final(self).started(),
            final(self).sources() == old(self).sources(),
            final(self).key() matches Some(k) ==> is_least_pair::<C>(final(self).sources(), k, final(self).source().unwrap()),
            final(self).key() is None ==> all_empty(final(self).sources()),
            final(self).direction == Direction::Fwd,
    {
        let ghost cs = self.sources();
        proof {
            self.lemma_sources();
        }
        let n = self.iters.len();
        let mut i: usize = 0;
        while i < n
            invariant
                n == self.iters@.len(),
                sources_of::<C, I>(self.iters@) == cs,
                cs.len() == n,
                forall|j: int| 0 <= j < n ==> (#[trigger] self.iters@[j]).inv(),
                forall|j: int| 0 <= j < i ==> (#[trigger] self.iters@[j]).position() == if cs[j].len() > 0 {
                    Some(0int)
                } else {
                    None
                },
            decreases n - i,
        {
            self.iters[i].reset();
            self.iters[i].advance();
            i = i + 1;
        }
        self.direction = Direction::Fwd;
        self.find(true);
        proof {
            self.lemma_sources();
            assert(self.sources() =~= cs);
            let ps = self.positions();
            let c = self.current.unwrap() as int;
            assert forall|j: int| 0 <= j < n implies (#[trigger] ps[j]) == if cs[j].len() > 0 { Some(0int) } else { None } by {
                assert(ps[j] == self.iters@[j].position());
            }
            if ps[c] is Some {
                assert forall|j: int| 0 <= j < n && (#[trigger] ps[j]) is Some implies !C::less(
                    key_at(cs[j], ps[j]),
                    key_at(cs[c], ps[c]),
                ) && (j < c ==> C::less(key_at(cs[c], ps[c]), key_at(cs[j], ps[j]))) by {
                    assert(self.iters@[j].position() is Some);
                }
                lemma_select_first::<C>(cs, ps, c);
            } else {
                assert forall|j: int| 0 <= j < n implies (#[trigger] ps[j]) is None by {
                    if ps[j] is Some {
                        assert(self.iters@[j].position() is Some);
                    }
                }
                lemma_select_first_none(cs, ps);
            }
        }
    }

    /// Moves to the next entry of the merge: the least (key, child) pair
    /// after the current one, so keys ascend and equal keys come in child
    /// order. The first move after creation or a reset goes to the least pair
    /// of all. Past the last entry the iterator is invalid. Returns whether
    /// it is valid.
    pub fn advance(&mut self) -> (r: bool)
        requires
            old(self).inv(),
        ensures
            final(self).inv(),
            final(self).sources() == old(self).sources(),
            r == final(self).key() is Some,
            !old(self).started() ==> {
                &&& (final(self).key() matches Some(k) ==> is_least_pair::<C>(old(self).sources(), k, final(self).source().unwrap()))
                &&& (final(self).key() is None ==> all_empty(old(self).sources()))
            },
            old(self).key() matches Some(k) ==> {
                &&& (final(self).key() matches Some(k2) ==> is_least_pair_from::<C>(old(self).sources(), k, old(self).source().unwrap() + 1, k2, final(self).source().unwrap()))
                &&& (final(self).key() is None ==> none_from::<C>(old(self).sources(), k, old(self).source().unwrap() + 1))
            },
            old(self).started() && old(self).key() is None ==> final(self).key() is None,
            final(self).source_holds_key(),
            r ==> final(self).forward(),
            old(self).key() is Some && old(self).forward() ==> final(self).remaining() < old(self).remaining(),
    {
        match self.current {
            None => {
                if self.iters.len() == 0 {
                    proof {
                        self.lemma_sources();
                    }
                    return false;
                }
                self.init();
            },
            Some(c) => {
                if !self.iters[c].valid() {
                    proof {
                        self.lemma_source_holds_key();
                    }
                    return false;
                }
                if self.direction == Direction::Rvrs {
                    self.update_direction(Direction::Fwd);
                }
                let ghost cs = self.sources();
                let ghost k = self.key().unwrap();
                let ghost pc = self.iters@[c as int].position().unwrap();
                let ghost before = self.iters@;
                proof {
                    self.lemma_sources();
                    lemma_step_forward::<C>(cs[c as int], pc, k);
                    self.iters@[c as int].lemma_iter_inv();
                }
                if !self.iters[c].advance() {
                    self.iters[c].reset();
                    proof {
                        self.iters@[c as int].lemma_iter_inv();
                    }
                }
                proof {
                    self.iters@[c as int].lemma_iter_inv();
                    if old(self).direction == Direction::Fwd {
                        assert(before == old(self).iters@);
                        assert forall|i: int| 0 <= i < before.len() && i != c implies entries_left::<C, I>(#[trigger] before[i])
                            == entries_left::<C, I>(self.iters@[i]) by {
                            assert(self.iters@[i] == before[i]);
                        }
                        lemma_entries_left_step::<C, I>(before, self.iters@, c as int, before.len() as int);
                    }
                }
                self.find(true);
                proof {
                    assert(sources_of::<C, I>(self.iters@) =~= cs) by {
                        self.lemma_sources();
                    }
                    assert forall|j: int| 0 <= j < cs.len() implies at_first_after::<C>(#[trigger] cs[j], self.iters@[j].position(), k, j < c + 1) by {
                        if j != c {
                            assert(self.iters@[j] == before[j]);
                            assert(at_first_after::<C>(cs[j], before[j].position(), k, j < c));
                        }
                    }
                    self.lemma_after_find(cs, k, c + 1);
                }
            },
        }
        proof {
            self.lemma_source_holds_key();
        }
        self.valid()
    }

    /// Moves to the previous key of the merge: the greatest key of all
    /// children before the current one; before the first key the iterator is
    /// invalid. Does nothing when invalid. Needs keys unique across the
    /// children. Returns whether it is valid.
    pub fn prev(&mut self) -> (r: bool)
        requires
            old(self).inv(),
            keys_distinct(old(self).sources()),
        ensures
            final(self).inv(),
            final(self).sources() == old(self).sources(),
            r == final(self).key() is Some,
            old(self).key() matches Some(k) ==> {
                &&& (final(self).key() matches Some(k2) ==> is_predecessor::<C>(old(self).sources(), k, k2))
                &&& (final(self).key() is None ==> forall|i: int, j: int|
                    0 <= i < old(self).sources().len() && 0 <= j < old(self).sources()[i].len() ==> !C::less((#[trigger] old(self).sources()[i][j]).0, k))
            },
            old(self).key() is None ==> final(self).key() is None,
            final(self).source_holds_key(),
    {
        proof {
            self.lemma_source_holds_key();
        }
        match self.current {
            None => false,
            Some(c) => {
                if !self.iters[c].valid() {
                    return false;
                }
                self.update_direction(Direction::Rvrs);
                let ghost cs = self.sources();
                let ghost k = self.key().unwrap();
                let ghost pc = self.iters@[c as int].position().unwrap();
                let ghost before = self.iters@;
                proof {
                    self.lemma_sources();
                    lemma_step_forward::<C>(cs[c as int], pc, k);
                }
                self.iters[c].prev();
                self.find(false);
                proof {
                    self.lemma_sources();
                    assert(self.sources() =~= cs);
                    let ps = self.positions();
                    let n = cs.len();
                    assert forall|j: int| 0 <= j < n implies at_last_before::<C>(#[trigger] cs[j], ps[j], k, true) by {
                        if j != c {
                            assert(self.iters@[j] == before[j]);
                            assert(at_last_before::<C>(cs[j], before[j].position(), k, false));
                            assert forall|x: int| 0 <= x < cs[j].len() implies (#[trigger] cs[j][x]).0 != k by {
                                assert(cs[c as int][pc].0 == k);
                            }
                            lemma_not_key::<C>(cs[j], ps[j], k);
                        }
                    }
                    let c2 = self.current.unwrap() as int;
                    if ps[c2] is Some {
                        assert forall|j: int| 0 <= j < n && (#[trigger] ps[j]) is Some implies !C::less(
                            key_at(cs[c2], ps[c2]),
                            key_at(cs[j], ps[j]),
                        ) by {
                            assert(self.iters@[j].position() is Some);
                        }
                        lemma_select_max::<C>(cs, ps, k, true, c2);
                    } else {
                        assert forall|j: int| 0 <= j < n implies (#[trigger] ps[j]) is None by {
                            if ps[j] is Some {
                                assert(self.iters@[j].position() is Some);
                            }
                        }
                        lemma_select_none_rev::<C>(cs, ps, k);
                    }
                }
                proof {
                    self.lemma_source_holds_key();
                }
                self.valid()
            },
        }
    }

    /// Moves to the least (key, child) pair whose key is not before `key`;
    /// invalid if there is none.
    pub fn seek(&mut self, key: &[u8])
        requires
            old(self).inv(),
        ensures
            final(self).inv(),
            final(self).sources() == old(self).sources(),
            final(self).key() matches Some(k) ==> is_least_pair_from::<C>(old(self).sources(), key@, 0, k, final(self).source().unwrap()),
            final(self).key() is None ==> none_from::<C>(old(self).sources(), key@, 0),
            final(self).source_holds_key(),
    {
        let ghost cs = self.sources();
        proof {
            self.lemma_sources();
        }
        let n = self.iters.len();
        if n == 0 {
            self.current = None;
            return;
        }
        let mut i: usize = 0;
        while i < n
            invariant
                n == self.iters@.len(),
                sources_of::<C, I>(self.iters@) == cs,
                cs.len() == n,
                forall|j: int| 0 <= j < n ==> (#[trigger] self.iters@[j]).inv(),
                forall|j: int| 0 <= j < i ==> at_first_after::<C>(cs[j], (#[trigger] self.iters@[j]).position(), key@, j < 0),
            decreases n - i,
        {
            proof {
                lemma_seek_at::<C>(cs[i as int], key@);
            }
            self.iters[i].seek(key);
            i = i + 1;
        }
        self.direction = Direction::Fwd;
        self.find(true);
        proof {
            self.lemma_after_find(cs, key@, 0);
            self.lemma_source_holds_key();
        }
    }

    /// Returns every child to its start; the next move starts the merge over.
    pub fn reset(&mut self)
        requires
            old(self).inv(),
        ensures
            final(self).inv(),
            final(self).sources() == old(self).sources(),
            !final(self).started(),
            final(self).key() is None,
    {
        let ghost cs = self.sources();
        proof {
            self.lemma_sources();
        }
        let n = self.iters.len();
        let mut i: usize = 0;
        while i < n
            invariant
                n == self.iters@.len(),
                sources_of::<C, I>(self.iters@) == cs,
                forall|j: int| 0 <= j < n ==> (#[trigger] self.iters@[j]).inv(),
            decreases n - i,
        {
            self.iters[i].reset();
            i = i + 1;
        }
        self.current = None;
        self.direction = Direction::Fwd;
    }

    pub fn valid(&self) -> (r: bool)
        requires
            self.inv(),
        ensures
            r == self.key() is Some,
    {
        match self.current {
            Some(ix) => self.iters[ix].valid(),
            None => false,
        }
    }

    /// Copies the current key and value into `key` and `val`; `false`, with
    /// both left alone, if the iterator is invalid.
    pub fn current(&self, key: &mut Vec<u8>, val: &mut Vec<u8>) -> (r: bool)
        requires
            self.inv(),
        ensures
            r == self.key() is Some,
            r ==> Some(final(key)@) == self.key() && exists|j: int|
                0 <= j < self.sources()[self.source().unwrap()].len()
                    && #[trigger] self.sources()[self.source().unwrap()][j] == (final(key)@, final(val)@),
            !r ==> final(key)@ == old(key)@ && final(val)@ == old(val)@,
            self.source_holds_key(),
    {
        proof {
            self.lemma_source_holds_key();
        }
        match self.current {
            Some(ix) => {
                let r = self.iters[ix].current(key, val);
                proof {
                    self.lemma_sources();
                    if r {
                        let p = self.iters@[ix as int].position().unwrap();
                        assert(self.key() is Some);
                        assert(self.source() == Some(ix as int));
                        assert(self.positions()[ix as int] == self.iters@[ix as int].position());
                        assert(0 <= p < self.sources()[ix as int].len());
                        assert(self.sources()[self.source().unwrap()][p] == (key@, val@));
                    }
                }
                r
            },
            None => false,
        }
    }

    /// Advances and returns the new current key and value.
    pub fn next(&mut self) -> (r: Option<(Vec<u8>, Vec<u8>)>)
        requires
            old(self).inv(),
        ensures
            final(self).inv(),
            final(self).sources() == old(self).sources(),
            r is Some <==> final(self).key() is Some,
            r matches Some(kv) ==> Some(kv.0@) == final(self).key() && exists|j: int|
                0 <= j < final(self).sources()[final(self).source().unwrap()].len()
                    && #[trigger] final(self).sources()[final(self).source().unwrap()][j] == (kv.0@, kv.1@),
            !old(self).started() ==> (final(self).key() matches Some(k) ==> is_least_pair::<C>(old(self).sources(), k, final(self).source().unwrap())),
            old(self).key() matches Some(k) ==> (final(self).key() matches Some(k2) ==> is_least_pair_from::<C>(old(self).sources(), k, old(self).source().unwrap() + 1, k2, final(self).source().unwrap())),
            !old(self).started() && r is None ==> all_empty(old(self).sources()),
            old(self).key() matches Some(k) ==> (r is None ==> none_from::<C>(old(self).sources(), k, old(self).source().unwrap() + 1)),
            old(self).started() && old(self).key() is None ==> r is None,
            final(self).source_holds_key(),
            r is Some ==> final(self).forward(),
            old(self).key() is Some && old(self).forward() ==> final(self).remaining() < old(self).remaining(),
    {
        let moved = self.advance();
        proof {
            self.lemma_source_holds_key();
        }
        if moved {
            let mut k: Vec<u8> = Vec::new();
            let mut v: Vec<u8> = Vec::new();
            self.current(&mut k, &mut v);
            Some((k, v))
        } else {
            None
        }
    }
}

} // verus!

verus! {

/// The pair order is transitive.
proof fn lemma_pair_transitive<C: Comparator>(k1: Seq<u8>, i1: int, k2: Seq<u8>, i2: int, k3: Seq<u8>, i3: int)
    requires
        pair_lt::<C>(k1, i1, k2, i2),
        pair_lt::<C>(k2, i2, k3, i3),
    ensures
        pair_lt::<C>(k1, i1, k3, i3),
{
    lemma_order_facts::<C>(k1, k2, k3);
}

/// Stepping forward and then back returns to the same key: where keys are
/// unique across the sources, the greatest key before the least pair after
/// (`k`, `c`) is `k`.
pub proof fn lemma_prev_undoes_advance<C: Comparator>(cs: Sources, k: Seq<u8>, c: int, k2: Seq<u8>, c2: int, k3: Seq<u8>)
    requires
        keys_distinct(cs),
        0 <= c < cs.len(),
        exists|j: int| 0 <= j < cs[c].len() && (#[trigger] cs[c][j]).0 == k,
        is_least_pair_from::<C>(cs, k, c + 1, k2, c2),
        is_predecessor::<C>(cs, k2, k3),
    ensures
        k3 == k,
{
    let j = choose|j: int| 0 <= j < cs[c].len() && (#[trigger] cs[c][j]).0 == k;
    let j2 = choose|j: int| 0 <= j < cs[c2].len() && (#[trigger] cs[c2][j]).0 == k2;
    if k2 == k {
        assert(c2 != c);
        assert(cs[c][j].0 != cs[c2][j2].0);
    }
    lemma_order_facts::<C>(k, k2, k);
    assert(C::less(k, k2));
    assert(C::less(cs[c][j].0, k2));
    assert(!C::less(k3, k));
    let (a3, b3) = choose|a: int, b: int| 0 <= a < cs.len() && 0 <= b < cs[a].len() && (#[trigger] cs[a][b]).0 == k3;
    if C::less(k, k3) {
        assert(from_point::<C>(cs[a3][b3].0, a3, k, c + 1));
        assert(!pair_lt::<C>(cs[a3][b3].0, a3, k2, c2));
    }
    lemma_order_facts::<C>(k, k3, k);
}

/// Pairs that start at the least (key, source) pair of the sources and go
/// on, each to the least pair after the one before, until none is left, are
/// the merge of the sources: ascending by key and then by source, each the
/// key of an entry of its source, and holding the pair of every entry.
pub proof fn lemma_merge_enumerates<C: Comparator>(cs: Sources, ks: Seq<(Seq<u8>, int)>)
    requires
        ks.len() > 0,
        is_least_pair::<C>(cs, ks[0].0, ks[0].1),
        forall|i: int| 0 <= i < ks.len() - 1 ==> is_least_pair_from::<C>(cs, (#[trigger] ks[i]).0, ks[i].1 + 1, ks[i + 1].0, ks[i + 1].1),
        none_from::<C>(cs, ks.last().0, ks.last().1 + 1),
    ensures
        forall|i: int, j: int| 0 <= i < j < ks.len() ==> pair_lt::<C>((#[trigger] ks[i]).0, ks[i].1, (#[trigger] ks[j]).0, ks[j].1),
        forall|i: int| 0 <= i < ks.len() ==> 0 <= (#[trigger] ks[i]).1 < cs.len() && exists|j: int|
            0 <= j < cs[ks[i].1].len() && (#[trigger] cs[ks[i].1][j]).0 == ks[i].0,
        forall|a: int, b: int| 0 <= a < cs.len() && 0 <= b < cs[a].len() ==> ks.contains(((#[trigger] cs[a][b]).0, a)),
{
    assert forall|i: int, j: int| 0 <= i < j < ks.len() implies pair_lt::<C>((#[trigger] ks[i]).0, ks[i].1, (#[trigger] ks[j]).0, ks[j].1) by {
        lemma_pairs_ascending::<C>(cs, ks, i, j);
    }
    assert forall|i: int| 0 <= i < ks.len() implies 0 <= (#[trigger] ks[i]).1 < cs.len() && exists|j: int|
        0 <= j < cs[ks[i].1].len() && (#[trigger] cs[ks[i].1][j]).0 == ks[i].0 by {
        if i > 0 {
            assert(is_least_pair_from::<C>(cs, ks[i - 1].0, ks[i - 1].1 + 1, ks[i].0, ks[i].1));
        } else {
            assert(is_least_pair::<C>(cs, ks[0].0, ks[0].1));
        }
    }
    assert forall|a: int, b: int| 0 <= a < cs.len() && 0 <= b < cs[a].len() implies ks.contains(((#[trigger] cs[a][b]).0, a)) by {
        let k = cs[a][b].0;
        assert(!pair_lt::<C>(k, a, ks[0].0, ks[0].1));
        lemma_pairs_reach::<C>(cs, ks, a, b, 0);
    }
}

proof fn lemma_pairs_ascending<C: Comparator>(cs: Sources, ks: Seq<(Seq<u8>, int)>, i: int, j: int)
    requires
        0 <= i < j < ks.len(),
        forall|x: int| 0 <= x < ks.len() - 1 ==> is_least_pair_from::<C>(cs, (#[trigger] ks[x]).0, ks[x].1 + 1, ks[x + 1].0, ks[x + 1].1),
    ensures
        pair_lt::<C>(ks[i].0, ks[i].1, ks[j].0, ks[j].1),
    decreases j - i,
{
    assert(is_least_pair_from::<C>(cs, ks[j - 1].0, ks[j - 1].1 + 1, ks[j].0, ks[j].1));
    if j - 1 > i {
        lemma_pairs_ascending::<C>(cs, ks, i, j - 1);
        lemma_pair_transitive::<C>(ks[i].0, ks[i].1, ks[j - 1].0, ks[j - 1].1, ks[j].0, ks[j].1);
    }
}

proof fn lemma_pairs_reach<C: Comparator>(cs: Sources, ks: Seq<(Seq<u8>, int)>, a: int, b: int, i: int)
    requires
        0 <= a < cs.len(),
        0 <= b < cs[a].len(),
        0 <= i < ks.len(),
        !pair_lt::<C>(cs[a][b].0, a, ks[i].0, ks[i].1),
        forall|x: int| 0 <= x < ks.len() - 1 ==> is_least_pair_from::<C>(cs, (#[trigger] ks[x]).0, ks[x].1 + 1, ks[x + 1].0, ks[x + 1].1),
        none_from::<C>(cs, ks.last().0, ks.last().1 + 1),
    ensures
        ks.contains((cs[a][b].0, a)),
    decreases ks.len() - i,
{
    let k = cs[a][b].0;
    lemma_order_facts::<C>(k, ks[i].0, k);
    if k == ks[i].0 && a == ks[i].1 {
        assert(ks[i] == (k, a));
    } else {
        assert(from_point::<C>(k, a, ks[i].0, ks[i].1 + 1));
        if i == ks.len() - 1 {
            assert(!from_point::<C>(cs[a][b].0, a, ks.last().0, ks.last().1 + 1));
        } else {
            assert(is_least_pair_from::<C>(cs, ks[i].0, ks[i].1 + 1, ks[i + 1].0, ks[i + 1].1));
            lemma_pairs_reach::<C>(cs, ks, a, b, i + 1);
        }
    }
}

} // verus!

verus! {

/// Entries collected step by step from the least pair on, each the least
/// pair after the one before, until none is left, are the merge.
proof fn lemma_collected_merge<C: Comparator>(cs: Sources, ks: Seq<(Seq<u8>, int)>, rv: Seq<(Seq<u8>, Seq<u8>)>)
    requires
        all_sorted::<C>(cs),
        ks.len() == rv.len(),
        ks.len() > 0,
        is_least_pair::<C>(cs, ks[0].0, ks[0].1),
        forall|i: int| 0 <= i < ks.len() - 1 ==> is_least_pair_from::<C>(cs, (#[trigger] ks[i]).0, ks[i].1 + 1, ks[i + 1].0, ks[i + 1].1),
        none_from::<C>(cs, ks.last().0, ks.last().1 + 1),
        forall|i: int| 0 <= i < ks.len() ==> 0 <= (#[trigger] ks[i]).1 < cs.len() && ks[i].0 == rv[i].0 && exists|j: int|
            0 <= j < cs[ks[i].1].len() && #[trigger] cs[ks[i].1][j] == rv[i],
    ensures
        is_merge::<C>(cs, rv),
{
    lemma_merge_enumerates::<C>(cs, ks);
    let srcs = ks.map_values(|p: (Seq<u8>, int)| p.1);
    assert forall|i: int, j: int| 0 <= i < j < rv.len() implies pair_lt::<C>((#[trigger] rv[i]).0, srcs[i], (#[trigger] rv[j]).0, srcs[j]) by {
        assert(pair_lt::<C>(ks[i].0, ks[i].1, ks[j].0, ks[j].1));
    }
    assert forall|a: int, b: int| 0 <= a < cs.len() && 0 <= b < cs[a].len() implies exists|i: int|
        0 <= i < rv.len() && #[trigger] rv[i] == #[trigger] cs[a][b] && srcs[i] == a by {
        assert(ks.contains((cs[a][b].0, a)));
        let i = choose|i: int| 0 <= i < ks.len() && ks[i] == (cs[a][b].0, a);
        assert(0 <= ks[i].1 < cs.len() && ks[i].0 == rv[i].0);
        let j = choose|j: int| 0 <= j < cs[ks[i].1].len() && #[trigger] cs[ks[i].1][j] == rv[i];
        assert(sorted_by::<C>(cs[a]));
        if j != b {
            lemma_order_facts::<C>(cs[a][j].0, cs[a][b].0, cs[a][j].0);
            if j < b {
                assert(C::less(cs[a][j].0, cs[a][b].0));
            } else {
                assert(C::less(cs[a][b].0, cs[a][j].0));
            }
        }
        assert(rv[i] == cs[a][b]);
    }
    assert forall|i: int| 0 <= i < rv.len() implies 0 <= #[trigger] srcs[i] < cs.len() && exists|j: int|
        0 <= j < cs[srcs[i]].len() && #[trigger] cs[srcs[i]][j] == rv[i] by {
        assert(srcs[i] == ks[i].1);
    }
    assert(srcs.len() == rv.len());
}

impl<C: Comparator, I: LdbIterator<C>> MergingIter<C, I> {
    /// Starts the merge over and steps with `next` until the end; returns the
    /// entries met, in order: the merge of the children.
    #[verifier::rlimit(80)]
    pub fn collect_entries(&mut self) -> (r: Vec<(Vec<u8>, Vec<u8>)>)
        requires
            old(self).inv(),
        ensures
            final(self).inv(),
            final(self).sources() == old(self).sources(),
            is_merge::<C>(old(self).sources(), pairs_view(r@)),
    {
        let ghost cs = self.sources();
        self.reset();
        let mut r: Vec<(Vec<u8>, Vec<u8>)> = Vec::new();
        let first = self.next();
        match first {
            None => {
                proof {
                    let rv = pairs_view(r@);
                    let srcs = Seq::<int>::empty();
                    assert(rv.len() == 0);
                    assert forall|a: int, b: int| 0 <= a < cs.len() && 0 <= b < cs[a].len() implies exists|i: int|
                        0 <= i < rv.len() && #[trigger] rv[i] == #[trigger] cs[a][b] && srcs[i] == a by {
                        assert(cs[a].len() == 0);
                    }
                    assert(is_merge::<C>(cs, rv)) by {
                        assert(srcs.len() == rv.len());
                    }
                }
                return r;
            },
            Some(kv) => {
                let ghost k0 = kv.0@;
                let ghost c0 = self.source().unwrap();
                r.push(kv);
                let ghost mut ks: Seq<(Seq<u8>, int)> = seq![(k0, c0)];
                proof {
                    assert(pairs_view(r@) =~= seq![(k0, kv.1@)]);
                }
                loop
                    invariant
                        self.inv(),
                        self.sources() == cs,
                        cs == old(self).sources(),
                        self.source_holds_key(),
                        self.forward(),
                        ks.len() == r@.len(),
                        ks.len() > 0,
                        self.key() == Some(ks.last().0),
                        self.source() == Some(ks.last().1),
                        is_least_pair::<C>(cs, ks[0].0, ks[0].1),
                        forall|i: int| 0 <= i < ks.len() - 1 ==> is_least_pair_from::<C>(cs, (#[trigger] ks[i]).0, ks[i].1 + 1, ks[i + 1].0, ks[i + 1].1),
                        forall|i: int| 0 <= i < ks.len() ==> 0 <= (#[trigger] ks[i]).1 < cs.len() && ks[i].0 == pairs_view(r@)[i].0 && exists|j: int|
                            0 <= j < cs[ks[i].1].len() && #[trigger] cs[ks[i].1][j] == pairs_view(r@)[i],
                    decreases self.remaining(),
                {
                    let ghost prev_ks = ks;
                    let ghost prev_r = pairs_view(r@);
                    match self.next() {
                        Some(kv) => {
                            let ghost entry = (kv.0@, kv.1@);
                            r.push(kv);
                            proof {
                                ks = ks.push((entry.0, self.source().unwrap()));
                                assert(pairs_view(r@) =~= prev_r.push(entry));
                                assert forall|i: int| 0 <= i < ks.len() - 1 implies is_least_pair_from::<C>(cs, (#[trigger] ks[i]).0, ks[i].1 + 1, ks[i + 1].0, ks[i + 1].1) by {
                                    if i < ks.len() - 2 {
                                        assert(ks[i] == prev_ks[i]);
                                        assert(ks[i + 1] == prev_ks[i + 1]);
                                    } else {
                                        assert(ks[i] == prev_ks.last());
                                    }
                                }
                                assert forall|i: int| 0 <= i < ks.len() implies 0 <= (#[trigger] ks[i]).1 < cs.len() && ks[i].0 == pairs_view(r@)[i].0 && exists|j: int|
                                    0 <= j < cs[ks[i].1].len() && #[trigger] cs[ks[i].1][j] == pairs_view(r@)[i] by {
                                    if i < ks.len() - 1 {
                                        assert(ks[i] == prev_ks[i]);
                                        assert(pairs_view(r@)[i] == prev_r[i]);
                                    }
                                }
                            }
                        },
                        None => {
                            proof {
                                self.lemma_sources();
                                lemma_collected_merge::<C>(cs, ks, pairs_view(r@));
                            }
                            return r;
                        },
                    }
                }
            },
        }
    }
}

} // verus!
