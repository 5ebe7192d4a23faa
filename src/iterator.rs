//! The cursor protocol shared by every sorted source.
use vstd::prelude::*;
use crate::types::Comparator;
use crate::skipmap::{lower_bound, sorted_by, SkipMapIter};
use crate::block::{BlockIter, block_wf, block_entries, lemma_pairs, block_parse};

verus! {

/// A cursor over a sequence of (key, value) pairs in strictly ascending key
/// order under `C`.
pub trait LdbIterator<C: Comparator> {
    /// The entries that the cursor walks.
    spec fn entries(&self) -> Seq<(Seq<u8>, Seq<u8>)>;

    /// The index of the current entry, if the cursor is valid.
    spec fn position(&self) -> Option<int>;

    /// The cursor is before the first entry.
    spec fn at_start(&self) -> bool;

    spec fn inv(&self) -> bool;

    proof fn lemma_iter_inv(&self)
        requires
            self.inv(),
        ensures
            sorted_by::<C>(self.entries()),
            self.position() matches Some(i) ==> 0 <= i < self.entries().len(),
            self.at_start() ==> self.position() is None,
    ;

    /// Moves to the next entry; from before the first, to the first. Returns
    /// whether the cursor is valid.
    fn advance(&mut self) -> (r: bool)
        requires
            old(self).inv(),
        ensures
            final(self).inv(),
            final(self).entries() == old(self).entries(),
            old(self).position() matches Some(i) ==> final(self).position() == if i + 1 < old(
                self,
            ).entries().len() {
                Some(i + 1)
            } else {
                None
            },
            old(self).at_start() ==> final(self).position() == if old(self).entries().len() > 0 {
                Some(0int)
            } else {
                None
            },
            r == final(self).position() is Some,
    ;

    /// Moves to the previous entry; invalid before the first. Returns whether
    /// the cursor is valid.
    fn prev(&mut self) -> (r: bool)
        requires
            old(self).inv(),
        ensures
            final(self).inv(),
            final(self).entries() == old(self).entries(),
            old(self).position() matches Some(i) ==> final(self).position() == if i > 0 {
                Some(i - 1)
            } else {
                None
            },
            r == final(self).position() is Some,
    ;

    /// Moves to the first entry whose key is not before `key`.
    fn seek(&mut self, key: &[u8])
        requires
            old(self).inv(),
        ensures
            final(self).inv(),
            final(self).entries() == old(self).entries(),
            final(self).position() == if lower_bound::<C>(
                old(self).entries(),
                key@,
            ) < old(self).entries().len() {
                Some(lower_bound::<C>(old(self).entries(), key@))
            } else {
                None
            },
    ;

    /// Moves to the last entry.
    fn seek_to_last(&mut self)
        requires
            old(self).inv(),
        ensures
            final(self).inv(),
            final(self).entries() == old(self).entries(),
            final(self).position() == if old(self).entries().len() > 0 {
                Some(old(self).entries().len() - 1)
            } else {
                None
            },
    ;

    /// Returns to the state before the first entry.
    fn reset(&mut self)
        requires
            old(self).inv(),
        ensures
            final(self).inv(),
            final(self).entries() == old(self).entries(),
            final(self).at_start(),
    ;

    fn valid(&self) -> (r: bool)
        requires
            self.inv(),
        ensures
            r == self.position() is Some,
    ;

    /// Copies the current key and value into `key` and `val`; `false`, with
    /// both left alone, if the cursor is invalid.
    fn current(&self, key: &mut Vec<u8>, val: &mut Vec<u8>) -> (r: bool)
        requires
            self.inv(),
        ensures
            r == self.position() is Some,
            r ==> final(key)@ == self.entries()[self.position().unwrap()].0 && final(val)@
                == self.entries()[self.position().unwrap()].1,
            !r ==> final(key)@ == old(key)@ && final(val)@ == old(val)@,
    ;
}

impl<C: Comparator> LdbIterator<C> for BlockIter<C> {
    open spec fn entries(&self) -> Seq<(Seq<u8>, Seq<u8>)> {
        block_entries(self.data())
    }

    open spec fn position(&self) -> Option<int> {
        BlockIter::position(self)
    }

    open spec fn at_start(&self) -> bool {
        &&& BlockIter::position(self) is None
        &&& self.anchor() is None
        &&& self.next_index() == 0
    }

    open spec fn inv(&self) -> bool {
        BlockIter::inv(self) && block_wf::<C>(self.data())
    }

    proof fn lemma_iter_inv(&self) {
        self.lemma_inv();
        lemma_pairs(block_parse(self.data()));
    }

    fn advance(&mut self) -> (r: bool) {
        proof {
            self.lemma_inv();
        }
        let n = self.next();
        n.is_some()
    }

    fn prev(&mut self) -> (r: bool) {
        proof {
            self.lemma_inv();
        }
        BlockIter::prev(self)
    }

    fn seek(&mut self, key: &[u8]) {
        BlockIter::seek_lower_bound(self, key)
    }

    fn seek_to_last(&mut self) {
        BlockIter::seek_to_last(self)
    }

    fn reset(&mut self) {
        BlockIter::reset(self)
    }

    fn valid(&self) -> (r: bool) {
        BlockIter::valid(self)
    }

    fn current(&self, key: &mut Vec<u8>, val: &mut Vec<u8>) -> (r: bool) {
        match BlockIter::current(self) {
            Some((k, v)) => {
                *key = k;
                *val = v;
                true
            },
            None => false,
        }
    }
}

impl<'a, C: Comparator> LdbIterator<C> for SkipMapIter<'a, C> {
    open spec fn entries(&self) -> Seq<(Seq<u8>, Seq<u8>)> {
        SkipMapIter::entries(self)
    }

    open spec fn position(&self) -> Option<int> {
        SkipMapIter::position(self)
    }

    open spec fn at_start(&self) -> bool {
        SkipMapIter::position(self) is None
    }

    open spec fn inv(&self) -> bool {
        SkipMapIter::inv(self)
    }

    proof fn lemma_iter_inv(&self) {
        self.lemma_inv();
    }

    fn advance(&mut self) -> (r: bool) {
        SkipMapIter::advance(self)
    }

    fn prev(&mut self) -> (r: bool) {
        SkipMapIter::prev(self)
    }

    fn seek(&mut self, key: &[u8]) {
        SkipMapIter::seek(self, key)
    }

    fn seek_to_last(&mut self) {
        SkipMapIter::seek_to_last(self)
    }

    fn reset(&mut self) {
        SkipMapIter::reset(self)
    }

    fn valid(&self) -> (r: bool) {
        SkipMapIter::valid(self)
    }

    fn current(&self, key: &mut Vec<u8>, val: &mut Vec<u8>) -> (r: bool) {
        if SkipMapIter::valid(self) {
            let (k, v) = SkipMapIter::current(self);
            *key = crate::memtable::bytes_to_vec(k);
            *val = crate::memtable::bytes_to_vec(v);
            true
        } else {
            false
        }
    }
}

} // verus!
