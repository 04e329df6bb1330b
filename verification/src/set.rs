//! An immutable set with constant-time membership tests.

use vstd::prelude::*;
use crate::key::{PhfHash, PhfEquiv};
use crate::table::{KeyTable, Keys};
use crate::text::{PhfText, braced, texts_of, render_keys};

verus! {

/// An immutable set of distinct keys.
///
/// Iteration visits the elements in an order that is fixed for the lifetime
/// of the set but otherwise carries no meaning.
pub struct PhfSet<T> {
    table: KeyTable<T>,
}

impl<T: PhfHash> View for PhfSet<T> {
    type V = Set<Seq<u8>>;

    /// The set of byte images of the elements.
    open spec fn view(&self) -> Set<Seq<u8>> {
        self.idents().to_set()
    }
}

impl<T> PhfSet<T> {
    /// The elements, in iteration order.
    pub closed spec fn elements(&self) -> Seq<T> {
        self.table.keys()
    }

    /// Number of elements.
    pub fn len(&self) -> (n: usize)
        ensures
            n == self.elements().len(),
    {
        self.table.len()
    }

    /// Whether the set has no elements.
    pub fn is_empty(&self) -> (b: bool)
        ensures
            b == (self.elements().len() == 0),
    {
        self.len() == 0
    }

    /// A cursor over the elements. Every cursor of one set visits them in
    /// the same order.
    pub fn iter<'a>(&'a self) -> (items: Items<'a, T>)
        ensures
            items.wf(),
            items.remaining() == self.elements(),
    {
        Items { iter: self.table.iter() }
    }
}

impl<T: PhfHash> PhfSet<T> {
    /// The set's invariant: its table is a perfect hash of its elements.
    pub closed spec fn wf(&self) -> bool {
        self.table.wf()
    }

    /// The byte images of the elements, in iteration order.
    pub open spec fn idents(&self) -> Seq<Seq<u8>> {
        Seq::new(self.elements().len(), |i: int| self.elements()[i].key_bytes())
    }

    /// The set's own instance of the key with byte image `ident`, if that
    /// key is an element.
    pub open spec fn stored(&self, ident: Seq<u8>) -> Option<&T> {
        if self@.contains(ident) {
            Some(&self.elements()[self.idents().index_of(ident)])
        } else {
            None
        }
    }

    /// Makes the set of the keys of `table`.
    pub fn new(table: KeyTable<T>) -> (s: PhfSet<T>)
        requires
            table.wf(),
        ensures
            s.wf(),
            s.elements() == table.keys(),
    {
        PhfSet { table }
    }

    /// Like `contains`, for any probe that can be compared with an element.
    pub fn contains_equiv<U: PhfEquiv<T> + ?Sized>(&self, key: &U) -> (b: bool)
        requires
            self.wf(),
        ensures
            b == self@.contains(key.key_bytes()),
    {
        self.table.get_key(key).is_some()
    }

    /// Like `get_key`, for any probe that can be compared with an element.
    pub fn get_key_equiv<U: PhfEquiv<T> + ?Sized>(&self, key: &U) -> (r: Option<&T>)
        requires
            self.wf(),
        ensures
            r == self.stored(key.key_bytes()),
    {
        self.table.get_key(key)
    }

    /// The elements of a well-formed set are pairwise distinct, so the set
    /// has as many members as it has elements.
    pub proof fn lemma_cardinality(&self)
        requires
            self.wf(),
        ensures
            self.idents().no_duplicates(),
            self@.finite(),
            self@.len() == self.elements().len(),
    {
        assert(self.idents() =~= self.table.idents());
        self.table.lemma_distinct();
        self.idents().unique_seq_to_set();
    }
}

impl<T: PhfEquiv<T>> PhfSet<T> {
    /// The set's own instance of `key`, if `key` is an element.
    pub fn get_key(&self, key: &T) -> (r: Option<&T>)
        requires
            self.wf(),
        ensures
            r == self.stored(key.key_bytes()),
    {
        self.table.get_key(key)
    }

    /// Whether `value` is an element.
    pub fn contains(&self, value: &T) -> (b: bool)
        requires
            self.wf(),
        ensures
            b == self@.contains(value.key_bytes()),
    {
        self.table.contains_key(value)
    }

    /// Whether no element of `self` is an element of `other`.
    pub fn is_disjoint(&self, other: &PhfSet<T>) -> (b: bool)
        requires
            self.wf(),
            other.wf(),
        ensures
            b == self@.disjoint(other@),
    {
        let ghost ids = self.idents();
        let mut items = self.iter();
        loop
            invariant
                self.wf(),
                other.wf(),
                ids == self.idents(),
                items.wf(),
                items.remaining().len() <= self.elements().len(),
                items.remaining() == self.elements().skip(
                    self.elements().len() - items.remaining().len(),
                ),
                forall|k: int|
                    0 <= k < self.elements().len() - items.remaining().len() ==> !other@.contains(
                        #[trigger] ids[k],
                    ),
            decreases items.remaining().len(),
        {
            let ghost at = self.elements().len() - items.remaining().len();
            match items.next() {
                None => {
                    return true;
                },
                Some(value) => {
                    proof {
                        assert(*value == self.elements()[at]);
                        assert(ids[at] == value.key_bytes());
                        assert(self@.contains(ids[at]));
                        assert(items.remaining() =~= self.elements().skip(at + 1));
                    }
                    if other.contains(value) {
                        return false;
                    }
                },
            }
        }
    }

    /// Whether every element of `self` is an element of `other`.
    pub fn is_subset(&self, other: &PhfSet<T>) -> (b: bool)
        requires
            self.wf(),
            other.wf(),
        ensures
            b == self@.subset_of(other@),
    {
        let ghost ids = self.idents();
        let mut items = self.iter();
        loop
            invariant
                self.wf(),
                other.wf(),
                ids == self.idents(),
                items.wf(),
                items.remaining().len() <= self.elements().len(),
                items.remaining() == self.elements().skip(
                    self.elements().len() - items.remaining().len(),
                ),
                forall|k: int|
                    0 <= k < self.elements().len() - items.remaining().len() ==> other@.contains(
                        #[trigger] ids[k],
                    ),
            decreases items.remaining().len(),
        {
            let ghost at = self.elements().len() - items.remaining().len();
            match items.next() {
                None => {
                    return true;
                },
                Some(value) => {
                    proof {
                        assert(*value == self.elements()[at]);
                        assert(ids[at] == value.key_bytes());
                        assert(self@.contains(ids[at]));
                        assert(items.remaining() =~= self.elements().skip(at + 1));
                    }
                    if !other.contains(value) {
                        return false;
                    }
                },
            }
        }
    }

    /// Whether every element of `other` is an element of `self`. The
    /// elements walked are those of `other`.
    pub fn is_superset(&self, other: &PhfSet<T>) -> (b: bool)
        requires
            self.wf(),
            other.wf(),
        ensures
            b == self.includes(other),
    {
        other.is_subset(self)
    }
}

impl<T: PhfHash> PhfSet<T> {
    /// Every element is a member, and looking it up gives back the set's
    /// own instance of it.
    pub proof fn law_elements_are_found(&self, i: int)
        requires
            self.wf(),
            0 <= i < self.elements().len(),
        ensures
            self@.contains(self.idents()[i]),
            self.stored(self.idents()[i]) == Some(&self.elements()[i]),
    {
        self.lemma_cardinality();
        let ids = self.idents();
        assert(ids.contains(ids[i]));
        let j = ids.index_of(ids[i]);
        assert(0 <= j < ids.len() && ids[j] == ids[i]);
    }

    /// A key that is not among the elements is not a member, and looking
    /// it up gives nothing.
    pub proof fn law_strangers_are_absent(&self, ident: Seq<u8>)
        requires
            self.wf(),
            forall|i: int| 0 <= i < self.elements().len() ==> self.idents()[i] != ident,
        ensures
            !self@.contains(ident),
            self.stored(ident).is_none(),
    {
    }

    /// A fresh cursor over a set has as many elements to hand out as the
    /// set's length says, which is the number of the set's members.
    pub proof fn law_iteration_counts_members(&self, items: Items<T>)
        requires
            self.wf(),
            items.remaining() == self.elements(),
        ensures
            items.remaining().len() == self.elements().len(),
            items.remaining().len() == self@.len(),
    {
        self.lemma_cardinality();
    }

    /// Whether every member of `other` is a member of `self`.
    pub open spec fn includes(&self, other: &PhfSet<T>) -> bool {
        forall|ident: Seq<u8>| other@.contains(ident) ==> self@.contains(ident)
    }

    /// One set is a superset of another exactly when the other is a subset
    /// of it.
    pub proof fn law_superset_mirrors_subset(&self, other: &PhfSet<T>)
        ensures
            self.includes(other) == other@.subset_of(self@),
    {
    }

    /// Every set is a subset of itself.
    pub proof fn law_subset_reflexive(&self)
        ensures
            self@.subset_of(self@),
    {
    }

    /// A set that is both disjoint from another and a subset of it has no
    /// elements.
    pub proof fn law_disjoint_subset_is_empty(&self, other: &PhfSet<T>)
        requires
            self@.disjoint(other@),
            self@.subset_of(other@),
        ensures
            self.elements().len() == 0,
            self@ =~= Set::<Seq<u8>>::empty(),
    {
        if self.elements().len() > 0 {
            let ids = self.idents();
            assert(ids.contains(ids[0]));
            assert(self@.contains(ids[0]));
            assert(other@.contains(ids[0]));
        }
    }
}

impl<T: PhfText> PhfSet<T> {
    /// The set as text: the elements in iteration order, separated by a
    /// comma and a space, inside a pair of braces.
    pub fn render(&self) -> (s: String)
        ensures
            s@ == braced(texts_of(self.elements())),
    {
        render_keys(self.table.iter())
    }
}

/// A cursor over the elements of a [`PhfSet`].
pub struct Items<'a, T> {
    iter: Keys<'a, T>,
}

impl<'a, T> Items<'a, T> {
    /// The cursor's invariant.
    pub closed spec fn wf(&self) -> bool {
        self.iter.wf()
    }

    /// The elements not yet handed out, in iteration order.
    pub closed spec fn remaining(&self) -> Seq<T> {
        self.iter.remaining()
    }

    /// Hands out the first remaining element.
    pub fn next(&mut self) -> (r: Option<&'a T>)
        requires
            old(self).wf(),
        ensures
            final(self).wf(),
            old(self).remaining().len() == 0 ==> r.is_none() && final(self).remaining() == old(
                self,
            ).remaining(),
            old(self).remaining().len() > 0 ==> r == Some(&old(self).remaining().first())
                && final(self).remaining() == old(self).remaining().drop_first(),
    {
        self.iter.next()
    }

    /// Lower and upper bound of the number of remaining elements; both are
    /// exact.
    pub fn size_hint(&self) -> (r: (usize, Option<usize>))
        requires
            self.wf(),
        ensures
            r.0 == self.remaining().len(),
            r.1 == Some(r.0),
    {
        let n: usize = self.iter.len();
        (n, Some(n))
    }

    /// Steps through all remaining elements and says how many there were.
    pub fn count(self) -> (n: usize)
        requires
            self.wf(),
        ensures
            n == self.remaining().len(),
    {
        self.iter.count()
    }

    /// Hands out the last remaining element.
    pub fn next_back(&mut self) -> (r: Option<&'a T>)
        requires
            old(self).wf(),
        ensures
            final(self).wf(),
            old(self).remaining().len() == 0 ==> r.is_none() && final(self).remaining() == old(
                self,
            ).remaining(),
            old(self).remaining().len() > 0 ==> r == Some(&old(self).remaining().last())
                && final(self).remaining() == old(self).remaining().drop_last(),
    {
        self.iter.next_back()
    }
}

} // verus!
