//! An immutable set that remembers the order in which its elements were
//! defined.

use vstd::prelude::*;
use crate::key::{PhfHash, PhfEquiv};
use crate::table::{KeyTable, Keys};
use crate::text::{PhfText, braced, texts_of, render_keys};

verus! {

/// An immutable set of distinct keys whose iteration order is the order in
/// which the keys were defined.
pub struct OrderedSet<T> {
    table: KeyTable<T>,
}

impl<T: PhfHash> View for OrderedSet<T> {
    type V = Seq<Seq<u8>>;

    /// The byte images of the elements, in definition order.
    open spec fn view(&self) -> Seq<Seq<u8>> {
        Seq::new(self.elements().len(), |i: int| self.elements()[i].key_bytes())
    }
}

impl<T> OrderedSet<T> {
    /// The elements, in definition order.
    pub closed spec fn elements(&self) -> Seq<T> {
        self.table.keys()
    }

    /// Number of elements.
    pub fn len(&self) -> (n: usize)
        ensures
            n == self.elements().len(),
    {
        self.table.len()
    }

    /// Whether the set has no elements.
    pub fn is_empty(&self) -> (b: bool)
        ensures
            b == (self.elements().len() == 0),
    {
        self.len() == 0
    }

    /// A cursor over the elements, in definition order.
    pub fn iter<'a>(&'a self) -> (items: Iter<'a, T>)
        ensures
            items.wf(),
            items.remaining() == self.elements(),
    {
        Iter { iter: self.table.iter() }
    }
}

impl<T: PhfHash> OrderedSet<T> {
    /// The set's invariant: its table is a perfect hash of its elements.
    pub closed spec fn wf(&self) -> bool {
        self.table.wf()
    }

    /// The byte images of the elements, without their order.
    pub open spec fn members(&self) -> Set<Seq<u8>> {
        self@.to_set()
    }

    /// The position in definition order of the key with byte image
    /// `ident`, if that key is an element.
    pub open spec fn position(&self, ident: Seq<u8>) -> Option<int> {
        if self@.contains(ident) {
            Some(self@.index_of(ident))
        } else {
            None
        }
    }

    /// The set's own instance of the key with byte image `ident`, if that
    /// key is an element.
    pub open spec fn stored(&self, ident: Seq<u8>) -> Option<&T> {
        match self.position(ident) {
            Some(i) => Some(&self.elements()[i]),
            None => None,
        }
    }

    /// Makes the set of the keys of `table`, in the table's order.
    pub fn new(table: KeyTable<T>) -> (s: OrderedSet<T>)
        requires
            table.wf(),
        ensures
            s.wf(),
            s.elements() == table.keys(),
    {
        OrderedSet { table }
    }

    /// The set's own instance of the key that `key` denotes, if it is an
    /// element.
    pub fn get_key<U: PhfEquiv<T> + ?Sized>(&self, key: &U) -> (r: Option<&T>)
        requires
            self.wf(),
        ensures
            r == self.stored(key.key_bytes()),
    {
        proof {
            assert(self@ =~= self.table.idents());
        }
        self.table.get_key(key)
    }

    /// The position in definition order of the key that `key` denotes, if
    /// it is an element.
    pub fn get_index<U: PhfEquiv<T> + ?Sized>(&self, key: &U) -> (r: Option<usize>)
        requires
            self.wf(),
        ensures
            r.is_some() == self.position(key.key_bytes()).is_some(),
            r.is_some() ==> self.position(key.key_bytes()) == Some(r.unwrap() as int),
    {
        proof {
            assert(self@ =~= self.table.idents());
        }
        self.table.get_index(key)
    }

    /// Whether the key that `value` denotes is an element.
    pub fn contains<U: PhfEquiv<T> + ?Sized>(&self, value: &U) -> (b: bool)
        requires
            self.wf(),
        ensures
            b == self.members().contains(value.key_bytes()),
    {
        proof {
            assert(self@ =~= self.table.idents());
        }
        self.table.contains_key(value)
    }

    /// The elements of a well-formed set are pairwise distinct, so the set
    /// has as many members as it has elements.
    pub proof fn lemma_cardinality(&self)
        requires
            self.wf(),
        ensures
            self@.no_duplicates(),
            self.members().finite(),
            self.members().len() == self.elements().len(),
    {
        assert(self@ =~= self.table.idents());
        self.table.lemma_distinct();
        self@.unique_seq_to_set();
    }
}

impl<T: PhfEquiv<T>> OrderedSet<T> {
    /// Whether no element of `self` is an element of `other`.
    pub fn is_disjoint(&self, other: &OrderedSet<T>) -> (b: bool)
        requires
            self.wf(),
            other.wf(),
        ensures
            b == self.members().disjoint(other.members()),
    {
        let ghost ids = self@;
        let mut items = self.iter();
        loop
            invariant
                self.wf(),
                other.wf(),
                ids == self@,
                items.wf(),
                items.remaining().len() <= self.elements().len(),
                items.remaining() == self.elements().skip(
                    self.elements().len() - items.remaining().len(),
                ),
                forall|k: int|
                    0 <= k < self.elements().len() - items.remaining().len() ==> !other.members().contains(
                        #[trigger] ids[k],
                    ),
            decreases items.remaining().len(),
        {
            let ghost at = self.elements().len() - items.remaining().len();
            match items.next() {
                None => {
                    return true;
                },
                Some(value) => {
                    proof {
                        assert(*value == self.elements()[at]);
                        assert(ids[at] == value.key_bytes());
                        assert(self.members().contains(ids[at]));
                        assert(items.remaining() =~= self.elements().skip(at + 1));
                    }
                    if other.contains(value) {
                        return false;
                    }
                },
            }
        }
    }

    /// Whether every element of `self` is an element of `other`.
    pub fn is_subset(&self, other: &OrderedSet<T>) -> (b: bool)
        requires
            self.wf(),
            other.wf(),
        ensures
            b == self.members().subset_of(other.members()),
    {
        let ghost ids = self@;
        let mut items = self.iter();
        loop
            invariant
                self.wf(),
                other.wf(),
                ids == self@,
                items.wf(),
                items.remaining().len() <= self.elements().len(),
                items.remaining() == self.elements().skip(
                    self.elements().len() - items.remaining().len(),
                ),
                forall|k: int|
                    0 <= k < self.elements().len() - items.remaining().len() ==> other.members().contains(
                        #[trigger] ids[k],
                    ),
            decreases items.remaining().len(),
        {
            let ghost at = self.elements().len() - items.remaining().len();
            match items.next() {
                None => {
                    return true;
                },
                Some(value) => {
                    proof {
                        assert(*value == self.elements()[at]);
                        assert(ids[at] == value.key_bytes());
                        assert(self.members().contains(ids[at]));
                        assert(items.remaining() =~= self.elements().skip(at + 1));
                    }
                    if !other.contains(value) {
                        return false;
                    }
                },
            }
        }
    }

    /// Whether every element of `other` is an element of `self`. The
    /// elements walked are those of `other`.
    pub fn is_superset(&self, other: &OrderedSet<T>) -> (b: bool)
        requires
            self.wf(),
            other.wf(),
        ensures
            b == self.includes(other),
    {
        other.is_subset(self)
    }
}

impl<T: PhfHash> OrderedSet<T> {
    /// Every element is a member, its position is where it was defined, and
    /// looking it up gives back the set's own instance of it.
    pub proof fn law_elements_are_found(&self, i: int)
        requires
            self.wf(),
            0 <= i < self.elements().len(),
        ensures
            self.members().contains(self@[i]),
            self.position(self@[i]) == Some(i),
            self.stored(self@[i]) == Some(&self.elements()[i]),
    {
        self.lemma_cardinality();
        let ids = self@;
        assert(ids.contains(ids[i]));
        let j = ids.index_of(ids[i]);
        assert(0 <= j < ids.len() && ids[j] == ids[i]);
    }

    /// A key that is not among the elements is not a member, has no
    /// position, and looking it up gives nothing.
    pub proof fn law_strangers_are_absent(&self, ident: Seq<u8>)
        requires
            self.wf(),
            forall|i: int| 0 <= i < self.elements().len() ==> self@[i] != ident,
        ensures
            !self.members().contains(ident),
            self.position(ident).is_none(),
            self.stored(ident).is_none(),
    {
    }

    /// A fresh cursor over a set has as many elements to hand out as the
    /// set's length says, which is the number of the set's members.
    pub proof fn law_iteration_counts_members(&self, items: Iter<T>)
        requires
            self.wf(),
            items.remaining() == self.elements(),
        ensures
            items.remaining().len() == self.elements().len(),
            items.remaining().len() == self.members().len(),
    {
        self.lemma_cardinality();
    }

    /// Walking forward, an element handed out later has a greater position.
    pub proof fn law_forward_positions_increase(&self, i: int, j: int)
        requires
            self.wf(),
            0 <= i < j < self.elements().len(),
        ensures
            self.position(self@[i]).unwrap() < self.position(self@[j]).unwrap(),
    {
        self.law_elements_are_found(i);
        self.law_elements_are_found(j);
    }

    /// Walking backward hands out the elements in the reverse of definition
    /// order: the element handed out at step `k` has position `len - 1 - k`.
    pub proof fn law_backward_is_reverse(&self, k: int)
        requires
            self.wf(),
            0 <= k < self.elements().len(),
        ensures
            self.position(self@.reverse()[k]) == Some(self.elements().len() - 1 - k),
    {
        self.law_elements_are_found(self.elements().len() - 1 - k);
    }

    /// Whether every member of `other` is a member of `self`.
    pub open spec fn includes(&self, other: &OrderedSet<T>) -> bool {
        forall|ident: Seq<u8>| other.members().contains(ident) ==> self.members().contains(ident)
    }

    /// One set is a superset of another exactly when the other is a subset
    /// of it.
    pub proof fn law_superset_mirrors_subset(&self, other: &OrderedSet<T>)
        ensures
            self.includes(other) == other.members().subset_of(self.members()),
    {
    }

    /// Every set is a subset of itself.
    pub proof fn law_subset_reflexive(&self)
        ensures
            self.members().subset_of(self.members()),
    {
    }

    /// A set that is both disjoint from another and a subset of it has no
    /// elements.
    pub proof fn law_disjoint_subset_is_empty(&self, other: &OrderedSet<T>)
        requires
            self.members().disjoint(other.members()),
            self.members().subset_of(other.members()),
        ensures
            self.elements().len() == 0,
    {
        if self.elements().len() > 0 {
            let ids = self@;
            assert(ids.contains(ids[0]));
            assert(self.members().contains(ids[0]));
            assert(other.members().contains(ids[0]));
        }
    }
}

impl<T: PhfText> OrderedSet<T> {
    /// The set as text: the elements in iteration order, separated by a
    /// comma and a space, inside a pair of braces.
    pub fn render(&self) -> (s: String)
        ensures
            s@ == braced(texts_of(self.elements())),
    {
        render_keys(self.table.iter())
    }
}

/// A cursor over the elements of an [`OrderedSet`], in definition order.
pub struct Iter<'a, T> {
    iter: Keys<'a, T>,
}

impl<'a, T> Iter<'a, T> {
    /// The cursor's invariant.
    pub closed spec fn wf(&self) -> bool {
        self.iter.wf()
    }

    /// The elements not yet handed out, in definition order.
    pub closed spec fn remaining(&self) -> Seq<T> {
        self.iter.remaining()
    }

    /// Hands out the first remaining element.
    pub fn next(&mut self) -> (r: Option<&'a T>)
        requires
            old(self).wf(),
        ensures
            final(self).wf(),
            old(self).remaining().len() == 0 ==> r.is_none() && final(self).remaining() == old(
                self,
            ).remaining(),
            old(self).remaining().len() > 0 ==> r == Some(&old(self).remaining().first())
                && final(self).remaining() == old(self).remaining().drop_first(),
    {
        self.iter.next()
    }

    /// Lower and upper bound of the number of remaining elements; both are
    /// exact.
    pub fn size_hint(&self) -> (r: (usize, Option<usize>))
        requires
            self.wf(),
        ensures
            r.0 == self.remaining().len(),
            r.1 == Some(r.0),
    {
        let n: usize = self.iter.len();
        (n, Some(n))
    }

    /// Steps through all remaining elements and says how many there were.
    pub fn count(self) -> (n: usize)
        requires
            self.wf(),
        ensures
            n == self.remaining().len(),
    {
        self.iter.count()
    }

    /// Hands out the last remaining element.
    pub fn next_back(&mut self) -> (r: Option<&'a T>)
        requires
            old(self).wf(),
        ensures
            final(self).wf(),
            old(self).remaining().len() == 0 ==> r.is_none() && final(self).remaining() == old(
                self,
            ).remaining(),
            old(self).remaining().len() > 0 ==> r == Some(&old(self).remaining().last())
                && final(self).remaining() == old(self).remaining().drop_last(),
    {
        self.iter.next_back()
    }

    /// Number of positions that `idx` can reach.
    pub fn indexable(&self) -> (n: usize)
        requires
            self.wf(),
        ensures
            n == self.remaining().len(),
    {
        self.iter.len()
    }

    /// The remaining element at `index`, counted from the front, if there
    /// is one. The cursor does not move.
    pub fn idx(&mut self, index: usize) -> (r: Option<&'a T>)
        requires
            old(self).wf(),
        ensures
            final(self).wf(),
            final(self).remaining() == old(self).remaining(),
            r == (if index < old(self).remaining().len() {
                Some(&old(self).remaining()[index as int])
            } else {
                None
            }),
    {
        self.iter.idx(index)
    }
}

} // verus!
