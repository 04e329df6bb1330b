//! The perfect-hash key table that both set types are built on.
//!
//! A table stores its keys in definition order together with a slot array.
//! Hashing a stored key under the table's seed and reducing it modulo the
//! number of slots leads to a slot that holds that key's position, so a
//! lookup costs one hash, one slot read and one comparison.

use vstd::prelude::*;
use crate::key::{hash_bytes, PhfHash, PhfEquiv};

verus! {

/// The slot that a key with byte image `ident` hashes to.
pub open spec fn slot_of(ident: Seq<u8>, seed: u64, n_slots: nat) -> int
    recommends
        n_slots > 0,
{
    (hash_bytes(ident, seed) as int) % (n_slots as int)
}

/// Whether `slots` sends every key of `keys` to its own position under `seed`.
pub open spec fn perfect<T: PhfHash>(seed: u64, slots: Seq<usize>, keys: Seq<T>) -> bool {
    &&& keys.len() > 0 ==> slots.len() > 0
    &&& forall|i: int|
        0 <= i < keys.len() ==> #[trigger] slots[slot_of(keys[i].key_bytes(), seed, slots.len())]
            == i
}

/// An immutable table of distinct keys with constant-time lookup.
pub struct KeyTable<T> {
    seed: u64,
    slots: Vec<usize>,
    keys: Vec<T>,
}

impl<T> KeyTable<T> {
    /// The stored keys, in definition order.
    pub closed spec fn keys(&self) -> Seq<T> {
        self.keys@
    }

    /// Number of stored keys.
    pub fn len(&self) -> (n: usize)
        ensures
            n == self.keys().len(),
    {
        self.keys.len()
    }

    /// The key stored at `index`, if there is one.
    pub fn key_at(&self, index: usize) -> (r: Option<&T>)
        ensures
            r == (if index < self.keys().len() {
                Some(&self.keys()[index as int])
            } else {
                None
            }),
    {
        if index < self.keys.len() {
            Some(&self.keys[index])
        } else {
            None
        }
    }

    /// A cursor over all keys, in definition order.
    pub fn iter<'a>(&'a self) -> (cursor: Keys<'a, T>)
        ensures
            cursor.wf(),
            cursor.remaining() == self.keys(),
    {
        let cursor = Keys { table: self, front: 0, back: self.keys.len() };
        proof {
            assert(self.keys@.subrange(0, self.keys@.len() as int) =~= self.keys@);
        }
        cursor
    }
}

impl<T: PhfHash> KeyTable<T> {
    /// The seed that the keys are hashed under.
    pub closed spec fn seed(&self) -> u64 {
        self.seed
    }

    /// The slot array.
    pub closed spec fn slots(&self) -> Seq<usize> {
        self.slots@
    }

    /// The table's invariant: the slot array is a perfect hash of the keys.
    pub open spec fn wf(&self) -> bool {
        perfect(self.seed(), self.slots(), self.keys())
    }

    /// The byte images of the stored keys, in definition order.
    pub open spec fn idents(&self) -> Seq<Seq<u8>> {
        Seq::new(self.keys().len(), |i: int| self.keys()[i].key_bytes())
    }

    /// The keys of a well-formed table are pairwise distinct.
    pub proof fn lemma_distinct(&self)
        requires
            self.wf(),
        ensures
            self.idents().no_duplicates(),
    {
        let ids = self.idents();
        assert forall|i: int, j: int| 0 <= i < ids.len() && 0 <= j < ids.len() && i != j implies ids[i]
            != ids[j] by {
            if ids[i] == ids[j] {
                let n = self.slots().len();
                assert(self.slots()[slot_of(self.keys()[i].key_bytes(), self.seed(), n)] == i);
                assert(self.slots()[slot_of(self.keys()[j].key_bytes(), self.seed(), n)] == j);
            }
        }
    }

    /// Checks a candidate layout and adopts it if it is a perfect hash of
    /// `keys`. This is the only way to make a table.
    pub fn new(seed: u64, slots: Vec<usize>, keys: Vec<T>) -> (r: Option<KeyTable<T>>)
        ensures
            r.is_some() == perfect(seed, slots@, keys@),
            r.is_some() ==> {
                &&& r.unwrap().wf()
                &&& r.unwrap().keys() == keys@
                &&& r.unwrap().seed() == seed
                &&& r.unwrap().slots() == slots@
            },
    {
        if keys.len() > 0 && slots.len() == 0 {
            return None;
        }
        let mut i: usize = 0;
        while i < keys.len()
            invariant
                i <= keys@.len(),
                keys@.len() > 0 ==> slots@.len() > 0,
                forall|k: int|
                    0 <= k < i ==> #[trigger] slots@[slot_of(
                        keys@[k].key_bytes(),
                        seed,
                        slots@.len(),
                    )] == k,
            decreases keys@.len() - i,
        {
            let slot = Self::slot_index(&keys[i], seed, slots.len());
            if slots[slot] != i {
                return None;
            }
            i += 1;
        }
        Some(KeyTable { seed, slots, keys })
    }

    /// The slot that `probe` hashes to in a table of `n_slots` slots.
    pub fn slot_index<U: PhfHash + ?Sized>(probe: &U, seed: u64, n_slots: usize) -> (slot: usize)
        requires
            n_slots > 0,
        ensures
            slot == slot_of(probe.key_bytes(), seed, n_slots as nat),
            slot < n_slots,
    {
        let h: u64 = probe.phf_hash(seed);
        (h % (n_slots as u64)) as usize
    }

    /// The position of the stored key with byte image `ident`, if any.
    pub open spec fn position(&self, ident: Seq<u8>) -> Option<int> {
        if self.idents().contains(ident) {
            Some(self.idents().index_of(ident))
        } else {
            None
        }
    }

    /// In a well-formed table a key's position is where its byte image stands.
    pub proof fn lemma_position(&self, i: int)
        requires
            self.wf(),
            0 <= i < self.keys().len(),
        ensures
            self.position(self.idents()[i]) == Some(i),
    {
        self.lemma_distinct();
        let ids = self.idents();
        assert(ids.contains(ids[i]));
        let j = ids.index_of(ids[i]);
        assert(0 <= j < ids.len() && ids[j] == ids[i]);
    }

    /// The position of the stored key that `probe` denotes, if any.
    pub fn get_index<U: PhfEquiv<T> + ?Sized>(&self, probe: &U) -> (r: Option<usize>)
        requires
            self.wf(),
        ensures
            r.is_some() == self.position(probe.key_bytes()).is_some(),
            r.is_some() ==> self.position(probe.key_bytes()) == Some(r.unwrap() as int),
            r.is_some() ==> r.unwrap() < self.keys().len(),
    {
        if self.slots.len() == 0 {
            return None;
        }
        let slot = Self::slot_index(probe, self.seed, self.slots.len());
        let idx: usize = self.slots[slot];
        if idx < self.keys.len() && probe.equiv(&self.keys[idx]) {
            proof {
                assert(self.idents()[idx as int] == probe.key_bytes());
                self.lemma_position(idx as int);
            }
            Some(idx)
        } else {
            proof {
                let ids = self.idents();
                if ids.contains(probe.key_bytes()) {
                    let j = choose|j: int| 0 <= j < ids.len() && ids[j] == probe.key_bytes();
                    assert(self.slots()[slot_of(
                        self.keys()[j].key_bytes(),
                        self.seed(),
                        self.slots().len(),
                    )] == j);
                    assert(false);
                }
            }
            None
        }
    }

    /// The stored key that `probe` denotes, if any.
    pub fn get_key<U: PhfEquiv<T> + ?Sized>(&self, probe: &U) -> (r: Option<&T>)
        requires
            self.wf(),
        ensures
            r == (match self.position(probe.key_bytes()) {
                Some(i) => Some(&self.keys()[i]),
                None => None,
            }),
    {
        match self.get_index(probe) {
            Some(i) => self.key_at(i),
            None => None,
        }
    }

    /// Whether a stored key is the one that `probe` denotes.
    pub fn contains_key<U: PhfEquiv<T> + ?Sized>(&self, probe: &U) -> (b: bool)
        requires
            self.wf(),
        ensures
            b == self.idents().contains(probe.key_bytes()),
    {
        self.get_index(probe).is_some()
    }
}

/// A cursor over a run of a table's keys that can be stepped from either
/// end and read at any position.
pub struct Keys<'a, T> {
    table: &'a KeyTable<T>,
    front: usize,
    back: usize,
}

impl<'a, T> Keys<'a, T> {
    /// The cursor's invariant: its two ends lie inside the table, in order.
    pub closed spec fn wf(&self) -> bool {
        self.front <= self.back <= self.table.keys().len()
    }

    /// The keys not yet handed out, in definition order.
    pub closed spec fn remaining(&self) -> Seq<T> {
        self.table.keys().subrange(self.front as int, self.back as int)
    }

    /// Number of keys not yet handed out.
    pub fn len(&self) -> (n: usize)
        requires
            self.wf(),
        ensures
            n == self.remaining().len(),
    {
        self.back - self.front
    }

    /// Hands out the first remaining key.
    pub fn next(&mut self) -> (r: Option<&'a T>)
        requires
            old(self).wf(),
        ensures
            final(self).wf(),
            old(self).remaining().len() == 0 ==> r.is_none() && final(self).remaining() == old(
                self,
            ).remaining(),
            old(self).remaining().len() > 0 ==> r == Some(&old(self).remaining().first())
                && final(self).remaining() == old(self).remaining().drop_first(),
    {
        if self.front < self.back {
            let table: &'a KeyTable<T> = self.table;
            let r = table.key_at(self.front);
            proof {
                assert(old(self).remaining().drop_first() =~= table.keys().subrange(
                    self.front + 1,
                    self.back as int,
                ));
            }
            self.front = self.front + 1;
            r
        } else {
            None
        }
    }

    /// Hands out the last remaining key.
    pub fn next_back(&mut self) -> (r: Option<&'a T>)
        requires
            old(self).wf(),
        ensures
            final(self).wf(),
            old(self).remaining().len() == 0 ==> r.is_none() && final(self).remaining() == old(
                self,
            ).remaining(),
            old(self).remaining().len() > 0 ==> r == Some(&old(self).remaining().last())
                && final(self).remaining() == old(self).remaining().drop_last(),
    {
        if self.front < self.back {
            let table: &'a KeyTable<T> = self.table;
            let r = table.key_at(self.back - 1);
            proof {
                assert(old(self).remaining().drop_last() =~= table.keys().subrange(
                    self.front as int,
                    self.back - 1,
                ));
            }
            self.back = self.back - 1;
            r
        } else {
            None
        }
    }

    /// Steps through all remaining keys and says how many there were.
    pub fn count(self) -> (n: usize)
        requires
            self.wf(),
        ensures
            n == self.remaining().len(),
    {
        let mut cursor = self;
        let mut n: usize = 0;
        loop
            invariant
                cursor.wf(),
                self.remaining().len() <= usize::MAX,
                n + cursor.remaining().len() == self.remaining().len(),
            decreases cursor.remaining().len(),
        {
            match cursor.next() {
                None => {
                    return n;
                },
                Some(_) => {
                    n = n + 1;
                },
            }
        }
    }

    /// The remaining key at `index`, counted from the front, if there is one.
    pub fn idx(&self, index: usize) -> (r: Option<&'a T>)
        requires
            self.wf(),
        ensures
            r == (if index < self.remaining().len() {
                Some(&self.remaining()[index as int])
            } else {
                None
            }),
    {
        if index < self.back - self.front {
            let table: &'a KeyTable<T> = self.table;
            table.key_at(self.front + index)
        } else {
            None
        }
    }
}

} // verus!
