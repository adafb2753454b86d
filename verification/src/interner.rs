//! An interner assigning stable 16-bit ids to edge conditions, so that many
//! edges sharing a predicate share its storage.

use vstd::prelude::*;

verus! {

/// Operations an edge condition must support so that interning can be
/// reasoned about: a decidable equality and a faithful clone.
pub trait Condition: Sized {
    /// Structural equality of two conditions.
    fn eq_cond(&self, other: &Self) -> (r: bool)
        ensures
            r == (self == other),
    ;

    /// An identical copy of the condition.
    fn clone_cond(&self) -> (r: Self)
        ensures
            r == *self,
    ;
}

/// A stable 16-bit id handed out by an [`Interner`].
pub struct Interned<E> {
    idx: u16,
    _marker: core::marker::PhantomData<E>,
}

impl<E> Interned<E> {
    /// The raw id as a spec value.
    pub closed spec fn spec_raw(self) -> u16 {
        self.idx
    }

    /// Build an id from its raw 16-bit value.
    pub fn from_raw(idx: u16) -> (r: Self)
        ensures
            r.spec_raw() == idx,
    {
        Interned { idx, _marker: core::marker::PhantomData }
    }

    /// The raw 16-bit value of the id.
    pub fn into_raw(self) -> (r: u16)
        ensures
            r == self.spec_raw(),
    {
        self.idx
    }
}

impl<E> Clone for Interned<E> {
    fn clone(&self) -> (r: Self)
        ensures
            r == *self,
    {
        Interned { idx: self.idx, _marker: core::marker::PhantomData }
    }
}

impl<E> Copy for Interned<E> {

}

/// Deduplicated storage of conditions behind stable 16-bit ids: the id of a
/// condition is its position in the store.
pub struct Interner<E> {
    store: Vec<E>,
}

impl<E: Condition> Interner<E> {
    /// The stored conditions, in id order.
    pub closed spec fn spec_store(self) -> Seq<E> {
        self.store@
    }

    /// Well-formed: no condition is stored twice, and every position fits in
    /// a 16-bit id.
    pub open spec fn wf(self) -> bool {
        &&& self.spec_store().len() <= u16::MAX + 1
        &&& forall|i: int, j: int|
            0 <= i < j < self.spec_store().len()
                ==> self.spec_store()[i] != self.spec_store()[j]
    }

    /// An empty interner.
    pub fn new() -> (r: Self)
        ensures
            r.wf(),
            r.spec_store().len() == 0,
    {
        Interner { store: Vec::new() }
    }

    /// How many distinct conditions have been interned.
    pub fn len(&self) -> (r: usize)
        ensures
            r == self.spec_store().len(),
    {
        self.store.len()
    }

    /// Intern `e`: return the id of the stored condition equal to `e`,
    /// appending `e` when it is new. `None` only when the store is full and
    /// `e` is not in it.
    pub fn insert(&mut self, e: E) -> (r: Option<Interned<E>>)
        requires
            old(self).wf(),
        ensures
            final(self).wf(),
            match r {
                Some(id) => {
                    &&& id.spec_raw() < final(self).spec_store().len()
                    &&& final(self).spec_store()[id.spec_raw() as int] == e
                    &&& (exists|i: int|
                            0 <= i < old(self).spec_store().len()
                                && old(self).spec_store()[i] == e)
                        ==> final(self).spec_store() == old(self).spec_store()
                    &&& (forall|i: int|
                            0 <= i < old(self).spec_store().len()
                                ==> old(self).spec_store()[i] != e)
                        ==> final(self).spec_store() == old(self).spec_store().push(e)
                },
                None => {
                    &&& final(self).spec_store() == old(self).spec_store()
                    &&& old(self).spec_store().len() == u16::MAX + 1
                    &&& forall|i: int|
                        0 <= i < old(self).spec_store().len()
                            ==> old(self).spec_store()[i] != e
                },
            },
    {
        let mut i: usize = 0;
        while i < self.store.len()
            invariant
                self == old(self),
                old(self).wf(),
                i <= self.store@.len(),
                forall|j: int| 0 <= j < i ==> self.store@[j] != e,
            decreases self.store@.len() - i,
        {
            if self.store[i].eq_cond(&e) {
                return Some(Interned::from_raw(i as u16));
            }
            i += 1;
        }
        if self.store.len() == u16::MAX as usize + 1 {
            return None;
        }
        let idx = self.store.len() as u16;
        self.store.push(e);
        Some(Interned::from_raw(idx))
    }

    /// The condition stored under `id`.
    pub fn get(&self, id: Interned<E>) -> (r: &E)
        requires
            id.spec_raw() < self.spec_store().len(),
        ensures
            *r == self.spec_store()[id.spec_raw() as int],
    {
        &self.store[id.into_raw() as usize]
    }

    /// An interner holding identical copies of the same conditions, under
    /// the same ids.
    pub fn duplicate(&self) -> (r: Interner<E>)
        ensures
            r.spec_store() == self.spec_store(),
    {
        let mut store: Vec<E> = Vec::new();
        let mut i: usize = 0;
        while i < self.store.len()
            invariant
                i <= self.store@.len(),
                store@.len() == i,
                forall|j: int| 0 <= j < i ==> store@[j] == self.store@[j],
            decreases self.store@.len() - i,
        {
            store.push(self.store[i].clone_cond());
            i += 1;
        }
        proof {
            assert(store@ =~= self.store@);
        }
        Interner { store }
    }

    /// Two positions holding equal conditions are the same position: an
    /// interned condition has exactly one id.
    pub proof fn lemma_injective_up_to_equality(self, i: int, j: int)
        requires
            self.wf(),
            0 <= i < self.spec_store().len(),
            0 <= j < self.spec_store().len(),
            self.spec_store()[i] == self.spec_store()[j],
        ensures
            i == j,
    {
    }
}

} // verus!
