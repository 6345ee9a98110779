//! Entry API: a handle on one index of a set, present or absent.
use vstd::prelude::*;

use crate::index::{IndexKey, IndexStore};

verus! {

/// The entry of an index in a set.
pub enum Entry<'a, I, S> {
    /// The index is in the set.
    Occupied(OccupiedEntry<'a, I, S>),
    /// The index is not in the set.
    Vacant(VacantEntry<'a, I, S>),
}

/// The entry of an index present in a set.
pub struct OccupiedEntry<'a, I, S> {
    /// The index.
    pub index: I,
    /// The store of the set.
    pub store: &'a mut S,
}

/// The entry of an index absent from a set.
pub struct VacantEntry<'a, I, S> {
    /// The index.
    pub index: I,
    /// The store of the set.
    pub store: &'a mut S,
}

impl<'a, I: IndexKey, S: IndexStore<Index = I>> Entry<'a, I, S> {
    /// The index of the entry.
    pub open spec fn spec_index(&self) -> I {
        match self {
            Entry::Occupied(e) => e.index,
            Entry::Vacant(e) => e.index,
        }
    }

    /// Returns the index of the entry.
    pub fn get(&self) -> (r: I)
        ensures
            r == self.spec_index(),
    {
        match self {
            Entry::Occupied(e) => e.get(),
            Entry::Vacant(e) => e.get(),
        }
    }

    /// Makes the index present, and returns the occupied entry; on error the set is unchanged.
    pub fn insert(self) -> (r: Result<OccupiedEntry<'a, I, S>, S::InsertionError>)
        requires
            match self {
                Entry::Occupied(e) => e.store.wf() && e.store.contents().contains(e.index),
                Entry::Vacant(e) => e.store.wf() && S::admits(e.index),
            },
        ensures
            match self {
                Entry::Occupied(e) => r matches Ok(o) && o.index == e.index && *o.store == *e.store
                    && *final(e.store) == *final(o.store),
                Entry::Vacant(e) => {
                    &&& S::infallible() ==> r is Ok
                    &&& match r {
                        Ok(o) => {
                            &&& o.index == e.index
                            &&& o.store.wf()
                            &&& o.store.contents() == e.store.contents().insert(e.index)
                            &&& *final(e.store) == *final(o.store)
                        },
                        Err(_) => {
                            &&& final(e.store).wf()
                            &&& final(e.store).contents() == e.store.contents()
                        },
                    }
                },
            },
    {
        match self {
            Entry::Occupied(e) => Ok(e),
            Entry::Vacant(e) => {
                let index = e.index;
                let store = e.store;
                match store.insert(index) {
                    Ok(_) => Ok(OccupiedEntry { index, store }),
                    Err(error) => Err(error),
                }
            },
        }
    }

    /// Makes the index present, if it is not already; on error the set is unchanged.
    pub fn or_insert(self) -> (r: Result<(), S::InsertionError>)
        requires
            match self {
                Entry::Occupied(e) => e.store.wf() && e.store.contents().contains(e.index),
                Entry::Vacant(e) => e.store.wf() && S::admits(e.index),
            },
        ensures
            match self {
                Entry::Occupied(e) => r is Ok && *final(e.store) == *e.store,
                Entry::Vacant(e) => {
                    &&& S::infallible() ==> r is Ok
                    &&& final(e.store).wf()
                    &&& final(e.store).contents() == match r {
                        Ok(_) => e.store.contents().insert(e.index),
                        Err(_) => e.store.contents(),
                    }
                },
            },
    {
        match self {
            Entry::Occupied(_) => Ok(()),
            Entry::Vacant(e) => e.insert(),
        }
    }
}

impl<'a, I: IndexKey, S: IndexStore<Index = I>> OccupiedEntry<'a, I, S> {
    /// Returns the index.
    pub fn get(&self) -> (r: I)
        ensures
            r == self.index,
    {
        self.index
    }

    /// Removes the index from the set, and returns it.
    pub fn remove(self) -> (r: I)
        requires
            self.store.wf(),
        ensures
            r == self.index,
            final(self.store).wf(),
            final(self.store).contents() == old(self.store).contents().remove(self.index),
    {
        let index = self.index;
        let store = self.store;
        store.remove(index);
        index
    }
}

impl<'a, I: IndexKey, S: IndexStore<Index = I>> VacantEntry<'a, I, S> {
    /// Returns the index.
    pub fn get(&self) -> (r: I)
        ensures
            r == self.index,
    {
        self.index
    }

    /// Returns the index, giving up the entry.
    pub fn into_value(self) -> (r: I)
        ensures
            r == self.index,
    {
        self.index
    }

    /// Inserts the index in the set; on error the set is unchanged.
    pub fn insert(self) -> (r: Result<(), S::InsertionError>)
        requires
            self.store.wf(),
            S::admits(self.index),
        ensures
            S::infallible() ==> r is Ok,
            final(self.store).wf(),
            final(self.store).contents() == match r {
                Ok(_) => old(self.store).contents().insert(self.index),
                Err(_) => old(self.store).contents(),
            },
    {
        let index = self.index;
        let store = self.store;
        match store.insert(index) {
            Ok(_) => Ok(()),
            Err(error) => Err(error),
        }
    }
}

} // verus!
