use vstd::prelude::*;

use crate::try_alloc::hash::hasher::{HashKey, KeyHasher};
use crate::try_alloc::hash::map::HashMap;
use crate::try_alloc::hash::seed::SeedSupplier;
use crate::try_alloc::AllocError;

verus! {

/// A hash set: the keys of a [`HashMap`] whose values are `()`.
pub struct HashSet<V, H, S>(HashMap<V, (), H, S>);

impl<V: HashKey, H: KeyHasher, S: SeedSupplier> HashSet<V, H, S> {
    /// The values held.
    pub closed spec fn view(&self) -> Set<V> {
        self.0@.dom()
    }

    pub closed spec fn wf(&self) -> bool {
        self.0.wf()
    }

    /// The number of slots of the table.
    pub closed spec fn spec_capacity(&self) -> nat {
        self.0.spec_capacity()
    }

    /// The entry count kept for the load factor.
    pub closed spec fn spec_len(&self) -> usize {
        self.0.spec_len()
    }

    /// An empty set with no slots.
    pub fn new(key_hasher: H, seed_supplier: S) -> (s: Self)
        ensures
            s.wf(),
            s@ == Set::<V>::empty(),
            s.spec_capacity() == 0,
            s.spec_len() == 0,
    {
        let s = HashSet(HashMap::new(key_hasher, seed_supplier));
        proof {
            assert(s@ =~= Set::<V>::empty());
        }
        s
    }

    /// Gives the table `target` slots when it has fewer; a set from `new`
    /// has no slots and needs this before its first `insert`.
    pub fn reserve(&mut self, target: usize) -> (r: Result<(), AllocError>)
        requires
            old(self).wf(),
            old(self).spec_len() + old(self).spec_capacity() <= usize::MAX,
        ensures
            final(self).wf(),
            final(self)@ == old(self)@,
            r is Err ==> *final(self) == *old(self),
            old(self).spec_capacity() >= target ==> r is Ok && *final(self) == *old(self),
            r is Ok && old(self).spec_capacity() < target ==> final(self).spec_capacity() == target
                && final(self).spec_len() <= old(self).spec_len() + old(self).spec_capacity(),
    {
        self.0.reserve(target)
    }

    /// Adds `v`. A table without slots cannot take a value.
    pub fn insert(&mut self, v: V) -> (r: Result<(), AllocError>)
        requires
            old(self).wf(),
            old(self).spec_capacity() > 0,
            old(self).spec_capacity() * 2 <= usize::MAX,
            old(self).spec_len() + 2 * old(self).spec_capacity() + 1 <= usize::MAX,
        ensures
            final(self).wf(),
            r is Ok ==> final(self)@ == old(self)@.insert(v),
            r is Err ==> final(self)@ == old(self)@,
            final(self).spec_capacity() >= old(self).spec_capacity(),
            old(self).spec_len() + 1 <= crate::try_alloc::hash::map::load_limit(old(self).spec_capacity() as int)
                ==> r is Ok,
    {
        match self.0.insert(v, ()) {
            Ok(_) => {
                proof {
                    assert(self@ =~= old(self)@.insert(v));
                }
                Ok(())
            },
            Err(e) => Err(e),
        }
    }

    /// Whether `v` is held.
    pub fn contains(&self, v: &V) -> (r: bool)
        requires
            self.wf(),
        ensures
            r == self@.contains(*v),
    {
        self.0.get(v).is_some()
    }

    /// Removes `v`; returns whether it was held.
    pub fn remove(&mut self, v: &V) -> (r: bool)
        requires
            old(self).wf(),
        ensures
            final(self).wf(),
            final(self)@ == old(self)@.remove(*v),
            r == old(self)@.contains(*v),
            final(self).spec_capacity() == old(self).spec_capacity(),
    {
        let r = self.0.remove(v).is_some();
        proof {
            assert(self@ =~= old(self)@.remove(*v));
        }
        r
    }
}

} // verus!
