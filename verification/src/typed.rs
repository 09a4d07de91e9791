//! The arena's operations for typed handles: each unwraps the raw handle
//! and works on it.

use crate::arena::Arena;
use crate::handle::unwraps_to;
use crate::handle::wraps_to;
use crate::handle::GenIndex;
use crate::handle::Id;
use vstd::prelude::*;

verus! {

impl<T, I: GenIndex<Item = T>> vstd::std_specs::core::IndexSpecImpl<I> for Arena<T> {
    /// Indexing is for a typed handle that wraps a handle that resolves.
    open spec fn index_req(&self, index: &I) -> bool {
        forall|raw: Id| #[trigger] unwraps_to(*index, raw) ==> self@.get(raw@) is Some
    }
}

impl<T, I: GenIndex<Item = T>> core::ops::Index<I> for Arena<T> {
    type Output = T;

    /// The value that the handle wrapped by `index` resolves to.
    fn index(&self, index: I) -> (item: &T)
        ensures
            exists|raw: Id| #[trigger] unwraps_to(index, raw) && self@.get(raw@) == Some(*item),
    {
        let raw = index.get_id();
        assert(unwraps_to(index, raw));
        match self.get_raw(raw) {
            Some(item) => item,
            None => unreached(),
        }
    }
}

impl<T> Arena<T> {
    /// Stores `t` and returns the new occupant's handle, wrapped.
    pub fn insert<I: GenIndex<Item = T>>(&mut self, t: T) -> (id: I)
        requires
            old(self).wf(),
            old(self)@.len() < u32::MAX,
        ensures
            final(self).wf(),
            final(self)@ == old(self)@.insert(t),
            final(self)@.len() == old(self)@.len() + 1,
            exists|raw: Id| raw@ == old(self)@.next_handle() && #[trigger] wraps_to(raw, id),
    {
        let raw = self.insert_raw(t);
        let id = I::from(raw);
        assert(wraps_to(raw, id));
        id
    }

    /// Removes the value that the handle wrapped by `id` resolves to and
    /// returns it.
    pub fn remove<I: GenIndex<Item = T>>(&mut self, id: I) -> (removed: Option<T>)
        requires
            old(self).wf(),
            forall|raw: Id|
                #[trigger] unwraps_to(id, raw) && old(self)@.get(raw@) is Some ==> raw@.generation
                    < u32::MAX,
        ensures
            final(self).wf(),
            exists|raw: Id|
                #[trigger] unwraps_to(id, raw) && removed == old(self)@.get(raw@) && final(self)@
                    == old(self)@.remove(raw@),
    {
        let raw = id.get_id();
        assert(unwraps_to(id, raw));
        self.remove_raw(raw)
    }

    /// Whether the handle wrapped by `id` names an existing slot at its
    /// current generation.
    pub fn contains<I: GenIndex<Item = T>>(&self, id: I) -> (b: bool)
        ensures
            exists|raw: Id| #[trigger] unwraps_to(id, raw) && b == self@.valid(raw@),
    {
        let raw = id.get_id();
        assert(unwraps_to(id, raw));
        self.exists_raw(raw)
    }

    /// The value that the handle wrapped by `id` resolves to.
    pub fn get<I: GenIndex<Item = T>>(&self, id: I) -> (found: Option<&T>)
        ensures
            exists|raw: Id|
                #[trigger] unwraps_to(id, raw) && found == match self@.get(raw@) {
                    Some(v) => Some(&v),
                    None => None,
                },
    {
        let raw = id.get_id();
        assert(unwraps_to(id, raw));
        self.get_raw(raw)
    }

    /// The value that the handle wrapped by `id` resolves to, for writing.
    pub fn get_mut<I: GenIndex<Item = T>>(&mut self, id: I) -> (found: Option<&mut T>)
        requires
            old(self).wf(),
        ensures
            final(self).wf(),
            exists|raw: Id|
                #[trigger] unwraps_to(id, raw) && match found {
                    Some(item) => old(self)@.get(raw@) == Some(*item) && final(self)@ == old(self)@.replace(
                        raw@,
                        *final(item),
                    ),
                    None => old(self)@.get(raw@) is None && final(self)@ == old(self)@,
                },
    {
        let raw = id.get_id();
        assert(unwraps_to(id, raw));
        self.get_mut_raw(raw)
    }

    /// The value that the handle wrapped by `id` resolves to, for writing,
    /// for a typed handle that wraps a handle that resolves.
    pub fn index_mut_typed<I: GenIndex<Item = T>>(&mut self, id: I) -> (item: &mut T)
        requires
            old(self).wf(),
            forall|raw: Id| #[trigger] unwraps_to(id, raw) ==> old(self)@.get(raw@) is Some,
        ensures
            final(self).wf(),
            exists|raw: Id|
                #[trigger] unwraps_to(id, raw) && old(self)@.get(raw@) == Some(*item) && final(self)@
                    == old(self)@.replace(raw@, *final(item)),
    {
        let raw = id.get_id();
        assert(unwraps_to(id, raw));
        self.index_mut(raw)
    }
}

} // verus!
