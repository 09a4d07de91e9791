//! Handles: the raw `(index, generation)` pair and the typed-handle trait.

use vstd::prelude::*;

verus! {

/// A handle as a pair of natural numbers.
pub struct Handle {
    pub index: nat,
    pub generation: nat,
}

/// Identifies one occupant of one slot: the slot's position and the value
/// of the slot's generation counter at the time the occupant was inserted.
#[derive(Copy, Clone, Debug, PartialEq, Eq, Hash, Structural)]
pub struct Id {
    pub(crate) index: u32,
    pub(crate) generation: u32,
}

impl View for Id {
    type V = Handle;

    open(crate) spec fn view(&self) -> Handle {
        Handle { index: self.index as nat, generation: self.generation as nat }
    }
}

impl Id {
    /// The position of the slot this handle refers to.
    pub fn index(self) -> (index: u32)
        ensures
            index == self@.index,
    {
        self.index
    }

    /// The generation of the slot at the time this handle was issued.
    pub fn generation(self) -> (generation: u32)
        ensures
            generation == self@.generation,
    {
        self.generation
    }

    /// Two handles with the same index and generation are the same handle,
    /// and both numbers fit 32 bits.
    pub proof fn lemma_view(self, other: Id)
        ensures
            self@.index <= u32::MAX,
            self@.generation <= u32::MAX,
            self@ == other@ <==> self == other,
    {
    }
}

/// A typed handle: a type that wraps an [`Id`] and hands it back on demand.
///
/// An implementation is expected to wrap without loss: see [`round_trips`].
pub trait GenIndex: From<Id> + Sized {
    /// The type of the values that handles of this kind refer to.
    type Item;

    /// Returns the raw handle that `self` wraps.
    fn get_id(&self) -> Id;
}

/// `raw` is what `typed.get_id()` returns.
pub open spec fn unwraps_to<I: GenIndex>(typed: I, raw: Id) -> bool {
    call_ensures(I::get_id, (&typed,), raw)
}

/// `typed` is what wrapping `raw` gives.
pub open spec fn wraps_to<I: GenIndex>(raw: Id, typed: I) -> bool {
    call_ensures(<I as From<Id>>::from, (raw,), typed)
}

/// Handles of type `I` wrap without loss: wrapping a raw handle and
/// unwrapping the result gives the raw handle back.
pub open spec fn round_trips<I: GenIndex>() -> bool {
    forall|raw: Id, typed: I, back: Id|
        #[trigger] wraps_to(raw, typed) && #[trigger] unwraps_to(typed, back) ==> back == raw
}

} // verus!
