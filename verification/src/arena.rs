//! The arena: slot storage with a free list threaded through the vacant
//! slots.

use crate::handle::Id;
use crate::iter::IntoIter;
use crate::iter::Iter;
use crate::iter::IterMut;
use crate::model::ArenaModel;
use crate::model::SlotModel;
use vstd::prelude::*;

verus! {

/// What a slot holds: a value, or the link to the next vacant slot.
#[derive(Clone, Debug)]
pub(crate) enum Entry<T> {
    Present(T),
    Free { next_free: u32 },
}

/// One unit of storage.
#[derive(Clone, Debug)]
pub struct Slot<T> {
    pub(crate) generation: u32,
    pub(crate) entry: Entry<T>,
}

impl<T> Entry<T> {
    /// The value held, if any.
    pub(crate) open spec fn value(self) -> Option<T> {
        match self {
            Entry::Present(t) => Some(t),
            Entry::Free { .. } => None,
        }
    }

    /// The link held by a vacant entry.
    pub(crate) open spec fn link(self) -> u32 {
        match self {
            Entry::Present(_) => 0,
            Entry::Free { next_free } => next_free,
        }
    }

    /// Vacates the entry, leaving a link to `next_free`, and returns the
    /// value it held.
    pub(crate) fn take(&mut self, next_free: u32) -> (held: Option<T>)
        ensures
            held == old(self).value(),
            *final(self) == (Entry::<T>::Free { next_free }),
    {
        let mut previous = Entry::Free { next_free };
        core::mem::swap(self, &mut previous);
        match previous {
            Entry::Present(t) => Some(t),
            Entry::Free { .. } => None,
        }
    }
}

impl<T> Slot<T> {
    pub(crate) open spec fn model(self) -> SlotModel<T> {
        SlotModel { generation: self.generation as nat, value: self.entry.value() }
    }
}

/// The models of `slots`, in order.
pub open(crate) spec fn slot_models<T>(slots: Seq<Slot<T>>) -> Seq<SlotModel<T>> {
    Seq::new(slots.len(), |i: int| slots[i].model())
}

/// `later` is `now` but for the values held: as many slots, each at the same
/// generation, the vacant ones with the same link, the occupied ones
/// occupied.
pub open(crate) spec fn keeps_shape<T>(now: Seq<Slot<T>>, later: Seq<Slot<T>>) -> bool {
    &&& later.len() == now.len()
    &&& forall|i: int|
        0 <= i < now.len() ==> (#[trigger] later[i]).generation == now[i].generation && match now[i].entry {
            Entry::Present(_) => later[i].entry is Present,
            Entry::Free { .. } => later[i].entry == now[i].entry,
        }
}

/// Slots keep their own shape.
pub proof fn lemma_keeps_shape_same<T>(slots: Seq<Slot<T>>)
    ensures
        keeps_shape(slots, slots),
{
}

/// Two runs of slots that keep their shape keep it when joined.
pub proof fn lemma_keeps_shape_joined<T>(
    now: Seq<Slot<T>>,
    later: Seq<Slot<T>>,
    more_now: Seq<Slot<T>>,
    more_later: Seq<Slot<T>>,
)
    requires
        keeps_shape(now, later),
        keeps_shape(more_now, more_later),
    ensures
        keeps_shape(now + more_now, later + more_later),
{
    let a = now + more_now;
    let b = later + more_later;
    assert forall|i: int| 0 <= i < a.len() implies (#[trigger] b[i]).generation == a[i].generation
        && match a[i].entry {
        Entry::Present(_) => b[i].entry is Present,
        Entry::Free { .. } => b[i].entry == a[i].entry,
    } by {
        if i < now.len() {
            assert(b[i] == later[i]);
        } else {
            assert(b[i] == more_later[i - now.len()]);
        }
    }
}

/// The `count` slots reached from `head` by following the links.
pub(crate) open spec fn chain<T>(slots: Seq<Slot<T>>, head: u32, count: nat) -> Seq<nat>
    decreases count,
{
    if count == 0 {
        Seq::empty()
    } else {
        seq![head as nat] + chain(slots, slots[head as int].entry.link(), (count - 1) as nat)
    }
}

/// A chain is as long as the number of links followed.
pub(crate) proof fn lemma_chain_len<T>(slots: Seq<Slot<T>>, head: u32, count: nat)
    ensures
        chain(slots, head, count).len() == count,
    decreases count,
{
    if count > 0 {
        lemma_chain_len(slots, slots[head as int].entry.link(), (count - 1) as nat);
    }
}

/// A chain does not depend on the slots that it does not pass through.
pub(crate) proof fn lemma_chain_frame<T>(
    before: Seq<Slot<T>>,
    after: Seq<Slot<T>>,
    head: u32,
    count: nat,
)
    requires
        forall|k: int|
            0 <= k < chain(before, head, count).len() ==> {
                let i = #[trigger] chain(before, head, count)[k] as int;
                0 <= i < before.len() && i < after.len() && after[i].entry.link()
                    == before[i].entry.link()
            },
    ensures
        chain(after, head, count) == chain(before, head, count),
    decreases count,
{
    if count > 0 {
        let whole = chain(before, head, count);
        let next = before[head as int].entry.link();
        let tail = chain(before, next, (count - 1) as nat);
        assert(whole[0] == head as nat);
        assert forall|k: int| 0 <= k < tail.len() implies {
            let i = #[trigger] tail[k] as int;
            0 <= i < before.len() && i < after.len() && after[i].entry.link()
                == before[i].entry.link()
        } by {
            assert(whole[k + 1] == tail[k]);
        }
        lemma_chain_frame(before, after, next, (count - 1) as nat);
    }
}

/// Where slots keep their shape, the arena made of them stays what it was
/// but for the values held, and stays well formed.
pub(crate) proof fn lemma_only_values_rewritten<T>(
    before: Seq<Slot<T>>,
    after: Seq<Slot<T>>,
    head: u32,
    count: nat,
)
    requires
        (ArenaModel { slots: slot_models(before), free: chain(before, head, count) }).wf(),
    ensures
        keeps_shape(before, after) ==> {
            let m = ArenaModel { slots: slot_models(before), free: chain(before, head, count) };
            let n = ArenaModel { slots: slot_models(after), free: chain(after, head, count) };
            m.same_but_values(n) && n.wf()
        },
{
    if keeps_shape(before, after) {
        let m = ArenaModel { slots: slot_models(before), free: chain(before, head, count) };
        assert forall|k: int| 0 <= k < m.free.len() implies {
            let i = #[trigger] m.free[k] as int;
            0 <= i < before.len() && i < after.len() && after[i].entry.link()
                == before[i].entry.link()
        } by {
            assert(m.vacant(m.free[k] as int));
        }
        lemma_chain_frame(before, after, head, count);
        let n = ArenaModel { slots: slot_models(after), free: chain(after, head, count) };
        assert(m.same_but_values(n));
        m.lemma_same_but_values(n);
    }
}

/// A growable store of values of type `T`, each reached through the handle
/// that its insertion returned.
#[derive(Debug)]
pub struct Arena<T> {
    slots: Vec<Slot<T>>,
    first_free: u32,
    free_count: u32,
}

impl<T> View for Arena<T> {
    type V = ArenaModel<T>;

    closed spec fn view(&self) -> ArenaModel<T> {
        ArenaModel {
            slots: slot_models(self.slots@),
            free: chain(self.slots@, self.first_free, self.free_count as nat),
        }
    }
}

impl<T> vstd::std_specs::core::IndexSpecImpl<Id> for Arena<T> {
    /// Indexing is for a handle that resolves.
    open spec fn index_req(&self, index: &Id) -> bool {
        self@.get(index@) is Some
    }
}

impl<T> core::ops::Index<Id> for Arena<T> {
    type Output = T;

    /// The value that `index` resolves to.
    fn index(&self, index: Id) -> (item: &T)
        ensures
            self@.get(index@) == Some(*item),
    {
        match self.get_raw(index) {
            Some(item) => item,
            None => unreached(),
        }
    }
}

/// `copy` is `slots` with every value replaced by a clone of it.
pub(crate) open spec fn clones_of<T: Clone>(slots: Seq<Slot<T>>, copy: Seq<Slot<T>>) -> bool {
    &&& copy.len() == slots.len()
    &&& forall|i: int|
        0 <= i < slots.len() ==> (#[trigger] copy[i]).generation == slots[i].generation && match (
            slots[i].entry,
            copy[i].entry,
        ) {
            (Entry::Present(a), Entry::Present(b)) => cloned::<T>(a, b),
            (Entry::Free { next_free: a }, Entry::Free { next_free: b }) => a == b,
            _ => false,
        }
}

impl<T: Clone> Clone for Arena<T> {
    /// A second arena with the same slots at the same generations and the
    /// same free list, each value a clone of the value in the same slot.
    fn clone(&self) -> (copy: Self)
        ensures
            copy@.slots.len() == self@.slots.len(),
            forall|i: int|
                0 <= i < self@.slots.len() ==> (#[trigger] copy@.slots[i]).generation
                    == self@.slots[i].generation && match (
                    self@.slots[i].value,
                    copy@.slots[i].value,
                ) {
                    (Some(a), Some(b)) => cloned::<T>(a, b),
                    (None, None) => true,
                    _ => false,
                },
            self.wf() ==> copy.wf() && copy@.free == self@.free,
    {
        let mut slots: Vec<Slot<T>> = Vec::with_capacity(self.slots.len());
        let mut i: usize = 0;
        while i < self.slots.len()
            invariant
                i <= self.slots@.len(),
                clones_of(self.slots@.take(i as int), slots@),
            decreases self.slots@.len() - i,
        {
            let slot = &self.slots[i];
            let entry = match &slot.entry {
                Entry::Present(t) => Entry::Present(t.clone()),
                Entry::Free { next_free } => Entry::Free { next_free: *next_free },
            };
            slots.push(Slot { generation: slot.generation, entry });
            i += 1;
        }
        let copy = Arena { slots, first_free: self.first_free, free_count: self.free_count };
        proof {
            assert(self.slots@.take(i as int) =~= self.slots@);
            if self.wf() {
                assert forall|k: int| 0 <= k < self@.free.len() implies {
                    let j = #[trigger] self@.free[k] as int;
                    0 <= j < self.slots@.len() && j < copy.slots@.len()
                        && copy.slots@[j].entry.link() == self.slots@[j].entry.link()
                } by {
                    assert(self@.vacant(self@.free[k] as int));
                }
                lemma_chain_frame(
                    self.slots@,
                    copy.slots@,
                    self.first_free,
                    self.free_count as nat,
                );
                let m = self@;
                let c = copy@;
                assert forall|k: int| 0 <= k < c.free.len() implies c.vacant(
                    #[trigger] c.free[k] as int,
                ) by {
                    assert(m.vacant(m.free[k] as int));
                }
                assert forall|j: int| #[trigger] c.vacant(j) implies c.free.contains(j as nat) by {
                    assert(m.vacant(j));
                }
            }
        }
        copy
    }
}

impl<T> Default for Arena<T> {
    /// Makes an empty arena.
    fn default() -> (arena: Self)
        ensures
            arena.wf(),
            arena@ == ArenaModel::<T>::empty(),
            arena@.len() == 0,
    {
        Self::new()
    }
}

impl<T> Arena<T> {
    /// The free list holds exactly the vacant slots, each once, and the
    /// number of slots fits the index of a handle.
    pub open spec fn wf(&self) -> bool {
        &&& self@.slots.len() <= u32::MAX
        &&& self@.wf()
    }

    /// Makes an empty arena.
    pub fn new() -> (arena: Self)
        ensures
            arena.wf(),
            arena@ == ArenaModel::<T>::empty(),
            arena@.len() == 0,
    {
        Self::with_capacity(0)
    }

    /// Makes an empty arena with room for `capacity` slots.
    pub fn with_capacity(capacity: usize) -> (arena: Self)
        ensures
            arena.wf(),
            arena@ == ArenaModel::<T>::empty(),
            arena@.len() == 0,
    {
        let arena = Arena { slots: Vec::with_capacity(capacity), first_free: 0, free_count: 0 };
        assert(arena@.slots =~= Seq::empty());
        arena
    }

    /// Drops every value and every slot.
    pub fn clear(&mut self)
        ensures
            final(self).wf(),
            final(self)@ == ArenaModel::<T>::empty(),
            final(self)@.len() == 0,
    {
        self.slots.clear();
        self.free_count = 0;
        assert(self@.slots =~= Seq::empty());
    }

    /// The number of values held.
    pub fn len(&self) -> (n: usize)
        requires
            self.wf(),
        ensures
            n == self@.len(),
    {
        proof {
            self@.lemma_len();
            lemma_chain_len(self.slots@, self.first_free, self.free_count as nat);
        }
        let free_count = self.free_count as usize;
        self.slots.len() - free_count
    }

    /// Whether the arena holds no value.
    pub fn is_empty(&self) -> (b: bool)
        requires
            self.wf(),
        ensures
            b == (self@.len() == 0),
    {
        self.len() == 0
    }

    /// Whether `id` names an existing slot at its current generation.
    pub fn exists_raw(&self, id: Id) -> (b: bool)
        ensures
            b == self@.valid(id@),
    {
        let index = id.index as usize;
        if index >= self.slots.len() {
            return false;
        }
        let item = &self.slots[index];
        id.generation == item.generation
    }

    /// The value that `id` resolves to.
    pub fn get_raw(&self, id: Id) -> (found: Option<&T>)
        ensures
            found == match self@.get(id@) {
                Some(v) => Some(&v),
                None => None,
            },
    {
        let index = id.index as usize;
        if index >= self.slots.len() {
            return None;
        }
        let slot = &self.slots[index];
        if id.generation != slot.generation {
            return None;
        }
        match &slot.entry {
            Entry::Present(item) => Some(item),
            Entry::Free { .. } => None,
        }
    }

    /// Stores `t` in the slot at the head of the free list, or in a new slot
    /// if no slot is vacant, and returns the handle of the new occupant.
    pub fn insert_raw(&mut self, t: T) -> (id: Id)
        requires
            old(self).wf(),
            old(self)@.len() < u32::MAX,
        ensures
            final(self).wf(),
            id@ == old(self)@.next_handle(),
            final(self)@ == old(self)@.insert(t),
            final(self)@.len() == old(self)@.len() + 1,
    {
        proof {
            self@.lemma_len();
            self@.lemma_insert_len(t);
        }
        let id = self.free_index();
        let ghost reserved = self.slots@;
        self.slots[id.index as usize].entry = Entry::Present(t);
        proof {
            let rest = chain(reserved, self.first_free, self.free_count as nat);
            if old(self).free_count > 0 {
                assert(old(self)@.free.drop_first() =~= rest);
                assert forall|k: int| 0 <= k < rest.len() implies {
                    let i = #[trigger] rest[k] as int;
                    0 <= i < reserved.len() && i < self.slots@.len()
                        && self.slots@[i].entry.link() == reserved[i].entry.link()
                } by {
                    assert(old(self)@.free[k + 1] == rest[k]);
                    assert(old(self)@.vacant(old(self)@.free[k + 1] as int));
                }
            }
            lemma_chain_frame(reserved, self.slots@, self.first_free, self.free_count as nat);
            assert(self@.slots =~= old(self)@.insert(t).slots);
            assert(self@.free =~= old(self)@.insert(t).free);
            old(self)@.lemma_insert_wf(t);
        }
        id
    }

    /// Removes the value that `id` resolves to and returns it. The slot's
    /// generation advances by one, so that `id` resolves to nothing from now
    /// on, and the slot becomes the head of the free list. Where `id`
    /// resolves to nothing, nothing changes.
    pub fn remove_raw(&mut self, id: Id) -> (removed: Option<T>)
        requires
            old(self).wf(),
            old(self)@.get(id@) is Some ==> id@.generation < u32::MAX,
        ensures
            final(self).wf(),
            removed == old(self)@.get(id@),
            final(self)@ == old(self)@.remove(id@),
            final(self)@.len() == old(self)@.len() - if removed is Some {
                1int
            } else {
                0
            },
    {
        proof {
            self@.lemma_remove_len(id@);
        }
        if !self.exists_raw(id) {
            return None;
        }
        let index = id.index as usize;
        let ghost before = self.slots@;
        let first_free = self.first_free;
        if let Entry::Free { .. } = self.slots[index].entry {
            return None;
        }
        let item = &mut self.slots[index];
        item.generation += 1;
        let held = item.entry.take(first_free);
        self.first_free = id.index;
        proof {
            old(self)@.lemma_remove_wf(id@);
            old(self)@.remove(id@).lemma_len();
            lemma_chain_len(before, first_free, old(self).free_count as nat);
            assert(old(self)@.remove(id@).free.len() == old(self).free_count + 1);
            assert(old(self)@.remove(id@).slots.len() == before.len());
            assert forall|k: int| 0 <= k < old(self)@.free.len() implies {
                let i = #[trigger] old(self)@.free[k] as int;
                0 <= i < before.len() && i < self.slots@.len() && self.slots@[i].entry.link()
                    == before[i].entry.link()
            } by {
                assert(old(self)@.vacant(old(self)@.free[k] as int));
            }
            lemma_chain_frame(before, self.slots@, first_free, old(self).free_count as nat);
        }
        self.free_count += 1;
        proof {
            assert(self@.slots =~= old(self)@.remove(id@).slots);
            assert(self@.free =~= old(self)@.remove(id@).free);
        }
        held
    }

    /// The value that `id` resolves to, for writing. The arena afterwards
    /// is the arena before with that value replaced by what the caller
    /// leaves behind the reference.
    pub fn get_mut_raw(&mut self, id: Id) -> (found: Option<&mut T>)
        requires
            old(self).wf(),
        ensures
            final(self).wf(),
            match found {
                Some(item) => old(self)@.get(id@) == Some(*item) && final(self)@ == old(self)@.replace(
                    id@,
                    *final(item),
                ),
                None => old(self)@.get(id@) is None && final(self)@ == old(self)@,
            },
    {
        let index = id.index as usize;
        if index >= self.slots.len() {
            return None;
        }
        if id.generation != self.slots[index].generation {
            return None;
        }
        if let Entry::Free { .. } = self.slots[index].entry {
            return None;
        }
        let ghost before = self.slots@;
        let ghost head = self.first_free;
        let ghost count = self.free_count as nat;
        let slot = &mut self.slots[index];
        match &mut slot.entry {
            Entry::Present(item) => {
                proof {
                    let after = before.update(
                        index as int,
                        Slot { generation: id.generation, entry: Entry::Present(*final(item)) },
                    );
                    assert forall|k: int| 0 <= k < old(self)@.free.len() implies {
                        let i = #[trigger] old(self)@.free[k] as int;
                        0 <= i < before.len() && i < after.len() && after[i].entry.link()
                            == before[i].entry.link()
                    } by {
                        assert(old(self)@.vacant(old(self)@.free[k] as int));
                    }
                    lemma_chain_frame(before, after, head, count);
                    assert(slot_models(after) =~= old(self)@.replace(id@, *final(item)).slots);
                    old(self)@.lemma_replace_wf(id@, *final(item));
                }
                Some(item)
            },
            Entry::Free { .. } => None,
        }
    }

    /// The number of slots that must be reserved so that `additional`
    /// values can be inserted without growing the storage: the vacant slots
    /// are reused first.
    pub fn slots_to_reserve(&self, additional: usize) -> (amount: usize)
        ensures
            amount == if additional <= self@.free.len() {
                0
            } else {
                additional - self@.free.len()
            },
    {
        proof {
            lemma_chain_len(self.slots@, self.first_free, self.free_count as nat);
        }
        let free = self.free_count as usize;
        if additional <= free {
            0
        } else {
            additional - free
        }
    }

    /// Whether storage for `amount` more slots can be asked for: the slots
    /// together must not take more than `isize::MAX` bytes.
    fn can_reserve(&self, amount: usize) -> (ok: bool)
        ensures
            ok == (self.slots@.len() + amount <= usize::MAX && (self.slots@.len() + amount)
                * vstd::layout::size_of::<Slot<T>>() <= isize::MAX),
    {
        let unit = core::mem::size_of::<Slot<T>>();
        let len = self.slots.len();
        if unit == 0 {
            amount <= usize::MAX - len
        } else {
            let limit = isize::MAX as usize / unit;
            if len <= limit && amount <= limit - len {
                proof {
                    lemma_bytes_fit(len + amount, unit as int, isize::MAX as int);
                }
                true
            } else {
                proof {
                    lemma_bytes_fit(len + amount, unit as int, isize::MAX as int);
                }
                false
            }
        }
    }

    /// Makes room for `additional` insertions beyond what the vacant slots
    /// already provide. The arena holds what it held; a request that no
    /// allocation could satisfy is ignored.
    pub fn reserve(&mut self, additional: usize)
        ensures
            final(self)@ == old(self)@,
            old(self).wf() ==> final(self).wf(),
    {
        let amount = self.slots_to_reserve(additional);
        if amount > 0 && self.can_reserve(amount) {
            self.slots.reserve(amount);
        }
    }

    /// As [`Arena::reserve`], without asking for more room than needed.
    pub fn reserve_exact(&mut self, additional: usize)
        ensures
            final(self)@ == old(self)@,
            old(self).wf() ==> final(self).wf(),
    {
        let amount = self.slots_to_reserve(additional);
        if amount > 0 && self.can_reserve(amount) {
            vec_reserve_exact(&mut self.slots, amount);
        }
    }

    /// Makes an arena whose slots hold `items` in order, with no vacant
    /// slot: item `i` is reached through the handle with index `i` and
    /// generation 0.
    pub fn from_iter(items: Vec<T>) -> (arena: Self)
        requires
            items@.len() <= u32::MAX,
        ensures
            arena.wf(),
            arena@ == ArenaModel::from_seq(items@),
            arena@.values() == items@,
    {
        let ghost all = items@;
        let mut slots: Vec<Slot<T>> = Vec::with_capacity(items.len());
        for item in it: items
            invariant
                it.seq() == all,
                slots@.len() == it.index(),
                forall|k: int|
                    0 <= k < slots@.len() ==> #[trigger] slots@[k] == (Slot {
                        generation: 0,
                        entry: Entry::Present(all[k]),
                    }),
        {
            slots.push(Slot { generation: 0, entry: Entry::Present(item) });
        }
        let arena = Arena { slots, first_free: 0, free_count: 0 };
        proof {
            assert(arena@.slots =~= ArenaModel::from_seq(all).slots);
            ArenaModel::lemma_from_seq(all);
        }
        arena
    }

    /// Inserts every item of `items` in order.
    pub fn extend(&mut self, items: Vec<T>)
        requires
            old(self).wf(),
            old(self)@.len() + items@.len() <= u32::MAX,
        ensures
            final(self).wf(),
            final(self)@ == old(self)@.extend(items@),
            final(self)@.len() == old(self)@.len() + items@.len(),
    {
        let ghost all = items@;
        for item in it: items
            invariant
                it.seq() == all,
                self.wf(),
                self@ == old(self)@.extend(all.take(it.index())),
                self@.len() == old(self)@.len() + it.index(),
                old(self)@.len() + all.len() <= u32::MAX,
        {
            proof {
                let i = it.index();
                assert(all.take(i + 1).drop_last() =~= all.take(i));
                assert(all.take(i + 1).last() == item);
                self@.lemma_insert_len(item);
            }
            self.insert_raw(item);
        }
        proof {
            assert(all.take(all.len() as int) =~= all);
        }
    }

    /// The value that `id` resolves to, for writing, for a handle that
    /// resolves.
    pub fn index_mut(&mut self, id: Id) -> (item: &mut T)
        requires
            old(self).wf(),
            old(self)@.get(id@) is Some,
        ensures
            final(self).wf(),
            old(self)@.get(id@) == Some(*item),
            final(self)@ == old(self)@.replace(id@, *final(item)),
    {
        match self.get_mut_raw(id) {
            Some(item) => item,
            None => unreached(),
        }
    }

    /// An iterator over the values held, by reference, in ascending slot
    /// order from the front.
    pub fn iter(&self) -> (it: Iter<'_, T>)
        requires
            self.wf(),
        ensures
            it.wf(),
            it.remaining() == self@.values(),
    {
        proof {
            self@.lemma_len();
        }
        let length = self.len() as u32;
        Iter::over(self.slots.as_slice(), length)
    }

    /// An iterator over the values held, by mutable reference, in ascending
    /// slot order from the front. Once the iterator has gone, the arena's
    /// slots are what the iterator's slots have become; where those have
    /// kept their shape, the arena is what it was but for the values.
    pub fn iter_mut(&mut self) -> (it: IterMut<'_, T>)
        requires
            old(self).wf(),
        ensures
            it.wf(),
            it.remaining() == old(self)@.values(),
            slot_models(it.slots@) == old(self)@.slots,
            final(self)@.slots == slot_models(final(it.slots)@),
            keeps_shape(it.slots@, final(it.slots)@) ==> final(self).wf() && old(self)@.same_but_values(
                final(self)@,
            ),
    {
        proof {
            self@.lemma_len();
        }
        let length = self.len() as u32;
        let ghost before = self.slots@;
        let ghost head = self.first_free;
        let ghost count = self.free_count as nat;
        let it = IterMut::over(self.slots.as_mut_slice(), length);
        proof {
            lemma_only_values_rewritten(before, final(it.slots)@, head, count);
        }
        it
    }

    /// An iterator over the values held, by value, in ascending slot order
    /// from the front.
    pub fn into_iter(self) -> (it: IntoIter<T>)
        requires
            self.wf(),
        ensures
            it.wf(),
            it.remaining() == self@.values(),
    {
        proof {
            self@.lemma_len();
        }
        let length = self.len() as u32;
        IntoIter::over(self.slots, length)
    }

    /// Takes the slot for the next insertion out of the free list, or
    /// appends one, and returns its handle. The slot is left vacant and
    /// unlisted: the caller fills it.
    fn free_index(&mut self) -> (id: Id)
        requires
            old(self).wf(),
            old(self)@.free.len() > 0 || old(self)@.slots.len() < u32::MAX,
        ensures
            id@ == old(self)@.next_handle(),
            id.index < final(self).slots@.len() <= u32::MAX,
            final(self).slots@[id.index as int].generation == id.generation,
            old(self).free_count > 0 ==> {
                &&& final(self).slots@ == old(self).slots@
                &&& final(self).free_count == old(self).free_count - 1
                &&& final(self).first_free == old(self).slots@[id.index as int].entry.link()
            },
            old(self).free_count == 0 ==> {
                &&& final(self).slots@.len() == old(self).slots@.len() + 1
                &&& final(self).slots@.drop_last() == old(self).slots@
                &&& final(self).free_count == 0
            },
    {
        if self.free_count > 0 {
            let index = self.first_free;
            proof {
                assert(self@.free[0] == index as nat);
                assert(self@.vacant(self@.free[0] as int));
            }
            let item = &self.slots[index as usize];
            let generation = item.generation;
            let next_free = match item.entry {
                Entry::Free { next_free } => next_free,
                Entry::Present(_) => unreached(),
            };
            self.first_free = next_free;
            self.free_count -= 1;
            Id { index, generation }
        } else {
            let index = self.slots.len();
            self.slots.push(Slot { generation: 0, entry: Entry::Free { next_free: 0 } });
            proof {
                assert(self.slots@.drop_last() =~= old(self).slots@);
            }
            Id { index: index as u32, generation: 0 }
        }
    }
}

/// `count` units of `unit` bytes each take at most `most` bytes exactly
/// when `count` is at most `most / unit`.
proof fn lemma_bytes_fit(count: int, unit: int, most: int)
    requires
        0 <= count,
        0 < unit,
        0 <= most,
    ensures
        count * unit <= most <==> count <= most / unit,
{
    let q = most / unit;
    vstd::arithmetic::div_mod::lemma_fundamental_div_mod(most, unit);
    vstd::arithmetic::div_mod::lemma_mod_bound(most, unit);
    if count <= q {
        assert(count * unit <= q * unit) by (nonlinear_arith)
            requires
                count <= q,
                0 < unit,
        ;
        assert(unit * q == q * unit) by (nonlinear_arith);
    } else {
        assert(count * unit >= (q + 1) * unit) by (nonlinear_arith)
            requires
                count >= q + 1,
                0 < unit,
        ;
        assert((q + 1) * unit == unit * q + unit) by (nonlinear_arith);
    }
}

/// Calls `Vec::reserve_exact`, which leaves the contents of the vector as
/// they are. It panics where the new capacity would exceed `isize::MAX`
/// bytes, which the precondition rules out.
#[verifier::external_body]
fn vec_reserve_exact<E>(vec: &mut Vec<E>, additional: usize)
    requires
        old(vec)@.len() + additional <= usize::MAX,
        (old(vec)@.len() + additional) * vstd::layout::size_of::<E>() <= isize::MAX,
    ensures
        final(vec)@ == old(vec)@,
{
    vec.reserve_exact(additional);
}

} // verus!
