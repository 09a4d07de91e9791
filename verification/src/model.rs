//! The arena as a mathematical value: a sequence of slots and the list of
//! vacant slots in the order in which they will be reused.

use crate::handle::Handle;
use vstd::prelude::*;

verus! {

/// One slot: its generation counter and the value it holds, if any.
pub struct SlotModel<T> {
    pub generation: nat,
    pub value: Option<T>,
}

/// The state of an arena.
///
/// `free` lists the vacant slots, the one that the next insertion reuses
/// first.
pub struct ArenaModel<T> {
    pub slots: Seq<SlotModel<T>>,
    pub free: Seq<nat>,
}

/// One step of an arena's history.
pub enum Op<T> {
    Insert(T),
    Remove(Handle),
}

/// The values held by `slots`, in ascending slot order.
pub open spec fn occupants<T>(slots: Seq<SlotModel<T>>) -> Seq<T>
    decreases slots.len(),
{
    if slots.len() == 0 {
        Seq::empty()
    } else {
        match slots.last().value {
            Some(v) => occupants(slots.drop_last()).push(v),
            None => occupants(slots.drop_last()),
        }
    }
}

impl<T> ArenaModel<T> {
    /// The arena without slots.
    pub open spec fn empty() -> Self {
        ArenaModel { slots: Seq::empty(), free: Seq::empty() }
    }

    /// The arena whose slots hold `items` in order, each at generation 0.
    pub open spec fn from_seq(items: Seq<T>) -> Self {
        ArenaModel {
            slots: Seq::new(
                items.len(),
                |i: int| SlotModel { generation: 0, value: Some(items[i]) },
            ),
            free: Seq::empty(),
        }
    }

    /// Slot `i` exists and holds no value.
    pub open spec fn vacant(self, i: int) -> bool {
        0 <= i < self.slots.len() && self.slots[i].value is None
    }

    /// The free list holds exactly the vacant slots, each once.
    pub open spec fn wf(self) -> bool {
        &&& self.free.no_duplicates()
        &&& forall|k: int| 0 <= k < self.free.len() ==> self.vacant(#[trigger] self.free[k] as int)
        &&& forall|i: int| #[trigger] self.vacant(i) ==> self.free.contains(i as nat)
    }

    /// `h` names an existing slot at its current generation.
    pub open spec fn valid(self, h: Handle) -> bool {
        h.index < self.slots.len() && self.slots[h.index as int].generation == h.generation
    }

    /// The value that `h` resolves to.
    pub open spec fn get(self, h: Handle) -> Option<T> {
        if self.valid(h) {
            self.slots[h.index as int].value
        } else {
            None
        }
    }

    /// The values held, in ascending slot order.
    pub open spec fn values(self) -> Seq<T> {
        occupants(self.slots)
    }

    /// The number of values held.
    pub open spec fn len(self) -> nat {
        self.values().len()
    }

    /// The handle that the next insertion returns: the head of the free
    /// list at its current generation, or a new slot at generation 0.
    pub open spec fn next_handle(self) -> Handle {
        if self.free.len() > 0 {
            Handle {
                index: self.free[0],
                generation: self.slots[self.free[0] as int].generation,
            }
        } else {
            Handle { index: self.slots.len(), generation: 0 }
        }
    }

    /// The arena after `v` has been inserted under `self.next_handle()`.
    pub open spec fn insert(self, v: T) -> Self {
        if self.free.len() > 0 {
            let i = self.free[0] as int;
            ArenaModel {
                slots: self.slots.update(
                    i,
                    SlotModel { generation: self.slots[i].generation, value: Some(v) },
                ),
                free: self.free.drop_first(),
            }
        } else {
            ArenaModel {
                slots: self.slots.push(SlotModel { generation: 0, value: Some(v) }),
                free: self.free,
            }
        }
    }

    /// The arena after the removal of what `h` resolves to: the slot is
    /// vacated, its generation advances by one, and it becomes the head of
    /// the free list. A handle that resolves to nothing changes nothing.
    pub open spec fn remove(self, h: Handle) -> Self {
        if self.get(h) is Some {
            ArenaModel {
                slots: self.slots.update(
                    h.index as int,
                    SlotModel { generation: h.generation + 1, value: None },
                ),
                free: seq![h.index] + self.free,
            }
        } else {
            self
        }
    }

    /// The arena after the value behind `h` has been overwritten with `v`.
    /// A handle that resolves to nothing changes nothing.
    pub open spec fn replace(self, h: Handle, v: T) -> Self {
        if self.get(h) is Some {
            ArenaModel {
                slots: self.slots.update(
                    h.index as int,
                    SlotModel { generation: h.generation, value: Some(v) },
                ),
                free: self.free,
            }
        } else {
            self
        }
    }

    /// `other` is `self` but for the values held: the same free list, as
    /// many slots, each at the same generation and occupied where it was.
    pub open spec fn same_but_values(self, other: Self) -> bool {
        &&& other.free == self.free
        &&& other.slots.len() == self.slots.len()
        &&& forall|i: int|
            0 <= i < self.slots.len() ==> (#[trigger] other.slots[i]).generation
                == self.slots[i].generation && (other.slots[i].value is Some
                <==> self.slots[i].value is Some)
    }

    /// The arena after every item of `items` has been inserted in order.
    pub open spec fn extend(self, items: Seq<T>) -> Self
        decreases items.len(),
    {
        if items.len() == 0 {
            self
        } else {
            self.extend(items.drop_last()).insert(items.last())
        }
    }

    /// The arena after one step.
    pub open spec fn apply(self, op: Op<T>) -> Self {
        match op {
            Op::Insert(v) => self.insert(v),
            Op::Remove(h) => self.remove(h),
        }
    }

    /// The arena after the steps `ops`, first to last.
    pub open spec fn run(self, ops: Seq<Op<T>>) -> Self
        decreases ops.len(),
    {
        if ops.len() == 0 {
            self
        } else {
            self.run(ops.drop_last()).apply(ops.last())
        }
    }
}

/// The occupants of a concatenation are the occupants of its parts.
pub proof fn lemma_occupants_concat<T>(a: Seq<SlotModel<T>>, b: Seq<SlotModel<T>>)
    ensures
        occupants(a + b) == occupants(a) + occupants(b),
    decreases b.len(),
{
    if b.len() == 0 {
        assert(a + b =~= a);
        assert(occupants(a) + occupants(b) =~= occupants(a));
    } else {
        lemma_occupants_concat(a, b.drop_last());
        assert((a + b).drop_last() =~= a + b.drop_last());
        assert((a + b).last() == b.last());
        match b.last().value {
            Some(v) => {
                assert(occupants(a + b) =~= occupants(a) + occupants(b));
            },
            None => {},
        }
    }
}

/// A sequence of one slot has its value as its only occupant, if it has one.
pub proof fn lemma_occupants_single<T>(s: SlotModel<T>)
    ensures
        occupants(seq![s]) == match s.value {
            Some(v) => seq![v],
            None => Seq::empty(),
        },
{
    assert(seq![s].drop_last() =~= Seq::<SlotModel<T>>::empty());
    assert(occupants(seq![s].drop_last()) =~= Seq::<T>::empty());
    match s.value {
        Some(v) => {
            assert(occupants(seq![s]) =~= seq![v]);
        },
        None => {},
    }
}

/// Slots that are occupied at the same places hold as many values.
pub proof fn lemma_same_count<T>(a: Seq<SlotModel<T>>, b: Seq<SlotModel<T>>)
    requires
        a.len() == b.len(),
        forall|i: int| 0 <= i < a.len() ==> ((#[trigger] b[i]).value is Some <==> a[i].value is Some),
    ensures
        occupants(a).len() == occupants(b).len(),
    decreases a.len(),
{
    if a.len() > 0 {
        assert(b.last() == b[b.len() - 1]);
        assert forall|i: int| 0 <= i < a.drop_last().len() implies ((#[trigger] b.drop_last()[i]).value is Some
            <==> a.drop_last()[i].value is Some) by {
            assert(b.drop_last()[i] == b[i]);
        }
        lemma_same_count(a.drop_last(), b.drop_last());
    }
}

/// Where `free` lists exactly the vacant slots of `slots`, each once, the
/// occupants and the free list together account for every slot.
proof fn lemma_count<T>(slots: Seq<SlotModel<T>>, free: Seq<nat>)
    requires
        (ArenaModel { slots, free }).wf(),
    ensures
        occupants(slots).len() + free.len() == slots.len(),
    decreases slots.len(),
{
    let m = ArenaModel { slots, free };
    if slots.len() == 0 {
        if free.len() > 0 {
            assert(m.vacant(free[0] as int));
        }
    } else {
        let last = slots.len() - 1;
        let rest = slots.drop_last();
        if slots.last().value is None {
            assert(m.vacant(last));
            let p = free.index_of(last as nat);
            let pruned = free.remove(p);
            let r = ArenaModel { slots: rest, free: pruned };
            assert forall|k: int| 0 <= k < pruned.len() implies r.vacant(
                #[trigger] pruned[k] as int,
            ) by {
                let q = if k < p { k } else { k + 1 };
                assert(pruned[k] == free[q]);
                assert(m.vacant(free[q] as int));
            }
            assert forall|i: int| #[trigger] r.vacant(i) implies pruned.contains(i as nat) by {
                assert(m.vacant(i));
                let q = free.index_of(i as nat);
                let k = if q < p { q } else { q - 1 };
                assert(pruned[k] == i as nat);
            }
            lemma_count(rest, pruned);
        } else {
            let r = ArenaModel { slots: rest, free };
            assert forall|k: int| 0 <= k < free.len() implies r.vacant(
                #[trigger] free[k] as int,
            ) by {
                assert(m.vacant(free[k] as int));
            }
            assert forall|i: int| #[trigger] r.vacant(i) implies free.contains(i as nat) by {
                assert(m.vacant(i));
            }
            lemma_count(rest, free);
        }
    }
}

impl<T> ArenaModel<T> {
    /// Every slot is either counted by `len` or listed in the free list.
    pub proof fn lemma_len(self)
        requires
            self.wf(),
        ensures
            self.len() + self.free.len() == self.slots.len(),
    {
        lemma_count(self.slots, self.free);
    }

    /// Insertion keeps the free list exact.
    pub proof fn lemma_insert_wf(self, v: T)
        requires
            self.wf(),
        ensures
            self.insert(v).wf(),
    {
        let after = self.insert(v);
        if self.free.len() > 0 {
            let i = self.free[0] as int;
            assert(self.vacant(i));
            assert forall|k: int| 0 <= k < after.free.len() implies after.vacant(
                #[trigger] after.free[k] as int,
            ) by {
                assert(after.free[k] == self.free[k + 1]);
                assert(self.vacant(self.free[k + 1] as int));
            }
            assert forall|j: int| #[trigger] after.vacant(j) implies after.free.contains(
                j as nat,
            ) by {
                assert(self.vacant(j));
                let q = self.free.index_of(j as nat);
                assert(after.free[q - 1] == j as nat);
            }
        } else {
            assert forall|j: int| #[trigger] after.vacant(j) implies after.free.contains(
                j as nat,
            ) by {
                assert(self.vacant(j));
            }
        }
    }

    /// Insertion adds one to the number of values held.
    pub proof fn lemma_insert_len(self, v: T)
        requires
            self.wf(),
        ensures
            self.insert(v).len() == self.len() + 1,
    {
        self.lemma_insert_wf(v);
        self.lemma_len();
        self.insert(v).lemma_len();
    }

    /// Removal keeps the free list exact.
    pub proof fn lemma_remove_wf(self, h: Handle)
        requires
            self.wf(),
        ensures
            self.remove(h).wf(),
    {
        let after = self.remove(h);
        if self.get(h) is Some {
            let i = h.index as int;
            assert forall|k: int| 0 <= k < after.free.len() implies after.vacant(
                #[trigger] after.free[k] as int,
            ) by {
                if k > 0 {
                    assert(after.free[k] == self.free[k - 1]);
                    assert(self.vacant(self.free[k - 1] as int));
                }
            }
            assert forall|a: int, b: int|
                0 <= a < after.free.len() && 0 <= b < after.free.len() && a != b implies
                after.free[a] != after.free[b] by {
                if a > 0 {
                    assert(self.vacant(self.free[a - 1] as int));
                }
                if b > 0 {
                    assert(self.vacant(self.free[b - 1] as int));
                }
            }
            assert forall|j: int| #[trigger] after.vacant(j) implies after.free.contains(
                j as nat,
            ) by {
                if j == i {
                    assert(after.free[0] == j as nat);
                } else {
                    assert(self.vacant(j));
                    let q = self.free.index_of(j as nat);
                    assert(after.free[q + 1] == j as nat);
                }
            }
        }
    }

    /// A removal takes one from the number of values held, where the handle
    /// resolves, and leaves it as it is, where not.
    pub proof fn lemma_remove_len(self, h: Handle)
        requires
            self.wf(),
        ensures
            self.remove(h).len() == if self.get(h) is Some {
                self.len() - 1
            } else {
                self.len() as int
            },
    {
        self.lemma_remove_wf(h);
        self.lemma_len();
        self.remove(h).lemma_len();
    }

    /// Overwriting a held value keeps the free list exact.
    pub proof fn lemma_replace_wf(self, h: Handle, v: T)
        requires
            self.wf(),
        ensures
            self.replace(h, v).wf(),
    {
        let after = self.replace(h, v);
        if self.get(h) is Some {
            assert forall|k: int| 0 <= k < after.free.len() implies after.vacant(
                #[trigger] after.free[k] as int,
            ) by {
                assert(self.vacant(self.free[k] as int));
            }
            assert forall|j: int| #[trigger] after.vacant(j) implies after.free.contains(
                j as nat,
            ) by {
                assert(self.vacant(j));
            }
        }
    }

    /// An arena that differs only in the values held is as well formed,
    /// holds as many values, and has the same handles name a slot and
    /// resolve to a value.
    pub proof fn lemma_same_but_values(self, other: Self)
        requires
            self.same_but_values(other),
        ensures
            self.wf() ==> other.wf(),
            other.len() == self.len(),
            forall|h: Handle| #[trigger] other.valid(h) == self.valid(h),
            forall|h: Handle| #[trigger] other.get(h) is Some <==> self.get(h) is Some,
    {
        lemma_same_count(self.slots, other.slots);
        if self.wf() {
            assert forall|k: int| 0 <= k < other.free.len() implies other.vacant(
                #[trigger] other.free[k] as int,
            ) by {
                assert(self.vacant(self.free[k] as int));
            }
            assert forall|j: int| #[trigger] other.vacant(j) implies other.free.contains(
                j as nat,
            ) by {
                assert(self.vacant(j));
            }
        }
    }

    /// A sequence of items makes an arena without vacant slots that holds
    /// the items in order.
    pub proof fn lemma_from_seq(items: Seq<T>)
        ensures
            Self::from_seq(items).wf(),
            Self::from_seq(items).values() == items,
        decreases items.len(),
    {
        let m = Self::from_seq(items);
        if items.len() > 0 {
            Self::lemma_from_seq(items.drop_last());
            assert(m.slots.drop_last() =~= Self::from_seq(items.drop_last()).slots);
            assert(m.values() =~= items);
        } else {
            assert(m.values() =~= items);
        }
    }
}

} // verus!
