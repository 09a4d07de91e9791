//! Traversal of the values held, in slot order, from either end.

use crate::arena::keeps_shape;
use crate::arena::lemma_keeps_shape_joined;
use crate::arena::slot_models;
use crate::arena::Entry;
use crate::arena::Slot;
use crate::model::lemma_occupants_concat;
use crate::model::lemma_occupants_single;
use crate::model::occupants;
use vstd::prelude::*;

verus! {

/// The occupants of a run of slots are those of its first slot followed by
/// those of the rest, and those of all but the last followed by those of the
/// last.
pub(crate) proof fn lemma_split<T>(slots: Seq<Slot<T>>, mid: int)
    requires
        0 <= mid <= slots.len(),
    ensures
        occupants(slot_models(slots)) == occupants(slot_models(slots.subrange(0, mid)))
            + occupants(slot_models(slots.subrange(mid, slots.len() as int))),
{
    let left = slots.subrange(0, mid);
    let right = slots.subrange(mid, slots.len() as int);
    assert(slot_models(slots) =~= slot_models(left) + slot_models(right));
    lemma_occupants_concat(slot_models(left), slot_models(right));
}

/// The occupants of a run of one slot.
pub(crate) proof fn lemma_one<T>(slots: Seq<Slot<T>>)
    requires
        slots.len() == 1,
    ensures
        occupants(slot_models(slots)) == match slots[0].entry.value() {
            Some(v) => seq![v],
            None => Seq::empty(),
        },
{
    assert(slot_models(slots) =~= seq![slots[0].model()]);
    lemma_occupants_single(slots[0].model());
}

/// An iterator over the values of an arena, by reference.
#[derive(Clone, Debug)]
pub struct Iter<'a, T> {
    slots: &'a [Slot<T>],
    length: u32,
    returned: u32,
}

impl<'a, T> Iter<'a, T> {
    /// The values still to come, in ascending slot order.
    pub closed spec fn remaining(&self) -> Seq<T> {
        occupants(slot_models(self.slots@))
    }

    /// The count kept is the number of values still to come.
    pub closed spec fn wf(&self) -> bool {
        &&& self.returned <= self.length
        &&& self.length - self.returned == self.remaining().len()
    }

    /// An iterator over the `length` values held by `slots`.
    pub(crate) fn over(slots: &'a [Slot<T>], length: u32) -> (it: Self)
        requires
            occupants(slot_models(slots@)).len() == length,
        ensures
            it.wf(),
            it.remaining() == occupants(slot_models(slots@)),
    {
        Iter { slots, length, returned: 0 }
    }

    /// The next value from the front, if any is left.
    pub fn next(&mut self) -> (item: Option<&'a T>)
        requires
            old(self).wf(),
        ensures
            final(self).wf(),
            old(self).remaining().len() == 0 ==> item is None && final(self).remaining() == old(self).remaining(),
            old(self).remaining().len() > 0 ==> item == Some(&old(self).remaining()[0]) && final(self).remaining() == old(self).remaining().drop_first(),
    {
        loop
            invariant
                self.wf(),
                self.remaining() == old(self).remaining(),
            decreases self.slots@.len(),
        {
            let slots = self.slots;
            if slots.len() == 0 {
                return None;
            }
            let (head, tail) = slots.split_at(1);
            proof {
                lemma_split(slots@, 1);
                lemma_one(head@);
            }
            self.slots = tail;
            if let Entry::Present(item) = &head[0].entry {
                self.returned += 1;
                proof {
                    assert(old(self).remaining().drop_first() =~= self.remaining());
                }
                return Some(item);
            }
            proof {
                assert(old(self).remaining() =~= self.remaining());
            }
        }
    }

    /// The next value from the back, if any is left.
    pub fn next_back(&mut self) -> (item: Option<&'a T>)
        requires
            old(self).wf(),
        ensures
            final(self).wf(),
            old(self).remaining().len() == 0 ==> item is None && final(self).remaining() == old(self).remaining(),
            old(self).remaining().len() > 0 ==> item == Some(&old(self).remaining().last())
                && final(self).remaining() == old(self).remaining().drop_last(),
    {
        loop
            invariant
                self.wf(),
                self.remaining() == old(self).remaining(),
            decreases self.slots@.len(),
        {
            let slots = self.slots;
            let len = slots.len();
            if len == 0 {
                return None;
            }
            let (front, last) = slots.split_at(len - 1);
            proof {
                lemma_split(slots@, len - 1);
                lemma_one(last@);
            }
            self.slots = front;
            if let Entry::Present(item) = &last[0].entry {
                self.returned += 1;
                proof {
                    assert(old(self).remaining().drop_last() =~= self.remaining());
                }
                return Some(item);
            }
            proof {
                assert(old(self).remaining() =~= self.remaining());
            }
        }
    }

    /// The number of values still to come, as lower and upper bound.
    pub fn size_hint(&self) -> (bounds: (usize, Option<usize>))
        requires
            self.wf(),
        ensures
            bounds.0 == self.remaining().len(),
            bounds.1 == Some(bounds.0),
    {
        let length = (self.length - self.returned) as usize;
        (length, Some(length))
    }
}

/// An iterator over the values of an arena, by value.
#[derive(Clone, Debug)]
pub struct IntoIter<T> {
    slots: Vec<Slot<T>>,
    front: usize,
    back: usize,
    length: u32,
    returned: u32,
}

impl<T> IntoIter<T> {
    /// The values still to come, in ascending slot order.
    pub closed spec fn remaining(&self) -> Seq<T> {
        occupants(slot_models(self.slots@.subrange(self.front as int, self.back as int)))
    }

    /// The count kept is the number of values still to come.
    pub closed spec fn wf(&self) -> bool {
        &&& self.front <= self.back <= self.slots@.len()
        &&& self.returned <= self.length
        &&& self.length - self.returned == self.remaining().len()
    }

    /// An iterator over the `length` values held by `slots`.
    pub(crate) fn over(slots: Vec<Slot<T>>, length: u32) -> (it: Self)
        requires
            occupants(slot_models(slots@)).len() == length,
        ensures
            it.wf(),
            it.remaining() == occupants(slot_models(slots@)),
    {
        let back = slots.len();
        proof {
            assert(slots@.subrange(0, back as int) =~= slots@);
        }
        IntoIter { slots, front: 0, back, length, returned: 0 }
    }

    /// The next value from the front, if any is left.
    pub fn next(&mut self) -> (item: Option<T>)
        requires
            old(self).wf(),
        ensures
            final(self).wf(),
            old(self).remaining().len() == 0 ==> item is None && final(self).remaining() == old(self).remaining(),
            old(self).remaining().len() > 0 ==> item == Some(old(self).remaining()[0]) && final(self).remaining() == old(self).remaining().drop_first(),
    {
        while self.front < self.back
            invariant
                self.wf(),
                self.remaining() == old(self).remaining(),
            decreases self.back - self.front,
        {
            let i = self.front;
            let ghost run = self.slots@.subrange(self.front as int, self.back as int);
            proof {
                lemma_split(run, 1);
                lemma_one(run.subrange(0, 1));
                assert(run.subrange(1, run.len() as int) =~= self.slots@.subrange(
                    self.front + 1,
                    self.back as int,
                ));
            }
            let held = self.slots[i].entry.take(0);
            self.front += 1;
            proof {
                assert(self.slots@.subrange(self.front as int, self.back as int) =~= run.subrange(
                    1,
                    run.len() as int,
                ));
            }
            if let Some(v) = held {
                self.returned += 1;
                proof {
                    assert(old(self).remaining().drop_first() =~= self.remaining());
                }
                return Some(v);
            }
            proof {
                assert(old(self).remaining() =~= self.remaining());
            }
        }
        proof {
            assert(self.slots@.subrange(self.front as int, self.back as int) =~= Seq::empty());
        }
        None
    }

    /// The next value from the back, if any is left.
    pub fn next_back(&mut self) -> (item: Option<T>)
        requires
            old(self).wf(),
        ensures
            final(self).wf(),
            old(self).remaining().len() == 0 ==> item is None && final(self).remaining() == old(self).remaining(),
            old(self).remaining().len() > 0 ==> item == Some(old(self).remaining().last())
                && final(self).remaining() == old(self).remaining().drop_last(),
    {
        while self.front < self.back
            invariant
                self.wf(),
                self.remaining() == old(self).remaining(),
            decreases self.back - self.front,
        {
            let i = self.back - 1;
            let ghost run = self.slots@.subrange(self.front as int, self.back as int);
            proof {
                lemma_split(run, run.len() - 1);
                lemma_one(run.subrange(run.len() - 1, run.len() as int));
                assert(run.subrange(0, run.len() - 1) =~= self.slots@.subrange(
                    self.front as int,
                    self.back - 1,
                ));
            }
            let held = self.slots[i].entry.take(0);
            self.back = i;
            proof {
                assert(self.slots@.subrange(self.front as int, self.back as int) =~= run.subrange(
                    0,
                    run.len() - 1,
                ));
            }
            if let Some(v) = held {
                self.returned += 1;
                proof {
                    assert(old(self).remaining().drop_last() =~= self.remaining());
                }
                return Some(v);
            }
            proof {
                assert(old(self).remaining() =~= self.remaining());
            }
        }
        proof {
            assert(self.slots@.subrange(self.front as int, self.back as int) =~= Seq::empty());
        }
        None
    }

    /// The number of values still to come, as lower and upper bound.
    pub fn size_hint(&self) -> (bounds: (usize, Option<usize>))
        requires
            self.wf(),
        ensures
            bounds.0 == self.remaining().len(),
            bounds.1 == Some(bounds.0),
    {
        let length = (self.length - self.returned) as usize;
        (length, Some(length))
    }
}

/// Where the first of `now` holds a value and becomes a slot that holds
/// `written`, followed by `rest_later`: the values of `later` are `written`
/// and those of `rest_later`, and `later` keeps the shape of `now` where
/// `rest_later` keeps that of the rest of `now`.
pub(crate) proof fn lemma_front_written<T>(
    now: Seq<Slot<T>>,
    later: Seq<Slot<T>>,
    rest_later: Seq<Slot<T>>,
    written: T,
)
    requires
        now.len() > 0,
        now[0].entry is Present,
        later == seq![Slot { generation: now[0].generation, entry: Entry::Present(written) }]
            + rest_later,
    ensures
        occupants(slot_models(later)) == seq![written] + occupants(slot_models(rest_later)),
        keeps_shape(now.subrange(1, now.len() as int), rest_later) ==> keeps_shape(now, later),
{
    let first = seq![Slot { generation: now[0].generation, entry: Entry::Present(written) }];
    assert(later.subrange(0, 1) =~= first);
    assert(later.subrange(1, later.len() as int) =~= rest_later);
    lemma_split(later, 1);
    lemma_one(first);
    if keeps_shape(now.subrange(1, now.len() as int), rest_later) {
        assert(keeps_shape(now.subrange(0, 1), first));
        lemma_keeps_shape_joined(now.subrange(0, 1), first, now.subrange(1, now.len() as int), rest_later);
        assert(now.subrange(0, 1) + now.subrange(1, now.len() as int) =~= now);
    }
}

/// The same where the first of `now` is vacant and stays as it is.
pub(crate) proof fn lemma_front_skipped<T>(now: Seq<Slot<T>>, later: Seq<Slot<T>>, rest_later: Seq<Slot<T>>)
    requires
        now.len() > 0,
        now[0].entry is Free,
        later == seq![now[0]] + rest_later,
    ensures
        occupants(slot_models(later)) == occupants(slot_models(rest_later)),
        keeps_shape(now.subrange(1, now.len() as int), rest_later) ==> keeps_shape(now, later),
{
    let first = seq![now[0]];
    assert(later.subrange(0, 1) =~= first);
    assert(later.subrange(1, later.len() as int) =~= rest_later);
    lemma_split(later, 1);
    lemma_one(first);
    assert(occupants(slot_models(later)) =~= occupants(slot_models(rest_later)));
    if keeps_shape(now.subrange(1, now.len() as int), rest_later) {
        assert(keeps_shape(now.subrange(0, 1), first));
        lemma_keeps_shape_joined(now.subrange(0, 1), first, now.subrange(1, now.len() as int), rest_later);
        assert(now.subrange(0, 1) + now.subrange(1, now.len() as int) =~= now);
    }
}

/// Where the last of `now` holds a value and becomes a slot that holds
/// `written`, preceded by `rest_later`.
pub(crate) proof fn lemma_back_written<T>(
    now: Seq<Slot<T>>,
    later: Seq<Slot<T>>,
    rest_later: Seq<Slot<T>>,
    written: T,
)
    requires
        now.len() > 0,
        now.last().entry is Present,
        later == rest_later + seq![
            Slot { generation: now.last().generation, entry: Entry::Present(written) },
        ],
    ensures
        occupants(slot_models(later)) == occupants(slot_models(rest_later)) + seq![written],
        keeps_shape(now.subrange(0, now.len() - 1), rest_later) ==> keeps_shape(now, later),
{
    let last = seq![Slot { generation: now.last().generation, entry: Entry::Present(written) }];
    let cut = later.len() - 1;
    assert(later.subrange(0, cut) =~= rest_later);
    assert(later.subrange(cut, later.len() as int) =~= last);
    lemma_split(later, cut);
    lemma_one(last);
    if keeps_shape(now.subrange(0, now.len() - 1), rest_later) {
        assert(keeps_shape(now.subrange(now.len() - 1, now.len() as int), last));
        lemma_keeps_shape_joined(now.subrange(0, now.len() - 1), rest_later, now.subrange(now.len() - 1, now.len() as int), last);
        assert(now.subrange(0, now.len() - 1) + now.subrange(now.len() - 1, now.len() as int) =~= now);
    }
}

/// The same where the last of `now` is vacant and stays as it is.
pub(crate) proof fn lemma_back_skipped<T>(now: Seq<Slot<T>>, later: Seq<Slot<T>>, rest_later: Seq<Slot<T>>)
    requires
        now.len() > 0,
        now.last().entry is Free,
        later == rest_later + seq![now.last()],
    ensures
        occupants(slot_models(later)) == occupants(slot_models(rest_later)),
        keeps_shape(now.subrange(0, now.len() - 1), rest_later) ==> keeps_shape(now, later),
{
    let last = seq![now.last()];
    let cut = later.len() - 1;
    assert(later.subrange(0, cut) =~= rest_later);
    assert(later.subrange(cut, later.len() as int) =~= last);
    lemma_split(later, cut);
    lemma_one(last);
    assert(occupants(slot_models(later)) =~= occupants(slot_models(rest_later)));
    if keeps_shape(now.subrange(0, now.len() - 1), rest_later) {
        assert(keeps_shape(now.subrange(now.len() - 1, now.len() as int), last));
        lemma_keeps_shape_joined(now.subrange(0, now.len() - 1), rest_later, now.subrange(now.len() - 1, now.len() as int), last);
        assert(now.subrange(0, now.len() - 1) + now.subrange(now.len() - 1, now.len() as int) =~= now);
    }
}

/// An iterator over the values of an arena, by mutable reference.
#[derive(Debug)]
pub struct IterMut<'a, T> {
    /// The slots not yet passed over.
    pub slots: &'a mut [Slot<T>],
    /// The number of values that the iterator started with.
    pub length: u32,
    /// The number of values handed out.
    pub returned: u32,
}

impl<'a, T> IterMut<'a, T> {
    /// The values still to come, in ascending slot order, as they are now.
    pub open spec fn remaining(&self) -> Seq<T> {
        occupants(slot_models(self.slots@))
    }

    /// The count kept is the number of values still to come.
    pub open spec fn wf(&self) -> bool {
        &&& self.returned <= self.length
        &&& self.length - self.returned == self.remaining().len()
    }

    /// An iterator over the `length` values held by `slots`.
    pub(crate) fn over(slots: &'a mut [Slot<T>], length: u32) -> (it: Self)
        requires
            occupants(slot_models(old(slots)@)).len() == length,
        ensures
            it.wf(),
            it.slots@ == old(slots)@,
            final(it.slots)@ == final(slots)@,
    {
        IterMut { slots, length, returned: 0 }
    }

    /// The next value from the front, if any is left. What the slots passed
    /// over become is the value left behind the reference handed out,
    /// followed by what the slots still to come become.
    pub fn next(&mut self) -> (item: Option<&'a mut T>)
        requires
            old(self).wf(),
        ensures
            final(self).wf(),
            old(self).remaining().len() == 0 ==> item is None && final(self).remaining() == old(self).remaining(),
            old(self).remaining().len() > 0 ==> item is Some && *item->0 == old(self).remaining()[0] && final(self).remaining() == old(self).remaining().drop_first(),
            item is Some ==> occupants(slot_models(final(old(self).slots)@)) == seq![*final(item->0)] + occupants(slot_models(final(final(self).slots)@)),
            item is None ==> occupants(slot_models(final(old(self).slots)@)) == occupants(slot_models(final(final(self).slots)@)),
            keeps_shape(final(self).slots@, final(final(self).slots)@) ==> keeps_shape(old(self).slots@, final(old(self).slots)@),
    {
        loop
            invariant
                self.wf(),
                self.remaining() == old(self).remaining(),
                occupants(slot_models(final(old(self).slots)@)) == occupants(slot_models(final(self.slots)@)),
                keeps_shape(self.slots@, final(self.slots)@) ==> keeps_shape(old(self).slots@, final(old(self).slots)@),
            decreases self.slots@.len(),
        {
            if self.slots.len() == 0 {
                return None;
            }
            let mut slots: &'a mut [Slot<T>] = &mut [];
            core::mem::swap(&mut self.slots, &mut slots);
            let ghost whole = slots@;
            let ghost whole_later = final(slots)@;
            let (head, tail) = slots.split_at_mut(1);
            let ghost head_later = final(head)@;
            proof {
                lemma_split(whole, 1);
                lemma_one(head@);
            }
            self.slots = tail;
            if let Some(first) = head.first_mut() {
                let ghost first_later = *final(first);
                if let Entry::Present(item) = &mut first.entry {
                    self.returned += 1;
                    proof {
                        assert(old(self).remaining().drop_first() =~= self.remaining());
                        assert(first_later == (Slot {
                            generation: whole[0].generation,
                            entry: Entry::Present(*final(item)),
                        }));
                        assert(head_later =~= seq![first_later]);
                        lemma_front_written(whole, whole_later, final(self.slots)@, *final(item));
                    }
                    return Some(item);
                }
                proof {
                    assert(first_later == whole[0]);
                    assert(head_later =~= seq![whole[0]]);
                }
            }
            proof {
                assert(old(self).remaining() =~= self.remaining());
                lemma_front_skipped(whole, whole_later, final(self.slots)@);
            }
        }
    }

    /// The next value from the back, if any is left. What the slots passed
    /// over become is what the slots still to come become, followed by the
    /// value left behind the reference handed out.
    pub fn next_back(&mut self) -> (item: Option<&'a mut T>)
        requires
            old(self).wf(),
        ensures
            final(self).wf(),
            old(self).remaining().len() == 0 ==> item is None && final(self).remaining() == old(self).remaining(),
            old(self).remaining().len() > 0 ==> item is Some && *item->0 == old(self).remaining().last()
                && final(self).remaining() == old(self).remaining().drop_last(),
            item is Some ==> occupants(slot_models(final(old(self).slots)@)) == occupants(slot_models(final(final(self).slots)@)) + seq![*final(item->0)],
            item is None ==> occupants(slot_models(final(old(self).slots)@)) == occupants(slot_models(final(final(self).slots)@)),
            keeps_shape(final(self).slots@, final(final(self).slots)@) ==> keeps_shape(old(self).slots@, final(old(self).slots)@),
    {
        loop
            invariant
                self.wf(),
                self.remaining() == old(self).remaining(),
                occupants(slot_models(final(old(self).slots)@)) == occupants(slot_models(final(self.slots)@)),
                keeps_shape(self.slots@, final(self.slots)@) ==> keeps_shape(old(self).slots@, final(old(self).slots)@),
            decreases self.slots@.len(),
        {
            let len = self.slots.len();
            if len == 0 {
                return None;
            }
            let mut slots: &'a mut [Slot<T>] = &mut [];
            core::mem::swap(&mut self.slots, &mut slots);
            let ghost whole = slots@;
            let ghost whole_later = final(slots)@;
            let (front, last) = slots.split_at_mut(len - 1);
            let ghost last_later = final(last)@;
            proof {
                lemma_split(whole, len - 1);
                lemma_one(last@);
            }
            self.slots = front;
            if let Some(slot) = last.first_mut() {
                let ghost slot_later = *final(slot);
                if let Entry::Present(item) = &mut slot.entry {
                    self.returned += 1;
                    proof {
                        assert(old(self).remaining().drop_last() =~= self.remaining());
                        assert(slot_later == (Slot {
                            generation: whole.last().generation,
                            entry: Entry::Present(*final(item)),
                        }));
                        assert(last_later =~= seq![slot_later]);
                        lemma_back_written(whole, whole_later, final(self.slots)@, *final(item));
                    }
                    return Some(item);
                }
                proof {
                    assert(slot_later == whole.last());
                    assert(last_later =~= seq![whole.last()]);
                }
            }
            proof {
                assert(old(self).remaining() =~= self.remaining());
                lemma_back_skipped(whole, whole_later, final(self.slots)@);
            }
        }
    }

    /// The number of values still to come, as lower and upper bound.
    pub fn size_hint(&self) -> (bounds: (usize, Option<usize>))
        requires
            self.wf(),
        ensures
            bounds.0 == self.remaining().len(),
            bounds.1 == Some(bounds.0),
    {
        let length = (self.length - self.returned) as usize;
        (length, Some(length))
    }
}

} // verus!