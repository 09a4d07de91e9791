//! What holds of every arena, stated over its model and proved.

use crate::handle::unwraps_to;
use crate::handle::wraps_to;
use crate::handle::round_trips;
use crate::handle::GenIndex;
use crate::handle::Handle;
use crate::handle::Id;
use crate::model::lemma_occupants_concat;
use crate::model::lemma_occupants_single;
use crate::model::lemma_same_count;
use crate::model::occupants;
use crate::model::ArenaModel;
use crate::model::Op;
use crate::model::SlotModel;
use vstd::prelude::*;

verus! {

/// The handles that resolve to a value.
pub open spec fn live_handles<T>(slots: Seq<SlotModel<T>>) -> Set<Handle> {
    Set::new(
        |h: Handle|
            h.index < slots.len() && slots[h.index as int].generation == h.generation
                && slots[h.index as int].value is Some,
    )
}

/// The indices of the slots that hold a value, in ascending order.
pub open spec fn positions<T>(slots: Seq<SlotModel<T>>) -> Seq<int>
    decreases slots.len(),
{
    if slots.len() == 0 {
        Seq::empty()
    } else if slots.last().value is Some {
        positions(slots.drop_last()).push(slots.len() - 1)
    } else {
        positions(slots.drop_last())
    }
}

/// A handle fresh from an insertion resolves to the inserted value, which
/// is what a lookup finds and what a removal hands back. Before the
/// insertion the handle resolved to nothing.
pub proof fn law_insert_then_get<T>(m: ArenaModel<T>, v: T)
    requires
        m.wf(),
    ensures
        m.get(m.next_handle()) is None,
        m.insert(v).get(m.next_handle()) == Some(v),
        m.insert(v).valid(m.next_handle()),
{
    if m.free.len() > 0 {
        assert(m.vacant(m.free[0] as int));
    }
}

/// An insertion leaves what every other handle resolves to as it was.
pub proof fn law_insert_keeps_others<T>(m: ArenaModel<T>, v: T, other: Handle)
    requires
        m.wf(),
        other != m.next_handle(),
    ensures
        m.insert(v).get(other) == m.get(other),
{
    if m.free.len() > 0 {
        assert(m.vacant(m.free[0] as int));
    }
}

/// A removal leaves what every other handle resolves to as it was.
pub proof fn law_remove_keeps_others<T>(m: ArenaModel<T>, h: Handle, other: Handle)
    requires
        other != h,
    ensures
        m.remove(h).get(other) == m.get(other),
{
}

/// A typed handle fresh from an insertion unwraps to a raw handle that
/// resolves to the inserted value, where the handle type wraps without loss.
pub proof fn law_typed_insert_then_get<T, I: GenIndex<Item = T>>(
    m: ArenaModel<T>,
    v: T,
    raw: Id,
    typed: I,
    back: Id,
)
    requires
        m.wf(),
        round_trips::<I>(),
        raw@ == m.next_handle(),
        wraps_to(raw, typed),
        unwraps_to(typed, back),
    ensures
        m.insert(v).get(back@) == Some(v),
{
    law_insert_then_get(m, v);
}

/// A typed handle fresh from an insertion unwraps to a raw handle that
/// resolves to the inserted value, which is what its removal hands back;
/// after the removal it resolves to nothing and the arena holds as many
/// values as before the insertion. The handle type wraps without loss.
pub proof fn law_typed_insert_then_remove<T, I: GenIndex<Item = T>>(
    m: ArenaModel<T>,
    v: T,
    raw: Id,
    typed: I,
    back: Id,
)
    requires
        m.wf(),
        round_trips::<I>(),
        raw@ == m.next_handle(),
        wraps_to(raw, typed),
        unwraps_to(typed, back),
    ensures
        m.insert(v).get(back@) == Some(v),
        m.insert(v).remove(back@).get(back@) is None,
        m.insert(v).remove(back@).len() == m.len(),
{
    law_insert_then_get(m, v);
    m.lemma_insert_wf(v);
    m.lemma_insert_len(v);
    m.insert(v).lemma_remove_len(back@);
}

/// A removal takes one from the number of values held where the handle
/// resolves, and none where it does not.
pub proof fn law_remove_len<T>(m: ArenaModel<T>, h: Handle)
    requires
        m.wf(),
    ensures
        m.get(h) is Some ==> m.remove(h).len() == m.len() - 1,
        m.get(h) is None ==> m.remove(h).len() == m.len(),
{
    m.lemma_remove_len(h);
}

/// After the removal of what a handle resolved to, the handle names no slot
/// at its current generation and resolves to nothing.
pub proof fn law_remove_invalidates<T>(m: ArenaModel<T>, h: Handle)
    requires
        m.get(h) is Some,
    ensures
        !m.remove(h).valid(h),
        m.remove(h).get(h) is None,
{
}

/// Insertions and removals keep the free list exact.
pub proof fn law_run_wf<T>(m: ArenaModel<T>, ops: Seq<Op<T>>)
    requires
        m.wf(),
    ensures
        m.run(ops).wf(),
    decreases ops.len(),
{
    if ops.len() > 0 {
        law_run_wf(m, ops.drop_last());
        let before = m.run(ops.drop_last());
        match ops.last() {
            Op::Insert(v) => before.lemma_insert_wf(v),
            Op::Remove(h) => before.lemma_remove_wf(h),
        }
    }
}

/// Insertions and removals never take a slot away and never lower a
/// generation.
pub proof fn law_generations_grow<T>(m: ArenaModel<T>, ops: Seq<Op<T>>, k: int)
    requires
        m.wf(),
        0 <= k < m.slots.len(),
    ensures
        k < m.run(ops).slots.len(),
        m.run(ops).slots[k].generation >= m.slots[k].generation,
    decreases ops.len(),
{
    if ops.len() > 0 {
        law_generations_grow(m, ops.drop_last(), k);
        law_run_wf(m, ops.drop_last());
        let before = m.run(ops.drop_last());
        if before.free.len() > 0 {
            assert(before.vacant(before.free[0] as int));
        }
    }
}

/// A handle whose generation is behind its slot's stays so: whatever is
/// inserted or removed afterwards, it names no slot at its current
/// generation and resolves to nothing.
pub proof fn law_stale_handle_never_resolves<T>(m: ArenaModel<T>, h: Handle, ops: Seq<Op<T>>)
    requires
        m.wf(),
        h.index < m.slots.len(),
        h.generation < m.slots[h.index as int].generation,
    ensures
        !m.run(ops).valid(h),
        m.run(ops).get(h) is None,
{
    law_generations_grow(m, ops, h.index as int);
}

/// After the removal of what a handle resolved to, the handle resolves to
/// nothing whatever is inserted or removed afterwards, also where its slot
/// is reused.
pub proof fn law_removed_handle_never_resolves<T>(m: ArenaModel<T>, h: Handle, ops: Seq<Op<T>>)
    requires
        m.wf(),
        m.get(h) is Some,
    ensures
        !m.remove(h).run(ops).valid(h),
        m.remove(h).run(ops).get(h) is None,
{
    m.lemma_remove_wf(h);
    law_stale_handle_never_resolves(m.remove(h), h, ops);
}

/// The slot that a removal vacates is the one that the next insertion
/// reuses, under a generation one greater than that of the handle removed.
pub proof fn law_next_insert_reuses_vacated_slot<T>(m: ArenaModel<T>, h: Handle)
    requires
        m.get(h) is Some,
    ensures
        m.remove(h).next_handle() == (Handle { index: h.index, generation: h.generation + 1 }),
{
}

/// While a slot stays vacant, insertions and removals leave its generation
/// as it is.
pub proof fn law_vacant_slot_keeps_generation<T>(m: ArenaModel<T>, ops: Seq<Op<T>>, k: int)
    requires
        m.wf(),
        forall|n: int| 0 <= n <= ops.len() ==> (#[trigger] m.run(ops.take(n))).vacant(k),
    ensures
        0 <= k < m.slots.len(),
        m.run(ops).slots[k].generation == m.slots[k].generation,
    decreases ops.len(),
{
    assert(ops.take(0) =~= Seq::empty());
    assert(m.run(ops.take(0)).vacant(k));
    if ops.len() > 0 {
        let shorter = ops.drop_last();
        assert forall|n: int| 0 <= n <= shorter.len() implies (#[trigger] m.run(
            shorter.take(n),
        )).vacant(k) by {
            assert(shorter.take(n) =~= ops.take(n));
        }
        law_vacant_slot_keeps_generation(m, shorter, k);
        law_run_wf(m, shorter);
        let before = m.run(shorter);
        assert(ops.take(ops.len() as int) =~= ops);
        assert(m.run(ops.take(ops.len() as int)).vacant(k));
        assert(shorter.take(shorter.len() as int) =~= shorter);
        assert(m.run(shorter.take(shorter.len() as int)).vacant(k));
        if before.free.len() > 0 {
            assert(before.vacant(before.free[0] as int));
        }
    }
}

/// Where a slot is vacated and later reused, with the slot vacant in
/// between, the new handle's generation is one greater than that of the
/// handle that vacated the slot.
pub proof fn law_reuse_bumps_generation<T>(m: ArenaModel<T>, h: Handle, ops: Seq<Op<T>>)
    requires
        m.wf(),
        m.get(h) is Some,
        forall|n: int|
            0 <= n <= ops.len() ==> (#[trigger] m.remove(h).run(ops.take(n))).vacant(
                h.index as int,
            ),
        m.remove(h).run(ops).next_handle().index == h.index,
    ensures
        m.remove(h).run(ops).next_handle().generation == h.generation + 1,
{
    m.lemma_remove_wf(h);
    law_vacant_slot_keeps_generation(m.remove(h), ops, h.index as int);
    law_generations_grow(m.remove(h), ops, h.index as int);
}

/// The live handles of `slots` are those of all but the last slot, and the
/// last slot's handle if it holds a value.
proof fn lemma_live_handles_step<T>(slots: Seq<SlotModel<T>>)
    requires
        slots.len() > 0,
    ensures
        live_handles(slots) == if slots.last().value is Some {
            live_handles(slots.drop_last()).insert(
                Handle { index: (slots.len() - 1) as nat, generation: slots.last().generation },
            )
        } else {
            live_handles(slots.drop_last())
        },
{
    let rest = slots.drop_last();
    let newest = Handle { index: (slots.len() - 1) as nat, generation: slots.last().generation };
    if slots.last().value is Some {
        assert(live_handles(slots) =~= live_handles(rest).insert(newest));
    } else {
        assert(live_handles(slots) =~= live_handles(rest));
    }
}

/// There are as many live handles as slots that hold a value.
proof fn lemma_live_handles_count<T>(slots: Seq<SlotModel<T>>)
    ensures
        live_handles(slots).finite(),
        live_handles(slots).len() == occupants(slots).len(),
    decreases slots.len(),
{
    if slots.len() == 0 {
        assert(live_handles(slots) =~= Set::empty());
    } else {
        lemma_live_handles_count(slots.drop_last());
        lemma_live_handles_step(slots);
    }
}

/// The number of values held is the number of handles that resolve to a
/// value.
pub proof fn law_len_counts_live_handles<T>(m: ArenaModel<T>)
    ensures
        live_handles(m.slots).finite(),
        live_handles(m.slots).len() == m.len(),
        forall|h: Handle| live_handles(m.slots).contains(h) <==> m.get(h) is Some,
{
    lemma_live_handles_count(m.slots);
}

/// In every state reached from an arena by insertions and removals, the
/// number of values held is the number of handles that resolve to a value,
/// and it is the number of slots less the length of the free list.
pub proof fn law_len_after_any_history<T>(m: ArenaModel<T>, ops: Seq<Op<T>>)
    requires
        m.wf(),
    ensures
        live_handles(m.run(ops).slots).finite(),
        live_handles(m.run(ops).slots).len() == m.run(ops).len(),
        m.run(ops).len() == m.run(ops).slots.len() - m.run(ops).free.len(),
{
    law_run_wf(m, ops);
    law_len_counts_live_handles(m.run(ops));
    m.run(ops).lemma_len();
}

/// The handles that the insertions among `ops` return, when `ops` is
/// applied to the empty arena.
pub open spec fn issued<T>(ops: Seq<Op<T>>) -> Set<Handle>
    decreases ops.len(),
{
    if ops.len() == 0 {
        Set::empty()
    } else {
        match ops.last() {
            Op::Insert(_) => issued(ops.drop_last()).insert(
                ArenaModel::<T>::empty().run(ops.drop_last()).next_handle(),
            ),
            Op::Remove(_) => issued(ops.drop_last()),
        }
    }
}

/// No handle issued is ahead of its slot, one that is level with its slot
/// finds a value there, and every handle that resolves was issued.
pub proof fn lemma_issued<T>(ops: Seq<Op<T>>)
    ensures
        ArenaModel::<T>::empty().run(ops).wf(),
        issued(ops).finite(),
        forall|h: Handle| #[trigger]
            issued(ops).contains(h) ==> {
                let m = ArenaModel::<T>::empty().run(ops);
                &&& h.index < m.slots.len()
                &&& h.generation <= m.slots[h.index as int].generation
                &&& h.generation == m.slots[h.index as int].generation ==> m.slots[h.index
                    as int].value is Some
            },
        forall|h: Handle|
            ArenaModel::<T>::empty().run(ops).get(h) is Some ==> #[trigger] issued(ops).contains(h),
    decreases ops.len(),
{
    let start = ArenaModel::<T>::empty();
    law_run_wf(start, ops);
    if ops.len() > 0 {
        let earlier = ops.drop_last();
        lemma_issued(earlier);
        let before = start.run(earlier);
        let after = start.run(ops);
        if before.free.len() > 0 {
            assert(before.vacant(before.free[0] as int));
        }
        assert forall|h: Handle| after.get(h) is Some implies #[trigger] issued(ops).contains(
            h,
        ) by {
            if before.get(h) is Some {
                assert(issued(earlier).contains(h));
            }
        }
    }
}

/// Of the handles that an arena has issued since it was empty, the ones
/// that name a slot at its current generation are the ones that resolve to a
/// value, and the number of values held is their number.
pub proof fn law_len_counts_issued_handles<T>(ops: Seq<Op<T>>)
    ensures
        forall|h: Handle| #[trigger]
            issued(ops).contains(h) ==> (ArenaModel::<T>::empty().run(ops).valid(h)
                <==> ArenaModel::<T>::empty().run(ops).get(h) is Some),
        issued(ops).filter(|h: Handle| ArenaModel::<T>::empty().run(ops).valid(h)).finite(),
        issued(ops).filter(|h: Handle| ArenaModel::<T>::empty().run(ops).valid(h)).len()
            == ArenaModel::<T>::empty().run(ops).len(),
{
    let m = ArenaModel::<T>::empty().run(ops);
    lemma_issued(ops);
    law_len_counts_live_handles(m);
    assert(issued(ops).filter(|h: Handle| m.valid(h)) =~= live_handles(m.slots));
}

/// The values held are exactly the values of the occupied slots, in
/// ascending slot order: value `k` sits in slot `positions[k]`, the
/// positions ascend, and every occupied slot is among them.
pub proof fn law_values_in_slot_order<T>(slots: Seq<SlotModel<T>>)
    ensures
        positions(slots).len() == occupants(slots).len(),
        forall|k: int|
            0 <= k < positions(slots).len() ==> 0 <= #[trigger] positions(slots)[k] < slots.len()
                && slots[positions(slots)[k]].value == Some(occupants(slots)[k]),
        forall|j: int, k: int|
            0 <= j < k < positions(slots).len() ==> positions(slots)[j] < positions(slots)[k],
        forall|i: int|
            0 <= i < slots.len() && slots[i].value is Some ==> #[trigger] positions(slots).contains(
                i,
            ),
    decreases slots.len(),
{
    if slots.len() > 0 {
        let rest = slots.drop_last();
        law_values_in_slot_order(rest);
        let here = positions(slots);
        let there = positions(rest);
        assert forall|i: int| 0 <= i < slots.len() && slots[i].value is Some implies here.contains(
            i,
        ) by {
            if i < rest.len() {
                assert(rest[i].value is Some);
                assert(there.contains(i));
                let k = choose|k: int| 0 <= k < there.len() && there[k] == i;
                assert(here[k] == i);
            } else {
                assert(here == there.push(slots.len() - 1));
                assert(here[here.len() - 1] == i);
            }
        }
    }
}

/// The number of values held by the slots before slot `i`.
pub open spec fn rank<T>(slots: Seq<SlotModel<T>>, i: int) -> int {
    occupants(slots.take(i)).len() as int
}

/// The values of `slots` are those before slot `i`, that of slot `i` if it
/// holds one, and those after slot `i`.
proof fn lemma_values_around<T>(slots: Seq<SlotModel<T>>, i: int)
    requires
        0 <= i < slots.len(),
    ensures
        occupants(slots) == occupants(slots.take(i)) + (match slots[i].value {
            Some(v) => seq![v],
            None => Seq::empty(),
        }) + occupants(slots.skip(i + 1)),
{
    let before = slots.take(i);
    let at = seq![slots[i]];
    let after = slots.skip(i + 1);
    assert(slots =~= before + at + after);
    lemma_occupants_concat(before + at, after);
    lemma_occupants_concat(before, at);
    lemma_occupants_single(slots[i]);
}

/// An insertion puts the new value among the values held at the place of
/// its slot: after the values of the slots before it. Without a vacant slot
/// that is the end.
pub proof fn law_insert_values<T>(m: ArenaModel<T>, v: T)
    requires
        m.wf(),
    ensures
        m.insert(v).values() == m.values().insert(rank(m.slots, m.next_handle().index as int), v),
        m.free.len() == 0 ==> m.insert(v).values() == m.values().push(v),
{
    let i = m.next_handle().index as int;
    let after = m.insert(v);
    if m.free.len() > 0 {
        assert(m.vacant(m.free[0] as int));
        lemma_values_around(m.slots, i);
        lemma_values_around(after.slots, i);
        assert(after.slots.take(i) =~= m.slots.take(i));
        assert(after.slots.skip(i + 1) =~= m.slots.skip(i + 1));
        assert(after.values() =~= m.values().insert(rank(m.slots, i), v));
    } else {
        assert(m.slots.take(i) =~= m.slots);
        assert(after.slots.drop_last() =~= m.slots);
        assert(after.values() =~= m.values().insert(rank(m.slots, i), v));
        assert(after.values() =~= m.values().push(v));
    }
}

/// A removal takes the value removed out of the values held and leaves the
/// others in their order.
pub proof fn law_remove_values<T>(m: ArenaModel<T>, h: Handle)
    requires
        m.get(h) is Some,
    ensures
        0 <= rank(m.slots, h.index as int) < m.values().len(),
        m.values()[rank(m.slots, h.index as int)] == m.get(h)->0,
        m.remove(h).values() == m.values().remove(rank(m.slots, h.index as int)),
{
    let i = h.index as int;
    let after = m.remove(h);
    lemma_values_around(m.slots, i);
    lemma_values_around(after.slots, i);
    assert(after.slots.take(i) =~= m.slots.take(i));
    assert(after.slots.skip(i + 1) =~= m.slots.skip(i + 1));
    assert(after.values() =~= m.values().remove(rank(m.slots, i)));
}

/// Overwriting a value changes that value among the values held and no
/// other.
pub proof fn law_replace_values<T>(m: ArenaModel<T>, h: Handle, v: T)
    requires
        m.get(h) is Some,
    ensures
        0 <= rank(m.slots, h.index as int) < m.values().len(),
        m.replace(h, v).values() == m.values().update(rank(m.slots, h.index as int), v),
{
    let i = h.index as int;
    let after = m.replace(h, v);
    lemma_values_around(m.slots, i);
    lemma_values_around(after.slots, i);
    assert(after.slots.take(i) =~= m.slots.take(i));
    assert(after.slots.skip(i + 1) =~= m.slots.skip(i + 1));
    assert(after.values() =~= m.values().update(rank(m.slots, i), v));
}

/// Where an arena differs from an earlier one only in the values held, as
/// after writing through mutable references, every handle that resolved
/// resolves to the value at the same place among the values held, and there
/// are as many values.
pub proof fn law_rewritten_values<T>(m: ArenaModel<T>, n: ArenaModel<T>, h: Handle)
    requires
        m.same_but_values(n),
        m.get(h) is Some,
    ensures
        n.values().len() == m.values().len(),
        0 <= rank(m.slots, h.index as int) < n.values().len(),
        n.get(h) == Some(n.values()[rank(m.slots, h.index as int)]),
{
    let i = h.index as int;
    m.lemma_same_but_values(n);
    assert(n.get(h) is Some);
    law_remove_values(n, h);
    assert forall|k: int| 0 <= k < m.slots.take(i).len() implies ((#[trigger] n.slots.take(
        i,
    )[k]).value is Some <==> m.slots.take(i)[k].value is Some) by {
        assert(n.slots.take(i)[k] == n.slots[k]);
    }
    lemma_same_count(m.slots.take(i), n.slots.take(i));
}

/// From the back the values come in descending slot order: the reverse of
/// the values from the front, and as many.
pub proof fn law_backward_is_reverse<T>(m: ArenaModel<T>)
    ensures
        m.values().reverse().len() == m.len(),
        forall|k: int|
            0 <= k < m.len() ==> #[trigger] m.values().reverse()[k] == m.values()[m.len() - 1 - k],
{
}

} // verus!
