use genarena::{Arena, Id};

fn forward(arena: &Arena<String>) -> Vec<String> {
    let mut it = arena.iter();
    let mut out = Vec::new();
    while let Some(v) = it.next() {
        out.push(v.clone());
    }
    out
}

fn pair(id: Id) -> (u32, u32) {
    (id.index(), id.generation())
}

#[test]
fn scenario_reuse_bumps_generation() {
    let mut arena: Arena<String> = Arena::new();
    let id0 = arena.insert_raw("a".to_string());
    let id1 = arena.insert_raw("b".to_string());
    assert_eq!(pair(id0), (0, 0));
    assert_eq!(pair(id1), (1, 0));
    assert_eq!(arena.remove_raw(id0), Some("a".to_string()));
    assert_eq!(arena.len(), 1);
    let id2 = arena.insert_raw("c".to_string());
    assert_eq!(pair(id2), (0, 1));
    assert_eq!(arena.get_raw(id0), None);
    assert_eq!(arena.get_raw(id2), Some(&"c".to_string()));
    assert_eq!(forward(&arena), vec!["c".to_string(), "b".to_string()]);
}

#[test]
fn scenario_built_from_sequence() {
    let mut arena: Arena<u32> = Arena::from_iter(vec![10, 20, 30]);
    let mut other: Arena<u32> = Arena::new();
    let ids: Vec<Id> = vec![other.insert_raw(0), other.insert_raw(0), other.insert_raw(0)];
    assert_eq!(pair(ids[0]), (0, 0));
    assert_eq!(pair(ids[1]), (1, 0));
    assert_eq!(pair(ids[2]), (2, 0));
    assert_eq!(arena.get_raw(ids[0]), Some(&10));
    assert_eq!(arena.get_raw(ids[1]), Some(&20));
    assert_eq!(arena.get_raw(ids[2]), Some(&30));
    assert_eq!(arena.len(), 3);
    let next = arena.insert_raw(40);
    assert_eq!(pair(next), (3, 0));
}

#[test]
fn new_arena_is_empty() {
    let arena: Arena<u8> = Arena::new();
    assert_eq!(arena.len(), 0);
    assert!(arena.is_empty());
    let with_room: Arena<u8> = Arena::with_capacity(16);
    assert_eq!(with_room.len(), 0);
    assert!(with_room.is_empty());
    let by_default: Arena<u8> = Arena::default();
    assert!(by_default.is_empty());
}

#[test]
fn insert_then_get_and_remove_round_trip() {
    let mut arena: Arena<i64> = Arena::new();
    let id = arena.insert_raw(-7);
    assert_eq!(arena.get_raw(id), Some(&-7));
    assert!(arena.exists_raw(id));
    assert!(!arena.is_empty());
    assert_eq!(arena.remove_raw(id), Some(-7));
    assert!(arena.is_empty());
}

#[test]
fn removal_invalidates_the_handle_for_good() {
    let mut arena: Arena<u32> = Arena::new();
    let id = arena.insert_raw(1);
    assert_eq!(arena.remove_raw(id), Some(1));
    assert_eq!(arena.get_raw(id), None);
    assert!(!arena.exists_raw(id));
    assert_eq!(arena.get_mut_raw(id), None);
    assert_eq!(arena.remove_raw(id), None);
    let again = arena.insert_raw(2);
    assert_eq!(again.index(), id.index());
    assert_eq!(arena.get_raw(id), None);
    assert!(!arena.exists_raw(id));
    assert_eq!(arena.get_raw(again), Some(&2));
}

#[test]
fn each_reuse_advances_the_generation_by_one() {
    let mut arena: Arena<u32> = Arena::new();
    let mut id = arena.insert_raw(0);
    for round in 1..6u32 {
        assert_eq!(arena.remove_raw(id), Some(round - 1));
        let next = arena.insert_raw(round);
        assert_eq!(next.index(), 0);
        assert_eq!(next.generation(), id.generation() + 1);
        assert_eq!(arena.get_raw(id), None);
        id = next;
    }
    assert_eq!(pair(id), (0, 5));
}

#[test]
fn vacated_slots_are_reused_last_freed_first() {
    let mut arena: Arena<u32> = Arena::new();
    let a = arena.insert_raw(1);
    let b = arena.insert_raw(2);
    let c = arena.insert_raw(3);
    assert_eq!(arena.remove_raw(a), Some(1));
    assert_eq!(arena.remove_raw(c), Some(3));
    let first = arena.insert_raw(4);
    let second = arena.insert_raw(5);
    let third = arena.insert_raw(6);
    assert_eq!(pair(first), (2, 1));
    assert_eq!(pair(second), (0, 1));
    assert_eq!(pair(third), (3, 0));
    assert_eq!(arena.get_raw(b), Some(&2));
}

#[test]
fn len_counts_the_handles_that_resolve() {
    let mut arena: Arena<u32> = Arena::new();
    let mut issued: Vec<Id> = Vec::new();
    for round in 0..40u32 {
        issued.push(arena.insert_raw(round));
        if round % 3 == 0 {
            let victim = issued[(round as usize) / 2];
            arena.remove_raw(victim);
        }
        let live = issued.iter().filter(|id| arena.get_raw(**id).is_some()).count();
        assert_eq!(arena.len(), live);
        let named = issued.iter().filter(|id| arena.exists_raw(**id)).count();
        assert_eq!(arena.len(), named);
    }
}

#[test]
fn a_handle_out_of_bounds_resolves_to_nothing() {
    let mut big: Arena<u32> = Arena::new();
    big.insert_raw(0);
    let far = big.insert_raw(1);
    let mut small: Arena<u32> = Arena::new();
    small.insert_raw(9);
    assert!(!small.exists_raw(far));
    assert_eq!(small.get_raw(far), None);
    assert_eq!(small.get_mut_raw(far), None);
    assert_eq!(small.remove_raw(far), None);
    assert_eq!(small.len(), 1);
}

#[test]
fn a_handle_that_names_a_vacant_slot_removes_nothing() {
    let mut donor: Arena<u32> = Arena::new();
    let first = donor.insert_raw(0);
    donor.remove_raw(first);
    let forged = donor.insert_raw(0);
    assert_eq!(pair(forged), (0, 1));

    let mut arena: Arena<u32> = Arena::new();
    let a = arena.insert_raw(7);
    let b = arena.insert_raw(8);
    assert_eq!(arena.remove_raw(a), Some(7));
    assert!(arena.exists_raw(forged));
    assert_eq!(arena.get_raw(forged), None);
    assert_eq!(arena.remove_raw(forged), None);
    assert_eq!(arena.len(), 1);
    let c = arena.insert_raw(9);
    let d = arena.insert_raw(10);
    assert_eq!(pair(c), (0, 1));
    assert_eq!(pair(d), (2, 0));
    assert_eq!(arena.get_raw(b), Some(&8));
    assert_eq!(arena.len(), 3);
}

#[test]
fn get_mut_writes_through() {
    let mut arena: Arena<String> = Arena::new();
    let id = arena.insert_raw("left".to_string());
    match arena.get_mut_raw(id) {
        Some(v) => v.push_str("over"),
        None => panic!("the handle resolves"),
    }
    assert_eq!(arena.get_raw(id), Some(&"leftover".to_string()));
    assert_eq!(arena.len(), 1);
}

#[test]
fn indexed_access_reads_and_writes() {
    let mut arena: Arena<u32> = Arena::new();
    let id = arena.insert_raw(5);
    assert_eq!(arena[id], 5);
    *arena.index_mut(id) += 1;
    assert_eq!(arena[id], 6);
}

#[test]
fn clear_empties_and_restarts() {
    let mut arena: Arena<u32> = Arena::new();
    let a = arena.insert_raw(1);
    arena.insert_raw(2);
    arena.remove_raw(a);
    arena.clear();
    assert_eq!(arena.len(), 0);
    assert!(arena.is_empty());
    assert!(!arena.exists_raw(a));
    let fresh = arena.insert_raw(3);
    assert_eq!(pair(fresh), (0, 0));
    assert_eq!(arena.len(), 1);
}

#[test]
fn reserve_counts_the_vacant_slots_first() {
    let mut arena: Arena<u32> = Arena::new();
    let a = arena.insert_raw(1);
    let b = arena.insert_raw(2);
    arena.insert_raw(3);
    assert_eq!(arena.slots_to_reserve(4), 4);
    arena.remove_raw(a);
    arena.remove_raw(b);
    assert_eq!(arena.slots_to_reserve(0), 0);
    assert_eq!(arena.slots_to_reserve(1), 0);
    assert_eq!(arena.slots_to_reserve(2), 0);
    assert_eq!(arena.slots_to_reserve(3), 1);
    assert_eq!(arena.slots_to_reserve(10), 8);
}

#[test]
fn reserve_keeps_what_is_held() {
    let mut arena: Arena<u32> = Arena::new();
    let a = arena.insert_raw(1);
    let b = arena.insert_raw(2);
    arena.remove_raw(a);
    arena.reserve(1);
    arena.reserve(100);
    arena.reserve_exact(1);
    arena.reserve_exact(1000);
    arena.reserve(usize::MAX);
    arena.reserve_exact(usize::MAX);
    assert_eq!(arena.len(), 1);
    assert_eq!(arena.get_raw(b), Some(&2));
    assert_eq!(arena.get_raw(a), None);
    let c = arena.insert_raw(3);
    assert_eq!(pair(c), (0, 1));
}

#[test]
fn extend_inserts_in_order() {
    let mut arena: Arena<u32> = Arena::new();
    let a = arena.insert_raw(1);
    let b = arena.insert_raw(2);
    arena.remove_raw(a);
    arena.extend(vec![10, 20, 30]);
    assert_eq!(arena.len(), 4);
    let mut it = arena.iter();
    assert_eq!(it.next(), Some(&10));
    assert_eq!(it.next(), Some(&2));
    assert_eq!(it.next(), Some(&20));
    assert_eq!(it.next(), Some(&30));
    assert_eq!(it.next(), None);
    assert_eq!(arena.get_raw(b), Some(&2));
    arena.extend(Vec::new());
    assert_eq!(arena.len(), 4);
}

#[test]
fn from_an_empty_sequence() {
    let mut arena: Arena<u32> = Arena::from_iter(Vec::new());
    assert!(arena.is_empty());
    let id = arena.insert_raw(1);
    assert_eq!(pair(id), (0, 0));
}

#[test]
fn a_clone_holds_the_same() {
    let mut arena: Arena<u32> = Arena::new();
    let a = arena.insert_raw(1);
    let b = arena.insert_raw(2);
    arena.remove_raw(a);
    let mut copy = arena.clone();
    assert_eq!(copy.len(), 1);
    assert_eq!(copy.get_raw(b), Some(&2));
    let c = copy.insert_raw(3);
    assert_eq!(pair(c), (0, 1));
    assert_eq!(arena.len(), 1);
}
