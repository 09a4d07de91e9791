use genarena::{Arena, Id};

fn holes() -> (Arena<u32>, Vec<Id>) {
    let mut arena: Arena<u32> = Arena::new();
    let mut ids = Vec::new();
    for v in 0..8u32 {
        ids.push(arena.insert_raw(v * 10));
    }
    arena.remove_raw(ids[0]);
    arena.remove_raw(ids[3]);
    arena.remove_raw(ids[4]);
    arena.remove_raw(ids[7]);
    (arena, ids)
}

#[test]
fn forward_yields_present_values_in_slot_order() {
    let (arena, _) = holes();
    let mut it = arena.iter();
    let mut seen = Vec::new();
    while let Some(v) = it.next() {
        seen.push(*v);
    }
    assert_eq!(seen, vec![10, 20, 50, 60]);
    assert_eq!(seen.len(), arena.len());
}

#[test]
fn backward_yields_the_same_in_reverse() {
    let (arena, _) = holes();
    let mut it = arena.iter();
    let mut seen = Vec::new();
    while let Some(v) = it.next_back() {
        seen.push(*v);
    }
    assert_eq!(seen, vec![60, 50, 20, 10]);
    assert_eq!(seen.len(), arena.len());
}

#[test]
fn both_ends_meet_without_repeating() {
    let (arena, _) = holes();
    let mut it = arena.iter();
    assert_eq!(it.next(), Some(&10));
    assert_eq!(it.next_back(), Some(&60));
    assert_eq!(it.next_back(), Some(&50));
    assert_eq!(it.next(), Some(&20));
    assert_eq!(it.next(), None);
    assert_eq!(it.next_back(), None);
}

#[test]
fn size_hint_is_exact_at_every_step() {
    let (arena, _) = holes();
    let mut it = arena.iter();
    let mut left = arena.len();
    assert_eq!(it.size_hint(), (4, Some(4)));
    while it.next().is_some() {
        left -= 1;
        assert_eq!(it.size_hint(), (left, Some(left)));
    }
    assert_eq!(left, 0);
    assert_eq!(it.size_hint(), (0, Some(0)));
}

#[test]
fn an_exhausted_iterator_stays_exhausted() {
    let (arena, _) = holes();
    let mut it = arena.iter();
    while it.next().is_some() {}
    for _ in 0..3 {
        assert_eq!(it.next(), None);
        assert_eq!(it.next_back(), None);
        assert_eq!(it.size_hint(), (0, Some(0)));
    }
}

#[test]
fn an_empty_arena_yields_nothing() {
    let arena: Arena<u32> = Arena::new();
    let mut it = arena.iter();
    assert_eq!(it.size_hint(), (0, Some(0)));
    assert_eq!(it.next(), None);
    let mut all_gone: Arena<u32> = Arena::new();
    let id = all_gone.insert_raw(1);
    all_gone.remove_raw(id);
    let mut it = all_gone.iter();
    assert_eq!(it.size_hint(), (0, Some(0)));
    assert_eq!(it.next(), None);
    assert_eq!(it.next_back(), None);
}

#[test]
fn a_cloned_iterator_goes_on_from_the_same_place() {
    let (arena, _) = holes();
    let mut it = arena.iter();
    assert_eq!(it.next(), Some(&10));
    let mut twin = it.clone();
    assert_eq!(it.next(), Some(&20));
    assert_eq!(twin.next(), Some(&20));
    assert_eq!(twin.size_hint(), (2, Some(2)));
}

#[test]
fn mutable_iteration_writes_through() {
    let (mut arena, ids) = holes();
    {
        let mut it = arena.iter_mut();
        assert_eq!(it.size_hint(), (4, Some(4)));
        let first = it.next();
        let last = it.next_back();
        match (first, last) {
            (Some(a), Some(b)) => {
                assert_eq!((*a, *b), (10, 60));
                *a += 1;
                *b += 2;
            }
            _ => panic!("four values are held"),
        }
        assert_eq!(it.size_hint(), (2, Some(2)));
        while let Some(v) = it.next() {
            *v += 5;
        }
        assert!(it.next().is_none());
        assert!(it.next_back().is_none());
        assert_eq!(it.size_hint(), (0, Some(0)));
    }
    assert_eq!(arena.get_raw(ids[1]), Some(&11));
    assert_eq!(arena.get_raw(ids[2]), Some(&25));
    assert_eq!(arena.get_raw(ids[5]), Some(&55));
    assert_eq!(arena.get_raw(ids[6]), Some(&62));
    assert_eq!(arena.len(), 4);
    let next = arena.insert_raw(1);
    assert_eq!((next.index(), next.generation()), (7, 1));
}

#[test]
fn consuming_iteration_hands_the_values_over() {
    let mut arena: Arena<String> = Arena::new();
    let a = arena.insert_raw("a".to_string());
    arena.insert_raw("b".to_string());
    arena.insert_raw("c".to_string());
    arena.insert_raw("d".to_string());
    arena.remove_raw(a);
    let mut it = arena.into_iter();
    assert_eq!(it.size_hint(), (3, Some(3)));
    assert_eq!(it.next_back(), Some("d".to_string()));
    assert_eq!(it.next(), Some("b".to_string()));
    assert_eq!(it.size_hint(), (1, Some(1)));
    assert_eq!(it.next(), Some("c".to_string()));
    assert_eq!(it.next(), None);
    assert_eq!(it.next_back(), None);
    assert_eq!(it.size_hint(), (0, Some(0)));
}

#[test]
fn consuming_iteration_backward() {
    let (arena, _) = holes();
    let mut it = arena.into_iter();
    let mut seen = Vec::new();
    while let Some(v) = it.next_back() {
        seen.push(v);
    }
    assert_eq!(seen, vec![60, 50, 20, 10]);
}

#[test]
fn mutable_iteration_leaves_handles_and_vacancies_alone() {
    let mut arena: Arena<i32> = Arena::new();
    let i0 = arena.insert_raw(1);
    let i1 = arena.insert_raw(2);
    let i2 = arena.insert_raw(3);
    assert_eq!(arena.remove_raw(i1), Some(2));
    {
        let mut it = arena.iter_mut();
        let mut visited = 0;
        while let Some(x) = it.next() {
            *x *= 10;
            visited += 1;
        }
        assert_eq!(visited, 2);
    }
    assert_eq!(arena.get_raw(i0), Some(&10));
    assert_eq!(arena.get_raw(i2), Some(&30));
    assert_eq!(arena.get_raw(i1), None);
    assert_eq!(arena.len(), 2);
    assert!(arena.exists_raw(i0));
    assert!(arena.exists_raw(i2));
    assert!(!arena.exists_raw(i1));
    let reused = arena.insert_raw(4);
    assert_eq!((reused.index(), reused.generation()), (1, 1));
}

#[test]
fn mutable_iteration_from_the_back_writes_through() {
    let (mut arena, ids) = holes();
    {
        let mut it = arena.iter_mut();
        while let Some(x) = it.next_back() {
            *x += 1;
        }
    }
    assert_eq!(arena.get_raw(ids[1]), Some(&11));
    assert_eq!(arena.get_raw(ids[2]), Some(&21));
    assert_eq!(arena.get_raw(ids[5]), Some(&51));
    assert_eq!(arena.get_raw(ids[6]), Some(&61));
    assert_eq!(arena.get_raw(ids[0]), None);
    assert_eq!(arena.len(), 4);
}
