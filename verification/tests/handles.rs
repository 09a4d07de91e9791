use genarena::{Arena, GenIndex, Id};

#[derive(Copy, Clone, Debug, PartialEq, Eq)]
struct NodeId(Id);

impl From<Id> for NodeId {
    fn from(id: Id) -> Self {
        NodeId(id)
    }
}

impl GenIndex for NodeId {
    type Item = String;

    fn get_id(&self) -> Id {
        self.0
    }
}

#[test]
fn typed_handle_round_trips() {
    let mut arena: Arena<String> = Arena::new();
    let raw = arena.insert_raw("x".to_string());
    let typed = NodeId::from(raw);
    assert_eq!(typed.get_id(), raw);
}

#[test]
fn typed_insert_get_remove() {
    let mut arena: Arena<String> = Arena::new();
    let a: NodeId = arena.insert("a".to_string());
    let b: NodeId = arena.insert("b".to_string());
    assert_eq!(a.get_id().index(), 0);
    assert_eq!(a.get_id().generation(), 0);
    assert_eq!(b.get_id().index(), 1);
    assert!(arena.contains(a));
    assert_eq!(arena.get(a), Some(&"a".to_string()));
    if let Some(v) = arena.get_mut(b) {
        v.push('!');
    }
    assert_eq!(arena.get(b), Some(&"b!".to_string()));
    assert_eq!(arena[a], "a");
    arena.index_mut_typed(a).push('?');
    assert_eq!(arena[a], "a?");
    arena.index_mut_typed(a).pop();
    assert_eq!(arena[b.get_id()], "b!");
    assert_eq!(arena.remove(a), Some("a".to_string()));
    assert!(!arena.contains(a));
    assert_eq!(arena.get(a), None);
    assert_eq!(arena.remove(a), None);
    let c: NodeId = arena.insert("c".to_string());
    assert_eq!(c.get_id().index(), 0);
    assert_eq!(c.get_id().generation(), 1);
    assert_eq!(arena.get(a), None);
    assert_eq!(arena.get_raw(c.get_id()), Some(&"c".to_string()));
}

#[test]
fn handles_compare_by_both_fields() {
    let mut arena: Arena<u8> = Arena::new();
    let a = arena.insert_raw(1);
    let b = arena.insert_raw(2);
    arena.remove_raw(a);
    let c = arena.insert_raw(3);
    assert_eq!(a, a);
    assert_ne!(a, b);
    assert_ne!(a, c);
    assert_eq!(a.index(), c.index());
    let copy = a;
    assert_eq!(copy, a);
    let mut seen = std::collections::HashSet::new();
    assert!(seen.insert(a));
    assert!(seen.insert(b));
    assert!(seen.insert(c));
    assert!(!seen.insert(copy));
}

#[test]
fn a_handle_renders_as_index_and_generation() {
    let mut arena: Arena<u8> = Arena::new();
    let a = arena.insert_raw(1);
    assert_eq!(a.to_string(), "Id(0, 0)");
    arena.remove_raw(a);
    let b = arena.insert_raw(2);
    assert_eq!(b.to_string(), "Id(0, 1)");
    let mut last = b;
    for v in 0..12u8 {
        last = arena.insert_raw(v);
    }
    assert_eq!(last.to_string(), "Id(12, 0)");
    for _ in 0..104 {
        arena.remove_raw(last);
        last = arena.insert_raw(0);
    }
    assert_eq!(last.to_string(), "Id(12, 104)");
}
