use gcarena::{Arena, Gc, GcPtrNonNull, Names, Trace, Traverse, Visitor};

/// A named node of a graph.
struct Node {
    name: u32,
    links: Vec<Gc<Node>>,
}

impl Trace for Node {
    // Spoken of in specifications only, never run.
    fn edges(&self) -> Names {
        unreachable!()
    }

    fn trace(&self, visitor: &mut Visitor<Self>) {
        for link in &self.links {
            visitor.visit(link);
        }
    }
}

fn leaf(name: u32) -> Node {
    Node { name, links: vec![] }
}

fn node(name: u32, links: Vec<Gc<Node>>) -> Node {
    Node { name, links }
}

fn name(arena: &Arena<Node>, gc: &Gc<Node>) -> Option<u32> {
    Gc::try_as_ref(gc, arena).map(|n| n.name)
}

fn boxes(arena: &mut Arena<Node>) -> Vec<GcPtrNonNull> {
    let mut found = vec![];
    let mut it = arena.iter();
    while let Some(ptr) = it.next() {
        found.push(ptr);
    }
    assert_eq!(it.next(), None);
    found
}

#[test]
fn chain_from_root_survives() {
    let mut arena = Arena::new();
    let d = arena.gc(leaf(4));
    let c = arena.gc(node(3, vec![d.clone()]));
    let b = arena.gc(node(2, vec![c.clone()]));
    let a = arena.root(node(1, vec![b.clone()]));
    let lone = arena.gc(leaf(9));
    let col = arena.collect();
    assert_eq!((col.total, col.collected), (5, 1));
    assert_eq!(name(&arena, &a), Some(1));
    assert_eq!(name(&arena, &b), Some(2));
    assert_eq!(name(&arena, &c), Some(3));
    assert_eq!(name(&arena, &d), Some(4));
    assert_eq!(name(&arena, &lone), None);
}

#[test]
fn unrooted_cycle_is_freed() {
    let mut arena = Arena::new();
    let a = arena.root(leaf(1));
    let b = arena.gc(node(2, vec![a.clone()]));
    Gc::as_mut(&a, &mut arena).links.push(b.clone());
    Gc::as_mut(&a, &mut arena).links.push(a.clone());
    let col = arena.collect();
    assert_eq!((col.total, col.collected), (2, 0));
    arena.unroot(&a);
    let col = arena.collect();
    assert_eq!((col.total, col.collected), (2, 2));
    assert_eq!(name(&arena, &a), None);
    assert_eq!(name(&arena, &b), None);
}

#[test]
fn shared_object_lives_as_long_as_one_holder() {
    let mut arena = Arena::new();
    let shared = arena.gc(leaf(7));
    let a = arena.root(node(1, vec![shared.clone(), shared.clone()]));
    let b = arena.root(node(2, vec![shared.clone()]));
    arena.unroot(&a);
    let col = arena.collect();
    assert_eq!((col.total, col.collected), (3, 1));
    assert_eq!(name(&arena, &shared), Some(7));
    arena.unroot(&b);
    let col = arena.collect();
    assert_eq!((col.total, col.collected), (2, 2));
    assert_eq!(name(&arena, &shared), None);
}

#[test]
fn second_collection_frees_nothing() {
    let mut arena = Arena::new();
    let kept = arena.gc(leaf(1));
    let _root = arena.root(node(2, vec![kept]));
    let _gone = arena.gc(leaf(3));
    let first = arena.collect();
    assert_eq!((first.total, first.collected), (3, 1));
    let second = arena.collect();
    assert_eq!((second.total, second.collected), (2, 0));
}

#[test]
fn empty_arena_collects_nothing() {
    let mut arena: Arena<Node> = Arena::new();
    let col = arena.collect();
    assert_eq!((col.total, col.collected), (0, 0));
}

#[test]
fn unroot_of_unrooted_object_changes_nothing() {
    let mut arena = Arena::new();
    let a = arena.root(leaf(1));
    let b = arena.gc(leaf(2));
    arena.unroot(&b);
    let col = arena.collect();
    assert_eq!((col.total, col.collected), (2, 1));
    assert_eq!(name(&arena, &a), Some(1));
}

#[test]
fn unroot_keeps_the_other_roots() {
    let mut arena = Arena::new();
    let a = arena.root(leaf(1));
    let b = arena.root(leaf(2));
    let c = arena.root(leaf(3));
    arena.unroot(&b);
    let col = arena.collect();
    assert_eq!((col.total, col.collected), (3, 1));
    assert_eq!(name(&arena, &a), Some(1));
    assert_eq!(name(&arena, &b), None);
    assert_eq!(name(&arena, &c), Some(3));
}

#[test]
fn roots_of_gone_objects_are_refused() {
    let mut arena = Arena::new();
    let a = arena.gc(leaf(1));
    arena.collect();
    arena.make_root(&a);
    arena.unroot(&a);
    let col = arena.collect();
    assert_eq!((col.total, col.collected), (0, 0));
    assert_eq!(name(&arena, &a), None);
}

#[test]
fn stale_handle_never_finds_a_newer_object() {
    let mut arena = Arena::new();
    let a = arena.gc(leaf(1));
    let old = a.clone();
    arena.collect();
    let b = arena.root(leaf(2));
    assert_eq!(name(&arena, &old), None);
    assert_eq!(name(&arena, &b), Some(2));
    assert!(!Gc::ptr_eq(&old, &b));
    assert!(Gc::ptr_eq(&old, &a));
}

#[test]
fn writes_are_read_back() {
    let mut arena = Arena::new();
    let a = arena.root(leaf(1));
    let b = arena.root(leaf(2));
    Gc::as_mut(&a, &mut arena).name = 10;
    if let Some(n) = Gc::try_as_mut(&b, &mut arena) {
        n.name = 20;
    }
    assert_eq!(Gc::as_ref(&a, &arena).name, 10);
    assert_eq!(name(&arena, &b), Some(20));
    assert_eq!(name(&arena, &a.clone()), Some(10));
}

#[test]
fn dropping_a_link_drops_its_object() {
    let mut arena = Arena::new();
    let b = arena.gc(leaf(2));
    let a = arena.root(node(1, vec![b.clone()]));
    assert_eq!(arena.collect().collected, 0);
    Gc::as_mut(&a, &mut arena).links.clear();
    assert_eq!(arena.collect().collected, 1);
    assert_eq!(name(&arena, &b), None);
}

#[test]
fn boxes_come_newest_first() {
    let mut arena = Arena::new();
    let handles = vec![
        arena.root(leaf(0)),
        arena.gc(leaf(1)),
        arena.root(leaf(2)),
        arena.gc(leaf(3)),
        arena.root(leaf(4)),
    ];
    let all = boxes(&mut arena);
    assert_eq!(all.len(), 5);
    arena.collect();
    let kept = boxes(&mut arena);
    assert_eq!(kept, vec![all[0], all[2], all[4]]);
    let newest = arena.root(leaf(5));
    let more = boxes(&mut arena);
    assert_eq!(more[1..], kept[..]);
    assert_eq!(arena.iter().count(), 4);
    assert_eq!(name(&arena, &newest), Some(5));
    assert_eq!(name(&arena, &handles[1]), None);
    assert_eq!(name(&arena, &handles[4]), Some(4));
}

#[test]
fn count_starts_where_the_iterator_stands() {
    let mut arena = Arena::new();
    for i in 0..3 {
        arena.root(leaf(i));
    }
    let mut it = arena.iter();
    it.next();
    assert_eq!(it.count(), 2);
}

#[test]
fn links_run_both_ways() {
    let mut arena = Arena::new();
    for i in 0..6 {
        if i % 2 == 0 {
            arena.root(leaf(i));
        } else {
            arena.gc(leaf(i));
        }
    }
    arena.collect();
    let all = boxes(&mut arena);
    assert_eq!(all.len(), 3);
    for i in 0..3 {
        let b = arena.get(all[i]).unwrap();
        let next = if i + 1 < 3 { Some(all[i + 1]) } else { None };
        let prev = if i > 0 { Some(all[i - 1]) } else { None };
        assert_eq!(b.next(), next);
        assert_eq!(b.prev(), prev);
    }
}

#[test]
fn first_and_last_box_can_be_freed() {
    let mut arena = Arena::new();
    arena.gc(leaf(0));
    arena.root(leaf(1));
    arena.gc(leaf(2));
    let all = boxes(&mut arena);
    let col = arena.collect();
    assert_eq!((col.total, col.collected), (3, 2));
    assert_eq!(boxes(&mut arena), vec![all[1]]);
    let b = arena.get(all[1]).unwrap();
    assert_eq!((b.next(), b.prev()), (None, None));
    assert!(arena.get(all[0]).is_none());
    assert!(arena.get(all[2]).is_none());
}

#[test]
fn marks_tell_survivors_from_new_objects() {
    let mut arena = Arena::new();
    arena.root(leaf(1));
    let first = boxes(&mut arena)[0];
    assert!(!arena.get(first).unwrap().marked());
    arena.collect();
    assert!(arena.get(first).unwrap().marked());
    arena.gc(leaf(2));
    let newest = boxes(&mut arena)[0];
    assert!(!arena.get(newest).unwrap().marked());
    assert!(arena.get(first).unwrap().marked());
}

#[test]
fn long_chain_is_traced() {
    let mut arena = Arena::new();
    let mut last = arena.gc(leaf(0));
    for i in 1..2_000 {
        last = arena.gc(node(i, vec![last]));
    }
    arena.make_root(&last);
    let col = arena.collect();
    assert_eq!((col.total, col.collected), (2_000, 0));
    arena.unroot(&last);
    let col = arena.collect();
    assert_eq!((col.total, col.collected), (2_000, 2_000));
}

#[test]
fn many_objects_need_no_deep_stack() {
    let mut arena = Arena::new();
    let links: Vec<_> = (0..200_000).map(|i| arena.gc(leaf(i))).collect();
    let hub = arena.root(node(1, links));
    let col = arena.collect();
    assert_eq!((col.total, col.collected), (200_001, 0));
    arena.unroot(&hub);
    let col = arena.collect();
    assert_eq!((col.total, col.collected), (200_001, 200_001));
    drop(arena);
}

#[test]
fn unroot_of_gone_object_without_roots_changes_nothing() {
    let mut arena = Arena::new();
    let a = arena.gc(leaf(1));
    let b = arena.gc(leaf(2));
    arena.collect();
    arena.unroot(&a);
    arena.unroot(&b);
    assert_eq!(arena.collect().total, 0);
}

#[test]
fn arenas_are_told_apart() {
    let mut one = Arena::new();
    let mut two = Arena::new();
    let a = one.root(leaf(1));
    let b = two.root(leaf(2));
    assert!(!Gc::ptr_eq(&a, &b));
    assert_eq!(name(&one, &b), None);
    assert_eq!(name(&two, &a), None);
    assert!(Gc::try_as_mut(&a, &mut two).is_none());
    assert_eq!(name(&one, &a), Some(1));
    assert_eq!(name(&two, &b), Some(2));
    let of_one = boxes(&mut one)[0];
    let of_two = boxes(&mut two)[0];
    assert_ne!(of_one, of_two);
    assert!(one.get(of_two).is_none());
    assert!(two.get(of_two).is_some());
}

#[test]
fn arena_in_place_of_a_dropped_one_is_another() {
    let mut one = Arena::new();
    let a = one.root(leaf(1));
    drop(one);
    for i in 0..100 {
        let mut next = Arena::new();
        let b = next.root(leaf(i));
        assert!(!Gc::ptr_eq(&a, &b));
        assert_eq!(name(&next, &a), None);
    }
}
