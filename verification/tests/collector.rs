use gcarena::{Arena, Gc, Names, Trace, Visitor};
use std::cell::Cell;
use std::fmt::{self, Debug, Formatter};
use std::rc::Rc;

struct RunOnDrop {
    func: fn(&Cell<usize>),
    data: Rc<Cell<usize>>,
}

impl Drop for RunOnDrop {
    fn drop(&mut self) {
        (self.func)(&self.data);
    }
}

enum Object {
    Simple,
    Container(Vec<Gc<Object>>),
    RunOnDrop(RunOnDrop),
}

impl PartialEq for Object {
    fn eq(&self, other: &Self) -> bool {
        match (self, other) {
            (Object::Simple, Object::Simple) => true,
            _ => false,
        }
    }
}

impl Eq for Object {}

impl Debug for Object {
    fn fmt(&self, f: &mut Formatter) -> fmt::Result {
        match self {
            Object::Simple => f.write_str("Simple"),
            Object::Container(v) => f.write_str(&format!("Container:{}", v.len())),
            Object::RunOnDrop(_) => f.write_str("RunOnDrop:?"),
        }
    }
}

impl Trace for Object {
    // Spoken of in specifications only, never run.
    fn edges(&self) -> Names {
        unreachable!()
    }

    fn trace(&self, visitor: &mut Visitor<Self>) {
        match self {
            Object::Simple => (),
            Object::Container(v) => {
                for r in v {
                    visitor.visit(r);
                }
            }
            Object::RunOnDrop(_) => (),
        }
    }
}

#[test]
fn doesnt_free_roots() {
    let mut arena = Arena::new();
    let _a = arena.root(Object::Simple);
    let _b = arena.root(Object::Simple);
    let col = arena.collect();
    assert_eq!(col.total, 2);
    assert_eq!(col.collected, 0);
}

#[test]
fn frees_unrooted() {
    let mut arena = Arena::new();
    let _a = arena.gc(Object::Simple);
    let _b = arena.gc(Object::Simple);
    let col = arena.collect();
    assert_eq!(col.total, 2);
    assert_eq!(col.collected, 2);
}

#[test]
fn visits_children() {
    let mut arena = Arena::new();
    let c = arena.gc(Object::Simple);
    let _b = arena.gc(Object::Simple);
    let _a = arena.root(Object::Container(vec![c]));
    let col = arena.collect();
    assert_eq!(col.total, 3);
    assert_eq!(col.collected, 1);
}

#[test]
fn calls_drop() {
    let mut arena = Arena::new();
    let drop_cnt = Rc::new(Cell::new(0usize));

    fn increment(i: &Cell<usize>) {
        i.set(i.get() + 1);
    }

    let _a = arena.gc(Object::RunOnDrop(RunOnDrop {
        func: increment,
        data: drop_cnt.clone(),
    }));
    let col = arena.collect();
    assert_eq!(col.total, 1);
    assert_eq!(col.collected, 1);
    assert_eq!(drop_cnt.get(), 1);
}

#[test]
fn rooted_borrow_lives() {
    let mut arena = Arena::new();
    let a = arena.root(Object::Simple);
    let col = arena.collect();
    assert_eq!(col.total, 1);
    assert_eq!(col.collected, 0);
    assert_eq!(Gc::as_ref(&a, &arena), &Object::Simple);
    assert_eq!(Gc::as_mut(&a, &mut arena), &mut Object::Simple);
}

#[test]
fn unrooted_borrow_dies() {
    let mut arena = Arena::new();
    let a = arena.gc(Object::Simple);
    let col = arena.collect();
    assert_eq!(col.total, 1);
    assert_eq!(col.collected, 1);
    assert_eq!(Gc::try_as_ref(&a, &arena), None);
    assert_eq!(Gc::try_as_mut(&a, &mut arena), None);
}

#[test]
fn borrow_dies_after_unroot() {
    let mut arena = Arena::new();
    let a = arena.root(Object::Simple);
    let col = arena.collect();
    assert_eq!(col.total, 1);
    assert_eq!(col.collected, 0);
    assert_eq!(Gc::as_ref(&a, &arena), &Object::Simple);
    assert_eq!(Gc::as_mut(&a, &mut arena), &mut Object::Simple);
    arena.unroot(&a);
    let col = arena.collect();
    assert_eq!(col.total, 1);
    assert_eq!(col.collected, 1);
    assert_eq!(Gc::try_as_ref(&a, &arena), None);
    assert_eq!(Gc::try_as_mut(&a, &mut arena), None);
}

#[test]
fn iterative() {
    let mut arena = Arena::new();
    for _ in 0..5 {
        let a = arena.root(Object::Simple);
        let col = arena.collect();
        assert_eq!(col.total, 1);
        assert_eq!(col.collected, 0);
        assert_eq!(Gc::as_ref(&a, &arena), &Object::Simple);
        assert_eq!(Gc::as_mut(&a, &mut arena), &mut Object::Simple);
        arena.unroot(&a);
        let col = arena.collect();
        assert_eq!(col.total, 1);
        assert_eq!(col.collected, 1);
        assert_eq!(Gc::try_as_ref(&a, &arena), None);
        assert_eq!(Gc::try_as_mut(&a, &mut arena), None);
    }
}

#[test]
fn no_boxes_in_empty_arena() {
    let mut arena: Arena<Object> = Arena::new();
    assert_eq!(arena.iter().next(), None);
}

#[test]
fn no_boxes_in_reclaimed_arena() {
    let mut arena = Arena::new();
    for count in 1..5 {
        let _refs = std::iter::repeat_with(|| arena.gc(Object::Simple))
            .take(count)
            .collect::<Vec<_>>();
        let col = arena.collect();
        assert_eq!(col.total, count);
        assert_eq!(col.collected, count);
        assert_eq!(arena.iter().next(), None);
    }
}

#[test]
fn roots_outlive_refs() {
    let mut arena = Arena::new();
    let mut total = 0usize;
    for count in 1..5 {
        let _refs = std::iter::repeat_with(|| arena.root(Object::Simple))
            .take(count)
            .collect::<Vec<_>>();
        total += count;
        let col = arena.collect();
        assert_eq!(col.total, total);
        assert_eq!(col.collected, 0);
        assert!(arena.iter().next().is_some());
        assert_eq!(arena.iter().count(), total);
    }
}

#[test]
fn ergonomic_matching() {
    let mut arena = Arena::new();
    let a = arena.root(Object::Simple);
    let b = arena.root(Object::Container(Vec::new()));
    let c = |x: Gc<Object>| match Gc::as_ref(&x, &arena) {
        Object::Simple => println!("simple object"),
        Object::Container(_) => println!("container"),
        _ => println!("something else"),
    };
    c(a);
    c(b);
}

#[test]
fn later_make_root_saves() {
    let mut arena = Arena::new();
    let a = arena.gc(Object::Simple);
    arena.make_root(&a);
    let col = arena.collect();
    assert_eq!(col.total, 1);
    assert_eq!(col.collected, 0);
    assert_eq!(Gc::as_ref(&a, &arena), &Object::Simple);
}

#[test]
fn unroot_undoes_make_root() {
    let mut arena = Arena::new();
    let a = arena.gc(Object::Simple);
    arena.make_root(&a);
    let col = arena.collect();
    assert_eq!(col.total, 1);
    assert_eq!(col.collected, 0);
    arena.unroot(&a);
    let col = arena.collect();
    assert_eq!(col.total, 1);
    assert_eq!(col.collected, 1);
    assert_eq!(Gc::try_as_ref(&a, &arena), None);
}

#[test]
fn multiple_make_roots_are_idempotent() {
    let mut arena = Arena::new();
    let a = arena.gc(Object::Simple);
    for _ in 0..5 {
        arena.make_root(&a);
    }
    let col = arena.collect();
    assert_eq!(col.total, 1);
    assert_eq!(col.collected, 0);
    arena.unroot(&a);
    let col = arena.collect();
    assert_eq!(col.total, 1);
    assert_eq!(col.collected, 1);
}

#[test]
fn same_alloc() {
    let mut arena = Arena::new();
    let a = arena.root(Object::Simple);
    let b = a.clone();
    let c = arena.root(Object::Simple);
    assert!(Gc::ptr_eq(&a, &b));
    assert!(Gc::ptr_eq(&b, &a));
    assert!(!Gc::ptr_eq(&a, &c));
    assert!(!Gc::ptr_eq(&b, &c));
}
