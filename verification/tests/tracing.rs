use gcarena::{Arena, Gc, Names, Trace, Visitor};
use std::cell::RefCell;
use std::rc::Rc;

type Log = Rc<RefCell<Vec<char>>>;

/// A node that writes down when its tracing begins, in lower case, when it ends, in upper case,
/// and when the node is dropped.
struct Probe {
    name: char,
    links: Vec<Gc<Probe>>,
    traces: Log,
    drops: Log,
}

impl Trace for Probe {
    // Spoken of in specifications only, never run.
    fn edges(&self) -> Names {
        unreachable!()
    }

    fn trace(&self, visitor: &mut Visitor<Self>) {
        self.traces.borrow_mut().push(self.name);
        for link in &self.links {
            visitor.visit(link);
        }
        self.traces.borrow_mut().push(self.name.to_ascii_uppercase());
    }
}

impl Drop for Probe {
    fn drop(&mut self) {
        self.drops.borrow_mut().push(self.name);
    }
}

struct Logs {
    traces: Log,
    drops: Log,
}

impl Logs {
    fn new() -> Self {
        Logs { traces: Log::default(), drops: Log::default() }
    }

    fn probe(&self, name: char, links: Vec<Gc<Probe>>) -> Probe {
        Probe { name, links, traces: self.traces.clone(), drops: self.drops.clone() }
    }

    /// The order in which objects were entered.
    fn traced(&self) -> String {
        self.nesting().chars().filter(|c| c.is_ascii_lowercase()).collect()
    }

    fn nesting(&self) -> String {
        self.traces.borrow_mut().drain(..).collect()
    }

    fn dropped(&self) -> String {
        self.drops.borrow_mut().drain(..).collect()
    }
}

#[test]
fn objects_are_traced_depth_first() {
    let logs = Logs::new();
    let mut arena = Arena::new();
    let d = arena.gc(logs.probe('d', vec![]));
    let c = arena.gc(logs.probe('c', vec![d.clone()]));
    let b = arena.gc(logs.probe('b', vec![d]));
    let _a = arena.root(logs.probe('a', vec![b, c]));
    arena.gc(logs.probe('x', vec![]));
    arena.collect();
    assert_eq!(logs.traced(), "abdc");
    arena.collect();
    assert_eq!(logs.traced(), "abdc");
}

#[test]
fn visit_traces_before_it_returns() {
    let logs = Logs::new();
    let mut arena = Arena::new();
    let d = arena.gc(logs.probe('d', vec![]));
    let c = arena.gc(logs.probe('c', vec![d.clone()]));
    let b = arena.gc(logs.probe('b', vec![d]));
    let a = arena.root(logs.probe('a', vec![b, c]));
    Gc::as_mut(&a, &mut arena).links.push(a.clone());
    arena.collect();
    assert_eq!(logs.nesting(), "abdDBcCA");
}

#[test]
fn second_report_has_no_effect() {
    let logs = Logs::new();
    let mut arena = Arena::new();
    let b = arena.gc(logs.probe('b', vec![]));
    let a = arena.root(logs.probe('a', vec![b.clone(), b.clone()]));
    let col = arena.collect();
    assert_eq!((col.total, col.collected), (2, 0));
    assert_eq!(logs.nesting(), "abBA");
    Gc::as_mut(&a, &mut arena).links.pop();
    let col = arena.collect();
    assert_eq!((col.total, col.collected), (2, 0));
    assert_eq!(logs.nesting(), "abBA");
}

#[test]
fn root_below_an_earlier_root_is_traced_twice() {
    let logs = Logs::new();
    let mut arena = Arena::new();
    let b = arena.gc(logs.probe('b', vec![]));
    let _a = arena.root(logs.probe('a', vec![b.clone()]));
    arena.make_root(&b);
    arena.collect();
    assert_eq!(logs.traced(), "abb");
}

#[test]
fn root_below_a_later_root_is_traced_once() {
    let logs = Logs::new();
    let mut arena = Arena::new();
    let b = arena.root(logs.probe('b', vec![]));
    let _a = arena.root(logs.probe('a', vec![b]));
    arena.collect();
    assert_eq!(logs.traced(), "ba");
}

#[test]
fn object_held_twice_is_traced_once() {
    let logs = Logs::new();
    let mut arena = Arena::new();
    let c = arena.gc(logs.probe('c', vec![]));
    let b = arena.gc(logs.probe('b', vec![c.clone()]));
    let a = arena.root(logs.probe('a', vec![c.clone(), b, c]));
    Gc::as_mut(&a, &mut arena).links.push(a.clone());
    arena.collect();
    assert_eq!(logs.traced(), "acb");
}

#[test]
fn freed_objects_are_dropped_newest_first() {
    let logs = Logs::new();
    let mut arena = Arena::new();
    arena.gc(logs.probe('a', vec![]));
    arena.root(logs.probe('b', vec![]));
    arena.gc(logs.probe('c', vec![]));
    arena.collect();
    assert_eq!(logs.traced(), "b");
    assert_eq!(logs.dropped(), "ca");
    arena.collect();
    assert_eq!(logs.dropped(), "");
}

#[test]
fn dropping_the_arena_drops_no_object() {
    let logs = Logs::new();
    let mut arena = Arena::new();
    arena.gc(logs.probe('a', vec![]));
    arena.root(logs.probe('b', vec![]));
    drop(arena);
    assert_eq!(logs.dropped(), "");
}

#[test]
fn replaced_object_is_dropped_once() {
    let logs = Logs::new();
    let mut arena = Arena::new();
    let a = arena.root(logs.probe('a', vec![]));
    *Gc::as_mut(&a, &mut arena) = logs.probe('b', vec![]);
    assert_eq!(logs.dropped(), "a");
    arena.unroot(&a);
    arena.collect();
    assert_eq!(logs.dropped(), "b");
}
