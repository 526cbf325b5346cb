# gcarena

A mark-and-sweep garbage collector, written in Verus, with its behaviour proved.

An `Arena<T>` owns objects of one type `T`; an enum makes it hold several kinds. `gc` and `root`
put an object in and give back a `Gc<T>` handle, `make_root` and `unroot` change what is a root,
and `collect` frees every object that no chain of handles leads to from a root. Objects report
the handles they hold through `Trace`. A handle to a collected object stays safe to use: it finds
nothing, and never finds another object.

    let mut arena = Arena::new();
    let leaf = arena.gc(Object::Simple);
    let root = arena.root(Object::Container(vec![leaf.clone()]));
    arena.collect();
    assert!(Gc::try_as_ref(&leaf, &arena).is_some());
    arena.unroot(&root);
    arena.collect();
    assert!(Gc::try_as_ref(&leaf, &arena).is_none());

Objects are read and changed through the arena, which every access names. A handle belongs to
the arena that made it: it finds nothing in an arena with another home, and can be made a root in
its own only. That no two arenas have the same home at a time is not proved: it rests on the
allocator, which gives out no place twice. An object that a root leads to must hold no handle of
another arena and none to an object that has been collected: `collect` asks for that.

A collection traces each root in turn. `Visitor::visit` marks and traces the object that is
reported before it returns, unless the object is marked already, so calls nest as deep as chains
of handles are long. Verus lets no function call itself by way of a trait that users implement,
so each nested call goes through a level of its own; the arena builds as many levels as it has
objects, and keeps them.

Only a collection runs the destructors of objects: dropping the arena gives back their memory and
runs none. Destructors are beyond what Verus can state, so this is held by tests. What is proved
is that each object that is freed is taken out of its box.

- `src/arena.rs`, `src/arena/`: the arena, its collector and the iterator over its boxes
- `src/gcbox.rs`: boxes, their links, and the cells that own them
- `src/gc.rs`, `src/trace.rs`: handles, and how objects report them
- `src/trace/`: the marks of a collection, and the levels that its calls go through
- `src/home.rs`: what tells one arena from another
- `src/view.rs`, `src/graph.rs`: the contents of an arena as a mathematical value, reachability
- `src/laws.rs`: what holds across operations
- `app/`: standard traits over the library
