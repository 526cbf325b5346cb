//! The arena.
use crate::dropped::Dropped;
use crate::gc::Gc;
use crate::gcbox::{self, GcAlloc, GcBox, GcPtr, GcPtrNonNull, Name, Traverse};
use crate::home::Home;
use crate::trace::levels::Levels;
use crate::trace::marks::Journal;
use crate::trace::Trace;
use crate::view::{self, ArenaView};
use std::mem::ManuallyDrop;
use vstd::prelude::*;

mod collect;
mod iter;

pub use self::collect::Collection;
pub use self::iter::ArenaIter;

verus! {

/// The owner of a set of objects of one type, and their collector.
///
/// Every object ever made has a cell, and cells are not reused, so that a handle to a
/// collected object never finds another one. An empty cell takes the room of one pointer.
///
/// Only a collection drops objects: those that are there when the arena itself is dropped are
/// not dropped with it. Nor are the levels that it has built for nested calls of `trace`, since
/// to drop them all would nest as deep.
#[verifier::reject_recursive_types(T)]
pub struct Arena<T: Trace> {
    home: Home,
    cells: Vec<GcAlloc<T>>,
    start: GcPtr,
    roots: Vec<GcPtrNonNull>,
    levels: ManuallyDrop<Levels<T>>,
    depth: usize,
    journal: Option<Journal>,
    dropped: Dropped<T>,
    list: Ghost<Seq<Name>>,
}

/// Whether the box of the `i`th name of `list` has the links of that place.
spec fn in_place<T>(cells: Seq<GcAlloc<T>>, list: Seq<Name>, i: int) -> bool {
    &&& gcbox::box_at(cells, list[i]).header().next == view::ptr_at(list, i + 1)
    &&& gcbox::box_at(cells, list[i]).header().prev == view::ptr_at(list, i - 1)
}

/// Whether the boxes in `cells` are linked in the order of `list`.
spec fn linked<T>(home: usize, cells: Seq<GcAlloc<T>>, list: Seq<Name>) -> bool {
    &&& list.no_duplicates()
    &&& forall|i: int| 0 <= i < list.len() ==> gcbox::filled(home, cells, #[trigger] list[i])
    &&& forall|i: int| 0 <= i < list.len() ==> #[trigger] in_place(cells, list, i)
    &&& forall|id: Name| #[trigger] gcbox::filled(home, cells, id) ==> list.contains(id)
}

impl<T: Trace> View for Arena<T> {
    type V = ArenaView<T>;

    closed spec fn view(&self) -> ArenaView<T> {
        ArenaView {
            home: self.home@,
            objects: Map::new(
                |id: Name| gcbox::filled(self.home@, self.cells@, id),
                |id: Name| gcbox::box_at(self.cells@, id).value(),
            ),
            order: self.list@,
            roots: self.roots@,
            marked: Set::new(
                |id: Name|
                    gcbox::filled(self.home@, self.cells@, id) && gcbox::box_at(
                        self.cells@,
                        id,
                    ).header().mark,
            ),
            traced: self.journal->0.calls(),
            reported: self.journal->0.reports(),
            dropped: self.dropped@,
            issued: self.cells@.len(),
        }
    }
}

impl<T: Trace> Arena<T> {
    /// The list runs through every box once, the newest first, from `start` on, and roots are
    /// boxes of the list.
    pub closed spec fn wf(&self) -> bool {
        &&& linked(self.home@, self.cells@, self.list@)
        &&& view::newest_first(self.list@)
        &&& self.journal is Some
        &&& self.journal->0.at() == self.home@
        &&& self.levels@.wf()
        &&& self.levels@.depth() == self.depth
        &&& self.start == view::ptr_at(self.list@, 0)
        &&& self.roots@.no_duplicates()
        &&& forall|id: Name| #[trigger]
            self.roots@.contains(id) ==> gcbox::filled(self.home@, self.cells@, id)
    }

    /// An arena without objects. That no other arena has its home rests on the allocator: see
    /// [`Home`].
    pub fn new() -> (r: Self)
        ensures
            r.wf(),
            r@ == ArenaView::<T>::empty(r@.home),
    {
        let journal = Journal::new();
        let r = Arena {
            home: journal.home(),
            cells: Vec::new(),
            start: None,
            roots: Vec::new(),
            levels: ManuallyDrop::new(Levels::Bottom),
            depth: 0,
            journal: Some(journal),
            dropped: Dropped::none(),
            list: Ghost(Seq::empty()),
        };
        reveal(view::newest_first);
        assert(r@.objects =~= Map::empty());
        assert(r@.marked =~= Set::empty());
        r
    }

    /// The contents satisfy what [`ArenaView::valid`] says.
    pub proof fn lemma_valid(&self)
        requires
            self.wf(),
        ensures
            self@.valid(),
    {
        assert forall|id: Name| #[trigger] self@.order.contains(id) implies self@.live(id) by {
            let i = choose|i: int| 0 <= i < self.list@.len() && self.list@[i] == id;
            assert(gcbox::filled(self.home@, self.cells@, self.list@[i]));
        }
        assert(self.cells.len() <= usize::MAX);
    }

    /// The length of the list fits in a `usize`.
    proof fn lemma_list_fits(&self)
        requires
            self.wf(),
        ensures
            self@.order.len() <= usize::MAX,
    {
        assert(self.cells.len() <= usize::MAX);
        if self.list@.len() > 0 {
            assert(gcbox::filled(self.home@, self.cells@, self.list@[0]));
            lemma_cells_go_down(self.list@, self.list@.len() - 1);
        }
    }

    /// Makes `value` an object of the arena.
    pub fn gc(&mut self, value: T) -> (r: Gc<T>) where T: 'static
        requires
            old(self).wf(),
        ensures
            final(self).wf(),
            final(self)@ == old(self)@.allocated(value),
            r.name() == old(self)@.fresh(),
    {
        let id: Name = Name { home: self.home.place(), cell: self.cells.len() };
        self.cells.push(GcAlloc::new(value, self.start));
        if let Some(first) = self.start {
            assert(first == self.list@[0]);
            self.cells[first.cell].inner.as_mut().unwrap().set_prev(Some(id));
        }
        self.start = Some(id);
        proof {
            self.list@ = seq![id] + self.list@;
            let before = *old(self);
            assert forall|i: int| 0 <= i < self.list@.len() implies gcbox::filled(
                self.home@,
                self.cells@,
                #[trigger] self.list@[i],
            ) by {
                if i > 0 {
                    assert(gcbox::filled(before.home@, before.cells@, before.list@[i - 1]));
                }
            }
            assert forall|i: int| 0 <= i < self.list@.len() implies #[trigger] in_place(
                self.cells@,
                self.list@,
                i,
            ) by {
                if i > 0 {
                    assert(self.list@[i] == before.list@[i - 1]);
                    assert(in_place(before.cells@, before.list@, i - 1));
                }
            }
            assert forall|x: Name| #[trigger]
                gcbox::filled(self.home@, self.cells@, x) implies self.list@.contains(x) by {
                if x == id {
                    assert(self.list@[0] == id);
                } else {
                    assert(gcbox::filled(before.home@, before.cells@, x));
                    let i = choose|i: int| 0 <= i < before.list@.len() && before.list@[i] == x;
                    assert(self.list@[i + 1] == x);
                }
            }
            assert forall|x: Name| #[trigger] self.roots@.contains(x) implies gcbox::filled(
                self.home@,
                self.cells@,
                x,
            ) by {
                assert(gcbox::filled(before.home@, before.cells@, x));
            }
            assert(view::newest_first(self.list@)) by {
                reveal(view::newest_first);
            }
            assert(self@.objects =~= before@.allocated(value).objects);
            assert(self@.marked =~= before@.marked);
        }
        Gc::new(&self.home, id.cell)
    }

    /// Makes `value` an object of the arena, and a root.
    pub fn root(&mut self, value: T) -> (r: Gc<T>) where T: 'static
        requires
            old(self).wf(),
        ensures
            final(self).wf(),
            final(self)@ == old(self)@.allocated(value).rooted(old(self)@.fresh()),
            final(self)@.roots == old(self)@.roots.push(r.name()),
            r.name() == old(self)@.fresh(),
    {
        let gc = self.gc(value);
        proof {
            old(self).lemma_valid();
        }
        self.add_root(gc.ptr());
        gc
    }

    /// Makes the object that `gc` names a root, unless it is one already or is gone. The handle
    /// must be one of this arena.
    pub fn make_root(&mut self, gc: &Gc<T>)
        requires
            old(self).wf(),
            gc.name().home == old(self)@.home,
        ensures
            final(self).wf(),
            final(self)@ == old(self)@.rooted(gc.name()),
    {
        let id: Name = gc.ptr();
        if self.holds(id) {
            let mut i: usize = 0;
            while i < self.roots.len()
                invariant
                    i <= self.roots.len(),
                    *self == *old(self),
                    id == gc.name(),
                    self.wf(),
                    forall|j: int| 0 <= j < i ==> self.roots@[j] != id,
                decreases self.roots.len() - i,
            {
                if self.roots[i] == id {
                    assert(self.roots@.contains(id));
                    return ;
                }
                i = i + 1;
            }
            self.add_root(id);
        }
    }

    fn holds(&self, id: Name) -> (r: bool)
        ensures
            r == self@.live(id),
    {
        gcbox::find(self.home.place(), &self.cells, id).is_some()
    }

    /// Makes the object named `id` a root.
    fn add_root(&mut self, id: Name)
        requires
            old(self).wf(),
            old(self)@.live(id),
            !old(self)@.roots.contains(id),
        ensures
            final(self).wf(),
            final(self)@ == old(self)@.rooted(id),
    {
        self.roots.push(id);
        assert forall|x: Name| #[trigger] self.roots@.contains(x) implies gcbox::filled(
            self.home@,
            self.cells@,
            x,
        ) by {
            if x != id {
                let i = choose|i: int| 0 <= i < self.roots@.len() && self.roots@[i] == x;
                assert(old(self).roots@[i] == x);
                assert(old(self).roots@.contains(x));
            }
        }
    }

    /// Makes the object that `gc` names no root. The object must not be gone, unless there are
    /// no roots at all.
    pub fn unroot(&mut self, gc: &Gc<T>)
        requires
            old(self).wf(),
            old(self)@.live(gc.name()) || old(self)@.roots.len() == 0,
        ensures
            final(self).wf(),
            final(self)@ == old(self)@.unrooted(gc.name()),
    {
        let id: Name = gc.ptr();
        let ghost keep = view::other_than(gc.name());
        let mut roots: Vec<GcPtrNonNull> = Vec::new();
        let mut i: usize = 0;
        while i < self.roots.len()
            invariant
                i <= self.roots.len(),
                *self == *old(self),
                id == gc.name(),
                keep == view::other_than(gc.name()),
                roots@ == self.roots@.take(i as int).filter(keep),
            decreases self.roots.len() - i,
        {
            let r: Name = self.roots[i];
            proof {
                reveal(Seq::filter);
                assert(self.roots@.take(i + 1).drop_last() =~= self.roots@.take(i as int));
            }
            if r != id {
                roots.push(r);
            }
            i = i + 1;
        }
        proof {
            assert(self.roots@.take(i as int) =~= self.roots@);
            view::lemma_filter_distinct(self.roots@, keep);
            view::lemma_filter_members(self.roots@, keep);
        }
        self.roots = roots;
    }

    /// Goes through the boxes of the arena, the newest first.
    pub fn iter<'s>(&'s mut self) -> (r: ArenaIter<'s, T>)
        requires
            old(self).wf(),
        ensures
            *final(self) == *old(self),
            r.wf(),
            r.arena() == *old(self),
            r.remaining() == old(self)@.order,
    {
        ArenaIter::new(self)
    }

    /// The box that `ptr` points at, if there is one.
    pub fn get(&self, ptr: GcPtrNonNull) -> (r: Option<&GcBox<T>>)
        requires
            self.wf(),
        ensures
            r is Some <==> self@.live(ptr),
            r matches Some(b) ==> {
                &&& b.value() == self@.objects[ptr]
                &&& b.header() == self@.header(ptr)
            },
    {
        if self.holds(ptr) {
            proof {
                assert(gcbox::filled(self.home@, self.cells@, ptr));
                let i = choose|i: int| 0 <= i < self.list@.len() && self.list@[i] == ptr;
                assert(in_place(self.cells@, self.list@, i));
                self@.lemma_header_at(i);
            }
            gcbox::find(self.home.place(), &self.cells, ptr)
        } else {
            None
        }
    }

    pub(crate) fn value(&self, id: Name) -> (r: Option<&T>)
        ensures
            r is Some <==> self@.live(id),
            r matches Some(v) ==> *v == self@.objects[id],
    {
        if self.holds(id) {
            Some(self.cells[id.cell].inner.as_ref().unwrap().get())
        } else {
            None
        }
    }

    pub(crate) fn value_mut(&mut self, id: Name) -> (r: Option<&mut T>)
        requires
            old(self).wf(),
        ensures
            r is Some <==> old(self)@.live(id),
            r is None ==> *final(self) == *old(self),
            r matches Some(v) ==> {
                &&& *v == old(self)@.objects[id]
                &&& final(self).wf()
                &&& final(self)@ == old(self)@.replaced(id, *final(v))
            },
    {
        if self.holds(id) {
            let ghost after = *final(self);
            let v = self.cells[id.cell].inner.as_mut().unwrap().get_mut();
            proof {
                after.lemma_value_replaced(*old(self), id);
            }
            Some(v)
        } else {
            None
        }
    }

    /// Another object in one of the boxes keeps the arena well formed.
    proof fn lemma_value_replaced(&self, before: Self, id: Name)
        requires
            before.wf(),
            gcbox::filled(before.home@, before.cells@, id),
            self.home == before.home,
            self.start == before.start,
            self.roots == before.roots,
            self.levels == before.levels,
            self.depth == before.depth,
            self.journal == before.journal,
            self.dropped == before.dropped,
            self.list == before.list,
            self.cells@ == before.cells@.update(id.cell as int, self.cells@[id.cell as int]),
            self.cells@[id.cell as int].inner is Some,
            gcbox::box_at(self.cells@, id).header() == gcbox::box_at(before.cells@, id).header(),
        ensures
            self.wf(),
            self@ == before@.replaced(id, gcbox::box_at(self.cells@, id).value()),
    {
        assert forall|i: int| 0 <= i < self.list@.len() implies gcbox::filled(
            self.home@,
            self.cells@,
            #[trigger] self.list@[i],
        ) && gcbox::box_at(self.cells@, self.list@[i]).header() == gcbox::box_at(
            before.cells@,
            self.list@[i],
        ).header() by {
            assert(gcbox::filled(before.home@, before.cells@, before.list@[i]));
        }
        assert forall|i: int| 0 <= i < self.list@.len() implies #[trigger] in_place(
            self.cells@,
            self.list@,
            i,
        ) by {
            assert(in_place(before.cells@, before.list@, i));
            assert(gcbox::filled(self.home@, self.cells@, self.list@[i]));
        }
        assert forall|x: Name| #[trigger]
            gcbox::filled(self.home@, self.cells@, x) implies gcbox::filled(
            before.home@,
            before.cells@,
            x,
        ) by {}
        let value = gcbox::box_at(self.cells@, id).value();
        assert(self@.objects =~= before@.replaced(id, value).objects);
        assert(self@.marked =~= before@.marked);
    }
}

/// The cells of a list with the newest first go down by one at least from box to box.
proof fn lemma_cells_go_down(list: Seq<Name>, i: int)
    requires
        view::newest_first(list),
        0 <= i < list.len(),
    ensures
        list[i].cell + i <= list[0].cell,
    decreases i,
{
    reveal(view::newest_first);
    if i > 0 {
        lemma_cells_go_down(list, i - 1);
    }
}

} // verus!
