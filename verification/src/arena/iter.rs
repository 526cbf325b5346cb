//! Going through the boxes of an arena.
use super::Arena;
use crate::gcbox::{self, GcPtr, GcPtrNonNull, Traverse};
use crate::trace::Trace;
use crate::view;
use vstd::prelude::*;

verus! {

/// A position in the list of an arena's boxes.
#[verifier::reject_recursive_types(T)]
pub struct ArenaIter<'a, T: Trace> {
    cur: GcPtr,
    arena: &'a Arena<T>,
    pos: Ghost<int>,
}

impl<'a, T: Trace> ArenaIter<'a, T> {
    /// The arena.
    pub closed spec fn arena(&self) -> Arena<T> {
        *self.arena
    }

    /// Pointers to the boxes that are still to come.
    pub closed spec fn remaining(&self) -> Seq<GcPtrNonNull> {
        self.arena@.order.skip(self.pos@)
    }

    /// The arena is well formed, and the iterator stands at a box of its list or at the end.
    pub closed spec fn wf(&self) -> bool {
        &&& self.arena.wf()
        &&& 0 <= self.pos@ <= self.arena.list@.len()
        &&& self.cur == view::ptr_at(self.arena.list@, self.pos@)
    }

    pub(super) fn new(arena: &'a Arena<T>) -> (r: Self)
        requires
            arena.wf(),
        ensures
            r.wf(),
            r.arena() == *arena,
            r.remaining() == arena@.order,
    {
        ArenaIter { cur: arena.start, arena, pos: Ghost(0) }
    }

    /// The next box, or nothing at the end of the list.
    pub fn next(&mut self) -> (r: Option<GcPtrNonNull>)
        requires
            old(self).wf(),
        ensures
            final(self).wf(),
            final(self).arena() == old(self).arena(),
            old(self).remaining().len() == 0 ==> {
                &&& r is None
                &&& final(self).remaining() == old(self).remaining()
            },
            old(self).remaining().len() > 0 ==> {
                &&& r == Some(old(self).remaining()[0])
                &&& final(self).remaining() == old(self).remaining().skip(1)
            },
    {
        match self.cur {
            Some(ptr) => {
                assert(gcbox::filled(
                    self.arena.home@,
                    self.arena.cells@,
                    self.arena.list@[self.pos@],
                ));
                assert(super::in_place(self.arena.cells@, self.arena.list@, self.pos@));
                self.cur = self.arena.cells[ptr.cell].inner.as_ref().unwrap().next();
                proof {
                    self.pos@ = self.pos@ + 1;
                }
                Some(ptr)
            },
            None => None,
        }
    }

    /// How many boxes are still to come.
    pub fn count(self) -> (r: usize)
        requires
            self.wf(),
        ensures
            r == self.remaining().len(),
    {
        let mut it = self;
        let mut n: usize = 0;
        proof {
            self.arena.lemma_list_fits();
        }
        while it.next().is_some()
            invariant
                it.wf(),
                n + it.remaining().len() == self.remaining().len(),
                self.remaining().len() <= usize::MAX,
            ensures
                it.remaining().len() == 0,
            decreases it.remaining().len(),
        {
            n = n + 1;
        }
        n
    }
}

} // verus!
