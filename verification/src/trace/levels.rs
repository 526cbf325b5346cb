//! How deep calls of `trace` may nest.
//!
//! An object's `trace` calls [`Visitor::visit`], which calls the `trace` of another object, and
//! so on down. Verus refuses functions that call each other by way of a trait's implementation,
//! since nothing would bound the nesting. Here each call goes through a level of its own, which
//! holds the next one, so that the nesting is bounded by what has been built beforehand.
use crate::gcbox::{self, GcAlloc, Name};
use crate::graph::{self, Graph};
use crate::trace::marks::Marks;
use crate::trace::{self, Trace, Visitor};
use vstd::prelude::*;

verus! {

/// One level of nested calls.
pub trait Level<T> {
    /// How many levels there are from here down.
    spec fn depth(&self) -> nat;

    /// Whether `g` holds, for each of its nodes, the handles that the object in the node's cell
    /// reports.
    spec fn reads(&self, home: usize, cells: Seq<GcAlloc<T>>, g: Graph) -> bool;

    /// Marks the object named `id` and calls its `trace`, during which every object that is
    /// reported and not marked is marked and traced in the same way.
    fn enter(&self, id: Name, cells: &Vec<GcAlloc<T>>, marks: &mut Marks, g: Ghost<Graph>)
        requires
            self.reads(id.home, cells@, g@),
            g@.contains_key(id),
            g@.dom().finite(),
            graph::whole(g@),
            old(marks).wf(),
            old(marks).open(),
            old(marks).covers(id.home, cells@.len()),
            self.depth() > g@.dom().difference(old(marks).marked().insert(id)).len(),
        ensures
            final(marks).wf(),
            final(marks).open(),
            final(marks).covers(id.home, cells@.len()),
            final(marks).before() == old(marks).before(),
            final(marks).reports_before() == old(marks).reports_before(),
            final(marks).reports() == old(marks).reports() + graph::reports(
                g@,
                old(marks).marked().insert(id),
                g@[id],
            ),
            final(marks).traced() == old(marks).traced() + seq![id] + graph::preorder(
                g@,
                old(marks).marked().insert(id),
                g@[id],
            ),
    ;
}

/// The levels from one down, if any are left.
#[verifier::reject_recursive_types(T)]
pub enum Levels<T> {
    Bottom,
    From(Box<dyn Level<T>>),
}

impl<T> Levels<T> {
    /// How many levels there are.
    pub open spec fn depth(&self) -> nat {
        match self {
            Levels::Bottom => 0,
            Levels::From(top) => top.depth(),
        }
    }

    /// Whether every level reads `g` as [`Level::reads`] says.
    pub open spec fn reads(&self, home: usize, cells: Seq<GcAlloc<T>>, g: Graph) -> bool {
        match self {
            Levels::Bottom => true,
            Levels::From(top) => top.reads(home, cells, g),
        }
    }

    /// Enters the object named `id` on the first of the levels: see [`Level::enter`].
    pub(crate) fn enter(
        &self,
        id: Name,
        cells: &Vec<GcAlloc<T>>,
        marks: &mut Marks,
        g: Ghost<Graph>,
    )
        requires
            self.reads(id.home, cells@, g@),
            g@.contains_key(id),
            g@.dom().finite(),
            graph::whole(g@),
            old(marks).wf(),
            old(marks).open(),
            old(marks).covers(id.home, cells@.len()),
            self.depth() > g@.dom().difference(old(marks).marked().insert(id)).len(),
        ensures
            final(marks).wf(),
            final(marks).open(),
            final(marks).covers(id.home, cells@.len()),
            final(marks).before() == old(marks).before(),
            final(marks).reports_before() == old(marks).reports_before(),
            final(marks).reports() == old(marks).reports() + graph::reports(
                g@,
                old(marks).marked().insert(id),
                g@[id],
            ),
            final(marks).traced() == old(marks).traced() + seq![id] + graph::preorder(
                g@,
                old(marks).marked().insert(id),
                g@[id],
            ),
    {
        if let Levels::From(top) = self {
            top.enter(id, cells, marks, g);
        }
    }
}

/// A level with others below it.
#[verifier::reject_recursive_types(T)]
struct Nested<T> {
    below: Levels<T>,
}

impl<T: Trace> Level<T> for Nested<T> {
    closed spec fn depth(&self) -> nat {
        1 + self.below.depth()
    }

    closed spec fn reads(&self, home: usize, cells: Seq<GcAlloc<T>>, g: Graph) -> bool {
        trace::describes(home, cells, g) && self.below.reads(home, cells, g)
    }

    fn enter(&self, id: Name, cells: &Vec<GcAlloc<T>>, marks: &mut Marks, g: Ghost<Graph>) {
        assert(gcbox::filled(id.home, cells@, id));
        let object: &T = gcbox::find(id.home, cells, id).unwrap().get();
        let mut visitor = Visitor::new(id, cells, marks.take(), &self.below, g);
        object.trace(&mut visitor);
        *marks = visitor.finish();
        proof {
            assert(old(marks).traced().push(id) =~= old(marks).traced() + seq![id]);
            graph::lemma_concat_to_set(old(marks).traced(), seq![id]);
            assert(seq![id][0] == id);
            assert(old(marks).traced().push(id).to_set() =~= old(marks).marked().insert(id));
        }
    }
}

impl<T: Trace> Levels<T> {
    /// Every level reads what objects report.
    pub(crate) open spec fn wf(&self) -> bool {
        forall|home: usize, cells: Seq<GcAlloc<T>>, g: Graph| #[trigger]
            trace::describes(home, cells, g) ==> self.reads(home, cells, g)
    }

    /// One level more.
    pub(crate) fn and_one(self) -> (r: Self) where T: 'static
        requires
            self.wf(),
        ensures
            r.wf(),
            r.depth() == self.depth() + 1,
    {
        Levels::From(Box::new(Nested { below: self }))
    }
}

} // verus!
