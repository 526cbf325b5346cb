//! How objects report the handles they hold, and are traced.
use crate::gc::Gc;
use crate::gcbox::{self, GcAlloc, Name};
use crate::graph::{self, Graph};
use vstd::prelude::*;

pub mod levels;
pub mod marks;

use self::levels::Levels;
use self::marks::Marks;

verus! {

/// What stays the same for a [`Visitor`] while it is there.
pub struct Scope {
    /// The home of the arena that is collecting, and how many cells it has.
    pub home: usize,
    pub len: nat,
    /// The objects that the collection reaches, each with the handles that it holds.
    pub graph: Graph,
    /// The object that reports to the visitor.
    pub id: Name,
    /// What had been traced in the collection when the object was entered, and the object.
    pub start: Seq<Name>,
    /// The calls of `trace` that had been made on objects of the arena before the collection.
    pub before: Seq<Name>,
    /// What had been reported in the collection when the object was entered.
    pub reports_start: Seq<Name>,
    /// What had been reported in the arena before the collection.
    pub reports_before: Seq<Name>,
}

/// Takes the handles that an object reports while it is traced, and follows them.
#[verifier::reject_recursive_types(T)]
pub struct Visitor<'a, T> {
    cells: &'a Vec<GcAlloc<T>>,
    marks: Marks,
    below: &'a Levels<T>,
    scope: Ghost<Scope>,
    reported: Ghost<Seq<Name>>,
}

impl<'a, T> Visitor<'a, T> {
    /// The names that have been reported, in order.
    pub closed spec fn view(&self) -> Seq<Name> {
        self.reported@
    }

    /// What stays the same.
    pub closed spec fn scope(&self) -> Scope {
        self.scope@
    }

    /// The names of the objects that have been traced so far in this collection, in the order of
    /// the calls of [`Trace::trace`].
    pub closed spec fn traced(&self) -> Seq<Name> {
        self.marks.traced()
    }

    /// The names that have been reported so far in this collection, by any object, in order.
    pub closed spec fn reports(&self) -> Seq<Name> {
        self.marks.reports()
    }

    /// The names of the objects that have been marked so far in this collection.
    pub open spec fn marked(&self) -> Set<Name> {
        self.traced().to_set()
    }

    /// The names that may be reported: those of the objects that the collection reaches, all of
    /// them in the arena that is collecting.
    pub open spec fn live(&self) -> Set<Name> {
        self.scope().graph.dom()
    }

    /// What has been reported has been followed, and there are levels enough for what is left.
    pub closed spec fn wf(&self) -> bool {
        let scope = self.scope@;
        let g = scope.graph;
        &&& g.dom().finite()
        &&& graph::whole(g)
        &&& forall|n: Name| #[trigger] g.contains_key(n) ==> n.home == scope.home && n.cell
            < scope.len
        &&& self.cells@.len() == scope.len
        &&& self.below.reads(scope.home, self.cells@, g)
        &&& self.below.depth() >= g.dom().difference(self.marks.marked()).len()
        &&& self.marks.wf()
        &&& self.marks.open()
        &&& self.marks.before() == scope.before
        &&& self.marks.reports_before() == scope.reports_before
        &&& self.marks.reports() == scope.reports_start + graph::reports(
            g,
            scope.start.to_set(),
            self.reported@,
        )
        &&& self.marks.covers(scope.home, scope.len)
        &&& self.marks.traced() == scope.start + graph::preorder(
            g,
            scope.start.to_set(),
            self.reported@,
        )
    }

    /// A visitor for the call of `trace` on the object named `id`, which is marked. Nothing has
    /// been reported.
    fn new(
        id: Name,
        cells: &'a Vec<GcAlloc<T>>,
        marks: Marks,
        below: &'a Levels<T>,
        g: Ghost<Graph>,
    ) -> (r: Self)
        requires
            g@.dom().finite(),
            graph::whole(g@),
            forall|n: Name| #[trigger] g@.contains_key(n) ==> n.home == id.home && n.cell
                < cells@.len(),
            g@.contains_key(id),
            below.reads(id.home, cells@, g@),
            below.depth() >= g@.dom().difference(marks.marked().insert(id)).len(),
            marks.wf(),
            marks.open(),
            marks.covers(id.home, cells@.len()),
        ensures
            r.wf(),
            r.scope() == (Scope {
                home: id.home,
                len: cells@.len(),
                graph: g@,
                id,
                start: marks.traced().push(id),
                before: marks.before(),
                reports_start: marks.reports(),
                reports_before: marks.reports_before(),
            }),
            r@ == Seq::<Name>::empty(),
    {
        let mut marks = marks;
        marks.set(id);
        let ghost scope = Scope {
            home: id.home,
            len: cells@.len(),
            graph: g@,
            id,
            start: marks.traced(),
            before: marks.before(),
            reports_start: marks.reports(),
            reports_before: marks.reports_before(),
        };
        assert(marks.reports() + Seq::<Name>::empty() =~= marks.reports());
        assert(marks.traced() + Seq::<Name>::empty() =~= marks.traced());
        Visitor { cells, marks, below, scope: Ghost(scope), reported: Ghost(Seq::empty()) }
    }

    /// The marks as they are when the object has reported its handles, each once.
    fn finish(self) -> (r: Marks)
        requires
            self.wf(),
            self@ == self.scope().graph[self.scope().id],
        ensures
            r.wf(),
            r.open(),
            r.before() == self.scope().before,
            r.reports_before() == self.scope().reports_before,
            r.reports() == self.scope().reports_start + graph::reports(
                self.scope().graph,
                self.scope().start.to_set(),
                self@,
            ),
            r.covers(self.scope().home, self.scope().len),
            r.traced() == self.scope().start + graph::preorder(
                self.scope().graph,
                self.scope().start.to_set(),
                self@,
            ),
    {
        self.marks
    }

    /// Reports `gc` as a handle held by the object that is being traced. If the object that `gc`
    /// names is not marked, it is marked and its `trace` is called, and with it the `trace` of
    /// all that it leads to and is not marked: see [`graph::preorder`]. The handle must be one
    /// of the arena that is collecting, and its object must not be gone.
    pub fn visit(&mut self, gc: &Gc<T>)
        requires
            old(self).wf(),
            old(self).live().contains(gc.name()),
        ensures
            final(self).wf(),
            final(self).scope() == old(self).scope(),
            final(self)@ == old(self)@.push(gc.name()),
            final(self).traced() == old(self).traced() + graph::preorder(
                old(self).scope().graph,
                old(self).marked(),
                seq![gc.name()],
            ),
            final(self).reports() == old(self).reports() + graph::reports(
                old(self).scope().graph,
                old(self).marked(),
                seq![gc.name()],
            ),
            old(self).marked().contains(gc.name()) ==> final(self).traced() == old(self).traced(),
            !old(self).marked().contains(gc.name()) ==> {
                &&& final(self).traced()[old(self).traced().len() as int] == gc.name()
                &&& graph::times(final(self).traced(), gc.name()) == 1
            },
            final(self).marked().contains(gc.name()),
            old(self).marked().subset_of(final(self).marked()),
            forall|a: Name, b: Name| #[trigger]
                final(self).marked().contains(a) && !old(self).marked().contains(a)
                    && #[trigger] old(self).scope().graph[a].contains(b)
                    ==> final(self).marked().contains(b),
    {
        let id: Name = gc.ptr();
        let ghost g = self.scope@.graph;
        let ghost before = *self;
        assert(g.contains_key(id));
        self.marks.report(id);
        if !self.marks.has(id) {
            proof {
                let left = g.dom().difference(self.marks.marked());
                assert(left.contains(id));
                assert(g.dom().difference(self.marks.marked().insert(id)) =~= left.remove(id));
            }
            self.below.enter(id, self.cells, &mut self.marks, Ghost(g));
        }
        proof {
            self.reported@ = self.reported@.push(id);
            lemma_visited(g, before.traced(), id);
            let start = self.scope@.start;
            graph::lemma_preorder_concat(g, start.to_set(), before@, seq![id]);
            graph::lemma_concat_to_set(start, graph::preorder(g, start.to_set(), before@));
            assert(before@ + seq![id] =~= before@.push(id));
            let more = graph::preorder(g, before.marked(), seq![id]);
            assert(self.marks.traced() =~= before.traced() + more);
            assert(start + (graph::preorder(g, start.to_set(), before@) + more)
                =~= before.traced() + more);
            graph::lemma_concat_to_set(before.traced(), more);
            lemma_visit_is_complete(g, before.traced(), id);
            lemma_visit_reported(g, before.traced(), id);
            graph::lemma_reports_concat(g, start.to_set(), before@, seq![id]);
            let reports = graph::reports(g, before.marked(), seq![id]);
            let earlier = graph::reports(g, start.to_set(), before@);
            assert(self.marks.reports() =~= before.reports() + reports);
            assert(self.scope@.reports_start + (earlier + reports) =~= before.reports() + reports);
            vstd::set_lib::lemma_len_subset(
                g.dom().difference(self.marks.marked()),
                g.dom().difference(before.marks.marked()),
            );
        }
    }
}

/// What a visit of `id` adds to `traced`.
proof fn lemma_visited(g: Graph, traced: Seq<Name>, id: Name)
    requires
        g.dom().finite(),
        g.contains_key(id),
    ensures
        graph::preorder(g, traced.to_set(), seq![id]) == if traced.to_set().contains(id) {
            Seq::empty()
        } else {
            seq![id] + graph::preorder(g, traced.to_set().insert(id), g[id])
        },
{
    assert(seq![id].skip(1) =~= Seq::<Name>::empty());
    assert(g[id] + Seq::<Name>::empty() =~= g[id]);
    assert(seq![id][0] == id);
    assert(graph::preorder(g, traced.to_set(), Seq::<Name>::empty()) == Seq::<Name>::empty());
}

/// What a visit of `id` adds to what has been reported.
proof fn lemma_visit_reported(g: Graph, traced: Seq<Name>, id: Name)
    requires
        g.dom().finite(),
        g.contains_key(id),
    ensures
        graph::reports(g, traced.to_set(), seq![id]) == seq![id] + if traced.to_set().contains(
            id,
        ) {
            Seq::empty()
        } else {
            graph::reports(g, traced.to_set().insert(id), g[id])
        },
{
    assert(seq![id].skip(1) =~= Seq::<Name>::empty());
    assert(g[id] + Seq::<Name>::empty() =~= g[id]);
    assert(seq![id][0] == id);
    assert(graph::reports(g, traced.to_set(), Seq::<Name>::empty()) == Seq::<Name>::empty());
}

/// What holds of the calls that a visit of `id` makes.
proof fn lemma_visit_is_complete(g: Graph, traced: Seq<Name>, id: Name)
    requires
        g.dom().finite(),
        graph::whole(g),
        g.contains_key(id),
    ensures
        ({
            let more = graph::preorder(g, traced.to_set(), seq![id]);
            &&& traced.contains(id) || more.contains(id)
            &&& !traced.contains(id) ==> more[0] == id && more.len() > 0
            &&& !traced.contains(id) ==> graph::times(traced + more, id) == 1
            &&& forall|a: Name, b: Name| #[trigger]
                more.contains(a) && #[trigger] g[a].contains(b) ==> traced.contains(b)
                    || more.contains(b)
        }),
{
    let more = graph::preorder(g, traced.to_set(), seq![id]);
    lemma_visited(g, traced, id);
    assert(graph::closed_under_edges(g, g.dom()));
    assert(seq![id][0] == id);
    graph::lemma_preorder(g, traced.to_set(), seq![id], g.dom());
    assert(seq![id].contains(id));
    assert forall|a: Name, b: Name| #[trigger]
        more.contains(a) && #[trigger] g[a].contains(b) implies traced.contains(b)
        || more.contains(b) by {
        assert(g.contains_key(a));
        assert(g.contains_key(b));
    }
    if !traced.contains(id) {
        graph::lemma_times_concat(traced, more, id);
        graph::lemma_times_distinct(more, id);
        traced.to_multiset_ensures();
    }
}

/// A sequence of names, of which only specifications speak.
pub type Names = Seq<Name>;

/// An object that can be traced.
pub trait Trace: Sized {
    /// The names of the handles that the object holds, in the order in which it reports them.
    spec fn edges(&self) -> Names;

    /// Reports every handle that the object holds, by calls of [`Visitor::visit`].
    fn trace(&self, visitor: &mut Visitor<'_, Self>)
        requires
            old(visitor).wf(),
            forall|n: Name| #[trigger]
                self.edges().contains(n) ==> old(visitor).live().contains(n),
        ensures
            final(visitor).wf(),
            final(visitor).scope() == old(visitor).scope(),
            final(visitor)@ == old(visitor)@ + self.edges(),
    ;
}

/// Whether every node of `g` names an object in `cells`, and `g` holds what it reports.
pub(crate) open spec fn describes<T: Trace>(
    home: usize,
    cells: Seq<GcAlloc<T>>,
    g: Graph,
) -> bool {
    forall|n: Name| #[trigger]
        g.contains_key(n) ==> gcbox::filled(home, cells, n) && g[n] == gcbox::box_at(
            cells,
            n,
        ).value().edges()
}

} // verus!
