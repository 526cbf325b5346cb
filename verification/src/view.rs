//! What an arena holds, and what each operation makes of it.
use crate::gcbox::{GcPtr, Header, Name};
use crate::graph::{self, Graph};
use crate::trace::Trace;
use vstd::prelude::*;

verus! {

/// What tells `id` apart from every other name.
pub open spec fn other_than(id: Name) -> spec_fn(Name) -> bool {
    |x: Name| x != id
}

/// What tells the members of `kept` apart.
pub open spec fn member_of(kept: Set<Name>) -> spec_fn(Name) -> bool {
    |x: Name| kept.contains(x)
}

/// What tells the names apart that are not in `kept`.
pub open spec fn outside(kept: Set<Name>) -> spec_fn(Name) -> bool {
    |x: Name| !kept.contains(x)
}

/// Whether every name in `order` is of a later object than those after it.
#[verifier::opaque]
pub open spec fn newest_first(order: Seq<Name>) -> bool {
    forall|i: int, j: int| 0 <= i < j < order.len() ==> order[i].cell > order[j].cell
}

/// The pointer to the `i`th box of a list, null past either end.
pub open spec fn ptr_at(order: Seq<Name>, i: int) -> GcPtr {
    if 0 <= i < order.len() {
        Some(order[i])
    } else {
        None
    }
}

/// The contents of an arena. Objects go by the names that their handles carry.
#[verifier::ext_equal]
pub struct ArenaView<T> {
    /// The home of the arena, which is part of the names of its objects.
    pub home: usize,
    /// The objects that have not been collected.
    pub objects: Map<Name, T>,
    /// The names of those objects in the order of the arena's list, the newest first.
    pub order: Seq<Name>,
    /// The names of the roots, the oldest first.
    pub roots: Seq<Name>,
    /// The names of the objects whose mark bit is set.
    pub marked: Set<Name>,
    /// The names of the objects that collections have traced, in the order of the calls of
    /// [`Trace::trace`].
    pub traced: Seq<Name>,
    /// The names that objects have reported to collections, in the order of the calls of
    /// [`Visitor::visit`](crate::Visitor::visit).
    pub reported: Seq<Name>,
    /// The objects that collections have dropped, the first first.
    pub dropped: Seq<T>,
    /// How many objects the arena has ever made. The next object gets the cell of this number.
    pub issued: nat,
}

impl<T> ArenaView<T> {
    /// The contents of a new arena.
    pub open spec fn empty(home: usize) -> Self {
        ArenaView {
            home,
            objects: Map::empty(),
            order: Seq::empty(),
            roots: Seq::empty(),
            marked: Set::empty(),
            traced: Seq::empty(),
            reported: Seq::empty(),
            dropped: Seq::empty(),
            issued: 0,
        }
    }

    /// Whether `id` names an object that has not been collected.
    pub open spec fn live(self, id: Name) -> bool {
        self.objects.contains_key(id)
    }

    /// What holds of the contents of every arena: the list holds each object once and the newest
    /// first, roots are objects and none is a root twice, marks are on objects, and every name
    /// is of this arena and has been issued.
    pub open spec fn valid(self) -> bool {
        &&& newest_first(self.order)
        &&& self.order.no_duplicates()
        &&& forall|id: Name| #[trigger] self.order.contains(id) <==> self.live(id)
        &&& self.roots.no_duplicates()
        &&& forall|id: Name| #[trigger] self.roots.contains(id) ==> self.live(id)
        &&& forall|id: Name| #[trigger] self.marked.contains(id) ==> self.live(id)
        &&& forall|id: Name| #[trigger]
            self.live(id) ==> id.home == self.home && id.cell < self.issued
        &&& self.issued <= usize::MAX
    }

    /// The header of the box of a live object: its links are those of the list.
    pub open spec fn header(self, id: Name) -> Header {
        let i = self.order.index_of(id);
        Header {
            mark: self.marked.contains(id),
            next: ptr_at(self.order, i + 1),
            prev: ptr_at(self.order, i - 1),
        }
    }

    /// The position of an object in the list is the only one at which its name stands.
    pub proof fn lemma_header_at(self, i: int)
        requires
            self.order.no_duplicates(),
            0 <= i < self.order.len(),
        ensures
            self.header(self.order[i]) == (Header {
                mark: self.marked.contains(self.order[i]),
                next: ptr_at(self.order, i + 1),
                prev: ptr_at(self.order, i - 1),
            }),
    {
        assert(self.order.contains(self.order[i]));
        assert(self.order.index_of(self.order[i]) == i);
    }

    /// The name that the next object gets.
    pub open spec fn fresh(self) -> Name {
        Name { home: self.home, cell: self.issued as usize }
    }

    /// With `value` as a new object, unmarked and at the front of the list.
    pub open spec fn allocated(self, value: T) -> Self {
        ArenaView {
            objects: self.objects.insert(self.fresh(), value),
            order: seq![self.fresh()] + self.order,
            issued: self.issued + 1,
            ..self
        }
    }

    /// With `id` as a root: unchanged if it is one already, or if it names no object here.
    pub open spec fn rooted(self, id: Name) -> Self {
        if self.live(id) && !self.roots.contains(id) {
            ArenaView { roots: self.roots.push(id), ..self }
        } else {
            self
        }
    }

    /// Without `id` among the roots.
    pub open spec fn unrooted(self, id: Name) -> Self {
        ArenaView { roots: self.roots.filter(other_than(id)), ..self }
    }

    /// With `value` in place of the object named `id`.
    pub open spec fn replaced(self, id: Name, value: T) -> Self {
        ArenaView { objects: self.objects.insert(id, value), ..self }
    }

    /// Without the object named `id`.
    pub open spec fn freed(self, id: Name) -> Self {
        ArenaView {
            objects: self.objects.remove(id),
            order: self.order.remove(self.order.index_of(id)),
            marked: self.marked.remove(id),
            ..self
        }
    }

    /// The object that a name is of.
    pub open spec fn object(self) -> spec_fn(Name) -> T {
        |id: Name| self.objects[id]
    }

    /// The objects that are not in `kept`, in the order of the list.
    pub open spec fn without(self, kept: Set<Name>) -> Seq<T> {
        self.order.filter(outside(kept)).map_values(self.object())
    }

    /// With the objects in `kept` alone, the rest of the list in its order.
    pub open spec fn restricted(self, kept: Set<Name>) -> Self {
        ArenaView {
            objects: self.objects.restrict(kept),
            order: self.order.filter(member_of(kept)),
            ..self
        }
    }
}

impl<T: Trace> ArenaView<T> {
    /// The objects, each with the handles that it holds.
    pub open spec fn graph(self) -> Graph {
        self.objects.map_values(|value: T| value.edges())
    }

    /// The objects that some chain of handles leads to from a root.
    pub open spec fn reached(self) -> Set<Name> {
        Set::new(|id: Name| graph::reachable(self.graph(), self.roots, id))
    }

    /// Whether every handle held by a reached object names an object of this arena that is still
    /// there.
    pub open spec fn traceable(self) -> bool {
        forall|a: Name, b: Name| #[trigger]
            self.reached().contains(a) && #[trigger] self.objects[a].edges().contains(b)
                ==> self.live(b)
    }

    /// Whether every handle held by any object names an object of this arena that is still there.
    pub open spec fn no_dangling(self) -> bool {
        forall|a: Name, b: Name| #[trigger]
            self.live(a) && #[trigger] self.objects[a].edges().contains(b) ==> self.live(b)
    }

    /// The objects that are reached, each with the handles that it holds.
    pub open spec fn reached_graph(self) -> Graph {
        self.graph().restrict(self.reached())
    }

    /// The names of the objects that a collection traces, in order: each root in turn, and from
    /// it, depth-first, what has not been traced yet.
    pub open spec fn tracing(self) -> Seq<Name> {
        graph::walk(self.graph(), Set::empty(), self.roots)
    }

    /// The names that are reported to a collection, in order.
    pub open spec fn reporting(self) -> Seq<Name> {
        graph::walk_reports(self.graph(), Set::empty(), self.roots)
    }

    /// There are no more nodes than the list holds, every edge between reached objects leads to
    /// another, and roots are reached.
    pub proof fn lemma_reached_graph(self)
        requires
            self.valid(),
        ensures
            self.graph().dom().finite(),
            self.reached_graph().dom().finite(),
            self.reached_graph().dom().len() <= self.order.len(),
            self.traceable() ==> graph::whole(self.reached_graph()),
            forall|id: Name| #[trigger]
                self.roots.contains(id) ==> self.reached_graph().contains_key(id),
            graph::walk(self.reached_graph(), Set::empty(), self.roots) == self.tracing(),
            graph::walk_reports(self.reached_graph(), Set::empty(), self.roots)
                == self.reporting(),
    {
        let all = self.order.to_set();
        let g = self.graph();
        let part = self.reached_graph();
        assert forall|id: Name| #[trigger] g.contains_key(id) implies all.contains(id) by {
            assert(self.live(id));
        }
        self.order.unique_seq_to_set();
        vstd::seq_lib::seq_to_set_is_finite(self.order);
        vstd::set_lib::lemma_len_subset(g.dom(), all);
        vstd::set_lib::lemma_len_subset(part.dom(), all);
        assert forall|a: Name, b: Name| #[trigger]
            self.reached().contains(a) && g.contains_key(a) && #[trigger] g[a].contains(b)
                && g.contains_key(b) implies self.reached().contains(b) by {
            graph::lemma_edge_reachable(g, self.roots, a, b);
        }
        if self.traceable() {
            assert forall|a: Name, b: Name| #[trigger]
                part.contains_key(a) && #[trigger] part[a].contains(b) implies part.contains_key(
                b,
            ) by {
                assert(self.objects[a].edges().contains(b));
                assert(self.live(b));
                assert(g[a].contains(b));
            }
        }
        assert forall|id: Name| #[trigger] self.roots.contains(id) implies part.contains_key(
            id,
        ) by {
            assert(self.live(id));
            graph::lemma_source_reachable(g, self.roots, id);
        }
        assert forall|id: Name| #[trigger] self.roots.contains(id) implies g.contains_key(id)
            && self.reached().contains(id) by {
            assert(part.contains_key(id));
        }
        graph::lemma_walk_in_part(g, self.reached(), Set::empty(), self.roots);
    }

    /// A collection traces what is reached: a root once or twice, another object once.
    pub proof fn lemma_tracing_is_reached(self, id: Name)
        requires
            self.valid(),
        ensures
            self.tracing().contains(id) <==> self.reached().contains(id),
            graph::times(self.tracing(), id) == 0 <==> !self.reached().contains(id),
            self.roots.contains(id) ==> 1 <= graph::times(self.tracing(), id) <= 2,
            !self.roots.contains(id) ==> graph::times(self.tracing(), id) <= 1,
    {
        self.lemma_reached_graph();
        assert forall|x: Name| #[trigger] self.roots.contains(x) implies self.graph().contains_key(
            x,
        ) by {
            assert(self.reached_graph().contains_key(x));
        }
        graph::lemma_walk_is_reachable(self.graph(), self.roots, id);
    }

    /// After a collection: what is reached is kept and marked, the rest is dropped.
    pub open spec fn collected(self) -> Self {
        ArenaView {
            marked: self.reached(),
            traced: self.traced + self.tracing(),
            reported: self.reported + self.reporting(),
            dropped: self.dropped + self.without(self.reached()),
            ..self.restricted(self.reached())
        }
    }
}

/// A filtered sequence holds the elements that pass.
pub(crate) proof fn lemma_filter_members(s: Seq<Name>, keep: spec_fn(Name) -> bool)
    ensures
        forall|x: Name| #[trigger] s.filter(keep).contains(x) <==> s.contains(x) && keep(x),
    decreases s.len(),
{
    reveal(Seq::filter);
    if s.len() > 0 {
        let rest = s.drop_last();
        lemma_filter_members(rest, keep);
        assert forall|x: Name| #[trigger] s.filter(keep).contains(x) <==> s.contains(x) && keep(
            x,
        ) by {
            assert(rest.filter(keep).contains(x) <==> rest.contains(x) && keep(x));
            assert(s =~= rest.push(s.last()));
            assert(s[s.len() - 1] == s.last());
            if s.contains(x) && x != s.last() {
                let i = choose|i: int| 0 <= i < s.len() && s[i] == x;
                assert(rest[i] == x);
            }
            if rest.contains(x) {
                let i = choose|i: int| 0 <= i < rest.len() && rest[i] == x;
                assert(s[i] == x);
            }
            if keep(s.last()) {
                let f = rest.filter(keep);
                assert(s.filter(keep) == f.push(s.last()));
                assert(f.push(s.last())[f.len() as int] == s.last());
                if f.contains(x) {
                    let i = choose|i: int| 0 <= i < f.len() && f[i] == x;
                    assert(f.push(s.last())[i] == x);
                }
                if f.push(s.last()).contains(x) && x != s.last() {
                    let i = choose|i: int|
                        0 <= i < f.push(s.last()).len() && f.push(s.last())[i] == x;
                    assert(f[i] == x);
                }
            }
        }
    }
}

/// Filtering brings no duplicates in.
pub(crate) proof fn lemma_filter_distinct(s: Seq<Name>, keep: spec_fn(Name) -> bool)
    requires
        s.no_duplicates(),
    ensures
        s.filter(keep).no_duplicates(),
    decreases s.len(),
{
    reveal(Seq::filter);
    if s.len() > 0 {
        let rest = s.drop_last();
        lemma_filter_distinct(rest, keep);
        lemma_filter_members(rest, keep);
        if keep(s.last()) {
            let f = rest.filter(keep);
            if f.contains(s.last()) {
                let i = choose|i: int| 0 <= i < rest.len() && rest[i] == s.last();
                assert(s[i] == s[s.len() - 1]);
            }
            assert forall|i: int, j: int|
                0 <= i < f.len() + 1 && 0 <= j < f.len() + 1 && i != j implies f.push(s.last())[i]
                != f.push(s.last())[j] by {
                if i == f.len() {
                    assert(f[j] == f.push(s.last())[j]);
                } else if j == f.len() {
                    assert(f[i] == f.push(s.last())[i]);
                }
            }
        }
    }
}

/// A filter that every element passes changes nothing.
pub(crate) proof fn lemma_filter_all(s: Seq<Name>, keep: spec_fn(Name) -> bool)
    requires
        forall|x: Name| #[trigger] s.contains(x) ==> keep(x),
    ensures
        s.filter(keep) == s,
    decreases s.len(),
{
    reveal(Seq::filter);
    if s.len() > 0 {
        let rest = s.drop_last();
        assert forall|x: Name| #[trigger] rest.contains(x) implies keep(x) by {
            assert(s[rest.index_of(x)] == x);
            assert(s.contains(x));
        }
        lemma_filter_all(rest, keep);
        assert(s.contains(s[s.len() - 1]));
        assert(rest.push(s.last()) =~= s);
    } else {
        assert(s.filter(keep) =~= s);
    }
}

/// Filtering a concatenation filters its parts.
pub(crate) proof fn lemma_filter_concat(
    a: Seq<Name>,
    b: Seq<Name>,
    keep: spec_fn(Name) -> bool,
)
    ensures
        (a + b).filter(keep) == a.filter(keep) + b.filter(keep),
    decreases b.len(),
{
    reveal(Seq::filter);
    if b.len() == 0 {
        assert(a + b =~= a);
        assert(a.filter(keep) + b.filter(keep) =~= a.filter(keep));
    } else {
        let rest = b.drop_last();
        lemma_filter_concat(a, rest, keep);
        assert((a + b).drop_last() =~= a + rest);
        assert((a + b).last() == b.last());
        assert((a + b).filter(keep) =~= a.filter(keep) + b.filter(keep));
    }
}

/// What is in a set and what is outside make up the whole.
pub(crate) proof fn lemma_filter_parts(s: Seq<Name>, kept: Set<Name>)
    ensures
        s.filter(member_of(kept)).len() + s.filter(outside(kept)).len() == s.len(),
    decreases s.len(),
{
    reveal(Seq::filter);
    if s.len() > 0 {
        lemma_filter_parts(s.drop_last(), kept);
    }
}

/// Filtering keeps the newest first.
pub(crate) proof fn lemma_filter_newest_first(s: Seq<Name>, keep: spec_fn(Name) -> bool)
    requires
        newest_first(s),
    ensures
        newest_first(s.filter(keep)),
    decreases s.len(),
{
    reveal(Seq::filter);
    reveal(newest_first);
    if s.len() > 0 {
        let rest = s.drop_last();
        lemma_filter_newest_first(rest, keep);
        lemma_filter_members(rest, keep);
        let f = rest.filter(keep);
        if keep(s.last()) {
            assert forall|i: int, j: int| 0 <= i < j < f.len() + 1 implies f.push(s.last())[i].cell
                > f.push(s.last())[j].cell by {
                if j == f.len() {
                    assert(f.contains(f[i]));
                    assert(rest.contains(f[i]));
                    let k = rest.index_of(f[i]);
                    assert(s[k] == f[i]);
                    assert(s[k].cell > s[s.len() - 1].cell);
                }
            }
        }
    }
}

} // verus!
