//! Collection: marking what the roots lead to, and freeing the rest.
use super::Arena;
use crate::gcbox::{self, GcAlloc, GcPtr, Header, Name, Traverse};
use crate::graph;
use crate::trace::levels::Levels;
use crate::trace::marks::{Journal, Marks};
use crate::trace::{self, Trace};
use crate::view::{self, ArenaView};
use std::mem::ManuallyDrop;
use vstd::prelude::*;

verus! {

/// What a collection did.
pub struct Collection {
    /// How many objects the arena held before.
    pub total: usize,
    /// How many of them were freed.
    pub collected: usize,
}

impl<T: Trace> Arena<T> {
    /// Clears every mark, and counts the objects.
    fn unmark_all(&mut self) -> (r: usize)
        requires
            old(self).wf(),
        ensures
            final(self).wf(),
            final(self)@ == (ArenaView { marked: Set::empty(), ..old(self)@ }),
            r == old(self)@.order.len(),
    {
        let ghost before = *self;
        let ghost order = self@.order;
        proof {
            self.lemma_list_fits();
            self.lemma_valid();
            assert(order.take(0) =~= Seq::empty());
            assert(self@.marked =~= before@.marked.difference(order.take(0).to_set()));
        }
        let mut total: usize = 0;
        let mut cur: GcPtr = self.start;
        while cur.is_some()
            invariant
                self.wf(),
                before@.valid(),
                order == before@.order,
                order.len() <= usize::MAX,
                total <= order.len(),
                cur == view::ptr_at(order, total as int),
                self@ == (ArenaView {
                    marked: before@.marked.difference(order.take(total as int).to_set()),
                    ..before@
                }),
            decreases order.len() - total,
        {
            let t: Name = cur.unwrap();
            let ghost held = *self;
            assert(gcbox::filled(self.home@, self.cells@, self.list@[total as int]));
            assert(super::in_place(self.cells@, self.list@, total as int));
            let b = self.cells[t.cell].inner.as_mut().unwrap();
            cur = b.next();
            b.unmark();
            proof {
                self.lemma_mark_set(held, t, false);
                let seen = order.take(total as int);
                assert(order.take(total + 1) =~= seen.push(t));
                assert(seen.push(t).to_set() =~= seen.to_set().insert(t)) by {
                    broadcast use vstd::seq_lib::group_seq_properties;
                }
                assert(self@.marked =~= before@.marked.difference(
                    order.take(total + 1).to_set(),
                ));
            }
            total = total + 1;
        }
        proof {
            assert(order.take(total as int) =~= order);
            assert forall|id: Name| !#[trigger] self@.marked.contains(id) by {
                if before@.marked.contains(id) {
                    assert(before@.live(id));
                    assert(order.contains(id));
                }
            }
            assert(self@.marked =~= Set::empty());
        }
        total
    }

    /// Another mark bit on one of the boxes keeps the arena well formed.
    proof fn lemma_mark_set(&self, before: Self, id: Name, mark: bool)
        requires
            before.wf(),
            gcbox::filled(before.home@, before.cells@, id),
            self.home == before.home,
            self.start == before.start,
            self.roots == before.roots,
            self.levels == before.levels,
            self.depth == before.depth,
            self.journal == before.journal,
            self.dropped == before.dropped,
            self.list == before.list,
            self.cells@ == before.cells@.update(id.cell as int, self.cells@[id.cell as int]),
            self.cells@[id.cell as int].inner is Some,
            gcbox::box_at(self.cells@, id).header() == (Header {
                mark,
                ..gcbox::box_at(before.cells@, id).header()
            }),
            gcbox::box_at(self.cells@, id).value() == gcbox::box_at(before.cells@, id).value(),
        ensures
            self.wf(),
            self@ == (ArenaView {
                marked: if mark {
                    before@.marked.insert(id)
                } else {
                    before@.marked.remove(id)
                },
                ..before@
            }),
    {
        assert forall|i: int| 0 <= i < self.list@.len() implies gcbox::filled(
            self.home@,
            self.cells@,
            #[trigger] self.list@[i],
        ) && gcbox::box_at(self.cells@, self.list@[i]).header().next == gcbox::box_at(
            before.cells@,
            self.list@[i],
        ).header().next && gcbox::box_at(self.cells@, self.list@[i]).header().prev
            == gcbox::box_at(before.cells@, self.list@[i]).header().prev by {
            assert(gcbox::filled(before.home@, before.cells@, before.list@[i]));
        }
        assert forall|i: int| 0 <= i < self.list@.len() implies #[trigger] super::in_place(
            self.cells@,
            self.list@,
            i,
        ) by {
            assert(super::in_place(before.cells@, before.list@, i));
            assert(gcbox::filled(self.home@, self.cells@, self.list@[i]));
        }
        assert forall|x: Name| #[trigger]
            gcbox::filled(self.home@, self.cells@, x) implies gcbox::filled(
            before.home@,
            before.cells@,
            x,
        ) by {}
        assert(self@.objects =~= before@.objects);
        assert(self@.marked =~= if mark {
            before@.marked.insert(id)
        } else {
            before@.marked.remove(id)
        });
    }

    /// Takes the box at `t` out of the list, and gives its object back.
    fn unlink(&mut self, t: Name) -> (object: T)
        requires
            old(self).wf(),
            old(self)@.live(t),
            !old(self)@.roots.contains(t),
        ensures
            final(self).wf(),
            final(self)@ == old(self)@.freed(t),
            object == old(self)@.objects[t],
    {
        let ghost before = *self;
        let ghost at = self.list@.index_of(t);
        proof {
            assert(gcbox::filled(before.home@, before.cells@, t));
            assert(before.list@[at] == t);
            assert(super::in_place(before.cells@, before.list@, at));
        }
        let next: GcPtr = self.cells[t.cell].inner.as_ref().unwrap().next();
        let prev: GcPtr = self.cells[t.cell].inner.as_ref().unwrap().prev();
        if let Some(p) = prev {
            assert(gcbox::filled(before.home@, before.cells@, before.list@[at - 1]));
            self.cells[p.cell].inner.as_mut().unwrap().set_next(next);
        } else {
            self.start = next;
        }
        if let Some(n) = next {
            assert(gcbox::filled(before.home@, before.cells@, before.list@[at + 1]));
            self.cells[n.cell].inner.as_mut().unwrap().set_prev(prev);
        }
        let freed = *self.cells[t.cell].inner.take().unwrap();
        proof {
            assert forall|id: Name|
                id != t && #[trigger] gcbox::filled(before.home@, before.cells@, id)
                implies relinked(
                before.home@,
                before.cells@,
                self.cells@,
                before.list@,
                at,
                id,
            ) by {}
            self.list@ = before.list@.remove(at);
            assert(view::newest_first(self.list@)) by {
                reveal(view::newest_first);
            }
            lemma_unlinked(before.home@, before.cells@, self.cells@, before.list@, at);
            assert forall|x: Name| #[trigger] self.roots@.contains(x) implies gcbox::filled(
                self.home@,
                self.cells@,
                x,
            ) by {
                assert(gcbox::filled(before.home@, before.cells@, x));
                assert(relinked(before.home@, before.cells@, self.cells@, before.list@, at, x));
            }
            assert forall|x: Name| #[trigger]
                gcbox::filled(self.home@, self.cells@, x) implies relinked(
                before.home@,
                before.cells@,
                self.cells@,
                before.list@,
                at,
                x,
            ) by {
                assert(gcbox::filled(before.home@, before.cells@, x));
            }
            assert(self@.objects =~= before@.freed(t).objects);
            assert(self@.marked =~= before@.freed(t).marked);
        }
        freed.into_value()
    }

    /// Frees every object that is not marked, and counts them.
    fn sweep(&mut self) -> (r: usize)
        requires
            old(self).wf(),
            forall|id: Name| #[trigger]
                old(self)@.roots.contains(id) ==> old(self)@.marked.contains(id),
        ensures
            final(self).wf(),
            final(self)@ == (ArenaView {
                dropped: old(self)@.dropped + old(self)@.without(old(self)@.marked),
                ..old(self)@.restricted(old(self)@.marked)
            }),
            r == old(self)@.order.len() - final(self)@.order.len(),
    {
        let ghost before = *self;
        let ghost order = self@.order;
        let ghost keep = view::member_of(self@.marked);
        let ghost lose = view::outside(self@.marked);
        let ghost value = self@.object();
        let ghost mut k: int = 0;
        proof {
            self.lemma_list_fits();
            self.lemma_valid();
            assert(order.take(0).filter(keep) =~= Seq::empty()) by {
                reveal(Seq::filter);
            }
            assert(order.take(0).filter(lose) =~= Seq::empty()) by {
                reveal(Seq::filter);
            }
            assert(self@.dropped =~= before@.dropped + order.take(0).filter(lose).map_values(
                value,
            ));
            assert(order.skip(0) =~= order);
        }
        let mut collected: usize = 0;
        let mut cur: GcPtr = self.start;
        while cur.is_some()
            invariant
                self.wf(),
                before@.valid(),
                order == before@.order,
                order.len() <= usize::MAX,
                keep == view::member_of(before@.marked),
                lose == view::outside(before@.marked),
                value == before@.object(),
                self@.dropped == before@.dropped + order.take(k).filter(lose).map_values(value),
                forall|id: Name| #[trigger]
                    before@.roots.contains(id) ==> before@.marked.contains(id),
                0 <= k <= order.len(),
                cur == view::ptr_at(order, k),
                self@.order == order.take(k).filter(keep) + order.skip(k),
                collected == order.len() - self@.order.len(),
                self@.home == before@.home,
                self@.roots == before@.roots,
                self@.traced == before@.traced,
                self@.reported == before@.reported,
                self@.issued == before@.issued,
                self@.marked == before@.marked,
                forall|id: Name| #[trigger]
                    self@.live(id) <==> before@.live(id) && (before@.marked.contains(id)
                        || !order.take(k).contains(id)),
                forall|id: Name| #[trigger]
                    self@.live(id) ==> self@.objects[id] == before@.objects[id],
            decreases order.len() - k,
        {
            let t: Name = cur.unwrap();
            let ghost held = *self;
            let ghost kept = order.take(k).filter(keep);
            proof {
                assert(t == order[k]);
                assert(held@.order[kept.len() as int] == t);
                assert(gcbox::filled(self.home@, self.cells@, self.list@[kept.len() as int]));
                assert(super::in_place(self.cells@, self.list@, kept.len() as int));
                assert(held@.order.index_of(t) == kept.len());
                assert(order.take(k + 1).drop_last() =~= order.take(k));
                assert(order.take(k + 1) =~= order.take(k).push(t));
                assert(order.skip(k) =~= seq![t] + order.skip(k + 1));
                reveal(Seq::filter);
            }
            cur = self.cells[t.cell].inner.as_ref().unwrap().next();
            if !self.cells[t.cell].inner.as_ref().unwrap().marked() {
                let object: T = self.unlink(t);
                self.dropped.discard(object);
                collected = collected + 1;
                proof {
                    let lost = order.take(k).filter(lose);
                    assert(order.take(k + 1).filter(lose) =~= lost.push(t));
                    assert(lost.push(t).map_values(value) =~= lost.map_values(value).push(
                        value(t),
                    ));
                    assert(held@.live(t));
                    assert(self@.dropped =~= before@.dropped + lost.push(t).map_values(value));
                    assert(order.take(k + 1).filter(keep) =~= kept);
                    assert(self@.order =~= kept + order.skip(k + 1));
                    assert(self@.marked =~= before@.marked);
                }
            } else {
                proof {
                    assert(order.take(k + 1).filter(keep) =~= kept.push(t));
                    assert(order.take(k + 1).filter(lose) =~= order.take(k).filter(lose));
                    assert(self@.order =~= kept.push(t) + order.skip(k + 1));
                }
            }
            proof {
                assert forall|id: Name|
                    order.take(k + 1).contains(id) <==> order.take(k).contains(id) || id == t by {
                    assert(order.take(k + 1)[k] == t);
                    if order.take(k).contains(id) {
                        let i = choose|i: int| 0 <= i < k && order.take(k)[i] == id;
                        assert(order.take(k + 1)[i] == id);
                    }
                    if order.take(k + 1).contains(id) && id != t {
                        let i = order.take(k + 1).index_of(id);
                        assert(order.take(k)[i] == id);
                    }
                }
                assert forall|id: Name| #[trigger]
                    self@.live(id) <==> before@.live(id) && (before@.marked.contains(id)
                        || !order.take(k + 1).contains(id)) by {
                    assert(held@.live(id) <==> before@.live(id) && (before@.marked.contains(id)
                        || !order.take(k).contains(id)));
                }
                assert forall|id: Name| #[trigger]
                    self@.live(id) implies self@.objects[id] == before@.objects[id] by {
                    assert(held@.live(id));
                }
                k = k + 1;
            }
        }
        proof {
            assert(order.take(k) =~= order);
            assert(order.skip(k) =~= Seq::empty());
            assert(self@.order =~= order.filter(keep));
            assert forall|id: Name| #[trigger]
                self@.objects.contains_key(id) <==> before@.objects.restrict(
                    before@.marked,
                ).contains_key(id) by {
                assert(self@.live(id) <==> before@.live(id) && (before@.marked.contains(id)
                    || !order.contains(id)));
                assert(before@.live(id) <==> order.contains(id));
            }
            assert forall|id: Name| #[trigger]
                self@.objects.contains_key(id) implies self@.objects[id]
                == before@.objects[id] by {
                assert(self@.live(id));
            }
            assert(self@.objects =~= before@.objects.restrict(before@.marked));
            assert(self@.dropped =~= before@.dropped + before@.without(before@.marked));
        }
        collected
    }
}

impl<T: Trace + 'static> Arena<T> {
    /// Frees every object that no chain of handles leads to from a root. To find out, it traces
    /// each root in turn and, depth-first, what the root leads to: see [`ArenaView::tracing`].
    /// No object that is reached may hold a handle to an object that is gone, or one of another
    /// arena.
    pub fn collect(&mut self) -> (r: Collection)
        requires
            old(self).wf(),
            old(self)@.traceable(),
        ensures
            final(self).wf(),
            final(self)@ == old(self)@.collected(),
            r.total == old(self)@.order.len(),
            r.collected == old(self)@.order.len() - final(self)@.order.len(),
    {
        let total: usize = self.unmark_all();
        proof {
            assert(self@.reached() == old(self)@.reached());
        }
        self.mark_reached(total);
        proof {
            self.lemma_valid();
            assert forall|id: Name| #[trigger]
                self@.roots.contains(id) implies self@.marked.contains(id) by {
                graph::lemma_source_reachable(old(self)@.graph(), old(self)@.roots, id);
            }
        }
        let collected: usize = self.sweep();
        Collection { total, collected }
    }

    /// Sees to it that calls of `trace` may nest `depth` deep.
    fn deepen(&mut self, depth: usize)
        requires
            old(self).wf(),
        ensures
            final(self).wf(),
            final(self)@ == old(self)@,
            final(self).depth >= depth,
    {
        let mut held: ManuallyDrop<Levels<T>> = ManuallyDrop::new(Levels::Bottom);
        std::mem::swap(&mut held, &mut self.levels);
        let mut levels: Levels<T> = ManuallyDrop::into_inner(held);
        while self.depth < depth
            invariant
                levels.wf(),
                levels.depth() == self.depth,
                *self == (Arena { depth: self.depth, levels: self.levels, ..*old(self) }),
            decreases depth - self.depth,
        {
            levels = levels.and_one();
            self.depth = self.depth + 1;
        }
        self.levels = ManuallyDrop::new(levels);
    }

    /// Sets the mark bits of the boxes of those objects that `marks` has.
    fn set_marks(&mut self, marks: &Marks)
        requires
            old(self).wf(),
            old(self)@.marked == Set::<Name>::empty(),
            marks.wf(),
            marks.covers(old(self)@.home, old(self)@.issued),
            forall|n: Name| #[trigger] marks.marked().contains(n) ==> old(self)@.live(n),
        ensures
            final(self).wf(),
            final(self)@ == (ArenaView { marked: marks.marked(), ..old(self)@ }),
    {
        let ghost before = *self;
        proof {
            self.lemma_valid();
            assert(lower(marks.marked(), 0) =~= Set::empty());
        }
        let mut i: usize = 0;
        while i < self.cells.len()
            invariant
                self.wf(),
                i <= self.cells.len(),
                before@.valid(),
                marks.wf(),
                marks.covers(before@.home, before@.issued),
                forall|n: Name| #[trigger] marks.marked().contains(n) ==> before@.live(n),
                self@ == (ArenaView { marked: lower(marks.marked(), i as int), ..before@ }),
            decreases self.cells.len() - i,
        {
            let ghost held = *self;
            let id: Name = Name { home: self.home.place(), cell: i };
            assert(marks.covers(id.home, self@.issued));
            if marks.has(id) {
                assert(self@.live(id));
                assert(gcbox::filled(self.home@, self.cells@, id));
                self.cells[i].inner.as_mut().unwrap().mark();
                proof {
                    self.lemma_mark_set(held, id, true);
                }
            }
            i = i + 1;
            proof {
                assert forall|n: Name| self@.marked.contains(n) <==> #[trigger] lower(
                    marks.marked(),
                    i as int,
                ).contains(n) by {
                    if marks.marked().contains(n) {
                        assert(before@.live(n));
                    }
                }
                assert(self@.marked =~= lower(marks.marked(), i as int));
            }
        }
        proof {
            assert forall|n: Name| #[trigger] marks.marked().contains(n) implies lower(
                marks.marked(),
                i as int,
            ).contains(n) by {
                assert(before@.live(n));
            }
            assert(lower(marks.marked(), i as int) =~= marks.marked());
        }
    }

    /// Marks every object that the roots lead to, of which there are no more than `total`.
    fn mark_reached(&mut self, total: usize)
        requires
            old(self).wf(),
            old(self)@.traceable(),
            old(self)@.marked == Set::<Name>::empty(),
            total == old(self)@.order.len(),
        ensures
            final(self).wf(),
            final(self)@ == (ArenaView {
                marked: old(self)@.reached(),
                traced: old(self)@.traced + old(self)@.tracing(),
                reported: old(self)@.reported + old(self)@.reporting(),
                ..old(self)@
            }),
    {
        self.deepen(total);
        let ghost before = *self;
        let ghost g = before@.reached_graph();
        let ghost roots = self@.roots;
        proof {
            self.lemma_valid();
        }
        let journal: Journal = self.journal.take().unwrap();
        let ghost held = *self;
        let mut marks: Marks = Marks::new(journal, self.cells.len());
        proof {
            before@.lemma_reached_graph();
            assert(trace::describes(self.home@, self.cells@, g)) by {
                assert forall|n: Name| #[trigger] g.contains_key(n) implies gcbox::filled(
                    self.home@,
                    self.cells@,
                    n,
                ) && g[n] == gcbox::box_at(self.cells@, n).value().edges() by {
                    assert(before@.live(n));
                }
            }
            assert(marks.marked() =~= Set::empty());
            assert(roots.skip(0) =~= roots);
            assert(marks.traced() + before@.tracing() =~= before@.tracing());
            assert(marks.reports() + before@.reporting() =~= before@.reporting());
        }
        let mut i: usize = 0;
        while i < self.roots.len()
            invariant
                *self == held,
                held == (Arena { journal: None, ..before }),
                before.wf(),
                before@.valid(),
                g == before@.reached_graph(),
                g.dom().finite(),
                g.dom().len() <= self.depth,
                graph::whole(g),
                trace::describes(self.home@, self.cells@, g),
                forall|n: Name| #[trigger] before@.roots.contains(n) ==> g.contains_key(n),
                roots == before@.roots,
                i <= roots.len(),
                marks.wf(),
                marks.open(),
                marks.before() == before@.traced,
                marks.reports_before() == before@.reported,
                marks.reports() + graph::walk_reports(g, marks.marked(), roots.skip(i as int))
                    == before@.reporting(),
                marks.covers(before@.home, before@.issued),
                marks.traced() + graph::walk(g, marks.marked(), roots.skip(i as int))
                    == before@.tracing(),
            decreases roots.len() - i,
        {
            let root: Name = self.roots[i];
            let ghost traced = marks.traced();
            let ghost reports = marks.reports();
            proof {
                assert(roots.contains(root));
                assert(before@.live(root));
                let others = g.dom().difference(marks.marked().insert(root));
                vstd::set_lib::lemma_len_subset(others, g.dom().remove(root));
            }
            self.levels.enter(root, &self.cells, &mut marks, Ghost(g));
            i = i + 1;
            proof {
                lemma_root_walked(g, roots, i - 1, traced, reports);
            }
        }
        proof {
            assert(roots.skip(i as int) =~= Seq::empty());
            assert(marks.traced() =~= before@.tracing());
            assert(marks.reports() =~= before@.reporting());
            assert forall|id: Name|
                marks.marked().contains(id) <==> #[trigger] before@.reached().contains(id) by {
                before@.lemma_tracing_is_reached(id);
            }
            assert(marks.marked() =~= before@.reached());
            assert forall|n: Name| #[trigger] marks.marked().contains(n) implies before@.live(
                n,
            ) by {
                graph::lemma_reachable_is_node(before@.graph(), before@.roots, n);
            }
        }
        self.journal = Some(marks.close());
        self.set_marks(&marks);
    }
}

/// The names in `s` of the first `len` cells.
spec fn lower(s: Set<Name>, len: int) -> Set<Name> {
    Set::new(|n: Name| s.contains(n) && n.cell < len)
}

/// Whether the box at `id` is the same in `before` and `after`, but for a link to the `at`th
/// box of `list`, which now goes past it.
spec fn relinked<T>(
    home: usize,
    before: Seq<GcAlloc<T>>,
    after: Seq<GcAlloc<T>>,
    list: Seq<Name>,
    at: int,
    id: Name,
) -> bool {
    let old_header = gcbox::box_at(before, id).header();
    let header = gcbox::box_at(after, id).header();
    &&& gcbox::filled(home, after, id)
    &&& gcbox::box_at(after, id).value() == gcbox::box_at(before, id).value()
    &&& header.mark == old_header.mark
    &&& header.next == if view::ptr_at(list, at - 1) == Some(id) {
        view::ptr_at(list, at + 1)
    } else {
        old_header.next
    }
    &&& header.prev == if view::ptr_at(list, at + 1) == Some(id) {
        view::ptr_at(list, at - 1)
    } else {
        old_header.prev
    }
}

/// Emptying one cell and linking its neighbours takes its box out of the list.
proof fn lemma_unlinked<T>(
    home: usize,
    before: Seq<GcAlloc<T>>,
    after: Seq<GcAlloc<T>>,
    list: Seq<Name>,
    at: int,
)
    requires
        super::linked(home, before, list),
        0 <= at < list.len(),
        after.len() == before.len(),
        !gcbox::filled(home, after, list[at]),
        forall|id: Name| #[trigger]
            gcbox::filled(home, after, id) ==> gcbox::filled(home, before, id),
        forall|id: Name|
            id != list[at] && #[trigger] gcbox::filled(home, before, id) ==> relinked(
                home,
                before,
                after,
                list,
                at,
                id,
            ),
    ensures
        super::linked(home, after, list.remove(at)),
{
    let rest = list.remove(at);
    assert forall|i: int|
        0 <= i < rest.len() implies gcbox::filled(home, after, #[trigger] rest[i]) by {
        let j = if i < at {
            i
        } else {
            i + 1
        };
        assert(rest[i] == list[j]);
        assert(gcbox::filled(home, before, list[j]));
    }
    assert forall|i: int| 0 <= i < rest.len() implies #[trigger] super::in_place(
        after,
        rest,
        i,
    ) by {
        let j = if i < at {
            i
        } else {
            i + 1
        };
        assert(rest[i] == list[j]);
        assert(gcbox::filled(home, before, list[j]));
        assert(super::in_place(before, list, j));
        assert(relinked(home, before, after, list, at, list[j]));
        if at > 0 {
            assert(list[at - 1] == list[j] ==> at - 1 == j);
        }
        if at + 1 < list.len() {
            assert(list[at + 1] == list[j] ==> at + 1 == j);
        }
    }
    assert forall|x: Name| #[trigger] gcbox::filled(home, after, x) implies rest.contains(x) by {
        assert(gcbox::filled(home, before, x));
        let j = list.index_of(x);
        assert(list[j] == x);
        let i = if j < at {
            j
        } else {
            j - 1
        };
        assert(rest[i] == x);
    }
}

/// Walking from one more root appends what the walk over the roots that are left begins with.
proof fn lemma_root_walked(
    g: graph::Graph,
    roots: Seq<Name>,
    i: int,
    traced: Seq<Name>,
    reported: Seq<Name>,
)
    requires
        0 <= i < roots.len(),
    ensures
        ({
            let below = graph::preorder(g, traced.to_set().insert(roots[i]), g[roots[i]]);
            let after = traced + seq![roots[i]] + below;
            let here = graph::reports(g, traced.to_set().insert(roots[i]), g[roots[i]]);
            &&& after + graph::walk(g, after.to_set(), roots.skip(i + 1)) == traced + graph::walk(
                g,
                traced.to_set(),
                roots.skip(i),
            )
            &&& reported + here + graph::walk_reports(g, after.to_set(), roots.skip(i + 1))
                == reported + graph::walk_reports(g, traced.to_set(), roots.skip(i))
        }),
{
    let root = roots[i];
    let below = graph::preorder(g, traced.to_set().insert(root), g[root]);
    let after = traced + seq![root] + below;
    assert(roots.skip(i).skip(1) =~= roots.skip(i + 1));
    graph::lemma_concat_members(traced, seq![root]);
    graph::lemma_concat_members(traced + seq![root], below);
    assert(seq![root][0] == root);
    assert(after.to_set() =~= traced.to_set().insert(root).union(below.to_set()));
    let tail = graph::walk(g, after.to_set(), roots.skip(i + 1));
    assert(traced + (seq![root] + below + tail) =~= after + tail);
    let here = graph::reports(g, traced.to_set().insert(root), g[root]);
    let later = graph::walk_reports(g, after.to_set(), roots.skip(i + 1));
    assert(reported + (here + later) =~= reported + here + later);
}

} // verus!
