//! What holds of an arena across its operations.
use crate::gcbox::Name;
use crate::graph;
use crate::trace::Trace;
use crate::view::{self, ArenaView};
use vstd::prelude::*;

verus! {

/// A collection keeps the objects that are reached from the roots, and no others, each as it
/// was.
pub proof fn law_collection_is_exact<T: Trace>(s: ArenaView<T>, id: Name)
    ensures
        s.collected().live(id) <==> s.reached().contains(id),
        s.collected().live(id) ==> s.collected().objects[id] == s.objects[id],
{
    if s.reached().contains(id) {
        graph::lemma_reachable_is_node(s.graph(), s.roots, id);
    }
}

/// A collection keeps the roots, and frees no root: each is as it was, and still in the list.
pub proof fn law_roots_survive<T: Trace>(s: ArenaView<T>, id: Name)
    requires
        s.valid(),
        s.roots.contains(id),
    ensures
        s.collected().roots == s.roots,
        s.collected().live(id),
        s.collected().objects[id] == s.objects[id],
        s.collected().order.contains(id),
{
    assert(s.live(id));
    assert(s.order.contains(id));
    graph::lemma_source_reachable(s.graph(), s.roots, id);
    view::lemma_filter_members(s.order, view::member_of(s.reached()));
}

/// An object that a survivor of a collection holds a handle to survives too.
pub proof fn law_held_objects_survive<T: Trace>(s: ArenaView<T>, holder: Name, held: Name)
    requires
        s.collected().live(holder),
        s.objects[holder].edges().contains(held),
        s.live(held),
    ensures
        s.collected().live(held),
        s.collected().objects[held] == s.objects[held],
{
    graph::lemma_edge_reachable(s.graph(), s.roots, holder, held);
}

/// A collection frees every object that is no root and that no object holds a handle to.
pub proof fn law_unheld_is_freed<T: Trace>(s: ArenaView<T>, id: Name)
    requires
        !s.roots.contains(id),
        forall|a: Name| #[trigger] s.live(a) ==> !s.objects[a].edges().contains(id),
    ensures
        !s.collected().live(id),
{
    if s.reached().contains(id) {
        graph::lemma_reachable_by_source_or_edge(s.graph(), s.roots, id);
        let a = choose|a: Name| #[trigger]
            s.graph().contains_key(a) && graph::reachable(s.graph(), s.roots, a)
                && s.graph()[a].contains(id);
        assert(s.live(a));
    }
}

/// An object that no object holds a handle to is freed by the next collection once it is no
/// root any more.
pub proof fn law_unroot_gives_up<T: Trace>(s: ArenaView<T>, id: Name)
    requires
        forall|a: Name| #[trigger] s.live(a) ==> !s.objects[a].edges().contains(id),
    ensures
        !s.unrooted(id).collected().live(id),
{
    law_unroot_is_exact(s, id);
    assert forall|a: Name| #[trigger] s.unrooted(id).live(a) implies !s.unrooted(
        id,
    ).objects[a].edges().contains(id) by {
        assert(s.live(a));
    }
    law_unheld_is_freed(s.unrooted(id), id);
}

/// Without roots, a collection frees everything.
pub proof fn law_no_roots_frees_all<T: Trace>(s: ArenaView<T>)
    requires
        s.roots.len() == 0,
    ensures
        s.collected().objects == Map::<Name, T>::empty(),
        s.collected().order == Seq::<Name>::empty(),
{
    assert forall|id: Name| !#[trigger] s.reached().contains(id) by {
        if s.reached().contains(id) {
            let path = choose|path: Seq<Name>| #[trigger]
                graph::is_path(s.graph(), path) && s.roots.contains(path[0]) && path.last() == id;
            assert(s.roots.contains(path[0]));
        }
    }
    assert(s.collected().objects =~= Map::empty());
    view::lemma_filter_members(s.order, view::member_of(s.reached()));
    if s.collected().order.len() > 0 {
        assert(s.collected().order.contains(s.collected().order[0]));
    }
}

/// A collection calls `trace` once on each object that is reached and is no root, once or twice
/// on each root, and never on an object that is not reached.
pub proof fn law_trace_calls<T: Trace>(s: ArenaView<T>, id: Name)
    requires
        s.valid(),
    ensures
        s.reached().contains(id) && !s.roots.contains(id) ==> graph::times(
            s.collected().traced,
            id,
        ) == graph::times(s.traced, id) + 1,
        s.roots.contains(id) ==> graph::times(s.traced, id) + 1 <= graph::times(
            s.collected().traced,
            id,
        ) <= graph::times(s.traced, id) + 2,
        !s.reached().contains(id) ==> graph::times(s.collected().traced, id) == graph::times(
            s.traced,
            id,
        ),
        s.traced.is_prefix_of(s.collected().traced),
{
    s.lemma_tracing_is_reached(id);
    graph::lemma_times_concat(s.traced, s.tracing(), id);
}

/// After a collection every object is marked.
pub proof fn law_survivors_are_marked<T: Trace>(s: ArenaView<T>)
    ensures
        s.collected().marked == s.collected().objects.dom(),
{
    assert forall|id: Name| s.collected().marked.contains(id) <==> s.collected().live(id) by {
        law_collection_is_exact(s, id);
    }
    assert(s.collected().marked =~= s.collected().objects.dom());
}

/// What is reached after a collection is what was reached before.
proof fn lemma_reached_again<T: Trace>(s: ArenaView<T>)
    ensures
        s.collected().reached() == s.reached(),
{
    assert(s.collected().graph() =~= s.graph().restrict(s.reached()));
    assert forall|id: Name| s.collected().reached().contains(id) <==> s.reached().contains(
        id,
    ) by {
        graph::lemma_reachable_in_part(s.graph(), s.roots, s.reached(), id);
    }
    assert(s.collected().reached() =~= s.reached());
}

/// What a collection traces it would trace again.
proof fn lemma_traced_again<T: Trace>(s: ArenaView<T>)
    requires
        s.valid(),
    ensures
        s.collected().tracing() == s.tracing(),
        s.collected().reporting() == s.reporting(),
{
    s.lemma_reached_graph();
    assert(s.collected().graph() =~= s.reached_graph());
}

/// A second collection in a row makes the same calls of `trace` again and changes nothing else:
/// it drops nothing, and so frees nothing.
pub proof fn law_collect_twice<T: Trace>(s: ArenaView<T>)
    requires
        s.valid(),
    ensures
        s.collected().collected() == (ArenaView {
            traced: s.collected().traced + s.tracing(),
            reported: s.collected().reported + s.reporting(),
            ..s.collected()
        }),
        s.collected().traced == s.traced + s.tracing(),
        s.collected().reported == s.reported + s.reporting(),
{
    let once = s.collected();
    let keep = view::member_of(s.reached());
    let lose = view::outside(s.reached());
    lemma_reached_again(s);
    lemma_traced_again(s);
    assert(once.objects.restrict(once.reached()) =~= once.objects);
    view::lemma_filter_members(s.order, keep);
    view::lemma_filter_all(once.order, keep);
    view::lemma_filter_members(once.order, lose);
    assert(once.order.filter(lose) =~= Seq::empty()) by {
        if once.order.filter(lose).len() > 0 {
            assert(once.order.filter(lose).contains(once.order.filter(lose)[0]));
        }
    }
    assert(once.without(once.reached()) =~= Seq::empty());
    assert(once.dropped + Seq::<T>::empty() =~= once.dropped);
}

/// No handle held by a survivor of a collection dangles, and another collection may follow.
pub proof fn law_collection_leaves_no_dangling<T: Trace>(s: ArenaView<T>)
    requires
        s.traceable(),
    ensures
        s.collected().no_dangling(),
        s.collected().traceable(),
{
    let t = s.collected();
    assert forall|a: Name, b: Name| #[trigger]
        t.live(a) && #[trigger] t.objects[a].edges().contains(b) implies t.live(b) by {
        assert(s.reached().contains(a));
        assert(s.live(b));
        law_held_objects_survive(s, a, b);
    }
    law_no_dangling_is_traceable(t);
}

/// Where no handle dangles, a collection may take place.
pub proof fn law_no_dangling_is_traceable<T: Trace>(s: ArenaView<T>)
    requires
        s.no_dangling(),
    ensures
        s.traceable(),
{
    assert forall|a: Name, b: Name| #[trigger]
        s.reached().contains(a) && #[trigger] s.objects[a].edges().contains(b) implies s.live(
        b,
    ) by {
        graph::lemma_reachable_is_node(s.graph(), s.roots, a);
        assert(s.live(a));
    }
}

/// No handle comes to dangle by a new object or a new value whose own handles do not dangle,
/// nor by any change of the roots.
pub proof fn law_no_dangling_is_kept<T: Trace>(s: ArenaView<T>, id: Name, value: T)
    requires
        s.valid(),
        s.no_dangling(),
        forall|b: Name| #[trigger] value.edges().contains(b) ==> s.live(b),
    ensures
        s.allocated(value).no_dangling(),
        s.live(id) ==> s.replaced(id, value).no_dangling(),
        s.rooted(id).no_dangling(),
        s.unrooted(id).no_dangling(),
{
    let t = s.allocated(value);
    assert forall|a: Name, b: Name| #[trigger]
        t.live(a) && #[trigger] t.objects[a].edges().contains(b) implies t.live(b) by {
        if a != s.fresh() {
            assert(s.live(a) && s.objects[a].edges().contains(b));
        }
        assert(s.live(b));
    }
    if s.live(id) {
        let u = s.replaced(id, value);
        assert forall|a: Name, b: Name| #[trigger]
            u.live(a) && #[trigger] u.objects[a].edges().contains(b) implies u.live(b) by {
            if a != id {
                assert(s.live(a) && s.objects[a].edges().contains(b));
            }
            assert(s.live(b));
        }
    }
    let r = s.rooted(id);
    assert forall|a: Name, b: Name| #[trigger]
        r.live(a) && #[trigger] r.objects[a].edges().contains(b) implies r.live(b) by {
        assert(s.live(a) && s.objects[a].edges().contains(b));
        assert(s.live(b));
    }
    let u = s.unrooted(id);
    assert forall|a: Name, b: Name| #[trigger]
        u.live(a) && #[trigger] u.objects[a].edges().contains(b) implies u.live(b) by {
        assert(s.live(a) && s.objects[a].edges().contains(b));
        assert(s.live(b));
    }
}

/// Making an object a root saves it, and all that it leads to, from the next collection.
pub proof fn law_make_root_saves<T: Trace>(s: ArenaView<T>, id: Name)
    requires
        s.live(id),
    ensures
        s.rooted(id).collected().live(id),
        s.rooted(id).collected().objects[id] == s.objects[id],
        forall|x: Name| #[trigger]
            graph::reachable(s.graph(), seq![id], x) ==> s.rooted(id).collected().live(x),
{
    let r = s.rooted(id);
    assert(r.roots.contains(id)) by {
        if !s.roots.contains(id) {
            assert(r.roots[s.roots.len() as int] == id);
        }
    }
    graph::lemma_source_reachable(r.graph(), r.roots, id);
    assert forall|x: Name| #[trigger]
        graph::reachable(s.graph(), seq![id], x) implies r.collected().live(x) by {
        let path = choose|path: Seq<Name>| #[trigger]
            graph::is_path(s.graph(), path) && seq![id].contains(path[0]) && path.last() == x;
        assert(path[0] == id);
        assert(graph::is_path(r.graph(), path));
        assert(r.reached().contains(x));
        law_collection_is_exact(r, x);
    }
}

/// Making an object a root more than once is as making it one once.
pub proof fn law_make_root_is_idempotent<T>(s: ArenaView<T>, id: Name)
    ensures
        s.rooted(id).rooted(id) == s.rooted(id),
{
    if s.live(id) && !s.roots.contains(id) {
        assert(s.rooted(id).roots[s.roots.len() as int] == id);
    }
}

/// `unroot` undoes `make_root`: the arena is again as it was.
pub proof fn law_unroot_undoes_make_root<T>(s: ArenaView<T>, id: Name)
    requires
        !s.roots.contains(id),
    ensures
        s.rooted(id).unrooted(id) == s,
{
    let keep = view::other_than(id);
    view::lemma_filter_all(s.roots, keep);
    if s.live(id) {
        reveal(Seq::filter);
        assert(s.roots.push(id).drop_last() =~= s.roots);
    }
    assert(s.rooted(id).unrooted(id) =~= s);
}

/// After `unroot` an object is no root, whatever was done before, and the other roots stay.
pub proof fn law_unroot_is_exact<T>(s: ArenaView<T>, id: Name)
    ensures
        forall|x: Name| #[trigger]
            s.unrooted(id).roots.contains(x) <==> s.roots.contains(x) && x != id,
{
    view::lemma_filter_members(s.roots, view::other_than(id));
}

/// A new object has a name that no handle carried before, is neither root nor marked, and
/// leaves the objects that are there alone.
pub proof fn law_new_object_is_apart<T>(s: ArenaView<T>, value: T, id: Name)
    requires
        s.valid(),
    ensures
        id.cell < s.issued ==> id != s.fresh(),
        !s.live(s.fresh()),
        s.fresh().home == s.home && s.fresh().cell == s.issued,
        s.allocated(value).live(s.fresh()),
        s.allocated(value).objects[s.fresh()] == value,
        !s.allocated(value).roots.contains(s.fresh()),
        !s.allocated(value).marked.contains(s.fresh()),
        id != s.fresh() ==> s.allocated(value).live(id) == s.live(id),
        s.live(id) ==> s.allocated(value).objects[id] == s.objects[id],
        s.allocated(value).order.len() == s.order.len() + 1,
        s.allocated(value).order[0] == s.fresh(),
        s.allocated(value).order.skip(1) == s.order,
        s.allocated(value).roots == s.roots,
        s.allocated(value).marked == s.marked,
        s.allocated(value).traced == s.traced,
        s.allocated(value).reported == s.reported,
        s.allocated(value).dropped == s.dropped,
        s.allocated(value).home == s.home,
        s.allocated(value).issued == s.issued + 1,
{
    assert(!s.live(s.fresh()));
    assert(s.allocated(value).order.skip(1) =~= s.order);
}

/// A handle with another home names no object here and will not name the next one.
pub proof fn law_other_homes_are_apart<T>(s: ArenaView<T>, foreign: Name)
    requires
        s.valid(),
        foreign.home != s.home,
    ensures
        !s.live(foreign),
        foreign != s.fresh(),
{
}

/// A handle to an object that is gone never finds an object again.
pub proof fn law_gone_is_gone_for_good<T: Trace>(s: ArenaView<T>, id: Name, other: Name, value: T)
    requires
        s.valid(),
        id.cell < s.issued,
        !s.live(id),
    ensures
        !s.allocated(value).live(id),
        !s.rooted(other).live(id),
        !s.unrooted(other).live(id),
        s.live(other) ==> !s.replaced(other, value).live(id),
        !s.collected().live(id),
        id.cell < s.allocated(value).issued,
        id.cell < s.collected().issued,
{
}

/// A change of one object is what is read of it, and leaves the others alone.
pub proof fn law_write_then_read<T>(s: ArenaView<T>, id: Name, value: T, other: Name)
    requires
        s.live(id),
    ensures
        s.replaced(id, value).live(other) == s.live(other),
        s.replaced(id, value).objects[id] == value,
        other != id ==> s.replaced(id, value).objects[other] == s.objects[other],
        s.replaced(id, value).header(other) == s.header(other),
        s.replaced(id, value).order == s.order,
        s.replaced(id, value).roots == s.roots,
        s.replaced(id, value).marked == s.marked,
        s.replaced(id, value).traced == s.traced,
        s.replaced(id, value).reported == s.reported,
        s.replaced(id, value).dropped == s.dropped,
        s.replaced(id, value).home == s.home,
        s.replaced(id, value).issued == s.issued,
{
}

/// The links of the list are inverse to each other.
pub proof fn law_links_are_inverse<T>(s: ArenaView<T>, a: Name, b: Name)
    requires
        s.valid(),
        s.live(a),
        s.live(b),
    ensures
        s.header(a).next == Some(b) <==> s.header(b).prev == Some(a),
{
    let i = s.order.index_of(a);
    let j = s.order.index_of(b);
    assert(s.order.contains(a) && s.order.contains(b));
    assert(s.order[i] == a && s.order[j] == b);
}

/// Every operation keeps what holds of every arena.
pub proof fn law_valid_is_kept<T: Trace>(s: ArenaView<T>, id: Name, value: T)
    requires
        s.valid(),
    ensures
        s.issued < usize::MAX ==> s.allocated(value).valid(),
        s.rooted(id).valid(),
        s.unrooted(id).valid(),
        s.live(id) ==> s.replaced(id, value).valid(),
        s.collected().valid(),
{
    if s.issued < usize::MAX {
        let t = s.allocated(value);
        assert(!s.live(s.fresh()));
        assert forall|x: Name| #[trigger] t.order.contains(x) <==> t.live(x) by {
            assert(t.order[0] == s.fresh());
            if s.order.contains(x) {
                assert(t.order[s.order.index_of(x) + 1] == x);
            }
            if t.order.contains(x) && x != s.fresh() {
                assert(s.order[t.order.index_of(x) - 1] == x);
            }
            assert(s.order.contains(x) <==> s.live(x));
        }
        assert(!s.order.contains(s.fresh()));
        assert forall|x: Name| #[trigger] t.live(x) implies x.home == t.home && x.cell
            < t.issued by {
            if x != s.fresh() {
                assert(s.live(x));
            }
        }
        assert forall|x: Name| #[trigger] t.roots.contains(x) implies t.live(x) by {
            assert(s.live(x));
        }
        assert forall|x: Name| #[trigger] t.marked.contains(x) implies t.live(x) by {
            assert(s.live(x));
        }
        assert(view::newest_first(t.order)) by {
            reveal(view::newest_first);
            assert forall|i: int, j: int| 0 <= i < j < t.order.len() implies t.order[i].cell
                > t.order[j].cell by {
                assert(t.order[j] == s.order[j - 1]);
                assert(s.order.contains(s.order[j - 1]));
                assert(s.live(s.order[j - 1]));
                if i > 0 {
                    assert(t.order[i] == s.order[i - 1]);
                }
            }
        }
        assert(t.valid());
    }
    lemma_roots_stay_valid(s, id);
    if s.live(id) {
        let u = s.replaced(id, value);
        assert forall|x: Name| #[trigger] u.live(x) <==> s.live(x) by {}
        assert(u.valid());
    }
    let c = s.collected();
    let keep = view::member_of(s.reached());
    view::lemma_filter_members(s.order, keep);
    view::lemma_filter_distinct(s.order, keep);
    view::lemma_filter_newest_first(s.order, keep);
    assert forall|x: Name| #[trigger] c.live(x) <==> s.live(x) && s.reached().contains(x) by {}
    assert forall|x: Name| #[trigger] c.order.contains(x) <==> c.live(x) by {
        assert(s.order.contains(x) <==> s.live(x));
    }
    assert forall|x: Name| #[trigger] c.roots.contains(x) implies c.live(x) by {
        law_roots_survive(s, x);
    }
    assert forall|x: Name| #[trigger] c.marked.contains(x) implies c.live(x) by {
        law_collection_is_exact(s, x);
    }
    assert forall|x: Name| #[trigger] c.live(x) implies x.home == c.home && x.cell
        < c.issued by {
        assert(s.live(x));
    }
}

proof fn lemma_roots_stay_valid<T>(s: ArenaView<T>, id: Name)
    requires
        s.valid(),
    ensures
        s.rooted(id).valid(),
        s.unrooted(id).valid(),
{
    let r = s.rooted(id);
    assert forall|x: Name| #[trigger] r.roots.contains(x) implies r.live(x) by {
        if s.live(id) && !s.roots.contains(id) && x != id {
            assert(s.roots[r.roots.index_of(x)] == x);
        }
        if x != id {
            assert(s.roots.contains(x));
        }
    }
    assert forall|x: Name| #[trigger] r.live(x) <==> s.live(x) by {}
    let u = s.unrooted(id);
    view::lemma_filter_members(s.roots, view::other_than(id));
    view::lemma_filter_distinct(s.roots, view::other_than(id));
    assert forall|x: Name| #[trigger] u.live(x) <==> s.live(x) by {}
}

proof fn lemma_repeat_adds_nothing(before: Seq<Name>, again: Name, after: Seq<Name>, x: Name)
    requires
        before.contains(again),
    ensures
        (before + seq![again] + after).contains(x) == (before + after).contains(x),
{
    graph::lemma_concat_members(before + seq![again], after);
    graph::lemma_concat_members(before, seq![again]);
    graph::lemma_concat_members(before, after);
    if seq![again].contains(x) {
        assert(x == again);
    }
}

/// A second report of the same handle by the same object has no effect: a collection marks and
/// frees the same objects and makes the same calls of `trace`, in the same order, as if the
/// object had not reported the handle again.
pub proof fn law_second_report_has_no_effect<T: Trace>(
    s: ArenaView<T>,
    id: Name,
    value: T,
    before: Seq<Name>,
    again: Name,
    after: Seq<Name>,
)
    requires
        s.valid(),
        s.live(id),
        s.objects[id].edges() == before + seq![again] + after,
        before.contains(again),
        value.edges() == before + after,
    ensures
        s.replaced(id, value).reached() == s.reached(),
        s.replaced(id, value).collected().order == s.collected().order,
        s.replaced(id, value).collected().marked == s.collected().marked,
        s.replaced(id, value).collected().traced == s.collected().traced,
{
    lemma_repeat_leads_nowhere(s, id, value, before, again, after);
    s.lemma_reached_graph();
    lemma_repeat_is_not_traced(s, id, value, before, again, after);
}

proof fn lemma_repeat_is_not_traced<T: Trace>(
    s: ArenaView<T>,
    id: Name,
    value: T,
    before: Seq<Name>,
    again: Name,
    after: Seq<Name>,
)
    requires
        s.graph().dom().finite(),
        s.live(id),
        s.objects[id].edges() == before + seq![again] + after,
        before.contains(again),
        value.edges() == before + after,
    ensures
        s.replaced(id, value).tracing() == s.tracing(),
{
    let g = s.graph();
    assert(s.replaced(id, value).graph() =~= g.insert(id, before + after));
    graph::lemma_walk_without_repeat(g, id, before, again, after, Set::empty(), s.roots);
}

proof fn lemma_repeat_leads_nowhere<T: Trace>(
    s: ArenaView<T>,
    id: Name,
    value: T,
    before: Seq<Name>,
    again: Name,
    after: Seq<Name>,
)
    requires
        s.live(id),
        s.objects[id].edges() == before + seq![again] + after,
        before.contains(again),
        value.edges() == before + after,
    ensures
        s.replaced(id, value).reached() == s.reached(),
        s.replaced(id, value).collected().order == s.collected().order,
        s.replaced(id, value).collected().marked == s.collected().marked,
{
    let t = s.replaced(id, value);
    assert(t.objects.dom() =~= s.objects.dom());
    assert forall|a: Name, b: Name|
        s.live(a) implies #[trigger] s.objects[a].edges().contains(b)
        == t.objects[a].edges().contains(b) by {
        if a == id {
            lemma_repeat_adds_nothing(before, again, after, b);
        }
    }
    law_reports_count_as_a_set(s, t);
}

/// It matters to a collection which handles the objects report, not in which order nor how
/// often.
pub proof fn law_reports_count_as_a_set<T: Trace>(s: ArenaView<T>, t: ArenaView<T>)
    requires
        s.order == t.order,
        s.roots == t.roots,
        s.objects.dom() == t.objects.dom(),
        forall|a: Name, b: Name|
            s.live(a) ==> #[trigger] s.objects[a].edges().contains(b)
                == t.objects[a].edges().contains(b),
    ensures
        s.reached() == t.reached(),
        s.collected().order == t.collected().order,
        s.collected().marked == t.collected().marked,
{
    assert forall|id: Name| s.reached().contains(id) == t.reached().contains(id) by {
        if s.reached().contains(id) {
            graph::lemma_same_edges(s.graph(), t.graph(), s.roots, id);
        }
        if t.reached().contains(id) {
            graph::lemma_same_edges(t.graph(), s.graph(), s.roots, id);
        }
    }
    assert(s.reached() =~= t.reached());
}

/// A new arena holds nothing, and nothing has happened in it.
pub proof fn law_new_arena_is_empty<T: Trace>(home: usize, id: Name)
    ensures
        ({
            let s = ArenaView::<T>::empty(home);
            &&& s.valid()
            &&& s.no_dangling()
            &&& s.home == home
            &&& s.issued == 0
            &&& !s.live(id)
            &&& !s.marked.contains(id)
            &&& s.order.len() == 0
            &&& s.roots.len() == 0
            &&& s.traced.len() == 0
            &&& s.reported.len() == 0
            &&& s.dropped.len() == 0
        }),
{
    reveal(view::newest_first);
}

/// `make_root` changes nothing but the roots. It takes no root away and moves none, adds no
/// object but the one that is named, and that one if and only if it is there.
pub proof fn law_make_root_adds_one_root<T>(s: ArenaView<T>, id: Name, x: Name)
    ensures
        s.rooted(id).objects == s.objects,
        s.rooted(id).order == s.order,
        s.rooted(id).marked == s.marked,
        s.rooted(id).traced == s.traced,
        s.rooted(id).reported == s.reported,
        s.rooted(id).dropped == s.dropped,
        s.rooted(id).home == s.home,
        s.rooted(id).issued == s.issued,
        s.roots.is_prefix_of(s.rooted(id).roots),
        s.rooted(id).roots.len() <= s.roots.len() + 1,
        s.rooted(id).roots.contains(x) <==> s.roots.contains(x) || x == id && s.live(id),
        s.roots.contains(id) ==> s.rooted(id) == s,
        !s.live(id) ==> s.rooted(id) == s,
{
    if s.live(id) && !s.roots.contains(id) {
        graph::lemma_concat_members(s.roots, seq![id]);
        assert(s.roots.push(id) =~= s.roots + seq![id]);
        assert(seq![id][0] == id);
        assert(seq![id].contains(x) <==> x == id);
    }
}

/// `unroot` changes nothing but the roots.
pub proof fn law_unroot_changes_only_roots<T>(s: ArenaView<T>, id: Name)
    ensures
        s.unrooted(id).objects == s.objects,
        s.unrooted(id).order == s.order,
        s.unrooted(id).marked == s.marked,
        s.unrooted(id).traced == s.traced,
        s.unrooted(id).reported == s.reported,
        s.unrooted(id).dropped == s.dropped,
        s.unrooted(id).home == s.home,
        s.unrooted(id).issued == s.issued,
        !s.roots.contains(id) ==> s.unrooted(id) == s,
{
    if !s.roots.contains(id) {
        view::lemma_filter_all(s.roots, view::other_than(id));
    }
}

/// `unroot` leaves the other roots in their order.
pub proof fn law_unroot_keeps_the_order<T>(
    s: ArenaView<T>,
    id: Name,
    before: Seq<Name>,
    after: Seq<Name>,
)
    requires
        s.roots == before + seq![id] + after,
        !before.contains(id),
        !after.contains(id),
    ensures
        s.unrooted(id).roots == before + after,
{
    let keep = view::other_than(id);
    view::lemma_filter_concat(before + seq![id], after, keep);
    view::lemma_filter_concat(before, seq![id], keep);
    view::lemma_filter_all(before, keep);
    view::lemma_filter_all(after, keep);
    assert(seq![id].filter(keep) =~= Seq::empty()) by {
        view::lemma_filter_members(seq![id], keep);
        if seq![id].filter(keep).len() > 0 {
            assert(seq![id].filter(keep).contains(seq![id].filter(keep)[0]));
        }
    }
    assert(before + Seq::<Name>::empty() =~= before);
}

/// Whatever set of names holds the roots, and with each object those that it holds handles to,
/// holds all survivors of a collection: nothing survives for another reason.
pub proof fn law_nothing_else_survives<T: Trace>(s: ArenaView<T>, kept: Set<Name>, id: Name)
    requires
        forall|x: Name| #[trigger] s.roots.contains(x) ==> kept.contains(x),
        forall|a: Name, b: Name| #[trigger]
            kept.contains(a) && s.live(a) && #[trigger] s.objects[a].edges().contains(b)
                ==> kept.contains(b),
        s.collected().live(id),
    ensures
        kept.contains(id),
{
    law_collection_is_exact(s, id);
    assert forall|a: Name, b: Name| #[trigger]
        kept.contains(a) && s.graph().contains_key(a) && #[trigger] s.graph()[a].contains(b)
            && s.graph().contains_key(b) implies kept.contains(b) by {
        assert(s.live(a) && s.objects[a].edges().contains(b));
    }
    graph::lemma_closed_holds_reachable(s.graph(), s.roots, kept, id);
}

/// What a collection asks for is that no survivor holds a handle that dangles, and no more.
pub proof fn law_only_survivors_must_not_dangle<T: Trace>(s: ArenaView<T>)
    ensures
        s.traceable() <==> forall|a: Name, b: Name| #[trigger]
            s.collected().live(a) && #[trigger] s.objects[a].edges().contains(b) ==> s.live(b),
{
    assert forall|a: Name| s.collected().live(a) <==> #[trigger] s.reached().contains(a) by {
        law_collection_is_exact(s, a);
    }
    if s.traceable() {
        assert forall|a: Name, b: Name| #[trigger]
            s.collected().live(a) && #[trigger] s.objects[a].edges().contains(b) implies s.live(
            b,
        ) by {
            assert(s.reached().contains(a));
        }
    }
}

/// A collection leaves the roots, the home and the number of objects ever made alone, and the
/// survivors in the order of the list: each once, the newest first.
pub proof fn law_survivors_stay_in_order<T: Trace>(s: ArenaView<T>, id: Name)
    requires
        s.valid(),
    ensures
        s.collected().roots == s.roots,
        s.collected().home == s.home,
        s.collected().issued == s.issued,
        view::newest_first(s.collected().order),
        s.collected().order.no_duplicates(),
        s.collected().order.contains(id) <==> s.collected().live(id),
{
    let keep = view::member_of(s.reached());
    view::lemma_filter_members(s.order, keep);
    view::lemma_filter_distinct(s.order, keep);
    view::lemma_filter_newest_first(s.order, keep);
    law_collection_is_exact(s, id);
    assert(s.order.contains(id) <==> s.live(id));
}

/// A collection drops each object that it frees exactly once and no other, the newest first,
/// after those that were dropped before it.
pub proof fn law_freed_objects_are_dropped_once<T: Trace>(s: ArenaView<T>)
    requires
        s.valid(),
    ensures
        exists|freed: Seq<Name>|
            {
                &&& #[trigger] view::newest_first(freed)
                &&& freed.no_duplicates()
                &&& forall|id: Name| #[trigger]
                    freed.contains(id) <==> s.live(id) && !s.collected().live(id)
                &&& s.collected().dropped.len() == s.dropped.len() + freed.len()
                &&& s.dropped.is_prefix_of(s.collected().dropped)
                &&& forall|i: int|
                    0 <= i < freed.len() ==> s.collected().dropped[s.dropped.len() + i]
                        == s.objects[#[trigger] freed[i]]
            },
{
    let lose = view::outside(s.reached());
    let freed = s.order.filter(lose);
    view::lemma_filter_members(s.order, lose);
    view::lemma_filter_distinct(s.order, lose);
    view::lemma_filter_newest_first(s.order, lose);
    assert forall|id: Name| #[trigger] freed.contains(id) <==> s.live(id) && !s.collected().live(
        id,
    ) by {
        law_collection_is_exact(s, id);
        assert(s.order.contains(id) <==> s.live(id));
    }
    assert(view::newest_first(freed));
}

/// A collection frees as many objects as it drops.
pub proof fn law_counts_agree<T: Trace>(s: ArenaView<T>)
    ensures
        s.collected().dropped.len() - s.dropped.len() == s.order.len()
            - s.collected().order.len(),
{
    view::lemma_filter_parts(s.order, s.reached());
}

/// Without roots nothing is traced. With one root more, the same calls of `trace` are made as
/// without it, then one on it, marked or not, and then those that follow from its reports.
pub proof fn law_roots_are_traced_in_turn<T: Trace>(s: ArenaView<T>)
    requires
        s.valid(),
    ensures
        s.roots.len() == 0 ==> s.collected().traced == s.traced,
        s.roots.len() > 0 ==> {
            let root = s.roots.last();
            let fewer = ArenaView { roots: s.roots.drop_last(), ..s }.collected().traced;
            let marked = fewer.skip(s.traced.len() as int).to_set().insert(root);
            s.collected().traced == fewer + seq![root] + graph::preorder(
                s.graph(),
                marked,
                s.objects[root].edges(),
            )
        },
{
    let g = s.graph();
    if s.roots.len() == 0 {
        assert(s.traced + Seq::<Name>::empty() =~= s.traced);
    } else {
        let root = s.roots.last();
        let others = s.roots.drop_last();
        let first = graph::walk(g, Set::empty(), others);
        let fewer = ArenaView { roots: others, ..s }.collected().traced;
        assert(s.roots.contains(root));
        assert(s.live(root));
        assert(fewer == s.traced + first);
        assert(fewer.skip(s.traced.len() as int) =~= first);
        assert(others + seq![root] =~= s.roots);
        graph::lemma_walk_concat(g, Set::empty(), others, seq![root]);
        assert(Set::<Name>::empty().union(first.to_set()) =~= first.to_set());
        let below = graph::preorder(g, first.to_set().insert(root), g[root]);
        assert(seq![root].skip(1) =~= Seq::empty());
        assert(seq![root][0] == root);
        assert(graph::walk(
            g,
            first.to_set().insert(root).union(below.to_set()),
            seq![root].skip(1),
        ) =~= Seq::empty());
        assert(graph::walk(g, first.to_set(), seq![root]) =~= seq![root] + below);
        assert(s.traced + (first + (seq![root] + below)) =~= fewer + seq![root] + below);
    }
}

/// Each call of `trace` makes the reports of its object, once each: in a collection a name is
/// reported as often as the objects on which `trace` is called hold a handle to it.
pub proof fn law_each_call_reports_once<T: Trace>(s: ArenaView<T>, id: Name)
    requires
        s.valid(),
    ensures
        graph::times(s.collected().reported, id) == graph::times(s.reported, id)
            + graph::edges_to(
            s.graph(),
            s.collected().traced.skip(s.traced.len() as int),
            id,
        ),
        s.reported.is_prefix_of(s.collected().reported),
{
    s.lemma_reached_graph();
    graph::lemma_walk_reports_are_edges(s.graph(), Set::empty(), s.roots, id);
    graph::lemma_times_concat(s.reported, s.reporting(), id);
    assert((s.traced + s.tracing()).skip(s.traced.len() as int) =~= s.tracing());
}

/// One call of `trace` more adds its object's handles to what is counted, each as often as the
/// object holds it.
pub proof fn law_edges_are_counted(g: graph::Graph, entered: Seq<Name>, last: Name, id: Name)
    ensures
        graph::edges_to(g, Seq::empty(), id) == 0,
        graph::edges_to(g, entered.push(last), id) == graph::edges_to(g, entered, id)
            + g[last].to_multiset().count(id),
{
    graph::lemma_edges_to_concat(g, entered, seq![last], id);
    assert(entered.push(last) =~= entered + seq![last]);
    assert(seq![last].skip(1) =~= Seq::empty());
    assert(seq![last][0] == last);
    assert(graph::edges_to(g, seq![last].skip(1), id) == 0);
}

/// Handles are followed in the order in which they are reported, each to its end before the
/// next.
pub proof fn law_reports_are_followed_in_order(
    g: graph::Graph,
    marked: Set<Name>,
    first: Seq<Name>,
    then_these: Seq<Name>,
)
    requires
        g.dom().finite(),
    ensures
        graph::preorder(g, marked, Seq::empty()) == Seq::<Name>::empty(),
        graph::preorder(g, marked, first + then_these) == graph::preorder(g, marked, first)
            + graph::preorder(
            g,
            marked.union(graph::preorder(g, marked, first).to_set()),
            then_these,
        ),
{
    graph::lemma_preorder_concat(g, marked, first, then_these);
}

/// Following one handle traces nothing if its object is marked, and else the object, then what
/// follows from its own reports.
pub proof fn law_object_comes_before_its_reports(g: graph::Graph, marked: Set<Name>, id: Name)
    requires
        g.dom().finite(),
        g.contains_key(id),
    ensures
        marked.contains(id) ==> graph::preorder(g, marked, seq![id]) == Seq::<Name>::empty(),
        !marked.contains(id) ==> graph::preorder(g, marked, seq![id]) == seq![id]
            + graph::preorder(g, marked.insert(id), g[id]),
{
    assert(seq![id].skip(1) =~= Seq::<Name>::empty());
    assert(seq![id][0] == id);
    assert(g[id] + Seq::<Name>::empty() =~= g[id]);
    assert(graph::preorder(g, marked, Seq::<Name>::empty()) == Seq::<Name>::empty());
}

/// The graph that is traced is that of the objects and of what they report.
pub proof fn law_graph_is_what_objects_report<T: Trace>(s: ArenaView<T>, id: Name)
    ensures
        s.graph().contains_key(id) <==> s.live(id),
        s.live(id) ==> s.graph()[id] == s.objects[id].edges(),
{
}

/// A box is linked to the one before it in the list and the one after it, and carries its mark.
pub proof fn law_links_follow_the_list<T>(s: ArenaView<T>, i: int)
    requires
        s.valid(),
        0 <= i < s.order.len(),
    ensures
        s.header(s.order[i]).mark == s.marked.contains(s.order[i]),
        i + 1 < s.order.len() ==> s.header(s.order[i]).next == Some(s.order[i + 1]),
        i + 1 == s.order.len() ==> s.header(s.order[i]).next is None,
        i > 0 ==> s.header(s.order[i]).prev == Some(s.order[i - 1]),
        i == 0 ==> s.header(s.order[i]).prev is None,
{
    s.lemma_header_at(i);
}

} // verus!
