//! Reachability in a directed graph, given as a map from each node to its successors.
use crate::gcbox::Name;
use vstd::prelude::*;

verus! {

/// Nodes, each with the nodes that it leads to.
pub type Graph = Map<Name, Seq<Name>>;

/// Whether the `i`th node of `path` leads to the one after it.
pub open spec fn leads(g: Graph, path: Seq<Name>, i: int) -> bool {
    g[path[i]].contains(path[i + 1])
}

/// Whether `path` is a non-empty walk along edges of `g`, over nodes of `g` alone.
pub open spec fn is_path(g: Graph, path: Seq<Name>) -> bool {
    &&& path.len() > 0
    &&& forall|i: int| 0 <= i < path.len() ==> g.contains_key(#[trigger] path[i])
    &&& forall|i: int| 0 <= i < path.len() - 1 ==> #[trigger] leads(g, path, i)
}

/// Whether some path of `g` leads from one of `sources` to `id`.
pub open spec fn reachable(g: Graph, sources: Seq<Name>, id: Name) -> bool {
    exists|path: Seq<Name>| #[trigger]
        is_path(g, path) && sources.contains(path[0]) && path.last() == id
}

/// A set of nodes that no edge leaves, but for edges that lead out of the graph.
pub open spec fn closed_under_edges(g: Graph, s: Set<Name>) -> bool {
    forall|a: Name, b: Name| #[trigger]
        s.contains(a) && g.contains_key(a) && #[trigger] g[a].contains(b) && g.contains_key(b)
            ==> s.contains(b)
}

/// Whether every edge leads to a node.
pub open spec fn whole(g: Graph) -> bool {
    forall|a: Name, b: Name| #[trigger]
        g.contains_key(a) && #[trigger] g[a].contains(b) ==> g.contains_key(b)
}

/// A source that is a node is reachable.
pub proof fn lemma_source_reachable(g: Graph, sources: Seq<Name>, id: Name)
    requires
        g.contains_key(id),
        sources.contains(id),
    ensures
        reachable(g, sources, id),
{
    let path = seq![id];
    assert(is_path(g, path));
    assert(path.last() == id);
}

/// What a reachable node leads to is reachable, if it is a node.
pub proof fn lemma_edge_reachable(g: Graph, sources: Seq<Name>, a: Name, b: Name)
    requires
        reachable(g, sources, a),
        g.contains_key(b),
        g[a].contains(b),
    ensures
        reachable(g, sources, b),
{
    let path = choose|path: Seq<Name>| #[trigger]
        is_path(g, path) && sources.contains(path[0]) && path.last() == a;
    let longer = path.push(b);
    assert forall|i: int| 0 <= i < longer.len() - 1 implies #[trigger] leads(g, longer, i) by {
        if i < path.len() - 1 {
            assert(leads(g, path, i));
        }
    }
    assert(is_path(g, longer));
    assert(longer.last() == b);
}

/// Every reachable node is a node.
pub proof fn lemma_reachable_is_node(g: Graph, sources: Seq<Name>, id: Name)
    requires
        reachable(g, sources, id),
    ensures
        g.contains_key(id),
{
    let path = choose|path: Seq<Name>| #[trigger]
        is_path(g, path) && sources.contains(path[0]) && path.last() == id;
    assert(g.contains_key(path[path.len() - 1]));
}

/// A set that holds the sources and that no edge leaves holds every reachable node.
pub proof fn lemma_closed_holds_reachable(g: Graph, sources: Seq<Name>, s: Set<Name>, id: Name)
    requires
        forall|r: Name| #[trigger] sources.contains(r) && g.contains_key(r) ==> s.contains(r),
        closed_under_edges(g, s),
        reachable(g, sources, id),
    ensures
        s.contains(id),
{
    let path = choose|path: Seq<Name>| #[trigger]
        is_path(g, path) && sources.contains(path[0]) && path.last() == id;
    lemma_path_stays_inside(g, s, path, path.len() - 1);
}

proof fn lemma_path_stays_inside(g: Graph, s: Set<Name>, path: Seq<Name>, i: int)
    requires
        is_path(g, path),
        s.contains(path[0]),
        closed_under_edges(g, s),
        0 <= i < path.len(),
    ensures
        s.contains(path[i]),
    decreases i,
{
    if i > 0 {
        lemma_path_stays_inside(g, s, path, i - 1);
        assert(leads(g, path, i - 1));
        assert(g.contains_key(path[i - 1]));
        assert(g.contains_key(path[i]));
    }
}

/// Every node on a path from a source is reachable.
proof fn lemma_on_path_reachable(g: Graph, sources: Seq<Name>, path: Seq<Name>, i: int)
    requires
        is_path(g, path),
        sources.contains(path[0]),
        0 <= i < path.len(),
    ensures
        reachable(g, sources, path[i]),
{
    let front = path.take(i + 1);
    assert forall|j: int| 0 <= j < front.len() - 1 implies #[trigger] leads(g, front, j) by {
        assert(leads(g, path, j));
    }
    assert(is_path(g, front));
    assert(front.last() == path[i]);
}

/// Dropping nodes that are not reachable changes nothing about what is.
pub proof fn lemma_reachable_in_part(g: Graph, sources: Seq<Name>, kept: Set<Name>, id: Name)
    requires
        forall|x: Name| reachable(g, sources, x) ==> #[trigger] kept.contains(x),
    ensures
        reachable(g.restrict(kept), sources, id) <==> reachable(g, sources, id),
{
    let part = g.restrict(kept);
    if reachable(g, sources, id) {
        let path = choose|path: Seq<Name>| #[trigger]
            is_path(g, path) && sources.contains(path[0]) && path.last() == id;
        assert forall|i: int| 0 <= i < path.len() implies part.contains_key(
            #[trigger] path[i],
        ) by {
            lemma_on_path_reachable(g, sources, path, i);
            assert(kept.contains(path[i]));
        }
        assert forall|i: int| 0 <= i < path.len() - 1 implies #[trigger] leads(part, path, i) by {
            assert(leads(g, path, i));
            assert(part.contains_key(path[i]));
        }
        assert(is_path(part, path));
    }
    if reachable(part, sources, id) {
        let path = choose|path: Seq<Name>| #[trigger]
            is_path(part, path) && sources.contains(path[0]) && path.last() == id;
        assert forall|i: int| 0 <= i < path.len() - 1 implies #[trigger] leads(g, path, i) by {
            assert(leads(part, path, i));
            assert(part.contains_key(path[i]));
        }
        assert(is_path(g, path));
    }
}

/// What is reachable in one graph is reachable in another with the same nodes and edges.
pub proof fn lemma_same_edges(g: Graph, h: Graph, sources: Seq<Name>, id: Name)
    requires
        forall|a: Name| #[trigger] g.contains_key(a) ==> h.contains_key(a),
        forall|a: Name, b: Name|
            g.contains_key(a) && #[trigger] g[a].contains(b) ==> h[a].contains(b),
        reachable(g, sources, id),
    ensures
        reachable(h, sources, id),
{
    let path = choose|path: Seq<Name>| #[trigger]
        is_path(g, path) && sources.contains(path[0]) && path.last() == id;
    assert forall|i: int| 0 <= i < path.len() - 1 implies #[trigger] leads(h, path, i) by {
        assert(leads(g, path, i));
        assert(g.contains_key(path[i]));
    }
    assert(is_path(h, path));
}

/// Whatever is reachable is a source or is led to by another reachable node.
pub proof fn lemma_reachable_by_source_or_edge(g: Graph, sources: Seq<Name>, id: Name)
    requires
        reachable(g, sources, id),
    ensures
        sources.contains(id) || exists|a: Name| #[trigger]
            g.contains_key(a) && reachable(g, sources, a) && g[a].contains(id),
{
    let path = choose|path: Seq<Name>| #[trigger]
        is_path(g, path) && sources.contains(path[0]) && path.last() == id;
    if path.len() > 1 {
        let i = path.len() - 2;
        lemma_on_path_reachable(g, sources, path, i);
        assert(leads(g, path, i));
        assert(g.contains_key(path[i]));
    }
}

/// The nodes that a depth-first walk enters from `todo`, first node first, in the order in
/// which it enters them. It enters no node that is in `marked`, and none twice.
pub open spec fn preorder(g: Graph, marked: Set<Name>, todo: Seq<Name>) -> Seq<Name>
    decreases g.dom().difference(marked).len(), todo.len(),
    when g.dom().finite()
{
    if todo.len() == 0 {
        Seq::empty()
    } else {
        let id = todo[0];
        let rest = todo.skip(1);
        if marked.contains(id) || !g.contains_key(id) {
            preorder(g, marked, rest)
        } else {
            proof {
                let left = g.dom().difference(marked);
                assert(left.contains(id));
                assert(g.dom().difference(marked.insert(id)) =~= left.remove(id));
            }
            seq![id] + preorder(g, marked.insert(id), g[id] + rest)
        }
    }
}

/// The nodes that are entered when each of `sources` is entered in turn, marked or not, and
/// walked from depth-first before the next.
pub open spec fn walk(g: Graph, marked: Set<Name>, sources: Seq<Name>) -> Seq<Name>
    decreases sources.len(),
{
    if sources.len() == 0 {
        Seq::empty()
    } else {
        let below = preorder(g, marked.insert(sources[0]), g[sources[0]]);
        seq![sources[0]] + below + walk(
            g,
            marked.insert(sources[0]).union(below.to_set()),
            sources.skip(1),
        )
    }
}

/// What is reported when a depth-first walk goes through `todo`: each of its names, marked or
/// not, and after each name what is reported when the walk enters the node that it is of.
pub open spec fn reports(g: Graph, marked: Set<Name>, todo: Seq<Name>) -> Seq<Name>
    decreases g.dom().difference(marked).len(), todo.len(),
    when g.dom().finite()
{
    if todo.len() == 0 {
        Seq::empty()
    } else {
        let id = todo[0];
        let rest = todo.skip(1);
        if marked.contains(id) || !g.contains_key(id) {
            seq![id] + reports(g, marked, rest)
        } else {
            proof {
                let left = g.dom().difference(marked);
                assert(left.contains(id));
                assert(g.dom().difference(marked.insert(id)) =~= left.remove(id));
            }
            seq![id] + reports(g, marked.insert(id), g[id] + rest)
        }
    }
}

/// What is reported in a walk over `sources`, which are not reported themselves: see [`walk`].
pub open spec fn walk_reports(g: Graph, marked: Set<Name>, sources: Seq<Name>) -> Seq<Name>
    decreases sources.len(),
{
    if sources.len() == 0 {
        Seq::empty()
    } else {
        let below = preorder(g, marked.insert(sources[0]), g[sources[0]]);
        reports(g, marked.insert(sources[0]), g[sources[0]]) + walk_reports(
            g,
            marked.insert(sources[0]).union(below.to_set()),
            sources.skip(1),
        )
    }
}

/// How many edges to `id` leave the nodes in `entered`, with each node counted as often as it
/// stands there and each edge as often as the node has it.
pub open spec fn edges_to(g: Graph, entered: Seq<Name>, id: Name) -> nat
    decreases entered.len(),
{
    if entered.len() == 0 {
        0
    } else {
        times(g[entered[0]], id) + edges_to(g, entered.skip(1), id)
    }
}

/// How often `id` stands in `log`.
pub open spec fn times(log: Seq<Name>, id: Name) -> nat {
    log.to_multiset().count(id)
}

/// A depth-first walk enters no node twice and no marked one, leaves no edge to a node that is
/// neither marked nor entered, and stays inside any set that no edge leaves.
pub proof fn lemma_preorder(g: Graph, marked: Set<Name>, todo: Seq<Name>, s: Set<Name>)
    requires
        g.dom().finite(),
        closed_under_edges(g, s),
        forall|x: Name| #[trigger] todo.contains(x) && g.contains_key(x) ==> s.contains(x),
    ensures
        preorder(g, marked, todo).no_duplicates(),
        forall|x: Name| #[trigger]
            preorder(g, marked, todo).contains(x) ==> !marked.contains(x) && g.contains_key(x)
                && s.contains(x),
        forall|x: Name| #[trigger]
            todo.contains(x) && g.contains_key(x) ==> marked.contains(x) || preorder(
                g,
                marked,
                todo,
            ).contains(x),
        forall|a: Name, b: Name| #[trigger]
            preorder(g, marked, todo).contains(a) && #[trigger] g[a].contains(b)
                && g.contains_key(b) ==> marked.contains(b) || preorder(
                g,
                marked,
                todo,
            ).contains(b),
    decreases g.dom().difference(marked).len(), todo.len(),
{
    let out = preorder(g, marked, todo);
    if todo.len() > 0 {
        let id = todo[0];
        let rest = todo.skip(1);
        lemma_first_and_rest(todo);
        if marked.contains(id) || !g.contains_key(id) {
            lemma_preorder(g, marked, rest, s);
        } else {
            let left = g.dom().difference(marked);
            assert(left.contains(id));
            assert(g.dom().difference(marked.insert(id)) =~= left.remove(id));
            let more = g[id] + rest;
            assert(todo.contains(id));
            lemma_concat_members(g[id], rest);
            lemma_preorder(g, marked.insert(id), more, s);
            let tail = preorder(g, marked.insert(id), more);
            assert(out == seq![id] + tail);
            lemma_concat_members(seq![id], tail);
            assert(seq![id][0] == id);
            assert(!tail.contains(id));
            assert forall|a: Name, b: Name| #[trigger]
                out.contains(a) && #[trigger] g[a].contains(b) && g.contains_key(
                    b,
                ) implies marked.contains(b) || out.contains(b) by {
                if a == id {
                    assert(more.contains(b));
                }
            }
        }
    }
}

/// A walk from one sequence and then another is a walk from both.
pub proof fn lemma_preorder_concat(g: Graph, marked: Set<Name>, a: Seq<Name>, b: Seq<Name>)
    requires
        g.dom().finite(),
    ensures
        preorder(g, marked, a + b) == preorder(g, marked, a) + preorder(
            g,
            marked.union(preorder(g, marked, a).to_set()),
            b,
        ),
    decreases g.dom().difference(marked).len(), a.len(),
{
    if a.len() == 0 {
        assert(a + b =~= b);
        assert(marked.union(Seq::<Name>::empty().to_set()) =~= marked);
        assert(Seq::<Name>::empty() + preorder(g, marked, b) =~= preorder(g, marked, b));
    } else {
        let id = a[0];
        let rest = a.skip(1);
        assert((a + b).skip(1) =~= rest + b);
        if marked.contains(id) || !g.contains_key(id) {
            lemma_preorder_concat(g, marked, rest, b);
        } else {
            let left = g.dom().difference(marked);
            assert(left.contains(id));
            assert(g.dom().difference(marked.insert(id)) =~= left.remove(id));
            lemma_preorder_concat(g, marked.insert(id), g[id] + rest, b);
            assert(g[id] + (rest + b) =~= g[id] + rest + b);
            let first = preorder(g, marked.insert(id), g[id] + rest);
            let seen = marked.insert(id).union(first.to_set());
            lemma_concat_to_set(seq![id], first);
            assert(seq![id].to_set() =~= set![id]) by {
                assert(seq![id][0] == id);
            }
            assert(marked.union((seq![id] + first).to_set()) =~= seen);
            assert(seq![id] + (first + preorder(g, seen, b)) =~= seq![id] + first + preorder(
                g,
                seen,
                b,
            ));
        }
    }
}

/// What is reported from one sequence and then another is what is reported from both.
pub proof fn lemma_reports_concat(g: Graph, marked: Set<Name>, a: Seq<Name>, b: Seq<Name>)
    requires
        g.dom().finite(),
    ensures
        reports(g, marked, a + b) == reports(g, marked, a) + reports(
            g,
            marked.union(preorder(g, marked, a).to_set()),
            b,
        ),
    decreases g.dom().difference(marked).len(), a.len(),
{
    if a.len() == 0 {
        assert(a + b =~= b);
        assert(marked.union(Seq::<Name>::empty().to_set()) =~= marked);
        assert(Seq::<Name>::empty() + reports(g, marked, b) =~= reports(g, marked, b));
    } else {
        let id = a[0];
        let rest = a.skip(1);
        assert((a + b).skip(1) =~= rest + b);
        if marked.contains(id) || !g.contains_key(id) {
            lemma_reports_concat(g, marked, rest, b);
            let seen = marked.union(preorder(g, marked, rest).to_set());
            assert(seq![id] + (reports(g, marked, rest) + reports(g, seen, b)) =~= seq![id]
                + reports(g, marked, rest) + reports(g, seen, b));
        } else {
            let left = g.dom().difference(marked);
            assert(left.contains(id));
            assert(g.dom().difference(marked.insert(id)) =~= left.remove(id));
            lemma_reports_concat(g, marked.insert(id), g[id] + rest, b);
            assert(g[id] + (rest + b) =~= g[id] + rest + b);
            let first = preorder(g, marked.insert(id), g[id] + rest);
            let seen = marked.insert(id).union(first.to_set());
            lemma_concat_to_set(seq![id], first);
            assert(seq![id].to_set() =~= set![id]) by {
                assert(seq![id][0] == id);
            }
            assert(marked.union((seq![id] + first).to_set()) =~= seen);
            let here = reports(g, marked.insert(id), g[id] + rest);
            assert(seq![id] + (here + reports(g, seen, b)) =~= seq![id] + here + reports(
                g,
                seen,
                b,
            ));
        }
    }
}

/// The edges that leave the nodes of a concatenation.
pub proof fn lemma_edges_to_concat(g: Graph, a: Seq<Name>, b: Seq<Name>, id: Name)
    ensures
        edges_to(g, a + b, id) == edges_to(g, a, id) + edges_to(g, b, id),
    decreases a.len(),
{
    if a.len() == 0 {
        assert(a + b =~= b);
    } else {
        lemma_edges_to_concat(g, a.skip(1), b, id);
        assert((a + b).skip(1) =~= a.skip(1) + b);
    }
}

/// What is reported in a walk is what the walk starts from, and every edge of every node that
/// is entered, once.
pub proof fn lemma_reports_are_edges(g: Graph, marked: Set<Name>, todo: Seq<Name>, id: Name)
    requires
        g.dom().finite(),
    ensures
        times(reports(g, marked, todo), id) == times(todo, id) + edges_to(
            g,
            preorder(g, marked, todo),
            id,
        ),
    decreases g.dom().difference(marked).len(), todo.len(),
{
    if todo.len() == 0 {
        lemma_times_distinct(todo, id);
        lemma_times_distinct(Seq::empty(), id);
    } else {
        let n = todo[0];
        let rest = todo.skip(1);
        assert(todo =~= seq![n] + rest);
        lemma_times_concat(seq![n], rest, id);
        if marked.contains(n) || !g.contains_key(n) {
            lemma_reports_are_edges(g, marked, rest, id);
            lemma_times_concat(seq![n], reports(g, marked, rest), id);
        } else {
            let left = g.dom().difference(marked);
            assert(left.contains(n));
            assert(g.dom().difference(marked.insert(n)) =~= left.remove(n));
            let more = g[n] + rest;
            lemma_reports_are_edges(g, marked.insert(n), more, id);
            lemma_times_concat(g[n], rest, id);
            lemma_times_concat(seq![n], reports(g, marked.insert(n), more), id);
            let tail = preorder(g, marked.insert(n), more);
            assert((seq![n] + tail).skip(1) =~= tail);
            assert((seq![n] + tail)[0] == n);
        }
    }
}

/// What is reported in a walk over sources is every edge of every node that is entered, once
/// for each time that the node is entered.
pub proof fn lemma_walk_reports_are_edges(
    g: Graph,
    marked: Set<Name>,
    sources: Seq<Name>,
    id: Name,
)
    requires
        g.dom().finite(),
    ensures
        times(walk_reports(g, marked, sources), id) == edges_to(g, walk(g, marked, sources), id),
    decreases sources.len(),
{
    if sources.len() == 0 {
        lemma_times_distinct(Seq::empty(), id);
    } else {
        let r = sources[0];
        let below = preorder(g, marked.insert(r), g[r]);
        let seen = marked.insert(r).union(below.to_set());
        let tail = walk(g, seen, sources.skip(1));
        lemma_walk_reports_are_edges(g, seen, sources.skip(1), id);
        lemma_reports_are_edges(g, marked.insert(r), g[r], id);
        lemma_times_concat(
            reports(g, marked.insert(r), g[r]),
            walk_reports(g, seen, sources.skip(1)),
            id,
        );
        lemma_edges_to_concat(g, seq![r] + below, tail, id);
        lemma_edges_to_concat(g, seq![r], below, id);
        assert(seq![r].skip(1) =~= Seq::empty());
        assert(seq![r][0] == r);
        assert(edges_to(g, seq![r].skip(1), id) == 0);
        assert(edges_to(g, seq![r], id) == times(g[r], id));
    }
}

/// A walk passes over what it has been told to enter before.
pub proof fn lemma_preorder_without_repeat(
    g: Graph,
    marked: Set<Name>,
    before: Seq<Name>,
    again: Name,
    after: Seq<Name>,
)
    requires
        g.dom().finite(),
        before.contains(again),
    ensures
        preorder(g, marked, before + seq![again] + after) == preorder(g, marked, before + after),
{
    let first = preorder(g, marked, before);
    let seen = marked.union(first.to_set());
    lemma_preorder(g, marked, before, g.dom());
    assert(!g.contains_key(again) || seen.contains(again));
    assert((seq![again] + after)[0] == again);
    assert((seq![again] + after).skip(1) =~= after);
    lemma_preorder_concat(g, marked, before, seq![again] + after);
    lemma_preorder_concat(g, marked, before, after);
    assert(before + (seq![again] + after) =~= before + seq![again] + after);
}

/// A walk does not change when one node repeats an edge no more.
proof fn lemma_preorder_in_slimmer(
    g: Graph,
    id: Name,
    before: Seq<Name>,
    again: Name,
    after: Seq<Name>,
    marked: Set<Name>,
    todo: Seq<Name>,
)
    requires
        g.dom().finite(),
        g.contains_key(id),
        g[id] == before + seq![again] + after,
        before.contains(again),
    ensures
        preorder(g.insert(id, before + after), marked, todo) == preorder(g, marked, todo),
    decreases g.dom().difference(marked).len(), todo.len(),
{
    let h = g.insert(id, before + after);
    assert(h.dom() =~= g.dom());
    if todo.len() > 0 {
        let n = todo[0];
        let rest = todo.skip(1);
        if marked.contains(n) || !g.contains_key(n) {
            lemma_preorder_in_slimmer(g, id, before, again, after, marked, rest);
        } else {
            let left = g.dom().difference(marked);
            assert(left.contains(n));
            assert(g.dom().difference(marked.insert(n)) =~= left.remove(n));
            lemma_preorder_in_slimmer(
                g,
                id,
                before,
                again,
                after,
                marked.insert(n),
                h[n] + rest,
            );
            if n == id {
                lemma_preorder_without_repeat(
                    g,
                    marked.insert(n),
                    before,
                    again,
                    after + rest,
                );
                assert(before + seq![again] + (after + rest) =~= g[n] + rest);
                assert(before + (after + rest) =~= h[n] + rest);
            }
        }
    }
}

/// A walk over sources does not change when one node repeats an edge no more.
pub proof fn lemma_walk_without_repeat(
    g: Graph,
    id: Name,
    before: Seq<Name>,
    again: Name,
    after: Seq<Name>,
    marked: Set<Name>,
    sources: Seq<Name>,
)
    requires
        g.dom().finite(),
        g.contains_key(id),
        g[id] == before + seq![again] + after,
        before.contains(again),
    ensures
        walk(g.insert(id, before + after), marked, sources) == walk(g, marked, sources),
    decreases sources.len(),
{
    let h = g.insert(id, before + after);
    if sources.len() > 0 {
        let r = sources[0];
        lemma_preorder_in_slimmer(g, id, before, again, after, marked.insert(r), h[r]);
        if r == id {
            lemma_preorder_without_repeat(g, marked.insert(r), before, again, after);
        }
        let below = preorder(g, marked.insert(r), g[r]);
        lemma_walk_without_repeat(
            g,
            id,
            before,
            again,
            after,
            marked.insert(r).union(below.to_set()),
            sources.skip(1),
        );
    }
}

/// What a walk over all of `sources` comes to: it enters the sources and what they lead to, and
/// nothing outside a set that no edge leaves; a source once or twice, another node once.
pub proof fn lemma_walk(g: Graph, marked: Set<Name>, sources: Seq<Name>, s: Set<Name>)
    requires
        g.dom().finite(),
        closed_under_edges(g, s),
        sources.no_duplicates(),
        forall|x: Name| #[trigger] sources.contains(x) ==> g.contains_key(x) && s.contains(x),
    ensures
        forall|x: Name| #[trigger] walk(g, marked, sources).contains(x) ==> s.contains(x),
        forall|x: Name| #[trigger]
            sources.contains(x) ==> walk(g, marked, sources).contains(x),
        forall|a: Name, b: Name| #[trigger]
            walk(g, marked, sources).contains(a) && #[trigger] g[a].contains(b)
                && g.contains_key(b) ==> marked.contains(b) || walk(g, marked, sources).contains(
                b,
            ),
        forall|x: Name|
            #![trigger times(walk(g, marked, sources), x)]
            {
                let n = times(walk(g, marked, sources), x);
                if sources.contains(x) {
                    1 <= n <= if marked.contains(x) { 1nat } else { 2nat }
                } else {
                    n <= if marked.contains(x) { 0nat } else { 1nat }
                }
            },
    decreases sources.len(),
{
    let out = walk(g, marked, sources);
    if sources.len() > 0 {
        let r = sources[0];
        let rest = sources.skip(1);
        let below = preorder(g, marked.insert(r), g[r]);
        let seen = marked.insert(r).union(below.to_set());
        let tail = walk(g, seen, rest);
        assert(sources.contains(r));
        lemma_first_and_rest(sources);
        lemma_preorder(g, marked.insert(r), g[r], s);
        assert(!rest.contains(r)) by {
            if rest.contains(r) {
                assert(sources[rest.index_of(r) + 1] == r);
            }
        }
        lemma_walk(g, seen, rest, s);
        let front = seq![r] + below;
        assert(out == front + tail);
        lemma_concat_members(front, tail);
        lemma_concat_members(seq![r], below);
        assert(seq![r][0] == r);
        assert forall|x: Name|
            #![trigger times(out, x)]
            {
                let n = times(out, x);
                if sources.contains(x) {
                    1 <= n <= if marked.contains(x) { 1nat } else { 2nat }
                } else {
                    n <= if marked.contains(x) { 0nat } else { 1nat }
                }
            } by {
            lemma_times_concat(front, tail, x);
            lemma_times_concat(seq![r], below, x);
            lemma_times_distinct(seq![r], x);
            lemma_times_distinct(below, x);
            assert(seq![r][0] == r);
            assert(seq![r].contains(x) <==> x == r);
            assert(times(tail, x) <= 2);
        }
        assert forall|a: Name, b: Name| #[trigger]
            out.contains(a) && #[trigger] g[a].contains(b) && g.contains_key(
                b,
            ) implies marked.contains(b) || out.contains(b) by {
            if a == r {
                assert(marked.insert(r).contains(b) || below.contains(b));
            } else if below.contains(a) {
                assert(marked.insert(r).contains(b) || below.contains(b));
            } else {
                assert(seen.contains(b) || tail.contains(b));
            }
        }
    } else {
        assert forall|x: Name| times(out, x) == 0 by {
            lemma_times_distinct(out, x);
        }
    }
}

/// A walk over some sources and then others is a walk over both.
pub proof fn lemma_walk_concat(g: Graph, marked: Set<Name>, a: Seq<Name>, b: Seq<Name>)
    ensures
        walk(g, marked, a + b) == walk(g, marked, a) + walk(
            g,
            marked.union(walk(g, marked, a).to_set()),
            b,
        ),
    decreases a.len(),
{
    if a.len() == 0 {
        assert(a + b =~= b);
        assert(marked.union(Seq::<Name>::empty().to_set()) =~= marked);
        assert(Seq::<Name>::empty() + walk(g, marked, b) =~= walk(g, marked, b));
    } else {
        let r = a[0];
        let rest = a.skip(1);
        let below = preorder(g, marked.insert(r), g[r]);
        let seen = marked.insert(r).union(below.to_set());
        let tail = walk(g, seen, rest);
        lemma_walk_concat(g, seen, rest, b);
        assert((a + b).skip(1) =~= rest + b);
        lemma_concat_to_set(seq![r], below);
        lemma_concat_to_set(seq![r] + below, tail);
        assert(seq![r].to_set() =~= set![r]) by {
            assert(seq![r][0] == r);
        }
        assert(marked.union((seq![r] + below + tail).to_set()) =~= seen.union(tail.to_set()));
        let end = walk(g, seen.union(tail.to_set()), b);
        assert(seq![r] + below + (tail + end) =~= seq![r] + below + tail + end);
    }
}

/// A walk from scratch enters exactly the nodes that are reachable.
pub proof fn lemma_walk_is_reachable(g: Graph, sources: Seq<Name>, id: Name)
    requires
        g.dom().finite(),
        sources.no_duplicates(),
        forall|x: Name| #[trigger] sources.contains(x) ==> g.contains_key(x),
    ensures
        walk(g, Set::empty(), sources).contains(id) <==> reachable(g, sources, id),
        times(walk(g, Set::empty(), sources), id) == 0 <==> !reachable(g, sources, id),
        sources.contains(id) ==> 1 <= times(walk(g, Set::empty(), sources), id) <= 2,
        !sources.contains(id) ==> times(walk(g, Set::empty(), sources), id) <= 1,
{
    let s = Set::new(|x: Name| reachable(g, sources, x));
    let out = walk(g, Set::empty(), sources);
    assert forall|a: Name, b: Name| #[trigger]
        s.contains(a) && g.contains_key(a) && #[trigger] g[a].contains(b) && g.contains_key(
            b,
        ) implies s.contains(b) by {
        lemma_edge_reachable(g, sources, a, b);
    }
    assert forall|x: Name| #[trigger] sources.contains(x) implies s.contains(x) by {
        lemma_source_reachable(g, sources, x);
    }
    lemma_walk(g, Set::empty(), sources, s);
    if reachable(g, sources, id) {
        assert(closed_under_edges(g, out.to_set()));
        lemma_closed_holds_reachable(g, sources, out.to_set(), id);
    }
    out.to_multiset_ensures();
    assert(out.contains(id) <==> s.contains(id));
    assert(times(out, id) > 0 <==> out.contains(id));
}

/// A walk inside a part of the graph that no edge leaves is a walk in the graph.
pub proof fn lemma_walk_in_part(
    g: Graph,
    kept: Set<Name>,
    marked: Set<Name>,
    sources: Seq<Name>,
)
    requires
        g.dom().finite(),
        closed_under_edges(g, kept),
        forall|x: Name| #[trigger] sources.contains(x) ==> g.contains_key(x) && kept.contains(x),
    ensures
        walk(g.restrict(kept), marked, sources) == walk(g, marked, sources),
        walk_reports(g.restrict(kept), marked, sources) == walk_reports(g, marked, sources),
    decreases sources.len(),
{
    if sources.len() > 0 {
        let r = sources[0];
        let rest = sources.skip(1);
        let below = preorder(g, marked.insert(r), g[r]);
        assert(sources.contains(r));
        lemma_preorder_in_part(g, kept, marked.insert(r), g[r]);
        assert forall|x: Name| #[trigger] rest.contains(x) implies sources.contains(x) by {
            assert(sources[rest.index_of(x) + 1] == x);
        }
        lemma_walk_in_part(g, kept, marked.insert(r).union(below.to_set()), rest);
    }
}

proof fn lemma_preorder_in_part(g: Graph, kept: Set<Name>, marked: Set<Name>, todo: Seq<Name>)
    requires
        g.dom().finite(),
        closed_under_edges(g, kept),
        forall|x: Name| #[trigger] todo.contains(x) && g.contains_key(x) ==> kept.contains(x),
    ensures
        preorder(g.restrict(kept), marked, todo) == preorder(g, marked, todo),
        reports(g.restrict(kept), marked, todo) == reports(g, marked, todo),
    decreases g.dom().difference(marked).len(), todo.len(),
{
    let part = g.restrict(kept);
    assert(part.dom() =~= g.dom().intersect(kept));
    if todo.len() > 0 {
        let id = todo[0];
        let rest = todo.skip(1);
        assert(todo.contains(id));
        assert forall|x: Name| #[trigger] rest.contains(x) implies todo.contains(x) by {
            assert(todo[rest.index_of(x) + 1] == x);
        }
        if marked.contains(id) || !g.contains_key(id) {
            lemma_preorder_in_part(g, kept, marked, rest);
        } else {
            let left = g.dom().difference(marked);
            assert(left.contains(id));
            assert(g.dom().difference(marked.insert(id)) =~= left.remove(id));
            let more = g[id] + rest;
            assert forall|x: Name| #[trigger]
                more.contains(x) && g.contains_key(x) implies kept.contains(x) by {
                lemma_concat_members(g[id], rest);
            }
            lemma_preorder_in_part(g, kept, marked.insert(id), more);
        }
    }
}

/// A sequence holds its first element and what the rest holds.
pub proof fn lemma_first_and_rest(s: Seq<Name>)
    requires
        s.len() > 0,
    ensures
        forall|x: Name|
            #![trigger s.contains(x)]
            #![trigger s.skip(1).contains(x)]
            s.contains(x) <==> x == s[0] || s.skip(1).contains(x),
{
    let rest = s.skip(1);
    assert forall|x: Name|
        #![trigger s.contains(x)]
        #![trigger rest.contains(x)]
        s.contains(x) <==> x == s[0] || rest.contains(x) by {
        if s.contains(x) && x != s[0] {
            assert(rest[s.index_of(x) - 1] == x);
        }
        if rest.contains(x) {
            assert(s[rest.index_of(x) + 1] == x);
        }
    }
}

/// A concatenation holds what its parts hold.
pub proof fn lemma_concat_members(a: Seq<Name>, b: Seq<Name>)
    ensures
        forall|x: Name|
            #![trigger (a + b).contains(x)]
            #![trigger a.contains(x)]
            #![trigger b.contains(x)]
            (a + b).contains(x) <==> a.contains(x) || b.contains(x),
{
    let both = a + b;
    assert forall|x: Name|
        #![trigger both.contains(x)]
        #![trigger a.contains(x)]
        #![trigger b.contains(x)]
        both.contains(x) <==> a.contains(x) || b.contains(x) by {
        if a.contains(x) {
            assert(both[a.index_of(x)] == x);
        }
        if b.contains(x) {
            assert(both[a.len() + b.index_of(x)] == x);
        }
        if both.contains(x) {
            let i = both.index_of(x);
            if i < a.len() {
                assert(a[i] == x);
            } else {
                assert(b[i - a.len()] == x);
            }
        }
    }
}

/// The set of a concatenation is the union of the parts' sets.
pub proof fn lemma_concat_to_set(a: Seq<Name>, b: Seq<Name>)
    ensures
        (a + b).to_set() == a.to_set().union(b.to_set()),
{
    lemma_concat_members(a, b);
    assert((a + b).to_set() =~= a.to_set().union(b.to_set()));
}

/// How often a node stands in a concatenation.
pub proof fn lemma_times_concat(a: Seq<Name>, b: Seq<Name>, x: Name)
    ensures
        times(a + b, x) == times(a, x) + times(b, x),
{
    vstd::seq_lib::lemma_multiset_commutative(a, b);
}

/// How often a node stands in a sequence without duplicates.
pub proof fn lemma_times_distinct(a: Seq<Name>, x: Name)
    requires
        a.no_duplicates(),
    ensures
        times(a, x) == if a.contains(x) {
            1nat
        } else {
            0nat
        },
{
    a.to_multiset_ensures();
    a.lemma_multiset_has_no_duplicates();
    assert(a.contains(x) <==> times(a, x) > 0);
    if a.contains(x) {
        assert(a.to_multiset().contains(x));
    }
}

} // verus!
