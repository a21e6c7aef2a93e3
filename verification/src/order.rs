//! The order in which the nodes of a graph are processed.
use crate::frame::repeat;
use crate::processor::PortRef;
use vstd::prelude::*;

verus! {

/// The table of edges of a graph: `edges[d][i]` is the output port that
/// drives input port `i` of node `d`, if any does.
pub type Incoming = Seq<Seq<Option<PortRef>>>;

/// Every edge starts at a node of the graph.
pub open spec fn sources_in_range(edges: Incoming) -> bool {
    forall|d: int, i: int|
        0 <= d < edges.len() && 0 <= i < edges[d].len() && (#[trigger] edges[d][i]) is Some
            ==> edges[d][i].unwrap().node < edges.len()
}

/// Node `d` stands among the first `before` entries of `order`.
pub open spec fn appears_before(order: Seq<usize>, d: int, before: int) -> bool {
    exists|j: int| 0 <= j < before && j < order.len() && #[trigger] order[j] == d
}

/// `order` names every node of the graph, and each node only after all the
/// nodes that drive one of its inputs.
pub open spec fn is_topological_order(order: Seq<usize>, edges: Incoming) -> bool {
    &&& order.len() == edges.len()
    &&& forall|k: int| 0 <= k < order.len() ==> (#[trigger] order[k]) < edges.len()
    &&& forall|d: int| 0 <= d < edges.len() ==> #[trigger] appears_before(order, d, order.len() as int)
    &&& forall|k: int, i: int|
        0 <= k < order.len() && 0 <= i < edges[order[k] as int].len() && (
        #[trigger] edges[order[k] as int][i]) is Some ==> appears_before(
            order,
            edges[order[k] as int][i].unwrap().node as int,
            k,
        )
}

/// The graph has no cycle: its nodes can be put in a topological order.
pub open spec fn is_acyclic(edges: Incoming) -> bool {
    exists|order: Seq<usize>| is_topological_order(order, edges)
}

/// The table of edges that `incoming` holds.
pub open spec fn edges_of(incoming: Seq<Vec<Option<PortRef>>>) -> Incoming {
    Seq::new(incoming.len(), |d: int| incoming[d]@)
}

/// The number of marks that are set.
pub open spec fn count_set(marks: Seq<bool>) -> nat
    decreases marks.len(),
{
    if marks.len() == 0 {
        0
    } else {
        count_set(marks.drop_last()) + if marks.last() {
            1nat
        } else {
            0nat
        }
    }
}

/// Every node that is not marked is driven by a node that is not marked.
pub open spec fn is_stuck(edges: Incoming, marks: Seq<bool>) -> bool {
    forall|d: int|
        0 <= d < edges.len() && !(#[trigger] marks[d]) ==> exists|i: int|
            0 <= i < edges[d].len() && (#[trigger] edges[d][i]) is Some && !marks[edges[d][i].unwrap().node as int]
}

/// No more marks are set than there are, and where all are counted, all are
/// set.
proof fn lemma_count_set_bounds(marks: Seq<bool>)
    ensures
        count_set(marks) <= marks.len(),
        count_set(marks) == marks.len() ==> forall|d: int| 0 <= d < marks.len() ==> marks[d],
        count_set(marks) < marks.len() ==> exists|d: int| 0 <= d < marks.len() && !marks[d],
    decreases marks.len(),
{
    if marks.len() > 0 {
        let rest = marks.drop_last();
        lemma_count_set_bounds(rest);
        if count_set(marks) == marks.len() {
            assert forall|d: int| 0 <= d < marks.len() implies marks[d] by {
                if d < rest.len() {
                    assert(rest[d] == marks[d]);
                }
            }
        } else {
            if !marks.last() {
                assert(!marks[marks.len() - 1]);
            } else {
                let d = choose|d: int| 0 <= d < rest.len() && !rest[d];
                assert(!marks[d]);
            }
        }
    }
}

/// Setting a mark that was not set adds one to the count.
proof fn lemma_count_set_update(marks: Seq<bool>, d: int)
    requires
        0 <= d < marks.len(),
        !marks[d],
    ensures
        count_set(marks.update(d, true)) == count_set(marks) + 1,
    decreases marks.len(),
{
    let after = marks.update(d, true);
    if d == marks.len() - 1 {
        assert(after.drop_last() =~= marks.drop_last());
    } else {
        assert(after.drop_last() =~= marks.drop_last().update(d, true));
        lemma_count_set_update(marks.drop_last(), d);
    }
}

/// Nothing is set among marks that are all clear.
proof fn lemma_count_set_clear(n: nat)
    ensures
        count_set(Seq::new(n, |i: int| false)) == 0,
    decreases n,
{
    if n > 0 {
        assert(Seq::new(n, |i: int| false).drop_last() =~= Seq::new(
            (n - 1) as nat,
            |i: int| false,
        ));
        lemma_count_set_clear((n - 1) as nat);
    }
}

/// In a graph that is stuck, every node of a topological order is marked.
proof fn lemma_stuck_marks_all(edges: Incoming, marks: Seq<bool>, order: Seq<usize>, k: int)
    requires
        is_topological_order(order, edges),
        sources_in_range(edges),
        marks.len() == edges.len(),
        is_stuck(edges, marks),
        0 <= k < order.len(),
    ensures
        marks[order[k] as int],
    decreases k,
{
    let d = order[k] as int;
    if !marks[d] {
        let i = choose|i: int|
            0 <= i < edges[d].len() && (#[trigger] edges[d][i]) is Some && !marks[edges[d][i].unwrap().node as int];
        let source = edges[d][i].unwrap().node as int;
        assert(appears_before(order, source, k));
        let j = choose|j: int| 0 <= j < k && j < order.len() && #[trigger] order[j] == source;
        lemma_stuck_marks_all(edges, marks, order, j);
    }
}

/// A graph that is stuck with a node unmarked has a cycle.
proof fn lemma_stuck_is_cyclic(edges: Incoming, marks: Seq<bool>, d: int)
    requires
        sources_in_range(edges),
        marks.len() == edges.len(),
        is_stuck(edges, marks),
        0 <= d < edges.len(),
        !marks[d],
    ensures
        !is_acyclic(edges),
{
    if is_acyclic(edges) {
        let order = choose|order: Seq<usize>| is_topological_order(order, edges);
        assert(appears_before(order, d, order.len() as int));
        let k = choose|k: int| 0 <= k < order.len() && k < order.len() && #[trigger] order[k] == d;
        lemma_stuck_marks_all(edges, marks, order, k);
    }
}

/// Whether every node that drives an input of node `d` is marked.
fn sources_marked(incoming: &Vec<Vec<Option<PortRef>>>, marks: &Vec<bool>, d: usize) -> (r: bool)
    requires
        sources_in_range(edges_of(incoming@)),
        marks@.len() == incoming@.len(),
        d < incoming@.len(),
    ensures
        r <==> forall|i: int|
            0 <= i < incoming@[d as int]@.len() && (#[trigger] incoming@[d as int]@[i]) is Some
                ==> marks@[incoming@[d as int]@[i].unwrap().node as int],
{
    let routes = &incoming[d];
    let mut i: usize = 0;
    while i < routes.len()
        invariant
            sources_in_range(edges_of(incoming@)),
            marks@.len() == incoming@.len(),
            d < incoming@.len(),
            routes@ == incoming@[d as int]@,
            i <= routes@.len(),
            forall|j: int|
                0 <= j < i && (#[trigger] routes@[j]) is Some ==> marks@[routes@[j].unwrap().node as int],
        decreases routes@.len() - i,
    {
        match routes[i] {
            Some(source) => {
                assert(edges_of(incoming@)[d as int][i as int] is Some);
                if !marks[source.node] {
                    return false;
                }
            },
            None => {},
        }
        i += 1;
    }
    true
}

/// An order in which the nodes of the graph can be processed, each after all
/// the nodes that drive it; none where the graph has a cycle.
pub fn topological_order(incoming: &Vec<Vec<Option<PortRef>>>) -> (r: Option<Vec<usize>>)
    requires
        sources_in_range(edges_of(incoming@)),
    ensures
        r is Some <==> is_acyclic(edges_of(incoming@)),
        r matches Some(order) ==> is_topological_order(order@, edges_of(incoming@)),
{
    let n = incoming.len();
    let ghost edges = edges_of(incoming@);
    let mut marks: Vec<bool> = repeat(false, n);
    let mut order: Vec<usize> = Vec::with_capacity(n);
    proof {
        lemma_count_set_clear(n as nat);
    }
    while order.len() < n
        invariant
            n == incoming@.len(),
            edges == edges_of(incoming@),
            sources_in_range(edges),
            marks@.len() == n,
            order@.len() <= n,
            count_set(marks@) == order@.len(),
            forall|k: int| 0 <= k < order@.len() ==> (#[trigger] order@[k]) < n,
            forall|d: int|
                0 <= d < n && #[trigger] marks@[d] ==> appears_before(
                    order@,
                    d,
                    order@.len() as int,
                ),
            forall|k: int, i: int|
                0 <= k < order@.len() && 0 <= i < edges[order@[k] as int].len() && (
                #[trigger] edges[order@[k] as int][i]) is Some ==> appears_before(
                    order@,
                    edges[order@[k] as int][i].unwrap().node as int,
                    k,
                ),
        decreases n - order@.len(),
    {
        let start = order.len();
        let mut d: usize = 0;
        while d < n
            invariant
                n == incoming@.len(),
                edges == edges_of(incoming@),
                sources_in_range(edges),
                marks@.len() == n,
                start <= order@.len() <= n,
                d <= n,
                count_set(marks@) == order@.len(),
                forall|k: int| 0 <= k < order@.len() ==> (#[trigger] order@[k]) < n,
                forall|e: int|
                    0 <= e < n && #[trigger] marks@[e] ==> appears_before(
                        order@,
                        e,
                        order@.len() as int,
                    ),
                forall|k: int, i: int|
                    0 <= k < order@.len() && 0 <= i < edges[order@[k] as int].len() && (
                    #[trigger] edges[order@[k] as int][i]) is Some ==> appears_before(
                        order@,
                        edges[order@[k] as int][i].unwrap().node as int,
                        k,
                    ),
                order@.len() == start ==> forall|e: int|
                    0 <= e < d && !(#[trigger] marks@[e]) ==> exists|i: int|
                        0 <= i < edges[e].len() && (#[trigger] edges[e][i]) is Some
                            && !marks@[edges[e][i].unwrap().node as int],
            decreases n - d,
        {
            if !marks[d] {
                let ready = sources_marked(incoming, &marks, d);
                if ready {
                    let ghost marks_before = marks@;
                    let ghost order_before = order@;
                    proof {
                        lemma_count_set_update(marks@, d as int);
                        lemma_count_set_bounds(marks@.update(d as int, true));
                    }
                    marks.set(d, true);
                    order.push(d);
                    proof {
                        let p = order_before.len() as int;
                        assert(order@[p] == d);
                        assert forall|e: int| 0 <= e < n && #[trigger] marks@[e] implies appears_before(
                            order@,
                            e,
                            order@.len() as int,
                        ) by {
                            if e != d {
                                assert(marks_before[e]);
                                let j = choose|j: int|
                                    0 <= j < p && j < order_before.len() && #[trigger] order_before[j]
                                        == e;
                                assert(order@[j] == e);
                            }
                        }
                        assert forall|k: int, i: int|
                            0 <= k < order@.len() && 0 <= i < edges[order@[k] as int].len() && (
                            #[trigger] edges[order@[k] as int][i]) is Some implies appears_before(
                            order@,
                            edges[order@[k] as int][i].unwrap().node as int,
                            k,
                        ) by {
                            let source = edges[order@[k] as int][i].unwrap().node as int;
                            if k < p {
                                assert(order@[k] == order_before[k]);
                                assert(appears_before(order_before, source, k));
                                let j = choose|j: int|
                                    0 <= j < k && j < order_before.len() && #[trigger] order_before[j]
                                        == source;
                                assert(order@[j] == source);
                            } else {
                                assert(incoming@[d as int]@[i] is Some);
                                assert(marks_before[source]);
                                let j = choose|j: int|
                                    0 <= j < p && j < order_before.len() && #[trigger] order_before[j]
                                        == source;
                                assert(order@[j] == source);
                            }
                        }
                    }
                } else {
                    proof {
                        let i = choose|i: int|
                            0 <= i < incoming@[d as int]@.len() && (
                            #[trigger] incoming@[d as int]@[i]) is Some
                                && !marks@[incoming@[d as int]@[i].unwrap().node as int];
                        assert(edges[d as int][i] is Some);
                    }
                }
            }
            d += 1;
        }
        if order.len() == start {
            proof {
                lemma_count_set_bounds(marks@);
                let unmarked = choose|e: int| 0 <= e < marks@.len() && !marks@[e];
                assert(is_stuck(edges, marks@));
                lemma_stuck_is_cyclic(edges, marks@, unmarked);
            }
            return None;
        }
    }
    proof {
        lemma_count_set_bounds(marks@);
        assert forall|d: int| 0 <= d < edges.len() implies #[trigger] appears_before(
            order@,
            d,
            order@.len() as int,
        ) by {
            assert(marks@[d]);
        }
        assert(is_topological_order(order@, edges));
    }
    Some(order)
}

} // verus!
