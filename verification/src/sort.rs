//! Topological sorting of a set of nodes and of the edges between them.
//!
//! Nodes are plain numbers here; an edge `(producer, consumer)` asks that the
//! producer comes before the consumer. The sort follows Kahn: nodes that
//! consume nothing are queued, and a consumer joins the queue once the last
//! edge into it has been taken away. Ties are broken by the order in which
//! `nodes` and `edges` list their items, never by the order of a hash table.

use std::collections::VecDeque;
use vstd::prelude::*;

use crate::edge_set::edge_set_contains;
use crate::edge_set::edge_set_insert;
use crate::edge_set::edge_set_is_empty;
use crate::edge_set::edge_set_items;
use crate::edge_set::edge_set_new;
use crate::edge_set::edge_set_remove;
use crate::edge_set::EdgeSet;

verus! {

/// The edges cannot be laid out in a line that runs forward only.
#[derive(Debug, Clone, Copy)]
pub struct Cycle;

/// Some edge ends in `node`.
pub open spec fn is_consumer(edges: Seq<(usize, usize)>, node: usize) -> bool {
    exists|j: int| 0 <= j < edges.len() && (#[trigger] edges[j]).1 == node
}

/// `node` takes part in the sort: it is listed, or some edge ends in it.
pub open spec fn is_vertex(nodes: Seq<usize>, edges: Seq<(usize, usize)>, node: usize) -> bool {
    nodes.contains(node) || is_consumer(edges, node)
}

/// Both nodes occur in `order`, `first` at an earlier place than `second`.
pub open spec fn precedes(order: Seq<usize>, first: usize, second: usize) -> bool {
    exists|a: int, b: int|
        #![trigger order[a], order[b]]
        0 <= a < b < order.len() && order[a] == first && order[b] == second
}

/// `order` holds every vertex once and nothing else, and every edge leads
/// from an earlier place in it to a later one.
pub open spec fn is_topological_order(
    order: Seq<usize>,
    nodes: Seq<usize>,
    edges: Seq<(usize, usize)>,
) -> bool {
    &&& order.no_duplicates()
    &&& forall|v: usize| order.contains(v) <==> is_vertex(nodes, edges, v)
    &&& forall|j: int|
        0 <= j < edges.len() ==> precedes(order, (#[trigger] edges[j]).0, edges[j].1)
}

/// `rank` grows along every edge.
pub open spec fn is_ranking(rank: spec_fn(usize) -> nat, edges: Seq<(usize, usize)>) -> bool {
    forall|j: int| 0 <= j < edges.len() ==> rank((#[trigger] edges[j]).0) < rank(edges[j].1)
}

/// Every producer of an edge is a vertex: it is listed, or it consumes too.
pub open spec fn producers_are_vertices(nodes: Seq<usize>, edges: Seq<(usize, usize)>) -> bool {
    forall|j: int| 0 <= j < edges.len() ==> is_vertex(nodes, edges, (#[trigger] edges[j]).0)
}

/// The input can be sorted: no edge starts outside the vertices, and the
/// nodes can be ranked so that every edge leads upwards. The second half
/// holds exactly if the edges hold no cycle.
pub open spec fn sortable(nodes: Seq<usize>, edges: Seq<(usize, usize)>) -> bool {
    &&& producers_are_vertices(nodes, edges)
    &&& exists|rank: spec_fn(usize) -> nat| is_ranking(rank, edges)
}

/// The step of a closed walk that starts at place `i`: from the node at
/// that place to the node at the next, and from the last node to the first.
pub open spec fn step(walk: Seq<usize>, i: int) -> (usize, usize) {
    (walk[i], walk[if i + 1 < walk.len() { i + 1 } else { 0 }])
}

/// `walk` is a closed walk along the edges: each step follows an edge, and
/// the last step leads back to where the first began.
pub open spec fn is_cycle(edges: Seq<(usize, usize)>, walk: Seq<usize>) -> bool {
    &&& walk.len() > 0
    &&& forall|i: int| 0 <= i < walk.len() ==> edges.contains(#[trigger] step(walk, i))
}

/// The edges hold a cycle.
pub open spec fn has_cycle(edges: Seq<(usize, usize)>) -> bool {
    exists|walk: Seq<usize>| is_cycle(edges, walk)
}

/// The place of `node` in `order`, or the length of `order` if it is absent.
pub open spec fn place_in(order: Seq<usize>, node: usize) -> nat
    decreases order.len(),
{
    if order.len() == 0 {
        0
    } else if order[0] == node {
        0
    } else {
        1 + place_in(order.subrange(1, order.len() as int), node)
    }
}

/// What holds of the sort between two steps. `rem` is the set of edges not
/// yet taken away, `sorted` the result so far, `queue` the nodes that wait.
spec fn progress(
    nodes: Seq<usize>,
    edges: Seq<(usize, usize)>,
    rem: Set<(usize, usize)>,
    sorted: Seq<usize>,
    queue: Seq<usize>,
) -> bool {
    &&& rem.finite()
    &&& forall|e: (usize, usize)| #[trigger] rem.contains(e) ==> edges.contains(e)
    &&& (sorted + queue).no_duplicates()
    &&& forall|e: (usize, usize)| #[trigger] rem.contains(e) ==> !(sorted + queue).contains(e.1)
    &&& forall|j: int|
        0 <= j < edges.len() && !rem.contains(#[trigger] edges[j]) ==> sorted.contains(edges[j].0)
    &&& forall|j: int, b: int|
        0 <= j < edges.len() && 0 <= b < sorted.len() && !rem.contains(#[trigger] edges[j])
            && #[trigger] sorted[b] == edges[j].1 ==> exists|a: int|
            0 <= a < b && #[trigger] sorted[a] == edges[j].0
    &&& forall|v: usize| #[trigger]
        is_vertex(nodes, edges, v) ==> (sorted + queue).contains(v) || has_pending(rem, v)
    &&& forall|v: usize| #[trigger] (sorted + queue).contains(v) ==> is_vertex(nodes, edges, v)
    &&& sorted.len() + queue.len() + rem.len() <= nodes.len() + edges.len()
}

/// Some edge into `node` has not been taken away yet.
spec fn has_pending(rem: Set<(usize, usize)>, node: usize) -> bool {
    exists|e: (usize, usize)| #[trigger] rem.contains(e) && e.1 == node
}

/// A ranking along the edges, read off an order that holds both ends of
/// every edge in the right sequence.
proof fn lemma_place_in(order: Seq<usize>, node: usize)
    ensures
        place_in(order, node) <= order.len(),
        order.contains(node) ==> place_in(order, node) < order.len() && order[place_in(
            order,
            node,
        ) as int] == node,
        forall|i: int| 0 <= i < place_in(order, node) ==> order[i] != node,
    decreases order.len(),
{
    if order.len() == 0 {
    } else if order[0] == node {
    } else {
        let rest = order.subrange(1, order.len() as int);
        lemma_place_in(rest, node);
        if order.contains(node) {
            let i = choose|i: int| 0 <= i < order.len() && order[i] == node;
            assert(rest[i - 1] == node);
        }
        assert forall|i: int| 0 <= i < place_in(order, node) implies order[i] != node by {
            if i > 0 {
                assert(rest[i - 1] == order[i]);
            }
        }
    }
}

/// An order that holds no node twice gives each node its own place.
proof fn lemma_place_of_item(order: Seq<usize>, i: int)
    requires
        order.no_duplicates(),
        0 <= i < order.len(),
    ensures
        place_in(order, order[i]) == i,
{
    lemma_place_in(order, order[i]);
    assert(order.contains(order[i]));
}

/// Law: a topological order proves that the input was sortable. The place
/// of each node in the order is a ranking.
pub proof fn lemma_order_shows_sortable(
    order: Seq<usize>,
    nodes: Seq<usize>,
    edges: Seq<(usize, usize)>,
)
    requires
        is_topological_order(order, nodes, edges),
    ensures
        sortable(nodes, edges),
        is_ranking(|v: usize| place_in(order, v), edges),
{
    let rank = |v: usize| place_in(order, v);
    assert forall|j: int| 0 <= j < edges.len() implies rank((#[trigger] edges[j]).0) < rank(
        edges[j].1,
    ) by {
        assert(precedes(order, edges[j].0, edges[j].1));
        let (a, b) = choose|a: int, b: int|
            #![trigger order[a], order[b]]
            0 <= a < b < order.len() && order[a] == edges[j].0 && order[b] == edges[j].1;
        lemma_place_of_item(order, a);
        lemma_place_of_item(order, b);
    }
    assert(is_ranking(rank, edges));
    assert forall|j: int| 0 <= j < edges.len() implies is_vertex(
        nodes,
        edges,
        (#[trigger] edges[j]).0,
    ) by {
        assert(precedes(order, edges[j].0, edges[j].1));
        assert(order.contains(edges[j].0));
    }
}

/// Law: edges that can be ranked hold no cycle. Along a closed walk the rank
/// would have to grow with every step and still end where it began.
pub proof fn lemma_ranked_edges_hold_no_cycle(
    rank: spec_fn(usize) -> nat,
    edges: Seq<(usize, usize)>,
    walk: Seq<usize>,
)
    requires
        is_ranking(rank, edges),
    ensures
        !is_cycle(edges, walk),
{
    if is_cycle(edges, walk) {
        lemma_walk_climbs(rank, edges, walk, walk.len() - 1);
        let last = walk.len() - 1;
        assert(edges.contains(step(walk, last)));
        let j = choose|j: int| 0 <= j < edges.len() && edges[j] == step(walk, last);
        assert(rank(edges[j].0) < rank(edges[j].1));
    }
}

/// Along a walk the rank of step `i` is at least `i` above that of the start.
proof fn lemma_walk_climbs(
    rank: spec_fn(usize) -> nat,
    edges: Seq<(usize, usize)>,
    walk: Seq<usize>,
    i: int,
)
    requires
        is_ranking(rank, edges),
        is_cycle(edges, walk),
        0 <= i < walk.len(),
    ensures
        rank(walk[0]) + i <= rank(walk[i]),
    decreases i,
{
    if i > 0 {
        lemma_walk_climbs(rank, edges, walk, i - 1);
        assert(edges.contains(step(walk, i - 1)));
        let j = choose|j: int| 0 <= j < edges.len() && edges[j] == step(walk, i - 1);
        assert(rank(edges[j].0) < rank(edges[j].1));
    }
}

/// An edge among `rem` that ends where `edge` starts.
spec fn step_back(rem: Set<(usize, usize)>, edge: (usize, usize)) -> (usize, usize) {
    choose|before: (usize, usize)| #[trigger] rem.contains(before) && before.1 == edge.0
}

/// The edge that is reached from `edge` in `steps` steps back.
spec fn chain_back(rem: Set<(usize, usize)>, edge: (usize, usize), steps: nat) -> (usize, usize)
    decreases steps,
{
    if steps == 0 {
        edge
    } else {
        step_back(rem, chain_back(rem, edge, (steps - 1) as nat))
    }
}

/// Where every edge of `rem` starts at the end of another, every step back
/// stays within `rem` and ends where the step before began.
proof fn lemma_chain_back(rem: Set<(usize, usize)>, edge: (usize, usize), steps: nat)
    requires
        rem.contains(edge),
        forall|x: (usize, usize)| #[trigger] rem.contains(x) ==> has_pending(rem, x.0),
    ensures
        rem.contains(chain_back(rem, edge, steps)),
        steps > 0 ==> chain_back(rem, edge, steps).1 == chain_back(
            rem,
            edge,
            (steps - 1) as nat,
        ).0,
    decreases steps,
{
    if steps > 0 {
        lemma_chain_back(rem, edge, (steps - 1) as nat);
        let reached = chain_back(rem, edge, (steps - 1) as nat);
        assert(has_pending(rem, reached.0));
    }
}

/// Once the queue has run dry, the edges that are left over hold a cycle:
/// each starts at the end of another, and there are only so many of them,
/// so the way back from any of them comes by some edge twice.
proof fn lemma_leftover_holds_cycle(
    edges: Seq<(usize, usize)>,
    rem: Set<(usize, usize)>,
    edge: (usize, usize),
)
    requires
        rem.finite(),
        rem.contains(edge),
        forall|x: (usize, usize)| #[trigger] rem.contains(x) ==> edges.contains(x),
        forall|x: (usize, usize)| #[trigger] rem.contains(x) ==> has_pending(rem, x.0),
    ensures
        has_cycle(edges),
{
    let chain = Seq::new(rem.len() + 1, |i: int| chain_back(rem, edge, i as nat));
    assert forall|i: int| 0 <= i < chain.len() implies rem.contains(#[trigger] chain[i]) by {
        lemma_chain_back(rem, edge, i as nat);
    }
    if chain.no_duplicates() {
        chain.unique_seq_to_set();
        assert(chain.to_set().subset_of(rem));
        vstd::set_lib::lemma_len_subset(chain.to_set(), rem);
    }
    let (i, j) = choose|i: int, j: int|
        0 <= i < chain.len() && 0 <= j < chain.len() && i != j && chain[i] == chain[j];
    let low = if i < j {
        i
    } else {
        j
    };
    let high = if i < j {
        j
    } else {
        i
    };
    let walk = Seq::new((high - low) as nat, |t: int| chain_back(rem, edge, (high - t) as nat).0);
    assert forall|t: int| 0 <= t < walk.len() implies edges.contains(
        #[trigger] step(walk, t),
    ) by {
        let taken = chain_back(rem, edge, (high - t) as nat);
        lemma_chain_back(rem, edge, (high - t) as nat);
        assert(taken == chain[high - t]);
        if t + 1 < walk.len() {
            assert(step(walk, t) == taken);
        } else {
            assert(chain[low] == chain[high]);
            assert(chain_back(rem, edge, (high - t - 1) as nat) == chain[low]);
            assert(step(walk, t) == taken);
        }
    }
    assert(is_cycle(edges, walk));
}

/// What the sort has found once the queue has run dry. With no edge left
/// over, the result so far is a topological order; with an edge left over,
/// the edges hold a cycle, or one of them starts at no vertex.
proof fn lemma_sort_ends(
    nodes: Seq<usize>,
    edges: Seq<(usize, usize)>,
    rem: Set<(usize, usize)>,
    sorted: Seq<usize>,
)
    requires
        progress(nodes, edges, rem, sorted, Seq::<usize>::empty()),
        forall|x: (usize, usize)| #[trigger] rem.contains(x) ==> !sorted.contains(x.0),
    ensures
        (forall|e: (usize, usize)| !rem.contains(e)) ==> is_topological_order(sorted, nodes, edges)
            && sortable(nodes, edges) && !has_cycle(edges) && producers_are_vertices(nodes, edges),
        (exists|e: (usize, usize)| rem.contains(e)) ==> !sortable(nodes, edges) && (has_cycle(edges)
            || !producers_are_vertices(nodes, edges)),
{
    assert(sorted + Seq::<usize>::empty() =~= sorted);
    if forall|e: (usize, usize)| !rem.contains(e) {
        assert forall|j: int| 0 <= j < edges.len() implies precedes(
            sorted,
            (#[trigger] edges[j]).0,
            edges[j].1,
        ) by {
            assert(is_consumer(edges, edges[j].1));
            assert(is_vertex(nodes, edges, edges[j].1));
            assert(!has_pending(rem, edges[j].1));
            assert(sorted.contains(edges[j].1));
            let b = choose|b: int| 0 <= b < sorted.len() && sorted[b] == edges[j].1;
            let a = choose|a: int| 0 <= a < b && #[trigger] sorted[a] == edges[j].0;
            assert(sorted[a] == edges[j].0 && sorted[b] == edges[j].1);
        }
        assert forall|v: usize| sorted.contains(v) <==> is_vertex(nodes, edges, v) by {
            if is_vertex(nodes, edges, v) {
                assert(!has_pending(rem, v));
            }
        }
        assert(is_topological_order(sorted, nodes, edges));
        lemma_order_shows_sortable(sorted, nodes, edges);
        if has_cycle(edges) {
            let walk = choose|walk: Seq<usize>| is_cycle(edges, walk);
            lemma_ranked_edges_hold_no_cycle(|v: usize| place_in(sorted, v), edges, walk);
        }
    }
    if exists|e: (usize, usize)| rem.contains(e) {
        let e = choose|e: (usize, usize)| rem.contains(e);
        if producers_are_vertices(nodes, edges) {
            assert forall|x: (usize, usize)| #[trigger] rem.contains(x) implies has_pending(
                rem,
                x.0,
            ) by {
                assert(edges.contains(x));
                let j = choose|j: int| 0 <= j < edges.len() && edges[j] == x;
                assert(is_vertex(nodes, edges, edges[j].0));
            }
            lemma_leftover_holds_cycle(edges, rem, e);
        }
        if has_cycle(edges) && sortable(nodes, edges) {
            let walk = choose|walk: Seq<usize>| is_cycle(edges, walk);
            let rank = choose|rank: spec_fn(usize) -> nat| is_ranking(rank, edges);
            lemma_ranked_edges_hold_no_cycle(rank, edges, walk);
        }
    }
}

/// Whether some edge ends in `node`.
fn consumes(edges: &Vec<(usize, usize)>, node: usize) -> (found: bool)
    ensures
        found == is_consumer(edges@, node),
{
    let mut j: usize = 0;
    while j < edges.len()
        invariant
            j <= edges.len(),
            forall|k: int| 0 <= k < j ==> (#[trigger] edges@[k]).1 != node,
        decreases edges.len() - j,
    {
        if edges[j].1 == node {
            return true;
        }
        j += 1;
    }
    false
}

/// Whether `nodes` lists the node at place `i` at an earlier place too.
fn listed_before(nodes: &Vec<usize>, i: usize) -> (found: bool)
    requires
        i < nodes.len(),
    ensures
        found == exists|k: int| 0 <= k < i && nodes@[k] == nodes@[i as int],
{
    let mut k: usize = 0;
    while k < i
        invariant
            k <= i < nodes.len(),
            forall|m: int| 0 <= m < k ==> nodes@[m] != nodes@[i as int],
        decreases i - k,
    {
        if nodes[k] == nodes[i] {
            return true;
        }
        k += 1;
    }
    false
}

/// Whether an edge into `node` is among those not yet taken away.
fn awaits_producer(edges: &Vec<(usize, usize)>, remaining: &EdgeSet, node: usize) -> (found: bool)
    requires
        forall|e: (usize, usize)| #[trigger]
            edge_set_items(*remaining).contains(e) ==> edges@.contains(e),
    ensures
        found == has_pending(edge_set_items(*remaining), node),
{
    let mut j: usize = 0;
    while j < edges.len()
        invariant
            j <= edges.len(),
            forall|k: int|
                0 <= k < j ==> !((#[trigger] edges@[k]).1 == node && edge_set_items(
                    *remaining,
                ).contains(edges@[k])),
        decreases edges.len() - j,
    {
        let edge = edges[j];
        if edge.1 == node && edge_set_contains(remaining, &edge) {
            return true;
        }
        j += 1;
    }
    proof {
        if has_pending(edge_set_items(*remaining), node) {
            let e = choose|e: (usize, usize)| #[trigger]
                edge_set_items(*remaining).contains(e) && e.1 == node;
            assert(edges@.contains(e));
            let k = choose|k: int| 0 <= k < edges@.len() && edges@[k] == e;
            assert(edges@[k].1 == node);
        }
    }
    false
}

/// The set of the edges that `edges` lists.
fn collect_edges(edges: &Vec<(usize, usize)>) -> (remaining: EdgeSet)
    ensures
        edge_set_items(remaining).finite(),
        edge_set_items(remaining).len() <= edges.len(),
        forall|e: (usize, usize)| edge_set_items(remaining).contains(e) <==> edges@.contains(e),
{
    let mut remaining = edge_set_new();
    let mut j: usize = 0;
    while j < edges.len()
        invariant
            j <= edges.len(),
            edge_set_items(remaining).finite(),
            edge_set_items(remaining).len() <= j,
            forall|e: (usize, usize)|
                edge_set_items(remaining).contains(e) <==> exists|k: int|
                    0 <= k < j && edges@[k] == e,
        decreases edges.len() - j,
    {
        let _ = edge_set_insert(&mut remaining, edges[j]);
        j += 1;
    }
    remaining
}

/// The nodes from which the sort starts: those that consume nothing, each
/// once, in the order in which `nodes` lists them.
fn seed_queue(nodes: &Vec<usize>, edges: &Vec<(usize, usize)>) -> (queue: VecDeque<usize>)
    ensures
        queue@.no_duplicates(),
        queue@.len() <= nodes.len(),
        forall|v: usize| queue@.contains(v) <==> nodes@.contains(v) && !is_consumer(edges@, v),
{
    let mut queue: VecDeque<usize> = VecDeque::new();
    let mut i: usize = 0;
    while i < nodes.len()
        invariant
            i <= nodes.len(),
            queue@.no_duplicates(),
            queue@.len() <= i,
            forall|v: usize|
                queue@.contains(v) <==> (exists|k: int| 0 <= k < i && nodes@[k] == v)
                    && !is_consumer(edges@, v),
        decreases nodes.len() - i,
    {
        let node = nodes[i];
        let consumer = consumes(edges, node);
        let repeated = listed_before(nodes, i);
        if !consumer && !repeated {
            let ghost before = queue@;
            queue.push_back(node);
            proof {
                assert(!before.contains(node));
                assert forall|v: usize|
                    queue@.contains(v) <==> (exists|k: int| 0 <= k < i + 1 && nodes@[k] == v)
                        && !is_consumer(edges@, v) by {
                    if queue@.contains(v) {
                        let p = choose|p: int| 0 <= p < queue@.len() && queue@[p] == v;
                        if p < before.len() {
                            assert(before[p] == v);
                            assert(before.contains(v));
                        } else {
                            assert(nodes@[i as int] == v);
                        }
                    }
                    if (exists|k: int| 0 <= k < i + 1 && nodes@[k] == v) && !is_consumer(
                        edges@,
                        v,
                    ) {
                        let k = choose|k: int| 0 <= k < i + 1 && nodes@[k] == v;
                        if k < i {
                            assert(before.contains(v));
                            let p = choose|p: int| 0 <= p < before.len() && before[p] == v;
                            assert(queue@[p] == v);
                        } else {
                            assert(queue@[before.len() as int] == v);
                        }
                    }
                }
            }
        } else {
            proof {
                assert forall|v: usize|
                    queue@.contains(v) <==> (exists|k: int| 0 <= k < i + 1 && nodes@[k] == v)
                        && !is_consumer(edges@, v) by {
                    if (exists|k: int| 0 <= k < i + 1 && nodes@[k] == v) && !is_consumer(
                        edges@,
                        v,
                    ) {
                        let k = choose|k: int| 0 <= k < i + 1 && nodes@[k] == v;
                        if k == i {
                            assert(repeated);
                            let m = choose|m: int| 0 <= m < i && nodes@[m] == nodes@[i as int];
                            assert(nodes@[m] == v);
                        }
                    }
                }
            }
        }
        i += 1;
    }
    queue
}

/// Sorts `nodes` so that every edge of `edges` leads from an earlier place
/// to a later one.
///
/// The result holds every listed node and every consumer of an edge, each
/// once. It is `Err(Cycle)` exactly if no such order exists: the edges hold
/// a cycle, or an edge starts at a node that is neither listed nor a
/// consumer, so that nothing ever takes the edge away. Among nodes that no edge orders, those listed earlier, and
/// those whose last producer came earlier, come first.
pub fn topological_sort(nodes: Vec<usize>, edges: Vec<(usize, usize)>) -> (result: Result<
    Vec<usize>,
    Cycle,
>)
    ensures
        result is Err <==> has_cycle(edges@) || !producers_are_vertices(nodes@, edges@),
        result is Ok <==> sortable(nodes@, edges@),
        result matches Ok(order) ==> is_topological_order(order@, nodes@, edges@),
{
    let mut remaining = collect_edges(&edges);
    let mut queue = seed_queue(&nodes, &edges);
    let mut sorted: Vec<usize> = Vec::new();
    proof {
        assert(sorted@ + queue@ =~= queue@);
        assert forall|v: usize| #[trigger] is_vertex(nodes@, edges@, v) implies (sorted@
            + queue@).contains(v) || has_pending(edge_set_items(remaining), v) by {
            if is_consumer(edges@, v) {
                let j = choose|j: int| 0 <= j < edges@.len() && (#[trigger] edges@[j]).1 == v;
                assert(edges@.contains(edges@[j]));
                assert(edge_set_items(remaining).contains(edges@[j]));
            }
        }
        assert forall|e: (usize, usize)| #[trigger]
            edge_set_items(remaining).contains(e) implies !(sorted@ + queue@).contains(e.1) by {
            assert(edges@.contains(e));
            let j = choose|j: int| 0 <= j < edges@.len() && edges@[j] == e;
            assert(edges@[j].1 == e.1);
            assert(is_consumer(edges@, e.1));
        }
        assert forall|j: int| 0 <= j < edges@.len() implies edge_set_items(remaining).contains(
            #[trigger] edges@[j],
        ) by {
            assert(edges@.contains(edges@[j]));
        }
    }
    loop
        invariant
            progress(nodes@, edges@, edge_set_items(remaining), sorted@, queue@),
            forall|x: (usize, usize)| #[trigger]
                edge_set_items(remaining).contains(x) ==> !sorted@.contains(x.0),
        ensures
            queue@.len() == 0,
        decreases nodes.len() + edges.len() - sorted.len(),
    {
        let ghost sorted_before = sorted@;
        let ghost queue_before = queue@;
        let node = match queue.pop_front() {
            Some(node) => node,
            None => {
                break ;
            },
        };
        sorted.push(node);
        proof {
            assert(sorted@ + queue@ =~= sorted_before + queue_before);
            let rem = edge_set_items(remaining);
            assert forall|j: int, b: int|
                0 <= j < edges@.len() && 0 <= b < sorted@.len() && !rem.contains(
                    #[trigger] edges@[j],
                ) && #[trigger] sorted@[b] == edges@[j].1 implies exists|a: int|
                0 <= a < b && #[trigger] sorted@[a] == edges@[j].0 by {
                if b < sorted_before.len() {
                    assert(sorted_before[b] == edges@[j].1);
                    let a = choose|a: int| 0 <= a < b && #[trigger] sorted_before[a] == edges@[j].0;
                    assert(sorted@[a] == edges@[j].0);
                } else {
                    assert(sorted_before.contains(edges@[j].0));
                    let a = choose|a: int|
                        0 <= a < sorted_before.len() && sorted_before[a] == edges@[j].0;
                    assert(sorted@[a] == edges@[j].0);
                }
            }
            assert forall|j: int|
                0 <= j < edges@.len() && !rem.contains(#[trigger] edges@[j]) implies sorted@.contains(
                edges@[j].0,
            ) by {
                let a = choose|a: int|
                    0 <= a < sorted_before.len() && sorted_before[a] == edges@[j].0;
                assert(sorted@[a] == edges@[j].0);
            }
        }
        let mut j: usize = 0;
        while j < edges.len()
            invariant
                j <= edges.len(),
                sorted@.len() > 0,
                sorted@.last() == node,
                progress(nodes@, edges@, edge_set_items(remaining), sorted@, queue@),
                forall|x: (usize, usize)| #[trigger]
                    edge_set_items(remaining).contains(x) && sorted@.contains(x.0) ==> x.0 == node
                        && exists|k: int| j <= k < edges@.len() && edges@[k] == x,
            decreases edges.len() - j,
        {
            let edge = edges[j];
            if edge.0 == node && edge_set_contains(&remaining, &edge) {
                let ghost rem_before = edge_set_items(remaining);
                let _ = edge_set_remove(&mut remaining, &edge);
                let waits = awaits_producer(&edges, &remaining, edge.1);
                let ghost queue_mid = queue@;
                if !waits {
                    queue.push_back(edge.1);
                }
                proof {
                    let rem = edge_set_items(remaining);
                    assert(!(sorted@ + queue_mid).contains(edge.1));
                    assert(sorted@.contains(node)) by {
                        assert(sorted@[sorted@.len() - 1] == node);
                    }
                    if !waits {
                        assert(sorted@ + queue@ =~= (sorted@ + queue_mid).push(edge.1));
                        assert forall|v: usize| #[trigger]
                            (sorted@ + queue@).contains(v) implies is_vertex(nodes@, edges@, v) by {
                            if v == edge.1 {
                                assert(edges@[j as int].1 == v);
                                assert(is_consumer(edges@, v));
                            } else {
                                let p = choose|p: int|
                                    0 <= p < (sorted@ + queue@).len() && (sorted@ + queue@)[p] == v;
                                assert(p < (sorted@ + queue_mid).len());
                                assert((sorted@ + queue_mid)[p] == v);
                                assert((sorted@ + queue_mid).contains(v));
                            }
                        }
                        assert forall|e: (usize, usize)| #[trigger]
                            rem.contains(e) implies !(sorted@ + queue@).contains(e.1) by {
                            assert(rem_before.contains(e));
                            if (sorted@ + queue@).contains(e.1) {
                                let p = choose|p: int|
                                    0 <= p < (sorted@ + queue@).len() && (sorted@ + queue@)[p]
                                        == e.1;
                                if p < (sorted@ + queue_mid).len() {
                                    assert((sorted@ + queue_mid)[p] == e.1);
                                } else {
                                    assert(has_pending(rem, edge.1));
                                }
                            }
                        }
                    }
                    assert forall|v: usize| #[trigger]
                        is_vertex(nodes@, edges@, v) implies (sorted@ + queue@).contains(v)
                        || has_pending(rem, v) by {
                        if (sorted@ + queue_mid).contains(v) {
                            let p = choose|p: int|
                                0 <= p < (sorted@ + queue_mid).len() && (sorted@ + queue_mid)[p]
                                    == v;
                            assert((sorted@ + queue@)[p] == v);
                        } else {
                            assert(has_pending(rem_before, v));
                            let e = choose|e: (usize, usize)| #[trigger]
                                rem_before.contains(e) && e.1 == v;
                            if e == edge {
                                if !waits {
                                    assert((sorted@ + queue@)[(sorted@ + queue_mid).len() as int]
                                        == v);
                                }
                            } else {
                                assert(rem.contains(e));
                            }
                        }
                    }
                    assert forall|k: int, b: int|
                        0 <= k < edges@.len() && 0 <= b < sorted@.len() && !rem.contains(
                            #[trigger] edges@[k],
                        ) && #[trigger] sorted@[b] == edges@[k].1 implies exists|a: int|
                        0 <= a < b && #[trigger] sorted@[a] == edges@[k].0 by {
                        if edges@[k] == edge {
                            assert((sorted@ + queue_mid)[b] == edge.1);
                        }
                    }
                    assert forall|x: (usize, usize)| #[trigger]
                        rem.contains(x) && sorted@.contains(x.0) implies x.0 == node && exists|
                        k: int,
                    |
                        j + 1 <= k < edges@.len() && edges@[k] == x by {
                        assert(rem_before.contains(x));
                        let k = choose|k: int| j <= k < edges@.len() && edges@[k] == x;
                        assert(k != j);
                    }
                }
            } else {
                proof {
                    let rem = edge_set_items(remaining);
                    assert forall|x: (usize, usize)| #[trigger]
                        rem.contains(x) && sorted@.contains(x.0) implies x.0 == node && exists|
                        k: int,
                    |
                        j + 1 <= k < edges@.len() && edges@[k] == x by {
                        let k = choose|k: int| j <= k < edges@.len() && edges@[k] == x;
                        assert(k != j);
                    }
                }
            }
            j += 1;
        }
    }
    let done = edge_set_is_empty(&remaining);
    proof {
        assert(queue@ =~= Seq::<usize>::empty());
        lemma_sort_ends(nodes@, edges@, edge_set_items(remaining), sorted@);
    }
    if done {
        Ok(sorted)
    } else {
        Err(Cycle)
    }
}

} // verus!
