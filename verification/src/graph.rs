//! Storage for nodes and for the edges between their ports.
//!
//! A graph keeps its nodes under their indices and its edges as pairs of a
//! producer address and a consumer address. A consumer takes its input from
//! one producer at most; a producer may feed any number of consumers.

use vstd::prelude::*;

use crate::node::{CommonConsumerIndex, CommonProducerIndex, NodeClass, NodeIndex, Same};

verus! {

/// Why an edge could not be added.
#[derive(Debug)]
pub enum AddEdgeError {
    /// The consumer already takes its input from another producer.
    OccupiedConsumer,
}

/// The edge starts or ends at the node with the given index.
pub open spec fn touches<NI: NodeIndex>(
    edge: (CommonProducerIndex<NI>, CommonConsumerIndex<NI>),
    node_index: NI,
) -> bool {
    edge.0.node_index == node_index || edge.1.node_index == node_index
}

/// Among `edges`, the consumer takes its input from a producer other than
/// the given one.
pub open spec fn occupied<NI: NodeIndex>(
    edges: Set<(CommonProducerIndex<NI>, CommonConsumerIndex<NI>)>,
    producer: CommonProducerIndex<NI>,
    consumer: CommonConsumerIndex<NI>,
) -> bool {
    exists|other: CommonProducerIndex<NI>|
        other != producer && #[trigger] edges.contains((other, consumer))
}

/// What adding the edge from `producer` to `consumer` does to a set of
/// edges: the edge joins the set, unless the consumer is occupied.
pub open spec fn add_edge_outcome<NI: NodeIndex>(
    edges: Set<(CommonProducerIndex<NI>, CommonConsumerIndex<NI>)>,
    producer: CommonProducerIndex<NI>,
    consumer: CommonConsumerIndex<NI>,
) -> Result<Set<(CommonProducerIndex<NI>, CommonConsumerIndex<NI>)>, AddEdgeError> {
    if occupied(edges, producer, consumer) {
        Err(AddEdgeError::OccupiedConsumer)
    } else {
        Ok(edges.insert((producer, consumer)))
    }
}

/// No consumer occurs in two edges of the set.
pub open spec fn single_producer<NI: NodeIndex>(
    edges: Set<(CommonProducerIndex<NI>, CommonConsumerIndex<NI>)>,
) -> bool {
    forall|
        first: (CommonProducerIndex<NI>, CommonConsumerIndex<NI>),
        second: (CommonProducerIndex<NI>, CommonConsumerIndex<NI>),
    |
        #![trigger edges.contains(first), edges.contains(second)]
        edges.contains(first) && edges.contains(second) && first.1 == second.1 ==> first == second
}

/// Law: adding an edge a second time changes nothing. Where the first call
/// added the edge, the second finds it and leaves the same set; where the
/// first was refused, nothing had changed, and the second is refused too.
pub proof fn lemma_add_edge_is_idempotent<NI: NodeIndex>(
    edges: Set<(CommonProducerIndex<NI>, CommonConsumerIndex<NI>)>,
    producer: CommonProducerIndex<NI>,
    consumer: CommonConsumerIndex<NI>,
)
    ensures
        add_edge_outcome(edges, producer, consumer) matches Ok(once) ==> add_edge_outcome(
            once,
            producer,
            consumer,
        ) == Ok::<_, AddEdgeError>(once) && once.contains((producer, consumer)),
        add_edge_outcome(edges, producer, consumer) is Err ==> add_edge_outcome(
            edges,
            producer,
            consumer,
        ) is Err,
{
    if let Ok(once) = add_edge_outcome(edges, producer, consumer) {
        assert(once.insert((producer, consumer)) =~= once);
        if occupied(once, producer, consumer) {
            let other = choose|other: CommonProducerIndex<NI>|
                other != producer && #[trigger] once.contains((other, consumer));
            assert(edges.contains((other, consumer)));
        }
    }
}

/// Law: a consumer keeps the producer it has. Once an edge into the
/// consumer is in the set, an edge from any other producer into the same
/// consumer is refused with `OccupiedConsumer`.
pub proof fn lemma_second_producer_is_refused<NI: NodeIndex>(
    edges: Set<(CommonProducerIndex<NI>, CommonConsumerIndex<NI>)>,
    first: CommonProducerIndex<NI>,
    second: CommonProducerIndex<NI>,
    consumer: CommonConsumerIndex<NI>,
)
    requires
        add_edge_outcome(edges, first, consumer) is Ok,
        second != first,
    ensures
        add_edge_outcome(add_edge_outcome(edges, first, consumer)->Ok_0, second, consumer) == Err::<
            Set<(CommonProducerIndex<NI>, CommonConsumerIndex<NI>)>,
            _,
        >(AddEdgeError::OccupiedConsumer),
{
    let once = add_edge_outcome(edges, first, consumer)->Ok_0;
    assert(once.contains((first, consumer)));
}

/// Law: adding edges never gives a consumer two producers.
pub proof fn lemma_add_edge_keeps_single_producer<NI: NodeIndex>(
    edges: Set<(CommonProducerIndex<NI>, CommonConsumerIndex<NI>)>,
    producer: CommonProducerIndex<NI>,
    consumer: CommonConsumerIndex<NI>,
)
    requires
        single_producer(edges),
    ensures
        add_edge_outcome(edges, producer, consumer) matches Ok(after) ==> single_producer(after),
{
    if let Ok(after) = add_edge_outcome(edges, producer, consumer) {
        assert forall|
            first: (CommonProducerIndex<NI>, CommonConsumerIndex<NI>),
            second: (CommonProducerIndex<NI>, CommonConsumerIndex<NI>),
        |
            #![trigger after.contains(first), after.contains(second)]
            after.contains(first) && after.contains(second) && first.1
                == second.1 implies first == second by {
            if first != second {
                if first == (producer, consumer) {
                    assert(edges.contains((second.0, consumer)));
                } else if second == (producer, consumer) {
                    assert(edges.contains((first.0, consumer)));
                } else {
                    assert(edges.contains(first) && edges.contains(second));
                }
            }
        }
    }
}

/// Two lists of nodes keep the same indices at the same places.
pub open spec fn same_indices<N, NI>(before: Seq<(NI, N)>, after: Seq<(NI, N)>) -> bool {
    &&& after.len() == before.len()
    &&& forall|i: int| 0 <= i < before.len() ==> (#[trigger] after[i]).0 == before[i].0
}

/// Nodes under their indices, and edges between their ports.
pub struct Graph<N, NI> where N: NodeClass, NI: NodeIndex<Class = N::Class> {
    index_counter: usize,
    nodes: Vec<(NI, N)>,
    edges: Vec<(CommonProducerIndex<NI>, CommonConsumerIndex<NI>)>,
}

impl<N, NI> Graph<N, NI> where N: NodeClass, NI: NodeIndex<Class = N::Class> {
    /// The nodes with their indices, in the order in which the graph keeps
    /// them.
    pub closed spec fn entries(&self) -> Seq<(NI, N)> {
        self.nodes@
    }

    /// The edges, in the order in which the graph keeps them.
    pub closed spec fn links(&self) -> Seq<(CommonProducerIndex<NI>, CommonConsumerIndex<NI>)> {
        self.edges@
    }

    /// The sequence number that the next node gets.
    pub closed spec fn next_index(&self) -> usize {
        self.index_counter
    }

    /// The graph keeps a node under the given index.
    pub open spec fn contains_node(&self, node_index: NI) -> bool {
        exists|i: int| 0 <= i < self.entries().len() && (#[trigger] self.entries()[i]).0 == node_index
    }

    /// The place at which the graph keeps the node with the given index.
    pub open spec fn position_of(&self, node_index: NI) -> int {
        choose|i: int| 0 <= i < self.entries().len() && (#[trigger] self.entries()[i]).0 == node_index
    }

    /// The nodes of the graph, each under its index.
    pub open spec fn nodes(&self) -> Map<NI, N> {
        Map::new(
            |node_index: NI| self.contains_node(node_index),
            |node_index: NI| self.entries()[self.position_of(node_index)].1,
        )
    }

    /// The edges of the graph.
    pub open spec fn edges(&self) -> Set<(CommonProducerIndex<NI>, CommonConsumerIndex<NI>)> {
        self.links().to_set()
    }

    /// The graph is in order: no index is kept twice, no edge is kept twice,
    /// and no consumer takes its input from two producers.
    pub open spec fn wf(&self) -> bool {
        &&& forall|i: int, j: int|
            0 <= i < j < self.entries().len() ==> (#[trigger] self.entries()[i]).0 != (
            #[trigger] self.entries()[j]).0
        &&& forall|i: int, j: int|
            0 <= i < j < self.links().len() ==> (#[trigger] self.links()[i]).1 != (
            #[trigger] self.links()[j]).1
    }

    /// The graph keeps no more nodes and edges than a `usize` can count.
    pub proof fn lemma_counts_fit(&self)
        ensures
            self.entries().len() <= usize::MAX,
            self.links().len() <= usize::MAX,
    {
        assert(self.nodes.len() == self.nodes@.len());
        assert(self.edges.len() == self.edges@.len());
    }

    /// In a graph that is in order, the node at each place is the one that
    /// the graph keeps under the index at that place.
    pub proof fn lemma_entry(&self, i: int)
        requires
            self.wf(),
            0 <= i < self.entries().len(),
        ensures
            self.contains_node(self.entries()[i].0),
            self.position_of(self.entries()[i].0) == i,
            self.nodes().contains_key(self.entries()[i].0),
            self.nodes()[self.entries()[i].0] == self.entries()[i].1,
    {
        let node_index = self.entries()[i].0;
        let p = self.position_of(node_index);
        if p < i {
            assert(self.entries()[p].0 != self.entries()[i].0);
        }
        if i < p {
            assert(self.entries()[i].0 != self.entries()[p].0);
        }
    }

    /// Putting another node in a place, under the index that is kept
    /// there, leaves the graph in order and changes the node under that
    /// index only.
    pub proof fn lemma_entry_changed(&self, after: Self, place: int, node: N)
        requires
            self.wf(),
            0 <= place < self.entries().len(),
            after.entries() == self.entries().update(place, (self.entries()[place].0, node)),
            after.links() == self.links(),
        ensures
            after.wf(),
            after.nodes() == self.nodes().insert(self.entries()[place].0, node),
            after.edges() == self.edges(),
    {
        assert forall|i: int, j: int| 0 <= i < j < after.entries().len() implies (
        #[trigger] after.entries()[i]).0 != (#[trigger] after.entries()[j]).0 by {
            assert(self.entries()[i].0 != self.entries()[j].0);
        }
        let expected = self.nodes().insert(self.entries()[place].0, node);
        assert forall|other: NI| #[trigger]
            after.nodes().contains_key(other) <==> expected.contains_key(other) by {
            if after.contains_node(other) {
                let i = after.position_of(other);
                assert(self.entries()[i].0 == other);
            }
            if self.contains_node(other) {
                let i = self.position_of(other);
                assert(after.entries()[i].0 == other);
            }
            assert(after.entries()[place].0 == self.entries()[place].0);
        }
        assert forall|other: NI| #[trigger] after.nodes().contains_key(other) implies after.nodes()[other]
            == expected[other] by {
            let i = after.position_of(other);
            after.lemma_entry(i);
            self.lemma_entry(i);
        }
        assert(after.nodes() =~= expected);
    }

    /// In a graph that is in order, no consumer has two producers.
    pub proof fn lemma_single_producer(&self)
        requires
            self.wf(),
        ensures
            single_producer(self.edges()),
            self.links().no_duplicates(),
    {
        let edges = self.edges();
        assert forall|
            first: (CommonProducerIndex<NI>, CommonConsumerIndex<NI>),
            second: (CommonProducerIndex<NI>, CommonConsumerIndex<NI>),
        |
            #![trigger edges.contains(first), edges.contains(second)]
            edges.contains(first) && edges.contains(second) && first.1
                == second.1 implies first == second by {
            let i = choose|i: int| 0 <= i < self.links().len() && self.links()[i] == first;
            let j = choose|j: int| 0 <= j < self.links().len() && self.links()[j] == second;
            if i < j {
                assert(self.links()[i].1 != self.links()[j].1);
            }
            if j < i {
                assert(self.links()[j].1 != self.links()[i].1);
            }
        }
        assert forall|i: int, j: int|
            0 <= i < self.links().len() && 0 <= j < self.links().len() && i
                != j implies self.links()[i] != self.links()[j] by {
            if i < j {
                assert(self.links()[i].1 != self.links()[j].1);
            } else {
                assert(self.links()[j].1 != self.links()[i].1);
            }
        }
    }

    /// A graph without nodes and edges.
    pub fn new() -> (graph: Self)
        ensures
            graph.wf(),
            graph.entries().len() == 0,
            graph.links().len() == 0,
            graph.next_index() == 0,
            graph.nodes() == Map::<NI, N>::empty(),
            graph.edges() == Set::<(CommonProducerIndex<NI>, CommonConsumerIndex<NI>)>::empty(),
    {
        let graph = Self { index_counter: 0, nodes: Vec::new(), edges: Vec::new() };
        proof {
            assert(graph.nodes() =~= Map::<NI, N>::empty());
            assert(graph.edges() =~= Set::<
                (CommonProducerIndex<NI>, CommonConsumerIndex<NI>),
            >::empty());
        }
        graph
    }

    /// The place at which the graph keeps the node with the given index, if
    /// it keeps one.
    pub fn position(&self, node_index: &NI) -> (place: Option<usize>)
        requires
            self.wf(),
        ensures
            place matches Some(i) ==> i < self.entries().len() && self.entries()[i as int].0
                == *node_index && self.position_of(*node_index) == i,
            place is Some <==> self.contains_node(*node_index),
    {
        let mut i: usize = 0;
        while i < self.nodes.len()
            invariant
                i <= self.nodes.len(),
                self.wf(),
                forall|k: int| 0 <= k < i ==> (#[trigger] self.nodes@[k]).0 != *node_index,
            decreases self.nodes.len() - i,
        {
            if self.nodes[i].0.same(node_index) {
                proof {
                    self.lemma_entry(i as int);
                }
                return Some(i);
            }
            i += 1;
        }
        None
    }

    /// The sequence number that the next node gets.
    pub fn next_sequence_number(&self) -> (number: usize)
        ensures
            number == self.next_index(),
    {
        self.index_counter
    }

    /// How many nodes the graph keeps.
    pub fn node_count(&self) -> (count: usize)
        ensures
            count == self.entries().len(),
    {
        self.nodes.len()
    }

    /// The index of the node at the given place.
    pub fn index_at(&self, place: usize) -> (node_index: NI)
        requires
            place < self.entries().len(),
        ensures
            node_index == self.entries()[place as int].0,
    {
        self.nodes[place].0
    }

    /// The node at the given place.
    pub fn node_at(&self, place: usize) -> (node: &N)
        requires
            place < self.entries().len(),
        ensures
            *node == self.entries()[place as int].1,
    {
        &self.nodes[place].1
    }

    /// The node at the given place, to be changed. Whatever the caller puts
    /// there stays under the same index.
    pub fn node_at_mut(&mut self, place: usize) -> (node: &mut N)
        requires
            old(self).wf(),
            place < old(self).entries().len(),
        ensures
            *node == old(self).entries()[place as int].1,
            final(self).entries() == old(self).entries().update(
                place as int,
                (old(self).entries()[place as int].0, *final(node)),
            ),
            final(self).nodes() == old(self).nodes().insert(
                old(self).entries()[place as int].0,
                *final(node),
            ),
            final(self).wf(),
            final(self).links() == old(self).links(),
            final(self).next_index() == old(self).next_index(),
    {
        let ghost before = *self;
        proof {
            assert forall|after: Self| #![trigger after.wf()]
                same_indices(before.entries(), after.entries()) && after.links()
                    == before.links() implies after.wf() by {
                assert forall|i: int, j: int| 0 <= i < j < after.entries().len() implies (
                #[trigger] after.entries()[i]).0 != (#[trigger] after.entries()[j]).0 by {
                    assert(before.entries()[i].0 != before.entries()[j].0);
                }
            }
            assert forall|after: Self, node: N|
                #![trigger after.nodes(), before.nodes().insert(before.entries()[place as int].0, node)]
                after.entries() == before.entries().update(
                    place as int,
                    (before.entries()[place as int].0, node),
                ) && after.links() == before.links() implies after.nodes()
                == before.nodes().insert(before.entries()[place as int].0, node) by {
                before.lemma_entry_changed(after, place as int, node);
            }
        }
        &mut self.nodes[place].1
    }

    /// How many edges the graph keeps.
    pub fn edge_count(&self) -> (count: usize)
        ensures
            count == self.links().len(),
    {
        self.edges.len()
    }

    /// The edge at the given place.
    pub fn edge_at(&self, place: usize) -> (edge: (CommonProducerIndex<NI>, CommonConsumerIndex<NI>))
        requires
            place < self.links().len(),
        ensures
            edge == self.links()[place as int],
    {
        self.edges[place]
    }

    /// Adds a node and returns the index under which the graph keeps it.
    ///
    /// The index is made of the node's class and of the next sequence
    /// number, which is then used up. Should the graph keep a node under
    /// that very index already, the new node takes its place.
    pub fn add_node(&mut self, node: N) -> (node_index: NI)
        requires
            old(self).wf(),
            old(self).next_index() < usize::MAX,
        ensures
            final(self).wf(),
            exists|class: N::Class|
                call_ensures(N::class, (&node,), class) && call_ensures(
                    NI::new,
                    (class, old(self).next_index()),
                    node_index,
                ),
            final(self).nodes() == old(self).nodes().insert(node_index, node),
            final(self).entries() == if old(self).contains_node(node_index) {
                old(self).entries().update(old(self).position_of(node_index), (node_index, node))
            } else {
                old(self).entries().push((node_index, node))
            },
            final(self).links() == old(self).links(),
            final(self).next_index() == old(self).next_index() + 1,
    {
        let class = node.class();
        let node_index = NI::new(class, self.index_counter);
        let ghost before = *self;
        match self.position(&node_index) {
            Some(place) => {
                self.nodes[place] = (node_index, node);
            },
            None => {
                self.nodes.push((node_index, node));
            },
        }
        self.index_counter += 1;
        proof {
            let place = if before.contains_node(node_index) {
                before.position_of(node_index)
            } else {
                before.entries().len() as int
            };
            assert(self.entries()[place] == (node_index, node));
            assert forall|i: int| 0 <= i < self.entries().len() && i != place implies (
            #[trigger] self.entries()[i]) == before.entries()[i] && self.entries()[i].0
                != node_index by {
                if before.contains_node(node_index) {
                    before.lemma_entry(place);
                    if i < place {
                        assert(before.entries()[i].0 != before.entries()[place].0);
                    } else {
                        assert(before.entries()[place].0 != before.entries()[i].0);
                    }
                } else {
                    assert(before.entries()[i].0 != node_index);
                }
            }
            assert(self.links() == before.links());
            assert forall|i: int, j: int| 0 <= i < j < self.entries().len() implies (
            #[trigger] self.entries()[i]).0 != (#[trigger] self.entries()[j]).0 by {
                if i != place && j != place {
                    assert(before.entries()[i].0 != before.entries()[j].0);
                }
            }
            assert(self.wf());
            self.lemma_entry(place);
            assert forall|other: NI| #[trigger]
                self.nodes().contains_key(other) <==> before.nodes().insert(
                    node_index,
                    node,
                ).contains_key(other) by {
                if self.contains_node(other) && other != node_index {
                    let i = self.position_of(other);
                    assert(before.entries()[i].0 == other);
                }
                if before.contains_node(other) && other != node_index {
                    let i = before.position_of(other);
                    assert(self.entries()[i].0 == other);
                }
            }
            assert forall|other: NI| #[trigger] self.nodes().contains_key(other) implies self.nodes()[other]
                == before.nodes().insert(node_index, node)[other] by {
                if other != node_index {
                    let i = self.position_of(other);
                    self.lemma_entry(i);
                    assert(before.entries()[i].0 == other);
                    before.lemma_entry(i);
                }
            }
            assert(self.nodes() =~= before.nodes().insert(node_index, node));
        }
        node_index
    }

    /// Removes the node under the given index, and with it every edge that
    /// starts or ends at one of its ports. Does nothing if the graph keeps
    /// no such node and no such edge.
    pub fn remove_node(&mut self, node_index: NI)
        requires
            old(self).wf(),
        ensures
            final(self).wf(),
            final(self).nodes() == old(self).nodes().remove(node_index),
            final(self).entries() == if old(self).contains_node(node_index) {
                old(self).entries().remove(old(self).position_of(node_index))
            } else {
                old(self).entries()
            },
            forall|edge: (CommonProducerIndex<NI>, CommonConsumerIndex<NI>)|
                #[trigger] final(self).edges().contains(edge) <==> old(self).edges().contains(edge)
                    && !touches(edge, node_index),
            final(self).next_index() == old(self).next_index(),
    {
        let ghost before = *self;
        match self.position(&node_index) {
            Some(place) => {
                let _ = self.nodes.remove(place);
                proof {
                    assert forall|i: int, j: int|
                        0 <= i < j < self.entries().len() implies (#[trigger] self.entries()[i]).0
                        != (#[trigger] self.entries()[j]).0 by {
                        let a = if i < place { i } else { i + 1 };
                        let b = if j < place { j } else { j + 1 };
                        assert(before.entries()[a].0 != before.entries()[b].0);
                    }
                }
            },
            None => {},
        }
        let mut kept: Vec<(CommonProducerIndex<NI>, CommonConsumerIndex<NI>)> = Vec::new();
        let ghost mut origin: Seq<int> = Seq::empty();
        let mut j: usize = 0;
        while j < self.edges.len()
            invariant
                j <= self.edges.len(),
                self.edges@ == before.links(),
                origin.len() == kept@.len(),
                forall|a: int|
                    0 <= a < kept@.len() ==> 0 <= #[trigger] origin[a] < j && kept@[a]
                        == self.edges@[origin[a]] && !touches(kept@[a], node_index),
                forall|a: int, b: int|
                    0 <= a < b < kept@.len() ==> #[trigger] origin[a] < #[trigger] origin[b],
                forall|k: int|
                    0 <= k < j && !touches(#[trigger] self.edges@[k], node_index)
                        ==> kept@.contains(self.edges@[k]),
            decreases self.edges.len() - j,
        {
            let edge = self.edges[j];
            if !edge.0.node_index.same(&node_index) && !edge.1.node_index.same(&node_index) {
                let ghost kept_before = kept@;
                kept.push(edge);
                proof {
                    origin = origin.push(j as int);
                    assert forall|k: int|
                        0 <= k < j + 1 && !touches(
                            #[trigger] self.edges@[k],
                            node_index,
                        ) implies kept@.contains(self.edges@[k]) by {
                        if k < j {
                            assert(kept_before.contains(self.edges@[k]));
                            let a = choose|a: int|
                                0 <= a < kept_before.len() && kept_before[a] == self.edges@[k];
                            assert(kept@[a] == self.edges@[k]);
                        } else {
                            assert(kept@[kept_before.len() as int] == self.edges@[k]);
                        }
                    }
                }
            }
            j += 1;
        }
        self.edges = kept;
        proof {
            assert forall|a: int, b: int| 0 <= a < b < self.links().len() implies (
            #[trigger] self.links()[a]).1 != (#[trigger] self.links()[b]).1 by {
                assert(before.links()[origin[a]].1 != before.links()[origin[b]].1);
            }
            assert(self.wf());
            assert forall|edge: (CommonProducerIndex<NI>, CommonConsumerIndex<NI>)|
                #[trigger] self.edges().contains(edge) <==> before.edges().contains(edge)
                    && !touches(edge, node_index) by {
                if self.edges().contains(edge) {
                    let a = choose|a: int| 0 <= a < self.links().len() && self.links()[a] == edge;
                    assert(before.links()[origin[a]] == edge);
                }
                if before.edges().contains(edge) && !touches(edge, node_index) {
                    let k = choose|k: int|
                        0 <= k < before.links().len() && before.links()[k] == edge;
                    assert(self.links().contains(before.links()[k]));
                }
            }
            assert forall|other: NI| #[trigger]
                self.nodes().contains_key(other) <==> before.nodes().remove(
                    node_index,
                ).contains_key(other) by {
                if self.contains_node(other) {
                    let i = self.position_of(other);
                    if before.contains_node(node_index) {
                        let place = before.position_of(node_index);
                        let a = if i < place { i } else { i + 1 };
                        assert(before.entries()[a].0 == other);
                        before.lemma_entry(a);
                        before.lemma_entry(place);
                    } else {
                        assert(before.entries()[i].0 == other);
                    }
                }
                if before.contains_node(other) && other != node_index {
                    let a = before.position_of(other);
                    if before.contains_node(node_index) {
                        let place = before.position_of(node_index);
                        let i = if a < place { a } else { a - 1 };
                        assert(self.entries()[i].0 == other);
                    } else {
                        assert(self.entries()[a].0 == other);
                    }
                }
            }
            assert forall|other: NI| #[trigger] self.nodes().contains_key(other) implies self.nodes()[other]
                == before.nodes().remove(node_index)[other] by {
                let i = self.position_of(other);
                self.lemma_entry(i);
                if before.contains_node(node_index) {
                    let place = before.position_of(node_index);
                    let a = if i < place { i } else { i + 1 };
                    assert(before.entries()[a].0 == other);
                    before.lemma_entry(a);
                } else {
                    before.lemma_entry(i);
                }
            }
            assert(self.nodes() =~= before.nodes().remove(node_index));
        }
    }

    /// The node under the given index, if the graph keeps one.
    pub fn node(&self, node_index: &NI) -> (node: Option<&N>)
        requires
            self.wf(),
        ensures
            node matches Some(found) ==> self.nodes().contains_key(*node_index) && *found
                == self.nodes()[*node_index],
            node is Some <==> self.nodes().contains_key(*node_index),
    {
        match self.position(node_index) {
            Some(place) => {
                proof {
                    self.lemma_entry(place as int);
                }
                Some(&self.nodes[place].1)
            },
            None => None,
        }
    }

    /// The node under the given index, to be changed, if the graph keeps
    /// one. Whatever the caller puts there stays under the same index.
    pub fn node_mut(&mut self, node_index: &NI) -> (node: Option<&mut N>)
        requires
            old(self).wf(),
        ensures
            node is Some <==> old(self).nodes().contains_key(*node_index),
            node matches Some(found) ==> *found == old(self).nodes()[*node_index]
                && final(self).entries() == old(self).entries().update(
                old(self).position_of(*node_index),
                (*node_index, *final(found)),
            ) && final(self).nodes() == old(self).nodes().insert(*node_index, *final(found)),
            node is None ==> *final(self) == *old(self),
            final(self).wf(),
            final(self).links() == old(self).links(),
            final(self).next_index() == old(self).next_index(),
    {
        match self.position(node_index) {
            Some(place) => {
                proof {
                    self.lemma_entry(place as int);
                }
                Some(self.node_at_mut(place))
            },
            None => None,
        }
    }

    /// Whether the consumer takes its input from a producer other than the
    /// given one.
    pub fn is_occupied(
        &self,
        producer: &CommonProducerIndex<NI>,
        consumer: &CommonConsumerIndex<NI>,
    ) -> (taken: bool)
        requires
            self.wf(),
        ensures
            taken == occupied(self.edges(), *producer, *consumer),
    {
        let mut j: usize = 0;
        while j < self.edges.len()
            invariant
                j <= self.edges.len(),
                forall|k: int|
                    0 <= k < j ==> !((#[trigger] self.edges@[k]).1 == *consumer && self.edges@[k].0
                        != *producer),
            decreases self.edges.len() - j,
        {
            if self.edges[j].1.same(consumer) && !self.edges[j].0.same(producer) {
                proof {
                    assert(self.edges().contains((self.edges@[j as int].0, *consumer)));
                }
                return true;
            }
            j += 1;
        }
        proof {
            if occupied(self.edges(), *producer, *consumer) {
                let other = choose|other: CommonProducerIndex<NI>|
                    other != *producer && #[trigger] self.edges().contains((other, *consumer));
                let k = choose|k: int|
                    0 <= k < self.links().len() && self.links()[k] == (other, *consumer);
                assert(self.edges@[k].1 == *consumer);
            }
        }
        false
    }

    /// Adds the edge from `producer` to `consumer`.
    ///
    /// Fails with `OccupiedConsumer`, and changes nothing, if the consumer
    /// takes its input from another producer already. Adding an edge that
    /// the graph has changes nothing either, and succeeds.
    pub fn add_edge(
        &mut self,
        producer: CommonProducerIndex<NI>,
        consumer: CommonConsumerIndex<NI>,
    ) -> (result: Result<(), AddEdgeError>)
        requires
            old(self).wf(),
        ensures
            final(self).wf(),
            final(self).entries() == old(self).entries(),
            final(self).next_index() == old(self).next_index(),
            match add_edge_outcome(old(self).edges(), producer, consumer) {
                Ok(edges) => result is Ok && final(self).edges() == edges,
                Err(error) => result == Err::<(), _>(error) && final(self).links() == old(
                    self,
                ).links(),
            },
            final(self).links() == old(self).links() || final(self).links() == old(
                self,
            ).links().push((producer, consumer)),
    {
        if self.is_occupied(&producer, &consumer) {
            return Err(AddEdgeError::OccupiedConsumer);
        }
        let ghost before = *self;
        if !self.has_edge(producer, consumer) {
            self.edges.push((producer, consumer));
            proof {
                assert forall|i: int, j: int| 0 <= i < j < self.links().len() implies (
                #[trigger] self.links()[i]).1 != (#[trigger] self.links()[j]).1 by {
                    if j == before.links().len() {
                        if self.links()[i].1 == consumer {
                            assert(before.links()[i] == (before.links()[i].0, consumer));
                            assert(before.edges().contains((before.links()[i].0, consumer)));
                            assert(before.links()[i] == (producer, consumer));
                            assert(before.edges().contains((producer, consumer)));
                            assert(false);
                        }
                    } else {
                        assert(before.links()[i].1 != before.links()[j].1);
                    }
                }
                assert(self.entries() == before.entries());
                assert(self.wf());
                assert(self.edges() =~= before.edges().insert((producer, consumer))) by {
                    assert forall|edge: (CommonProducerIndex<NI>, CommonConsumerIndex<NI>)|
                        self.edges().contains(edge) <==> before.edges().insert(
                            (producer, consumer),
                        ).contains(edge) by {
                        if self.edges().contains(edge) {
                            let k = choose|k: int|
                                0 <= k < self.links().len() && self.links()[k] == edge;
                            if k < before.links().len() {
                                assert(before.links()[k] == edge);
                            }
                        }
                        if before.edges().contains(edge) {
                            let k = choose|k: int|
                                0 <= k < before.links().len() && before.links()[k] == edge;
                            assert(self.links()[k] == edge);
                        }
                        if edge == (producer, consumer) {
                            assert(self.links()[before.links().len() as int] == edge);
                        }
                    }
                }
            }
        } else {
            proof {
                assert(self.edges() =~= before.edges().insert((producer, consumer)));
            }
        }
        Ok(())
    }

    /// Adds the edge from `producer` to `consumer`, which the caller knows
    /// to be free: the consumer must not take its input from another
    /// producer.
    pub fn must_add_edge(
        &mut self,
        producer: CommonProducerIndex<NI>,
        consumer: CommonConsumerIndex<NI>,
    )
        requires
            old(self).wf(),
            !occupied(old(self).edges(), producer, consumer),
        ensures
            final(self).wf(),
            final(self).entries() == old(self).entries(),
            final(self).next_index() == old(self).next_index(),
            final(self).edges() == old(self).edges().insert((producer, consumer)),
            final(self).links() == old(self).links() || final(self).links() == old(
                self,
            ).links().push((producer, consumer)),
    {
        match self.add_edge(producer, consumer) {
            Ok(()) => {},
            Err(_) => vstd::pervasive::unreached(),
        }
    }

    /// Removes the edge from `producer` to `consumer`. Does nothing if the
    /// graph has no such edge.
    pub fn remove_edge(
        &mut self,
        producer: CommonProducerIndex<NI>,
        consumer: CommonConsumerIndex<NI>,
    )
        requires
            old(self).wf(),
        ensures
            final(self).wf(),
            final(self).entries() == old(self).entries(),
            final(self).next_index() == old(self).next_index(),
            final(self).edges() == old(self).edges().remove((producer, consumer)),
    {
        let ghost before = *self;
        let mut j: usize = 0;
        while j < self.edges.len()
            invariant
                j <= self.edges.len(),
                before.wf(),
                before == *old(self),
                *self == before,
                forall|k: int| 0 <= k < j ==> #[trigger] self.edges@[k] != (producer, consumer),
            decreases self.edges.len() - j,
        {
            if self.edges[j].0.same(&producer) && self.edges[j].1.same(&consumer) {
                let _ = self.edges.remove(j);
                proof {
                    before.lemma_single_producer();
                    assert forall|a: int, b: int| 0 <= a < b < self.links().len() implies (
                    #[trigger] self.links()[a]).1 != (#[trigger] self.links()[b]).1 by {
                        let x = if a < j { a } else { a + 1 };
                        let y = if b < j { b } else { b + 1 };
                        assert(before.links()[x].1 != before.links()[y].1);
                    }
                    assert forall|edge: (CommonProducerIndex<NI>, CommonConsumerIndex<NI>)|
                        self.edges().contains(edge) <==> before.edges().remove(
                            (producer, consumer),
                        ).contains(edge) by {
                        if self.edges().contains(edge) {
                            let a = choose|a: int|
                                0 <= a < self.links().len() && self.links()[a] == edge;
                            let x = if a < j { a } else { a + 1 };
                            assert(before.links()[x] == edge);
                            assert(before.links()[x] != before.links()[j as int]);
                        }
                        if before.edges().contains(edge) && edge != (producer, consumer) {
                            let x = choose|x: int|
                                0 <= x < before.links().len() && before.links()[x] == edge;
                            let a = if x < j { x } else { x - 1 };
                            assert(self.links()[a] == edge);
                        }
                    }
                    assert(self.edges() =~= before.edges().remove((producer, consumer)));
                    assert forall|a: int, b: int| 0 <= a < b < self.entries().len() implies (
                    #[trigger] self.entries()[a]).0 != (#[trigger] self.entries()[b]).0 by {
                        assert(before.entries()[a].0 != before.entries()[b].0);
                    }
                }
                return ;
            }
            j += 1;
        }
        proof {
            assert(self.edges() =~= before.edges().remove((producer, consumer)));
        }
    }

    /// Whether the graph has the edge from `producer` to `consumer`.
    pub fn has_edge(
        &self,
        producer: CommonProducerIndex<NI>,
        consumer: CommonConsumerIndex<NI>,
    ) -> (found: bool)
        requires
            self.wf(),
        ensures
            found == self.edges().contains((producer, consumer)),
    {
        let mut j: usize = 0;
        while j < self.edges.len()
            invariant
                j <= self.edges.len(),
                forall|k: int| 0 <= k < j ==> #[trigger] self.edges@[k] != (producer, consumer),
            decreases self.edges.len() - j,
        {
            if self.edges[j].0.same(&producer) && self.edges[j].1.same(&consumer) {
                return true;
            }
            j += 1;
        }
        false
    }
}

} // verus!
