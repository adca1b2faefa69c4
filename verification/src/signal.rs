//! The signal graph: nodes wired through their ports and ticked in order.
//!
//! The graph stores its edges only as long as they form no cycle. An edge
//! that would close one is replaced by a feedback pair: the producer feeds a
//! feedback source, a feedback sink feeds the consumer, and the value takes
//! one tick to get from the one to the other. The order in which the nodes
//! are ticked is worked out anew after every change of the structure, never
//! during a tick.

use vstd::pervasive::unreached;
use vstd::prelude::*;

use crate::feedback::{
    new_feedback_pair, FeedbackSinkProducer, FeedbackSource, FeedbackSourceConsumer,
};
use crate::graph::{add_edge_outcome, occupied, touches, Graph};
use crate::internal::{
    InternalClass, InternalConsumer, InternalNode, InternalNodeIndex, InternalProducer,
};
use crate::node::{
    CommonConsumerIndex, CommonProducerIndex, Node, NodeClass, NodeIndex, NodeWrapper, Same,
};
use crate::signal_node::{
    registered, SignalConsumer, SignalNode, SignalNodeClass, SignalNodeIndex, SignalProducer,
};
use crate::sort::{is_ranking, is_topological_order, sortable, topological_sort, Cycle};
use crate::structure::{
    acyclic, alike, all_needed, changed_at, delayed_edges_of, direct_edge, direct_edges_of,
    first_half, key, lemma_direct_added, lemma_direct_removed, lemma_feedback_keeps_acyclic,
    lemma_internal_removed, lemma_kinds_apart, lemma_needed_among_more, lemma_node_added,
    lemma_node_changed, lemma_node_removed, lemma_occupied_alike, lemma_ports_offered,
    lemma_ranking_gives_ranks, lemma_ranks_give_ranking, lemma_registered_node_put,
    lemma_registered_removed, lemma_same_structure, lemma_schedule_in_range,
    lemma_schedule_shows_acyclic, lemma_still_needed, lemma_unwired, lemma_wired, needed,
    no_dangling, pairs, places, ranks, registered_nodes, run_spans, second_half, sink_producer,
    source_consumer, stored_consumer, stored_producer, structure_ok, FeedbackEdge,
    StoredConsumer, StoredProducer,
};

verus! {

/// A graph of signals between registered nodes.
///
/// Every producer may feed any number of consumers; every consumer takes
/// its input from one producer at most. Where the edges asked for form a
/// cycle, one of them hands its value over with a delay of one tick.
#[verifier::reject_recursive_types(N)]
pub struct SignalGraph<N, NI> where
    N: NodeWrapper<Class = NI::Class, Consumer = NI::Consumer, Producer = NI::Producer>,
    NI: NodeIndex,
 {
    graph: Graph<SignalNode<N>, SignalNodeIndex<NI>>,
    feedback_edges: Vec<FeedbackEdge<NI>>,
    sorted_nodes: Vec<usize>,
}

impl<N, NI> SignalGraph<N, NI> where
    N: NodeWrapper<Class = NI::Class, Consumer = NI::Consumer, Producer = NI::Producer>,
    NI: NodeIndex,
 {
    /// The graph in which the nodes and the edges are stored, feedback pairs
    /// and their wiring included.
    pub closed spec fn store(&self) -> Graph<SignalNode<N>, SignalNodeIndex<NI>> {
        self.graph
    }

    /// The edges that were replaced by feedback pairs.
    pub closed spec fn records(&self) -> Seq<FeedbackEdge<NI>> {
        self.feedback_edges@
    }

    /// The places of the stored nodes in the order in which they are ticked.
    pub closed spec fn schedule(&self) -> Seq<usize> {
        self.sorted_nodes@
    }

    /// The sequence number that the next node gets.
    pub open spec fn next_index(&self) -> usize {
        self.store().next_index()
    }

    /// The registered nodes, each under its index.
    pub open spec fn nodes(&self) -> Map<NI, N> {
        registered_nodes(self.store())
    }

    /// The edges that are stored as they were asked for.
    pub open spec fn direct_edges(&self) -> Set<(CommonProducerIndex<NI>, CommonConsumerIndex<NI>)> {
        direct_edges_of(self.store())
    }

    /// The edges that a feedback pair stands in for.
    pub open spec fn delayed_edges(&self) -> Set<
        (CommonProducerIndex<NI>, CommonConsumerIndex<NI>),
    > {
        delayed_edges_of(self.records())
    }

    /// The edges between registered nodes: those stored as asked for, and
    /// those that a feedback pair stands in for.
    pub open spec fn edges(&self) -> Set<(CommonProducerIndex<NI>, CommonConsumerIndex<NI>)> {
        self.direct_edges().union(self.delayed_edges())
    }

    /// Storing the edge from `producer` to `consumer` as it is asked for
    /// would close a cycle among the stored edges.
    pub open spec fn closes_cycle(
        &self,
        producer: CommonProducerIndex<NI>,
        consumer: CommonConsumerIndex<NI>,
    ) -> bool {
        !acyclic(
            self.store().edges().insert((stored_producer(producer), stored_consumer(consumer))),
        )
    }

    /// What adding the edge from `producer` to `consumer` makes of a graph.
    ///
    /// Nothing changes if the graph has the edge, or if the consumer takes
    /// its input from another producer. Otherwise the edge joins the edges
    /// that are stored as asked for, unless it would close a cycle: then it
    /// joins those that a feedback pair stands in for, and the pair uses up
    /// two sequence numbers.
    pub open spec fn edge_added(
        before: Self,
        after: Self,
        producer: CommonProducerIndex<NI>,
        consumer: CommonConsumerIndex<NI>,
    ) -> bool {
        let edge = (producer, consumer);
        if before.edges().contains(edge) || occupied(before.edges(), producer, consumer) {
            &&& after.direct_edges() == before.direct_edges()
            &&& after.delayed_edges() == before.delayed_edges()
            &&& after.next_index() == before.next_index()
        } else if before.closes_cycle(producer, consumer) {
            &&& after.direct_edges() == before.direct_edges()
            &&& after.delayed_edges() == before.delayed_edges().insert(edge)
            &&& after.next_index() == before.next_index() + 2
        } else {
            &&& after.direct_edges() == before.direct_edges().insert(edge)
            &&& after.delayed_edges() == before.delayed_edges()
            &&& after.next_index() == before.next_index()
        }
    }

    /// The graph is in order: what it stores holds together, and the order
    /// of ticking is a topological order of what it stores.
    pub closed spec fn wf(&self) -> bool {
        &&& structure_ok(self.graph, self.feedback_edges@)
        &&& all_needed(self.graph.edges(), self.feedback_edges@)
        &&& is_topological_order(
            self.sorted_nodes@,
            places(self.graph.entries().len()),
            pairs(self.graph),
        )
    }

    /// Law: in every graph that is in order, the stored edges can be
    /// sorted. Every function that changes a graph returns one that is in
    /// order, so no sort of the stored edges ever finds a cycle.
    pub proof fn lemma_stored_edges_sort(&self)
        requires
            self.wf(),
        ensures
            acyclic(self.store().edges()),
            sortable(places(self.store().entries().len()), pairs(self.store())),
            is_topological_order(
                self.schedule(),
                places(self.store().entries().len()),
                pairs(self.store()),
            ),
    {
        self.lemma_acyclic();
        let rank = choose|rank: spec_fn(SignalNodeIndex<NI>) -> nat| ranks(rank, self.graph.edges());
        lemma_ranks_give_ranking(self.graph, rank);
    }

    /// Law: in every graph that is in order, every feedback pair is needed.
    /// Were the edge that a pair stands in for stored as it was asked for,
    /// in the place of the wiring of the pair, the stored edges would hold
    /// a cycle. A pair that the removal of a node or of an edge has made
    /// needless is gone when the removal returns.
    pub proof fn lemma_feedback_pairs_are_needed(&self)
        requires
            self.wf(),
        ensures
            all_needed(self.store().edges(), self.records()),
    {
    }

    /// Law: adding an edge a second time changes nothing. Whatever the
    /// first call made of the graph, the second leaves the same edges, and
    /// leaves each of them stored as it was, so `has_edge` answers the same
    /// after both.
    pub proof fn lemma_add_edge_is_idempotent(
        first: Self,
        second: Self,
        third: Self,
        producer: CommonProducerIndex<NI>,
        consumer: CommonConsumerIndex<NI>,
    )
        requires
            Self::edge_added(first, second, producer, consumer),
            Self::edge_added(second, third, producer, consumer),
        ensures
            third.direct_edges() == second.direct_edges(),
            third.delayed_edges() == second.delayed_edges(),
            third.edges() == second.edges(),
            third.next_index() == second.next_index(),
    {
        let edge = (producer, consumer);
        if !first.edges().contains(edge) && occupied(first.edges(), producer, consumer) {
            assert(second.edges() == first.edges());
        } else {
            assert(second.edges().contains(edge));
        }
    }

    /// Law: no consumer takes its input from two producers, and no edge is
    /// both stored as asked for and replaced by a feedback pair.
    pub proof fn lemma_consumers_have_one_producer(&self)
        requires
            self.wf(),
        ensures
            crate::graph::single_producer(self.edges()),
            self.direct_edges().disjoint(self.delayed_edges()),
    {
        lemma_kinds_apart(self.graph, self.feedback_edges@);
    }

    /// In a graph that is in order, the stored edges hold no cycle.
    proof fn lemma_acyclic(&self)
        requires
            self.wf(),
        ensures
            acyclic(self.graph.edges()),
    {
        lemma_schedule_shows_acyclic(self.graph, self.sorted_nodes@);
    }

    /// A graph without nodes and edges.
    pub fn new() -> (graph: Self)
        ensures
            graph.wf(),
            graph.nodes() == Map::<NI, N>::empty(),
            graph.edges() == Set::<(CommonProducerIndex<NI>, CommonConsumerIndex<NI>)>::empty(),
            graph.next_index() == 0,
    {
        let graph = Self {
            graph: Graph::new(),
            feedback_edges: Vec::new(),
            sorted_nodes: Vec::new(),
        };
        proof {
            assert(graph.nodes() =~= Map::<NI, N>::empty());
            assert(graph.edges() =~= Set::<
                (CommonProducerIndex<NI>, CommonConsumerIndex<NI>),
            >::empty());
            assert(pairs(graph.graph) =~= Seq::<(usize, usize)>::empty());
            assert(places(0) =~= Seq::<usize>::empty());
        }
        graph
    }

    /// Registers a node and returns the index under which the graph keeps
    /// it.
    ///
    /// The index is made of the node's class and of the next sequence
    /// number, which is then used up. The edges stay as they are.
    pub fn add_node(&mut self, node: N) -> (node_index: NI)
        requires
            old(self).wf(),
            old(self).next_index() < usize::MAX,
        ensures
            final(self).wf(),
            exists|class: N::Class|
                call_ensures(N::class, (&node,), class) && call_ensures(
                    NI::new,
                    (class, old(self).next_index()),
                    node_index,
                ),
            final(self).nodes() == old(self).nodes().insert(node_index, node),
            final(self).direct_edges() == old(self).direct_edges(),
            final(self).delayed_edges() == old(self).delayed_edges(),
            final(self).next_index() == old(self).next_index() + 1,
    {
        let ghost before = self.graph;
        let ghost stored = SignalNode::<N>::Registered(node);
        let index = self.graph.add_node(SignalNode::Registered(node));
        proof {
            old(self).lemma_acyclic();
            lemma_node_added(before, self.graph, self.feedback_edges@, index, stored);
        }
        let node_index = *index.must_registered();
        proof {
            let stored_class = choose|class: SignalNodeClass<N::Class>|
                call_ensures(SignalNode::<N>::class, (&stored,), class) && call_ensures(
                    SignalNodeIndex::<NI>::new,
                    (class, before.next_index()),
                    index,
                );
            let class = stored_class->Registered_0;
            assert(call_ensures(N::class, (&node,), class));
            assert(call_ensures(NI::new, (class, before.next_index()), node_index));
        }
        self.update_cache();
        proof {
            lemma_registered_node_put(before, self.graph, node_index, node);
            assert(final(self).direct_edges() =~= old(self).direct_edges());
            assert(final(self).delayed_edges() =~= old(self).delayed_edges());
        }
        node_index
    }

    /// Removes the registered node under the given index, and with it
    /// every edge at one of its ports, be the edge stored as asked for or
    /// replaced by a feedback pair. Does nothing if the graph keeps no such
    /// node and no such edge.
    ///
    /// Afterwards every feedback pair that is no longer needed is taken
    /// out, as after the removal of an edge.
    pub fn remove_node(&mut self, node_index: NI)
        requires
            old(self).wf(),
        ensures
            final(self).wf(),
            final(self).nodes() == old(self).nodes().remove(node_index),
            forall|edge: (CommonProducerIndex<NI>, CommonConsumerIndex<NI>)| #[trigger]
                final(self).edges().contains(edge) <==> old(self).edges().contains(edge)
                    && edge.0.node_index != node_index && edge.1.node_index != node_index,
            final(self).delayed_edges().subset_of(old(self).delayed_edges()),
            final(self).next_index() == old(self).next_index(),
    {
        proof {
            old(self).lemma_acyclic();
        }
        let mut k: usize = 0;
        while k < self.feedback_edges.len()
            invariant
                k <= self.feedback_edges@.len(),
                structure_ok(self.graph, self.feedback_edges@),
                acyclic(self.graph.edges()),
                self.graph.next_index() == old(self).graph.next_index(),
                registered_nodes(self.graph) == registered_nodes(old(self).graph),
                direct_edges_of(self.graph) == direct_edges_of(old(self).graph),
                forall|m: int|
                    0 <= m < k ==> (#[trigger] self.feedback_edges@[m]).producer.node_index
                        != node_index && self.feedback_edges@[m].consumer.node_index != node_index,
                forall|edge: (CommonProducerIndex<NI>, CommonConsumerIndex<NI>)| #[trigger]
                    delayed_edges_of(self.feedback_edges@).contains(edge) ==> delayed_edges_of(
                        old(self).feedback_edges@,
                    ).contains(edge),
                forall|edge: (CommonProducerIndex<NI>, CommonConsumerIndex<NI>)| #[trigger]
                    delayed_edges_of(old(self).feedback_edges@).contains(edge)
                        && edge.0.node_index != node_index && edge.1.node_index != node_index
                        ==> delayed_edges_of(self.feedback_edges@).contains(edge),
            decreases self.feedback_edges@.len() - k,
        {
            let record = self.feedback_edges[k];
            let ghost records = self.feedback_edges@;
            if record.producer.node_index.same(&node_index) || record.consumer.node_index.same(
                &node_index,
            ) {
                self.remove_feedback_edge(k);
                proof {
                    assert forall|m: int| 0 <= m < k implies #[trigger] self.feedback_edges@[m]
                        == records[m] by {}
                }
            } else {
                k += 1;
            }
        }
        let ghost records = self.feedback_edges@;
        let ghost first = self.graph;
        let ghost rank = choose|rank: spec_fn(SignalNodeIndex<NI>) -> nat|
            ranks(rank, first.edges());
        self.graph.remove_node(SignalNodeIndex::Registered(node_index));
        proof {
            lemma_node_removed(first, self.graph, records, SignalNodeIndex::Registered(node_index));
            lemma_registered_removed(first, self.graph, node_index);
            assert(ranks(rank, self.graph.edges()));
        }
        let ghost cleared = direct_edges_of(self.graph).union(delayed_edges_of(records));
        self.drop_redundant_feedbacks();
        self.update_cache();
        proof {
            assert forall|edge: (CommonProducerIndex<NI>, CommonConsumerIndex<NI>)| #[trigger]
                final(self).edges().contains(edge) <==> old(self).edges().contains(edge)
                    && edge.0.node_index != node_index && edge.1.node_index != node_index by {
                assert(final(self).edges().contains(edge) <==> cleared.contains(edge));
                if delayed_edges_of(records).contains(edge) {
                    let m = choose|m: int| 0 <= m < records.len() && key(#[trigger] records[m]) == edge;
                    assert(records[m].producer.node_index != node_index);
                }
            }
        }
    }

    /// The registered node under the given index, if the graph keeps one.
    pub fn node(&self, node_index: &NI) -> (node: Option<&N>)
        requires
            self.wf(),
        ensures
            node is Some <==> self.nodes().contains_key(*node_index),
            node matches Some(found) ==> *found == self.nodes()[*node_index],
    {
        let index = SignalNodeIndex::Registered(*node_index);
        match self.graph.node(&index) {
            Some(node) => {
                proof {
                    let place = self.graph.position_of(index);
                    self.graph.lemma_entry(place);
                }
                Some(node.must_registered())
            },
            None => None,
        }
    }

    /// The registered node under the given index, to be changed, if the
    /// graph keeps one. Whatever the caller does to the node, it stays
    /// under its index, and the edges stay as they are.
    pub fn node_mut(&mut self, node_index: &NI) -> (node: Option<&mut N>)
        requires
            old(self).wf(),
        ensures
            node is Some <==> old(self).nodes().contains_key(*node_index),
            node matches Some(found) ==> *found == old(self).nodes()[*node_index]
                && final(self).nodes() == old(self).nodes().insert(*node_index, *final(found)),
            node is None ==> final(self).nodes() == old(self).nodes(),
            final(self).wf(),
            final(self).direct_edges() == old(self).direct_edges(),
            final(self).delayed_edges() == old(self).delayed_edges(),
            final(self).next_index() == old(self).next_index(),
    {
        let index = SignalNodeIndex::Registered(*node_index);
        let ghost before = self.graph;
        let ghost records = self.feedback_edges@;
        let ghost schedule = self.sorted_nodes@;
        let ghost place = before.position_of(index);
        proof {
            if before.contains_node(index) {
                before.lemma_entry(place);
                assert(before.nodes()[index] is Registered);
                assert forall|after: Graph<SignalNode<N>, SignalNodeIndex<NI>>, node: N|
                    #![trigger after.entries(), registered(node)]
                    after.entries() == before.entries().update(place, (index, registered(node)))
                        && after.links() == before.links() && after.next_index()
                        == before.next_index() implies structure_ok(after, records)
                    && is_topological_order(schedule, places(after.entries().len()), pairs(after))
                    && registered_nodes(after) == registered_nodes(before).insert(
                    *node_index,
                    node,
                ) && after.edges() == before.edges() && all_needed(after.edges(), records) by {
                    lemma_node_changed(before, after, records, place, registered(node));
                    lemma_registered_node_put(before, after, *node_index, node);
                }
            }
        }
        match self.graph.node_mut(&index) {
            Some(node) => Some(node.must_registered_mut()),
            None => None,
        }
    }

    /// Adds an edge from `producer` to `consumer`.
    ///
    /// Nothing changes if the graph has the edge already, or if the
    /// consumer takes its input from another producer. Otherwise the edge
    /// is stored as it is asked for, unless it would close a cycle: then a
    /// feedback pair takes its place, and the value that the producer hands
    /// over reaches the consumer one tick later.
    pub fn add_edge(&mut self, producer: CommonProducerIndex<NI>, consumer: CommonConsumerIndex<NI>)
        requires
            old(self).wf(),
            old(self).nodes().contains_key(producer.node_index),
            old(self).nodes().contains_key(consumer.node_index),
            old(self).next_index() <= usize::MAX - 2,
        ensures
            final(self).wf(),
            final(self).nodes() == old(self).nodes(),
            match add_edge_outcome(old(self).edges(), producer, consumer) {
                Ok(edges) => final(self).edges() == edges,
                Err(_) => final(self).edges() == old(self).edges(),
            },
            Self::edge_added(*old(self), *final(self), producer, consumer),
    {
        let ghost records = self.feedback_edges@;
        let ghost first = self.graph;
        proof {
            old(self).lemma_acyclic();
            lemma_kinds_apart(first, records);
        }
        if self.has_edge(producer, consumer) {
            proof {
                assert(old(self).edges().insert((producer, consumer)) =~= old(self).edges());
            }
            return ;
        }
        proof {
            lemma_occupied_alike(first, records, producer, consumer);
        }
        match self.graph.add_edge(lift_producer(producer), lift_consumer(consumer)) {
            Err(_) => {
                proof {
                    assert(self.graph.edges() == first.edges());
                    lemma_same_structure(first, self.graph, records);
                }
            },
            Ok(()) => {
                let ghost second = self.graph;
                proof {
                    lemma_direct_added(first, second, records, producer, consumer);
                    lemma_needed_among_more(first.edges(), second.edges(), records);
                }
                if self.has_cycles() {
                    self.graph.remove_edge(lift_producer(producer), lift_consumer(consumer));
                    proof {
                        assert(self.graph.edges() =~= first.edges());
                        lemma_same_structure(first, self.graph, records);
                        assert forall|other: StoredProducer<NI>|
                            !self.graph.edges().contains((other, stored_consumer(consumer))) by {
                            if first.edges().contains((other, stored_consumer(consumer))) {
                                assert(other != stored_producer(producer));
                            }
                        }
                    }
                    self.add_feedback_edge(producer, consumer);
                }
            },
        }
        self.update_cache();
        proof {
            let asked = old(self).edges();
            if occupied(asked, producer, consumer) {
                assert(final(self).edges() =~= asked);
            } else if old(self).closes_cycle(producer, consumer) {
                assert(final(self).edges() =~= asked.insert((producer, consumer)));
            } else {
                assert(final(self).edges() =~= asked.insert((producer, consumer)));
            }
        }
    }

    /// Puts a feedback pair in the place of the edge from `producer` to
    /// `consumer`, and keeps a record of it.
    fn add_feedback_edge(
        &mut self,
        producer: CommonProducerIndex<NI>,
        consumer: CommonConsumerIndex<NI>,
    )
        requires
            structure_ok(old(self).graph, old(self).feedback_edges@),
            acyclic(old(self).graph.edges()),
            old(self).graph.next_index() <= usize::MAX - 2,
            old(self).graph.contains_node(SignalNodeIndex::Registered(producer.node_index)),
            old(self).graph.contains_node(SignalNodeIndex::Registered(consumer.node_index)),
            !delayed_edges_of(old(self).feedback_edges@).contains((producer, consumer)),
            forall|other: StoredProducer<NI>|
                !old(self).graph.edges().contains((other, stored_consumer(consumer))),
            all_needed(old(self).graph.edges(), old(self).feedback_edges@),
            !acyclic(
                old(self).graph.edges().insert(
                    (stored_producer(producer), stored_consumer(consumer)),
                ),
            ),
        ensures
            structure_ok(final(self).graph, final(self).feedback_edges@),
            all_needed(final(self).graph.edges(), final(self).feedback_edges@),
            acyclic(final(self).graph.edges()),
            final(self).graph.next_index() == old(self).graph.next_index() + 2,
            direct_edges_of(final(self).graph) == direct_edges_of(old(self).graph),
            registered_nodes(final(self).graph) == registered_nodes(old(self).graph),
            delayed_edges_of(final(self).feedback_edges@) == delayed_edges_of(
                old(self).feedback_edges@,
            ).insert((producer, consumer)),
    {
        let ghost records = self.feedback_edges@;
        let ghost first = self.graph;
        let (source_node, sink_node) = new_feedback_pair::<N::Payload>();
        let source_node = SignalNode::Internal(InternalNode::FeedbackSource(source_node));
        let sink_node = SignalNode::Internal(InternalNode::FeedbackSink(sink_node));
        let ghost source_twin = source_node;
        let ghost sink_twin = sink_node;

        let source = self.graph.add_node(source_node);
        let ghost second = self.graph;
        let source = match source {
            SignalNodeIndex::Internal(index) => index,
            SignalNodeIndex::Registered(_) => unreached(),
        };
        proof {
            lemma_node_added(first, second, records, SignalNodeIndex::Internal(source), source_twin);
        }
        let sink = self.graph.add_node(sink_node);
        let ghost third = self.graph;
        let sink = match sink {
            SignalNodeIndex::Internal(index) => index,
            SignalNodeIndex::Registered(_) => unreached(),
        };
        let record = FeedbackEdge { producer, consumer, source, sink };
        proof {
            lemma_node_added(second, third, records, SignalNodeIndex::Internal(sink), sink_twin);
            assert(!first.contains_node(SignalNodeIndex::Internal(source)));
            assert(!first.contains_node(SignalNodeIndex::Internal(sink)));
            assert forall|edge: (StoredProducer<NI>, StoredConsumer<NI>)| #[trigger]
                first.edges().contains(edge) implies !touches(
                edge,
                SignalNodeIndex::Internal(source),
            ) && !touches(edge, SignalNodeIndex::Internal(sink)) by {}
            assert forall|k: int| 0 <= k < records.len() implies (#[trigger] records[k]).source
                != source && records[k].sink != sink && key(records[k]) != key(record) by {
                assert(first.contains_node(SignalNodeIndex::Internal(records[k].source)));
                assert(first.contains_node(SignalNodeIndex::Internal(records[k].sink)));
            }
            if occupied(third.edges(), stored_producer(producer), source_consumer::<NI>(source)) {
                let other = choose|other: StoredProducer<NI>|
                    other != stored_producer(producer) && #[trigger] third.edges().contains(
                        (other, source_consumer::<NI>(source)),
                    );
                assert(first.edges().contains((other, source_consumer::<NI>(source))));
            }
        }
        self.graph.must_add_edge(lift_producer(producer), source_consumer_of(source));
        proof {
            if occupied(self.graph.edges(), sink_producer::<NI>(sink), stored_consumer(consumer)) {
                let other = choose|other: StoredProducer<NI>|
                    other != sink_producer::<NI>(sink) && #[trigger] self.graph.edges().contains(
                        (other, stored_consumer(consumer)),
                    );
                assert(first.edges().contains((other, stored_consumer(consumer))));
            }
        }
        self.graph.must_add_edge(sink_producer_of(sink), lift_consumer(consumer));
        self.feedback_edges.push(record);
        proof {
            assert(third.edges() == first.edges());
            lemma_wired(third, self.graph, records, record);
            lemma_feedback_keeps_acyclic(first.edges(), record);
            let wired = self.graph.edges();
            let grown = records.push(record);
            lemma_needed_among_more(first.edges(), wired, records);
            assert(wired.remove(first_half(record)).remove(second_half(record)).insert(
                direct_edge(record),
            ) =~= first.edges().insert(direct_edge(record)));
            assert forall|k: int| 0 <= k < grown.len() implies needed(wired, #[trigger] grown[k]) by {
                if k < records.len() {
                    assert(grown[k] == records[k]);
                }
            }
        }
    }

    /// Removes the edge from `producer` to `consumer`, be it stored as
    /// asked for or replaced by a feedback pair. Does nothing if the graph
    /// has no such edge.
    ///
    /// Afterwards every feedback pair that is no longer needed is taken
    /// out: where the edge that a pair stands in for closes no cycle any
    /// more, the edge is stored as it was asked for.
    pub fn remove_edge(
        &mut self,
        producer: CommonProducerIndex<NI>,
        consumer: CommonConsumerIndex<NI>,
    )
        requires
            old(self).wf(),
        ensures
            final(self).wf(),
            final(self).nodes() == old(self).nodes(),
            final(self).edges() == old(self).edges().remove((producer, consumer)),
            final(self).delayed_edges().subset_of(
                old(self).delayed_edges().remove((producer, consumer)),
            ),
            final(self).next_index() == old(self).next_index(),
    {
        let ghost records = self.feedback_edges@;
        let ghost first = self.graph;
        let ghost rank = choose|rank: spec_fn(SignalNodeIndex<NI>) -> nat|
            ranks(rank, first.edges());
        proof {
            old(self).lemma_acyclic();
            lemma_kinds_apart(first, records);
        }
        if self.graph.has_edge(lift_producer(producer), lift_consumer(consumer)) {
            self.graph.remove_edge(lift_producer(producer), lift_consumer(consumer));
            proof {
                lemma_direct_removed(first, self.graph, records, producer, consumer);
                assert(ranks(rank, self.graph.edges()));
                assert(direct_edges_of(self.graph).union(delayed_edges_of(records)) =~= old(
                    self,
                ).edges().remove((producer, consumer)));
                assert(delayed_edges_of(records) =~= delayed_edges_of(records).remove(
                    (producer, consumer),
                ));
            }
        } else {
            match self.find_record(&producer, &consumer) {
                Some(k) => {
                    self.remove_feedback_edge(k);
                    proof {
                        assert(direct_edges_of(self.graph).union(
                            delayed_edges_of(self.feedback_edges@),
                        ) =~= old(self).edges().remove((producer, consumer)));
                    }
                },
                None => {
                    proof {
                        assert(old(self).edges().remove((producer, consumer)) =~= old(
                            self,
                        ).edges());
                        assert(delayed_edges_of(records) =~= delayed_edges_of(records).remove(
                            (producer, consumer),
                        ));
                    }
                },
            }
        }
        self.drop_redundant_feedbacks();
        self.update_cache();
    }

    /// Takes the feedback pair of the record at place `k` out of the graph,
    /// and the record with it.
    fn remove_feedback_edge(&mut self, k: usize)
        requires
            structure_ok(old(self).graph, old(self).feedback_edges@),
            acyclic(old(self).graph.edges()),
            k < old(self).feedback_edges@.len(),
        ensures
            structure_ok(final(self).graph, final(self).feedback_edges@),
            acyclic(final(self).graph.edges()),
            final(self).feedback_edges@ == old(self).feedback_edges@.remove(k as int),
            final(self).graph.next_index() == old(self).graph.next_index(),
            final(self).graph.edges().subset_of(old(self).graph.edges()),
            direct_edges_of(final(self).graph) == direct_edges_of(old(self).graph),
            registered_nodes(final(self).graph) == registered_nodes(old(self).graph),
            delayed_edges_of(final(self).feedback_edges@) == delayed_edges_of(
                old(self).feedback_edges@,
            ).remove(key(old(self).feedback_edges@[k as int])),
    {
        let ghost records = self.feedback_edges@;
        let ghost first = self.graph;
        let ghost rank = choose|rank: spec_fn(SignalNodeIndex<NI>) -> nat|
            ranks(rank, first.edges());
        let record = self.feedback_edges[k];
        self.graph.remove_edge(lift_producer(record.producer), source_consumer_of(record.source));
        self.graph.remove_edge(sink_producer_of(record.sink), lift_consumer(record.consumer));
        proof {
            lemma_unwired(first, self.graph, records, k as int);
            assert(ranks(rank, self.graph.edges()));
        }
        let _ = self.feedback_edges.remove(k);
        self.remove_pair(record.source, record.sink);
    }

    /// Removes both nodes of a feedback pair that is wired nowhere. All
    /// other nodes, and all edges, stay.
    fn remove_pair(&mut self, source: InternalNodeIndex, sink: InternalNodeIndex)
        requires
            structure_ok(old(self).graph, old(self).feedback_edges@),
            acyclic(old(self).graph.edges()),
            source.class == InternalClass::FeedbackSource,
            sink.class == InternalClass::FeedbackSink,
            forall|k: int|
                0 <= k < old(self).feedback_edges@.len() ==> (
                #[trigger] old(self).feedback_edges@[k]).source != source && old(
                    self,
                ).feedback_edges@[k].sink != sink,
            forall|edge: (StoredProducer<NI>, StoredConsumer<NI>)|
                old(self).graph.edges().contains(edge) ==> !touches(
                    edge,
                    SignalNodeIndex::Internal(source),
                ) && !touches(edge, SignalNodeIndex::Internal(sink)),
        ensures
            structure_ok(final(self).graph, final(self).feedback_edges@),
            acyclic(final(self).graph.edges()),
            final(self).graph.nodes() == old(self).graph.nodes().remove(
                SignalNodeIndex::Internal(source),
            ).remove(SignalNodeIndex::Internal(sink)),
            !final(self).graph.contains_node(SignalNodeIndex::Internal(source)),
            !final(self).graph.contains_node(SignalNodeIndex::Internal(sink)),
            final(self).graph.edges() == old(self).graph.edges(),
            final(self).feedback_edges == old(self).feedback_edges,
            final(self).graph.next_index() == old(self).graph.next_index(),
            direct_edges_of(final(self).graph) == direct_edges_of(old(self).graph),
            registered_nodes(final(self).graph) == registered_nodes(old(self).graph),
    {
        let ghost records = self.feedback_edges@;
        let ghost first = self.graph;
        let ghost rank = choose|rank: spec_fn(SignalNodeIndex<NI>) -> nat|
            ranks(rank, first.edges());
        proof {
            assert forall|k: int| 0 <= k < records.len() implies !touches(
                first_half(#[trigger] records[k]),
                SignalNodeIndex::<NI>::Internal(source),
            ) && !touches(second_half(records[k]), SignalNodeIndex::<NI>::Internal(source))
                && !touches(first_half(records[k]), SignalNodeIndex::<NI>::Internal(sink))
                && !touches(second_half(records[k]), SignalNodeIndex::<NI>::Internal(sink)) by {}
        }
        self.graph.remove_node(SignalNodeIndex::Internal(source));
        let ghost second = self.graph;
        proof {
            lemma_node_removed(first, second, records, SignalNodeIndex::Internal(source));
            lemma_internal_removed(first, second, source);
            assert(second.edges() =~= first.edges());
        }
        self.graph.remove_node(SignalNodeIndex::Internal(sink));
        proof {
            lemma_node_removed(second, self.graph, records, SignalNodeIndex::Internal(sink));
            lemma_internal_removed(second, self.graph, sink);
            assert(self.graph.edges() =~= first.edges());
            assert(ranks(rank, self.graph.edges()));
        }
    }

    /// Stores every edge that a feedback pair stands in for as it was asked
    /// for, wherever that closes no cycle, and takes the pair out of the
    /// graph. The edges between registered nodes stay the same.
    fn drop_redundant_feedbacks(&mut self)
        requires
            structure_ok(old(self).graph, old(self).feedback_edges@),
            acyclic(old(self).graph.edges()),
        ensures
            structure_ok(final(self).graph, final(self).feedback_edges@),
            all_needed(final(self).graph.edges(), final(self).feedback_edges@),
            acyclic(final(self).graph.edges()),
            final(self).graph.next_index() == old(self).graph.next_index(),
            registered_nodes(final(self).graph) == registered_nodes(old(self).graph),
            direct_edges_of(final(self).graph).union(delayed_edges_of(final(self).feedback_edges@))
                == direct_edges_of(old(self).graph).union(
                delayed_edges_of(old(self).feedback_edges@),
            ),
            delayed_edges_of(final(self).feedback_edges@).subset_of(
                delayed_edges_of(old(self).feedback_edges@),
            ),
    {
        let ghost asked = direct_edges_of(self.graph).union(delayed_edges_of(self.feedback_edges@));
        let mut k: usize = 0;
        while k < self.feedback_edges.len()
            invariant
                k <= self.feedback_edges@.len(),
                structure_ok(self.graph, self.feedback_edges@),
                forall|m: int|
                    0 <= m < k ==> needed(self.graph.edges(), #[trigger] self.feedback_edges@[m]),
                acyclic(self.graph.edges()),
                self.graph.next_index() == old(self).graph.next_index(),
                registered_nodes(self.graph) == registered_nodes(old(self).graph),
                direct_edges_of(self.graph).union(delayed_edges_of(self.feedback_edges@)) == asked,
                delayed_edges_of(self.feedback_edges@).subset_of(
                    delayed_edges_of(old(self).feedback_edges@),
                ),
            decreases self.feedback_edges@.len() - k,
        {
            let ghost records = self.feedback_edges@;
            let ghost first = self.graph;
            let ghost rank = choose|rank: spec_fn(SignalNodeIndex<NI>) -> nat|
                ranks(rank, first.edges());
            let record = self.feedback_edges[k];
            let ghost left = records.remove(k as int);
            proof {
                assert(first.contains_node(SignalNodeIndex::Registered(record.producer.node_index)))
                    by {
                    assert(first.edges().contains(first_half(records[k as int])));
                }
                assert(first.contains_node(SignalNodeIndex::Registered(record.consumer.node_index)))
                    by {
                    assert(first.edges().contains(second_half(records[k as int])));
                }
                assert(delayed_edges_of(records).contains(key(record))) by {
                    assert(key(records[k as int]) == key(record));
                }
            }
            self.graph.remove_edge(
                lift_producer(record.producer),
                source_consumer_of(record.source),
            );
            self.graph.remove_edge(sink_producer_of(record.sink), lift_consumer(record.consumer));
            let ghost second = self.graph;
            proof {
                lemma_unwired(first, second, records, k as int);
            }
            self.graph.must_add_edge(
                lift_producer(record.producer),
                lift_consumer(record.consumer),
            );
            let ghost third = self.graph;
            proof {
                lemma_direct_added(second, third, left, record.producer, record.consumer);
            }
            if self.has_cycles() {
                self.graph.remove_edge(
                    lift_producer(record.producer),
                    lift_consumer(record.consumer),
                );
                proof {
                    assert(self.graph.edges() =~= second.edges());
                    if occupied(
                        self.graph.edges(),
                        stored_producer(record.producer),
                        source_consumer::<NI>(record.source),
                    ) {
                        let other = choose|other: StoredProducer<NI>|
                            other != stored_producer(record.producer)
                                && #[trigger] self.graph.edges().contains(
                                (other, source_consumer::<NI>(record.source)),
                            );
                        assert(touches(
                            (other, source_consumer::<NI>(record.source)),
                            SignalNodeIndex::Internal(record.source),
                        ));
                    }
                }
                self.graph.must_add_edge(
                    lift_producer(record.producer),
                    source_consumer_of(record.source),
                );
                proof {
                    if occupied(
                        self.graph.edges(),
                        sink_producer::<NI>(record.sink),
                        stored_consumer(record.consumer),
                    ) {
                        let other = choose|other: StoredProducer<NI>|
                            other != sink_producer::<NI>(record.sink)
                                && #[trigger] self.graph.edges().contains(
                                (other, stored_consumer(record.consumer)),
                            );
                        assert(second.edges().contains((other, stored_consumer(record.consumer))));
                        if other != stored_producer(record.producer) {
                            assert(occupied(
                                second.edges(),
                                stored_producer(record.producer),
                                stored_consumer(record.consumer),
                            ));
                        }
                    }
                }
                self.graph.must_add_edge(
                    sink_producer_of(record.sink),
                    lift_consumer(record.consumer),
                );
                proof {
                    assert(self.graph.edges() =~= first.edges());
                    lemma_same_structure(first, self.graph, records);
                    assert(needed(first.edges(), records[k as int]));
                }
                k += 1;
            } else {
                let _ = self.feedback_edges.remove(k);
                proof {
                    assert(direct_edges_of(third).union(delayed_edges_of(left)) =~= asked);
                    assert(delayed_edges_of(left).subset_of(delayed_edges_of(records)));
                    assert forall|m: int| 0 <= m < k implies needed(
                        third.edges(),
                        #[trigger] left[m],
                    ) by {
                        assert(left[m] == records[m]);
                        lemma_still_needed(first, records, k as int, m);
                    }
                }
                self.remove_pair(record.source, record.sink);
            }
        }
    }

    /// Whether the graph has an edge from `producer` to `consumer`, be it
    /// stored as asked for or replaced by a feedback pair.
    pub fn has_edge(
        &self,
        producer: CommonProducerIndex<NI>,
        consumer: CommonConsumerIndex<NI>,
    ) -> (found: bool)
        requires
            self.wf(),
        ensures
            found == self.edges().contains((producer, consumer)),
    {
        let direct = self.graph.has_edge(lift_producer(producer), lift_consumer(consumer));
        direct || self.find_record(&producer, &consumer).is_some()
    }

    /// The place of the record of the edge from `producer` to `consumer`,
    /// if a feedback pair stands in for that edge.
    fn find_record(
        &self,
        producer: &CommonProducerIndex<NI>,
        consumer: &CommonConsumerIndex<NI>,
    ) -> (place: Option<usize>)
        ensures
            place matches Some(k) ==> k < self.feedback_edges@.len() && self.feedback_edges@[k as int].producer
                == *producer && self.feedback_edges@[k as int].consumer == *consumer,
            place is Some <==> self.delayed_edges().contains((*producer, *consumer)),
    {
        let mut k: usize = 0;
        while k < self.feedback_edges.len()
            invariant
                k <= self.feedback_edges.len(),
                forall|m: int|
                    0 <= m < k ==> !((#[trigger] self.feedback_edges@[m]).producer == *producer
                        && self.feedback_edges@[m].consumer == *consumer),
            decreases self.feedback_edges.len() - k,
        {
            if self.feedback_edges[k].producer.same(producer) && self.feedback_edges[k].consumer.same(
                consumer,
            ) {
                return Some(k);
            }
            k += 1;
        }
        None
    }

    /// How many edges a feedback pair stands in for.
    pub fn feedback_count(&self) -> (count: usize)
        ensures
            count == self.records().len(),
    {
        self.feedback_edges.len()
    }

    /// The sequence number that the next node gets. Every feedback pair
    /// uses up two.
    pub fn next_sequence_number(&self) -> (number: usize)
        ensures
            number == self.next_index(),
    {
        self.graph.next_sequence_number()
    }

    /// Ticks every node once, in topological order, and passes what each
    /// node then hands out along the edges that start at it.
    ///
    /// The nodes are taken in the cached order. Each is ticked; then, for
    /// every edge that starts at it, in the order in which the graph keeps
    /// the edges, the producer is read and the value is written to the
    /// consumer. A node is ticked after every node that feeds it directly,
    /// so it works on what they hand out in this tick. A feedback sink is
    /// ticked ahead of the consumer it feeds and hands out what its source
    /// took in during the tick before.
    ///
    /// The contract tells this by the states that the stored nodes go
    /// through. `run` holds one row for each node in the order: the state
    /// before its tick, the state after it, and the state after each edge
    /// of the graph. In a tick, the one node becomes what its own `tick`
    /// makes of it. At an edge that starts at the node, some `value` is
    /// what the node hands out at the producer, and the node at the other
    /// end becomes what its own `write` makes of it for the consumer and
    /// that value; at any other edge nothing changes. The structure of the
    /// graph stays as it is: the same nodes under the same indices, and
    /// the same edges.
    pub fn tick(&mut self)
        requires
            old(self).wf(),
        ensures
            final(self).wf(),
            final(self).nodes().dom() == old(self).nodes().dom(),
            final(self).direct_edges() == old(self).direct_edges(),
            final(self).delayed_edges() == old(self).delayed_edges(),
            final(self).next_index() == old(self).next_index(),
            final(self).schedule() == old(self).schedule(),
            exists|run: Seq<Seq<Seq<(SignalNodeIndex<NI>, SignalNode<N>)>>>|
                {
                    &&& run.len() == old(self).schedule().len()
                    &&& run_spans(
                        run,
                        old(self).store().entries(),
                        final(self).store().entries(),
                        old(self).store().links().len() as int,
                    )
                    &&& forall|i: int|
                        0 <= i < run.len() ==> {
                            let row = #[trigger] run[i];
                            let place = old(self).schedule()[i] as int;
                            let links = old(self).store().links();
                            &&& changed_at(row[0], row[1], place)
                            &&& row[0][place].1 is Internal ==> row[1][place].1 == row[0][place].1
                            &&& row[0][place].1 is Registered ==> row[1][place].1 is Registered && exists|call: &mut N|
                                mut_ref_current(call) == row[0][place].1->Registered_0 && mut_ref_future(call)
                                    == row[1][place].1->Registered_0 && #[trigger] call_ensures(N::tick, (call,), ())
                            &&& forall|j: int|
                                0 <= j < links.len() ==> {
                                    let link = #[trigger] links[j];
                                    let earlier = row[j + 1];
                                    let later = row[j + 2];
                                    if link.0.node_index == earlier[place].0 {
                                        exists|value: N::Payload, to: int|
                                            #![trigger changed_at(earlier, later, to), earlier[place].1.hands_out(link.0.producer, value)]
                                            {
                                                &&& changed_at(earlier, later, to)
                                                &&& earlier[to].0 == link.1.node_index
                                                &&& earlier[place].1.hands_out(link.0.producer, value)
                                                &&& earlier[to].1 is Registered ==> later[to].1 is Registered && exists|call: &mut N|
                                                    mut_ref_current(call) == earlier[to].1->Registered_0 && mut_ref_future(call)
                                                        == later[to].1->Registered_0 && #[trigger] call_ensures(
                                                        N::write,
                                                        (call, link.1.consumer->Registered_0, value),
                                                        (),
                                                    )
                                                &&& earlier[to].1 is Internal ==> later[to].1 == earlier[to].1 && exists|call: &mut FeedbackSource<N::Payload>|
                                                    mut_ref_current(call) == earlier[to].1->Internal_0->FeedbackSource_0 && mut_ref_future(call)
                                                        == later[to].1->Internal_0->FeedbackSource_0 && #[trigger] call_ensures(
                                                        FeedbackSource::<N::Payload>::write,
                                                        (call, link.1.consumer->Internal_0->FeedbackSource_0, value),
                                                        (),
                                                    )
                                            }
                                    } else {
                                        later == earlier
                                    }
                                }
                        }
                },
    {
        let ghost records = self.feedback_edges@;
        let ghost schedule = self.sorted_nodes@;
        let ghost first = self.graph;
        let ghost links = first.links();
        let ghost mut run: Seq<Seq<Seq<(SignalNodeIndex<NI>, SignalNode<N>)>>> = Seq::empty();
        proof {
            lemma_schedule_in_range(first, schedule);
        }
        let mut i: usize = 0;
        while i < self.sorted_nodes.len()
            invariant
                i <= self.sorted_nodes@.len(),
                self.sorted_nodes@ == schedule,
                self.feedback_edges@ == records,
                links == first.links(),
                structure_ok(self.graph, records),
                alike(first, self.graph),
                forall|place: int| 0 <= place < schedule.len() ==> #[trigger] schedule[place]
                    < first.entries().len(),
                run.len() == i,
                run_spans(run, first.entries(), self.graph.entries(), links.len() as int),
                forall|a: int|
                    0 <= a < run.len() ==> {
                        let row = #[trigger] run[a];
                        let place = schedule[a] as int;
                        &&& changed_at(row[0], row[1], place)
                        &&& row[0][place].1 is Internal ==> row[1][place].1 == row[0][place].1
                        &&& row[0][place].1 is Registered ==> row[1][place].1 is Registered && exists|call: &mut N|
                            mut_ref_current(call) == row[0][place].1->Registered_0 && mut_ref_future(call)
                                == row[1][place].1->Registered_0 && #[trigger] call_ensures(N::tick, (call,), ())
                        &&& forall|j: int|
                            0 <= j < links.len() ==> {
                                let link = #[trigger] links[j];
                                let earlier = row[j + 1];
                                let later = row[j + 2];
                                if link.0.node_index == earlier[place].0 {
                                    exists|value: N::Payload, to: int|
                                        #![trigger changed_at(earlier, later, to), earlier[place].1.hands_out(link.0.producer, value)]
                                        {
                                            &&& changed_at(earlier, later, to)
                                            &&& earlier[to].0 == link.1.node_index
                                            &&& earlier[place].1.hands_out(link.0.producer, value)
                                            &&& earlier[to].1 is Registered ==> later[to].1 is Registered && exists|call: &mut N|
                                                mut_ref_current(call) == earlier[to].1->Registered_0 && mut_ref_future(call)
                                                    == later[to].1->Registered_0 && #[trigger] call_ensures(
                                                    N::write,
                                                    (call, link.1.consumer->Registered_0, value),
                                                    (),
                                                )
                                            &&& earlier[to].1 is Internal ==> later[to].1 == earlier[to].1 && exists|call: &mut FeedbackSource<N::Payload>|
                                                mut_ref_current(call) == earlier[to].1->Internal_0->FeedbackSource_0 && mut_ref_future(call)
                                                    == later[to].1->Internal_0->FeedbackSource_0 && #[trigger] call_ensures(
                                                    FeedbackSource::<N::Payload>::write,
                                                    (call, link.1.consumer->Internal_0->FeedbackSource_0, value),
                                                    (),
                                                )
                                        }
                                } else {
                                    later == earlier
                                }
                            }
                    },
            decreases self.sorted_nodes@.len() - i,
        {
            let place = self.sorted_nodes[i];
            let ghost run_before = run;
            let row = self.tick_node(place);
            proof {
                run = run.push(row@);
                assert(run[i as int] == row@);
                assert forall|a: int| 0 <= a < i implies #[trigger] run[a] == run_before[a] by {}
            }
            i += 1;
        }
        proof {
            assert(final(self).nodes().dom() =~= old(self).nodes().dom());
            assert(final(self).direct_edges() =~= old(self).direct_edges());
        }
    }

    /// Ticks the node at the given place, and passes what it then hands
    /// out along every edge that starts at it. Returns the states that the
    /// stored nodes went through: before the tick, after it, and after each
    /// edge in the order in which the graph keeps them.
    fn tick_node(&mut self, place: usize) -> (row: Ghost<Seq<Seq<(SignalNodeIndex<NI>, SignalNode<N>)>>>)
        requires
            structure_ok(old(self).graph, old(self).feedback_edges@),
            place < old(self).graph.entries().len(),
        ensures
            structure_ok(final(self).graph, final(self).feedback_edges@),
            final(self).feedback_edges@ == old(self).feedback_edges@,
            final(self).sorted_nodes@ == old(self).sorted_nodes@,
            alike(old(self).graph, final(self).graph),
            row@.len() == old(self).graph.links().len() + 2,
            row@[0] == old(self).graph.entries(),
            row@[row@.len() - 1] == final(self).graph.entries(),
            ({
                &&& changed_at(row@[0], row@[1], (place as int))
                &&& row@[0][(place as int)].1 is Internal ==> row@[1][(place as int)].1 == row@[0][(place as int)].1
                &&& row@[0][(place as int)].1 is Registered ==> row@[1][(place as int)].1 is Registered && exists|call: &mut N|
                    mut_ref_current(call) == row@[0][(place as int)].1->Registered_0 && mut_ref_future(call)
                        == row@[1][(place as int)].1->Registered_0 && #[trigger] call_ensures(N::tick, (call,), ())
                &&& forall|j: int|
                    0 <= j < old(self).graph.links().len() ==> {
                        let link = #[trigger] old(self).graph.links()[j];
                        let earlier = row@[j + 1];
                        let later = row@[j + 2];
                        if link.0.node_index == earlier[(place as int)].0 {
                            exists|value: N::Payload, to: int|
                                #![trigger changed_at(earlier, later, to), earlier[(place as int)].1.hands_out(link.0.producer, value)]
                                {
                                    &&& changed_at(earlier, later, to)
                                    &&& earlier[to].0 == link.1.node_index
                                    &&& earlier[(place as int)].1.hands_out(link.0.producer, value)
                                    &&& earlier[to].1 is Registered ==> later[to].1 is Registered && exists|call: &mut N|
                                        mut_ref_current(call) == earlier[to].1->Registered_0 && mut_ref_future(call)
                                            == later[to].1->Registered_0 && #[trigger] call_ensures(
                                            N::write,
                                            (call, link.1.consumer->Registered_0, value),
                                            (),
                                        )
                                    &&& earlier[to].1 is Internal ==> later[to].1 == earlier[to].1 && exists|call: &mut FeedbackSource<N::Payload>|
                                        mut_ref_current(call) == earlier[to].1->Internal_0->FeedbackSource_0 && mut_ref_future(call)
                                            == later[to].1->Internal_0->FeedbackSource_0 && #[trigger] call_ensures(
                                            FeedbackSource::<N::Payload>::write,
                                            (call, link.1.consumer->Internal_0->FeedbackSource_0, value),
                                            (),
                                        )
                                }
                        } else {
                            later == earlier
                        }
                    }
            }),
    {
        let ghost records = self.feedback_edges@;
        let ghost first = self.graph;
        let ghost links = first.links();
        let ghost start = first.entries();
        self.graph.node_at_mut(place).tick();
        let ghost ticked = self.graph.entries();
        let ghost mut states: Seq<Seq<(SignalNodeIndex<NI>, SignalNode<N>)>> = seq![start, ticked];
        proof {
            lemma_node_changed(
                first,
                self.graph,
                records,
                place as int,
                self.graph.entries()[place as int].1,
            );
            assert(changed_at(start, ticked, place as int));
        }
        let node_index = self.graph.index_at(place);
        let mut j: usize = 0;
        while j < self.graph.edge_count()
            invariant
                j <= links.len(),
                links == first.links(),
                start == first.entries(),
                self.sorted_nodes@ == old(self).sorted_nodes@,
                self.feedback_edges@ == records,
                place < self.graph.entries().len(),
                node_index == self.graph.entries()[place as int].0,
                structure_ok(self.graph, records),
                alike(first, self.graph),
                states.len() == j + 2,
                states[0] == start,
                states[j + 1] == self.graph.entries(),
                ({
                    &&& changed_at(states[0], states[1], (place as int))
                    &&& states[0][(place as int)].1 is Internal ==> states[1][(place as int)].1 == states[0][(place as int)].1
                    &&& states[0][(place as int)].1 is Registered ==> states[1][(place as int)].1 is Registered && exists|call: &mut N|
                        mut_ref_current(call) == states[0][(place as int)].1->Registered_0 && mut_ref_future(call)
                            == states[1][(place as int)].1->Registered_0 && #[trigger] call_ensures(N::tick, (call,), ())
                }),
                forall|b: int|
                    0 <= b < j ==> {
                        let link = #[trigger] links[b];
                        let earlier = states[b + 1];
                        let later = states[b + 2];
                        if link.0.node_index == earlier[(place as int)].0 {
                            exists|value: N::Payload, to: int|
                                #![trigger changed_at(earlier, later, to), earlier[(place as int)].1.hands_out(link.0.producer, value)]
                                {
                                    &&& changed_at(earlier, later, to)
                                    &&& earlier[to].0 == link.1.node_index
                                    &&& earlier[(place as int)].1.hands_out(link.0.producer, value)
                                    &&& earlier[to].1 is Registered ==> later[to].1 is Registered && exists|call: &mut N|
                                        mut_ref_current(call) == earlier[to].1->Registered_0 && mut_ref_future(call)
                                            == later[to].1->Registered_0 && #[trigger] call_ensures(
                                            N::write,
                                            (call, link.1.consumer->Registered_0, value),
                                            (),
                                        )
                                    &&& earlier[to].1 is Internal ==> later[to].1 == earlier[to].1 && exists|call: &mut FeedbackSource<N::Payload>|
                                        mut_ref_current(call) == earlier[to].1->Internal_0->FeedbackSource_0 && mut_ref_future(call)
                                            == later[to].1->Internal_0->FeedbackSource_0 && #[trigger] call_ensures(
                                            FeedbackSource::<N::Payload>::write,
                                            (call, link.1.consumer->Internal_0->FeedbackSource_0, value),
                                            (),
                                        )
                                }
                        } else {
                            later == earlier
                        }
                    },
            decreases links.len() - j,
        {
            let ghost states_before = states;
            let ghost entries_before = self.graph.entries();
            let (source_index, destination_index) = self.graph.edge_at(j);
            if source_index.node_index.same(&node_index) {
                proof {
                    assert(self.graph.edges().contains((source_index, destination_index)));
                    lemma_ports_offered(node_index, self.graph.entries()[place as int].1);
                }
                let output = self.graph.node_at(place).read(source_index.producer);
                let destination = match self.graph.position(&destination_index.node_index) {
                    Some(destination) => destination,
                    None => unreached(),
                };
                proof {
                    lemma_ports_offered(
                        destination_index.node_index,
                        self.graph.entries()[destination as int].1,
                    );
                }
                let ghost before = self.graph;
                self.graph.node_at_mut(destination).write(destination_index.consumer, output);
                proof {
                    lemma_node_changed(
                        before,
                        self.graph,
                        records,
                        destination as int,
                        self.graph.entries()[destination as int].1,
                    );
                    states = states.push(self.graph.entries());
                    assert(changed_at(entries_before, self.graph.entries(), destination as int));
                    assert(states[j + 1] == entries_before);
                    assert(states[j + 2] == self.graph.entries());
                    assert(entries_before[place as int].1.hands_out(source_index.producer, output));
                    assert(links[j as int] == (source_index, destination_index));
                }
            } else {
                proof {
                    states = states.push(self.graph.entries());
                    assert(states[j + 1] == entries_before);
                    assert(states[j + 2] == entries_before);
                    assert(links[j as int] == (source_index, destination_index));
                }
            }
            proof {
                assert(states[0] == states_before[0] && states[1] == states_before[1]);
                assert forall|b: int| 0 <= b < j implies {
                    let link = #[trigger] links[b];
                    let earlier = states[b + 1];
                    let later = states[b + 2];
                    if link.0.node_index == earlier[(place as int)].0 {
                        exists|value: N::Payload, to: int|
                            #![trigger changed_at(earlier, later, to), earlier[(place as int)].1.hands_out(link.0.producer, value)]
                            {
                                &&& changed_at(earlier, later, to)
                                &&& earlier[to].0 == link.1.node_index
                                &&& earlier[(place as int)].1.hands_out(link.0.producer, value)
                                &&& earlier[to].1 is Registered ==> later[to].1 is Registered && exists|call: &mut N|
                                    mut_ref_current(call) == earlier[to].1->Registered_0 && mut_ref_future(call)
                                        == later[to].1->Registered_0 && #[trigger] call_ensures(
                                        N::write,
                                        (call, link.1.consumer->Registered_0, value),
                                        (),
                                    )
                                &&& earlier[to].1 is Internal ==> later[to].1 == earlier[to].1 && exists|call: &mut FeedbackSource<N::Payload>|
                                    mut_ref_current(call) == earlier[to].1->Internal_0->FeedbackSource_0 && mut_ref_future(call)
                                        == later[to].1->Internal_0->FeedbackSource_0 && #[trigger] call_ensures(
                                        FeedbackSource::<N::Payload>::write,
                                        (call, link.1.consumer->Internal_0->FeedbackSource_0, value),
                                        (),
                                    )
                            }
                    } else {
                        later == earlier
                    }
                } by {
                    assert(states[b + 1] == states_before[b + 1]);
                    assert(states[b + 2] == states_before[b + 2]);
                    assert({
                        let link = links[b];
                        let earlier = states_before[b + 1];
                        let later = states_before[b + 2];
                        if link.0.node_index == earlier[(place as int)].0 {
                            exists|value: N::Payload, to: int|
                                #![trigger changed_at(earlier, later, to), earlier[(place as int)].1.hands_out(link.0.producer, value)]
                                {
                                    &&& changed_at(earlier, later, to)
                                    &&& earlier[to].0 == link.1.node_index
                                    &&& earlier[(place as int)].1.hands_out(link.0.producer, value)
                                    &&& earlier[to].1 is Registered ==> later[to].1 is Registered && exists|call: &mut N|
                                        mut_ref_current(call) == earlier[to].1->Registered_0 && mut_ref_future(call)
                                            == later[to].1->Registered_0 && #[trigger] call_ensures(
                                            N::write,
                                            (call, link.1.consumer->Registered_0, value),
                                            (),
                                        )
                                    &&& earlier[to].1 is Internal ==> later[to].1 == earlier[to].1 && exists|call: &mut FeedbackSource<N::Payload>|
                                        mut_ref_current(call) == earlier[to].1->Internal_0->FeedbackSource_0 && mut_ref_future(call)
                                            == later[to].1->Internal_0->FeedbackSource_0 && #[trigger] call_ensures(
                                            FeedbackSource::<N::Payload>::write,
                                            (call, link.1.consumer->Internal_0->FeedbackSource_0, value),
                                            (),
                                        )
                                }
                        } else {
                            later == earlier
                        }
                    });
                }
            }
            j += 1;
        }
        Ghost(states)
    }

    /// Works out the order of ticking anew.
    fn update_cache(&mut self)
        requires
            structure_ok(old(self).graph, old(self).feedback_edges@),
            all_needed(old(self).graph.edges(), old(self).feedback_edges@),
            acyclic(old(self).graph.edges()),
        ensures
            final(self).wf(),
            final(self).graph == old(self).graph,
            final(self).feedback_edges == old(self).feedback_edges,
    {
        match self.topologically_sorted_nodes() {
            Ok(order) => {
                self.sorted_nodes = order;
            },
            Err(_) => unreached(),
        }
    }

    /// The places of the stored nodes in topological order, or `Cycle` if
    /// the stored edges hold a cycle.
    fn topologically_sorted_nodes(&self) -> (result: Result<Vec<usize>, Cycle>)
        requires
            self.graph.wf(),
            no_dangling(self.graph),
        ensures
            result is Ok <==> acyclic(self.graph.edges()),
            result matches Ok(order) ==> is_topological_order(
                order@,
                places(self.graph.entries().len()),
                pairs(self.graph),
            ),
    {
        let count = self.graph.node_count();
        let mut nodes: Vec<usize> = Vec::new();
        let mut i: usize = 0;
        while i < count
            invariant
                i <= count,
                nodes@ == places(i as nat),
            decreases count - i,
        {
            nodes.push(i);
            proof {
                assert(nodes@ =~= places((i + 1) as nat));
            }
            i += 1;
        }
        let mut edges: Vec<(usize, usize)> = Vec::new();
        let mut j: usize = 0;
        while j < self.graph.edge_count()
            invariant
                j <= self.graph.links().len(),
                self.graph.wf(),
                no_dangling(self.graph),
                edges@.len() == j,
                forall|k: int| 0 <= k < j ==> #[trigger] edges@[k] == pairs(self.graph)[k],
            decreases self.graph.links().len() - j,
        {
            let edge = self.graph.edge_at(j);
            proof {
                assert(self.graph.edges().contains(edge));
            }
            let from = match self.graph.position(&edge.0.node_index) {
                Some(place) => place,
                None => unreached(),
            };
            let to = match self.graph.position(&edge.1.node_index) {
                Some(place) => place,
                None => unreached(),
            };
            edges.push((from, to));
            j += 1;
        }
        proof {
            assert(edges@ =~= pairs(self.graph));
            if acyclic(self.graph.edges()) {
                let rank = choose|rank: spec_fn(SignalNodeIndex<NI>) -> nat|
                    ranks(rank, self.graph.edges());
                lemma_ranks_give_ranking(self.graph, rank);
            }
            if sortable(nodes@, edges@) {
                let by_place = choose|by_place: spec_fn(usize) -> nat| is_ranking(by_place, edges@);
                lemma_ranking_gives_ranks(self.graph, by_place);
            }
        }
        topological_sort(nodes, edges)
    }

    /// Whether the stored edges hold a cycle.
    fn has_cycles(&self) -> (found: bool)
        requires
            self.graph.wf(),
            no_dangling(self.graph),
        ensures
            found == !acyclic(self.graph.edges()),
    {
        self.topologically_sorted_nodes().is_err()
    }
}

/// The stored address of the consumer of a feedback source.
fn source_consumer_of<NI: NodeIndex>(source: InternalNodeIndex) -> (stored: StoredConsumer<NI>)
    requires
        source.class == InternalClass::FeedbackSource,
    ensures
        stored == source_consumer::<NI>(source),
{
    SignalNodeIndex::<NI>::Internal(source).consumer(
        SignalConsumer::Internal(InternalConsumer::FeedbackSource(FeedbackSourceConsumer)),
    )
}

/// The stored address of the producer of a feedback sink.
fn sink_producer_of<NI: NodeIndex>(sink: InternalNodeIndex) -> (stored: StoredProducer<NI>)
    requires
        sink.class == InternalClass::FeedbackSink,
    ensures
        stored == sink_producer::<NI>(sink),
{
    SignalNodeIndex::<NI>::Internal(sink).producer(
        SignalProducer::Internal(InternalProducer::FeedbackSink(FeedbackSinkProducer)),
    )
}

/// The stored address of a registered producer.
pub fn lift_producer<NI: NodeIndex>(producer: CommonProducerIndex<NI>) -> (stored: StoredProducer<
    NI,
>)
    ensures
        stored == stored_producer(producer),
{
    CommonProducerIndex {
        node_index: SignalNodeIndex::Registered(producer.node_index),
        producer: SignalProducer::Registered(producer.producer),
    }
}

/// The stored address of a registered consumer.
pub fn lift_consumer<NI: NodeIndex>(consumer: CommonConsumerIndex<NI>) -> (stored: StoredConsumer<
    NI,
>)
    ensures
        stored == stored_consumer(consumer),
{
    CommonConsumerIndex {
        node_index: SignalNodeIndex::Registered(consumer.node_index),
        consumer: SignalConsumer::Registered(consumer.consumer),
    }
}

} // verus!
