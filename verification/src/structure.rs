//! What a signal graph keeps in order while it stores its nodes and edges,
//! and why each change of the structure leaves it in order.
//!
//! The signal graph stores registered and internal nodes in one graph. For
//! every edge that was replaced by a feedback pair it keeps a record, and
//! the pair is wired into the stored graph in place of the edge.

use vstd::prelude::*;

use crate::feedback::{FeedbackSinkProducer, FeedbackSourceConsumer};
use crate::graph::{occupied, single_producer, touches, Graph};
use crate::internal::{InternalClass, InternalConsumer, InternalNodeIndex, InternalProducer};
use crate::node::{CommonConsumerIndex, CommonProducerIndex, NodeIndex, NodeWrapper};
use crate::signal_node::{
    registered, SignalConsumer, SignalNode, SignalNodeIndex, SignalProducer,
};
use crate::sort::{
    is_ranking, is_topological_order, lemma_order_shows_sortable, place_in, sortable,
};

verus! {

/// The address of a producer as the signal graph stores it.
pub type StoredProducer<NI> = CommonProducerIndex<SignalNodeIndex<NI>>;

/// The address of a consumer as the signal graph stores it.
pub type StoredConsumer<NI> = CommonConsumerIndex<SignalNodeIndex<NI>>;

/// An edge that was replaced by a feedback pair: the edge as it was asked
/// for, and the two nodes that stand in for it.
#[derive(Clone, Copy)]
pub struct FeedbackEdge<NI> where NI: NodeIndex {
    pub producer: CommonProducerIndex<NI>,
    pub consumer: CommonConsumerIndex<NI>,
    pub source: InternalNodeIndex,
    pub sink: InternalNodeIndex,
}

/// The stored address of a registered producer.
pub open spec fn stored_producer<NI: NodeIndex>(producer: CommonProducerIndex<NI>) -> StoredProducer<
    NI,
> {
    CommonProducerIndex {
        node_index: SignalNodeIndex::Registered(producer.node_index),
        producer: SignalProducer::Registered(producer.producer),
    }
}

/// The stored address of a registered consumer.
pub open spec fn stored_consumer<NI: NodeIndex>(consumer: CommonConsumerIndex<NI>) -> StoredConsumer<
    NI,
> {
    CommonConsumerIndex {
        node_index: SignalNodeIndex::Registered(consumer.node_index),
        consumer: SignalConsumer::Registered(consumer.consumer),
    }
}

/// The stored address of the consumer of a feedback source.
pub open spec fn source_consumer<NI: NodeIndex>(source: InternalNodeIndex) -> StoredConsumer<NI> {
    CommonConsumerIndex {
        node_index: SignalNodeIndex::Internal(source),
        consumer: SignalConsumer::Internal(InternalConsumer::FeedbackSource(FeedbackSourceConsumer)),
    }
}

/// The stored address of the producer of a feedback sink.
pub open spec fn sink_producer<NI: NodeIndex>(sink: InternalNodeIndex) -> StoredProducer<NI> {
    CommonProducerIndex {
        node_index: SignalNodeIndex::Internal(sink),
        producer: SignalProducer::Internal(InternalProducer::FeedbackSink(FeedbackSinkProducer)),
    }
}

/// The first half of the wiring of a record: from the producer that was
/// asked for to the feedback source.
pub open spec fn first_half<NI: NodeIndex>(record: FeedbackEdge<NI>) -> (
    StoredProducer<NI>,
    StoredConsumer<NI>,
) {
    (stored_producer(record.producer), source_consumer::<NI>(record.source))
}

/// The second half of the wiring of a record: from the feedback sink to the
/// consumer that was asked for.
pub open spec fn second_half<NI: NodeIndex>(record: FeedbackEdge<NI>) -> (
    StoredProducer<NI>,
    StoredConsumer<NI>,
) {
    (sink_producer::<NI>(record.sink), stored_consumer(record.consumer))
}

/// The edge that a record stands for, as it would be stored.
pub open spec fn direct_edge<NI: NodeIndex>(record: FeedbackEdge<NI>) -> (
    StoredProducer<NI>,
    StoredConsumer<NI>,
) {
    (stored_producer(record.producer), stored_consumer(record.consumer))
}

/// The edge that a record stands for, as it was asked for.
pub open spec fn key<NI: NodeIndex>(record: FeedbackEdge<NI>) -> (
    CommonProducerIndex<NI>,
    CommonConsumerIndex<NI>,
) {
    (record.producer, record.consumer)
}

/// `rank` grows along every edge of the set, from the node of the producer
/// to the node of the consumer.
pub open spec fn ranks<NI: NodeIndex>(
    rank: spec_fn(SignalNodeIndex<NI>) -> nat,
    edges: Set<(StoredProducer<NI>, StoredConsumer<NI>)>,
) -> bool {
    forall|edge: (StoredProducer<NI>, StoredConsumer<NI>)| #[trigger]
        edges.contains(edge) ==> rank(edge.0.node_index) < rank(edge.1.node_index)
}

/// The edges hold no cycle: the nodes can be ranked so that every edge
/// leads upwards.
pub open spec fn acyclic<NI: NodeIndex>(
    edges: Set<(StoredProducer<NI>, StoredConsumer<NI>)>,
) -> bool {
    exists|rank: spec_fn(SignalNodeIndex<NI>) -> nat| ranks(rank, edges)
}

/// The places `0`, `1`, and so on below `count`.
pub open spec fn places(count: nat) -> Seq<usize> {
    Seq::new(count, |i: int| i as usize)
}

/// Every edge ends at nodes that the graph keeps.
pub open spec fn no_dangling<N: NodeWrapper, NI: NodeIndex<Class = N::Class>>(
    graph: Graph<SignalNode<N>, SignalNodeIndex<NI>>,
) -> bool {
    forall|edge: (StoredProducer<NI>, StoredConsumer<NI>)| #[trigger]
        graph.edges().contains(edge) ==> graph.contains_node(edge.0.node_index)
            && graph.contains_node(edge.1.node_index)
}

/// The edges of the graph, each as the pair of the places of its two nodes.
pub open spec fn pairs<N: NodeWrapper, NI: NodeIndex<Class = N::Class>>(
    graph: Graph<SignalNode<N>, SignalNodeIndex<NI>>,
) -> Seq<(usize, usize)> {
    Seq::new(
        graph.links().len(),
        |j: int|
            (
                graph.position_of(graph.links()[j].0.node_index) as usize,
                graph.position_of(graph.links()[j].1.node_index) as usize,
            ),
    )
}

/// Every node is of the side of its index, and the sequence number of an
/// internal node has been handed out already.
pub open spec fn sides_agree<N: NodeWrapper, NI: NodeIndex<Class = N::Class>>(
    graph: Graph<SignalNode<N>, SignalNodeIndex<NI>>,
) -> bool {
    forall|i: int|
        0 <= i < graph.entries().len() ==> (#[trigger] graph.entries()[i]).0.side()
            == graph.entries()[i].1.side() && (graph.entries()[i].0 matches SignalNodeIndex::Internal(
            index,
        ) ==> index.index < graph.next_index())
}

/// Every edge names ports that the nodes at its ends have.
pub open spec fn ports_fit<N: NodeWrapper, NI: NodeIndex<Class = N::Class>>(
    graph: Graph<SignalNode<N>, SignalNodeIndex<NI>>,
) -> bool {
    forall|edge: (StoredProducer<NI>, StoredConsumer<NI>)| #[trigger]
        graph.edges().contains(edge) ==> edge.0.node_index.offers_producer(edge.0.producer)
            && edge.1.node_index.offers_consumer(edge.1.consumer)
}

/// Every record has its feedback pair in the graph, wired in place of the
/// edge that the record names, and no two records share an edge or a node.
pub open spec fn records_stand<N: NodeWrapper, NI: NodeIndex<Class = N::Class>>(
    graph: Graph<SignalNode<N>, SignalNodeIndex<NI>>,
    records: Seq<FeedbackEdge<NI>>,
) -> bool {
    &&& forall|k: int|
        0 <= k < records.len() ==> {
            &&& (#[trigger] records[k]).source.class == InternalClass::FeedbackSource
            &&& records[k].sink.class == InternalClass::FeedbackSink
            &&& graph.contains_node(SignalNodeIndex::Internal(records[k].source))
            &&& graph.contains_node(SignalNodeIndex::Internal(records[k].sink))
            &&& graph.edges().contains(first_half(records[k]))
            &&& graph.edges().contains(second_half(records[k]))
        }
    &&& forall|k: int, m: int|
        0 <= k < m < records.len() ==> {
            &&& key(#[trigger] records[k]) != key(#[trigger] records[m])
            &&& records[k].source != records[m].source
            &&& records[k].sink != records[m].sink
        }
}

/// The place of a record that is wired through the given edge.
pub open spec fn half_of<NI: NodeIndex>(
    records: Seq<FeedbackEdge<NI>>,
    edge: (StoredProducer<NI>, StoredConsumer<NI>),
) -> bool {
    exists|k: int|
        0 <= k < records.len() && (first_half(#[trigger] records[k]) == edge || second_half(
            records[k],
        ) == edge)
}

/// Every edge that starts or ends at an internal node is one half of the
/// wiring of a record.
pub open spec fn halves_recorded<N: NodeWrapper, NI: NodeIndex<Class = N::Class>>(
    graph: Graph<SignalNode<N>, SignalNodeIndex<NI>>,
    records: Seq<FeedbackEdge<NI>>,
) -> bool {
    forall|edge: (StoredProducer<NI>, StoredConsumer<NI>)| #[trigger]
        graph.edges().contains(edge) && (edge.0.node_index is Internal
            || edge.1.node_index is Internal) ==> half_of(records, edge)
}

/// What holds of the stored graph and of the records at every moment.
pub open spec fn structure_ok<N: NodeWrapper, NI: NodeIndex<Class = N::Class>>(
    graph: Graph<SignalNode<N>, SignalNodeIndex<NI>>,
    records: Seq<FeedbackEdge<NI>>,
) -> bool {
    &&& graph.wf()
    &&& no_dangling(graph)
    &&& sides_agree(graph)
    &&& ports_fit(graph)
    &&& records_stand(graph, records)
    &&& halves_recorded(graph, records)
}

/// The registered nodes of a stored graph, each under its index.
pub open spec fn registered_nodes<N: NodeWrapper, NI: NodeIndex<Class = N::Class>>(
    graph: Graph<SignalNode<N>, SignalNodeIndex<NI>>,
) -> Map<NI, N> {
    Map::new(
        |node_index: NI| graph.contains_node(SignalNodeIndex::Registered(node_index)),
        |node_index: NI| graph.nodes()[SignalNodeIndex::Registered(node_index)]->Registered_0,
    )
}

/// The stored edges between registered nodes, each as it was asked for.
pub open spec fn direct_edges_of<N: NodeWrapper, NI: NodeIndex<Class = N::Class>>(
    graph: Graph<SignalNode<N>, SignalNodeIndex<NI>>,
) -> Set<(CommonProducerIndex<NI>, CommonConsumerIndex<NI>)> {
    Set::new(
        |edge: (CommonProducerIndex<NI>, CommonConsumerIndex<NI>)|
            graph.edges().contains((stored_producer(edge.0), stored_consumer(edge.1))),
    )
}

/// The edges that the records stand for, each as it was asked for.
pub open spec fn delayed_edges_of<NI: NodeIndex>(records: Seq<FeedbackEdge<NI>>) -> Set<
    (CommonProducerIndex<NI>, CommonConsumerIndex<NI>),
> {
    Set::new(
        |edge: (CommonProducerIndex<NI>, CommonConsumerIndex<NI>)|
            exists|k: int| 0 <= k < records.len() && key(#[trigger] records[k]) == edge,
    )
}

/// The feedback pair of the record is needed among the edges: with the
/// edge that the record stands for in the place of the two halves of its
/// wiring, the edges would hold a cycle.
pub open spec fn needed<NI: NodeIndex>(
    edges: Set<(StoredProducer<NI>, StoredConsumer<NI>)>,
    record: FeedbackEdge<NI>,
) -> bool {
    !acyclic(
        edges.remove(first_half(record)).remove(second_half(record)).insert(direct_edge(record)),
    )
}

/// `after` holds what `before` holds but for the node at `place`, which is
/// kept under the same index.
pub open spec fn changed_at<N, NI>(before: Seq<(NI, N)>, after: Seq<(NI, N)>, place: int) -> bool {
    &&& 0 <= place < before.len()
    &&& after.len() == before.len()
    &&& after[place].0 == before[place].0
    &&& forall|k: int| 0 <= k < before.len() && k != place ==> #[trigger] after[k] == before[k]
}

/// The rows of states hang together: each row holds `width + 2` states, the
/// first row starts at `first`, every other row starts where the row before
/// it ends, and the last row ends at `last`. Without rows, `last` is
/// `first`.
pub open spec fn run_spans<N, NI>(
    run: Seq<Seq<Seq<(NI, N)>>>,
    first: Seq<(NI, N)>,
    last: Seq<(NI, N)>,
    width: int,
) -> bool {
    &&& forall|i: int| 0 <= i < run.len() ==> (#[trigger] run[i]).len() == width + 2
    &&& run.len() == 0 ==> last == first
    &&& run.len() > 0 ==> run[0][0] == first && run[run.len() - 1][width + 1] == last
    &&& forall|i: int| 0 < i < run.len() ==> (#[trigger] run[i])[0] == run[i - 1][width + 1]
}

/// Two graphs keep the same indices at the same places, and the same edges.
/// Only the nodes under the indices may differ.
pub open spec fn alike<N: NodeWrapper, NI: NodeIndex<Class = N::Class>>(
    before: Graph<SignalNode<N>, SignalNodeIndex<NI>>,
    after: Graph<SignalNode<N>, SignalNodeIndex<NI>>,
) -> bool {
    &&& after.entries().len() == before.entries().len()
    &&& forall|k: int|
        0 <= k < before.entries().len() ==> (#[trigger] after.entries()[k]).0
            == before.entries()[k].0
    &&& after.links() == before.links()
    &&& after.edges() == before.edges()
    &&& after.next_index() == before.next_index()
    &&& pairs(after) == pairs(before)
    &&& forall|other: SignalNodeIndex<NI>|
        before.contains_node(other) <==> after.contains_node(other)
}

/// Every feedback pair on record is needed.
pub open spec fn all_needed<NI: NodeIndex>(
    edges: Set<(StoredProducer<NI>, StoredConsumer<NI>)>,
    records: Seq<FeedbackEdge<NI>>,
) -> bool {
    forall|k: int| 0 <= k < records.len() ==> needed(edges, #[trigger] records[k])
}

/// Adding a node, or putting a node in the place of one of its own side,
/// leaves the structure in order.
pub(crate) proof fn lemma_node_added<N: NodeWrapper, NI: NodeIndex<Class = N::Class>>(
    before: Graph<SignalNode<N>, SignalNodeIndex<NI>>,
    after: Graph<SignalNode<N>, SignalNodeIndex<NI>>,
    records: Seq<FeedbackEdge<NI>>,
    index: SignalNodeIndex<NI>,
    node: SignalNode<N>,
)
    requires
        structure_ok(before, records),
        after.wf(),
        after.entries() == if before.contains_node(index) {
            before.entries().update(before.position_of(index), (index, node))
        } else {
            before.entries().push((index, node))
        },
        after.links() == before.links(),
        after.next_index() == before.next_index() + 1,
        index.side() == node.side(),
        index matches SignalNodeIndex::Internal(inner) ==> inner.index < after.next_index(),
    ensures
        structure_ok(after, records),
        after.contains_node(index),
        forall|other: SignalNodeIndex<NI>|
            before.contains_node(other) ==> after.contains_node(other),
        forall|other: SignalNodeIndex<NI>|
            after.contains_node(other) ==> other == index || before.contains_node(other),
        after.edges() == before.edges(),
{
    let place = if before.contains_node(index) {
        before.position_of(index)
    } else {
        before.entries().len() as int
    };
    assert(after.entries()[place] == (index, node));
    assert forall|other: SignalNodeIndex<NI>| before.contains_node(other) implies after.contains_node(
        other,
    ) by {
        let i = before.position_of(other);
        assert(after.entries()[i].0 == other);
    }
    assert forall|other: SignalNodeIndex<NI>| after.contains_node(other) implies other == index
        || before.contains_node(other) by {
        let i = after.position_of(other);
        if i != place {
            assert(before.entries()[i].0 == other);
        }
    }
    assert forall|i: int| 0 <= i < after.entries().len() implies (#[trigger] after.entries()[i]).0.side()
        == after.entries()[i].1.side() && (after.entries()[i].0 matches SignalNodeIndex::Internal(
        inner,
    ) ==> inner.index < after.next_index()) by {
        if i != place {
            assert(after.entries()[i] == before.entries()[i]);
        }
    }
    assert(after.edges() =~= before.edges());
    assert forall|edge: (StoredProducer<NI>, StoredConsumer<NI>)| #[trigger]
        after.edges().contains(edge) implies after.contains_node(edge.0.node_index)
        && after.contains_node(edge.1.node_index) && edge.0.node_index.offers_producer(
        edge.0.producer,
    ) && edge.1.node_index.offers_consumer(edge.1.consumer) by {
        assert(before.edges().contains(edge));
    }
    assert forall|k: int| 0 <= k < records.len() implies after.contains_node(
        SignalNodeIndex::Internal((#[trigger] records[k]).source),
    ) && after.contains_node(SignalNodeIndex::Internal(records[k].sink)) by {
        assert(before.contains_node(SignalNodeIndex::Internal(records[k].source)));
        assert(before.contains_node(SignalNodeIndex::Internal(records[k].sink)));
    }
    assert(records_stand(after, records));
    assert(halves_recorded(after, records)) by {
        assert forall|edge: (StoredProducer<NI>, StoredConsumer<NI>)| #[trigger]
            after.edges().contains(edge) && (edge.0.node_index is Internal
                || edge.1.node_index is Internal) implies half_of(records, edge) by {
            assert(before.edges().contains(edge));
        }
    }
}

/// Changing a node without moving it to the other side leaves the
/// structure in order, and every node in its place.
pub(crate) proof fn lemma_node_changed<N: NodeWrapper, NI: NodeIndex<Class = N::Class>>(
    before: Graph<SignalNode<N>, SignalNodeIndex<NI>>,
    after: Graph<SignalNode<N>, SignalNodeIndex<NI>>,
    records: Seq<FeedbackEdge<NI>>,
    place: int,
    node: SignalNode<N>,
)
    requires
        structure_ok(before, records),
        0 <= place < before.entries().len(),
        after.entries() == before.entries().update(place, (before.entries()[place].0, node)),
        after.links() == before.links(),
        after.next_index() == before.next_index(),
        node.side() == before.entries()[place].1.side(),
    ensures
        structure_ok(after, records),
        forall|other: SignalNodeIndex<NI>|
            before.contains_node(other) <==> after.contains_node(other),
        forall|other: SignalNodeIndex<NI>|
            before.contains_node(other) ==> after.position_of(other) == before.position_of(other),
        pairs(after) == pairs(before),
        after.edges() == before.edges(),
        after.nodes() == before.nodes().insert(before.entries()[place].0, node),
{
    assert forall|i: int| 0 <= i < after.entries().len() implies (#[trigger] after.entries()[i]).0
        == before.entries()[i].0 by {}
    assert(after.wf()) by {
        assert forall|i: int, j: int| 0 <= i < j < after.entries().len() implies (
        #[trigger] after.entries()[i]).0 != (#[trigger] after.entries()[j]).0 by {
            assert(before.entries()[i].0 != before.entries()[j].0);
        }
    }
    assert forall|other: SignalNodeIndex<NI>| before.contains_node(other) implies after.contains_node(
        other,
    ) && after.position_of(other) == before.position_of(other) by {
        let i = before.position_of(other);
        assert(after.entries()[i].0 == other);
        after.lemma_entry(i);
    }
    assert forall|other: SignalNodeIndex<NI>| after.contains_node(other) implies before.contains_node(
        other,
    ) by {
        let i = after.position_of(other);
        assert(before.entries()[i].0 == other);
    }
    assert forall|i: int| 0 <= i < after.entries().len() implies (#[trigger] after.entries()[i]).0.side()
        == after.entries()[i].1.side() && (after.entries()[i].0 matches SignalNodeIndex::Internal(
        inner,
    ) ==> inner.index < after.next_index()) by {
        assert(before.entries()[i].0.side() == before.entries()[i].1.side());
    }
    assert(after.edges() =~= before.edges());
    assert forall|edge: (StoredProducer<NI>, StoredConsumer<NI>)| #[trigger]
        after.edges().contains(edge) implies after.contains_node(edge.0.node_index)
        && after.contains_node(edge.1.node_index) && edge.0.node_index.offers_producer(
        edge.0.producer,
    ) && edge.1.node_index.offers_consumer(edge.1.consumer) by {
        assert(before.edges().contains(edge));
    }
    assert forall|k: int| 0 <= k < records.len() implies after.contains_node(
        SignalNodeIndex::Internal((#[trigger] records[k]).source),
    ) && after.contains_node(SignalNodeIndex::Internal(records[k].sink)) by {
        assert(before.contains_node(SignalNodeIndex::Internal(records[k].source)));
        assert(before.contains_node(SignalNodeIndex::Internal(records[k].sink)));
    }
    assert(records_stand(after, records));
    assert(halves_recorded(after, records)) by {
        assert forall|edge: (StoredProducer<NI>, StoredConsumer<NI>)| #[trigger]
            after.edges().contains(edge) && (edge.0.node_index is Internal
                || edge.1.node_index is Internal) implies half_of(records, edge) by {
            assert(before.edges().contains(edge));
        }
    }
    assert(pairs(after) =~= pairs(before)) by {
        assert forall|j: int| 0 <= j < before.links().len() implies pairs(after)[j] == pairs(
            before,
        )[j] by {
            let edge = before.links()[j];
            assert(before.edges().contains(edge));
        }
    }
    assert(after.nodes() =~= before.nodes().insert(before.entries()[place].0, node)) by {
        before.lemma_entry(place);
        after.lemma_entry(place);
        assert forall|other: SignalNodeIndex<NI>| #[trigger]
            after.nodes().contains_key(other) implies after.nodes()[other] == before.nodes().insert(
            before.entries()[place].0,
            node,
        )[other] by {
            let i = after.position_of(other);
            after.lemma_entry(i);
            before.lemma_entry(i);
        }
    }
}

/// Where a registered node joins the stored nodes or takes the place of
/// one, it does so among the registered nodes too.
pub(crate) proof fn lemma_registered_node_put<N: NodeWrapper, NI: NodeIndex<Class = N::Class>>(
    before: Graph<SignalNode<N>, SignalNodeIndex<NI>>,
    after: Graph<SignalNode<N>, SignalNodeIndex<NI>>,
    node_index: NI,
    node: N,
)
    requires
        after.nodes() == before.nodes().insert(
            SignalNodeIndex::Registered(node_index),
            registered(node),
        ),
    ensures
        registered_nodes(after) == registered_nodes(before).insert(node_index, node),
{
    let expected = registered_nodes(before).insert(node_index, node);
    assert forall|other: NI| #[trigger]
        registered_nodes(after).contains_key(other) <==> expected.contains_key(other) by {
        let key = SignalNodeIndex::<NI>::Registered(other);
        assert(after.nodes().contains_key(key) <==> after.contains_node(key));
        assert(before.nodes().contains_key(key) <==> before.contains_node(key));
    }
    assert forall|other: NI| #[trigger]
        registered_nodes(after).contains_key(other) implies registered_nodes(after)[other]
        == expected[other] by {
        let key = SignalNodeIndex::<NI>::Registered(other);
        assert(after.nodes()[key] == before.nodes().insert(
            SignalNodeIndex::Registered(node_index),
            registered(node),
        )[key]);
    }
    assert(registered_nodes(after) =~= expected);
}

/// A ranking of the places of a graph, read off a ranking of its nodes.
pub(crate) proof fn lemma_ranks_give_ranking<N: NodeWrapper, NI: NodeIndex<Class = N::Class>>(
    graph: Graph<SignalNode<N>, SignalNodeIndex<NI>>,
    rank: spec_fn(SignalNodeIndex<NI>) -> nat,
)
    requires
        graph.wf(),
        no_dangling(graph),
        ranks(rank, graph.edges()),
    ensures
        sortable(places(graph.entries().len()), pairs(graph)),
{
    let count = graph.entries().len();
    graph.lemma_counts_fit();
    let by_place = |place: usize|
        if place < count {
            rank(graph.entries()[place as int].0)
        } else {
            0nat
        };
    assert forall|j: int| 0 <= j < pairs(graph).len() implies by_place(
        (#[trigger] pairs(graph)[j]).0,
    ) < by_place(pairs(graph)[j].1) && places(count).contains(pairs(graph)[j].0) by {
        let edge = graph.links()[j];
        assert(graph.edges().contains(edge));
        assert(graph.contains_node(edge.0.node_index));
        assert(graph.contains_node(edge.1.node_index));
        let from = graph.position_of(edge.0.node_index);
        let to = graph.position_of(edge.1.node_index);
        assert(0 <= from < count && graph.entries()[from].0 == edge.0.node_index);
        assert(0 <= to < count && graph.entries()[to].0 == edge.1.node_index);
        assert(pairs(graph)[j] == (from as usize, to as usize));
        assert(places(count)[from] == from as usize);
    }
    assert(is_ranking(by_place, pairs(graph)));
}

/// A ranking of the nodes of a graph, read off a ranking of its places.
pub(crate) proof fn lemma_ranking_gives_ranks<N: NodeWrapper, NI: NodeIndex<Class = N::Class>>(
    graph: Graph<SignalNode<N>, SignalNodeIndex<NI>>,
    by_place: spec_fn(usize) -> nat,
)
    requires
        graph.wf(),
        no_dangling(graph),
        is_ranking(by_place, pairs(graph)),
    ensures
        acyclic(graph.edges()),
        ranks(
            |node_index: SignalNodeIndex<NI>| by_place(graph.position_of(node_index) as usize),
            graph.edges(),
        ),
{
    let rank = |node_index: SignalNodeIndex<NI>| by_place(graph.position_of(node_index) as usize);
    assert forall|edge: (StoredProducer<NI>, StoredConsumer<NI>)| #[trigger]
        graph.edges().contains(edge) implies rank(edge.0.node_index) < rank(
        edge.1.node_index,
    ) by {
        let j = choose|j: int| 0 <= j < graph.links().len() && graph.links()[j] == edge;
        assert(by_place(pairs(graph)[j].0) < by_place(pairs(graph)[j].1));
    }
    assert(ranks(rank, graph.edges()));
}

/// A graph whose places can be put in topological order holds no cycle.
pub(crate) proof fn lemma_schedule_shows_acyclic<N: NodeWrapper, NI: NodeIndex<Class = N::Class>>(
    graph: Graph<SignalNode<N>, SignalNodeIndex<NI>>,
    schedule: Seq<usize>,
)
    requires
        graph.wf(),
        no_dangling(graph),
        is_topological_order(schedule, places(graph.entries().len()), pairs(graph)),
    ensures
        acyclic(graph.edges()),
{
    lemma_order_shows_sortable(schedule, places(graph.entries().len()), pairs(graph));
    let by_place = |v: usize| place_in(schedule, v);
    lemma_ranking_gives_ranks(graph, by_place);
}

/// A graph that stores the same nodes and the same edges is in order too.
pub(crate) proof fn lemma_same_structure<N: NodeWrapper, NI: NodeIndex<Class = N::Class>>(
    before: Graph<SignalNode<N>, SignalNodeIndex<NI>>,
    after: Graph<SignalNode<N>, SignalNodeIndex<NI>>,
    records: Seq<FeedbackEdge<NI>>,
)
    requires
        structure_ok(before, records),
        after.wf(),
        after.entries() == before.entries(),
        after.next_index() == before.next_index(),
        after.edges() == before.edges(),
    ensures
        structure_ok(after, records),
        direct_edges_of(after) == direct_edges_of(before),
        registered_nodes(after) == registered_nodes(before),
{
    assert forall|other: SignalNodeIndex<NI>|
        before.contains_node(other) <==> after.contains_node(other) by {}
    assert forall|edge: (StoredProducer<NI>, StoredConsumer<NI>)| #[trigger]
        after.edges().contains(edge) implies after.contains_node(edge.0.node_index)
        && after.contains_node(edge.1.node_index) && edge.0.node_index.offers_producer(
        edge.0.producer,
    ) && edge.1.node_index.offers_consumer(edge.1.consumer) by {
        assert(before.edges().contains(edge));
    }
    assert forall|k: int| 0 <= k < records.len() implies after.contains_node(
        SignalNodeIndex::Internal((#[trigger] records[k]).source),
    ) && after.contains_node(SignalNodeIndex::Internal(records[k].sink)) by {
        assert(before.contains_node(SignalNodeIndex::Internal(records[k].source)));
        assert(before.contains_node(SignalNodeIndex::Internal(records[k].sink)));
    }
    assert(direct_edges_of(after) =~= direct_edges_of(before));
    assert(registered_nodes(after) =~= registered_nodes(before)) by {
        assert forall|other: NI| #[trigger]
            registered_nodes(after).contains_key(other) implies registered_nodes(after)[other]
            == registered_nodes(before)[other] by {
            let index = SignalNodeIndex::<NI>::Registered(other);
            let i = after.position_of(index);
            after.lemma_entry(i);
            before.lemma_entry(i);
        }
    }
}

/// The records without the one at place `k`, item by item.
proof fn lemma_records_without<NI: NodeIndex>(records: Seq<FeedbackEdge<NI>>, k: int)
    requires
        0 <= k < records.len(),
    ensures
        records.remove(k).len() == records.len() - 1,
        forall|m: int|
            0 <= m < records.len() - 1 ==> #[trigger] records.remove(k)[m] == records[if m < k {
                m
            } else {
                m + 1
            }],
{
}

/// The edges that the records stand for, once the record at place `k` is
/// gone: those of before but for the one of that record.
proof fn lemma_delayed_without<NI: NodeIndex>(records: Seq<FeedbackEdge<NI>>, k: int)
    requires
        0 <= k < records.len(),
        forall|a: int, b: int|
            0 <= a < b < records.len() ==> key(#[trigger] records[a]) != key(
                #[trigger] records[b],
            ),
    ensures
        delayed_edges_of(records.remove(k)) == delayed_edges_of(records).remove(key(records[k])),
{
    let gone = records[k];
    let left = records.remove(k);
    lemma_records_without(records, k);
    assert forall|edge: (CommonProducerIndex<NI>, CommonConsumerIndex<NI>)|
        delayed_edges_of(left).contains(edge) <==> delayed_edges_of(records).remove(
            key(gone),
        ).contains(edge) by {
        if delayed_edges_of(left).contains(edge) {
            let m = choose|m: int| 0 <= m < left.len() && key(#[trigger] left[m]) == edge;
            let o = if m < k {
                m
            } else {
                m + 1
            };
            assert(left[m] == records[o]);
            assert(key(records[o]) == edge);
            if o < k {
                assert(key(records[o]) != key(records[k]));
            } else {
                assert(key(records[k]) != key(records[o]));
            }
        }
        if delayed_edges_of(records).contains(edge) && edge != key(gone) {
            let o = choose|o: int| 0 <= o < records.len() && key(#[trigger] records[o]) == edge;
            let m = if o < k {
                o
            } else {
                o - 1
            };
            assert(left[m] == records[o]);
            assert(key(left[m]) == edge);
        }
    }
    assert(delayed_edges_of(left) =~= delayed_edges_of(records).remove(key(gone)));
}

/// Without both halves of the wiring of a record, the other records stand
/// as before.
proof fn lemma_unwired_records<N: NodeWrapper, NI: NodeIndex<Class = N::Class>>(
    before: Graph<SignalNode<N>, SignalNodeIndex<NI>>,
    after: Graph<SignalNode<N>, SignalNodeIndex<NI>>,
    records: Seq<FeedbackEdge<NI>>,
    k: int,
)
    requires
        records_stand(before, records),
        0 <= k < records.len(),
        after.entries() == before.entries(),
        after.edges() == before.edges().remove(first_half(records[k])).remove(
            second_half(records[k]),
        ),
    ensures
        records_stand(after, records.remove(k)),
        forall|m: int|
            0 <= m < records.remove(k).len() ==> (#[trigger] records.remove(k)[m]).source
                != records[k].source && records.remove(k)[m].sink != records[k].sink,
{
    let gone = records[k];
    let left = records.remove(k);
    lemma_records_without(records, k);
    assert forall|m: int| 0 <= m < left.len() implies {
        &&& (#[trigger] left[m]).source.class == InternalClass::FeedbackSource
        &&& left[m].sink.class == InternalClass::FeedbackSink
        &&& after.contains_node(SignalNodeIndex::Internal(left[m].source))
        &&& after.contains_node(SignalNodeIndex::Internal(left[m].sink))
        &&& after.edges().contains(first_half(left[m]))
        &&& after.edges().contains(second_half(left[m]))
        &&& left[m].source != gone.source
        &&& left[m].sink != gone.sink
    } by {
        let o = if m < k {
            m
        } else {
            m + 1
        };
        assert(left[m] == records[o]);
        assert(before.contains_node(SignalNodeIndex::Internal(records[o].source)));
        assert(before.contains_node(SignalNodeIndex::Internal(records[o].sink)));
        assert(before.edges().contains(first_half(records[o])));
        assert(before.edges().contains(second_half(records[o])));
        if o < k {
            assert(records[o].source != records[k].source);
        } else {
            assert(records[k].source != records[o].source);
        }
    }
    assert forall|m: int, n: int| 0 <= m < n < left.len() implies {
        &&& key(#[trigger] left[m]) != key(#[trigger] left[n])
        &&& left[m].source != left[n].source
        &&& left[m].sink != left[n].sink
    } by {
        let a = if m < k {
            m
        } else {
            m + 1
        };
        let b = if n < k {
            n
        } else {
            n + 1
        };
        assert(left[m] == records[a]);
        assert(left[n] == records[b]);
        assert(key(records[a]) != key(records[b]));
    }
}

/// Without both halves of the wiring of a record, every edge at an internal
/// node is a half of another record, and none is left at the feedback pair
/// of the record itself.
proof fn lemma_unwired_halves<N: NodeWrapper, NI: NodeIndex<Class = N::Class>>(
    before: Graph<SignalNode<N>, SignalNodeIndex<NI>>,
    after: Graph<SignalNode<N>, SignalNodeIndex<NI>>,
    records: Seq<FeedbackEdge<NI>>,
    k: int,
)
    requires
        records_stand(before, records),
        halves_recorded(before, records),
        0 <= k < records.len(),
        after.edges() == before.edges().remove(first_half(records[k])).remove(
            second_half(records[k]),
        ),
    ensures
        halves_recorded(after, records.remove(k)),
        forall|edge: (StoredProducer<NI>, StoredConsumer<NI>)|
            after.edges().contains(edge) ==> !touches(
                edge,
                SignalNodeIndex::Internal(records[k].source),
            ) && !touches(edge, SignalNodeIndex::Internal(records[k].sink)),
{
    let gone = records[k];
    let left = records.remove(k);
    lemma_records_without(records, k);
    assert forall|edge: (StoredProducer<NI>, StoredConsumer<NI>)| #[trigger]
        after.edges().contains(edge) && (edge.0.node_index is Internal
            || edge.1.node_index is Internal) implies half_of(left, edge) by {
        assert(before.edges().contains(edge));
        assert(half_of(records, edge));
        let o = choose|o: int|
            0 <= o < records.len() && (first_half(#[trigger] records[o]) == edge || second_half(
                records[o],
            ) == edge);
        assert(o != k);
        let m = if o < k {
            o
        } else {
            o - 1
        };
        assert(left[m] == records[o]);
    }
    assert forall|edge: (StoredProducer<NI>, StoredConsumer<NI>)|
        after.edges().contains(edge) implies !touches(
        edge,
        SignalNodeIndex::Internal(gone.source),
    ) && !touches(edge, SignalNodeIndex::Internal(gone.sink)) by {
        assert(before.edges().contains(edge));
        if touches(edge, SignalNodeIndex::Internal(gone.source)) || touches(
            edge,
            SignalNodeIndex::Internal(gone.sink),
        ) {
            assert(half_of(records, edge));
            let o = choose|o: int|
                0 <= o < records.len() && (first_half(#[trigger] records[o]) == edge
                    || second_half(records[o]) == edge);
            if o < k {
                assert(records[o].source != records[k].source);
            }
            if k < o {
                assert(records[k].source != records[o].source);
            }
        }
    }
}

/// Without both halves of the wiring of a record, the consumer of the
/// record is free, and the edge that the record stands for is not stored.
proof fn lemma_unwired_free<N: NodeWrapper, NI: NodeIndex<Class = N::Class>>(
    before: Graph<SignalNode<N>, SignalNodeIndex<NI>>,
    after: Graph<SignalNode<N>, SignalNodeIndex<NI>>,
    records: Seq<FeedbackEdge<NI>>,
    k: int,
)
    requires
        before.wf(),
        0 <= k < records.len(),
        before.edges().contains(second_half(records[k])),
        after.edges() == before.edges().remove(first_half(records[k])).remove(
            second_half(records[k]),
        ),
    ensures
        !occupied(
            after.edges(),
            stored_producer(records[k].producer),
            stored_consumer(records[k].consumer),
        ),
        !after.edges().contains(direct_edge(records[k])),
        !before.edges().contains(direct_edge(records[k])),
{
    let gone = records[k];
    before.lemma_single_producer();
    assert(before.edges().contains(second_half(gone)));
    if occupied(after.edges(), stored_producer(gone.producer), stored_consumer(gone.consumer)) {
        let other = choose|other: StoredProducer<NI>|
            other != stored_producer(gone.producer) && #[trigger] after.edges().contains(
                (other, stored_consumer(gone.consumer)),
            );
        assert(before.edges().contains((other, stored_consumer(gone.consumer))));
    }
    if before.edges().contains(direct_edge(gone)) {
        assert(direct_edge(gone).1 == second_half(gone).1);
    }
}

/// Without both halves of the wiring of a record, the edges that were asked
/// for are those of before but for the one that the record stands for.
proof fn lemma_unwired_edges<N: NodeWrapper, NI: NodeIndex<Class = N::Class>>(
    before: Graph<SignalNode<N>, SignalNodeIndex<NI>>,
    after: Graph<SignalNode<N>, SignalNodeIndex<NI>>,
    records: Seq<FeedbackEdge<NI>>,
    k: int,
)
    requires
        before.wf(),
        after.wf(),
        0 <= k < records.len(),
        forall|a: int, b: int|
            0 <= a < b < records.len() ==> key(#[trigger] records[a]) != key(
                #[trigger] records[b],
            ),
        after.entries() == before.entries(),
        after.edges() == before.edges().remove(first_half(records[k])).remove(
            second_half(records[k]),
        ),
    ensures
        direct_edges_of(after) == direct_edges_of(before),
        registered_nodes(after) == registered_nodes(before),
        delayed_edges_of(records.remove(k)) == delayed_edges_of(records).remove(key(records[k])),
{
    assert(direct_edges_of(after) =~= direct_edges_of(before));
    lemma_delayed_without(records, k);
    assert(registered_nodes(after) =~= registered_nodes(before)) by {
        assert forall|other: NI| #[trigger]
            registered_nodes(after).contains_key(other) implies registered_nodes(after)[other]
            == registered_nodes(before)[other] by {
            let index = SignalNodeIndex::<NI>::Registered(other);
            let i = after.position_of(index);
            after.lemma_entry(i);
            before.lemma_entry(i);
        }
    }
}

/// Taking away both halves of the wiring of a record leaves a structure
/// that is in order without the record. The feedback pair stays behind
/// without edges, and the consumer of the record is free.
pub(crate) proof fn lemma_unwired<N: NodeWrapper, NI: NodeIndex<Class = N::Class>>(
    before: Graph<SignalNode<N>, SignalNodeIndex<NI>>,
    after: Graph<SignalNode<N>, SignalNodeIndex<NI>>,
    records: Seq<FeedbackEdge<NI>>,
    k: int,
)
    requires
        structure_ok(before, records),
        0 <= k < records.len(),
        after.wf(),
        after.entries() == before.entries(),
        after.next_index() == before.next_index(),
        after.edges() == before.edges().remove(first_half(records[k])).remove(
            second_half(records[k]),
        ),
    ensures
        structure_ok(after, records.remove(k)),
        !occupied(
            after.edges(),
            stored_producer(records[k].producer),
            stored_consumer(records[k].consumer),
        ),
        !after.edges().contains(direct_edge(records[k])),
        !before.edges().contains(direct_edge(records[k])),
        direct_edges_of(after) == direct_edges_of(before),
        registered_nodes(after) == registered_nodes(before),
        delayed_edges_of(records.remove(k)) == delayed_edges_of(records).remove(key(records[k])),
        forall|m: int|
            0 <= m < records.remove(k).len() ==> (#[trigger] records.remove(k)[m]).source
                != records[k].source && records.remove(k)[m].sink != records[k].sink,
        forall|edge: (StoredProducer<NI>, StoredConsumer<NI>)|
            after.edges().contains(edge) ==> !touches(
                edge,
                SignalNodeIndex::Internal(records[k].source),
            ) && !touches(edge, SignalNodeIndex::Internal(records[k].sink)),
{
    assert(before.edges().contains(second_half(records[k])));
    lemma_unwired_records(before, after, records, k);
    lemma_unwired_halves(before, after, records, k);
    lemma_unwired_free(before, after, records, k);
    lemma_unwired_edges(before, after, records, k);
    assert(no_dangling(after) && ports_fit(after)) by {
        assert forall|edge: (StoredProducer<NI>, StoredConsumer<NI>)| #[trigger]
            after.edges().contains(edge) implies after.contains_node(edge.0.node_index)
            && after.contains_node(edge.1.node_index) && edge.0.node_index.offers_producer(
            edge.0.producer,
        ) && edge.1.node_index.offers_consumer(edge.1.consumer) by {
            assert(before.edges().contains(edge));
        }
    }
}

/// Storing an edge between two registered nodes of the graph leaves the
/// structure in order.
pub(crate) proof fn lemma_direct_added<N: NodeWrapper, NI: NodeIndex<Class = N::Class>>(
    before: Graph<SignalNode<N>, SignalNodeIndex<NI>>,
    after: Graph<SignalNode<N>, SignalNodeIndex<NI>>,
    records: Seq<FeedbackEdge<NI>>,
    producer: CommonProducerIndex<NI>,
    consumer: CommonConsumerIndex<NI>,
)
    requires
        structure_ok(before, records),
        after.wf(),
        after.entries() == before.entries(),
        after.next_index() == before.next_index(),
        before.contains_node(SignalNodeIndex::Registered(producer.node_index)),
        before.contains_node(SignalNodeIndex::Registered(consumer.node_index)),
        after.edges() == before.edges().insert(
            (stored_producer(producer), stored_consumer(consumer)),
        ),
    ensures
        structure_ok(after, records),
        direct_edges_of(after) == direct_edges_of(before).insert((producer, consumer)),
        registered_nodes(after) == registered_nodes(before),
{
    let added = (stored_producer(producer), stored_consumer(consumer));
    assert forall|other: SignalNodeIndex<NI>|
        before.contains_node(other) <==> after.contains_node(other) by {}
    assert forall|edge: (StoredProducer<NI>, StoredConsumer<NI>)| #[trigger]
        after.edges().contains(edge) implies after.contains_node(edge.0.node_index)
        && after.contains_node(edge.1.node_index) && edge.0.node_index.offers_producer(
        edge.0.producer,
    ) && edge.1.node_index.offers_consumer(edge.1.consumer) by {
        if edge != added {
            assert(before.edges().contains(edge));
        }
    }
    assert forall|k: int| 0 <= k < records.len() implies after.contains_node(
        SignalNodeIndex::Internal((#[trigger] records[k]).source),
    ) && after.contains_node(SignalNodeIndex::Internal(records[k].sink)) by {
        assert(before.contains_node(SignalNodeIndex::Internal(records[k].source)));
        assert(before.contains_node(SignalNodeIndex::Internal(records[k].sink)));
    }
    assert(records_stand(after, records));
    assert forall|edge: (StoredProducer<NI>, StoredConsumer<NI>)| #[trigger]
        after.edges().contains(edge) && (edge.0.node_index is Internal
            || edge.1.node_index is Internal) implies half_of(records, edge) by {
        assert(before.edges().contains(edge));
    }
    assert(direct_edges_of(after) =~= direct_edges_of(before).insert((producer, consumer))) by {
        assert forall|edge: (CommonProducerIndex<NI>, CommonConsumerIndex<NI>)|
            direct_edges_of(after).contains(edge) <==> direct_edges_of(before).insert(
                (producer, consumer),
            ).contains(edge) by {
            if (stored_producer(edge.0), stored_consumer(edge.1)) == added {
                assert(edge.0 == producer && edge.1 == consumer);
            }
        }
    }
    assert(registered_nodes(after) =~= registered_nodes(before)) by {
        assert forall|other: NI| #[trigger]
            registered_nodes(after).contains_key(other) implies registered_nodes(after)[other]
            == registered_nodes(before)[other] by {
            let index = SignalNodeIndex::<NI>::Registered(other);
            let i = after.position_of(index);
            after.lemma_entry(i);
            before.lemma_entry(i);
        }
    }
}

/// Removing a node at which no record is wired leaves the structure in
/// order. The edges at the node go with it; all others stay.
pub(crate) proof fn lemma_node_removed<N: NodeWrapper, NI: NodeIndex<Class = N::Class>>(
    before: Graph<SignalNode<N>, SignalNodeIndex<NI>>,
    after: Graph<SignalNode<N>, SignalNodeIndex<NI>>,
    records: Seq<FeedbackEdge<NI>>,
    index: SignalNodeIndex<NI>,
)
    requires
        structure_ok(before, records),
        after.wf(),
        after.entries() == if before.contains_node(index) {
            before.entries().remove(before.position_of(index))
        } else {
            before.entries()
        },
        after.next_index() == before.next_index(),
        after.nodes() == before.nodes().remove(index),
        forall|edge: (StoredProducer<NI>, StoredConsumer<NI>)| #[trigger]
            after.edges().contains(edge) <==> before.edges().contains(edge) && !touches(
                edge,
                index,
            ),
        forall|k: int|
            0 <= k < records.len() ==> !touches(first_half(#[trigger] records[k]), index)
                && !touches(second_half(records[k]), index) && SignalNodeIndex::<NI>::Internal(
                records[k].source,
            ) != index && SignalNodeIndex::<NI>::Internal(records[k].sink) != index,
    ensures
        structure_ok(after, records),
        !after.contains_node(index),
        forall|other: SignalNodeIndex<NI>|
            other != index ==> (after.contains_node(other) <==> before.contains_node(other)),
{
    assert forall|other: SignalNodeIndex<NI>|
        after.contains_node(other) <==> after.nodes().contains_key(other) by {}
    assert forall|other: SignalNodeIndex<NI>|
        before.contains_node(other) <==> before.nodes().contains_key(other) by {}
    assert forall|i: int| 0 <= i < after.entries().len() implies (#[trigger] after.entries()[i]).0.side()
        == after.entries()[i].1.side() && (after.entries()[i].0 matches SignalNodeIndex::Internal(
        inner,
    ) ==> inner.index < after.next_index()) by {
        if before.contains_node(index) {
            let place = before.position_of(index);
            let o = if i < place {
                i
            } else {
                i + 1
            };
            assert(after.entries()[i] == before.entries()[o]);
        }
    }
    assert forall|edge: (StoredProducer<NI>, StoredConsumer<NI>)| #[trigger]
        after.edges().contains(edge) implies after.contains_node(edge.0.node_index)
        && after.contains_node(edge.1.node_index) && edge.0.node_index.offers_producer(
        edge.0.producer,
    ) && edge.1.node_index.offers_consumer(edge.1.consumer) by {
        assert(before.edges().contains(edge));
    }
    assert forall|k: int| 0 <= k < records.len() implies {
        &&& after.contains_node(SignalNodeIndex::Internal((#[trigger] records[k]).source))
        &&& after.contains_node(SignalNodeIndex::Internal(records[k].sink))
        &&& after.edges().contains(first_half(records[k]))
        &&& after.edges().contains(second_half(records[k]))
    } by {
        assert(before.contains_node(SignalNodeIndex::Internal(records[k].source)));
        assert(before.contains_node(SignalNodeIndex::Internal(records[k].sink)));
        assert(before.edges().contains(first_half(records[k])));
        assert(before.edges().contains(second_half(records[k])));
    }
    assert(records_stand(after, records));
    assert forall|edge: (StoredProducer<NI>, StoredConsumer<NI>)| #[trigger]
        after.edges().contains(edge) && (edge.0.node_index is Internal
            || edge.1.node_index is Internal) implies half_of(records, edge) by {
        assert(before.edges().contains(edge));
    }
}

/// Removing an internal node leaves the registered nodes and the edges
/// between them as they are.
pub(crate) proof fn lemma_internal_removed<N: NodeWrapper, NI: NodeIndex<Class = N::Class>>(
    before: Graph<SignalNode<N>, SignalNodeIndex<NI>>,
    after: Graph<SignalNode<N>, SignalNodeIndex<NI>>,
    index: InternalNodeIndex,
)
    requires
        before.wf(),
        after.wf(),
        after.nodes() == before.nodes().remove(SignalNodeIndex::Internal(index)),
        forall|edge: (StoredProducer<NI>, StoredConsumer<NI>)| #[trigger]
            after.edges().contains(edge) <==> before.edges().contains(edge) && !touches(
                edge,
                SignalNodeIndex::<NI>::Internal(index),
            ),
    ensures
        direct_edges_of(after) == direct_edges_of(before),
        registered_nodes(after) == registered_nodes(before),
        forall|rank: spec_fn(SignalNodeIndex<NI>) -> nat|
            ranks(rank, before.edges()) ==> ranks(rank, after.edges()),
{
    assert forall|other: SignalNodeIndex<NI>|
        after.contains_node(other) <==> after.nodes().contains_key(other) by {}
    assert forall|other: SignalNodeIndex<NI>|
        before.contains_node(other) <==> before.nodes().contains_key(other) by {}
    assert(direct_edges_of(after) =~= direct_edges_of(before));
    assert(registered_nodes(after) =~= registered_nodes(before));
    assert forall|rank: spec_fn(SignalNodeIndex<NI>) -> nat|
        ranks(rank, before.edges()) implies ranks(rank, after.edges()) by {
        assert forall|edge: (StoredProducer<NI>, StoredConsumer<NI>)| #[trigger]
            after.edges().contains(edge) implies rank(edge.0.node_index) < rank(
            edge.1.node_index,
        ) by {
            assert(before.edges().contains(edge));
        }
    }
}

/// Removing a registered node takes it from the registered nodes, and
/// takes the edges at its ports from the edges between them.
pub(crate) proof fn lemma_registered_removed<N: NodeWrapper, NI: NodeIndex<Class = N::Class>>(
    before: Graph<SignalNode<N>, SignalNodeIndex<NI>>,
    after: Graph<SignalNode<N>, SignalNodeIndex<NI>>,
    node_index: NI,
)
    requires
        before.wf(),
        after.wf(),
        after.nodes() == before.nodes().remove(SignalNodeIndex::Registered(node_index)),
        forall|edge: (StoredProducer<NI>, StoredConsumer<NI>)| #[trigger]
            after.edges().contains(edge) <==> before.edges().contains(edge) && !touches(
                edge,
                SignalNodeIndex::<NI>::Registered(node_index),
            ),
    ensures
        registered_nodes(after) == registered_nodes(before).remove(node_index),
        forall|edge: (CommonProducerIndex<NI>, CommonConsumerIndex<NI>)| #[trigger]
            direct_edges_of(after).contains(edge) <==> direct_edges_of(before).contains(edge)
                && edge.0.node_index != node_index && edge.1.node_index != node_index,
        forall|rank: spec_fn(SignalNodeIndex<NI>) -> nat|
            ranks(rank, before.edges()) ==> ranks(rank, after.edges()),
{
    assert forall|other: SignalNodeIndex<NI>|
        after.contains_node(other) <==> after.nodes().contains_key(other) by {}
    assert forall|other: SignalNodeIndex<NI>|
        before.contains_node(other) <==> before.nodes().contains_key(other) by {}
    assert(registered_nodes(after) =~= registered_nodes(before).remove(node_index));
    assert forall|edge: (CommonProducerIndex<NI>, CommonConsumerIndex<NI>)| #[trigger]
        direct_edges_of(after).contains(edge) <==> direct_edges_of(before).contains(edge)
            && edge.0.node_index != node_index && edge.1.node_index != node_index by {
        let stored = (stored_producer(edge.0), stored_consumer(edge.1));
        assert(after.edges().contains(stored) <==> before.edges().contains(stored) && !touches(
            stored,
            SignalNodeIndex::<NI>::Registered(node_index),
        ));
    }
    assert forall|rank: spec_fn(SignalNodeIndex<NI>) -> nat|
        ranks(rank, before.edges()) implies ranks(rank, after.edges()) by {
        assert forall|edge: (StoredProducer<NI>, StoredConsumer<NI>)| #[trigger]
            after.edges().contains(edge) implies rank(edge.0.node_index) < rank(
            edge.1.node_index,
        ) by {
            assert(before.edges().contains(edge));
        }
    }
}

/// Wiring a fresh feedback pair between a producer and a consumer, and
/// keeping a record of it, leaves the structure in order.
pub(crate) proof fn lemma_wired<N: NodeWrapper, NI: NodeIndex<Class = N::Class>>(
    before: Graph<SignalNode<N>, SignalNodeIndex<NI>>,
    after: Graph<SignalNode<N>, SignalNodeIndex<NI>>,
    records: Seq<FeedbackEdge<NI>>,
    record: FeedbackEdge<NI>,
)
    requires
        structure_ok(before, records),
        after.wf(),
        after.entries() == before.entries(),
        after.next_index() == before.next_index(),
        record.source.class == InternalClass::FeedbackSource,
        record.sink.class == InternalClass::FeedbackSink,
        before.contains_node(SignalNodeIndex::Internal(record.source)),
        before.contains_node(SignalNodeIndex::Internal(record.sink)),
        before.contains_node(SignalNodeIndex::Registered(record.producer.node_index)),
        before.contains_node(SignalNodeIndex::Registered(record.consumer.node_index)),
        forall|k: int|
            0 <= k < records.len() ==> (#[trigger] records[k]).source != record.source
                && records[k].sink != record.sink && key(records[k]) != key(record),
        after.edges() == before.edges().insert(first_half(record)).insert(second_half(record)),
    ensures
        structure_ok(after, records.push(record)),
        direct_edges_of(after) == direct_edges_of(before),
        registered_nodes(after) == registered_nodes(before),
        delayed_edges_of(records.push(record)) == delayed_edges_of(records).insert(key(record)),
{
    let grown = records.push(record);
    assert forall|other: SignalNodeIndex<NI>|
        before.contains_node(other) <==> after.contains_node(other) by {}
    assert forall|edge: (StoredProducer<NI>, StoredConsumer<NI>)| #[trigger]
        after.edges().contains(edge) implies after.contains_node(edge.0.node_index)
        && after.contains_node(edge.1.node_index) && edge.0.node_index.offers_producer(
        edge.0.producer,
    ) && edge.1.node_index.offers_consumer(edge.1.consumer) by {
        if edge != first_half(record) && edge != second_half(record) {
            assert(before.edges().contains(edge));
        }
    }
    assert forall|k: int| 0 <= k < grown.len() implies {
        &&& (#[trigger] grown[k]).source.class == InternalClass::FeedbackSource
        &&& grown[k].sink.class == InternalClass::FeedbackSink
        &&& after.contains_node(SignalNodeIndex::Internal(grown[k].source))
        &&& after.contains_node(SignalNodeIndex::Internal(grown[k].sink))
        &&& after.edges().contains(first_half(grown[k]))
        &&& after.edges().contains(second_half(grown[k]))
    } by {
        if k < records.len() {
            assert(grown[k] == records[k]);
            assert(before.contains_node(SignalNodeIndex::Internal(records[k].source)));
            assert(before.contains_node(SignalNodeIndex::Internal(records[k].sink)));
            assert(before.edges().contains(first_half(records[k])));
            assert(before.edges().contains(second_half(records[k])));
        }
    }
    assert forall|k: int, m: int| 0 <= k < m < grown.len() implies {
        &&& key(#[trigger] grown[k]) != key(#[trigger] grown[m])
        &&& grown[k].source != grown[m].source
        &&& grown[k].sink != grown[m].sink
    } by {
        assert(grown[k] == records[k]);
        if m < records.len() {
            assert(grown[m] == records[m]);
            assert(key(records[k]) != key(records[m]));
        }
    }
    assert(records_stand(after, grown));
    assert forall|edge: (StoredProducer<NI>, StoredConsumer<NI>)| #[trigger]
        after.edges().contains(edge) && (edge.0.node_index is Internal
            || edge.1.node_index is Internal) implies half_of(grown, edge) by {
        if edge == first_half(record) || edge == second_half(record) {
            assert(grown[records.len() as int] == record);
        } else {
            assert(before.edges().contains(edge));
            assert(half_of(records, edge));
            let o = choose|o: int|
                0 <= o < records.len() && (first_half(#[trigger] records[o]) == edge
                    || second_half(records[o]) == edge);
            assert(grown[o] == records[o]);
        }
    }
    assert(direct_edges_of(after) =~= direct_edges_of(before));
    assert(delayed_edges_of(grown) =~= delayed_edges_of(records).insert(key(record))) by {
        assert forall|edge: (CommonProducerIndex<NI>, CommonConsumerIndex<NI>)|
            delayed_edges_of(grown).contains(edge) <==> delayed_edges_of(records).insert(
                key(record),
            ).contains(edge) by {
            if delayed_edges_of(grown).contains(edge) {
                let m = choose|m: int| 0 <= m < grown.len() && key(#[trigger] grown[m]) == edge;
                if m < records.len() {
                    assert(grown[m] == records[m]);
                    assert(key(records[m]) == edge);
                }
            }
            if delayed_edges_of(records).contains(edge) {
                let o = choose|o: int| 0 <= o < records.len() && key(#[trigger] records[o]) == edge;
                assert(grown[o] == records[o]);
                assert(key(grown[o]) == edge);
            }
            if edge == key(record) {
                assert(key(grown[records.len() as int]) == edge);
            }
        }
    }
    assert(registered_nodes(after) =~= registered_nodes(before)) by {
        assert forall|other: NI| #[trigger]
            registered_nodes(after).contains_key(other) implies registered_nodes(after)[other]
            == registered_nodes(before)[other] by {
            let index = SignalNodeIndex::<NI>::Registered(other);
            let i = after.position_of(index);
            after.lemma_entry(i);
            before.lemma_entry(i);
        }
    }
}

/// Edges that hold no cycle hold none either once a feedback pair that
/// no edge touches is wired between two of the nodes: the sink ranks below
/// every node, the source above the producer that feeds it.
pub(crate) proof fn lemma_feedback_keeps_acyclic<NI: NodeIndex>(
    edges: Set<(StoredProducer<NI>, StoredConsumer<NI>)>,
    record: FeedbackEdge<NI>,
)
    requires
        acyclic(edges),
        record.source != record.sink,
        forall|edge: (StoredProducer<NI>, StoredConsumer<NI>)| #[trigger]
            edges.contains(edge) ==> !touches(edge, SignalNodeIndex::Internal(record.source))
                && !touches(edge, SignalNodeIndex::Internal(record.sink)),
    ensures
        acyclic(edges.insert(first_half(record)).insert(second_half(record))),
{
    let rank = choose|rank: spec_fn(SignalNodeIndex<NI>) -> nat| ranks(rank, edges);
    let source = SignalNodeIndex::<NI>::Internal(record.source);
    let sink = SignalNodeIndex::<NI>::Internal(record.sink);
    let feeder = SignalNodeIndex::<NI>::Registered(record.producer.node_index);
    let lifted = |index: SignalNodeIndex<NI>|
        if index == sink {
            0nat
        } else if index == source {
            rank(feeder) + 2
        } else {
            rank(index) + 1
        };
    let wired = edges.insert(first_half(record)).insert(second_half(record));
    assert forall|edge: (StoredProducer<NI>, StoredConsumer<NI>)| #[trigger]
        wired.contains(edge) implies lifted(edge.0.node_index) < lifted(edge.1.node_index) by {
        if edge != first_half(record) && edge != second_half(record) {
            assert(edges.contains(edge));
        }
    }
    assert(ranks(lifted, wired));
}

/// As long as the edge from `producer` to `consumer` is not in the graph,
/// the consumer is occupied in the stored graph exactly if it is occupied
/// among the edges that were asked for.
pub(crate) proof fn lemma_occupied_alike<N: NodeWrapper, NI: NodeIndex<Class = N::Class>>(
    graph: Graph<SignalNode<N>, SignalNodeIndex<NI>>,
    records: Seq<FeedbackEdge<NI>>,
    producer: CommonProducerIndex<NI>,
    consumer: CommonConsumerIndex<NI>,
)
    requires
        structure_ok(graph, records),
        !delayed_edges_of(records).contains((producer, consumer)),
    ensures
        occupied(graph.edges(), stored_producer(producer), stored_consumer(consumer)) <==> occupied(
            direct_edges_of(graph).union(delayed_edges_of(records)),
            producer,
            consumer,
        ),
{
    let asked = direct_edges_of(graph).union(delayed_edges_of(records));
    if occupied(graph.edges(), stored_producer(producer), stored_consumer(consumer)) {
        let other = choose|other: StoredProducer<NI>|
            other != stored_producer(producer) && #[trigger] graph.edges().contains(
                (other, stored_consumer(consumer)),
            );
        let edge = (other, stored_consumer(consumer));
        if other.node_index is Registered {
            assert(other.node_index.offers_producer(other.producer));
            let found = CommonProducerIndex::<NI> {
                node_index: other.node_index->Registered_0,
                producer: other.producer->Registered_0,
            };
            assert(stored_producer(found) == other);
            assert(asked.contains((found, consumer)));
        } else {
            assert(half_of(records, edge));
            let k = choose|k: int|
                0 <= k < records.len() && (first_half(#[trigger] records[k]) == edge
                    || second_half(records[k]) == edge);
            assert(records[k].consumer == consumer);
            assert(key(records[k]) == (records[k].producer, consumer));
            assert(delayed_edges_of(records).contains((records[k].producer, consumer)));
            assert(asked.contains((records[k].producer, consumer)));
        }
    }
    if occupied(asked, producer, consumer) {
        let other = choose|other: CommonProducerIndex<NI>|
            other != producer && #[trigger] asked.contains((other, consumer));
        if direct_edges_of(graph).contains((other, consumer)) {
            assert(graph.edges().contains((stored_producer(other), stored_consumer(consumer))));
        } else {
            let k = choose|k: int|
                0 <= k < records.len() && key(#[trigger] records[k]) == (other, consumer);
            assert(graph.edges().contains(second_half(records[k])));
            assert(graph.edges().contains(
                (sink_producer::<NI>(records[k].sink), stored_consumer(consumer)),
            ));
        }
    }
}

/// Taking away an edge between two registered nodes leaves the structure
/// in order.
pub(crate) proof fn lemma_direct_removed<N: NodeWrapper, NI: NodeIndex<Class = N::Class>>(
    before: Graph<SignalNode<N>, SignalNodeIndex<NI>>,
    after: Graph<SignalNode<N>, SignalNodeIndex<NI>>,
    records: Seq<FeedbackEdge<NI>>,
    producer: CommonProducerIndex<NI>,
    consumer: CommonConsumerIndex<NI>,
)
    requires
        structure_ok(before, records),
        after.wf(),
        after.entries() == before.entries(),
        after.next_index() == before.next_index(),
        after.edges() == before.edges().remove(
            (stored_producer(producer), stored_consumer(consumer)),
        ),
    ensures
        structure_ok(after, records),
        direct_edges_of(after) == direct_edges_of(before).remove((producer, consumer)),
        registered_nodes(after) == registered_nodes(before),
{
    let gone = (stored_producer(producer), stored_consumer(consumer));
    assert forall|other: SignalNodeIndex<NI>|
        before.contains_node(other) <==> after.contains_node(other) by {}
    assert forall|edge: (StoredProducer<NI>, StoredConsumer<NI>)| #[trigger]
        after.edges().contains(edge) implies after.contains_node(edge.0.node_index)
        && after.contains_node(edge.1.node_index) && edge.0.node_index.offers_producer(
        edge.0.producer,
    ) && edge.1.node_index.offers_consumer(edge.1.consumer) by {
        assert(before.edges().contains(edge));
    }
    assert forall|k: int| 0 <= k < records.len() implies {
        &&& after.contains_node(SignalNodeIndex::Internal((#[trigger] records[k]).source))
        &&& after.contains_node(SignalNodeIndex::Internal(records[k].sink))
        &&& after.edges().contains(first_half(records[k]))
        &&& after.edges().contains(second_half(records[k]))
    } by {
        assert(before.contains_node(SignalNodeIndex::Internal(records[k].source)));
        assert(before.contains_node(SignalNodeIndex::Internal(records[k].sink)));
        assert(before.edges().contains(first_half(records[k])));
        assert(before.edges().contains(second_half(records[k])));
    }
    assert(records_stand(after, records));
    assert forall|edge: (StoredProducer<NI>, StoredConsumer<NI>)| #[trigger]
        after.edges().contains(edge) && (edge.0.node_index is Internal
            || edge.1.node_index is Internal) implies half_of(records, edge) by {
        assert(before.edges().contains(edge));
    }
    assert(direct_edges_of(after) =~= direct_edges_of(before).remove((producer, consumer))) by {
        assert forall|edge: (CommonProducerIndex<NI>, CommonConsumerIndex<NI>)|
            direct_edges_of(after).contains(edge) <==> direct_edges_of(before).remove(
                (producer, consumer),
            ).contains(edge) by {
            if (stored_producer(edge.0), stored_consumer(edge.1)) == gone {
                assert(edge.0 == producer && edge.1 == consumer);
            }
        }
    }
    assert(registered_nodes(after) =~= registered_nodes(before)) by {
        assert forall|other: NI| #[trigger]
            registered_nodes(after).contains_key(other) implies registered_nodes(after)[other]
            == registered_nodes(before)[other] by {
            let index = SignalNodeIndex::<NI>::Registered(other);
            let i = after.position_of(index);
            after.lemma_entry(i);
            before.lemma_entry(i);
        }
    }
}

/// No edge is stored as it was asked for and replaced by a feedback pair at
/// once: the consumer would take its input from two producers.
pub(crate) proof fn lemma_kinds_apart<N: NodeWrapper, NI: NodeIndex<Class = N::Class>>(
    graph: Graph<SignalNode<N>, SignalNodeIndex<NI>>,
    records: Seq<FeedbackEdge<NI>>,
)
    requires
        graph.wf(),
        records_stand(graph, records),
    ensures
        direct_edges_of(graph).disjoint(delayed_edges_of(records)),
        single_producer(direct_edges_of(graph).union(delayed_edges_of(records))),
{
    graph.lemma_single_producer();
    let asked = direct_edges_of(graph).union(delayed_edges_of(records));
    assert forall|edge: (CommonProducerIndex<NI>, CommonConsumerIndex<NI>)|
        !(direct_edges_of(graph).contains(edge) && delayed_edges_of(records).contains(edge)) by {
        if direct_edges_of(graph).contains(edge) && delayed_edges_of(records).contains(edge) {
            let k = choose|k: int| 0 <= k < records.len() && key(#[trigger] records[k]) == edge;
            assert(graph.edges().contains(second_half(records[k])));
            assert(graph.edges().contains((stored_producer(edge.0), stored_consumer(edge.1))));
        }
    }
    assert forall|
        first: (CommonProducerIndex<NI>, CommonConsumerIndex<NI>),
        second: (CommonProducerIndex<NI>, CommonConsumerIndex<NI>),
    |
        #![trigger asked.contains(first), asked.contains(second)]
        asked.contains(first) && asked.contains(second) && first.1 == second.1 implies first
        == second by {
        let one = if direct_edges_of(graph).contains(first) {
            (stored_producer(first.0), stored_consumer(first.1))
        } else {
            let k = choose|k: int| 0 <= k < records.len() && key(#[trigger] records[k]) == first;
            second_half(records[k])
        };
        let two = if direct_edges_of(graph).contains(second) {
            (stored_producer(second.0), stored_consumer(second.1))
        } else {
            let k = choose|k: int| 0 <= k < records.len() && key(#[trigger] records[k]) == second;
            second_half(records[k])
        };
        assert(graph.edges().contains(one) && graph.edges().contains(two));
        assert(one.1 == two.1);
        assert(one == two);
        if !direct_edges_of(graph).contains(first) {
            let k = choose|k: int| 0 <= k < records.len() && key(#[trigger] records[k]) == first;
            let m = choose|m: int| 0 <= m < records.len() && key(#[trigger] records[m]) == second;
            if k < m {
                assert(records[k].sink != records[m].sink);
            }
            if m < k {
                assert(records[m].sink != records[k].sink);
            }
        }
    }
}

/// Every place in a topological order of the stored graph is the place of
/// a node.
pub(crate) proof fn lemma_schedule_in_range<N: NodeWrapper, NI: NodeIndex<Class = N::Class>>(
    graph: Graph<SignalNode<N>, SignalNodeIndex<NI>>,
    schedule: Seq<usize>,
)
    requires
        graph.wf(),
        no_dangling(graph),
        is_topological_order(schedule, places(graph.entries().len()), pairs(graph)),
    ensures
        forall|i: int| 0 <= i < schedule.len() ==> #[trigger] schedule[i] < graph.entries().len(),
{
    let count = graph.entries().len();
    graph.lemma_counts_fit();
    assert forall|i: int| 0 <= i < schedule.len() implies #[trigger] schedule[i] < count by {
        let v = schedule[i];
        assert(schedule.contains(v));
        if places(count).contains(v) {
            let p = choose|p: int| 0 <= p < count && places(count)[p] == v;
        } else {
            let j = choose|j: int| 0 <= j < pairs(graph).len() && (#[trigger] pairs(graph)[j]).1 == v;
            let edge = graph.links()[j];
            assert(graph.edges().contains(edge));
            assert(graph.contains_node(edge.1.node_index));
        }
    }
}

/// A node of the side of its index has the ports that the index names.
pub(crate) proof fn lemma_ports_offered<
    N: NodeWrapper<Class = NI::Class, Consumer = NI::Consumer, Producer = NI::Producer>,
    NI: NodeIndex,
>(index: SignalNodeIndex<NI>, node: SignalNode<N>)
    requires
        index.side() == node.side(),
    ensures
        forall|producer: SignalProducer<NI::Producer>|
            index.offers_producer(producer) ==> #[trigger] node.offers_producer(producer),
        forall|consumer: SignalConsumer<NI::Consumer>|
            index.offers_consumer(consumer) ==> #[trigger] node.offers_consumer(consumer),
{
}

/// Edges that hold no cycle hold none either once some are taken away.
pub(crate) proof fn lemma_fewer_edges_stay_acyclic<NI: NodeIndex>(
    more: Set<(StoredProducer<NI>, StoredConsumer<NI>)>,
    fewer: Set<(StoredProducer<NI>, StoredConsumer<NI>)>,
)
    requires
        acyclic(more),
        fewer.subset_of(more),
    ensures
        acyclic(fewer),
{
    let rank = choose|rank: spec_fn(SignalNodeIndex<NI>) -> nat| ranks(rank, more);
    assert forall|edge: (StoredProducer<NI>, StoredConsumer<NI>)| #[trigger]
        fewer.contains(edge) implies rank(edge.0.node_index) < rank(edge.1.node_index) by {
        assert(more.contains(edge));
    }
    assert(ranks(rank, fewer));
}

/// A feedback pair that is needed stays needed when edges are added.
pub(crate) proof fn lemma_needed_among_more<NI: NodeIndex>(
    fewer: Set<(StoredProducer<NI>, StoredConsumer<NI>)>,
    more: Set<(StoredProducer<NI>, StoredConsumer<NI>)>,
    records: Seq<FeedbackEdge<NI>>,
)
    requires
        all_needed(fewer, records),
        fewer.subset_of(more),
    ensures
        all_needed(more, records),
{
    assert forall|k: int| 0 <= k < records.len() implies needed(more, #[trigger] records[k]) by {
        let record = records[k];
        let small = fewer.remove(first_half(record)).remove(second_half(record)).insert(
            direct_edge(record),
        );
        let large = more.remove(first_half(record)).remove(second_half(record)).insert(
            direct_edge(record),
        );
        assert(needed(fewer, record));
        if acyclic(large) {
            assert(small.subset_of(large));
            lemma_fewer_edges_stay_acyclic(large, small);
        }
    }
}

/// A feedback pair that is needed stays needed when another pair gives way
/// to the edge that it stood for.
pub(crate) proof fn lemma_still_needed<N: NodeWrapper, NI: NodeIndex<Class = N::Class>>(
    graph: Graph<SignalNode<N>, SignalNodeIndex<NI>>,
    records: Seq<FeedbackEdge<NI>>,
    k: int,
    m: int,
)
    requires
        graph.wf(),
        records_stand(graph, records),
        halves_recorded(graph, records),
        0 <= k < records.len(),
        0 <= m < records.len(),
        k != m,
        needed(graph.edges(), records[m]),
    ensures
        needed(
            graph.edges().remove(first_half(records[k])).remove(second_half(records[k])).insert(
                direct_edge(records[k]),
            ),
            records[m],
        ),
{
    let edges = graph.edges();
    let gone = records[k];
    let kept = records[m];
    let replaced = edges.remove(first_half(gone)).remove(second_half(gone)).insert(
        direct_edge(gone),
    );
    let tried = replaced.remove(first_half(kept)).remove(second_half(kept)).insert(
        direct_edge(kept),
    );
    let before = edges.remove(first_half(kept)).remove(second_half(kept)).insert(
        direct_edge(kept),
    );
    if k < m {
        assert(records[k].source != records[m].source && records[k].sink != records[m].sink);
        assert(key(records[k]) != key(records[m]));
    } else {
        assert(records[m].source != records[k].source && records[m].sink != records[k].sink);
        assert(key(records[m]) != key(records[k]));
    }
    assert(direct_edge(gone) != direct_edge(kept));
    graph.lemma_single_producer();
    assert(edges.contains(second_half(gone)));
    assert(!edges.contains(direct_edge(gone))) by {
        if edges.contains(direct_edge(gone)) {
            assert(direct_edge(gone).1 == second_half(gone).1);
        }
    }
    assert(gone.source.class == InternalClass::FeedbackSource);
    assert(gone.sink.class == InternalClass::FeedbackSink);
    assert(kept.source.class == InternalClass::FeedbackSource);
    assert(kept.sink.class == InternalClass::FeedbackSink);
    if acyclic(tried) {
        let bare = tried.remove(direct_edge(gone));
        lemma_fewer_edges_stay_acyclic(tried, bare);
        assert forall|edge: (StoredProducer<NI>, StoredConsumer<NI>)| #[trigger]
            bare.contains(edge) implies !touches(edge, SignalNodeIndex::Internal(gone.source))
            && !touches(edge, SignalNodeIndex::Internal(gone.sink)) by {
            if edge != direct_edge(kept) {
                assert(edges.contains(edge));
                if touches(edge, SignalNodeIndex::Internal(gone.source)) || touches(
                    edge,
                    SignalNodeIndex::Internal(gone.sink),
                ) {
                    assert(half_of(records, edge));
                    let o = choose|o: int|
                        0 <= o < records.len() && (first_half(#[trigger] records[o]) == edge
                            || second_half(records[o]) == edge);
                    if o < k {
                        assert(records[o].source != records[k].source);
                    }
                    if k < o {
                        assert(records[k].source != records[o].source);
                    }
                }
            }
        }
        lemma_feedback_keeps_acyclic(bare, gone);
        let wired = bare.insert(first_half(gone)).insert(second_half(gone));
        assert forall|edge: (StoredProducer<NI>, StoredConsumer<NI>)|
            before.contains(edge) implies wired.contains(edge) by {
            if edge == direct_edge(kept) {
                assert(tried.contains(edge));
                assert(bare.contains(edge));
            } else if edge == first_half(gone) || edge == second_half(gone) {
            } else {
                assert(edges.contains(edge));
                assert(replaced.contains(edge));
                assert(tried.contains(edge));
                assert(bare.contains(edge));
            }
        }
        assert(before.subset_of(wired));
        lemma_fewer_edges_stay_acyclic(wired, before);
    }
}

} // verus!
