//! What a section of a transcript segment graph holds, as mathematics.

use crate::edge::EdgeView;
use crate::lookup::{distinct, lemma_position_is, position};
use crate::node::{has_identity, NodeView};
use crate::read::ReadIdentity;
use vstd::prelude::*;

verus! {

/// A section: its name, its nodes and edges in the order in which they
/// were added, and for each edge the indices of its two endpoints.
pub struct SectionView {
    pub id: Seq<u8>,
    pub nodes: Seq<NodeView>,
    pub edges: Seq<EdgeView>,
    pub sources: Seq<int>,
    pub targets: Seq<int>,
}

/// The ids of the nodes of `nodes`.
pub open spec fn node_ids(nodes: Seq<NodeView>) -> Seq<Seq<u8>> {
    Seq::new(nodes.len(), |i: int| nodes[i].id)
}

/// The ids of the edges of `edges`.
pub open spec fn edge_ids(edges: Seq<EdgeView>) -> Seq<Seq<u8>> {
    Seq::new(edges.len(), |i: int| edges[i].id)
}

/// The positions in `sources` at which `v` stands, in ascending order: the
/// edges that leave the node `v`, in the order in which they were added.
pub open spec fn outgoing(sources: Seq<int>, v: int) -> Seq<int>
    decreases sources.len(),
{
    if sources.len() == 0 {
        Seq::empty()
    } else {
        let before = outgoing(sources.drop_last(), v);
        if sources.last() == v {
            before.push(sources.len() - 1)
        } else {
            before
        }
    }
}

impl SectionView {
    /// The section named `id` with no node and no edge.
    pub open spec fn empty(id: Seq<u8>) -> SectionView {
        SectionView {
            id,
            nodes: Seq::empty(),
            edges: Seq::empty(),
            sources: Seq::empty(),
            targets: Seq::empty(),
        }
    }

    /// Index of the node named `id`, or the number of nodes if there is none.
    pub open spec fn node_index(self, id: Seq<u8>) -> int {
        position(node_ids(self.nodes), id)
    }

    /// True when a node is named `id`.
    pub open spec fn has_node(self, id: Seq<u8>) -> bool {
        self.node_index(id) < self.nodes.len()
    }

    /// Index of the first edge named `id`, or the number of edges if there
    /// is none.
    pub open spec fn edge_index(self, id: Seq<u8>) -> int {
        position(edge_ids(self.edges), id)
    }

    /// No two nodes have the same id, and the endpoints recorded for each
    /// edge are the nodes that the edge names.
    pub open spec fn valid(self) -> bool {
        &&& distinct(node_ids(self.nodes))
        &&& self.sources.len() == self.edges.len()
        &&& self.targets.len() == self.edges.len()
        &&& forall|e: int|
            0 <= e < self.edges.len() ==> 0 <= #[trigger] self.sources[e] < self.nodes.len()
                && self.nodes[self.sources[e]].id == self.edges[e].source
        &&& forall|e: int|
            0 <= e < self.edges.len() ==> 0 <= #[trigger] self.targets[e] < self.nodes.len()
                && self.nodes[self.targets[e]].id == self.edges[e].target
    }

    /// The edges that leave the node `v`, in the order in which they were
    /// added.
    pub open spec fn out_edges(self, v: int) -> Seq<int> {
        outgoing(self.sources, v)
    }

    /// True when a read starts a transcript at the node `v`.
    pub open spec fn is_source(self, v: int) -> bool {
        0 <= v < self.nodes.len() && has_identity(self.nodes[v], ReadIdentity::SO)
    }

    /// True when a read ends a transcript at the node `v`.
    pub open spec fn is_sink(self, v: int) -> bool {
        0 <= v < self.nodes.len() && has_identity(self.nodes[v], ReadIdentity::SI)
    }

    /// The section with one more node at the end.
    pub open spec fn with_node(self, n: NodeView) -> SectionView {
        SectionView { nodes: self.nodes.push(n), ..self }
    }

    /// The section with one more edge at the end, between the nodes that the
    /// edge names.
    pub open spec fn with_edge(self, e: EdgeView) -> SectionView {
        SectionView {
            edges: self.edges.push(e),
            sources: self.sources.push(self.node_index(e.source)),
            targets: self.targets.push(self.node_index(e.target)),
            ..self
        }
    }
}

/// Every edge that leaves `v` is an edge whose source is `v`; the edges that
/// leave `v` stand in ascending order; and every edge whose source is `v`
/// is among them.
pub proof fn lemma_outgoing(sources: Seq<int>, v: int)
    ensures
        forall|k: int|
            0 <= k < outgoing(sources, v).len() ==> 0 <= #[trigger] outgoing(sources, v)[k]
                < sources.len() && sources[outgoing(sources, v)[k]] == v,
        forall|j: int, k: int|
            0 <= j < k < outgoing(sources, v).len() ==> outgoing(sources, v)[j] < outgoing(
                sources,
                v,
            )[k],
        forall|e: int|
            0 <= e < sources.len() && sources[e] == v ==> outgoing(sources, v).contains(e),
        outgoing(sources, v).len() <= sources.len(),
    decreases sources.len(),
{
    if sources.len() > 0 {
        let init = sources.drop_last();
        lemma_outgoing(init, v);
        let before = outgoing(init, v);
        let all = outgoing(sources, v);
        let n = sources.len() as int;
        assert forall|k: int| 0 <= k < all.len() implies 0 <= #[trigger] all[k] < sources.len()
            && sources[all[k]] == v by {
            if k < before.len() {
                assert(all[k] == before[k]);
                assert(init[before[k]] == sources[before[k]]);
            }
        }
        assert forall|j: int, k: int| 0 <= j < k < all.len() implies all[j] < all[k] by {
            assert(all[j] == before[j]);
            if k < before.len() {
                assert(all[k] == before[k]);
            }
        }
        assert forall|e: int| 0 <= e < sources.len() && sources[e] == v implies all.contains(
            e,
        ) by {
            if e < n - 1 {
                assert(init[e] == sources[e]);
                assert(before.contains(e));
                let k = choose|k: int| 0 <= k < before.len() && before[k] == e;
                assert(all[k] == e);
            } else {
                assert(all[all.len() - 1] == e);
            }
        }
    }
}

/// No edge leaves a node that is the source of no edge.
pub proof fn lemma_outgoing_none(sources: Seq<int>, v: int)
    requires
        forall|e: int| 0 <= e < sources.len() ==> sources[e] != v,
    ensures
        outgoing(sources, v) == Seq::<int>::empty(),
    decreases sources.len(),
{
    if sources.len() > 0 {
        let init = sources.drop_last();
        assert forall|e: int| 0 <= e < init.len() implies init[e] != v by {
            assert(init[e] == sources[e]);
        }
        lemma_outgoing_none(init, v);
    }
}

/// In a valid section, ids and indices name the same nodes: the index
/// found under the id of the node at an index is that index.
pub proof fn lemma_node_lookup(g: SectionView, i: int)
    requires
        g.valid(),
        0 <= i < g.nodes.len(),
    ensures
        g.has_node(g.nodes[i].id),
        g.node_index(g.nodes[i].id) == i,
{
    let ids = node_ids(g.nodes);
    assert(ids[i] == g.nodes[i].id);
    lemma_position_is(ids, ids[i], i);
}

/// In a valid section, every edge leads from the node that it names as its
/// source to the node that it names as its target.
pub proof fn lemma_edge_endpoints(g: SectionView, e: int)
    requires
        g.valid(),
        0 <= e < g.edges.len(),
    ensures
        g.sources[e] == g.node_index(g.edges[e].source),
        g.targets[e] == g.node_index(g.edges[e].target),
{
    lemma_node_lookup(g, g.sources[e]);
    lemma_node_lookup(g, g.targets[e]);
}

} // verus!
