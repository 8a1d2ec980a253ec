//! One named graph: its nodes and edges, each with a stable index, and the
//! lookups between ids and indices.

use crate::edge::{EdgeData, EdgeView};
use crate::graph::{edge_ids, lemma_outgoing_none, node_ids, outgoing, SectionView};
use crate::lookup::{distinct, ints, lemma_position, lemma_position_is};
use crate::node::{NodeData, NodeView};
use crate::scan::{bytes_eq, to_vec};
use vstd::prelude::*;

verus! {

/// Why a record could not be added to a graph.
#[derive(Debug, Clone, PartialEq, Eq)]
pub enum GraphError {
    /// The section already has a node with this id.
    DuplicateNodeId { id: Vec<u8> },
    /// The section has no node with this id, which an edge names.
    UnknownEndpoint { id: Vec<u8> },
    /// A node or an edge came before any section was opened.
    MissingSection,
}

/// What a `GraphError` holds.
pub enum GraphErrorView {
    DuplicateNodeId { id: Seq<u8> },
    UnknownEndpoint { id: Seq<u8> },
    MissingSection,
}

impl View for GraphError {
    type V = GraphErrorView;

    open spec fn view(&self) -> GraphErrorView {
        match self {
            GraphError::DuplicateNodeId { id } => GraphErrorView::DuplicateNodeId { id: id@ },
            GraphError::UnknownEndpoint { id } => GraphErrorView::UnknownEndpoint { id: id@ },
            GraphError::MissingSection => GraphErrorView::MissingSection,
        }
    }
}

/// The views of a sequence of nodes.
pub open spec fn node_views(v: Seq<NodeData>) -> Seq<NodeView> {
    Seq::new(v.len(), |i: int| v[i]@)
}

/// The views of a sequence of edges.
pub open spec fn edge_views(v: Seq<EdgeData>) -> Seq<EdgeView> {
    Seq::new(v.len(), |i: int| v[i]@)
}

/// The edge that `outcome` must name to be the refusal of an edge whose
/// endpoints are `source` and `target` in the section `g`.
pub open spec fn missing_endpoint(g: SectionView, e: EdgeView) -> Seq<u8> {
    if !g.has_node(e.source) {
        e.source
    } else {
        e.target
    }
}

/// A directed graph with named nodes and edges. Nodes and edges keep the
/// index at which they were added.
#[derive(Debug, Clone, Default)]
pub struct GraphSection {
    id: Vec<u8>,
    nodes: Vec<NodeData>,
    edges: Vec<EdgeData>,
    edge_source: Vec<usize>,
    edge_target: Vec<usize>,
    out: Vec<Vec<usize>>,
}

impl View for GraphSection {
    type V = SectionView;

    closed spec fn view(&self) -> SectionView {
        SectionView {
            id: self.id@,
            nodes: node_views(self.nodes@),
            edges: edge_views(self.edges@),
            sources: ints(self.edge_source@),
            targets: ints(self.edge_target@),
        }
    }
}

impl GraphSection {
    /// The section holds a valid graph, and the lists of outgoing edges that
    /// it keeps are those of that graph.
    pub closed spec fn wf(&self) -> bool {
        &&& self@.valid()
        &&& self.out.len() == self.nodes.len()
        &&& forall|v: int|
            0 <= v < self.out.len() ==> ints(#[trigger] self.out[v]@) == self@.out_edges(v)
    }

    /// A well-formed section holds a valid graph.
    pub proof fn lemma_valid(&self)
        requires
            self.wf(),
        ensures
            self@.valid(),
    {
    }

    /// The empty section named `id`.
    pub fn new(id: &[u8]) -> (r: GraphSection)
        ensures
            r.wf(),
            r@ == SectionView::empty(id@),
    {
        let r = GraphSection {
            id: to_vec(id),
            nodes: Vec::new(),
            edges: Vec::new(),
            edge_source: Vec::new(),
            edge_target: Vec::new(),
            out: Vec::new(),
        };
        proof {
            assert(r@.nodes =~= Seq::<NodeView>::empty());
            assert(r@.edges =~= Seq::<EdgeView>::empty());
            assert(r@.sources =~= Seq::<int>::empty());
            assert(r@.targets =~= Seq::<int>::empty());
        }
        r
    }

    /// The name of the section.
    pub fn id(&self) -> (r: &Vec<u8>)
        ensures
            r@ == self@.id,
    {
        &self.id
    }

    /// The number of nodes.
    pub fn node_count(&self) -> (r: usize)
        ensures
            r == self@.nodes.len(),
    {
        self.nodes.len()
    }

    /// The number of edges.
    pub fn edge_count(&self) -> (r: usize)
        ensures
            r == self@.edges.len(),
    {
        self.edges.len()
    }

    /// The nodes, in the order in which they were added.
    pub fn nodes(&self) -> (r: &Vec<NodeData>)
        ensures
            node_views(r@) == self@.nodes,
    {
        &self.nodes
    }

    /// The edges, in the order in which they were added.
    pub fn edges(&self) -> (r: &Vec<EdgeData>)
        ensures
            edge_views(r@) == self@.edges,
    {
        &self.edges
    }

    /// The index of the node named `id`, if there is one.
    pub fn node_by_id(&self, id: &[u8]) -> (r: Option<usize>)
        ensures
            match r {
                Some(i) => self@.has_node(id@) && i == self@.node_index(id@),
                None => !self@.has_node(id@),
            },
    {
        let ghost ids = node_ids(self@.nodes);
        let mut i: usize = 0;
        while i < self.nodes.len()
            invariant
                i <= self.nodes.len(),
                ids == node_ids(self@.nodes),
                forall|k: int| 0 <= k < i ==> ids[k] != id@,
            decreases self.nodes.len() - i,
        {
            if bytes_eq(self.nodes[i].id.as_slice(), id) {
                proof {
                    assert(ids[i as int] == id@);
                    lemma_position_is(ids, id@, i as int);
                }
                return Some(i);
            }
            assert(ids[i as int] != id@);
            i += 1;
        }
        proof {
            lemma_position_is(ids, id@, i as int);
        }
        None
    }

    /// The node at the index `index`, if there is one.
    pub fn node_by_idx(&self, index: usize) -> (r: Option<&NodeData>)
        ensures
            match r {
                Some(n) => index < self@.nodes.len() && n@ == self@.nodes[index as int],
                None => index >= self@.nodes.len(),
            },
    {
        if index < self.nodes.len() {
            Some(&self.nodes[index])
        } else {
            None
        }
    }

    /// The index of the first edge named `id`, if there is one.
    pub fn edge_by_id(&self, id: &[u8]) -> (r: Option<usize>)
        ensures
            match r {
                Some(i) => i < self@.edges.len() && i == self@.edge_index(id@),
                None => self@.edge_index(id@) == self@.edges.len(),
            },
    {
        let ghost ids = edge_ids(self@.edges);
        let mut i: usize = 0;
        while i < self.edges.len()
            invariant
                i <= self.edges.len(),
                ids == edge_ids(self@.edges),
                forall|k: int| 0 <= k < i ==> ids[k] != id@,
            decreases self.edges.len() - i,
        {
            if bytes_eq(self.edges[i].id.as_slice(), id) {
                proof {
                    assert(ids[i as int] == id@);
                    lemma_position_is(ids, id@, i as int);
                }
                return Some(i);
            }
            assert(ids[i as int] != id@);
            i += 1;
        }
        proof {
            lemma_position_is(ids, id@, i as int);
        }
        None
    }

    /// The edge at the index `index`, if there is one.
    pub fn edge_by_idx(&self, index: usize) -> (r: Option<&EdgeData>)
        ensures
            match r {
                Some(e) => index < self@.edges.len() && e@ == self@.edges[index as int],
                None => index >= self@.edges.len(),
            },
    {
        if index < self.edges.len() {
            Some(&self.edges[index])
        } else {
            None
        }
    }

    /// The index of the node at which the edge `edge` starts.
    pub fn edge_source(&self, edge: usize) -> (r: usize)
        requires
            self.wf(),
            edge < self@.edges.len(),
        ensures
            r == self@.sources[edge as int],
            r < self@.nodes.len(),
    {
        self.edge_source[edge]
    }

    /// The index of the node at which the edge `edge` ends.
    pub fn edge_target(&self, edge: usize) -> (r: usize)
        requires
            self.wf(),
            edge < self@.edges.len(),
        ensures
            r == self@.targets[edge as int],
            r < self@.nodes.len(),
    {
        self.edge_target[edge]
    }

    /// The edges that leave the node `node`, in the order in which they were
    /// added.
    pub fn out_edges(&self, node: usize) -> (r: &Vec<usize>)
        requires
            self.wf(),
            node < self@.nodes.len(),
        ensures
            ints(r@) == self@.out_edges(node as int),
    {
        &self.out[node]
    }

    /// Tells whether a read starts a transcript at the node `node`.
    pub fn node_is_source(&self, node: usize) -> (r: bool)
        ensures
            r == self@.is_source(node as int),
    {
        node < self.nodes.len() && self.nodes[node].is_source()
    }

    /// Tells whether a read ends a transcript at the node `node`.
    pub fn node_is_sink(&self, node: usize) -> (r: bool)
        ensures
            r == self@.is_sink(node as int),
    {
        node < self.nodes.len() && self.nodes[node].is_sink()
    }

    /// Adds a node and returns its index. A node whose id the section
    /// already has is refused, and the section stays as it was.
    pub fn add_node(&mut self, node: NodeData) -> (r: Result<usize, GraphError>)
        requires
            old(self).wf(),
        ensures
            final(self).wf(),
            match r {
                Ok(i) => !old(self)@.has_node(node@.id) && i == old(self)@.nodes.len()
                    && final(self)@ == old(self)@.with_node(node@),
                Err(e) => old(self)@.has_node(node@.id) && final(self)@ == old(self)@ && e@
                    == (GraphErrorView::DuplicateNodeId { id: node@.id }),
            },
    {
        match self.node_by_id(node.id.as_slice()) {
            Some(_) => Err(GraphError::DuplicateNodeId { id: node.id }),
            None => {
                let ghost before = self@;
                let ghost added = node@;
                let index = self.nodes.len();
                self.nodes.push(node);
                self.out.push(Vec::new());
                proof {
                    let after = self@;
                    assert(after.nodes =~= before.nodes.push(added));
                    assert(after == before.with_node(added));
                    let ids = node_ids(before.nodes);
                    lemma_position(ids, added.id);
                    assert(node_ids(after.nodes) =~= ids.push(added.id));
                    assert(distinct(node_ids(after.nodes)));
                    assert forall|e: int| 0 <= e < after.edges.len() implies 0
                        <= #[trigger] after.sources[e] < after.nodes.len()
                        && after.nodes[after.sources[e]].id == after.edges[e].source by {
                        assert(0 <= before.sources[e] < before.nodes.len());
                    }
                    assert forall|e: int| 0 <= e < after.edges.len() implies 0
                        <= #[trigger] after.targets[e] < after.nodes.len()
                        && after.nodes[after.targets[e]].id == after.edges[e].target by {
                        assert(0 <= before.targets[e] < before.nodes.len());
                    }
                    assert forall|v: int| 0 <= v < self.out.len() implies ints(
                        #[trigger] self.out[v]@,
                    ) == after.out_edges(v) by {
                        if v == index {
                            assert forall|e: int| 0 <= e < after.sources.len() implies after.sources[e]
                                != v by {
                                assert(0 <= before.sources[e] < before.nodes.len());
                            }
                            lemma_outgoing_none(after.sources, v);
                            assert(ints(self.out[v]@) =~= Seq::<int>::empty());
                        } else {
                            assert(self.out[v] == old(self).out[v]);
                        }
                    }
                }
                Ok(index)
            },
        }
    }

    /// Adds an edge and returns its index. An edge that names a node the
    /// section does not have is refused, and the section stays as it was; the
    /// refusal names the source if the source is missing, else the target.
    pub fn add_edge(&mut self, edge: EdgeData) -> (r: Result<usize, GraphError>)
        requires
            old(self).wf(),
        ensures
            final(self).wf(),
            match r {
                Ok(i) => old(self)@.has_node(edge@.source) && old(self)@.has_node(edge@.target)
                    && i == old(self)@.edges.len() && final(self)@ == old(self)@.with_edge(
                    edge@,
                ),
                Err(e) => !(old(self)@.has_node(edge@.source) && old(self)@.has_node(
                    edge@.target,
                )) && final(self)@ == old(self)@ && e@ == (GraphErrorView::UnknownEndpoint {
                    id: missing_endpoint(old(self)@, edge@),
                }),
            },
    {
        let source = match self.node_by_id(edge.source.as_slice()) {
            Some(i) => i,
            None => {
                return Err(GraphError::UnknownEndpoint { id: edge.source });
            },
        };
        let target = match self.node_by_id(edge.target.as_slice()) {
            Some(i) => i,
            None => {
                return Err(GraphError::UnknownEndpoint { id: edge.target });
            },
        };
        let ghost before = self@;
        let ghost added = edge@;
        let index = self.edges.len();
        proof {
            lemma_position(node_ids(before.nodes), added.source);
            lemma_position(node_ids(before.nodes), added.target);
        }
        self.edges.push(edge);
        self.edge_source.push(source);
        self.edge_target.push(target);
        self.out[source].push(index);
        proof {
            let after = self@;
            assert(after.edges =~= before.edges.push(added));
            assert(after.sources =~= before.sources.push(source as int));
            assert(after.targets =~= before.targets.push(target as int));
            assert(after.nodes == before.nodes);
            assert(after == before.with_edge(added));
            assert forall|e: int| 0 <= e < after.edges.len() implies 0
                <= #[trigger] after.sources[e] < after.nodes.len()
                && after.nodes[after.sources[e]].id == after.edges[e].source by {
                if e < index {
                    assert(0 <= before.sources[e] < before.nodes.len());
                } else {
                    assert(node_ids(before.nodes)[source as int] == added.source);
                }
            }
            assert forall|e: int| 0 <= e < after.edges.len() implies 0
                <= #[trigger] after.targets[e] < after.nodes.len()
                && after.nodes[after.targets[e]].id == after.edges[e].target by {
                if e < index {
                    assert(0 <= before.targets[e] < before.nodes.len());
                } else {
                    assert(node_ids(before.nodes)[target as int] == added.target);
                }
            }
            assert(after.sources.drop_last() =~= before.sources);
            assert forall|v: int| 0 <= v < self.out.len() implies ints(#[trigger] self.out[v]@)
                == after.out_edges(v) by {
                assert(ints(old(self).out[v]@) == before.out_edges(v));
                if v == source {
                    assert(ints(self.out[v]@) =~= ints(old(self).out[v]@).push(index as int));
                } else {
                    assert(self.out[v] == old(self).out[v]);
                }
            }
        }
        Ok(index)
    }
}

} // verus!
