//! Paths through a section: sequences of node indices with the edge indices
//! between them.

use crate::attribute::{attribute_views, Attribute, AttributeView};
use crate::graph::SectionView;
use crate::hash::{digest, lemma_hex_len, to_hash_identifier};
use crate::lookup::ints;
use crate::scan::{append, to_vec};
use crate::section::GraphSection;
use crate::text::join;
use crate::walk::Walk;
use vstd::prelude::*;

verus! {

/// The byte `-`, which stands between the node ids of which the identity of
/// a path is the hash.
pub const DASH: u8 = 45;

/// Why a path could not be used.
#[derive(Debug, Clone, Copy, PartialEq, Eq, Structural)]
pub enum PathError {
    /// The path has no node.
    EmptyPath,
    /// The path does not have one node more than it has edges.
    StructuralInvariantViolation,
    /// The section has no node at this index, which the path holds.
    NodeNotFound { index: usize },
    /// The section has no edge at this index, which the path holds.
    EdgeNotFound { index: usize },
    /// The node at this index has no sequence.
    MissingSequence { index: usize },
}

/// A path through a section. It holds indices only; whatever needs the
/// nodes or edges themselves takes the section beside the path.
#[derive(Debug, Clone, Default, PartialEq, Eq)]
pub struct TSGPath {
    /// The indices of the nodes of the path, in order.
    pub nodes: Vec<usize>,
    /// The indices of the edges between the nodes, in order.
    pub edges: Vec<usize>,
    /// Attributes gathered for the path.
    pub attributes: Vec<Attribute>,
    /// A name given to the path, if any.
    pub id: Option<Vec<u8>>,
    /// The index, in its collection, of the section of the path, if known.
    pub graph: Option<usize>,
}

/// What a `TSGPath` holds.
pub struct PathView {
    pub nodes: Seq<int>,
    pub edges: Seq<int>,
    pub attributes: Seq<AttributeView>,
    pub id: Option<Seq<u8>>,
    pub graph: Option<usize>,
}

impl View for TSGPath {
    type V = PathView;

    open spec fn view(&self) -> PathView {
        PathView {
            nodes: ints(self.nodes@),
            edges: ints(self.edges@),
            attributes: attribute_views(self.attributes@),
            id: match self.id {
                Some(s) => Some(s@),
                None => None,
            },
            graph: self.graph,
        }
    }
}

/// The views of a sequence of paths.
pub open spec fn path_views(v: Seq<TSGPath>) -> Seq<PathView> {
    Seq::new(v.len(), |i: int| v[i]@)
}

impl PathView {
    /// The path with no node, no edge, no attribute, no name and no section.
    pub open spec fn empty() -> PathView {
        PathView {
            nodes: Seq::empty(),
            edges: Seq::empty(),
            attributes: Seq::empty(),
            id: None,
            graph: None,
        }
    }

    /// The nodes and edges of the path.
    pub open spec fn walk(self) -> Walk {
        Walk { nodes: self.nodes, edges: self.edges }
    }

    /// The path is empty, or has one node more than it has edges.
    pub open spec fn well_shaped(self) -> bool {
        (self.nodes.len() == 0 && self.edges.len() == 0) || self.nodes.len() == self.edges.len()
            + 1
    }
}

/// Position of the first of `indices` that is not below `limit`, or
/// `indices.len()` if there is none.
pub open spec fn first_outside(indices: Seq<int>, limit: int) -> int
    decreases indices.len(),
{
    if indices.len() == 0 || !(0 <= indices[0] < limit) {
        0
    } else {
        1 + first_outside(indices.skip(1), limit)
    }
}

/// The ids of the nodes at the indices `nodes`.
pub open spec fn ids_along(g: SectionView, nodes: Seq<int>) -> Seq<Seq<u8>> {
    Seq::new(nodes.len(), |i: int| g.nodes[nodes[i]].id)
}

/// The identity of a sequence of node ids: the digest of the ids written
/// with `-` between them.
pub open spec fn identity(ids: Seq<Seq<u8>>) -> Seq<u8> {
    digest(join(ids, 45))
}

/// The identity of the path along `nodes` in the section `g`, or why it has
/// none: the path is empty, or the section lacks one of its nodes.
pub open spec fn path_identity(g: SectionView, nodes: Seq<int>) -> Result<Seq<u8>, PathError> {
    let bad = first_outside(nodes, g.nodes.len() as int);
    if nodes.len() == 0 {
        Err(PathError::EmptyPath)
    } else if bad < nodes.len() {
        Err(PathError::NodeNotFound { index: nodes[bad] as usize })
    } else {
        Ok(identity(ids_along(g, nodes)))
    }
}

/// `first_outside` stays within the sequence, every index before it is
/// below the limit, and the index at it, if any, is not.
pub proof fn lemma_first_outside(indices: Seq<int>, limit: int)
    ensures
        0 <= first_outside(indices, limit) <= indices.len(),
        forall|k: int|
            0 <= k < first_outside(indices, limit) ==> 0 <= #[trigger] indices[k] < limit,
        first_outside(indices, limit) < indices.len() ==> !(0 <= indices[first_outside(
            indices,
            limit,
        )] < limit),
    decreases indices.len(),
{
    if indices.len() > 0 && 0 <= indices[0] < limit {
        let t = indices.skip(1);
        lemma_first_outside(t, limit);
        assert forall|k: int| 0 <= k < first_outside(indices, limit) implies 0
            <= #[trigger] indices[k] < limit by {
            if k > 0 {
                assert(indices[k] == t[k - 1]);
            }
        }
        if first_outside(indices, limit) < indices.len() {
            assert(indices[first_outside(indices, limit)] == t[first_outside(t, limit)]);
        }
    }
}

/// The first place at which an index is not below the limit is
/// `first_outside`.
pub proof fn lemma_first_outside_is(indices: Seq<int>, limit: int, n: int)
    requires
        0 <= n <= indices.len(),
        forall|k: int| 0 <= k < n ==> 0 <= #[trigger] indices[k] < limit,
        n < indices.len() ==> !(0 <= indices[n] < limit),
    ensures
        first_outside(indices, limit) == n,
    decreases indices.len(),
{
    if n > 0 {
        let t = indices.skip(1);
        assert(0 <= indices[0] < limit);
        assert forall|k: int| 0 <= k < n - 1 implies 0 <= #[trigger] t[k] < limit by {
            assert(t[k] == indices[k + 1]);
        }
        if n - 1 < t.len() {
            assert(t[n - 1] == indices[n]);
        }
        lemma_first_outside_is(t, limit, n - 1);
    }
}

/// The identity of a path is a function of the ids of its nodes: two paths
/// along nodes with the same ids, in whatever sections, have the same
/// identity.
pub proof fn lemma_identity_deterministic(
    g: SectionView,
    nodes: Seq<int>,
    h: SectionView,
    others: Seq<int>,
)
    requires
        path_identity(g, nodes).is_ok(),
        path_identity(h, others).is_ok(),
        ids_along(g, nodes) == ids_along(h, others),
    ensures
        path_identity(g, nodes) == path_identity(h, others),
{
}

/// The identity of a path has sixteen characters.
pub proof fn lemma_identity_len(ids: Seq<Seq<u8>>)
    ensures
        identity(ids).len() == 16,
{
    lemma_hex_len(crate::hash::fnv1a(join(ids, 45)) as int, 16);
}

/// Position of the first of `indices` that is not below `limit`.
pub fn find_outside(indices: &Vec<usize>, limit: usize) -> (r: usize)
    ensures
        r == first_outside(ints(indices@), limit as int),
        r <= indices.len(),
{
    let ghost s = ints(indices@);
    let mut i: usize = 0;
    while i < indices.len()
        invariant
            i <= indices.len(),
            s == ints(indices@),
            forall|k: int| 0 <= k < i ==> 0 <= #[trigger] s[k] < limit,
        decreases indices.len() - i,
    {
        if indices[i] >= limit {
            proof {
                assert(s[i as int] == indices@[i as int]);
                lemma_first_outside_is(s, limit as int, i as int);
            }
            return i;
        }
        assert(s[i as int] == indices@[i as int]);
        i += 1;
    }
    proof {
        lemma_first_outside_is(s, limit as int, i as int);
    }
    i
}

impl TSGPath {
    /// The empty path.
    pub fn new() -> (r: TSGPath)
        ensures
            r@ == PathView::empty(),
    {
        let r = TSGPath {
            nodes: Vec::new(),
            edges: Vec::new(),
            attributes: Vec::new(),
            id: None,
            graph: None,
        };
        proof {
            assert(r@.nodes =~= Seq::<int>::empty());
            assert(r@.edges =~= Seq::<int>::empty());
            assert(r@.attributes =~= Seq::<AttributeView>::empty());
        }
        r
    }

    /// The index of the section of the path, to read or to set.
    pub fn graph_mut(&mut self) -> (r: &mut Option<usize>)
        ensures
            *r == old(self).graph,
            *final(self) == (TSGPath { graph: *final(r), ..*old(self) }),
    {
        &mut self.graph
    }

    /// The index of the section of the path, if known.
    pub fn graph(&self) -> (r: Option<usize>)
        ensures
            r == self@.graph,
    {
        self.graph
    }

    /// Sets the index of the section of the path.
    pub fn set_graph(&mut self, graph: usize)
        ensures
            final(self)@ == (PathView { graph: Some(graph), ..old(self)@ }),
    {
        self.graph = Some(graph);
    }

    /// The index of the section of the path, if known.
    pub fn get_graph(&self) -> (r: Option<usize>)
        ensures
            r == self@.graph,
    {
        self.graph
    }

    /// Appends a node to the path.
    pub fn add_node(&mut self, node: usize)
        ensures
            final(self)@ == (PathView { nodes: old(self)@.nodes.push(node as int), ..old(self)@ }),
    {
        self.nodes.push(node);
        proof {
            assert(self@.nodes =~= old(self)@.nodes.push(node as int));
        }
    }

    /// Appends an edge to the path.
    pub fn add_edge(&mut self, edge: usize)
        ensures
            final(self)@ == (PathView { edges: old(self)@.edges.push(edge as int), ..old(self)@ }),
    {
        self.edges.push(edge);
        proof {
            assert(self@.edges =~= old(self)@.edges.push(edge as int));
        }
    }

    /// The number of nodes.
    pub fn node_count(&self) -> (r: usize)
        ensures
            r == self@.nodes.len(),
    {
        self.nodes.len()
    }

    /// The number of edges.
    pub fn edge_count(&self) -> (r: usize)
        ensures
            r == self@.edges.len(),
    {
        self.edges.len()
    }

    /// Tells whether the path has no node.
    pub fn is_empty(&self) -> (r: bool)
        ensures
            r == (self@.nodes.len() == 0),
    {
        self.nodes.len() == 0
    }

    /// Gives the path a name.
    pub fn set_id(&mut self, id: &[u8])
        ensures
            final(self)@ == (PathView { id: Some(id@), ..old(self)@ }),
    {
        self.id = Some(to_vec(id));
    }

    /// The name given to the path, if any.
    pub fn get_id(&self) -> (r: Option<&Vec<u8>>)
        ensures
            match r {
                Some(s) => self@.id == Some(s@),
                None => self@.id.is_none(),
            },
    {
        self.id.as_ref()
    }

    /// Checks the shape of the path: it is empty, or has one node more than
    /// it has edges.
    pub fn validate(&self) -> (r: Result<(), PathError>)
        ensures
            match r {
                Ok(_) => self@.well_shaped(),
                Err(e) => !self@.well_shaped() && e == PathError::StructuralInvariantViolation,
            },
    {
        let n = self.nodes.len();
        let m = self.edges.len();
        if (n == 0 && m == 0) || (n > 0 && n - 1 == m) {
            Ok(())
        } else {
            Err(PathError::StructuralInvariantViolation)
        }
    }

    /// The identity of the path in the section `section`: sixteen characters
    /// that depend on the ids of its nodes alone.
    pub fn id(&self, section: &GraphSection) -> (r: Result<Vec<u8>, PathError>)
        ensures
            match r {
                Ok(v) => path_identity(section@, self@.nodes) == Ok::<Seq<u8>, PathError>(v@)
                    && v@.len() == 16,
                Err(e) => path_identity(section@, self@.nodes) == Err::<Seq<u8>, PathError>(e),
            },
    {
        if self.nodes.len() == 0 {
            return Err(PathError::EmptyPath);
        }
        let bad = find_outside(&self.nodes, section.node_count());
        if bad < self.nodes.len() {
            assert(self@.nodes[bad as int] == self.nodes@[bad as int]);
            return Err(PathError::NodeNotFound { index: self.nodes[bad] });
        }
        let ghost ids = ids_along(section@, self@.nodes);
        let nodes = section.nodes();
        let mut text: Vec<u8> = Vec::new();
        let mut i: usize = 0;
        proof {
            lemma_first_outside(self@.nodes, section@.nodes.len() as int);
            assert(ids.take(0) =~= Seq::<Seq<u8>>::empty());
        }
        while i < self.nodes.len()
            invariant
                i <= self.nodes.len(),
                ids == ids_along(section@, self@.nodes),
                crate::section::node_views(nodes@) == section@.nodes,
                forall|k: int|
                    0 <= k < self@.nodes.len() ==> 0 <= #[trigger] self@.nodes[k]
                        < section@.nodes.len(),
                text@ == join(ids.take(i as int), 45),
            decreases self.nodes.len() - i,
        {
            if i > 0 {
                text.push(DASH);
            }
            assert(self@.nodes[i as int] == self.nodes@[i as int]);
            let node = &nodes[self.nodes[i]];
            append(&mut text, node.id.as_slice());
            proof {
                let t = ids.take(i + 1);
                assert(t.drop_last() =~= ids.take(i as int));
                assert(crate::section::node_views(nodes@)[self.nodes@[i as int] as int] == node@);
                assert(t.last() == node@.id);
                assert(text@ =~= join(t, 45));
            }
            i += 1;
        }
        proof {
            assert(ids.take(self.nodes.len() as int) =~= ids);
        }
        Ok(to_hash_identifier(text.as_slice()))
    }
}

} // verus!
