//! Views across all the sections of a collection: every node, every edge,
//! every path.

use crate::collection::{section_views, CollectionView, TSGraph};
use crate::edge::{EdgeData, EdgeView};
use crate::node::{NodeData, NodeView};
use crate::path::{path_views, PathView, TSGPath};
use crate::section::{edge_views, node_views};
use crate::traverse::{plain_path, plain_paths};
use crate::walk::{all_paths, Walk};
use vstd::prelude::*;

verus! {

/// The nodes of the first `k` sections, section after section.
pub open spec fn nodes_below(c: CollectionView, k: int) -> Seq<NodeView>
    decreases k,
{
    if k <= 0 {
        Seq::empty()
    } else {
        nodes_below(c, k - 1) + c.sections[k - 1].nodes
    }
}

/// The edges of the first `k` sections, section after section.
pub open spec fn edges_below(c: CollectionView, k: int) -> Seq<EdgeView>
    decreases k,
{
    if k <= 0 {
        Seq::empty()
    } else {
        edges_below(c, k - 1) + c.sections[k - 1].edges
    }
}

/// The paths along the walks `ws`, each marked as a path of the section at
/// the index `section`.
pub open spec fn marked(ws: Seq<Walk>, section: usize) -> Seq<PathView> {
    Seq::new(ws.len(), |i: int| PathView { graph: Some(section), ..plain_path(ws[i]) })
}

/// The paths of the first `k` sections, section after section, each marked
/// with the index of its section.
pub open spec fn paths_below_section(c: CollectionView, k: int) -> Seq<PathView>
    decreases k,
{
    if k <= 0 {
        Seq::empty()
    } else {
        paths_below_section(c, k - 1) + marked(all_paths(c.sections[k - 1]), (k - 1) as usize)
    }
}

/// What the nodes behind a sequence of references hold.
pub open spec fn node_ref_views(v: Seq<&NodeData>) -> Seq<NodeView> {
    Seq::new(v.len(), |i: int| v[i]@)
}

/// What the edges behind a sequence of references hold.
pub open spec fn edge_ref_views(v: Seq<&EdgeData>) -> Seq<EdgeView> {
    Seq::new(v.len(), |i: int| v[i]@)
}

impl TSGraph {
    /// The nodes of all sections, section after section, each section's in
    /// the order in which they were added.
    pub fn all_nodes(&self) -> (r: Vec<&NodeData>)
        ensures
            node_ref_views(r@) == nodes_below(self@, self@.sections.len() as int),
    {
        let graphs = self.graphs();
        let mut out: Vec<&NodeData> = Vec::new();
        let mut k: usize = 0;
        proof {
            assert(node_ref_views(out@) =~= nodes_below(self@, 0));
        }
        while k < graphs.len()
            invariant
                k <= graphs.len(),
                section_views(graphs@) == self@.sections,
                node_ref_views(out@) == nodes_below(self@, k as int),
            decreases graphs.len() - k,
        {
            let nodes = graphs[k].nodes();
            let ghost stem = node_ref_views(out@);
            let mut i: usize = 0;
            proof {
                assert(section_views(graphs@)[k as int] == graphs@[k as int]@);
                assert(node_ref_views(out@) =~= stem + node_views(nodes@).take(0));
            }
            while i < nodes.len()
                invariant
                    i <= nodes.len(),
                    node_ref_views(out@) == stem + node_views(nodes@).take(i as int),
                decreases nodes.len() - i,
            {
                let ghost prev = node_ref_views(out@);
                out.push(&nodes[i]);
                proof {
                    assert(node_ref_views(out@) =~= prev.push(nodes@[i as int]@));
                    assert(node_views(nodes@).take(i + 1) =~= node_views(nodes@).take(
                        i as int,
                    ).push(nodes@[i as int]@));
                    assert(node_ref_views(out@) =~= stem + node_views(nodes@).take(i + 1));
                }
                i += 1;
            }
            proof {
                assert(node_views(nodes@).take(nodes.len() as int) =~= node_views(nodes@));
            }
            k += 1;
        }
        out
    }

    /// The edges of all sections, section after section, each section's in
    /// the order in which they were added.
    pub fn all_edges(&self) -> (r: Vec<&EdgeData>)
        ensures
            edge_ref_views(r@) == edges_below(self@, self@.sections.len() as int),
    {
        let graphs = self.graphs();
        let mut out: Vec<&EdgeData> = Vec::new();
        let mut k: usize = 0;
        proof {
            assert(edge_ref_views(out@) =~= edges_below(self@, 0));
        }
        while k < graphs.len()
            invariant
                k <= graphs.len(),
                section_views(graphs@) == self@.sections,
                edge_ref_views(out@) == edges_below(self@, k as int),
            decreases graphs.len() - k,
        {
            let edges = graphs[k].edges();
            let ghost stem = edge_ref_views(out@);
            let mut i: usize = 0;
            proof {
                assert(section_views(graphs@)[k as int] == graphs@[k as int]@);
                assert(edge_ref_views(out@) =~= stem + edge_views(edges@).take(0));
            }
            while i < edges.len()
                invariant
                    i <= edges.len(),
                    edge_ref_views(out@) == stem + edge_views(edges@).take(i as int),
                decreases edges.len() - i,
            {
                let ghost prev = edge_ref_views(out@);
                out.push(&edges[i]);
                proof {
                    assert(edge_ref_views(out@) =~= prev.push(edges@[i as int]@));
                    assert(edge_views(edges@).take(i + 1) =~= edge_views(edges@).take(
                        i as int,
                    ).push(edges@[i as int]@));
                    assert(edge_ref_views(out@) =~= stem + edge_views(edges@).take(i + 1));
                }
                i += 1;
            }
            proof {
                assert(edge_views(edges@).take(edges.len() as int) =~= edge_views(edges@));
            }
            k += 1;
        }
        out
    }

    /// The paths of all sections, section after section, each marked with
    /// the index of its section.
    pub fn traverse_all_graphs(&self) -> (r: Vec<TSGPath>)
        requires
            self.wf(),
        ensures
            path_views(r@) == paths_below_section(self@, self@.sections.len() as int),
    {
        let graphs = self.graphs();
        let mut out: Vec<TSGPath> = Vec::new();
        let mut k: usize = 0;
        proof {
            assert(path_views(out@) =~= paths_below_section(self@, 0));
        }
        while k < graphs.len()
            invariant
                k <= graphs.len(),
                section_views(graphs@) == self@.sections,
                forall|i: int| 0 <= i < graphs.len() ==> (#[trigger] graphs@[i]).wf(),
                path_views(out@) == paths_below_section(self@, k as int),
            decreases graphs.len() - k,
        {
            let ghost ws = all_paths(graphs@[k as int]@);
            let mut paths = graphs[k].enumerate_paths();
            let mut i: usize = 0;
            proof {
                assert(section_views(graphs@)[k as int] == graphs@[k as int]@);
                assert(path_views(paths@).len() == paths.len());
                assert(plain_paths(ws).len() == ws.len());
                assert forall|j: int| 0 <= j < paths.len() implies (#[trigger] paths@[j])@
                    == plain_path(ws[j]) by {
                    assert(path_views(paths@)[j] == plain_paths(ws)[j]);
                }
            }
            while i < paths.len()
                invariant
                    i <= paths.len(),
                    paths.len() == ws.len(),
                    forall|j: int|
                        0 <= j < i ==> (#[trigger] paths@[j])@ == (PathView {
                            graph: Some(k),
                            ..plain_path(ws[j])
                        }),
                    forall|j: int| i <= j < paths.len() ==> (#[trigger] paths@[j])@ == plain_path(ws[j]),
                decreases paths.len() - i,
            {
                paths[i].set_graph(k);
                i += 1;
            }
            let ghost stem = path_views(out@);
            proof {
                assert(path_views(paths@) =~= marked(ws, k));
            }
            out.append(&mut paths);
            proof {
                assert(path_views(out@) =~= stem + marked(ws, k));
            }
            k += 1;
        }
        out
    }
}

} // verus!
