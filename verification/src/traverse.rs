//! The enumeration of the source-to-sink paths of a section: a depth-first
//! search that never visits a node twice.

use crate::attribute::AttributeView;
use crate::graph::lemma_outgoing;
use crate::lookup::ints;
use crate::path::{path_views, PathView, TSGPath};
use crate::section::GraphSection;
use crate::walk::{
    all_paths, branch_target, branches, extended, lemma_unvisited_push, paths_below, start_at,
    takes, unvisited, walks_from, Walk,
};
use crate::walk_proofs::{
    is_path, is_route, lemma_all_paths_are_paths, lemma_all_paths_complete,
    lemma_all_paths_distinct,
};
use vstd::prelude::*;

verus! {

/// The path that holds the nodes and edges of `w` and nothing more.
pub open spec fn plain_path(w: Walk) -> PathView {
    PathView { nodes: w.nodes, edges: w.edges, attributes: Seq::empty(), id: None, graph: None }
}

/// The plain paths of the walks of `ws`.
pub open spec fn plain_paths(ws: Seq<Walk>) -> Seq<PathView> {
    Seq::new(ws.len(), |i: int| plain_path(ws[i]))
}

/// The plain paths of two lists of walks, one after the other.
pub proof fn lemma_plain_paths_add(a: Seq<Walk>, b: Seq<Walk>)
    ensures
        plain_paths(a + b) == plain_paths(a) + plain_paths(b),
{
    assert(plain_paths(a + b) =~= plain_paths(a) + plain_paths(b));
}

/// Copies a list of indices.
fn copy_indices(v: &Vec<usize>) -> (r: Vec<usize>)
    ensures
        r@ == v@,
{
    let mut out: Vec<usize> = Vec::new();
    let mut i: usize = 0;
    while i < v.len()
        invariant
            i <= v.len(),
            out@ == v@.take(i as int),
        decreases v.len() - i,
    {
        out.push(v[i]);
        assert(v@.take(i + 1) =~= v@.take(i as int).push(v@[i as int]));
        i += 1;
    }
    assert(v@.take(v.len() as int) =~= v@);
    out
}

/// The path that holds the given nodes and edges and nothing more.
fn plain(nodes: &Vec<usize>, edges: &Vec<usize>) -> (r: TSGPath)
    ensures
        r@ == plain_path(Walk { nodes: ints(nodes@), edges: ints(edges@) }),
{
    let r = TSGPath {
        nodes: copy_indices(nodes),
        edges: copy_indices(edges),
        attributes: Vec::new(),
        id: None,
        graph: None,
    };
    proof {
        assert(r@.attributes =~= Seq::<AttributeView>::empty());
    }
    r
}

/// Tells whether none of the first `k` edges of `outs` leads to `target`.
fn leads_first(g: &GraphSection, outs: &Vec<usize>, k: usize, target: usize) -> (r: bool)
    requires
        g.wf(),
        k <= outs.len(),
        forall|j: int| 0 <= j < outs.len() ==> #[trigger] outs@[j] < g@.edges.len(),
    ensures
        r == (forall|j: int| 0 <= j < k ==> g@.targets[#[trigger] ints(outs@)[j]] != target),
{
    let mut j: usize = 0;
    while j < k
        invariant
            j <= k <= outs.len(),
            g.wf(),
            forall|i: int| 0 <= i < outs.len() ==> #[trigger] outs@[i] < g@.edges.len(),
            forall|i: int| 0 <= i < j ==> g@.targets[#[trigger] ints(outs@)[i]] != target,
        decreases k - j,
    {
        assert(ints(outs@)[j as int] == outs@[j as int]);
        if g.edge_target(outs[j]) == target {
            return false;
        }
        j += 1;
    }
    true
}

/// Adds to `out` the paths that extend the walk along `nodes` and `edges`.
/// `visited` tells for each node whether the walk holds it. The walk and
/// `visited` are given back as they were.
fn walk_from(
    g: &GraphSection,
    nodes: &mut Vec<usize>,
    edges: &mut Vec<usize>,
    visited: &mut Vec<bool>,
    out: &mut Vec<TSGPath>,
)
    requires
        g.wf(),
        old(nodes).len() > 0,
        forall|i: int| 0 <= i < old(nodes).len() ==> #[trigger] old(nodes)@[i] < g@.nodes.len(),
        old(visited).len() == g@.nodes.len(),
        forall|v: int|
            0 <= v < old(visited).len() ==> #[trigger] old(visited)@[v] == ints(
                old(nodes)@,
            ).contains(v),
    ensures
        final(nodes)@ == old(nodes)@,
        final(edges)@ == old(edges)@,
        final(visited)@ == old(visited)@,
        path_views(final(out)@) == path_views(old(out)@) + plain_paths(
            walks_from(g@, Walk { nodes: ints(old(nodes)@), edges: ints(old(edges)@) }),
        ),
    decreases unvisited(g@.nodes.len(), ints(old(nodes)@)),
{
    let ghost w = Walk { nodes: ints(nodes@), edges: ints(edges@) };
    let ghost before = path_views(out@);
    let last = nodes[nodes.len() - 1];
    assert(w.nodes.last() == last);
    let ghost here = if g@.is_sink(last as int) {
        seq![w]
    } else {
        Seq::<Walk>::empty()
    };
    if g.node_is_sink(last) {
        let p = plain(nodes, edges);
        out.push(p);
    }
    proof {
        assert(path_views(out@) =~= before + plain_paths(here));
        lemma_plain_paths_add(here, branches(g@, w, 0));
        g.lemma_valid();
        lemma_outgoing(g@.sources, last as int);
    }
    let outs = g.out_edges(last);
    assert forall|j: int| 0 <= j < outs.len() implies #[trigger] outs@[j] < g@.edges.len() by {
        assert(ints(outs@)[j] == outs@[j]);
    }
    let mut k: usize = 0;
    while k < outs.len()
        invariant
            k <= outs.len(),
            g.wf(),
            g@.valid(),
            nodes@ == old(nodes)@,
            edges@ == old(edges)@,
            visited@ == old(visited)@,
            w == (Walk { nodes: ints(old(nodes)@), edges: ints(old(edges)@) }),
            nodes.len() > 0,
            last == nodes@[nodes.len() - 1],
            ints(outs@) == g@.out_edges(last as int),
            forall|j: int| 0 <= j < outs.len() ==> #[trigger] outs@[j] < g@.edges.len(),
            forall|i: int| 0 <= i < nodes.len() ==> #[trigger] nodes@[i] < g@.nodes.len(),
            visited.len() == g@.nodes.len(),
            forall|v: int|
                0 <= v < visited.len() ==> #[trigger] visited@[v] == ints(nodes@).contains(v),
            path_views(out@) + plain_paths(branches(g@, w, k as int)) == path_views(old(out)@)
                + plain_paths(walks_from(g@, w)),
        decreases outs.len() - k,
    {
        let edge = outs[k];
        let target = g.edge_target(edge);
        let ghost stem = path_views(out@);
        proof {
            assert(ints(outs@)[k as int] == edge);
            assert(w.nodes.last() == last);
            assert(branch_target(g@, w.nodes, k as int) == target);
            assert forall|j: int| 0 <= j < k implies branch_target(g@, w.nodes, j)
                == g@.targets[#[trigger] ints(outs@)[j]] by {}
        }
        let fresh = !visited[target] && leads_first(g, outs, k, target);
        proof {
            assert(visited@[target as int] == ints(nodes@).contains(target as int));
            if fresh {
                assert forall|j: int| 0 <= j < k implies #[trigger] branch_target(g@, w.nodes, j)
                    != target by {
                    assert(g@.targets[ints(outs@)[j]] != target);
                }
            } else if !visited[target as int] {
                let j = choose|j: int|
                    0 <= j < k && !(g@.targets[#[trigger] ints(outs@)[j]] != target);
                assert(branch_target(g@, w.nodes, j) == target);
            }
            assert(fresh == takes(g@, w.nodes, k as int));
        }
        if fresh {
            let ghost next = extended(w, edge as int, target as int);
            nodes.push(target);
            edges.push(edge);
            visited[target] = true;
            proof {
                assert(ints(nodes@) =~= next.nodes);
                assert(ints(edges@) =~= next.edges);
                lemma_unvisited_push(g@.nodes.len(), w.nodes, target as int);
                assert forall|v: int| 0 <= v < visited.len() implies #[trigger] visited@[v]
                    == ints(nodes@).contains(v) by {
                    if v == target {
                        assert(ints(nodes@)[nodes.len() - 1] == v);
                    } else {
                        if w.nodes.contains(v) {
                            let i = choose|i: int| 0 <= i < w.nodes.len() && w.nodes[i] == v;
                            assert(ints(nodes@)[i] == v);
                        }
                        if ints(nodes@).contains(v) {
                            let i = choose|i: int|
                                0 <= i < ints(nodes@).len() && ints(nodes@)[i] == v;
                            assert(w.nodes[i] == v);
                        }
                    }
                }
            }
            walk_from(g, nodes, edges, visited, out);
            nodes.pop();
            edges.pop();
            visited[target] = false;
            proof {
                assert(nodes@ =~= old(nodes)@);
                assert(edges@ =~= old(edges)@);
                assert(visited@ =~= old(visited)@);
                assert(path_views(out@) == stem + plain_paths(walks_from(g@, next)));
            }
        }
        proof {
            let first = if takes(g@, w.nodes, k as int) {
                walks_from(g@, extended(w, edge as int, target as int))
            } else {
                Seq::<Walk>::empty()
            };
            let rest = branches(g@, w, k + 1);
            assert(branches(g@, w, k as int) == first + rest);
            lemma_plain_paths_add(first, rest);
            assert(path_views(out@) =~= stem + plain_paths(first));
            assert(stem + (plain_paths(first) + plain_paths(rest)) =~= (stem + plain_paths(first))
                + plain_paths(rest));
        }
        k += 1;
    }
    proof {
        assert(plain_paths(branches(g@, w, k as int)) =~= Seq::<PathView>::empty());
        assert(path_views(out@) + Seq::<PathView>::empty() =~= path_views(out@));
    }
}

impl GraphSection {
    /// Every path of the section from a source to a sink: for each source,
    /// in the order of the nodes, the paths found by a depth-first search that
    /// follows edges in the order in which they were added. A branch that
    /// would come back to a node of its own walk is given up, and so is one
    /// that ends at a node that is no sink, so the search ends on every graph.
    /// The paths hold nodes and edges only.
    pub fn enumerate_paths(&self) -> (r: Vec<TSGPath>)
        requires
            self.wf(),
        ensures
            path_views(r@) == plain_paths(all_paths(self@)),
            forall|i: int| 0 <= i < r.len() ==> is_path(self@, (#[trigger] r@[i])@.walk()),
            forall|i: int, j: int|
                0 <= i < j < r.len() ==> (#[trigger] r@[i])@.nodes != (#[trigger] r@[j])@.nodes,
            forall|route: Seq<int>|
                is_route(self@, route) ==> exists|i: int|
                    0 <= i < r.len() && (#[trigger] r@[i])@.nodes == route,
    {
        let n = self.node_count();
        let mut out: Vec<TSGPath> = Vec::new();
        let mut visited: Vec<bool> = Vec::new();
        let mut i: usize = 0;
        while i < n
            invariant
                i <= n,
                visited.len() == i,
                forall|v: int| 0 <= v < i ==> !(#[trigger] visited@[v]),
            decreases n - i,
        {
            visited.push(false);
            i += 1;
        }
        let mut v: usize = 0;
        proof {
            assert(path_views(out@) =~= plain_paths(paths_below(self@, 0)));
        }
        while v < n
            invariant
                v <= n,
                n == self@.nodes.len(),
                self.wf(),
                visited.len() == n,
                forall|u: int| 0 <= u < n ==> !(#[trigger] visited@[u]),
                path_views(out@) == plain_paths(paths_below(self@, v as int)),
            decreases n - v,
        {
            let ghost stem = path_views(out@);
            if self.node_is_source(v) {
                let mut nodes: Vec<usize> = Vec::new();
                let mut edges: Vec<usize> = Vec::new();
                nodes.push(v);
                visited[v] = true;
                proof {
                    assert(ints(nodes@) =~= start_at(v as int).nodes);
                    assert(ints(edges@) =~= start_at(v as int).edges);
                    assert forall|u: int| 0 <= u < visited.len() implies #[trigger] visited@[u]
                        == ints(nodes@).contains(u) by {
                        if u == v {
                            assert(ints(nodes@)[0] == u);
                        }
                    }
                }
                walk_from(self, &mut nodes, &mut edges, &mut visited, &mut out);
                visited[v] = false;
            }
            proof {
                let here = if self@.is_source(v as int) {
                    walks_from(self@, start_at(v as int))
                } else {
                    Seq::<Walk>::empty()
                };
                lemma_plain_paths_add(paths_below(self@, v as int), here);
                assert(path_views(out@) =~= stem + plain_paths(here));
            }
            v += 1;
        }
        proof {
            let g = self@;
            let ws = all_paths(g);
            self.lemma_valid();
            lemma_all_paths_are_paths(g);
            lemma_all_paths_distinct(g);
            assert(path_views(out@).len() == out.len());
            assert(plain_paths(ws).len() == ws.len());
            assert forall|i: int| 0 <= i < out.len() implies (#[trigger] out@[i])@.walk()
                == ws[i] by {
                assert(path_views(out@)[i] == plain_paths(ws)[i]);
            }
            assert forall|route: Seq<int>| is_route(g, route) implies exists|i: int|
                0 <= i < out.len() && (#[trigger] out@[i])@.nodes == route by {
                lemma_all_paths_complete(g, route);
                let i = choose|i: int| 0 <= i < ws.len() && (#[trigger] ws[i]).nodes == route;
                assert(out@[i]@.walk() == ws[i]);
            }
        }
        out
    }
}

} // verus!
