//! Walks through a section, and the enumeration of its source-to-sink
//! paths, as mathematics.

use crate::graph::SectionView;
use vstd::prelude::*;

verus! {

/// A walk: the nodes it visits, and the edges it takes between them.
pub struct Walk {
    pub nodes: Seq<int>,
    pub edges: Seq<int>,
}

/// The number of nodes below `n` that `visited` does not hold.
pub open spec fn unvisited(n: nat, visited: Seq<int>) -> nat
    decreases n,
{
    if n == 0 {
        0
    } else {
        unvisited((n - 1) as nat, visited) + (if visited.contains(n - 1) {
            0nat
        } else {
            1nat
        })
    }
}

/// The walk `w` with one more edge and the node it leads to.
pub open spec fn extended(w: Walk, edge: int, node: int) -> Walk {
    Walk { nodes: w.nodes.push(node), edges: w.edges.push(edge) }
}

/// The node to which the `k`-th edge that leaves the last node of `nodes`
/// leads.
pub open spec fn branch_target(g: SectionView, nodes: Seq<int>, k: int) -> int {
    g.targets[g.out_edges(nodes.last())[k]]
}

/// True when a walk along `nodes` goes on through the `k`-th edge that
/// leaves its last node: the edge leads to a node of the graph that the walk
/// has not visited, and no earlier edge from the same node leads there.
pub open spec fn takes(g: SectionView, nodes: Seq<int>, k: int) -> bool {
    let t = branch_target(g, nodes, k);
    &&& 0 <= t < g.nodes.len()
    &&& !nodes.contains(t)
    &&& forall|j: int| 0 <= j < k ==> #[trigger] branch_target(g, nodes, j) != t
}

/// One more visited node leaves one node less to visit.
pub proof fn lemma_unvisited_push(n: nat, visited: Seq<int>, t: int)
    requires
        0 <= t < n,
        !visited.contains(t),
    ensures
        unvisited(n, visited.push(t)) < unvisited(n, visited),
    decreases n,
{
    let more = visited.push(t);
    assert(more[visited.len() as int] == t);
    assert(more.contains(t));
    if n - 1 == t {
        lemma_unvisited_more((n - 1) as nat, visited, t);
    } else {
        lemma_unvisited_push((n - 1) as nat, visited, t);
        if visited.contains(n - 1) {
            let i = choose|i: int| 0 <= i < visited.len() && visited[i] == n - 1;
            assert(more[i] == n - 1);
        }
        if more.contains(n - 1) {
            let i = choose|i: int| 0 <= i < more.len() && more[i] == n - 1;
            assert(visited[i] == n - 1);
        }
    }
}

/// One more visited node leaves no more nodes to visit.
pub proof fn lemma_unvisited_more(n: nat, visited: Seq<int>, t: int)
    ensures
        unvisited(n, visited.push(t)) <= unvisited(n, visited),
    decreases n,
{
    if n > 0 {
        lemma_unvisited_more((n - 1) as nat, visited, t);
        let more = visited.push(t);
        if visited.contains(n - 1) {
            let i = choose|i: int| 0 <= i < visited.len() && visited[i] == n - 1;
            assert(more[i] == n - 1);
        }
    }
}

/// The paths that extend the walk `w`, in the order of a depth-first
/// search: `w` itself if it ends at a sink, then the paths through each
/// edge that leaves its last node, in the order of those edges.
pub open spec fn walks_from(g: SectionView, w: Walk) -> Seq<Walk>
    decreases unvisited(g.nodes.len(), w.nodes), 1int, 0int,
{
    (if g.is_sink(w.nodes.last()) {
        seq![w]
    } else {
        Seq::empty()
    }) + branches(g, w, 0)
}

/// The paths that extend the walk `w` through the `k`-th edge that leaves
/// its last node, or through a later one.
pub open spec fn branches(g: SectionView, w: Walk, k: int) -> Seq<Walk>
    decreases unvisited(g.nodes.len(), w.nodes), 0int, g.out_edges(w.nodes.last()).len() - k,
{
    let out = g.out_edges(w.nodes.last());
    if 0 <= k < out.len() {
        (if takes(g, w.nodes, k) {
            proof {
                lemma_unvisited_push(g.nodes.len(), w.nodes, branch_target(g, w.nodes, k));
            }
            walks_from(g, extended(w, out[k], branch_target(g, w.nodes, k)))
        } else {
            Seq::empty()
        }) + branches(g, w, k + 1)
    } else {
        Seq::empty()
    }
}

/// The walk that stands at the node `v` and has taken no edge.
pub open spec fn start_at(v: int) -> Walk {
    Walk { nodes: seq![v], edges: Seq::empty() }
}

/// The paths that start at a source below `k`, sources in ascending order.
pub open spec fn paths_below(g: SectionView, k: int) -> Seq<Walk>
    decreases k,
{
    if k <= 0 {
        Seq::empty()
    } else {
        paths_below(g, k - 1) + (if g.is_source(k - 1) {
            walks_from(g, start_at(k - 1))
        } else {
            Seq::empty()
        })
    }
}

/// Every path of the section from a source to a sink: for each source in
/// the order of the nodes, the paths found by a depth-first search that
/// follows edges in the order in which they were added, never visits a node
/// twice, and takes only the first of several edges between two nodes.
pub open spec fn all_paths(g: SectionView) -> Seq<Walk> {
    paths_below(g, g.nodes.len() as int)
}

} // verus!
