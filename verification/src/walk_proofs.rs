//! What the enumeration of paths gives: only paths, each path once, and
//! every path.

use crate::graph::{lemma_outgoing, SectionView};
use crate::walk::{
    all_paths, branch_target, branches, extended, paths_below, start_at, takes, unvisited,
    walks_from, Walk,
};
use vstd::prelude::*;

verus! {

/// True when `e` is the first edge from the node `a` to the node `b`.
pub open spec fn first_edge(g: SectionView, a: int, e: int, b: int) -> bool {
    &&& 0 <= e < g.edges.len()
    &&& g.sources[e] == a
    &&& g.targets[e] == b
    &&& forall|f: int| 0 <= f < e && #[trigger] g.sources[f] == a ==> g.targets[f] != b
}

/// True when `w` is a walk of the graph that visits no node twice: it has
/// one node more than it has edges, its nodes are nodes of the graph, and
/// each of its edges is the first edge from one node to the next.
pub open spec fn is_walk(g: SectionView, w: Walk) -> bool {
    &&& w.nodes.len() == w.edges.len() + 1
    &&& forall|i: int| 0 <= i < w.nodes.len() ==> 0 <= #[trigger] w.nodes[i] < g.nodes.len()
    &&& forall|i: int, j: int|
        0 <= i < j < w.nodes.len() ==> #[trigger] w.nodes[i] != #[trigger] w.nodes[j]
    &&& forall|i: int|
        0 <= i < w.edges.len() ==> first_edge(g, w.nodes[i], #[trigger] w.edges[i], w.nodes[i + 1])
}

/// True when `w` is a path: a walk from a source to a sink.
pub open spec fn is_path(g: SectionView, w: Walk) -> bool {
    is_walk(g, w) && g.is_source(w.nodes[0]) && g.is_sink(w.nodes.last())
}

/// True when `p` is a walk to a sink that starts as `w` does.
pub open spec fn continues(g: SectionView, w: Walk, p: Walk) -> bool {
    &&& is_walk(g, p)
    &&& g.is_sink(p.nodes.last())
    &&& p.nodes.len() >= w.nodes.len()
    &&& p.nodes.take(w.nodes.len() as int) == w.nodes
}

/// True when `p` continues `w` through the `k`-th edge that leaves the last
/// node of `w`, or through a later one.
pub open spec fn continues_after(g: SectionView, w: Walk, k: int, p: Walk) -> bool {
    &&& continues(g, w, p)
    &&& p.nodes.len() > w.nodes.len()
    &&& exists|j: int|
        k <= j < g.out_edges(w.nodes.last()).len() && takes(g, w.nodes, j) && p.nodes[w.nodes.len() as int]
            == #[trigger] branch_target(g, w.nodes, j)
}

/// No two walks of `paths` visit the same nodes in the same order.
pub open spec fn distinct_nodes(paths: Seq<Walk>) -> bool {
    forall|i: int, j: int|
        0 <= i < j < paths.len() ==> (#[trigger] paths[i]).nodes != (#[trigger] paths[j]).nodes
}

/// A walk that goes on through an edge it takes is a walk.
pub proof fn lemma_takes_walk(g: SectionView, w: Walk, k: int)
    requires
        g.valid(),
        is_walk(g, w),
        0 <= k < g.out_edges(w.nodes.last()).len(),
        takes(g, w.nodes, k),
    ensures
        is_walk(
            g,
            extended(w, g.out_edges(w.nodes.last())[k], branch_target(g, w.nodes, k)),
        ),
{
    let last = w.nodes.last();
    let out = g.out_edges(last);
    let e = out[k];
    let t = branch_target(g, w.nodes, k);
    let p = extended(w, e, t);
    lemma_outgoing(g.sources, last);
    assert forall|i: int| 0 <= i < p.nodes.len() implies 0 <= #[trigger] p.nodes[i]
        < g.nodes.len() by {
        if i < w.nodes.len() {
            assert(p.nodes[i] == w.nodes[i]);
        }
    }
    assert forall|i: int, j: int| 0 <= i < j < p.nodes.len() implies #[trigger] p.nodes[i]
        != #[trigger] p.nodes[j] by {
        assert(p.nodes[i] == w.nodes[i]);
        if j < w.nodes.len() {
            assert(p.nodes[j] == w.nodes[j]);
        } else {
            assert(w.nodes.contains(w.nodes[i]));
        }
    }
    assert(first_edge(g, last, e, t)) by {
        assert forall|f: int| 0 <= f < e && #[trigger] g.sources[f] == last implies g.targets[f]
            != t by {
            assert(out.contains(f));
            let j = choose|j: int| 0 <= j < out.len() && out[j] == f;
            if j >= k {
                if j > k {
                    assert(out[k] < out[j]);
                }
            }
            assert(branch_target(g, w.nodes, j) != t);
        }
    }
    assert forall|i: int| 0 <= i < p.edges.len() implies first_edge(
        g,
        p.nodes[i],
        #[trigger] p.edges[i],
        p.nodes[i + 1],
    ) by {
        if i < w.edges.len() {
            assert(p.edges[i] == w.edges[i]);
            assert(p.nodes[i] == w.nodes[i]);
            assert(p.nodes[i + 1] == w.nodes[i + 1]);
        } else {
            assert(p.nodes[i] == last);
        }
    }
}

/// Every walk found from `w` is a walk to a sink that starts as `w` does.
pub proof fn lemma_walks_from(g: SectionView, w: Walk)
    requires
        g.valid(),
        is_walk(g, w),
    ensures
        forall|i: int|
            0 <= i < walks_from(g, w).len() ==> continues(g, w, #[trigger] walks_from(g, w)[i]),
    decreases unvisited(g.nodes.len(), w.nodes), 1int, 0int,
{
    lemma_branches(g, w, 0);
    let here = if g.is_sink(w.nodes.last()) {
        seq![w]
    } else {
        Seq::<Walk>::empty()
    };
    let rest = branches(g, w, 0);
    assert forall|i: int| 0 <= i < walks_from(g, w).len() implies continues(
        g,
        w,
        #[trigger] walks_from(g, w)[i],
    ) by {
        if i < here.len() {
            assert(walks_from(g, w)[i] == w);
            assert(w.nodes.take(w.nodes.len() as int) =~= w.nodes);
        } else {
            assert(walks_from(g, w)[i] == rest[i - here.len()]);
            assert(continues_after(g, w, 0, rest[i - here.len()]));
        }
    }
}

/// Every walk found through the `k`-th edge or a later one continues `w`
/// through such an edge.
pub proof fn lemma_branches(g: SectionView, w: Walk, k: int)
    requires
        g.valid(),
        is_walk(g, w),
        0 <= k,
    ensures
        forall|i: int|
            0 <= i < branches(g, w, k).len() ==> continues_after(
                g,
                w,
                k,
                #[trigger] branches(g, w, k)[i],
            ),
    decreases unvisited(g.nodes.len(), w.nodes), 0int, g.out_edges(w.nodes.last()).len() - k,
{
    let out = g.out_edges(w.nodes.last());
    let n = w.nodes.len() as int;
    if k < out.len() {
        let t = branch_target(g, w.nodes, k);
        let next = extended(w, out[k], t);
        let first = if takes(g, w.nodes, k) {
            walks_from(g, next)
        } else {
            Seq::<Walk>::empty()
        };
        let rest = branches(g, w, k + 1);
        lemma_branches(g, w, k + 1);
        if takes(g, w.nodes, k) {
            crate::walk::lemma_unvisited_push(g.nodes.len(), w.nodes, t);
            lemma_takes_walk(g, w, k);
            lemma_walks_from(g, next);
        }
        assert forall|i: int| 0 <= i < branches(g, w, k).len() implies continues_after(
            g,
            w,
            k,
            #[trigger] branches(g, w, k)[i],
        ) by {
            let p = branches(g, w, k)[i];
            if i < first.len() {
                assert(p == first[i]);
                assert(continues(g, next, p));
                assert(next.nodes.len() == n + 1);
                assert(p.nodes.take(n + 1)[n] == t);
                assert(p.nodes.take(n) =~= p.nodes.take(n + 1).take(n));
                assert(next.nodes.take(n) =~= w.nodes);
                assert(p.nodes[n] == branch_target(g, w.nodes, k));
            } else {
                assert(p == rest[i - first.len()]);
                assert(continues_after(g, w, k + 1, p));
                let j = choose|j: int|
                    k + 1 <= j < out.len() && takes(g, w.nodes, j) && p.nodes[n]
                        == #[trigger] branch_target(g, w.nodes, j);
                assert(k <= j < out.len() && takes(g, w.nodes, j) && p.nodes[n] == branch_target(
                    g,
                    w.nodes,
                    j,
                ));
            }
        }
    }
}

/// No two walks found from `w` visit the same nodes in the same order.
pub proof fn lemma_walks_distinct(g: SectionView, w: Walk)
    requires
        g.valid(),
        is_walk(g, w),
    ensures
        distinct_nodes(walks_from(g, w)),
    decreases unvisited(g.nodes.len(), w.nodes), 1int, 0int,
{
    lemma_branches_distinct(g, w, 0);
    lemma_branches(g, w, 0);
    let here = if g.is_sink(w.nodes.last()) {
        seq![w]
    } else {
        Seq::<Walk>::empty()
    };
    let rest = branches(g, w, 0);
    let all = walks_from(g, w);
    assert forall|i: int, j: int| 0 <= i < j < all.len() implies (#[trigger] all[i]).nodes != (
    #[trigger] all[j]).nodes by {
        assert(all[j] == rest[j - here.len()]);
        assert(continues_after(g, w, 0, rest[j - here.len()]));
        if i < here.len() {
            assert(all[i] == w);
        } else {
            assert(all[i] == rest[i - here.len()]);
        }
    }
}

/// No two walks found through the `k`-th edge or a later one visit the same
/// nodes in the same order.
pub proof fn lemma_branches_distinct(g: SectionView, w: Walk, k: int)
    requires
        g.valid(),
        is_walk(g, w),
        0 <= k,
    ensures
        distinct_nodes(branches(g, w, k)),
    decreases unvisited(g.nodes.len(), w.nodes), 0int, g.out_edges(w.nodes.last()).len() - k,
{
    let out = g.out_edges(w.nodes.last());
    let n = w.nodes.len() as int;
    if k < out.len() {
        let t = branch_target(g, w.nodes, k);
        let next = extended(w, out[k], t);
        let first = if takes(g, w.nodes, k) {
            walks_from(g, next)
        } else {
            Seq::<Walk>::empty()
        };
        let rest = branches(g, w, k + 1);
        let all = branches(g, w, k);
        lemma_branches_distinct(g, w, k + 1);
        lemma_branches(g, w, k + 1);
        if takes(g, w.nodes, k) {
            crate::walk::lemma_unvisited_push(g.nodes.len(), w.nodes, t);
            lemma_takes_walk(g, w, k);
            lemma_walks_distinct(g, next);
            lemma_walks_from(g, next);
        }
        assert forall|i: int, j: int| 0 <= i < j < all.len() implies (#[trigger] all[i]).nodes != (
        #[trigger] all[j]).nodes by {
            if j < first.len() {
                assert(all[i] == first[i]);
                assert(all[j] == first[j]);
            } else if i >= first.len() {
                assert(all[i] == rest[i - first.len()]);
                assert(all[j] == rest[j - first.len()]);
            } else {
                let p = first[i];
                let q = rest[j - first.len()];
                assert(all[i] == p);
                assert(all[j] == q);
                assert(continues(g, next, p));
                assert(p.nodes.take(n + 1)[n] == t);
                assert(p.nodes[n] == t);
                assert(continues_after(g, w, k + 1, q));
                let b = choose|b: int|
                    k + 1 <= b < out.len() && takes(g, w.nodes, b) && q.nodes[n]
                        == #[trigger] branch_target(g, w.nodes, b);
                assert(branch_target(g, w.nodes, k) != branch_target(g, w.nodes, b));
                assert(p.nodes[n] != q.nodes[n]);
            }
        }
    }
}

/// The walk that stands at a node of the graph is a walk.
pub proof fn lemma_start_is_walk(g: SectionView, v: int)
    requires
        0 <= v < g.nodes.len(),
    ensures
        is_walk(g, start_at(v)),
{
}

/// The paths that start at a source below `k` are paths, start below `k`,
/// and no two of them visit the same nodes in the same order.
pub proof fn lemma_paths_below(g: SectionView, k: int)
    requires
        g.valid(),
        0 <= k <= g.nodes.len(),
    ensures
        forall|i: int|
            0 <= i < paths_below(g, k).len() ==> is_path(g, #[trigger] paths_below(g, k)[i])
                && paths_below(g, k)[i].nodes[0] < k,
        distinct_nodes(paths_below(g, k)),
    decreases k,
{
    if k > 0 {
        lemma_paths_below(g, k - 1);
        let before = paths_below(g, k - 1);
        let here = if g.is_source(k - 1) {
            walks_from(g, start_at(k - 1))
        } else {
            Seq::<Walk>::empty()
        };
        let all = paths_below(g, k);
        lemma_start_is_walk(g, k - 1);
        lemma_walks_from(g, start_at(k - 1));
        lemma_walks_distinct(g, start_at(k - 1));
        assert forall|i: int| 0 <= i < all.len() implies is_path(g, #[trigger] all[i])
            && all[i].nodes[0] < k by {
            if i < before.len() {
                assert(all[i] == before[i]);
            } else {
                let p = here[i - before.len()];
                assert(all[i] == p);
                assert(continues(g, start_at(k - 1), p));
                assert(p.nodes.take(1)[0] == k - 1);
            }
        }
        assert forall|i: int, j: int| 0 <= i < j < all.len() implies (#[trigger] all[i]).nodes != (
        #[trigger] all[j]).nodes by {
            if j < before.len() {
                assert(all[i] == before[i]);
                assert(all[j] == before[j]);
            } else {
                let q = here[j - before.len()];
                assert(all[j] == q);
                assert(continues(g, start_at(k - 1), q));
                assert(q.nodes.take(1)[0] == k - 1);
                if i < before.len() {
                    assert(all[i] == before[i]);
                    assert(before[i].nodes[0] < k - 1);
                } else {
                    assert(all[i] == here[i - before.len()]);
                }
            }
        }
    }
}

/// Every walk that the enumeration gives is a path of the graph: a walk
/// from a source to a sink that visits no node twice and takes, between two
/// nodes, the first edge that joins them.
pub proof fn lemma_all_paths_are_paths(g: SectionView)
    requires
        g.valid(),
    ensures
        forall|i: int| 0 <= i < all_paths(g).len() ==> is_path(g, #[trigger] all_paths(g)[i]),
{
    lemma_paths_below(g, g.nodes.len() as int);
}

/// The enumeration gives no sequence of nodes twice.
pub proof fn lemma_all_paths_distinct(g: SectionView)
    requires
        g.valid(),
    ensures
        distinct_nodes(all_paths(g)),
{
    lemma_paths_below(g, g.nodes.len() as int);
}

/// Every path that the enumeration gives has one node more than it has
/// edges.
pub proof fn lemma_all_paths_shape(g: SectionView)
    requires
        g.valid(),
    ensures
        forall|i: int|
            0 <= i < all_paths(g).len() ==> (#[trigger] all_paths(g)[i]).nodes.len()
                == all_paths(g)[i].edges.len() + 1,
{
    lemma_all_paths_are_paths(g);
}

/// True when an edge leads from the node `a` to the node `b`.
pub open spec fn connected(g: SectionView, a: int, b: int) -> bool {
    exists|e: int| 0 <= e < g.edges.len() && #[trigger] g.sources[e] == a && g.targets[e] == b
}

/// True when `r` is a non-empty sequence of nodes of the graph, none twice,
/// each joined to the next by an edge, that ends at a sink.
pub open spec fn is_trail(g: SectionView, r: Seq<int>) -> bool {
    &&& r.len() > 0
    &&& forall|i: int| 0 <= i < r.len() ==> 0 <= #[trigger] r[i] < g.nodes.len()
    &&& forall|i: int, j: int| 0 <= i < j < r.len() ==> #[trigger] r[i] != #[trigger] r[j]
    &&& forall|i: int| 0 <= i < r.len() - 1 ==> connected(g, #[trigger] r[i], r[i + 1])
    &&& g.is_sink(r.last())
}

/// True when `r` is the sequence of nodes of a path: a trail that starts at
/// a source.
pub open spec fn is_route(g: SectionView, r: Seq<int>) -> bool {
    is_trail(g, r) && g.is_source(r[0])
}

/// True when one of `paths` visits the nodes `r`, in that order.
pub open spec fn covers(paths: Seq<Walk>, r: Seq<int>) -> bool {
    exists|i: int| 0 <= i < paths.len() && (#[trigger] paths[i]).nodes == r
}

/// What the first of two lists covers, both together cover.
pub proof fn lemma_covers_left(a: Seq<Walk>, b: Seq<Walk>, r: Seq<int>)
    requires
        covers(a, r),
    ensures
        covers(a + b, r),
{
    let i = choose|i: int| 0 <= i < a.len() && (#[trigger] a[i]).nodes == r;
    assert((a + b)[i] == a[i]);
}

/// What the second of two lists covers, both together cover.
pub proof fn lemma_covers_right(a: Seq<Walk>, b: Seq<Walk>, r: Seq<int>)
    requires
        covers(b, r),
    ensures
        covers(a + b, r),
{
    let i = choose|i: int| 0 <= i < b.len() && (#[trigger] b[i]).nodes == r;
    assert((a + b)[a.len() + i] == b[i]);
}

/// What the edges from the `j`-th on cover, so do the edges from an earlier
/// one on.
pub proof fn lemma_branches_cover(g: SectionView, w: Walk, k: int, j: int, r: Seq<int>)
    requires
        0 <= k <= j,
        covers(branches(g, w, j), r),
    ensures
        covers(branches(g, w, k), r),
    decreases j - k,
{
    if k < j {
        lemma_branches_cover(g, w, k + 1, j, r);
        let out = g.out_edges(w.nodes.last());
        if k < out.len() {
            let first = if takes(g, w.nodes, k) {
                walks_from(g, extended(w, out[k], branch_target(g, w.nodes, k)))
            } else {
                Seq::<Walk>::empty()
            };
            lemma_covers_right(first, branches(g, w, k + 1), r);
        }
    }
}

/// Among the edges that leave the last node of `nodes`, the first that
/// leads to `t`, given that the `hi`-th does.
pub proof fn lemma_least_branch(g: SectionView, nodes: Seq<int>, t: int, hi: int) -> (j: int)
    requires
        0 <= hi < g.out_edges(nodes.last()).len(),
        branch_target(g, nodes, hi) == t,
    ensures
        0 <= j <= hi,
        branch_target(g, nodes, j) == t,
        forall|b: int| 0 <= b < j ==> #[trigger] branch_target(g, nodes, b) != t,
    decreases hi,
{
    if exists|b: int| 0 <= b < hi && #[trigger] branch_target(g, nodes, b) == t {
        let b = choose|b: int| 0 <= b < hi && #[trigger] branch_target(g, nodes, b) == t;
        lemma_least_branch(g, nodes, t, b)
    } else {
        hi
    }
}

/// The walks found from a walk along the first nodes of a trail cover the
/// trail.
pub proof fn lemma_walks_cover(g: SectionView, w: Walk, r: Seq<int>, m: int)
    requires
        g.valid(),
        is_walk(g, w),
        is_trail(g, r),
        1 <= m <= r.len(),
        w.nodes == r.take(m),
    ensures
        covers(walks_from(g, w), r),
    decreases r.len() - m,
{
    let here = if g.is_sink(w.nodes.last()) {
        seq![w]
    } else {
        Seq::<Walk>::empty()
    };
    assert(w.nodes.last() == r[m - 1]);
    if m == r.len() {
        assert(r.take(m) =~= r);
        assert(here[0] == w);
        assert(covers(here, r));
        lemma_covers_left(here, branches(g, w, 0), r);
    } else {
        let last = w.nodes.last();
        let t = r[m];
        let out = g.out_edges(last);
        assert(connected(g, r[m - 1], r[m - 1 + 1]));
        let e = choose|e: int|
            0 <= e < g.edges.len() && #[trigger] g.sources[e] == last && g.targets[e] == t;
        lemma_outgoing(g.sources, last);
        assert(out.contains(e));
        let hi = choose|hi: int| 0 <= hi < out.len() && out[hi] == e;
        let j = lemma_least_branch(g, w.nodes, t, hi);
        assert(!w.nodes.contains(t)) by {
            if w.nodes.contains(t) {
                let i = choose|i: int| 0 <= i < w.nodes.len() && w.nodes[i] == t;
                assert(r[i] == r.take(m)[i]);
                assert(r[i] != r[m]);
            }
        }
        assert(takes(g, w.nodes, j));
        let next = extended(w, out[j], t);
        lemma_takes_walk(g, w, j);
        assert(next.nodes =~= r.take(m + 1));
        lemma_walks_cover(g, next, r, m + 1);
        lemma_covers_left(walks_from(g, next), branches(g, w, j + 1), r);
        assert(covers(branches(g, w, j), r));
        lemma_branches_cover(g, w, 0, j, r);
        lemma_covers_right(here, branches(g, w, 0), r);
    }
}

/// The paths that start at a source below `k` cover every route that
/// starts below `k`.
pub proof fn lemma_paths_below_cover(g: SectionView, k: int, r: Seq<int>)
    requires
        g.valid(),
        is_route(g, r),
        r[0] < k <= g.nodes.len(),
    ensures
        covers(paths_below(g, k), r),
    decreases k,
{
    let before = paths_below(g, k - 1);
    let here = if g.is_source(k - 1) {
        walks_from(g, start_at(k - 1))
    } else {
        Seq::<Walk>::empty()
    };
    if r[0] == k - 1 {
        lemma_start_is_walk(g, k - 1);
        assert(start_at(k - 1).nodes =~= r.take(1));
        lemma_walks_cover(g, start_at(k - 1), r, 1);
        lemma_covers_right(before, here, r);
    } else {
        lemma_paths_below_cover(g, k - 1, r);
        lemma_covers_left(before, here, r);
    }
}

/// The enumeration misses no path: whenever a sequence of nodes, none
/// twice, leads from a source to a sink along edges of the graph, one of the
/// paths that the enumeration gives visits exactly those nodes in that
/// order.
pub proof fn lemma_all_paths_complete(g: SectionView, r: Seq<int>)
    requires
        g.valid(),
        is_route(g, r),
    ensures
        covers(all_paths(g), r),
{
    lemma_paths_below_cover(g, g.nodes.len() as int, r);
}

/// An edge that closes a cycle keeps no path from being found: a path is
/// among those that the enumeration gives even if some edge of the graph
/// leads back to its own source or to a node of the path.
pub proof fn lemma_cycles_drop_no_path(g: SectionView, r: Seq<int>, back: int)
    requires
        g.valid(),
        is_route(g, r),
        0 <= back < g.edges.len(),
        g.sources[back] == g.targets[back] || r.contains(g.targets[back]),
    ensures
        covers(all_paths(g), r),
{
    lemma_all_paths_complete(g, r);
}

} // verus!
