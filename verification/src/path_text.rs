//! The line of a path: `P`, its identity, and the ids of its nodes and
//! edges in the order in which the path goes through them.

use crate::graph::SectionView;
use crate::gtf::lit;
use crate::path::{
    find_outside, first_outside, identity, lemma_first_outside, path_identity, PathError,
    PathView, TSGPath,
};
use crate::scan::{append, to_vec};
use crate::section::{edge_views, node_views, GraphSection};
use vstd::prelude::*;

verus! {

/// The text of the `i`-th node of a path, after the text of the edge that
/// leads to it if it is not the first: each is a tab, an id and `+`.
pub open spec fn step_text(g: SectionView, p: PathView, i: int) -> Seq<u8> {
    (if i > 0 {
        lit("\t") + g.edges[p.edges[i - 1]].id + lit("+")
    } else {
        Seq::empty()
    }) + (lit("\t") + g.nodes[p.nodes[i]].id + lit("+"))
}

/// The texts of the first `k` nodes of a path and of the edges between
/// them.
pub open spec fn steps_text(g: SectionView, p: PathView, k: int) -> Seq<u8>
    decreases k,
{
    if k <= 0 {
        Seq::empty()
    } else {
        steps_text(g, p, k - 1) + step_text(g, p, k - 1)
    }
}

/// The line of the path `p` in the section `g`, or why it has none: the
/// path is empty; the section lacks one of its nodes; it does not have one
/// node more than it has edges; or the section lacks one of its edges.
pub open spec fn path_text(g: SectionView, p: PathView) -> Result<Seq<u8>, PathError> {
    let bad = first_outside(p.edges, g.edges.len() as int);
    match path_identity(g, p.nodes) {
        Err(e) => Err(e),
        Ok(id) => if p.nodes.len() != p.edges.len() + 1 {
            Err(PathError::StructuralInvariantViolation)
        } else if bad < p.edges.len() {
            Err(PathError::EdgeNotFound { index: p.edges[bad] as usize })
        } else {
            Ok(lit("P\t") + id + steps_text(g, p, p.nodes.len() as int))
        },
    }
}

impl TSGPath {
    /// The line of the path in the section `section`.
    pub fn to_bytes(&self, section: &GraphSection) -> (r: Result<Vec<u8>, PathError>)
        ensures
            match r {
                Ok(v) => path_text(section@, self@) == Ok::<Seq<u8>, PathError>(v@),
                Err(e) => path_text(section@, self@) == Err::<Seq<u8>, PathError>(e),
            },
    {
        let id = match self.id(section) {
            Ok(v) => v,
            Err(e) => {
                return Err(e);
            },
        };
        if self.nodes.len() - 1 != self.edges.len() {
            return Err(PathError::StructuralInvariantViolation);
        }
        let bad = find_outside(&self.edges, section.edge_count());
        if bad < self.edges.len() {
            assert(self@.edges[bad as int] == self.edges@[bad as int]);
            return Err(PathError::EdgeNotFound { index: self.edges[bad] });
        }
        let nodes = section.nodes();
        let edges = section.edges();
        let mut out = to_vec("P\t".as_bytes());
        append(&mut out, id.as_slice());
        let ghost head = out@;
        let mut i: usize = 0;
        proof {
            lemma_first_outside(self@.nodes, section@.nodes.len() as int);
            lemma_first_outside(self@.edges, section@.edges.len() as int);
            assert(out@ =~= head + steps_text(section@, self@, 0));
        }
        while i < self.nodes.len()
            invariant
                i <= self.nodes.len(),
                self.nodes.len() == self.edges.len() + 1,
                node_views(nodes@) == section@.nodes,
                edge_views(edges@) == section@.edges,
                forall|k: int|
                    0 <= k < self@.nodes.len() ==> 0 <= #[trigger] self@.nodes[k]
                        < section@.nodes.len(),
                forall|k: int|
                    0 <= k < self@.edges.len() ==> 0 <= #[trigger] self@.edges[k]
                        < section@.edges.len(),
                out@ == head + steps_text(section@, self@, i as int),
            decreases self.nodes.len() - i,
        {
            let mut step: Vec<u8> = Vec::new();
            if i > 0 {
                assert(self@.edges[i - 1] == self.edges@[i - 1]);
                let edge = &edges[self.edges[i - 1]];
                assert(edge_views(edges@)[self.edges@[i - 1] as int] == edge@);
                let mut before = to_vec("\t".as_bytes());
                append(&mut before, edge.id.as_slice());
                append(&mut before, "+".as_bytes());
                step = before;
            }
            assert(self@.nodes[i as int] == self.nodes@[i as int]);
            let node = &nodes[self.nodes[i]];
            assert(node_views(nodes@)[self.nodes@[i as int] as int] == node@);
            let mut here = to_vec("\t".as_bytes());
            append(&mut here, node.id.as_slice());
            append(&mut here, "+".as_bytes());
            append(&mut step, here.as_slice());
            proof {
                assert(step@ =~= step_text(section@, self@, i as int));
            }
            append(&mut out, step.as_slice());
            proof {
                assert(out@ =~= head + steps_text(section@, self@, i + 1));
            }
            i += 1;
        }
        Ok(out)
    }
}

} // verus!
