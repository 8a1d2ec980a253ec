//! The sequence of a path: the sequences of its nodes, one after another.

use crate::graph::SectionView;
use crate::lookup::{first_failing, lemma_first_failing_is};
use crate::path::{first_outside, lemma_first_outside, find_outside, PathError, TSGPath};
use crate::scan::append;
use crate::section::{node_views, GraphSection};
use vstd::prelude::*;

verus! {

/// The predicate "the node at this index has a sequence".
pub open spec fn sequenced(g: SectionView) -> spec_fn(int) -> bool {
    |v: int| g.nodes[v].sequence.is_some()
}

/// The sequences of the first `k` of the nodes `nodes`, one after another.
pub open spec fn sequences_along(g: SectionView, nodes: Seq<int>, k: int) -> Seq<u8>
    decreases k,
{
    if k <= 0 {
        Seq::empty()
    } else {
        sequences_along(g, nodes, k - 1) + g.nodes[nodes[k - 1]].sequence.unwrap()
    }
}

/// The sequence of the path along `nodes` in the section `g`, or why it has
/// none: the section lacks one of its nodes, or, failing that, one of its
/// nodes has no sequence. The refusal names the first such node.
pub open spec fn path_sequence(g: SectionView, nodes: Seq<int>) -> Result<Seq<u8>, PathError> {
    let outside = first_outside(nodes, g.nodes.len() as int);
    let bare = first_failing(nodes, sequenced(g));
    if outside < nodes.len() {
        Err(PathError::NodeNotFound { index: nodes[outside] as usize })
    } else if bare < nodes.len() {
        Err(PathError::MissingSequence { index: nodes[bare] as usize })
    } else {
        Ok(sequences_along(g, nodes, nodes.len() as int))
    }
}

impl TSGPath {
    /// The sequence of the path in the section `section`.
    pub fn to_fa(&self, section: &GraphSection) -> (r: Result<Vec<u8>, PathError>)
        ensures
            match r {
                Ok(v) => path_sequence(section@, self@.nodes) == Ok::<Seq<u8>, PathError>(v@),
                Err(e) => path_sequence(section@, self@.nodes) == Err::<Seq<u8>, PathError>(e),
            },
    {
        let bad = find_outside(&self.nodes, section.node_count());
        if bad < self.nodes.len() {
            assert(self@.nodes[bad as int] == self.nodes@[bad as int]);
            return Err(PathError::NodeNotFound { index: self.nodes[bad] });
        }
        let nodes = section.nodes();
        let mut out: Vec<u8> = Vec::new();
        let mut i: usize = 0;
        proof {
            lemma_first_outside(self@.nodes, section@.nodes.len() as int);
            assert(out@ =~= sequences_along(section@, self@.nodes, 0));
        }
        while i < self.nodes.len()
            invariant
                i <= self.nodes.len(),
                node_views(nodes@) == section@.nodes,
                first_outside(self@.nodes, section@.nodes.len() as int) == self@.nodes.len(),
                forall|k: int|
                    0 <= k < self@.nodes.len() ==> 0 <= #[trigger] self@.nodes[k]
                        < section@.nodes.len(),
                forall|k: int| 0 <= k < i ==> (sequenced(section@))(#[trigger] self@.nodes[k]),
                out@ == sequences_along(section@, self@.nodes, i as int),
            decreases self.nodes.len() - i,
        {
            assert(self@.nodes[i as int] == self.nodes@[i as int]);
            let node = &nodes[self.nodes[i]];
            assert(node_views(nodes@)[self.nodes@[i as int] as int] == node@);
            match &node.sequence {
                Some(s) => {
                    append(&mut out, s.as_slice());
                    proof {
                        assert(section@.nodes[self@.nodes[i as int]].sequence == Some(s@));
                        assert((sequenced(section@))(self@.nodes[i as int]));
                    }
                },
                None => {
                    proof {
                        assert(section@.nodes[self@.nodes[i as int]].sequence.is_none());
                        assert(!(sequenced(section@))(self@.nodes[i as int]));
                        lemma_first_failing_is(self@.nodes, sequenced(section@), i as int);
                    }
                    return Err(PathError::MissingSequence { index: self.nodes[i] });
                },
            }
            i += 1;
        }
        proof {
            lemma_first_failing_is(self@.nodes, sequenced(section@), i as int);
        }
        Ok(out)
    }
}

} // verus!
