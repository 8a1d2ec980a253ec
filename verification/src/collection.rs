//! A collection of named sections, in the order in which they were first
//! opened, and the section that records are added to.

use crate::edge::{EdgeData, EdgeView};
use crate::graph::SectionView;
use crate::lookup::{distinct, lemma_position, lemma_position_is, position};
use crate::node::{NodeData, NodeView};
use crate::record::{Record, RecordView};
use crate::scan::bytes_eq;
use crate::section::{missing_endpoint, GraphError, GraphErrorView, GraphSection};
use vstd::prelude::*;

verus! {

/// What a collection holds: its sections, and the index of the section
/// that is open, if one is.
pub struct CollectionView {
    pub sections: Seq<SectionView>,
    pub active: Option<int>,
}

/// The views of a sequence of sections.
pub open spec fn section_views(v: Seq<GraphSection>) -> Seq<SectionView> {
    Seq::new(v.len(), |i: int| v[i]@)
}

/// The names of the sections of `sections`.
pub open spec fn section_ids(sections: Seq<SectionView>) -> Seq<Seq<u8>> {
    Seq::new(sections.len(), |i: int| sections[i].id)
}

impl CollectionView {
    /// The collection with no section.
    pub open spec fn empty() -> CollectionView {
        CollectionView { sections: Seq::empty(), active: None }
    }

    /// Index of the section named `id`, or the number of sections if there
    /// is none.
    pub open spec fn section_index(self, id: Seq<u8>) -> int {
        position(section_ids(self.sections), id)
    }

    /// No two sections have the same name, every section holds a valid
    /// graph, and the open section, if any, is a section of the collection.
    pub open spec fn valid(self) -> bool {
        &&& distinct(section_ids(self.sections))
        &&& forall|i: int| 0 <= i < self.sections.len() ==> (#[trigger] self.sections[i]).valid()
        &&& match self.active {
            Some(a) => 0 <= a < self.sections.len(),
            None => true,
        }
    }

    /// The collection after the section named `id` was opened: the section
    /// is added, empty, if the collection does not have it, and it is the
    /// open section.
    pub open spec fn open_section(self, id: Seq<u8>) -> CollectionView {
        let i = self.section_index(id);
        if i < self.sections.len() {
            CollectionView { active: Some(i), ..self }
        } else {
            CollectionView {
                sections: self.sections.push(SectionView::empty(id)),
                active: Some(self.sections.len() as int),
            }
        }
    }

    /// The collection after a node was added to the open section, or why it
    /// cannot be added.
    pub open spec fn add_node(self, n: NodeView) -> Result<CollectionView, GraphErrorView> {
        match self.active {
            None => Err(GraphErrorView::MissingSection),
            Some(a) => if self.sections[a].has_node(n.id) {
                Err(GraphErrorView::DuplicateNodeId { id: n.id })
            } else {
                Ok(
                    CollectionView {
                        sections: self.sections.update(a, self.sections[a].with_node(n)),
                        ..self
                    },
                )
            },
        }
    }

    /// The collection after an edge was added to the open section, or why
    /// it cannot be added.
    pub open spec fn add_edge(self, e: EdgeView) -> Result<CollectionView, GraphErrorView> {
        match self.active {
            None => Err(GraphErrorView::MissingSection),
            Some(a) => if self.sections[a].has_node(e.source) && self.sections[a].has_node(
                e.target,
            ) {
                Ok(
                    CollectionView {
                        sections: self.sections.update(a, self.sections[a].with_edge(e)),
                        ..self
                    },
                )
            } else {
                Err(
                    GraphErrorView::UnknownEndpoint {
                        id: missing_endpoint(self.sections[a], e),
                    },
                )
            },
        }
    }

    /// The collection after a record was taken in, or why it cannot be.
    pub open spec fn apply(self, r: RecordView) -> Result<CollectionView, GraphErrorView> {
        match r {
            RecordView::Ignorable => Ok(self),
            RecordView::SectionHeader { id } => Ok(self.open_section(id)),
            RecordView::Node(n) => self.add_node(n),
            RecordView::Edge(e) => self.add_edge(e),
        }
    }
}

/// Several graphs, each in a named section. Records are added to the
/// section that was opened last.
#[derive(Debug, Clone, Default)]
pub struct TSGraph {
    graphs: Vec<GraphSection>,
    active: Option<usize>,
}

impl View for TSGraph {
    type V = CollectionView;

    closed spec fn view(&self) -> CollectionView {
        CollectionView {
            sections: section_views(self.graphs@),
            active: match self.active {
                Some(a) => Some(a as int),
                None => None,
            },
        }
    }
}

impl TSGraph {
    /// Every section is well formed, and the collection is valid.
    pub closed spec fn wf(&self) -> bool {
        &&& self@.valid()
        &&& forall|i: int| 0 <= i < self.graphs.len() ==> (#[trigger] self.graphs[i]).wf()
    }

    /// A well-formed collection is valid.
    pub proof fn lemma_valid(&self)
        requires
            self.wf(),
        ensures
            self@.valid(),
    {
    }

    /// The collection with no section.
    pub fn new() -> (r: TSGraph)
        ensures
            r.wf(),
            r@ == CollectionView::empty(),
    {
        let r = TSGraph { graphs: Vec::new(), active: None };
        proof {
            assert(r@.sections =~= Seq::<SectionView>::empty());
        }
        r
    }

    /// The number of sections.
    pub fn section_count(&self) -> (r: usize)
        ensures
            r == self@.sections.len(),
    {
        self.graphs.len()
    }

    /// The sections, in the order in which they were first opened.
    pub fn graphs(&self) -> (r: &Vec<GraphSection>)
        ensures
            section_views(r@) == self@.sections,
            self.wf() ==> forall|i: int| 0 <= i < r.len() ==> (#[trigger] r@[i]).wf(),
    {
        &self.graphs
    }

    /// The section at the index `index`, if there is one.
    pub fn section(&self, index: usize) -> (r: Option<&GraphSection>)
        ensures
            match r {
                Some(s) => index < self@.sections.len() && s@ == self@.sections[index as int] && (
                self.wf() ==> s.wf()),
                None => index >= self@.sections.len(),
            },
    {
        if index < self.graphs.len() {
            Some(&self.graphs[index])
        } else {
            None
        }
    }

    /// The index of the open section, if one is open.
    pub fn active_section(&self) -> (r: Option<usize>)
        ensures
            match r {
                Some(a) => self@.active == Some(a as int),
                None => self@.active.is_none(),
            },
    {
        self.active
    }

    /// The index of the section named `id`, if there is one.
    pub fn section_by_id(&self, id: &[u8]) -> (r: Option<usize>)
        ensures
            match r {
                Some(i) => i < self@.sections.len() && i == self@.section_index(id@),
                None => self@.section_index(id@) == self@.sections.len(),
            },
    {
        let ghost ids = section_ids(self@.sections);
        let mut i: usize = 0;
        while i < self.graphs.len()
            invariant
                i <= self.graphs.len(),
                ids == section_ids(self@.sections),
                forall|k: int| 0 <= k < i ==> ids[k] != id@,
            decreases self.graphs.len() - i,
        {
            if bytes_eq(self.graphs[i].id().as_slice(), id) {
                proof {
                    assert(ids[i as int] == id@);
                    lemma_position_is(ids, id@, i as int);
                }
                return Some(i);
            }
            assert(ids[i as int] != id@);
            i += 1;
        }
        proof {
            lemma_position_is(ids, id@, i as int);
        }
        None
    }

    /// Opens the section named `id`: records that follow are added to it.
    /// The section is created, empty, unless the collection has it already.
    pub fn open_section(&mut self, id: &[u8])
        requires
            old(self).wf(),
        ensures
            final(self).wf(),
            final(self)@ == old(self)@.open_section(id@),
    {
        match self.section_by_id(id) {
            Some(i) => {
                self.active = Some(i);
            },
            None => {
                let index = self.graphs.len();
                let ghost before = self@;
                self.graphs.push(GraphSection::new(id));
                self.active = Some(index);
                proof {
                    let after = self@;
                    assert(after.sections =~= before.sections.push(SectionView::empty(id@)));
                    lemma_position(section_ids(before.sections), id@);
                    assert(section_ids(after.sections) =~= section_ids(before.sections).push(id@));
                    assert forall|i: int| 0 <= i < after.sections.len() implies (
                    #[trigger] after.sections[i]).valid() by {
                        if i < index {
                            assert(after.sections[i] == before.sections[i]);
                        } else {
                            self.graphs[i].lemma_valid();
                        }
                    }
                    assert forall|i: int| 0 <= i < self.graphs.len() implies (
                    #[trigger] self.graphs[i]).wf() by {
                        if i < index {
                            assert(self.graphs[i] == old(self).graphs[i]);
                        }
                    }
                }
            },
        }
    }

    /// Adds a node to the open section and returns its index there.
    pub fn add_node(&mut self, node: NodeData) -> (r: Result<usize, GraphError>)
        requires
            old(self).wf(),
        ensures
            final(self).wf(),
            match r {
                Ok(i) => old(self)@.add_node(node@) == Ok::<CollectionView, GraphErrorView>(
                    final(self)@,
                ) && i == old(self)@.sections[old(self)@.active.unwrap()].nodes.len(),
                Err(e) => old(self)@.add_node(node@) == Err::<CollectionView, GraphErrorView>(e@)
                    && final(self)@ == old(self)@,
            },
    {
        let a = match self.active {
            Some(a) => a,
            None => {
                return Err(GraphError::MissingSection);
            },
        };
        let ghost before = self@;
        let ghost added = node@;
        let r = self.graphs[a].add_node(node);
        proof {
            let after = self@;
            assert forall|i: int| 0 <= i < self.graphs.len() implies (#[trigger] self.graphs[i]).wf(
            ) by {
                if i != a {
                    assert(self.graphs[i] == old(self).graphs[i]);
                }
            }
            if r.is_ok() {
                assert(after.sections =~= before.sections.update(
                    a as int,
                    before.sections[a as int].with_node(added),
                ));
            } else {
                assert(after.sections =~= before.sections);
            }
            assert(section_ids(after.sections) =~= section_ids(before.sections));
            assert forall|i: int| 0 <= i < after.sections.len() implies (
            #[trigger] after.sections[i]).valid() by {
                self.graphs[i].lemma_valid();
            }
        }
        r
    }

    /// Adds an edge to the open section and returns its index there.
    pub fn add_edge(&mut self, edge: EdgeData) -> (r: Result<usize, GraphError>)
        requires
            old(self).wf(),
        ensures
            final(self).wf(),
            match r {
                Ok(i) => old(self)@.add_edge(edge@) == Ok::<CollectionView, GraphErrorView>(
                    final(self)@,
                ) && i == old(self)@.sections[old(self)@.active.unwrap()].edges.len(),
                Err(e) => old(self)@.add_edge(edge@) == Err::<CollectionView, GraphErrorView>(e@)
                    && final(self)@ == old(self)@,
            },
    {
        let a = match self.active {
            Some(a) => a,
            None => {
                return Err(GraphError::MissingSection);
            },
        };
        let ghost before = self@;
        let ghost added = edge@;
        let r = self.graphs[a].add_edge(edge);
        proof {
            let after = self@;
            assert forall|i: int| 0 <= i < self.graphs.len() implies (#[trigger] self.graphs[i]).wf(
            ) by {
                if i != a {
                    assert(self.graphs[i] == old(self).graphs[i]);
                }
            }
            if r.is_ok() {
                assert(after.sections =~= before.sections.update(
                    a as int,
                    before.sections[a as int].with_edge(added),
                ));
            } else {
                assert(after.sections =~= before.sections);
            }
            assert(section_ids(after.sections) =~= section_ids(before.sections));
            assert forall|i: int| 0 <= i < after.sections.len() implies (
            #[trigger] after.sections[i]).valid() by {
                self.graphs[i].lemma_valid();
            }
        }
        r
    }

    /// Takes in one record: a header opens its section, a node or an edge
    /// is added to the open section, and anything else is passed over.
    pub fn add_record(&mut self, record: Record) -> (r: Result<(), GraphError>)
        requires
            old(self).wf(),
        ensures
            final(self).wf(),
            match r {
                Ok(_) => old(self)@.apply(record@) == Ok::<CollectionView, GraphErrorView>(
                    final(self)@,
                ),
                Err(e) => old(self)@.apply(record@) == Err::<CollectionView, GraphErrorView>(e@)
                    && final(self)@ == old(self)@,
            },
    {
        match record {
            Record::Ignorable => Ok(()),
            Record::SectionHeader { id } => {
                self.open_section(id.as_slice());
                Ok(())
            },
            Record::Node(n) => match self.add_node(n) {
                Ok(_) => Ok(()),
                Err(e) => Err(e),
            },
            Record::Edge(e) => match self.add_edge(e) {
                Ok(_) => Ok(()),
                Err(e) => Err(e),
            },
        }
    }
}

} // verus!
