//! Reading a whole text, line by line, into a collection of graphs.

use crate::collection::{CollectionView, TSGraph};
use crate::error::ParseReason;
use crate::record::{parse_line, parse_record, ParseError};
use crate::scan::{split_bytes, to_vec};
use crate::section::{GraphError, GraphErrorView};
use crate::text::{split, views};
use vstd::prelude::*;

verus! {

/// The byte that ends a line.
pub const NEWLINE: u8 = 10;

/// Why a text could not be read. Either way the refusal names the line at
/// which the reading stopped, counted from one, and holds that line.
#[derive(Debug, Clone, PartialEq, Eq)]
pub enum LoadError {
    /// A line is malformed.
    Parse(ParseError),
    /// A line is well formed, but what it says cannot be added to the graph.
    Graph { line: usize, text: Vec<u8>, error: GraphError },
}

/// What a `LoadError` holds.
pub enum LoadErrorView {
    Parse { line: int, text: Seq<u8>, reason: ParseReason },
    Graph { line: int, text: Seq<u8>, error: GraphErrorView },
}

impl View for LoadError {
    type V = LoadErrorView;

    open spec fn view(&self) -> LoadErrorView {
        match self {
            LoadError::Parse(e) => LoadErrorView::Parse {
                line: e.line as int,
                text: e.text@,
                reason: e.reason,
            },
            LoadError::Graph { line, text, error } => LoadErrorView::Graph {
                line: *line as int,
                text: text@,
                error: error@,
            },
        }
    }
}

/// The collection after the line `line`, the `number`-th of its text, was
/// taken in, or why the line is refused.
pub open spec fn take_line(c: CollectionView, line: Seq<u8>, number: int) -> Result<
    CollectionView,
    LoadErrorView,
> {
    match parse_record(line) {
        Err(reason) => Err(LoadErrorView::Parse { line: number, text: line, reason }),
        Ok(record) => match c.apply(record) {
            Ok(d) => Ok(d),
            Err(error) => Err(LoadErrorView::Graph { line: number, text: line, error }),
        },
    }
}

/// The collection after the first `k` lines were taken in, in order, or the
/// refusal of the first line that is refused.
pub open spec fn load_lines(lines: Seq<Seq<u8>>, k: int) -> Result<CollectionView, LoadErrorView>
    decreases k,
{
    if k <= 0 {
        Ok(CollectionView::empty())
    } else {
        match load_lines(lines, k - 1) {
            Err(e) => Err(e),
            Ok(c) => take_line(c, lines[k - 1], k),
        }
    }
}

/// The collection that a text describes, or the refusal of its first line
/// that is refused. The lines of a text are the pieces between its newlines.
pub open spec fn load_text(text: Seq<u8>) -> Result<CollectionView, LoadErrorView> {
    load_lines(split(text, 10), split(text, 10).len() as int)
}

/// Once a line is refused, no later line changes the outcome.
pub proof fn lemma_refusal_stays(lines: Seq<Seq<u8>>, k: int, n: int)
    requires
        0 <= k <= n,
        load_lines(lines, k).is_err(),
    ensures
        load_lines(lines, n) == load_lines(lines, k),
    decreases n - k,
{
    if k < n {
        lemma_refusal_stays(lines, k, n - 1);
    }
}

impl TSGraph {
    /// Reads a text into a collection of graphs. The text is taken line by
    /// line; the first line that is malformed, or that cannot be added to the
    /// graph, ends the reading, and its refusal is returned in place of a
    /// collection.
    pub fn load(text: &[u8]) -> (r: Result<TSGraph, LoadError>)
        ensures
            match r {
                Ok(g) => g.wf() && load_text(text@) == Ok::<CollectionView, LoadErrorView>(g@),
                Err(e) => load_text(text@) == Err::<CollectionView, LoadErrorView>(e@),
            },
    {
        let lines = split_bytes(text, NEWLINE);
        let ghost ls = views(lines@);
        let mut g = TSGraph::new();
        let mut i: usize = 0;
        while i < lines.len()
            invariant
                i <= lines.len(),
                ls == views(lines@),
                ls == split(text@, 10),
                g.wf(),
                load_lines(ls, i as int) == Ok::<CollectionView, LoadErrorView>(g@),
            decreases lines.len() - i,
        {
            let line = lines[i];
            assert(ls[i as int] == line@);
            let record = match parse_line(line, i + 1) {
                Ok(r) => r,
                Err(e) => {
                    proof {
                        lemma_refusal_stays(ls, i + 1, ls.len() as int);
                    }
                    return Err(LoadError::Parse(e));
                },
            };
            match g.add_record(record) {
                Ok(_) => {},
                Err(error) => {
                    proof {
                        lemma_refusal_stays(ls, i + 1, ls.len() as int);
                    }
                    return Err(LoadError::Graph { line: i + 1, text: to_vec(line), error });
                },
            }
            i += 1;
        }
        Ok(g)
    }
}

} // verus!
