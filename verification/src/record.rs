//! Lines of the text format, one record each.

use crate::edge::{parse_edge_tokens, EdgeData, EdgeView, EDGE_TAG};
use crate::error::ParseReason;
use crate::node::{parse_node_tokens, NodeData, NodeView, NODE_TAG};
use crate::scan::{to_vec, tokenize};
use crate::text::{tokens, views};
use vstd::prelude::*;

verus! {

/// The first token of a line that opens a section, `G`.
pub const SECTION_TAG: u8 = 71;

/// The byte `#`, which starts a comment.
pub const HASH: u8 = 35;

/// What a line says.
#[derive(Debug, Clone, PartialEq, Eq)]
pub enum Record {
    /// The line opens the section named `id`.
    SectionHeader { id: Vec<u8> },
    /// The line describes a node.
    Node(NodeData),
    /// The line describes an edge.
    Edge(EdgeData),
    /// The line is blank or a comment.
    Ignorable,
}

/// What a `Record` holds.
pub enum RecordView {
    SectionHeader { id: Seq<u8> },
    Node(NodeView),
    Edge(EdgeView),
    Ignorable,
}

impl View for Record {
    type V = RecordView;

    open spec fn view(&self) -> RecordView {
        match self {
            Record::SectionHeader { id } => RecordView::SectionHeader { id: id@ },
            Record::Node(n) => RecordView::Node(n@),
            Record::Edge(e) => RecordView::Edge(e@),
            Record::Ignorable => RecordView::Ignorable,
        }
    }
}

/// A malformed line: where it stands, what it holds and why it was refused.
#[derive(Debug, Clone, PartialEq, Eq)]
pub struct ParseError {
    /// The number of the line, counted from one.
    pub line: usize,
    /// The line as it was read.
    pub text: Vec<u8>,
    /// Why the line was refused.
    pub reason: ParseReason,
}

/// The record that a line denotes, or why it denotes none. A line without
/// tokens, or whose first token starts with `#`, is ignorable; otherwise the
/// first token selects the kind of record.
pub open spec fn parse_record(line: Seq<u8>) -> Result<RecordView, ParseReason> {
    let t = tokens(line);
    if t.len() == 0 || (t[0].len() > 0 && t[0][0] == 35) {
        Ok(RecordView::Ignorable)
    } else if t[0] == seq![71u8] {
        if t.len() < 2 {
            Err(ParseReason::MissingFields)
        } else if t.len() > 2 {
            Err(ParseReason::UnexpectedField)
        } else {
            Ok(RecordView::SectionHeader { id: t[1] })
        }
    } else if t[0] == seq![78u8] {
        match parse_node_tokens(t) {
            Ok(n) => Ok(RecordView::Node(n)),
            Err(e) => Err(e),
        }
    } else if t[0] == seq![69u8] {
        match parse_edge_tokens(t) {
            Ok(e) => Ok(RecordView::Edge(e)),
            Err(e) => Err(e),
        }
    } else {
        Err(ParseReason::UnknownRecord)
    }
}

/// A node line with fewer than four fields is refused for its missing
/// fields.
pub proof fn lemma_short_node_line(line: Seq<u8>)
    requires
        0 < tokens(line).len() < 4,
        tokens(line)[0] == seq![78u8],
    ensures
        parse_record(line) == Err::<RecordView, ParseReason>(ParseReason::MissingFields),
{
    let t = tokens(line);
    assert(seq![78u8][0] == 78);
    assert(seq![71u8][0] == 71);
    assert(t[0] != seq![71u8]);
}

/// Tells whether `tok` is the one-byte token `tag`.
fn is_tag(tok: &[u8], tag: u8) -> (r: bool)
    ensures
        r == (tok@ == seq![tag]),
{
    proof {
        assert(seq![tag][0] == tag);
    }
    if tok.len() == 1 && tok[0] == tag {
        assert(tok@ =~= seq![tag]);
        true
    } else {
        false
    }
}

/// Reads the record of one line. `line_no` is the number of the line,
/// counted from one; a refusal carries it, and the line as it was read.
pub fn parse_line(raw: &[u8], line_no: usize) -> (r: Result<Record, ParseError>)
    ensures
        match r {
            Ok(rec) => parse_record(raw@) == Ok::<RecordView, ParseReason>(rec@),
            Err(e) => parse_record(raw@) == Err::<RecordView, ParseReason>(e.reason) && e.line
                == line_no && e.text@ == raw@,
        },
{
    let toks = tokenize(raw);
    let ghost t = views(toks@);
    if toks.len() == 0 {
        return Ok(Record::Ignorable);
    }
    assert(t[0] == toks@[0]@);
    let tag = toks[0];
    if tag.len() > 0 && tag[0] == HASH {
        return Ok(Record::Ignorable);
    }
    let outcome: Result<Record, ParseReason> = if is_tag(tag, SECTION_TAG) {
        if toks.len() < 2 {
            Err(ParseReason::MissingFields)
        } else if toks.len() > 2 {
            Err(ParseReason::UnexpectedField)
        } else {
            assert(t[1] == toks@[1]@);
            Ok(Record::SectionHeader { id: to_vec(toks[1]) })
        }
    } else if is_tag(tag, NODE_TAG) {
        match NodeData::from_tokens(&toks) {
            Ok(n) => Ok(Record::Node(n)),
            Err(e) => Err(e),
        }
    } else if is_tag(tag, EDGE_TAG) {
        match EdgeData::from_tokens(&toks) {
            Ok(e) => Ok(Record::Edge(e)),
            Err(e) => Err(e),
        }
    } else {
        Err(ParseReason::UnknownRecord)
    };
    match outcome {
        Ok(rec) => Ok(rec),
        Err(reason) => Err(ParseError { line: line_no, text: to_vec(raw), reason }),
    }
}

} // verus!
