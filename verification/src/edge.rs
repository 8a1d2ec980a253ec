//! Connections between segments: the edges of a transcript segment graph,
//! and their lines.

use crate::attribute::{
    attribute_texts, attribute_views, attribute_wf, lemma_attributes_round_trip, parse_attribute_list,
    parse_attributes, unique_tags, Attribute, AttributeView,
};
use crate::error::ParseReason;
use crate::node::{lemma_tabbed_three, render_attributes_into};
use crate::roundtrip::lemma_attribute_tokens;
use crate::scan::{append, to_vec, tokenize};
use crate::text::{
    is_token, lemma_tabbed_head, lemma_tokens_cons, lemma_tokens_empty, lemma_tokens_tabbed,
    tabbed, tokens, views, TAB,
};
use vstd::prelude::*;
use vstd::string::StringSliceAdditionalSpecFns;

verus! {

/// The first token of an edge line, `E`.
pub const EDGE_TAG: u8 = 69;

/// A connection from one segment to another, both named by their ids.
#[derive(Debug, Clone, Default, PartialEq, Eq)]
pub struct EdgeData {
    pub id: Vec<u8>,
    pub source: Vec<u8>,
    pub target: Vec<u8>,
    pub attributes: Vec<Attribute>,
}

/// What an `EdgeData` holds.
pub struct EdgeView {
    pub id: Seq<u8>,
    pub source: Seq<u8>,
    pub target: Seq<u8>,
    pub attributes: Seq<AttributeView>,
}

impl View for EdgeData {
    type V = EdgeView;

    open spec fn view(&self) -> EdgeView {
        EdgeView {
            id: self.id@,
            source: self.source@,
            target: self.target@,
            attributes: attribute_views(self.attributes@),
        }
    }
}

/// The line of an edge: `E`, then the id and the ids of the two endpoints,
/// each with a tab before it, then the attributes likewise.
pub open spec fn render_edge(e: EdgeView) -> Seq<u8> {
    seq![69u8] + tabbed(seq![e.id, e.source, e.target]) + tabbed(attribute_texts(e.attributes))
}

/// The edge that the tokens of an edge line denote, or why they denote
/// none. The first token is the tag of the line and is not looked at.
pub open spec fn parse_edge_tokens(t: Seq<Seq<u8>>) -> Result<EdgeView, ParseReason> {
    if t.len() < 4 {
        Err(ParseReason::MissingFields)
    } else if parse_attributes(t.skip(4)).is_none() {
        Err(ParseReason::InvalidAttribute)
    } else {
        Ok(
            EdgeView {
                id: t[1],
                source: t[2],
                target: t[3],
                attributes: parse_attributes(t.skip(4)).unwrap(),
            },
        )
    }
}

/// The edge that a line denotes, or why it denotes none.
pub open spec fn parse_edge(line: Seq<u8>) -> Result<EdgeView, ParseReason> {
    let t = tokens(line);
    if t.len() == 0 || t[0] != seq![69u8] {
        Err(ParseReason::UnknownRecord)
    } else {
        parse_edge_tokens(t)
    }
}

/// An edge is well formed when an edge line can say what it holds: its id
/// and the ids of its endpoints are tokens, and its attributes are well
/// formed and have unique tags.
pub open spec fn edge_wf(e: EdgeView) -> bool {
    &&& is_token(e.id)
    &&& is_token(e.source)
    &&& is_token(e.target)
    &&& unique_tags(e.attributes)
    &&& forall|i: int| 0 <= i < e.attributes.len() ==> attribute_wf(#[trigger] e.attributes[i])
}

/// Writing a well-formed edge as a line and reading the line gives the edge
/// back.
pub proof fn lemma_edge_round_trip(e: EdgeView)
    requires
        edge_wf(e),
    ensures
        parse_edge(render_edge(e)) == Ok::<EdgeView, ParseReason>(e),
{
    let head = seq![e.id, e.source, e.target];
    let texts = attribute_texts(e.attributes);
    let tag = seq![69u8];
    assert(tag[0] == 69);
    lemma_attribute_tokens(e.attributes);
    lemma_attributes_round_trip(e.attributes);
    lemma_tokens_empty();
    assert(tabbed(texts) + Seq::<u8>::empty() =~= tabbed(texts));
    lemma_tokens_tabbed(texts, Seq::<u8>::empty());
    assert(texts + Seq::<Seq<u8>>::empty() =~= texts);
    if texts.len() > 0 {
        lemma_tabbed_head(texts);
    }
    assert forall|k: int| 0 <= k < head.len() implies is_token(#[trigger] head[k]) by {}
    lemma_tokens_tabbed(head, tabbed(texts));
    lemma_tabbed_head(head);
    let rest = tabbed(head) + tabbed(texts);
    assert(rest[0] == 9);
    lemma_tokens_cons(tag, rest);
    assert(render_edge(e) =~= tag + rest);
    let t = tokens(render_edge(e));
    assert(t =~= seq![tag] + (head + texts));
    assert(t[0] == tag);
    assert(t[1] == e.id);
    assert(t[2] == e.source);
    assert(t[3] == e.target);
    assert(t.skip(4) =~= texts);
}

impl EdgeData {
    /// Reads an edge from the tokens of its line. The first token is the tag
    /// of the line and is not looked at.
    pub fn from_tokens(toks: &Vec<&[u8]>) -> (r: Result<EdgeData, ParseReason>)
        ensures
            match r {
                Ok(e) => parse_edge_tokens(views(toks@)) == Ok::<EdgeView, ParseReason>(e@),
                Err(x) => parse_edge_tokens(views(toks@)) == Err::<EdgeView, ParseReason>(x),
            },
    {
        let ghost t = views(toks@);
        if toks.len() < 4 {
            return Err(ParseReason::MissingFields);
        }
        assert(t[1] == toks@[1]@);
        assert(t[2] == toks@[2]@);
        assert(t[3] == toks@[3]@);
        let attributes = match parse_attribute_list(toks, 4) {
            Ok(a) => a,
            Err(e) => {
                return Err(e);
            },
        };
        Ok(
            EdgeData {
                id: to_vec(toks[1]),
                source: to_vec(toks[2]),
                target: to_vec(toks[3]),
                attributes,
            },
        )
    }

    /// Reads an edge from its line.
    pub fn from_bytes(line: &[u8]) -> (r: Result<EdgeData, ParseReason>)
        ensures
            match r {
                Ok(e) => parse_edge(line@) == Ok::<EdgeView, ParseReason>(e@),
                Err(x) => parse_edge(line@) == Err::<EdgeView, ParseReason>(x),
            },
    {
        let toks = tokenize(line);
        if toks.len() == 0 {
            return Err(ParseReason::UnknownRecord);
        }
        assert(views(toks@)[0] == toks@[0]@);
        let tag = toks[0];
        proof {
            assert(seq![69u8][0] == 69);
        }
        if tag.len() != 1 || tag[0] != EDGE_TAG {
            return Err(ParseReason::UnknownRecord);
        }
        assert(tag@ =~= seq![69u8]);
        EdgeData::from_tokens(&toks)
    }

    /// Reads an edge from a line given as a string.
    pub fn from_str(line: &str) -> (r: Result<EdgeData, ParseReason>)
        ensures
            match r {
                Ok(e) => parse_edge(line.spec_bytes()) == Ok::<EdgeView, ParseReason>(e@),
                Err(x) => parse_edge(line.spec_bytes()) == Err::<EdgeView, ParseReason>(x),
            },
    {
        EdgeData::from_bytes(line.as_bytes())
    }

    /// Appends the line of the edge to `out`.
    pub fn render_into(&self, out: &mut Vec<u8>)
        ensures
            final(out)@ == old(out)@ + render_edge(self@),
    {
        out.push(EDGE_TAG);
        out.push(TAB);
        append(out, self.id.as_slice());
        out.push(TAB);
        append(out, self.source.as_slice());
        out.push(TAB);
        append(out, self.target.as_slice());
        proof {
            lemma_tabbed_three(self@.id, self@.source, self@.target);
            assert(out@ =~= old(out)@ + seq![69u8] + tabbed(
                seq![self@.id, self@.source, self@.target],
            ));
        }
        render_attributes_into(&self.attributes, out);
    }

    /// The line of the edge.
    pub fn to_bytes(&self) -> (r: Vec<u8>)
        ensures
            r@ == render_edge(self@),
    {
        let mut out: Vec<u8> = Vec::new();
        self.render_into(&mut out);
        out
    }
}

} // verus!
