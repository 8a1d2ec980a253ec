//! Segments: the nodes of a transcript segment graph, and their lines.

use crate::attribute::{
    attribute_texts, attribute_views, parse_attribute_list, parse_attributes, Attribute,
    AttributeView,
};
use crate::error::ParseReason;
use crate::exons::Exons;
use crate::interval::{parse_exons, render_exons, Interval};
use crate::read::{
    parse_read_list, parse_reads, parse_strand, read_views, render_read_list, render_reads,
    strand_text, ReadData, ReadIdentity, ReadView, Strand, COLON,
};
use crate::scan::{append, contains_byte, split_bytes, to_vec, tokenize};
use crate::text::{free_of, split, tabbed, tokens, views, TAB};
use vstd::prelude::*;
use vstd::string::StringSliceAdditionalSpecFns;

verus! {

/// The first token of a node line, `N`.
pub const NODE_TAG: u8 = 78;

/// A segment of a transcript: a stretch of a reference with its exons, the
/// reads that support it, and optionally its sequence.
#[derive(Debug, Clone, Default, PartialEq, Eq)]
pub struct NodeData {
    pub id: Vec<u8>,
    pub reference_id: Vec<u8>,
    pub strand: Strand,
    pub exons: Exons,
    pub reads: Vec<ReadData>,
    pub sequence: Option<Vec<u8>>,
    pub attributes: Vec<Attribute>,
}

/// What a `NodeData` holds.
pub struct NodeView {
    pub id: Seq<u8>,
    pub reference_id: Seq<u8>,
    pub strand: Strand,
    pub exons: Seq<Interval>,
    pub reads: Seq<ReadView>,
    pub sequence: Option<Seq<u8>>,
    pub attributes: Seq<AttributeView>,
}

impl View for NodeData {
    type V = NodeView;

    open spec fn view(&self) -> NodeView {
        NodeView {
            id: self.id@,
            reference_id: self.reference_id@,
            strand: self.strand,
            exons: self.exons@,
            reads: read_views(self.reads@),
            sequence: match self.sequence {
                Some(s) => Some(s@),
                None => None,
            },
            attributes: attribute_views(self.attributes@),
        }
    }
}

/// The location of a node: `reference:strand:exons`.
pub open spec fn render_location(n: NodeView) -> Seq<u8> {
    n.reference_id + seq![58u8] + strand_text(n.strand) + seq![58u8] + render_exons(n.exons)
}

/// The sequence column of a node line: the sequence, or nothing.
pub open spec fn sequence_text(n: NodeView) -> Seq<u8> {
    match n.sequence {
        Some(s) => s,
        None => Seq::empty(),
    }
}

/// The line of a node: `N`, then the id, the location, the reads and the
/// sequence, each with a tab before it, then the attributes likewise.
pub open spec fn render_node(n: NodeView) -> Seq<u8> {
    seq![78u8] + tabbed(seq![n.id, render_location(n), render_reads(n.reads)]) + seq![9u8]
        + sequence_text(n) + tabbed(attribute_texts(n.attributes))
}

/// True when the tokens of a node line hold a sequence: a fifth token
/// without `:`.
pub open spec fn has_sequence(t: Seq<Seq<u8>>) -> bool {
    t.len() > 4 && free_of(t[4], 58)
}

/// The reason carried by a failed reading of exons.
pub open spec fn reason_of(r: Result<Seq<Interval>, ParseReason>) -> ParseReason {
    match r {
        Err(e) => e,
        Ok(_) => ParseReason::InvalidInterval,
    }
}

/// The node that the tokens of a node line denote, or why they denote none.
/// The first token is the tag of the line and is not looked at.
pub open spec fn parse_node_tokens(t: Seq<Seq<u8>>) -> Result<NodeView, ParseReason> {
    if t.len() < 4 {
        Err(ParseReason::MissingFields)
    } else {
        let loc = split(t[2], 58);
        if loc.len() != 3 {
            Err(ParseReason::InvalidLocation)
        } else if parse_strand(loc[1]).is_none() {
            Err(ParseReason::InvalidStrand)
        } else if parse_exons(loc[2]).is_err() {
            Err(reason_of(parse_exons(loc[2])))
        } else if parse_reads(t[3]).is_none() {
            Err(ParseReason::InvalidRead)
        } else {
            let first = if has_sequence(t) {
                5int
            } else {
                4int
            };
            if parse_attributes(t.skip(first)).is_none() {
                Err(ParseReason::InvalidAttribute)
            } else {
                Ok(
                    NodeView {
                        id: t[1],
                        reference_id: loc[0],
                        strand: parse_strand(loc[1]).unwrap(),
                        exons: parse_exons(loc[2]).unwrap(),
                        reads: parse_reads(t[3]).unwrap(),
                        sequence: if has_sequence(t) {
                            Some(t[4])
                        } else {
                            None
                        },
                        attributes: parse_attributes(t.skip(first)).unwrap(),
                    },
                )
            }
        }
    }
}

/// The node that a line denotes, or why it denotes none.
pub open spec fn parse_node(line: Seq<u8>) -> Result<NodeView, ParseReason> {
    let t = tokens(line);
    if t.len() == 0 || t[0] != seq![78u8] {
        Err(ParseReason::UnknownRecord)
    } else {
        parse_node_tokens(t)
    }
}

/// True when a read with the identity `identity` supports the node.
pub open spec fn has_identity(n: NodeView, identity: ReadIdentity) -> bool {
    exists|i: int| 0 <= i < n.reads.len() && (#[trigger] n.reads[i]).identity == identity
}

/// Three pieces with a tab before each.
pub proof fn lemma_tabbed_three(a: Seq<u8>, b: Seq<u8>, c: Seq<u8>)
    ensures
        tabbed(seq![a, b, c]) == seq![9u8] + a + seq![9u8] + b + seq![9u8] + c,
{
    let h2 = seq![a, b, c];
    let h1 = h2.drop_last();
    let h0 = h1.drop_last();
    assert(h1 =~= seq![a, b]);
    assert(h0 =~= seq![a]);
    assert(h0.drop_last() =~= Seq::<Seq<u8>>::empty());
    assert(tabbed(h0.drop_last()) =~= Seq::<u8>::empty());
    assert(tabbed(h0) =~= seq![9u8] + a);
    assert(tabbed(h1) =~= tabbed(h0) + seq![9u8] + b);
    assert(tabbed(h2) =~= tabbed(h1) + seq![9u8] + c);
    assert(tabbed(h2) =~= seq![9u8] + a + seq![9u8] + b + seq![9u8] + c);
}

/// Appends the texts of the attributes, each with a tab before it.
pub fn render_attributes_into(attrs: &Vec<Attribute>, out: &mut Vec<u8>)
    ensures
        final(out)@ == old(out)@ + tabbed(attribute_texts(attribute_views(attrs@))),
{
    let ghost texts = attribute_texts(attribute_views(attrs@));
    let mut i: usize = 0;
    proof {
        assert(texts.take(0) =~= Seq::<Seq<u8>>::empty());
        assert(out@ =~= old(out)@ + tabbed(texts.take(0)));
    }
    while i < attrs.len()
        invariant
            i <= attrs.len(),
            texts == attribute_texts(attribute_views(attrs@)),
            out@ == old(out)@ + tabbed(texts.take(i as int)),
        decreases attrs.len() - i,
    {
        out.push(TAB);
        attrs[i].render_into(out);
        proof {
            let t = texts.take(i + 1);
            assert(t.drop_last() =~= texts.take(i as int));
            assert(t.last() == crate::attribute::render_attribute(attrs@[i as int]@));
            assert(out@ =~= old(out)@ + tabbed(t));
        }
        i += 1;
    }
    proof {
        assert(texts.take(attrs.len() as int) =~= texts);
    }
}

impl NodeData {
    /// True when a read starts a transcript at this node.
    pub open spec fn spec_is_source(&self) -> bool {
        has_identity(self@, ReadIdentity::SO)
    }

    /// True when a read ends a transcript at this node.
    pub open spec fn spec_is_sink(&self) -> bool {
        has_identity(self@, ReadIdentity::SI)
    }

    /// Tells whether a read with the identity `identity` supports the node.
    pub fn has_read_identity(&self, identity: ReadIdentity) -> (r: bool)
        ensures
            r == has_identity(self@, identity),
    {
        let mut i: usize = 0;
        while i < self.reads.len()
            invariant
                i <= self.reads.len(),
                forall|k: int| 0 <= k < i ==> (#[trigger] self@.reads[k]).identity != identity,
            decreases self.reads.len() - i,
        {
            if self.reads[i].identity == identity {
                assert(self@.reads[i as int].identity == identity);
                return true;
            }
            assert(self@.reads[i as int].identity != identity);
            i += 1;
        }
        false
    }

    /// Tells whether a read starts a transcript at this node.
    pub fn is_source(&self) -> (r: bool)
        ensures
            r == self.spec_is_source(),
    {
        self.has_read_identity(ReadIdentity::SO)
    }

    /// Tells whether a read ends a transcript at this node.
    pub fn is_sink(&self) -> (r: bool)
        ensures
            r == self.spec_is_sink(),
    {
        self.has_read_identity(ReadIdentity::SI)
    }

    /// The start of the first exon.
    pub fn reference_start(&self) -> (r: usize)
        requires
            self@.exons.len() > 0,
        ensures
            r == self@.exons[0].start,
    {
        self.exons.first_exon().start
    }

    /// The end of the last exon.
    pub fn reference_end(&self) -> (r: usize)
        requires
            self@.exons.len() > 0,
        ensures
            r == self@.exons.last().end,
    {
        self.exons.last_exon().end
    }

    /// Reads a node from the tokens of its line. The first token is the tag
    /// of the line and is not looked at.
    pub fn from_tokens(toks: &Vec<&[u8]>) -> (r: Result<NodeData, ParseReason>)
        ensures
            match r {
                Ok(n) => parse_node_tokens(views(toks@)) == Ok::<NodeView, ParseReason>(n@),
                Err(e) => parse_node_tokens(views(toks@)) == Err::<NodeView, ParseReason>(e),
            },
    {
        let ghost t = views(toks@);
        if toks.len() < 4 {
            return Err(ParseReason::MissingFields);
        }
        assert(t[1] == toks@[1]@);
        assert(t[2] == toks@[2]@);
        assert(t[3] == toks@[3]@);
        let loc = split_bytes(toks[2], COLON);
        if loc.len() != 3 {
            return Err(ParseReason::InvalidLocation);
        }
        assert(views(loc@)[0] == loc@[0]@);
        assert(views(loc@)[1] == loc@[1]@);
        assert(views(loc@)[2] == loc@[2]@);
        let strand = match Strand::from_bytes(loc[1]) {
            Ok(s) => s,
            Err(e) => {
                return Err(e);
            },
        };
        let exons = match Exons::from_bytes(loc[2]) {
            Ok(x) => x,
            Err(e) => {
                return Err(e);
            },
        };
        let reads = match parse_read_list(toks[3]) {
            Ok(r) => r,
            Err(e) => {
                return Err(e);
            },
        };
        let with_sequence = toks.len() > 4 && !contains_byte(toks[4], COLON);
        proof {
            if toks.len() > 4 {
                assert(t[4] == toks@[4]@);
            }
            assert(with_sequence == has_sequence(t));
        }
        let first: usize = if with_sequence {
            5
        } else {
            4
        };
        let attributes = match parse_attribute_list(toks, first) {
            Ok(a) => a,
            Err(e) => {
                return Err(e);
            },
        };
        let sequence = if with_sequence {
            Some(to_vec(toks[4]))
        } else {
            None
        };
        Ok(
            NodeData {
                id: to_vec(toks[1]),
                reference_id: to_vec(loc[0]),
                strand,
                exons,
                reads,
                sequence,
                attributes,
            },
        )
    }

    /// Reads a node from its line.
    pub fn from_bytes(line: &[u8]) -> (r: Result<NodeData, ParseReason>)
        ensures
            match r {
                Ok(n) => parse_node(line@) == Ok::<NodeView, ParseReason>(n@),
                Err(e) => parse_node(line@) == Err::<NodeView, ParseReason>(e),
            },
    {
        let toks = tokenize(line);
        if toks.len() == 0 {
            return Err(ParseReason::UnknownRecord);
        }
        assert(views(toks@)[0] == toks@[0]@);
        let tag = toks[0];
        proof {
            assert(seq![78u8][0] == 78);
        }
        if tag.len() != 1 || tag[0] != NODE_TAG {
            return Err(ParseReason::UnknownRecord);
        }
        assert(tag@ =~= seq![78u8]);
        NodeData::from_tokens(&toks)
    }

    /// Reads a node from a line given as a string.
    pub fn from_str(line: &str) -> (r: Result<NodeData, ParseReason>)
        ensures
            match r {
                Ok(n) => parse_node(line.spec_bytes()) == Ok::<NodeView, ParseReason>(n@),
                Err(e) => parse_node(line.spec_bytes()) == Err::<NodeView, ParseReason>(e),
            },
    {
        NodeData::from_bytes(line.as_bytes())
    }

    /// Appends the location of the node to `out`.
    pub fn render_location_into(&self, out: &mut Vec<u8>)
        ensures
            final(out)@ == old(out)@ + render_location(self@),
    {
        append(out, self.reference_id.as_slice());
        out.push(COLON);
        let sign = self.strand.symbol();
        out.push(sign);
        out.push(COLON);
        self.exons.render_into(out);
        proof {
            assert(seq![sign] == strand_text(self@.strand));
            assert(out@ =~= old(out)@ + render_location(self@));
        }
    }

    /// Appends the line of the node to `out`.
    pub fn render_into(&self, out: &mut Vec<u8>)
        ensures
            final(out)@ == old(out)@ + render_node(self@),
    {
        let ghost n = self@;
        out.push(NODE_TAG);
        out.push(TAB);
        append(out, self.id.as_slice());
        out.push(TAB);
        self.render_location_into(out);
        out.push(TAB);
        render_read_list(&self.reads, out);
        out.push(TAB);
        match &self.sequence {
            Some(s) => append(out, s.as_slice()),
            None => {},
        }
        proof {
            lemma_tabbed_three(n.id, render_location(n), render_reads(n.reads));
            assert(out@ =~= old(out)@ + seq![78u8] + tabbed(
                seq![n.id, render_location(n), render_reads(n.reads)],
            ) + seq![9u8] + sequence_text(n));
        }
        render_attributes_into(&self.attributes, out);
    }

    /// The line of the node.
    pub fn to_bytes(&self) -> (r: Vec<u8>)
        ensures
            r@ == render_node(self@),
    {
        let mut out: Vec<u8> = Vec::new();
        self.render_into(&mut out);
        out
    }
}

} // verus!
