//! Gene-annotation text: one line for each exon of a segment, and for a
//! path one line for the transcript and the lines of its segments.

use crate::attribute::{attribute_views, value_text, Attribute, AttributeView, ValueView};
use crate::node::{NodeData, NodeView};
use crate::number::{decimal, padded3, push_decimal, push_padded3};
use crate::read::strand_text;
use crate::scan::append;
use crate::graph::SectionView;
use crate::attribute::AttributeValue;
use crate::path::{identity, lemma_first_outside, path_identity, PathError, PathView, TSGPath};
use crate::scan::to_vec;
use crate::section::{node_views, GraphSection};
use crate::text::join;
use vstd::prelude::*;
use vstd::string::StringSliceAdditionalSpecFns;

verus! {

/// The bytes of a piece of fixed text.
pub open spec fn lit(s: &str) -> Seq<u8> {
    s.spec_bytes()
}

/// The text of one attribute in an exon line: `tag "value"; `.
pub open spec fn attribute_gtf(a: AttributeView) -> Seq<u8> {
    a.tag + lit(" \"") + value_text(a.value) + lit("\"; ")
}

/// The texts of the first `k` attributes of `attrs`, one after another.
pub open spec fn attributes_gtf(attrs: Seq<AttributeView>, k: int) -> Seq<u8>
    decreases k,
{
    if k <= 0 {
        Seq::empty()
    } else {
        attributes_gtf(attrs, k - 1) + attribute_gtf(attrs[k - 1])
    }
}

/// Appends the text of one attribute.
pub fn push_attribute_gtf(out: &mut Vec<u8>, a: &Attribute)
    ensures
        final(out)@ == old(out)@ + attribute_gtf(a@),
{
    append(out, a.tag.as_slice());
    append(out, " \"".as_bytes());
    a.value.render_into(out);
    append(out, "\"; ".as_bytes());
    proof {
        assert(out@ =~= old(out)@ + attribute_gtf(a@));
    }
}

/// The texts of the last `k` attributes of `attrs`, the last first.
pub open spec fn attributes_gtf_reversed(attrs: Seq<AttributeView>, k: int) -> Seq<u8>
    decreases k,
{
    if k <= 0 {
        Seq::empty()
    } else {
        attributes_gtf_reversed(attrs, k - 1) + attribute_gtf(attrs[attrs.len() - k])
    }
}

/// The columns of the line of the `i`-th exon of a node, up to its number:
/// the reference, the source `tsg`, the feature `exon`, the two
/// coordinates, the strand, and the number of the exon on three digits.
pub open spec fn exon_columns(n: NodeView, i: int) -> Seq<u8> {
    n.reference_id + lit("\ttsg\texon\t") + decimal(n.exons[i].start as nat) + lit("\t")
        + decimal(n.exons[i].end as nat) + lit("\t.\t") + strand_text(n.strand) + lit(
        "\t.\texon_id \"",
    ) + padded3((i + 1) as nat) + lit("\"; ")
}

/// The line of the `i`-th exon of a node: its columns, the attributes of
/// the node, and the attributes `extra`, the last first.
pub open spec fn exon_gtf(n: NodeView, i: int, extra: Seq<AttributeView>) -> Seq<u8> {
    exon_columns(n, i) + attributes_gtf(n.attributes, n.attributes.len() as int)
        + attributes_gtf_reversed(extra, extra.len() as int)
}

/// The lines of the exons of a node.
pub open spec fn exon_lines(n: NodeView, extra: Seq<AttributeView>) -> Seq<Seq<u8>> {
    Seq::new(n.exons.len(), |i: int| exon_gtf(n, i, extra))
}

/// The annotation of a node: the lines of its exons, with newlines between
/// them.
pub open spec fn node_gtf(n: NodeView, extra: Seq<AttributeView>) -> Seq<u8> {
    join(exon_lines(n, extra), 10)
}

/// The attributes `extra`, or none.
pub open spec fn extra_views(extra: Option<&[Attribute]>) -> Seq<AttributeView> {
    match extra {
        Some(a) => attribute_views(a@),
        None => Seq::empty(),
    }
}

/// The text of one attribute in a transcript line: `tag "value";`.
pub open spec fn path_attribute_gtf(a: AttributeView) -> Seq<u8> {
    a.tag + lit(" \"") + value_text(a.value) + lit("\";")
}

/// The texts of the first `k` attributes of a path, one after another.
pub open spec fn path_attributes_gtf(attrs: Seq<AttributeView>, k: int) -> Seq<u8>
    decreases k,
{
    if k <= 0 {
        Seq::empty()
    } else {
        path_attributes_gtf(attrs, k - 1) + path_attribute_gtf(attrs[k - 1])
    }
}

/// The line of a transcript: its identity, and the attributes of its path.
pub open spec fn transcript_gtf(id: Seq<u8>, attrs: Seq<AttributeView>) -> Seq<u8> {
    lit(".\ttsg\ttranscript\t.\t.\t.\t.\t.\ttranscript_id \"") + id + lit("\";")
        + path_attributes_gtf(attrs, attrs.len() as int)
}

/// The attributes that the `i`-th segment of a transcript gets: the identity
/// of the transcript, and the number of the segment on three digits.
pub open spec fn segment_attributes(id: Seq<u8>, i: int) -> Seq<AttributeView> {
    seq![
        AttributeView { tag: lit("transcript_id"), value: ValueView::Text(id) },
        AttributeView { tag: lit("segment_id"), value: ValueView::Text(padded3((i + 1) as nat)) },
    ]
}

/// The lines of a transcript: its own line, then the annotation of each of
/// its segments.
pub open spec fn transcript_lines(g: SectionView, p: PathView, id: Seq<u8>) -> Seq<Seq<u8>> {
    seq![transcript_gtf(id, p.attributes)] + Seq::new(
        p.nodes.len(),
        |i: int| node_gtf(g.nodes[p.nodes[i]], segment_attributes(id, i)),
    )
}

/// The annotation of a path in the section `g`, or why it has none: the
/// path is empty, or the section lacks one of its nodes.
pub open spec fn path_gtf(g: SectionView, p: PathView) -> Result<Seq<u8>, PathError> {
    match path_identity(g, p.nodes) {
        Err(e) => Err(e),
        Ok(id) => Ok(join(transcript_lines(g, p, id), 10)),
    }
}

/// Appends the texts of the attributes of `attrs`.
fn push_attributes_gtf(out: &mut Vec<u8>, attrs: &[Attribute])
    ensures
        final(out)@ == old(out)@ + attributes_gtf(attribute_views(attrs@), attrs@.len() as int),
{
    let ghost views = attribute_views(attrs@);
    let mut i: usize = 0;
    proof {
        assert(out@ =~= old(out)@ + attributes_gtf(views, 0));
    }
    while i < attrs.len()
        invariant
            i <= attrs.len(),
            views == attribute_views(attrs@),
            out@ == old(out)@ + attributes_gtf(views, i as int),
        decreases attrs.len() - i,
    {
        push_attribute_gtf(out, &attrs[i]);
        proof {
            assert(views[i as int] == attrs@[i as int]@);
            assert(out@ =~= old(out)@ + attributes_gtf(views, i + 1));
        }
        i += 1;
    }
}

/// Appends the texts of the attributes of `attrs`, the last first.
fn push_attributes_gtf_reversed(out: &mut Vec<u8>, attrs: &[Attribute])
    ensures
        final(out)@ == old(out)@ + attributes_gtf_reversed(
            attribute_views(attrs@),
            attrs@.len() as int,
        ),
{
    let ghost views = attribute_views(attrs@);
    let n = attrs.len();
    let mut k: usize = 0;
    proof {
        assert(out@ =~= old(out)@ + attributes_gtf_reversed(views, 0));
    }
    while k < n
        invariant
            k <= n,
            n == attrs.len(),
            views == attribute_views(attrs@),
            out@ == old(out)@ + attributes_gtf_reversed(views, k as int),
        decreases n - k,
    {
        push_attribute_gtf(out, &attrs[n - 1 - k]);
        proof {
            assert(views[n - (k + 1)] == attrs@[n - 1 - k]@);
            assert(out@ =~= old(out)@ + attributes_gtf_reversed(views, k + 1));
        }
        k += 1;
    }
}

impl NodeData {
    /// The columns of the line of the `i`-th exon.
    fn exon_columns(&self, i: usize) -> (r: Vec<u8>)
        requires
            i < self@.exons.len(),
        ensures
            r@ == exon_columns(self@, i as int),
    {
        assert(i < self.exons.exons.len());
        let exon = self.exons.exons[i];
        let sign = self.strand.symbol();
        let mut line = to_vec(self.reference_id.as_slice());
        append(&mut line, "\ttsg\texon\t".as_bytes());
        push_decimal(&mut line, exon.start as u64);
        append(&mut line, "\t".as_bytes());
        push_decimal(&mut line, exon.end as u64);
        append(&mut line, "\t.\t".as_bytes());
        let ghost before_sign = line@;
        line.push(sign);
        proof {
            assert(seq![sign] == strand_text(self@.strand));
            assert(line@ =~= before_sign + strand_text(self@.strand));
        }
        append(&mut line, "\t.\texon_id \"".as_bytes());
        push_padded3(&mut line, (i + 1) as u64);
        append(&mut line, "\"; ".as_bytes());
        line
    }

    /// Appends the line of the `i`-th exon.
    fn exon_gtf_into(&self, i: usize, extra: &[Attribute], out: &mut Vec<u8>)
        requires
            i < self@.exons.len(),
        ensures
            final(out)@ == old(out)@ + exon_gtf(self@, i as int, attribute_views(extra@)),
    {
        let mut line = self.exon_columns(i);
        push_attributes_gtf(&mut line, self.attributes.as_slice());
        push_attributes_gtf_reversed(&mut line, extra);
        append(out, line.as_slice());
    }

    /// Appends the annotation of the node with the attributes `extra`.
    pub fn gtf_into(&self, extra: &[Attribute], out: &mut Vec<u8>)
        ensures
            final(out)@ == old(out)@ + node_gtf(self@, attribute_views(extra@)),
    {
        let ghost lines = exon_lines(self@, attribute_views(extra@));
        let mut i: usize = 0;
        proof {
            assert(lines.take(0) =~= Seq::<Seq<u8>>::empty());
            assert(out@ =~= old(out)@ + join(lines.take(0), 10));
        }
        while i < self.exons.exons.len()
            invariant
                i <= self.exons.exons.len(),
                lines == exon_lines(self@, attribute_views(extra@)),
                out@ == old(out)@ + join(lines.take(i as int), 10),
            decreases self.exons.exons.len() - i,
        {
            if i > 0 {
                out.push(10);
            }
            self.exon_gtf_into(i, extra, out);
            proof {
                let t = lines.take(i + 1);
                assert(t.drop_last() =~= lines.take(i as int));
                assert(t.last() == exon_gtf(self@, i as int, attribute_views(extra@)));
                assert(out@ =~= old(out)@ + join(t, 10));
            }
            i += 1;
        }
        proof {
            assert(lines.take(self.exons.exons.len() as int) =~= lines);
        }
    }

    /// The annotation of the node: one line for each exon, with the
    /// attributes of the node and then the attributes `attributes`, the last
    /// first.
    pub fn to_gtf(&self, attributes: Option<&[Attribute]>) -> (r: Vec<u8>)
        ensures
            r@ == node_gtf(self@, extra_views(attributes)),
    {
        let mut out: Vec<u8> = Vec::new();
        match attributes {
            Some(extra) => self.gtf_into(extra, &mut out),
            None => {
                let none: Vec<Attribute> = Vec::new();
                proof {
                    assert(attribute_views(none@) =~= Seq::<AttributeView>::empty());
                }
                self.gtf_into(none.as_slice(), &mut out)
            },
        }
        out
    }
}

/// Appends the text of one attribute of a path.
fn push_path_attribute_gtf(out: &mut Vec<u8>, a: &Attribute)
    ensures
        final(out)@ == old(out)@ + path_attribute_gtf(a@),
{
    let mut text = to_vec(a.tag.as_slice());
    append(&mut text, " \"".as_bytes());
    a.value.render_into(&mut text);
    append(&mut text, "\";".as_bytes());
    append(out, text.as_slice());
}

/// The line of a transcript.
fn transcript_line(id: &[u8], attrs: &Vec<Attribute>) -> (r: Vec<u8>)
    ensures
        r@ == transcript_gtf(id@, attribute_views(attrs@)),
{
    let mut line = to_vec(".\ttsg\ttranscript\t.\t.\t.\t.\t.\ttranscript_id \"".as_bytes());
    append(&mut line, id);
    append(&mut line, "\";".as_bytes());
    let ghost head = line@;
    let ghost views = attribute_views(attrs@);
    let mut i: usize = 0;
    proof {
        assert(line@ =~= head + path_attributes_gtf(views, 0));
    }
    while i < attrs.len()
        invariant
            i <= attrs.len(),
            views == attribute_views(attrs@),
            line@ == head + path_attributes_gtf(views, i as int),
        decreases attrs.len() - i,
    {
        push_path_attribute_gtf(&mut line, &attrs[i]);
        proof {
            assert(views[i as int] == attrs@[i as int]@);
            assert(line@ =~= head + path_attributes_gtf(views, i + 1));
        }
        i += 1;
    }
    line
}

/// The attributes that the `i`-th segment of the transcript `id` gets.
fn segment_extra(id: &[u8], i: usize) -> (r: Vec<Attribute>)
    requires
        i < usize::MAX,
    ensures
        attribute_views(r@) == segment_attributes(id@, i as int),
{
    let mut number: Vec<u8> = Vec::new();
    push_padded3(&mut number, (i + 1) as u64);
    proof {
        assert(number@ =~= padded3((i + 1) as nat));
    }
    let mut extra: Vec<Attribute> = Vec::new();
    extra.push(
        Attribute {
            tag: to_vec("transcript_id".as_bytes()),
            value: AttributeValue::Text(to_vec(id)),
        },
    );
    extra.push(
        Attribute { tag: to_vec("segment_id".as_bytes()), value: AttributeValue::Text(number) },
    );
    proof {
        assert(attribute_views(extra@) =~= segment_attributes(id@, i as int));
    }
    extra
}

impl TSGPath {
    /// The annotation of the path in the section `section`: the line of the
    /// transcript, then the lines of the exons of each of its nodes.
    pub fn to_gtf(&self, section: &GraphSection) -> (r: Result<Vec<u8>, PathError>)
        ensures
            match r {
                Ok(v) => path_gtf(section@, self@) == Ok::<Seq<u8>, PathError>(v@),
                Err(e) => path_gtf(section@, self@) == Err::<Seq<u8>, PathError>(e),
            },
    {
        let id = match self.id(section) {
            Ok(v) => v,
            Err(e) => {
                return Err(e);
            },
        };
        let ghost lines = transcript_lines(section@, self@, id@);
        let nodes = section.nodes();
        let mut out = transcript_line(id.as_slice(), &self.attributes);
        let mut i: usize = 0;
        proof {
            lemma_first_outside(self@.nodes, section@.nodes.len() as int);
            assert(lines.take(1) =~= seq![transcript_gtf(id@, self@.attributes)]);
        }
        while i < self.nodes.len()
            invariant
                i <= self.nodes.len(),
                lines == transcript_lines(section@, self@, id@),
                node_views(nodes@) == section@.nodes,
                forall|k: int|
                    0 <= k < self@.nodes.len() ==> 0 <= #[trigger] self@.nodes[k]
                        < section@.nodes.len(),
                out@ == join(lines.take(i + 1), 10),
            decreases self.nodes.len() - i,
        {
            assert(self@.nodes[i as int] == self.nodes@[i as int]);
            let node = &nodes[self.nodes[i]];
            let extra = segment_extra(id.as_slice(), i);
            let ghost before = out@;
            out.push(10);
            node.gtf_into(extra.as_slice(), &mut out);
            proof {
                let t = lines.take(i + 2);
                assert(t.drop_last() =~= lines.take(i + 1));
                assert(node_views(nodes@)[self.nodes@[i as int] as int] == node@);
                assert(t.last() == node_gtf(node@, segment_attributes(id@, i as int)));
                assert(out@ =~= before + seq![10u8] + t.last());
            }
            i += 1;
        }
        proof {
            assert(lines.take(self.nodes.len() + 1) =~= lines);
        }
        Ok(out)
    }
}

} // verus!
