//! A node as a structured record: an ordered list of named values.

use crate::attribute::{attribute_views, Attribute, AttributeValue, AttributeView, ValueView};
use crate::gtf::{extra_views, lit};
use crate::interval::render_exons;
use crate::lookup::{lemma_position_is, position};
use crate::node::{NodeData, NodeView};
use crate::read::{read_texts, read_views, strand_text, ReadData};
use crate::scan::{append, bytes_eq, to_vec};
use vstd::prelude::*;

verus! {

/// A value of a structured record.
#[derive(Debug, Clone, PartialEq, Eq)]
pub enum JsonValue {
    /// A coordinate.
    Number(usize),
    /// A whole number.
    Integer(i64),
    /// A floating-point number, as the literal it was written with.
    Float(Vec<u8>),
    /// A string.
    Text(Vec<u8>),
    /// A list of strings.
    Texts(Vec<Vec<u8>>),
}

/// One named value of a structured record.
#[derive(Debug, Clone, PartialEq, Eq)]
pub struct JsonField {
    pub key: Vec<u8>,
    pub value: JsonValue,
}

/// A structured record: the named values under its key `data`, no name
/// twice.
#[derive(Debug, Clone, Default, PartialEq, Eq)]
pub struct NodeJson {
    pub data: Vec<JsonField>,
}

/// What a `JsonValue` holds.
pub enum JsonValueView {
    Number(usize),
    Integer(i64),
    Float(Seq<u8>),
    Text(Seq<u8>),
    Texts(Seq<Seq<u8>>),
}

/// What a `JsonField` holds.
pub struct JsonFieldView {
    pub key: Seq<u8>,
    pub value: JsonValueView,
}

/// The views of a sequence of byte strings.
pub open spec fn text_views(v: Seq<Vec<u8>>) -> Seq<Seq<u8>> {
    Seq::new(v.len(), |i: int| v[i]@)
}

impl View for JsonValue {
    type V = JsonValueView;

    open spec fn view(&self) -> JsonValueView {
        match self {
            JsonValue::Number(n) => JsonValueView::Number(*n),
            JsonValue::Integer(n) => JsonValueView::Integer(*n),
            JsonValue::Float(t) => JsonValueView::Float(t@),
            JsonValue::Text(t) => JsonValueView::Text(t@),
            JsonValue::Texts(ts) => JsonValueView::Texts(text_views(ts@)),
        }
    }
}

impl View for JsonField {
    type V = JsonFieldView;

    open spec fn view(&self) -> JsonFieldView {
        JsonFieldView { key: self.key@, value: self.value@ }
    }
}

/// The views of a sequence of fields.
pub open spec fn field_views(v: Seq<JsonField>) -> Seq<JsonFieldView> {
    Seq::new(v.len(), |i: int| v[i]@)
}

impl View for NodeJson {
    type V = Seq<JsonFieldView>;

    open spec fn view(&self) -> Seq<JsonFieldView> {
        field_views(self.data@)
    }
}

/// The names of the fields of `fields`.
pub open spec fn keys(fields: Seq<JsonFieldView>) -> Seq<Seq<u8>> {
    Seq::new(fields.len(), |i: int| fields[i].key)
}

/// `fields` with `value` under the name `key`: in the place of the field of
/// that name, or at the end if there is none.
pub open spec fn put(fields: Seq<JsonFieldView>, key: Seq<u8>, value: JsonValueView) -> Seq<
    JsonFieldView,
> {
    let i = position(keys(fields), key);
    if 0 <= i < fields.len() {
        fields.update(i, JsonFieldView { key, value })
    } else {
        fields.push(JsonFieldView { key, value })
    }
}

/// The value of an attribute as a value of a record.
pub open spec fn json_of(v: ValueView) -> JsonValueView {
    match v {
        ValueView::Float(t) => JsonValueView::Float(t),
        ValueView::Integer(i) => JsonValueView::Integer(i),
        ValueView::Text(t) => JsonValueView::Text(t),
    }
}

/// `fields` with the first `k` attributes of `attrs` put under their tags,
/// in order.
pub open spec fn with_attributes(
    fields: Seq<JsonFieldView>,
    attrs: Seq<AttributeView>,
    k: int,
) -> Seq<JsonFieldView>
    decreases k,
{
    if k <= 0 {
        fields
    } else {
        put(with_attributes(fields, attrs, k - 1), attrs[k - 1].tag, json_of(attrs[k - 1].value))
    }
}

/// The fields that every node has: its reference as `chrom`, the start of
/// its first exon as `ref_start`, the end of its last exon as `ref_end`, its
/// `strand`, its `exons` between square brackets, its `reads` and its `id`.
pub open spec fn base_fields(n: NodeView) -> Seq<JsonFieldView> {
    seq![
        JsonFieldView { key: lit("chrom"), value: JsonValueView::Text(n.reference_id) },
        JsonFieldView { key: lit("ref_start"), value: JsonValueView::Number(n.exons[0].start) },
        JsonFieldView { key: lit("ref_end"), value: JsonValueView::Number(n.exons.last().end) },
        JsonFieldView { key: lit("strand"), value: JsonValueView::Text(strand_text(n.strand)) },
        JsonFieldView {
            key: lit("exons"),
            value: JsonValueView::Text(lit("[") + render_exons(n.exons) + lit("]")),
        },
        JsonFieldView { key: lit("reads"), value: JsonValueView::Texts(read_texts(n.reads)) },
        JsonFieldView { key: lit("id"), value: JsonValueView::Text(n.id) },
    ]
}

/// The record of a node: its base fields, then each of its attributes put
/// under its tag, then each of the attributes `extra` likewise. A value put
/// under a name that the record has takes the place of the value there.
pub open spec fn node_json(n: NodeView, extra: Seq<AttributeView>) -> Seq<JsonFieldView> {
    with_attributes(
        with_attributes(base_fields(n), n.attributes, n.attributes.len() as int),
        extra,
        extra.len() as int,
    )
}

/// Puts `value` under the name `key`.
pub fn put_field(fields: &mut Vec<JsonField>, key: Vec<u8>, value: JsonValue)
    ensures
        field_views(final(fields)@) == put(field_views(old(fields)@), key@, value@),
{
    let ghost views = field_views(fields@);
    let ghost names = keys(views);
    let ghost added = JsonFieldView { key: key@, value: value@ };
    let mut i: usize = 0;
    while i < fields.len()
        invariant
            i <= fields.len(),
            fields@ == old(fields)@,
            views == field_views(fields@),
            names == keys(views),
            added == (JsonFieldView { key: key@, value: value@ }),
            forall|k: int| 0 <= k < i ==> names[k] != key@,
        decreases fields.len() - i,
    {
        if bytes_eq(fields[i].key.as_slice(), key.as_slice()) {
            proof {
                assert(names[i as int] == key@);
                lemma_position_is(names, key@, i as int);
            }
            let field = JsonField { key, value };
            let ghost f = field;
            let ghost before = fields@;
            fields[i] = field;
            proof {
                assert(fields@ =~= before.update(i as int, f));
                assert(f@ == added);
                assert(field_views(fields@) =~= views.update(i as int, added));
            }
            return ;
        }
        assert(names[i as int] != key@);
        i += 1;
    }
    proof {
        lemma_position_is(names, key@, i as int);
    }
    fields.push(JsonField { key, value });
    proof {
        assert(field_views(fields@) =~= views.push(added));
    }
}

/// The value of an attribute as a value of a record.
fn json_value(v: &AttributeValue) -> (r: JsonValue)
    ensures
        r@ == json_of(v@),
{
    match v {
        AttributeValue::Float(t) => JsonValue::Float(to_vec(t.as_slice())),
        AttributeValue::Integer(i) => JsonValue::Integer(*i),
        AttributeValue::Text(t) => JsonValue::Text(to_vec(t.as_slice())),
    }
}

/// Puts each of the attributes under its tag, in order.
fn put_attributes(fields: &mut Vec<JsonField>, attrs: &[Attribute])
    ensures
        field_views(final(fields)@) == with_attributes(
            field_views(old(fields)@),
            attribute_views(attrs@),
            attrs@.len() as int,
        ),
{
    let ghost start = field_views(fields@);
    let ghost views = attribute_views(attrs@);
    let mut i: usize = 0;
    while i < attrs.len()
        invariant
            i <= attrs.len(),
            views == attribute_views(attrs@),
            field_views(fields@) == with_attributes(start, views, i as int),
        decreases attrs.len() - i,
    {
        assert(views[i as int] == attrs@[i as int]@);
        put_field(fields, to_vec(attrs[i].tag.as_slice()), json_value(&attrs[i].value));
        i += 1;
    }
}

/// The texts of a list of reads.
fn read_text_list(reads: &Vec<ReadData>) -> (r: Vec<Vec<u8>>)
    ensures
        text_views(r@) == read_texts(read_views(reads@)),
{
    let mut out: Vec<Vec<u8>> = Vec::new();
    let mut i: usize = 0;
    while i < reads.len()
        invariant
            i <= reads.len(),
            out.len() == i,
            forall|k: int|
                0 <= k < i ==> (#[trigger] out@[k])@ == crate::read::render_read(reads@[k]@),
        decreases reads.len() - i,
    {
        out.push(reads[i].to_bytes());
        i += 1;
    }
    proof {
        assert(text_views(out@) =~= read_texts(read_views(reads@)));
    }
    out
}

impl NodeData {
    /// The node as a structured record, with the attributes `attributes`
    /// put into it after its own.
    pub fn to_json(&self, attributes: Option<&[Attribute]>) -> (r: NodeJson)
        requires
            self@.exons.len() > 0,
        ensures
            r@ == node_json(self@, extra_views(attributes)),
    {
        let mut exons = to_vec("[".as_bytes());
        self.exons.render_into(&mut exons);
        append(&mut exons, "]".as_bytes());
        let sign = self.strand.symbol();
        let mut strand: Vec<u8> = Vec::new();
        strand.push(sign);
        proof {
            assert(strand@ =~= seq![sign]);
        }
        let mut data: Vec<JsonField> = Vec::new();
        data.push(
            JsonField {
                key: to_vec("chrom".as_bytes()),
                value: JsonValue::Text(to_vec(self.reference_id.as_slice())),
            },
        );
        data.push(
            JsonField {
                key: to_vec("ref_start".as_bytes()),
                value: JsonValue::Number(self.reference_start()),
            },
        );
        data.push(
            JsonField {
                key: to_vec("ref_end".as_bytes()),
                value: JsonValue::Number(self.reference_end()),
            },
        );
        data.push(JsonField { key: to_vec("strand".as_bytes()), value: JsonValue::Text(strand) });
        data.push(JsonField { key: to_vec("exons".as_bytes()), value: JsonValue::Text(exons) });
        data.push(
            JsonField {
                key: to_vec("reads".as_bytes()),
                value: JsonValue::Texts(read_text_list(&self.reads)),
            },
        );
        data.push(
            JsonField {
                key: to_vec("id".as_bytes()),
                value: JsonValue::Text(to_vec(self.id.as_slice())),
            },
        );
        proof {
            assert(field_views(data@) =~= base_fields(self@));
        }
        put_attributes(&mut data, self.attributes.as_slice());
        match attributes {
            Some(extra) => put_attributes(&mut data, extra),
            None => {},
        }
        NodeJson { data }
    }
}

} // verus!
