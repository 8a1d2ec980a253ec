//! Typed attributes: `tag:type:value` triplets attached to nodes, edges and
//! paths.

use crate::error::ParseReason;
use crate::float::{is_float_bytes, is_float_literal, lemma_float_no_space};
use crate::number::{
    lemma_parse_i64_render, lemma_render_int_bytes, parse_i64, parse_i64_bytes, push_int,
    render_int,
};
use crate::read::COLON;
use crate::scan::{append, bytes_eq, find_byte, to_vec};
use crate::text::{
    find, free_of, is_space, lemma_prefix_len_is, no_space, other_than, views,
};
use vstd::prelude::*;

verus! {

/// The type letter of a floating-point value, `f`.
pub const KIND_FLOAT: u8 = 102;

/// The type letter of an integer value, `i`.
pub const KIND_INTEGER: u8 = 105;

/// The type letter of a string value, `Z`.
pub const KIND_TEXT: u8 = 90;

/// The value of an attribute.
#[derive(Debug, Clone, PartialEq, Eq)]
pub enum AttributeValue {
    /// A floating-point number, kept as the literal it was written with.
    Float(Vec<u8>),
    /// A whole number.
    Integer(i64),
    /// A string.
    Text(Vec<u8>),
}

/// A tagged value.
#[derive(Debug, Clone, PartialEq, Eq)]
pub struct Attribute {
    pub tag: Vec<u8>,
    pub value: AttributeValue,
}

/// What an `AttributeValue` holds.
pub enum ValueView {
    Float(Seq<u8>),
    Integer(i64),
    Text(Seq<u8>),
}

/// What an `Attribute` holds.
pub struct AttributeView {
    pub tag: Seq<u8>,
    pub value: ValueView,
}

impl View for AttributeValue {
    type V = ValueView;

    open spec fn view(&self) -> ValueView {
        match self {
            AttributeValue::Float(t) => ValueView::Float(t@),
            AttributeValue::Integer(v) => ValueView::Integer(*v),
            AttributeValue::Text(t) => ValueView::Text(t@),
        }
    }
}

impl View for Attribute {
    type V = AttributeView;

    open spec fn view(&self) -> AttributeView {
        AttributeView { tag: self.tag@, value: self.value@ }
    }
}

/// The views of a sequence of attributes.
pub open spec fn attribute_views(v: Seq<Attribute>) -> Seq<AttributeView> {
    Seq::new(v.len(), |i: int| v[i]@)
}

/// The letter that names the type of a value.
pub open spec fn kind_of(v: ValueView) -> u8 {
    match v {
        ValueView::Float(_) => 102,
        ValueView::Integer(_) => 105,
        ValueView::Text(_) => 90,
    }
}

/// The text of a value.
pub open spec fn value_text(v: ValueView) -> Seq<u8> {
    match v {
        ValueView::Float(t) => t,
        ValueView::Integer(i) => render_int(i as int),
        ValueView::Text(t) => t,
    }
}

/// The value that `text` denotes under the type letter `kind`, if any.
pub open spec fn decode_value(kind: u8, text: Seq<u8>) -> Option<ValueView> {
    if kind == 102 {
        if is_float_literal(text) {
            Some(ValueView::Float(text))
        } else {
            None
        }
    } else if kind == 105 {
        match parse_i64(text) {
            Some(v) => Some(ValueView::Integer(v)),
            None => None,
        }
    } else if kind == 90 {
        Some(ValueView::Text(text))
    } else {
        None
    }
}

/// The text of an attribute: `tag:type:value`.
pub open spec fn render_attribute(a: AttributeView) -> Seq<u8> {
    a.tag + seq![58u8, kind_of(a.value), 58u8] + value_text(a.value)
}

/// The attribute that `s` denotes, if it is of the form `tag:type:value`
/// with a non-empty tag and a value that decodes under its type.
pub open spec fn parse_attribute(s: Seq<u8>) -> Option<AttributeView> {
    let i = find(s, 58);
    if 0 < i && i + 2 < s.len() && s[i + 2] == 58 {
        match decode_value(s[i + 1], s.skip(i + 3)) {
            Some(v) => Some(AttributeView { tag: s.take(i), value: v }),
            None => None,
        }
    } else {
        None
    }
}

/// An attribute can be written in a line when its tag is a non-empty run of
/// bytes without whitespace or `:`, and its value holds no whitespace and,
/// if it is a floating-point number, is a literal.
pub open spec fn attribute_wf(a: AttributeView) -> bool {
    &&& a.tag.len() > 0
    &&& no_space(a.tag)
    &&& free_of(a.tag, 58)
    &&& match a.value {
        ValueView::Float(t) => is_float_literal(t),
        ValueView::Integer(_) => true,
        ValueView::Text(t) => no_space(t),
    }
}

/// Position of the first attribute of `attrs` with the tag `tag`, or
/// `attrs.len()` if there is none.
pub open spec fn tag_position(attrs: Seq<AttributeView>, tag: Seq<u8>) -> int
    decreases attrs.len(),
{
    if attrs.len() == 0 || attrs[0].tag == tag {
        0
    } else {
        1 + tag_position(attrs.skip(1), tag)
    }
}

/// No two attributes of `attrs` have the same tag.
pub open spec fn unique_tags(attrs: Seq<AttributeView>) -> bool {
    forall|i: int, j: int|
        0 <= i < j < attrs.len() ==> (#[trigger] attrs[i]).tag != (#[trigger] attrs[j]).tag
}

/// `attrs` with `a` put in the place of the attribute that has its tag, or
/// at the end if there is none.
pub open spec fn merge(attrs: Seq<AttributeView>, a: AttributeView) -> Seq<AttributeView> {
    let i = tag_position(attrs, a.tag);
    if 0 <= i < attrs.len() {
        attrs.update(i, a)
    } else {
        attrs.push(a)
    }
}

/// The attributes that a sequence of tokens denotes, merged in order, if
/// each token denotes one.
pub open spec fn parse_attributes(toks: Seq<Seq<u8>>) -> Option<Seq<AttributeView>>
    decreases toks.len(),
{
    if toks.len() == 0 {
        Some(Seq::empty())
    } else {
        match (parse_attributes(toks.drop_last()), parse_attribute(toks.last())) {
            (Some(l), Some(a)) => Some(merge(l, a)),
            _ => None,
        }
    }
}

/// The texts of the attributes of `attrs`.
pub open spec fn attribute_texts(attrs: Seq<AttributeView>) -> Seq<Seq<u8>> {
    Seq::new(attrs.len(), |i: int| render_attribute(attrs[i]))
}

/// `tag_position` stays within the sequence, no attribute before it has the
/// tag, and the attribute at it, if any, has it.
pub proof fn lemma_tag_position(attrs: Seq<AttributeView>, tag: Seq<u8>)
    ensures
        0 <= tag_position(attrs, tag) <= attrs.len(),
        forall|k: int| 0 <= k < tag_position(attrs, tag) ==> (#[trigger] attrs[k]).tag != tag,
        tag_position(attrs, tag) < attrs.len() ==> attrs[tag_position(attrs, tag)].tag == tag,
    decreases attrs.len(),
{
    if attrs.len() > 0 && attrs[0].tag != tag {
        let t = attrs.skip(1);
        lemma_tag_position(t, tag);
        assert forall|k: int| 0 <= k < tag_position(attrs, tag) implies (#[trigger] attrs[k]).tag
            != tag by {
            if k > 0 {
                assert(attrs[k] == t[k - 1]);
            }
        }
        if tag_position(attrs, tag) < attrs.len() {
            assert(attrs[tag_position(attrs, tag)] == t[tag_position(t, tag)]);
        }
    }
}

/// The first position at which the tag stands is `tag_position`.
pub proof fn lemma_tag_position_is(attrs: Seq<AttributeView>, tag: Seq<u8>, n: int)
    requires
        0 <= n <= attrs.len(),
        forall|k: int| 0 <= k < n ==> (#[trigger] attrs[k]).tag != tag,
        n < attrs.len() ==> attrs[n].tag == tag,
    ensures
        tag_position(attrs, tag) == n,
    decreases attrs.len(),
{
    if n > 0 {
        let t = attrs.skip(1);
        assert(attrs[0].tag != tag);
        assert forall|k: int| 0 <= k < n - 1 implies (#[trigger] t[k]).tag != tag by {
            assert(t[k] == attrs[k + 1]);
        }
        if n - 1 < t.len() {
            assert(t[n - 1] == attrs[n]);
        }
        lemma_tag_position_is(t, tag, n - 1);
    }
}

/// Merging keeps tags unique.
pub proof fn lemma_merge_unique(attrs: Seq<AttributeView>, a: AttributeView)
    requires
        unique_tags(attrs),
    ensures
        unique_tags(merge(attrs, a)),
{
    lemma_tag_position(attrs, a.tag);
    let m = merge(attrs, a);
    let p = tag_position(attrs, a.tag);
    assert forall|i: int, j: int| 0 <= i < j < m.len() implies (#[trigger] m[i]).tag != (
    #[trigger] m[j]).tag by {
        if p < attrs.len() {
            if i == p {
                assert(attrs[p].tag != attrs[j].tag);
            } else if j == p {
                assert(attrs[i].tag != attrs[p].tag);
            } else {
                assert(attrs[i].tag != attrs[j].tag);
            }
        } else {
            if j == attrs.len() {
                assert(attrs[i].tag != a.tag);
            } else {
                assert(attrs[i].tag != attrs[j].tag);
            }
        }
    }
}

/// The attributes that tokens denote have unique tags.
pub proof fn lemma_parse_attributes_unique(toks: Seq<Seq<u8>>)
    ensures
        parse_attributes(toks).is_some() ==> unique_tags(parse_attributes(toks).unwrap()),
    decreases toks.len(),
{
    if toks.len() > 0 {
        lemma_parse_attributes_unique(toks.drop_last());
        if parse_attributes(toks).is_some() {
            lemma_merge_unique(
                parse_attributes(toks.drop_last()).unwrap(),
                parse_attribute(toks.last()).unwrap(),
            );
        }
    }
}

/// Reading the text of a well-formed attribute gives the attribute back; the
/// text is a token that holds a `:`.
pub proof fn lemma_attribute_round_trip(a: AttributeView)
    requires
        attribute_wf(a),
    ensures
        parse_attribute(render_attribute(a)) == Some(a),
        render_attribute(a).len() > 0,
        no_space(render_attribute(a)),
        !free_of(render_attribute(a), 58),
{
    let s = render_attribute(a);
    let n = a.tag.len() as int;
    let v = value_text(a.value);
    assert(s[n] == 58);
    assert(s[n + 1] == kind_of(a.value));
    assert(s[n + 2] == 58);
    assert forall|i: int| 0 <= i < n implies (other_than(58))(#[trigger] s[i]) by {
        assert(s[i] == a.tag[i]);
    }
    lemma_prefix_len_is(s, other_than(58), n);
    assert(s.take(n) =~= a.tag);
    assert(s.skip(n + 3) =~= v);
    match a.value {
        ValueView::Float(t) => {
            lemma_float_no_space(t);
        },
        ValueView::Integer(i) => {
            lemma_parse_i64_render(i);
            lemma_render_int_bytes(i as int, 58);
        },
        ValueView::Text(t) => {},
    }
    assert(no_space(v));
    assert forall|i: int| 0 <= i < s.len() implies !is_space(#[trigger] s[i]) by {
        if i < n {
            assert(s[i] == a.tag[i]);
        } else if i >= n + 3 {
            assert(s[i] == v[i - n - 3]);
        }
    }
}

/// Reading the texts of well-formed attributes with unique tags gives the
/// attributes back.
pub proof fn lemma_attributes_round_trip(attrs: Seq<AttributeView>)
    requires
        unique_tags(attrs),
        forall|i: int| 0 <= i < attrs.len() ==> attribute_wf(#[trigger] attrs[i]),
    ensures
        parse_attributes(attribute_texts(attrs)) == Some(attrs),
    decreases attrs.len(),
{
    let texts = attribute_texts(attrs);
    if attrs.len() == 0 {
        assert(attrs =~= Seq::<AttributeView>::empty());
    } else {
        let init = attrs.drop_last();
        assert forall|i: int, j: int| 0 <= i < j < init.len() implies (#[trigger] init[i]).tag != (
        #[trigger] init[j]).tag by {
            assert(init[i] == attrs[i]);
            assert(init[j] == attrs[j]);
        }
        assert forall|i: int| 0 <= i < init.len() implies attribute_wf(#[trigger] init[i]) by {
            assert(init[i] == attrs[i]);
        }
        lemma_attributes_round_trip(init);
        assert(texts.drop_last() =~= attribute_texts(init));
        lemma_attribute_round_trip(attrs.last());
        assert(texts.last() == render_attribute(attrs.last()));
        assert forall|k: int| 0 <= k < init.len() implies (#[trigger] init[k]).tag
            != attrs.last().tag by {
            assert(init[k] == attrs[k]);
            assert(attrs[k].tag != attrs[attrs.len() - 1].tag);
        }
        lemma_tag_position_is(init, attrs.last().tag, init.len() as int);
        assert(merge(init, attrs.last()) =~= attrs);
    }
}

impl AttributeValue {
    /// The letter that names the type of the value.
    pub fn kind(&self) -> (r: u8)
        ensures
            r == kind_of(self@),
    {
        match self {
            AttributeValue::Float(_) => KIND_FLOAT,
            AttributeValue::Integer(_) => KIND_INTEGER,
            AttributeValue::Text(_) => KIND_TEXT,
        }
    }

    /// Decodes `text` under the type letter `kind`.
    pub fn decode(kind: u8, text: &[u8]) -> (r: Result<AttributeValue, ParseReason>)
        ensures
            match r {
                Ok(v) => decode_value(kind, text@) == Some(v@),
                Err(e) => decode_value(kind, text@).is_none() && e
                    == ParseReason::InvalidAttribute,
            },
    {
        if kind == KIND_FLOAT {
            if is_float_bytes(text) {
                Ok(AttributeValue::Float(to_vec(text)))
            } else {
                Err(ParseReason::InvalidAttribute)
            }
        } else if kind == KIND_INTEGER {
            match parse_i64_bytes(text) {
                Some(v) => Ok(AttributeValue::Integer(v)),
                None => Err(ParseReason::InvalidAttribute),
            }
        } else if kind == KIND_TEXT {
            Ok(AttributeValue::Text(to_vec(text)))
        } else {
            Err(ParseReason::InvalidAttribute)
        }
    }

    /// Appends the text of the value to `out`.
    pub fn render_into(&self, out: &mut Vec<u8>)
        ensures
            final(out)@ == old(out)@ + value_text(self@),
    {
        match self {
            AttributeValue::Float(t) => append(out, t.as_slice()),
            AttributeValue::Integer(v) => push_int(out, *v),
            AttributeValue::Text(t) => append(out, t.as_slice()),
        }
    }
}

impl Attribute {
    /// Reads an attribute of the form `tag:type:value`.
    pub fn from_bytes(s: &[u8]) -> (r: Result<Attribute, ParseReason>)
        ensures
            match r {
                Ok(a) => parse_attribute(s@) == Some(a@),
                Err(e) => parse_attribute(s@).is_none() && e == ParseReason::InvalidAttribute,
            },
    {
        proof {
            assert(s@.skip(0) =~= s@);
        }
        let i = find_byte(s, 0, COLON);
        if i == 0 || s.len() < 3 || i >= s.len() - 2 || s[i + 2] != COLON {
            return Err(ParseReason::InvalidAttribute);
        }
        let text = vstd::slice::slice_subrange(s, i + 3, s.len());
        proof {
            assert(text@ =~= s@.skip(i + 3));
        }
        match AttributeValue::decode(s[i + 1], text) {
            Ok(value) => {
                let tag = to_vec(vstd::slice::slice_subrange(s, 0, i));
                proof {
                    assert(tag@ =~= s@.take(i as int));
                }
                Ok(Attribute { tag, value })
            },
            Err(e) => Err(e),
        }
    }

    /// Appends the text of the attribute to `out`.
    pub fn render_into(&self, out: &mut Vec<u8>)
        ensures
            final(out)@ == old(out)@ + render_attribute(self@),
    {
        append(out, self.tag.as_slice());
        out.push(COLON);
        out.push(self.value.kind());
        out.push(COLON);
        self.value.render_into(out);
        proof {
            assert(out@ =~= old(out)@ + render_attribute(self@));
        }
    }

    /// The text of the attribute.
    pub fn to_bytes(&self) -> (r: Vec<u8>)
        ensures
            r@ == render_attribute(self@),
    {
        let mut out: Vec<u8> = Vec::new();
        self.render_into(&mut out);
        out
    }
}

/// Position of the first attribute with the tag `tag`.
pub fn find_tag(attrs: &Vec<Attribute>, tag: &[u8]) -> (r: usize)
    ensures
        r == tag_position(attribute_views(attrs@), tag@),
        r <= attrs.len(),
{
    let mut i: usize = 0;
    while i < attrs.len()
        invariant
            i <= attrs.len(),
            forall|k: int| 0 <= k < i ==> (#[trigger] attribute_views(attrs@)[k]).tag != tag@,
        decreases attrs.len() - i,
    {
        if bytes_eq(attrs[i].tag.as_slice(), tag) {
            proof {
                assert(attribute_views(attrs@)[i as int].tag == tag@);
                lemma_tag_position_is(attribute_views(attrs@), tag@, i as int);
            }
            return i;
        }
        assert(attribute_views(attrs@)[i as int].tag != tag@);
        i += 1;
    }
    proof {
        lemma_tag_position_is(attribute_views(attrs@), tag@, i as int);
    }
    i
}

/// Puts `a` in the place of the attribute that has its tag, or at the end
/// if there is none.
pub fn merge_attribute(attrs: &mut Vec<Attribute>, a: Attribute)
    ensures
        attribute_views(final(attrs)@) == merge(attribute_views(old(attrs)@), a@),
{
    let i = find_tag(attrs, a.tag.as_slice());
    let ghost av = a@;
    if i < attrs.len() {
        attrs[i] = a;
        proof {
            assert(attribute_views(attrs@) =~= attribute_views(old(attrs)@).update(i as int, av));
        }
    } else {
        attrs.push(a);
        proof {
            assert(attribute_views(attrs@) =~= attribute_views(old(attrs)@).push(av));
        }
    }
}

/// Reads the tokens from position `from` on as attributes, merged in order.
pub fn parse_attribute_list(toks: &Vec<&[u8]>, from: usize) -> (r: Result<
    Vec<Attribute>,
    ParseReason,
>)
    requires
        from <= toks.len(),
    ensures
        match r {
            Ok(v) => parse_attributes(views(toks@).skip(from as int)) == Some(
                attribute_views(v@),
            ),
            Err(e) => parse_attributes(views(toks@).skip(from as int)).is_none() && e
                == ParseReason::InvalidAttribute,
        },
{
    let ghost t = views(toks@).skip(from as int);
    let mut attrs: Vec<Attribute> = Vec::new();
    let mut i: usize = from;
    proof {
        assert(t.take(0) =~= Seq::<Seq<u8>>::empty());
        assert(attribute_views(attrs@) =~= Seq::<AttributeView>::empty());
    }
    while i < toks.len()
        invariant
            from <= i <= toks.len(),
            t == views(toks@).skip(from as int),
            parse_attributes(t.take(i - from)) == Some(attribute_views(attrs@)),
        decreases toks.len() - i,
    {
        proof {
            let u = t.take(i - from + 1);
            assert(u.drop_last() =~= t.take(i - from));
            assert(u.last() == toks@[i as int]@);
        }
        match Attribute::from_bytes(toks[i]) {
            Ok(a) => {
                merge_attribute(&mut attrs, a);
            },
            Err(e) => {
                proof {
                    lemma_parse_attributes_prefix(t, i - from + 1);
                }
                return Err(e);
            },
        }
        i += 1;
    }
    proof {
        assert(t.take(toks.len() - from) =~= t);
    }
    Ok(attrs)
}

/// If a prefix of the tokens denotes no attributes, neither do all of them.
pub proof fn lemma_parse_attributes_prefix(toks: Seq<Seq<u8>>, k: int)
    requires
        0 <= k <= toks.len(),
        parse_attributes(toks.take(k)).is_none(),
    ensures
        parse_attributes(toks).is_none(),
    decreases toks.len() - k,
{
    if k == toks.len() {
        assert(toks.take(k) =~= toks);
    } else {
        assert(toks.drop_last().take(k) =~= toks.take(k));
        lemma_parse_attributes_prefix(toks.drop_last(), k);
    }
}

/// The attribute that a token denotes is well formed.
pub proof fn lemma_parsed_attribute_wf(tok: Seq<u8>)
    requires
        no_space(tok),
        parse_attribute(tok).is_some(),
    ensures
        attribute_wf(parse_attribute(tok).unwrap()),
{
    let i = find(tok, 58);
    let a = parse_attribute(tok).unwrap();
    crate::text::lemma_prefix_len(tok, other_than(58));
    assert forall|k: int| 0 <= k < a.tag.len() implies !is_space(#[trigger] a.tag[k])
        && a.tag[k] != 58 by {
        assert(a.tag[k] == tok[k]);
        assert((other_than(58))(tok[k]));
    }
    let text = tok.skip(i + 3);
    assert forall|k: int| 0 <= k < text.len() implies !is_space(#[trigger] text[k]) by {
        assert(text[k] == tok[k + i + 3]);
    }
}

/// Merging an attribute for which `p` holds into attributes for which `p`
/// holds gives attributes for which `p` holds.
pub proof fn lemma_merge_keeps(
    attrs: Seq<AttributeView>,
    a: AttributeView,
    p: spec_fn(AttributeView) -> bool,
)
    requires
        forall|i: int| 0 <= i < attrs.len() ==> p(#[trigger] attrs[i]),
        p(a),
    ensures
        forall|i: int| 0 <= i < merge(attrs, a).len() ==> p(#[trigger] merge(attrs, a)[i]),
{
    lemma_tag_position(attrs, a.tag);
    let m = merge(attrs, a);
    assert forall|i: int| 0 <= i < m.len() implies p(#[trigger] m[i]) by {
        if i < attrs.len() && i != tag_position(attrs, a.tag) {
            assert(m[i] == attrs[i]);
        }
    }
}

/// The attributes that tokens denote are well formed.
pub proof fn lemma_parsed_attributes_wf(toks: Seq<Seq<u8>>)
    requires
        forall|k: int| 0 <= k < toks.len() ==> no_space(#[trigger] toks[k]),
        parse_attributes(toks).is_some(),
    ensures
        forall|i: int|
            0 <= i < parse_attributes(toks).unwrap().len() ==> attribute_wf(
                #[trigger] parse_attributes(toks).unwrap()[i],
            ),
    decreases toks.len(),
{
    if toks.len() > 0 {
        let init = toks.drop_last();
        assert forall|k: int| 0 <= k < init.len() implies no_space(#[trigger] init[k]) by {
            assert(init[k] == toks[k]);
        }
        lemma_parsed_attributes_wf(init);
        lemma_parsed_attribute_wf(toks.last());
        lemma_merge_keeps(
            parse_attributes(init).unwrap(),
            parse_attribute(toks.last()).unwrap(),
            |a: AttributeView| attribute_wf(a),
        );
    }
}

} // verus!
