//! The line of a node and the node of a line: reading what was written
//! gives back what was there.

use crate::attribute::{
    attribute_texts, attribute_wf, lemma_attribute_round_trip, lemma_attributes_round_trip,
    parse_attributes, render_attribute, unique_tags, AttributeView,
};
use crate::error::ParseReason;
use crate::interval::{
    interval_texts, lemma_interval_round_trip, lemma_intervals_round_trip, ordered, parse_exons,
    render_exons, render_interval, Interval,
};
use crate::node::{
    has_sequence, parse_node, parse_node_tokens, render_location, render_node, sequence_text,
    NodeView,
};
use crate::number::is_digit;
use crate::read::{
    lemma_read_round_trip, lemma_reads_round_trip, lemma_strand_round_trip, parse_reads,
    parse_strand, read_texts, read_wf, render_read, render_reads, strand_text, ReadView,
};
use crate::text::{
    free_of, is_space, is_token, join, lemma_join_free_of, lemma_join_no_space,
    lemma_split_cons, lemma_split_none, lemma_tabbed_head, lemma_tokens_cons,
    lemma_tokens_empty, lemma_tokens_skip_space, lemma_tokens_tabbed, no_space, split, tabbed,
    tokens,
};
use vstd::prelude::*;

verus! {

/// A node is well formed when a node line can say what it holds: its id is
/// a token; its reference holds no whitespace and no `:`; it has at least
/// one exon, and its exons are ordered; it has at least one read, and each
/// read is well formed; its sequence, if it has one, is a token without `:`;
/// and its attributes are well formed and have unique tags.
pub open spec fn node_wf(n: NodeView) -> bool {
    &&& is_token(n.id)
    &&& no_space(n.reference_id)
    &&& free_of(n.reference_id, 58)
    &&& n.exons.len() > 0
    &&& ordered(n.exons)
    &&& n.reads.len() > 0
    &&& forall|i: int| 0 <= i < n.reads.len() ==> read_wf(#[trigger] n.reads[i])
    &&& match n.sequence {
        Some(s) => is_token(s) && free_of(s, 58),
        None => true,
    }
    &&& unique_tags(n.attributes)
    &&& forall|i: int| 0 <= i < n.attributes.len() ==> attribute_wf(#[trigger] n.attributes[i])
}

/// The text of a non-empty chain of exons is a token without `:`.
pub proof fn lemma_exons_text(e: Seq<Interval>)
    requires
        e.len() > 0,
    ensures
        render_exons(e).len() > 0,
        no_space(render_exons(e)),
        free_of(render_exons(e), 58),
{
    let texts = interval_texts(e);
    assert forall|k: int| 0 <= k < texts.len() implies free_of(#[trigger] texts[k], 58)
        && no_space(texts[k]) by {
        lemma_interval_round_trip(e[k]);
        let t = render_interval(e[k]);
        assert(texts[k] == t);
        assert(!is_digit(58u8));
        assert(free_of(t, 58u8));
        assert forall|i: int| 0 <= i < t.len() implies !is_space(#[trigger] t[i]) by {
            if is_space(t[i]) {
                assert(!is_digit(t[i]) && t[i] != 45);
                assert(free_of(t, t[i]));
            }
        }
    }
    lemma_join_free_of(texts, 44, 58);
    lemma_join_no_space(texts, 44);
    lemma_join_len(texts, 44);
    lemma_interval_round_trip(e[0]);
    assert(texts[0] == render_interval(e[0]));
}

/// A join is at least as long as its first piece.
pub proof fn lemma_join_len(parts: Seq<Seq<u8>>, sep: u8)
    requires
        parts.len() > 0,
    ensures
        join(parts, sep).len() >= parts[0].len(),
    decreases parts.len(),
{
    if parts.len() > 1 {
        lemma_join_len(parts.drop_last(), sep);
        assert(parts.drop_last()[0] == parts[0]);
    }
}

/// The text of a non-empty list of well-formed reads is a token.
pub proof fn lemma_reads_text(rs: Seq<ReadView>)
    requires
        rs.len() > 0,
        forall|i: int| 0 <= i < rs.len() ==> read_wf(#[trigger] rs[i]),
    ensures
        is_token(render_reads(rs)),
{
    let texts = read_texts(rs);
    assert forall|k: int| 0 <= k < texts.len() implies no_space(#[trigger] texts[k]) by {
        lemma_read_round_trip(rs[k]);
        assert(texts[k] == render_read(rs[k]));
    }
    lemma_join_no_space(texts, 44);
    lemma_join_len(texts, 44);
    lemma_read_round_trip(rs[0]);
    assert(texts[0] == render_read(rs[0]));
}

/// The location of a well-formed node is a token whose three parts are the
/// reference, the strand and the exons.
pub proof fn lemma_location(n: NodeView)
    requires
        node_wf(n),
    ensures
        is_token(render_location(n)),
        split(render_location(n), 58) == seq![
            n.reference_id,
            strand_text(n.strand),
            render_exons(n.exons),
        ],
{
    let r = n.reference_id;
    let s = strand_text(n.strand);
    let e = render_exons(n.exons);
    lemma_exons_text(n.exons);
    lemma_strand_round_trip(n.strand);
    lemma_split_none(e, 58);
    lemma_split_cons(s, 58, e);
    lemma_split_cons(r, 58, s + seq![58u8] + e);
    let loc = render_location(n);
    assert(loc =~= r + seq![58u8] + (s + seq![58u8] + e));
    assert(seq![r] + (seq![s] + seq![e]) =~= seq![r, s, e]);
    assert forall|i: int| 0 <= i < loc.len() implies !is_space(#[trigger] loc[i]) by {
        if i < r.len() {
            assert(loc[i] == r[i]);
        } else if i == r.len() {
        } else if i < r.len() + 1 + s.len() {
            assert(loc[i] == s[i - r.len() - 1]);
        } else if i == r.len() + 1 + s.len() {
        } else {
            assert(loc[i] == e[i - r.len() - s.len() - 2]);
        }
    }
}

/// The texts of well-formed attributes are tokens that hold a `:`.
pub proof fn lemma_attribute_tokens(attrs: Seq<AttributeView>)
    requires
        forall|i: int| 0 <= i < attrs.len() ==> attribute_wf(#[trigger] attrs[i]),
    ensures
        forall|k: int|
            0 <= k < attrs.len() ==> is_token(#[trigger] attribute_texts(attrs)[k]) && !free_of(
                attribute_texts(attrs)[k],
                58,
            ),
{
    let texts = attribute_texts(attrs);
    assert forall|k: int| 0 <= k < attrs.len() implies is_token(#[trigger] texts[k]) && !free_of(
        texts[k],
        58,
    ) by {
        lemma_attribute_round_trip(attrs[k]);
        assert(texts[k] == render_attribute(attrs[k]));
    }
}

/// The tokens of the line of a well-formed node: the tag, the id, the
/// location, the reads, the sequence if there is one, and the attributes.
pub proof fn lemma_node_tokens(n: NodeView)
    requires
        node_wf(n),
    ensures
        tokens(render_node(n)) == seq![
            seq![78u8],
            n.id,
            render_location(n),
            render_reads(n.reads),
        ] + (match n.sequence {
            Some(s) => seq![s],
            None => Seq::<Seq<u8>>::empty(),
        }) + attribute_texts(n.attributes),
{
    let head = seq![n.id, render_location(n), render_reads(n.reads)];
    let texts = attribute_texts(n.attributes);
    let tail = sequence_text(n) + tabbed(texts);
    let after_head = seq![9u8] + tail;
    let line = render_node(n);
    lemma_location(n);
    lemma_reads_text(n.reads);
    lemma_attribute_tokens(n.attributes);
    lemma_tokens_empty();
    // the attributes
    assert(tabbed(texts) + Seq::<u8>::empty() =~= tabbed(texts));
    lemma_tokens_tabbed(texts, Seq::<u8>::empty());
    assert(texts + Seq::<Seq<u8>>::empty() =~= texts);
    assert(tokens(tabbed(texts)) == texts);
    if texts.len() > 0 {
        lemma_tabbed_head(texts);
    }
    // the sequence column
    let seq_tokens = match n.sequence {
        Some(s) => seq![s],
        None => Seq::<Seq<u8>>::empty(),
    };
    match n.sequence {
        Some(s) => {
            lemma_tokens_cons(s, tabbed(texts));
        },
        None => {
            assert(tail =~= tabbed(texts));
            assert(seq_tokens + texts =~= texts);
        },
    }
    assert(tokens(tail) == seq_tokens + texts);
    assert(after_head[0] == 9);
    lemma_tokens_skip_space(after_head);
    assert(after_head.skip(1) =~= tail);
    // the head
    assert forall|k: int| 0 <= k < head.len() implies is_token(#[trigger] head[k]) by {}
    lemma_tokens_tabbed(head, after_head);
    lemma_tabbed_head(head);
    let rest = tabbed(head) + after_head;
    assert(rest[0] == 9);
    let tag = seq![78u8];
    assert(tag[0] == 78);
    assert(is_token(tag));
    lemma_tokens_cons(tag, rest);
    assert(line =~= tag + rest);
    assert(seq![tag] + (head + (seq_tokens + texts)) =~= seq![
        tag,
        n.id,
        render_location(n),
        render_reads(n.reads),
    ] + seq_tokens + texts);
}

/// Reading each field of the line of a well-formed node gives back what the
/// node holds.
pub proof fn lemma_node_fields(n: NodeView)
    requires
        node_wf(n),
    ensures
        parse_strand(strand_text(n.strand)) == Some(n.strand),
        parse_exons(render_exons(n.exons)) == Ok::<Seq<Interval>, ParseReason>(n.exons),
        parse_reads(render_reads(n.reads)) == Some(n.reads),
        parse_attributes(attribute_texts(n.attributes)) == Some(n.attributes),
{
    lemma_strand_round_trip(n.strand);
    lemma_intervals_round_trip(n.exons);
    lemma_reads_round_trip(n.reads);
    lemma_attributes_round_trip(n.attributes);
}

/// Tokens that are the fields of a well-formed node denote that node.
pub proof fn lemma_node_of_tokens(n: NodeView, t: Seq<Seq<u8>>)
    requires
        node_wf(n),
        t == seq![seq![78u8], n.id, render_location(n), render_reads(n.reads)] + (match n.sequence {
            Some(s) => seq![s],
            None => Seq::<Seq<u8>>::empty(),
        }) + attribute_texts(n.attributes),
    ensures
        parse_node_tokens(t) == Ok::<NodeView, ParseReason>(n),
{
    let texts = attribute_texts(n.attributes);
    assert(t[1] == n.id);
    assert(t[2] == render_location(n));
    assert(t[3] == render_reads(n.reads));
    let loc = split(t[2], 58);
    assert(loc == seq![n.reference_id, strand_text(n.strand), render_exons(n.exons)]) by {
        lemma_location(n);
    }
    assert(loc.len() == 3);
    assert(loc[0] == n.reference_id);
    assert(loc[1] == strand_text(n.strand));
    assert(loc[2] == render_exons(n.exons));
    lemma_node_fields(n);
    let first = if has_sequence(t) {
        5int
    } else {
        4int
    };
    assert(has_sequence(t) == n.sequence.is_some() && t.skip(first) == texts) by {
        match n.sequence {
            Some(s) => {
                assert(t[4] == s);
                assert(t.skip(5) =~= texts);
            },
            None => {
                if texts.len() > 0 {
                    lemma_attribute_tokens(n.attributes);
                    assert(t[4] == texts[0]);
                    assert(!free_of(texts[0], 58));
                }
                assert(t.skip(4) =~= texts);
            },
        }
    }
    if n.sequence.is_some() {
        assert(t[4] == n.sequence.unwrap());
    }
}

/// Writing a well-formed node as a line and reading the line gives the node
/// back.
pub proof fn lemma_node_round_trip(n: NodeView)
    requires
        node_wf(n),
    ensures
        parse_node(render_node(n)) == Ok::<NodeView, ParseReason>(n),
{
    let t = tokens(render_node(n));
    lemma_node_tokens(n);
    lemma_node_of_tokens(n, t);
    assert(t[0] == seq![78u8]);
}

/// Every node that a line denotes is well formed: the well-formed nodes
/// are the nodes that lines can say.
pub proof fn lemma_parsed_node_wf(line: Seq<u8>)
    requires
        parse_node(line).is_ok(),
    ensures
        node_wf(parse_node(line).unwrap()),
{
    let t = tokens(line);
    let n = parse_node(line).unwrap();
    crate::text::lemma_tokens_are_tokens(line);
    assert(is_token(t[1]));
    assert(is_token(t[2]));
    assert(is_token(t[3]));
    // the location
    let loc = split(t[2], 58);
    crate::text::lemma_split_pieces(t[2], 58);
    crate::text::lemma_split_no_space(t[2], 58);
    assert(free_of(loc[0], 58));
    assert(no_space(loc[0]));
    // the exons
    crate::text::lemma_split_pieces(loc[2], 44);
    assert(n.exons.len() == split(loc[2], 44).len());
    // the reads
    let pieces = split(t[3], 44);
    crate::text::lemma_split_pieces(t[3], 44);
    crate::text::lemma_split_no_space(t[3], 44);
    assert(n.reads.len() == pieces.len());
    assert forall|i: int| 0 <= i < n.reads.len() implies read_wf(#[trigger] n.reads[i]) by {
        assert(no_space(pieces[i]));
        assert(free_of(pieces[i], 44));
        crate::read::lemma_parsed_read_wf(pieces[i]);
    }
    // the sequence
    if has_sequence(t) {
        assert(is_token(t[4]));
    }
    // the attributes
    let first = if has_sequence(t) {
        5int
    } else {
        4int
    };
    let rest = t.skip(first);
    assert forall|k: int| 0 <= k < rest.len() implies no_space(#[trigger] rest[k]) by {
        assert(rest[k] == t[k + first]);
        assert(is_token(t[k + first]));
    }
    crate::attribute::lemma_parsed_attributes_wf(rest);
    crate::attribute::lemma_parse_attributes_unique(rest);
}

/// Writing a node that a line denotes and reading the line written gives
/// the same node.
pub proof fn lemma_reading_is_stable(line: Seq<u8>)
    requires
        parse_node(line).is_ok(),
    ensures
        parse_node(render_node(parse_node(line).unwrap())) == parse_node(line),
{
    lemma_parsed_node_wf(line);
    lemma_node_round_trip(parse_node(line).unwrap());
}

} // verus!
