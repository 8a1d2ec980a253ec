//! Strands and the reads that support a segment.

use crate::error::ParseReason;
use crate::interval::COMMA;
use crate::scan::{append, split_bytes, to_vec};
use crate::text::{
    free_of, join, lemma_split_cons, lemma_split_join, lemma_split_none, no_space, split, views,
};
use vstd::prelude::*;
use vstd::string::StringSliceAdditionalSpecFns;

verus! {

/// The byte `:`, which separates the parts of a field.
pub const COLON: u8 = 58;

/// The role that a read plays for the segment it supports.
#[derive(Debug, Clone, Copy, PartialEq, Eq, Structural)]
pub enum ReadIdentity {
    /// The read starts a transcript at this segment.
    SO,
    /// The read passes through this segment.
    IN,
    /// The read ends a transcript at this segment.
    SI,
}

/// The orientation of a segment on its reference.
#[derive(Debug, Clone, Copy, Default, PartialEq, Eq, Structural)]
pub enum Strand {
    #[default]
    Forward,
    Reverse,
}

/// A read that supports a segment, and its role there.
#[derive(Debug, Clone, PartialEq, Eq)]
pub struct ReadData {
    pub id: Vec<u8>,
    pub identity: ReadIdentity,
}

/// What a `ReadData` holds.
pub struct ReadView {
    pub id: Seq<u8>,
    pub identity: ReadIdentity,
}

impl View for ReadData {
    type V = ReadView;

    open spec fn view(&self) -> ReadView {
        ReadView { id: self.id@, identity: self.identity }
    }
}

/// The views of a sequence of reads.
pub open spec fn read_views(v: Seq<ReadData>) -> Seq<ReadView> {
    Seq::new(v.len(), |i: int| v[i]@)
}

/// The two letters that name an identity.
pub open spec fn identity_text(i: ReadIdentity) -> Seq<u8> {
    match i {
        ReadIdentity::SO => seq![83u8, 79u8],
        ReadIdentity::IN => seq![73u8, 78u8],
        ReadIdentity::SI => seq![83u8, 73u8],
    }
}

/// The identity that `s` names, if it is `SO`, `IN` or `SI`.
pub open spec fn parse_identity(s: Seq<u8>) -> Option<ReadIdentity> {
    if s == seq![83u8, 79u8] {
        Some(ReadIdentity::SO)
    } else if s == seq![73u8, 78u8] {
        Some(ReadIdentity::IN)
    } else if s == seq![83u8, 73u8] {
        Some(ReadIdentity::SI)
    } else {
        None
    }
}

/// The sign that names a strand.
pub open spec fn strand_text(s: Strand) -> Seq<u8> {
    match s {
        Strand::Forward => seq![43u8],
        Strand::Reverse => seq![45u8],
    }
}

/// The strand that `s` names, if it is `+` or `-`.
pub open spec fn parse_strand(s: Seq<u8>) -> Option<Strand> {
    if s == seq![43u8] {
        Some(Strand::Forward)
    } else if s == seq![45u8] {
        Some(Strand::Reverse)
    } else {
        None
    }
}

/// The text of a read: its id and its identity with `:` between them.
pub open spec fn render_read(r: ReadView) -> Seq<u8> {
    r.id + seq![58u8] + identity_text(r.identity)
}

/// The read that `s` denotes, if it is of the form `id:identity`.
pub open spec fn parse_read(s: Seq<u8>) -> Option<ReadView> {
    let p = split(s, 58);
    if p.len() == 2 && parse_identity(p[1]).is_some() {
        Some(ReadView { id: p[0], identity: parse_identity(p[1]).unwrap() })
    } else {
        None
    }
}

/// The texts of the reads of `rs`.
pub open spec fn read_texts(rs: Seq<ReadView>) -> Seq<Seq<u8>> {
    Seq::new(rs.len(), |i: int| render_read(rs[i]))
}

/// The text of a list of reads: the reads with `,` between them.
pub open spec fn render_reads(rs: Seq<ReadView>) -> Seq<u8> {
    join(read_texts(rs), 44)
}

/// The reads that the items of a comma-separated list denote, if each item
/// denotes one.
pub open spec fn parse_reads(s: Seq<u8>) -> Option<Seq<ReadView>> {
    let p = split(s, 44);
    if forall|i: int| 0 <= i < p.len() ==> parse_read(#[trigger] p[i]).is_some() {
        Some(Seq::new(p.len(), |i: int| parse_read(p[i]).unwrap()))
    } else {
        None
    }
}

/// A read can be written in a line when its id holds no whitespace, no `:`
/// and no `,`.
pub open spec fn read_wf(r: ReadView) -> bool {
    no_space(r.id) && free_of(r.id, 58) && free_of(r.id, 44)
}

/// Reading the name of an identity gives the identity back; the name holds
/// no separator and no whitespace.
pub proof fn lemma_identity_round_trip(i: ReadIdentity)
    ensures
        parse_identity(identity_text(i)) == Some(i),
        free_of(identity_text(i), 58),
        free_of(identity_text(i), 44),
        no_space(identity_text(i)),
        identity_text(i).len() == 2,
{
    let t = identity_text(i);
    assert(t[0] == 83 || t[0] == 73);
    assert(t[1] == 79 || t[1] == 78 || t[1] == 73);
    assert(seq![83u8, 79u8][1] == 79);
    assert(seq![73u8, 78u8][0] == 73);
    assert(seq![83u8, 73u8][1] == 73);
}

/// Reading the name of a strand gives the strand back.
pub proof fn lemma_strand_round_trip(s: Strand)
    ensures
        parse_strand(strand_text(s)) == Some(s),
        free_of(strand_text(s), 58),
        no_space(strand_text(s)),
{
    assert(seq![43u8][0] == 43);
    assert(seq![45u8][0] == 45);
}

/// Reading the text of a well-formed read gives the read back; the text is
/// not empty and holds no `,` and no whitespace.
pub proof fn lemma_read_round_trip(r: ReadView)
    requires
        read_wf(r),
    ensures
        parse_read(render_read(r)) == Some(r),
        free_of(render_read(r), 44),
        no_space(render_read(r)),
        render_read(r).len() > 0,
{
    let t = identity_text(r.identity);
    lemma_identity_round_trip(r.identity);
    lemma_split_cons(r.id, 58, t);
    lemma_split_none(t, 58);
    let p = split(render_read(r), 58);
    assert(p =~= seq![r.id, t]);
    let s = render_read(r);
    assert forall|i: int| 0 <= i < s.len() implies s[i] != 44 && !crate::text::is_space(
        #[trigger] s[i],
    ) by {
        if i < r.id.len() {
            assert(s[i] == r.id[i]);
        } else if i > r.id.len() {
            assert(s[i] == t[i - r.id.len() - 1]);
        }
    }
}

/// Reading the text of a non-empty list of well-formed reads gives the reads
/// back.
pub proof fn lemma_reads_round_trip(rs: Seq<ReadView>)
    requires
        rs.len() > 0,
        forall|i: int| 0 <= i < rs.len() ==> read_wf(#[trigger] rs[i]),
    ensures
        parse_reads(render_reads(rs)) == Some(rs),
{
    let texts = read_texts(rs);
    assert forall|k: int| 0 <= k < texts.len() implies free_of(#[trigger] texts[k], 44) by {
        lemma_read_round_trip(rs[k]);
        assert(texts[k] == render_read(rs[k]));
    }
    lemma_split_join(texts, 44);
    let p = split(render_reads(rs), 44);
    assert(p == texts);
    assert forall|i: int| 0 <= i < p.len() implies parse_read(#[trigger] p[i]) == Some(rs[i]) by {
        lemma_read_round_trip(rs[i]);
    }
    assert(Seq::new(p.len(), |i: int| parse_read(p[i]).unwrap()) =~= rs);
}

impl ReadIdentity {
    /// Reads an identity: `SO`, `IN` or `SI`.
    pub fn from_bytes(s: &[u8]) -> (r: Result<ReadIdentity, ParseReason>)
        ensures
            match r {
                Ok(i) => parse_identity(s@) == Some(i),
                Err(e) => parse_identity(s@).is_none() && e == ParseReason::InvalidRead,
            },
    {
        if s.len() == 2 {
            proof {
                assert(seq![83u8, 79u8][0] == 83 && seq![83u8, 79u8][1] == 79);
                assert(seq![73u8, 78u8][0] == 73 && seq![73u8, 78u8][1] == 78);
                assert(seq![83u8, 73u8][0] == 83 && seq![83u8, 73u8][1] == 73);
            }
            if s[0] == 83 && s[1] == 79 {
                assert(s@ =~= seq![83u8, 79u8]);
                return Ok(ReadIdentity::SO);
            }
            if s[0] == 73 && s[1] == 78 {
                assert(s@ =~= seq![73u8, 78u8]);
                return Ok(ReadIdentity::IN);
            }
            if s[0] == 83 && s[1] == 73 {
                assert(s@ =~= seq![83u8, 73u8]);
                return Ok(ReadIdentity::SI);
            }
        }
        Err(ParseReason::InvalidRead)
    }

    /// Reads an identity from a string.
    pub fn from_str(s: &str) -> (r: Result<ReadIdentity, ParseReason>)
        ensures
            match r {
                Ok(i) => parse_identity(s.spec_bytes()) == Some(i),
                Err(e) => parse_identity(s.spec_bytes()).is_none() && e
                    == ParseReason::InvalidRead,
            },
    {
        ReadIdentity::from_bytes(s.as_bytes())
    }

    /// Appends the name of the identity to `out`.
    pub fn render_into(&self, out: &mut Vec<u8>)
        ensures
            final(out)@ == old(out)@ + identity_text(*self),
    {
        match self {
            ReadIdentity::SO => {
                out.push(83);
                out.push(79);
            },
            ReadIdentity::IN => {
                out.push(73);
                out.push(78);
            },
            ReadIdentity::SI => {
                out.push(83);
                out.push(73);
            },
        }
        proof {
            assert(out@ =~= old(out)@ + identity_text(*self));
        }
    }

    /// The name of the identity.
    pub fn to_bytes(&self) -> (r: Vec<u8>)
        ensures
            r@ == identity_text(*self),
    {
        let mut out: Vec<u8> = Vec::new();
        self.render_into(&mut out);
        out
    }
}

impl Strand {
    /// Reads a strand: `+` or `-`.
    pub fn from_bytes(s: &[u8]) -> (r: Result<Strand, ParseReason>)
        ensures
            match r {
                Ok(x) => parse_strand(s@) == Some(x),
                Err(e) => parse_strand(s@).is_none() && e == ParseReason::InvalidStrand,
            },
    {
        if s.len() == 1 {
            proof {
                assert(seq![43u8][0] == 43);
                assert(seq![45u8][0] == 45);
            }
            if s[0] == 43 {
                assert(s@ =~= seq![43u8]);
                return Ok(Strand::Forward);
            }
            if s[0] == 45 {
                assert(s@ =~= seq![45u8]);
                return Ok(Strand::Reverse);
            }
        }
        Err(ParseReason::InvalidStrand)
    }

    /// Reads a strand from a string.
    pub fn from_str(s: &str) -> (r: Result<Strand, ParseReason>)
        ensures
            match r {
                Ok(x) => parse_strand(s.spec_bytes()) == Some(x),
                Err(e) => parse_strand(s.spec_bytes()).is_none() && e
                    == ParseReason::InvalidStrand,
            },
    {
        Strand::from_bytes(s.as_bytes())
    }

    /// The byte that names the strand.
    pub fn symbol(&self) -> (r: u8)
        ensures
            seq![r] == strand_text(*self),
    {
        match self {
            Strand::Forward => 43,
            Strand::Reverse => 45,
        }
    }
}

impl ReadData {
    /// Reads a read of the form `id:identity`.
    pub fn from_bytes(s: &[u8]) -> (r: Result<ReadData, ParseReason>)
        ensures
            match r {
                Ok(x) => parse_read(s@) == Some(x@),
                Err(e) => parse_read(s@).is_none() && e == ParseReason::InvalidRead,
            },
    {
        let parts = split_bytes(s, COLON);
        if parts.len() != 2 {
            return Err(ParseReason::InvalidRead);
        }
        assert(views(parts@)[0] == parts@[0]@);
        assert(views(parts@)[1] == parts@[1]@);
        match ReadIdentity::from_bytes(parts[1]) {
            Ok(identity) => Ok(ReadData { id: to_vec(parts[0]), identity }),
            Err(e) => Err(e),
        }
    }

    /// Reads a read from a string.
    pub fn from_str(s: &str) -> (r: Result<ReadData, ParseReason>)
        ensures
            match r {
                Ok(x) => parse_read(s.spec_bytes()) == Some(x@),
                Err(e) => parse_read(s.spec_bytes()).is_none() && e == ParseReason::InvalidRead,
            },
    {
        ReadData::from_bytes(s.as_bytes())
    }

    /// Appends the text of the read to `out`.
    pub fn render_into(&self, out: &mut Vec<u8>)
        ensures
            final(out)@ == old(out)@ + render_read(self@),
    {
        append(out, self.id.as_slice());
        out.push(COLON);
        self.identity.render_into(out);
        proof {
            assert(out@ =~= old(out)@ + render_read(self@));
        }
    }

    /// The text of the read.
    pub fn to_bytes(&self) -> (r: Vec<u8>)
        ensures
            r@ == render_read(self@),
    {
        let mut out: Vec<u8> = Vec::new();
        self.render_into(&mut out);
        out
    }
}

/// Reads a comma-separated list of reads.
pub fn parse_read_list(s: &[u8]) -> (r: Result<Vec<ReadData>, ParseReason>)
    ensures
        match r {
            Ok(v) => parse_reads(s@) == Some(read_views(v@)),
            Err(e) => parse_reads(s@).is_none() && e == ParseReason::InvalidRead,
        },
{
    let parts = split_bytes(s, COMMA);
    let ghost p = split(s@, 44);
    let mut reads: Vec<ReadData> = Vec::new();
    let mut i: usize = 0;
    while i < parts.len()
        invariant
            i <= parts.len(),
            views(parts@) == p,
            p == split(s@, 44),
            reads.len() == i,
            forall|k: int| 0 <= k < i ==> parse_read(#[trigger] p[k]) == Some(reads@[k]@),
        decreases parts.len() - i,
    {
        assert(views(parts@)[i as int] == parts@[i as int]@);
        match ReadData::from_bytes(parts[i]) {
            Ok(r) => {
                reads.push(r);
            },
            Err(e) => {
                assert(parse_read(p[i as int]).is_none());
                return Err(e);
            },
        }
        i += 1;
    }
    proof {
        assert(Seq::new(p.len(), |k: int| parse_read(p[k]).unwrap()) =~= read_views(reads@));
    }
    Ok(reads)
}

/// Appends the text of a list of reads to `out`.
pub fn render_read_list(reads: &Vec<ReadData>, out: &mut Vec<u8>)
    ensures
        final(out)@ == old(out)@ + render_reads(read_views(reads@)),
{
    let ghost texts = read_texts(read_views(reads@));
    let mut i: usize = 0;
    while i < reads.len()
        invariant
            i <= reads.len(),
            texts == read_texts(read_views(reads@)),
            out@ == old(out)@ + join(texts.take(i as int), 44),
        decreases reads.len() - i,
    {
        if i > 0 {
            out.push(COMMA);
        }
        reads[i].render_into(out);
        proof {
            let t = texts.take(i + 1);
            assert(t.drop_last() =~= texts.take(i as int));
            assert(t.last() == render_read(reads@[i as int]@));
            assert(out@ =~= old(out)@ + join(t, 44));
        }
        i += 1;
    }
    proof {
        assert(texts.take(reads.len() as int) =~= texts);
    }
}

/// The read that a piece of a list denotes is well formed.
pub proof fn lemma_parsed_read_wf(piece: Seq<u8>)
    requires
        no_space(piece),
        free_of(piece, 44),
        parse_read(piece).is_some(),
    ensures
        read_wf(parse_read(piece).unwrap()),
{
    crate::text::lemma_split_pieces(piece, 58);
    crate::text::lemma_split_no_space(piece, 58);
    crate::text::lemma_split_free_of(piece, 58, 44);
    let p = split(piece, 58);
    assert(free_of(p[0], 58));
    assert(no_space(p[0]));
    assert(free_of(p[0], 44));
}

} // verus!
