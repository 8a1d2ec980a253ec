//! Genomic intervals and exon chains.

use crate::error::ParseReason;
use crate::number::{
    decimal, lemma_decimal_digits, lemma_digits_free_of, lemma_parse_usize_decimal, parse_usize,
    parse_usize_bytes, push_decimal, MINUS,
};
use crate::scan::split_bytes;
use crate::text::{free_of, join, lemma_split_cons, lemma_split_join, lemma_split_none, split, views};
use vstd::prelude::*;
use vstd::string::StringSliceAdditionalSpecFns;

verus! {

/// The byte `,`, which separates the items of a list.
pub const COMMA: u8 = 44;

/// A stretch of reference coordinates from `start` up to `end`. It is half
/// open: it covers the `end - start` positions from `start` on.
#[derive(Debug, Clone, Copy, PartialEq, Eq, Structural)]
pub struct Interval {
    pub start: usize,
    pub end: usize,
}

/// The text of an interval: its two coordinates with `-` between them.
pub open spec fn render_interval(iv: Interval) -> Seq<u8> {
    decimal(iv.start as nat) + seq![45u8] + decimal(iv.end as nat)
}

/// The interval that `s` denotes, if it is of the form `start-end`.
pub open spec fn parse_interval(s: Seq<u8>) -> Option<Interval> {
    let p = split(s, 45);
    if p.len() == 2 && parse_usize(p[0]).is_some() && parse_usize(p[1]).is_some() {
        Some(Interval { start: parse_usize(p[0]).unwrap(), end: parse_usize(p[1]).unwrap() })
    } else {
        None
    }
}

/// No interval ends before it starts, and each ends before the next starts.
pub open spec fn ordered(e: Seq<Interval>) -> bool {
    &&& forall|i: int| 0 <= i < e.len() ==> (#[trigger] e[i]).start <= e[i].end
    &&& forall|i: int| 0 <= i < e.len() - 1 ==> (#[trigger] e[i]).end < e[i + 1].start
}

/// The texts of the intervals of `e`.
pub open spec fn interval_texts(e: Seq<Interval>) -> Seq<Seq<u8>> {
    Seq::new(e.len(), |i: int| render_interval(e[i]))
}

/// The text of a chain of exons: its intervals with `,` between them.
pub open spec fn render_exons(e: Seq<Interval>) -> Seq<u8> {
    join(interval_texts(e), 44)
}

/// The intervals that the items of a comma-separated list denote, if each
/// item denotes one.
pub open spec fn parse_intervals(s: Seq<u8>) -> Option<Seq<Interval>> {
    let p = split(s, 44);
    if forall|i: int| 0 <= i < p.len() ==> parse_interval(#[trigger] p[i]).is_some() {
        Some(Seq::new(p.len(), |i: int| parse_interval(p[i]).unwrap()))
    } else {
        None
    }
}

/// The chain of exons that `s` denotes, or why it denotes none.
pub open spec fn parse_exons(s: Seq<u8>) -> Result<Seq<Interval>, ParseReason> {
    match parse_intervals(s) {
        None => Err(ParseReason::InvalidInterval),
        Some(e) => if ordered(e) {
            Ok(e)
        } else {
            Err(ParseReason::UnorderedExons)
        },
    }
}

/// The number of positions that the intervals of `e` cover together.
pub open spec fn total_span(e: Seq<Interval>) -> int
    decreases e.len(),
{
    if e.len() == 0 {
        0
    } else {
        total_span(e.drop_last()) + (e.last().end - e.last().start)
    }
}

/// The gaps between consecutive intervals of `e`, each given by the two
/// coordinates next to it: one past the end of an interval, and the start of
/// the next interval.
pub open spec fn gaps(e: Seq<Interval>) -> Seq<Interval> {
    if e.len() == 0 {
        Seq::empty()
    } else {
        Seq::new(
            (e.len() - 1) as nat,
            |i: int| Interval { start: (e[i].end + 1) as usize, end: e[i + 1].start },
        )
    }
}

/// A prefix of an ordered chain is ordered.
pub proof fn lemma_ordered_prefix(e: Seq<Interval>, k: int)
    requires
        ordered(e),
        0 <= k <= e.len(),
    ensures
        ordered(e.take(k)),
{
    let t = e.take(k);
    assert forall|i: int| 0 <= i < t.len() implies (#[trigger] t[i]).start <= t[i].end by {
        assert(t[i] == e[i]);
    }
    assert forall|i: int| 0 <= i < t.len() - 1 implies (#[trigger] t[i]).end < t[i + 1].start by {
        assert(t[i] == e[i]);
        assert(t[i + 1] == e[i + 1]);
    }
}

/// An ordered chain covers no more positions than lie between its first
/// start and its last end.
pub proof fn lemma_total_span_bound(e: Seq<Interval>)
    requires
        ordered(e),
        e.len() > 0,
    ensures
        0 <= total_span(e) <= e.last().end - e[0].start,
    decreases e.len(),
{
    let t = e.drop_last();
    if t.len() == 0 {
        assert(total_span(t) == 0);
        assert(e.last() == e[0]);
    } else {
        lemma_ordered_prefix(e, e.len() - 1);
        assert(t =~= e.take(e.len() - 1));
        lemma_total_span_bound(t);
        assert(t.last() == e[e.len() - 2]);
        assert(t[0] == e[0]);
        assert(e[e.len() - 2].end < e[e.len() - 2 + 1].start);
    }
}

/// Every gap of an ordered chain is an interval that does not end before it
/// starts.
pub proof fn lemma_gaps_well_formed(e: Seq<Interval>)
    requires
        ordered(e),
    ensures
        forall|i: int| 0 <= i < gaps(e).len() ==> (#[trigger] gaps(e)[i]).wf(),
{
    assert forall|i: int| 0 <= i < gaps(e).len() implies (#[trigger] gaps(e)[i]).wf() by {
        assert(e[i].end < e[i + 1].start);
    }
}

/// Reading the text of an interval gives the interval back.
pub proof fn lemma_interval_round_trip(iv: Interval)
    ensures
        parse_interval(render_interval(iv)) == Some(iv),
        render_interval(iv).len() > 0,
        forall|other: u8|
            !crate::number::is_digit(other) && other != 45 ==> free_of(
                render_interval(iv),
                other,
            ),
{
    let a = decimal(iv.start as nat);
    let b = decimal(iv.end as nat);
    lemma_decimal_digits(iv.start as nat);
    lemma_decimal_digits(iv.end as nat);
    lemma_digits_free_of(a, 45);
    lemma_digits_free_of(b, 45);
    lemma_split_cons(a, 45, b);
    lemma_split_none(b, 45);
    lemma_parse_usize_decimal(iv.start);
    lemma_parse_usize_decimal(iv.end);
    let p = split(render_interval(iv), 45);
    assert(p =~= seq![a, b]);
    let s = render_interval(iv);
    assert forall|other: u8| !crate::number::is_digit(other) && other != 45 implies free_of(
        s,
        other,
    ) by {
        assert forall|i: int| 0 <= i < s.len() implies s[i] != other by {
            if i < a.len() {
                assert(s[i] == a[i]);
                assert(crate::number::is_digit(a[i]));
            } else if i > a.len() {
                assert(s[i] == b[i - a.len() - 1]);
                assert(crate::number::is_digit(b[i - a.len() - 1]));
            }
        }
    }
}

/// Reading the text of a non-empty chain of exons gives its intervals back.
pub proof fn lemma_intervals_round_trip(e: Seq<Interval>)
    requires
        e.len() > 0,
    ensures
        parse_intervals(render_exons(e)) == Some(e),
{
    let texts = interval_texts(e);
    assert forall|k: int| 0 <= k < texts.len() implies free_of(#[trigger] texts[k], 44) by {
        lemma_interval_round_trip(e[k]);
        assert(texts[k] == render_interval(e[k]));
        assert(!crate::number::is_digit(44u8));
        assert(free_of(render_interval(e[k]), 44u8));
    }
    lemma_split_join(texts, 44);
    let p = split(render_exons(e), 44);
    assert(p == texts);
    assert forall|i: int| 0 <= i < p.len() implies parse_interval(#[trigger] p[i]) == Some(
        e[i],
    ) by {
        lemma_interval_round_trip(e[i]);
    }
    assert(Seq::new(p.len(), |i: int| parse_interval(p[i]).unwrap()) =~= e);
}

impl Interval {
    /// An interval is well formed when it does not end before it starts.
    pub open spec fn wf(&self) -> bool {
        self.start <= self.end
    }

    /// The number of positions the interval covers, `end - start`.
    pub open spec fn spec_span(&self) -> int {
        self.end - self.start
    }

    /// Returns the number of positions the interval covers.
    pub fn span(&self) -> (n: usize)
        requires
            self.wf(),
        ensures
            n == self.spec_span(),
    {
        self.end - self.start
    }

    /// Reads an interval of the form `start-end`.
    pub fn from_bytes(s: &[u8]) -> (r: Result<Interval, ParseReason>)
        ensures
            match r {
                Ok(iv) => parse_interval(s@) == Some(iv),
                Err(e) => parse_interval(s@).is_none() && e == ParseReason::InvalidInterval,
            },
    {
        let parts = split_bytes(s, MINUS);
        if parts.len() != 2 {
            return Err(ParseReason::InvalidInterval);
        }
        assert(views(parts@)[0] == parts@[0]@);
        assert(views(parts@)[1] == parts@[1]@);
        let start = parse_usize_bytes(parts[0]);
        let end = parse_usize_bytes(parts[1]);
        match (start, end) {
            (Some(a), Some(b)) => Ok(Interval { start: a, end: b }),
            _ => Err(ParseReason::InvalidInterval),
        }
    }

    /// Reads an interval of the form `start-end`.
    pub fn from_str(s: &str) -> (r: Result<Interval, ParseReason>)
        ensures
            match r {
                Ok(iv) => parse_interval(s.spec_bytes()) == Some(iv),
                Err(e) => parse_interval(s.spec_bytes()).is_none() && e
                    == ParseReason::InvalidInterval,
            },
    {
        Interval::from_bytes(s.as_bytes())
    }

    /// Appends the text of the interval to `out`.
    pub fn render_into(&self, out: &mut Vec<u8>)
        ensures
            final(out)@ == old(out)@ + render_interval(*self),
    {
        push_decimal(out, self.start as u64);
        out.push(MINUS);
        push_decimal(out, self.end as u64);
        proof {
            assert(out@ =~= old(out)@ + render_interval(*self));
        }
    }
}

} // verus!
