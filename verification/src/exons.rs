//! Chains of exons: ordered, non-overlapping intervals.

use crate::error::ParseReason;
use crate::interval::{
    gaps, interval_texts, lemma_gaps_well_formed, lemma_ordered_prefix, lemma_total_span_bound,
    ordered, parse_exons, parse_interval, parse_intervals, render_exons, total_span, Interval,
    COMMA,
};
use crate::scan::split_bytes;
use crate::text::{join, split, views};
use vstd::prelude::*;
use vstd::string::StringSliceAdditionalSpecFns;

verus! {

/// The exons of a segment, in genomic order.
#[derive(Debug, Clone, Default, PartialEq, Eq)]
pub struct Exons {
    pub exons: Vec<Interval>,
}

impl View for Exons {
    type V = Seq<Interval>;

    open spec fn view(&self) -> Seq<Interval> {
        self.exons@
    }
}

impl Exons {
    /// A chain is well formed when no exon ends before it starts and each
    /// exon ends before the next one starts.
    pub open spec fn wf(&self) -> bool {
        ordered(self@)
    }

    /// Tells whether the chain is well formed.
    pub fn is_ordered(&self) -> (r: bool)
        ensures
            r == self.wf(),
    {
        let n = self.exons.len();
        let mut i: usize = 0;
        while i < n
            invariant
                n == self.exons.len(),
                i <= n,
                forall|k: int| 0 <= k < i ==> (#[trigger] self@[k]).start <= self@[k].end,
                forall|k: int| 0 <= k < i - 1 ==> (#[trigger] self@[k]).end < self@[k + 1].start,
            decreases n - i,
        {
            if self.exons[i].start > self.exons[i].end {
                return false;
            }
            if i > 0 && self.exons[i - 1].end >= self.exons[i].start {
                assert(!(self@[i - 1].end < self@[i - 1 + 1].start));
                return false;
            }
            i += 1;
        }
        true
    }

    /// Reads a chain of exons: a comma-separated list of `start-end` pairs in
    /// ascending order.
    pub fn from_bytes(s: &[u8]) -> (r: Result<Exons, ParseReason>)
        ensures
            match r {
                Ok(x) => parse_exons(s@) == Ok::<Seq<Interval>, ParseReason>(x@),
                Err(e) => parse_exons(s@) == Err::<Seq<Interval>, ParseReason>(e),
            },
    {
        let parts = split_bytes(s, COMMA);
        let ghost p = split(s@, 44);
        let mut exons: Vec<Interval> = Vec::new();
        let mut i: usize = 0;
        while i < parts.len()
            invariant
                i <= parts.len(),
                views(parts@) == p,
                p == split(s@, 44),
                exons.len() == i,
                forall|k: int| 0 <= k < i ==> parse_interval(#[trigger] p[k]) == Some(exons@[k]),
            decreases parts.len() - i,
        {
            assert(views(parts@)[i as int] == parts@[i as int]@);
            match Interval::from_bytes(parts[i]) {
                Ok(iv) => {
                    exons.push(iv);
                },
                Err(e) => {
                    assert(parse_interval(p[i as int]).is_none());
                    return Err(e);
                },
            }
            i += 1;
        }
        proof {
            assert(Seq::new(p.len(), |k: int| parse_interval(p[k]).unwrap()) =~= exons@);
            assert(parse_intervals(s@) == Some(exons@));
        }
        let out = Exons { exons };
        if out.is_ordered() {
            Ok(out)
        } else {
            Err(ParseReason::UnorderedExons)
        }
    }

    /// Reads a chain of exons from a string.
    pub fn from_str(s: &str) -> (r: Result<Exons, ParseReason>)
        ensures
            match r {
                Ok(x) => parse_exons(s.spec_bytes()) == Ok::<Seq<Interval>, ParseReason>(x@),
                Err(e) => parse_exons(s.spec_bytes()) == Err::<Seq<Interval>, ParseReason>(e),
            },
    {
        Exons::from_bytes(s.as_bytes())
    }

    /// Appends the text of the chain to `out`.
    pub fn render_into(&self, out: &mut Vec<u8>)
        ensures
            final(out)@ == old(out)@ + render_exons(self@),
    {
        let ghost texts = interval_texts(self@);
        let mut i: usize = 0;
        while i < self.exons.len()
            invariant
                i <= self.exons.len(),
                texts == interval_texts(self@),
                out@ == old(out)@ + join(texts.take(i as int), 44),
            decreases self.exons.len() - i,
        {
            if i > 0 {
                out.push(COMMA);
            }
            self.exons[i].render_into(out);
            proof {
                let t = texts.take(i + 1);
                assert(t.drop_last() =~= texts.take(i as int));
                assert(t.last() == crate::interval::render_interval(self@[i as int]));
                assert(out@ =~= old(out)@ + join(t, 44));
            }
            i += 1;
        }
        proof {
            assert(texts.take(self.exons.len() as int) =~= texts);
        }
    }

    /// The text of the chain.
    pub fn to_bytes(&self) -> (r: Vec<u8>)
        ensures
            r@ == render_exons(self@),
    {
        let mut out: Vec<u8> = Vec::new();
        self.render_into(&mut out);
        out
    }

    /// The introns of the chain: for each pair of neighbouring exons, the
    /// interval from one past the end of the first to the start of the second.
    pub fn introns(&self) -> (r: Vec<Interval>)
        requires
            self.wf(),
        ensures
            r@ == gaps(self@),
            forall|i: int| 0 <= i < r.len() ==> (#[trigger] r@[i]).wf(),
    {
        proof {
            lemma_gaps_well_formed(self@);
        }
        let mut out: Vec<Interval> = Vec::new();
        let n = self.exons.len();
        if n == 0 {
            assert(out@ =~= gaps(self@));
            return out;
        }
        let mut i: usize = 0;
        while i < n - 1
            invariant
                n == self.exons.len(),
                n > 0,
                i <= n - 1,
                self.wf(),
                out.len() == i,
                forall|k: int| 0 <= k < i ==> out@[k] == gaps(self@)[k],
            decreases n - 1 - i,
        {
            assert(self@[i as int].end < self@[i + 1].start);
            out.push(Interval { start: self.exons[i].end + 1, end: self.exons[i + 1].start });
            i += 1;
        }
        assert(out@ =~= gaps(self@));
        out
    }

    /// Tells whether the chain has no exon.
    pub fn is_empty(&self) -> (r: bool)
        ensures
            r == (self@.len() == 0),
    {
        self.exons.len() == 0
    }

    /// The number of exons.
    pub fn len(&self) -> (r: usize)
        ensures
            r == self@.len(),
    {
        self.exons.len()
    }

    /// The number of positions that the exons cover together.
    pub fn span(&self) -> (r: usize)
        requires
            self.wf(),
        ensures
            r == total_span(self@),
    {
        let n = self.exons.len();
        let mut total: usize = 0;
        let mut i: usize = 0;
        proof {
            assert(self@.take(0) =~= Seq::<Interval>::empty());
        }
        while i < n
            invariant
                n == self.exons.len(),
                i <= n,
                self.wf(),
                total == total_span(self@.take(i as int)),
            decreases n - i,
        {
            proof {
                let t = self@.take(i + 1);
                lemma_ordered_prefix(self@, i + 1);
                lemma_total_span_bound(t);
                assert(t.drop_last() =~= self@.take(i as int));
                assert(t.last() == self@[i as int]);
            }
            total = total + (self.exons[i].end - self.exons[i].start);
            i += 1;
        }
        proof {
            assert(self@.take(n as int) =~= self@);
        }
        total
    }

    /// The first exon.
    pub fn first_exon(&self) -> (r: &Interval)
        requires
            self@.len() > 0,
        ensures
            *r == self@[0],
    {
        &self.exons[0]
    }

    /// The last exon.
    pub fn last_exon(&self) -> (r: &Interval)
        requires
            self@.len() > 0,
        ensures
            *r == self@.last(),
    {
        &self.exons[self.exons.len() - 1]
    }
}

} // verus!
