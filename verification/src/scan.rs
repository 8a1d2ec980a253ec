//! Executable scanners over byte slices, each proved against the
//! definitions of the `text` module.

use crate::text::{
    find, free_of, is_space, lemma_prefix_len, lemma_prefix_len_is, other_than, prefix_len,
    space_is, split, tokens, views,
};
use vstd::prelude::*;

verus! {

/// Tells whether `b` is ASCII whitespace.
pub fn is_space_byte(b: u8) -> (r: bool)
    ensures
        r == is_space(b),
{
    b == 32 || (9 <= b && b <= 13)
}

/// Compares two byte strings.
pub fn bytes_eq(a: &[u8], b: &[u8]) -> (r: bool)
    ensures
        r == (a@ == b@),
{
    if a.len() != b.len() {
        return false;
    }
    let mut i: usize = 0;
    while i < a.len()
        invariant
            i <= a.len(),
            a.len() == b.len(),
            forall|k: int| 0 <= k < i ==> a@[k] == b@[k],
        decreases a.len() - i,
    {
        if a[i] != b[i] {
            return false;
        }
        i += 1;
    }
    assert(a@ =~= b@);
    true
}

/// Copies a byte string.
pub fn to_vec(s: &[u8]) -> (r: Vec<u8>)
    ensures
        r@ == s@,
{
    let mut out: Vec<u8> = Vec::new();
    let mut i: usize = 0;
    while i < s.len()
        invariant
            i <= s.len(),
            out@ == s@.take(i as int),
        decreases s.len() - i,
    {
        out.push(s[i]);
        assert(s@.take(i + 1) =~= s@.take(i as int).push(s@[i as int]));
        i += 1;
    }
    assert(s@.take(s.len() as int) =~= s@);
    out
}

/// Appends a byte string to `out`.
pub fn append(out: &mut Vec<u8>, s: &[u8])
    ensures
        final(out)@ == old(out)@ + s@,
{
    let mut i: usize = 0;
    while i < s.len()
        invariant
            i <= s.len(),
            out@ == old(out)@ + s@.take(i as int),
        decreases s.len() - i,
    {
        out.push(s[i]);
        assert(s@.take(i + 1) =~= s@.take(i as int).push(s@[i as int]));
        assert(out@ =~= old(out)@ + s@.take(i + 1));
        i += 1;
    }
    assert(s@.take(s.len() as int) =~= s@);
}

/// Tells whether `b` occurs in `s`.
pub fn contains_byte(s: &[u8], b: u8) -> (r: bool)
    ensures
        r == !free_of(s@, b),
{
    let i = find_byte(s, 0, b);
    proof {
        assert(s@.skip(0) =~= s@);
        lemma_prefix_len(s@, other_than(b));
    }
    i < s.len()
}

/// Position of the first `sep` at or after `from`, or `s.len()` if there is none.
pub fn find_byte(s: &[u8], from: usize, sep: u8) -> (r: usize)
    requires
        from <= s.len(),
    ensures
        from <= r <= s.len(),
        r == from + find(s@.skip(from as int), sep),
{
    let mut i: usize = from;
    while i < s.len() && s[i] != sep
        invariant
            from <= i <= s.len(),
            forall|k: int| from <= k < i ==> s@[k] != sep,
        decreases s.len() - i,
    {
        i += 1;
    }
    proof {
        let t = s@.skip(from as int);
        assert forall|k: int| 0 <= k < i - from implies (other_than(sep))(#[trigger] t[k]) by {
            assert(t[k] == s@[k + from]);
        }
        lemma_prefix_len_is(t, other_than(sep), i - from);
    }
    i
}

/// End of the run of bytes that starts at `from` and whose whitespace class
/// is `space`.
pub fn run_end(s: &[u8], from: usize, space: bool) -> (r: usize)
    requires
        from <= s.len(),
    ensures
        from <= r <= s.len(),
        r == from + prefix_len(s@.skip(from as int), space_is(space)),
{
    let mut i: usize = from;
    while i < s.len() && is_space_byte(s[i]) == space
        invariant
            from <= i <= s.len(),
            forall|k: int| from <= k < i ==> is_space(#[trigger] s@[k]) == space,
        decreases s.len() - i,
    {
        i += 1;
    }
    proof {
        let t = s@.skip(from as int);
        assert forall|k: int| 0 <= k < i - from implies (space_is(space))(#[trigger] t[k]) by {
            assert(t[k] == s@[k + from]);
        }
        lemma_prefix_len_is(t, space_is(space), i - from);
    }
    i
}

/// Splits `s` at every occurrence of `sep`.
pub fn split_bytes<'a>(s: &'a [u8], sep: u8) -> (r: Vec<&'a [u8]>)
    ensures
        views(r@) == split(s@, sep),
        r@.len() >= 1,
{
    let mut out: Vec<&'a [u8]> = Vec::new();
    let mut start: usize = 0;
    proof {
        assert(s@.skip(0) =~= s@);
        assert(views(out@) + split(s@.skip(0), sep) =~= split(s@, sep));
    }
    loop
        invariant_except_break
            views(out@) + split(s@.skip(start as int), sep) == split(s@, sep),
        invariant
            start <= s.len(),
        ensures
            views(out@) == split(s@, sep),
            out@.len() >= 1,
        decreases s.len() - start,
    {
        let end = find_byte(s, start, sep);
        let piece = vstd::slice::slice_subrange(s, start, end);
        let ghost before = views(out@);
        let ghost t = s@.skip(start as int);
        out.push(piece);
        proof {
            assert(t.take(end - start) =~= piece@);
            assert(views(out@) =~= before.push(piece@));
        }
        if end == s.len() {
            proof {
                assert(t.take(t.len() as int) =~= t);
                assert(split(t, sep) == seq![t]);
                assert(before.push(piece@) =~= before + seq![t]);
            }
            break;
        }
        proof {
            assert(t.skip(end - start + 1) =~= s@.skip(end + 1));
            assert(before + (seq![piece@] + split(s@.skip(end + 1), sep)) =~= before.push(piece@)
                + split(s@.skip(end + 1), sep));
        }
        start = end + 1;
    }
    out
}

/// Splits `s` into its whitespace-delimited tokens.
pub fn tokenize<'a>(s: &'a [u8]) -> (r: Vec<&'a [u8]>)
    ensures
        views(r@) == tokens(s@),
{
    let mut out: Vec<&'a [u8]> = Vec::new();
    let mut pos: usize = 0;
    proof {
        assert(s@.skip(0) =~= s@);
        assert(views(out@) + tokens(s@.skip(0)) =~= tokens(s@));
    }
    loop
        invariant_except_break
            views(out@) + tokens(s@.skip(pos as int)) == tokens(s@),
        invariant
            pos <= s.len(),
        ensures
            views(out@) == tokens(s@),
        decreases s.len() - pos,
    {
        let ghost t = s@.skip(pos as int);
        let begin = run_end(s, pos, true);
        let end = run_end(s, begin, false);
        proof {
            assert(t.skip(begin - pos) =~= s@.skip(begin as int));
        }
        if end == begin {
            proof {
                assert(tokens(t) =~= Seq::<Seq<u8>>::empty());
                assert(views(out@) + Seq::<Seq<u8>>::empty() =~= views(out@));
            }
            break;
        }
        let piece = vstd::slice::slice_subrange(s, begin, end);
        let ghost before = views(out@);
        out.push(piece);
        proof {
            let a = s@.skip(begin as int);
            assert(a.take(end - begin) =~= piece@);
            assert(a.skip(end - begin) =~= s@.skip(end as int));
            assert(views(out@) =~= before.push(piece@));
            assert(before + (seq![piece@] + tokens(s@.skip(end as int))) =~= before.push(piece@)
                + tokens(s@.skip(end as int)));
        }
        pos = end;
    }
    out
}

} // verus!
