//! Byte-level building blocks of the text format: separators, fields and
//! whitespace-delimited tokens.

use vstd::prelude::*;

verus! {

/// The byte written between the columns of a rendered line.
pub const TAB: u8 = 9;

/// ASCII whitespace: space, and the control bytes from tab to carriage return.
pub open spec fn is_space(b: u8) -> bool {
    b == 32 || (9 <= b && b <= 13)
}

/// The predicate "is whitespace", or its negation.
pub open spec fn space_is(want: bool) -> spec_fn(u8) -> bool {
    |b: u8| is_space(b) == want
}

/// The predicate "differs from `sep`".
pub open spec fn other_than(sep: u8) -> spec_fn(u8) -> bool {
    |b: u8| b != sep
}

/// Length of the longest prefix of `s` all of whose bytes satisfy `p`.
pub open spec fn prefix_len(s: Seq<u8>, p: spec_fn(u8) -> bool) -> int
    decreases s.len(),
{
    if s.len() > 0 && p(s[0]) {
        1 + prefix_len(s.skip(1), p)
    } else {
        0
    }
}

/// Index of the first occurrence of `sep` in `s`, or `s.len()` if there is none.
pub open spec fn find(s: Seq<u8>, sep: u8) -> int {
    prefix_len(s, other_than(sep))
}

/// True when `sep` does not occur in `s`.
pub open spec fn free_of(s: Seq<u8>, sep: u8) -> bool {
    forall|i: int| 0 <= i < s.len() ==> s[i] != sep
}

/// True when `s` holds no whitespace.
pub open spec fn no_space(s: Seq<u8>) -> bool {
    forall|i: int| 0 <= i < s.len() ==> !is_space(#[trigger] s[i])
}

/// A token is a non-empty run of bytes without whitespace.
pub open spec fn is_token(s: Seq<u8>) -> bool {
    s.len() > 0 && no_space(s)
}

/// The pieces of `s` between occurrences of `sep`. A sequence with `k`
/// separators has `k + 1` pieces, some of which may be empty.
pub open spec fn split(s: Seq<u8>, sep: u8) -> Seq<Seq<u8>>
    decreases s.len(),
{
    let i = find(s, sep);
    if 0 <= i < s.len() {
        seq![s.take(i)] + split(s.skip(i + 1), sep)
    } else {
        seq![s]
    }
}

/// The pieces `parts` written one after another with `sep` between them.
pub open spec fn join(parts: Seq<Seq<u8>>, sep: u8) -> Seq<u8>
    decreases parts.len(),
{
    if parts.len() == 0 {
        Seq::empty()
    } else if parts.len() == 1 {
        parts[0]
    } else {
        join(parts.drop_last(), sep) + seq![sep] + parts.last()
    }
}

/// The maximal whitespace-free runs of `s`, in order.
pub open spec fn tokens(s: Seq<u8>) -> Seq<Seq<u8>>
    decreases s.len(),
{
    let a = s.skip(prefix_len(s, space_is(true)));
    let n = prefix_len(a, space_is(false));
    if 0 < n <= a.len() <= s.len() {
        seq![a.take(n)] + tokens(a.skip(n))
    } else {
        Seq::empty()
    }
}

/// The views of a sequence of slices.
pub open spec fn views(v: Seq<&[u8]>) -> Seq<Seq<u8>> {
    Seq::new(v.len(), |i: int| v[i]@)
}

/// `prefix_len` stays within the sequence, every byte before it satisfies
/// the predicate, and the byte at it, if any, does not.
pub proof fn lemma_prefix_len(s: Seq<u8>, p: spec_fn(u8) -> bool)
    ensures
        0 <= prefix_len(s, p) <= s.len(),
        forall|i: int| 0 <= i < prefix_len(s, p) ==> p(#[trigger] s[i]),
        prefix_len(s, p) < s.len() ==> !p(s[prefix_len(s, p)]),
    decreases s.len(),
{
    if s.len() > 0 && p(s[0]) {
        let t = s.skip(1);
        lemma_prefix_len(t, p);
        assert forall|i: int| 0 <= i < prefix_len(s, p) implies p(#[trigger] s[i]) by {
            if i > 0 {
                assert(s[i] == t[i - 1]);
            }
        }
        if prefix_len(s, p) < s.len() {
            assert(s[prefix_len(s, p)] == t[prefix_len(t, p)]);
        }
    }
}

/// A position that ends a run of bytes satisfying the predicate is `prefix_len`.
pub proof fn lemma_prefix_len_is(s: Seq<u8>, p: spec_fn(u8) -> bool, n: int)
    requires
        0 <= n <= s.len(),
        forall|i: int| 0 <= i < n ==> p(#[trigger] s[i]),
        n < s.len() ==> !p(s[n]),
    ensures
        prefix_len(s, p) == n,
    decreases s.len(),
{
    if n > 0 {
        let t = s.skip(1);
        assert(p(s[0]));
        assert forall|i: int| 0 <= i < n - 1 implies p(#[trigger] t[i]) by {
            assert(t[i] == s[i + 1]);
        }
        if n - 1 < t.len() {
            assert(t[n - 1] == s[n]);
        }
        lemma_prefix_len_is(t, p, n - 1);
    }
}

/// A sequence without the separator is its own single piece.
pub proof fn lemma_split_none(s: Seq<u8>, sep: u8)
    requires
        free_of(s, sep),
    ensures
        split(s, sep) == seq![s],
{
    lemma_prefix_len_is(s, other_than(sep), s.len() as int);
}

/// Splitting `a + [sep] + b`, where `a` holds no separator, gives `a`
/// followed by the pieces of `b`.
pub proof fn lemma_split_cons(a: Seq<u8>, sep: u8, b: Seq<u8>)
    requires
        free_of(a, sep),
    ensures
        split(a + seq![sep] + b, sep) == seq![a] + split(b, sep),
{
    let s = a + seq![sep] + b;
    assert(s[a.len() as int] == sep);
    assert forall|i: int| 0 <= i < a.len() implies (other_than(sep))(#[trigger] s[i]) by {
        assert(s[i] == a[i]);
    }
    lemma_prefix_len_is(s, other_than(sep), a.len() as int);
    assert(s.take(a.len() as int) =~= a);
    assert(s.skip(a.len() as int + 1) =~= b);
}

/// No piece of a split holds the separator, and there is at least one piece.
pub proof fn lemma_split_pieces(s: Seq<u8>, sep: u8)
    ensures
        split(s, sep).len() >= 1,
        forall|k: int| 0 <= k < split(s, sep).len() ==> free_of(#[trigger] split(s, sep)[k], sep),
    decreases s.len(),
{
    lemma_prefix_len(s, other_than(sep));
    let i = find(s, sep);
    if 0 <= i < s.len() {
        lemma_split_pieces(s.skip(i + 1), sep);
        let rest = split(s.skip(i + 1), sep);
        assert forall|k: int| 0 <= k < split(s, sep).len() implies free_of(
            #[trigger] split(s, sep)[k],
            sep,
        ) by {
            if k == 0 {
                assert(split(s, sep)[0] == s.take(i));
            } else {
                assert(split(s, sep)[k] == rest[k - 1]);
            }
        }
    } else {
        assert(split(s, sep)[0] == s);
    }
}

/// Joining with one more piece in front.
pub proof fn lemma_join_front(a: Seq<u8>, parts: Seq<Seq<u8>>, sep: u8)
    requires
        parts.len() >= 1,
    ensures
        join(seq![a] + parts, sep) == a + seq![sep] + join(parts, sep),
    decreases parts.len(),
{
    let all = seq![a] + parts;
    assert(all.last() == parts.last());
    if parts.len() == 1 {
        assert(all.drop_last() =~= seq![a]);
        assert(join(seq![a], sep) == a);
    } else {
        assert(all.drop_last() =~= seq![a] + parts.drop_last());
        lemma_join_front(a, parts.drop_last(), sep);
        assert(a + seq![sep] + join(parts.drop_last(), sep) + seq![sep] + parts.last() =~= a
            + seq![sep] + (join(parts.drop_last(), sep) + seq![sep] + parts.last()));
    }
}

/// Splitting a join of separator-free pieces gives the pieces back.
pub proof fn lemma_split_join(parts: Seq<Seq<u8>>, sep: u8)
    requires
        parts.len() >= 1,
        forall|k: int| 0 <= k < parts.len() ==> free_of(#[trigger] parts[k], sep),
    ensures
        split(join(parts, sep), sep) == parts,
    decreases parts.len(),
{
    if parts.len() == 1 {
        lemma_split_none(parts[0], sep);
        assert(seq![parts[0]] =~= parts);
    } else {
        let rest = parts.skip(1);
        assert(seq![parts[0]] + rest =~= parts);
        assert forall|k: int| 0 <= k < rest.len() implies free_of(#[trigger] rest[k], sep) by {
            assert(rest[k] == parts[k + 1]);
        }
        lemma_join_front(parts[0], rest, sep);
        lemma_split_join(rest, sep);
        lemma_split_cons(parts[0], sep, join(rest, sep));
    }
}

/// A join of separator-free pieces that are free of another byte is free of
/// that byte too, provided the separator differs from it.
pub proof fn lemma_join_free_of(parts: Seq<Seq<u8>>, sep: u8, other: u8)
    requires
        sep != other,
        forall|k: int| 0 <= k < parts.len() ==> free_of(#[trigger] parts[k], other),
    ensures
        free_of(join(parts, sep), other),
    decreases parts.len(),
{
    if parts.len() == 1 {
        assert(free_of(parts[0], other));
    } else if parts.len() > 1 {
        let init = parts.drop_last();
        assert forall|k: int| 0 <= k < init.len() implies free_of(#[trigger] init[k], other) by {
            assert(init[k] == parts[k]);
        }
        lemma_join_free_of(init, sep, other);
        assert(free_of(parts.last(), other));
    }
}

/// A join of whitespace-free pieces with a separator that is no whitespace
/// holds no whitespace.
pub proof fn lemma_join_no_space(parts: Seq<Seq<u8>>, sep: u8)
    requires
        !is_space(sep),
        forall|k: int| 0 <= k < parts.len() ==> no_space(#[trigger] parts[k]),
    ensures
        no_space(join(parts, sep)),
    decreases parts.len(),
{
    if parts.len() == 1 {
        assert(no_space(parts[0]));
    } else if parts.len() > 1 {
        let init = parts.drop_last();
        assert forall|k: int| 0 <= k < init.len() implies no_space(#[trigger] init[k]) by {
            assert(init[k] == parts[k]);
        }
        lemma_join_no_space(init, sep);
        assert(no_space(parts.last()));
    }
}

/// The pieces `parts`, each with a tab before it.
pub open spec fn tabbed(parts: Seq<Seq<u8>>) -> Seq<u8>
    decreases parts.len(),
{
    if parts.len() == 0 {
        Seq::empty()
    } else {
        tabbed(parts.drop_last()) + seq![9u8] + parts.last()
    }
}

/// The empty sequence has no token.
pub proof fn lemma_tokens_empty()
    ensures
        tokens(Seq::<u8>::empty()) == Seq::<Seq<u8>>::empty(),
{
    let s = Seq::<u8>::empty();
    lemma_prefix_len(s, space_is(true));
    lemma_prefix_len(s.skip(0), space_is(false));
}

/// Whitespace in front of a sequence changes none of its tokens.
pub proof fn lemma_tokens_skip_space(s: Seq<u8>)
    requires
        s.len() > 0,
        is_space(s[0]),
    ensures
        tokens(s) == tokens(s.skip(1)),
{
    let t = s.skip(1);
    let k = prefix_len(t, space_is(true));
    lemma_prefix_len(t, space_is(true));
    assert((space_is(true))(s[0]));
    assert(prefix_len(s, space_is(true)) == 1 + k);
    assert(s.skip(1 + k) =~= t.skip(k));
    lemma_prefix_len(t.skip(k), space_is(false));
}

/// A token in front of whitespace, or of nothing, is the first token.
pub proof fn lemma_tokens_cons(t: Seq<u8>, rest: Seq<u8>)
    requires
        is_token(t),
        rest.len() == 0 || is_space(rest[0]),
    ensures
        tokens(t + rest) == seq![t] + tokens(rest),
{
    let s = t + rest;
    assert(s[0] == t[0]);
    assert(!is_space(t[0]));
    assert(!(space_is(true))(s[0]));
    assert(prefix_len(s, space_is(true)) == 0);
    assert(s.skip(0) =~= s);
    assert forall|i: int| 0 <= i < t.len() implies (space_is(false))(#[trigger] s[i]) by {
        assert(s[i] == t[i]);
        assert(!is_space(t[i]));
    }
    if rest.len() > 0 {
        assert(s[t.len() as int] == rest[0]);
    }
    lemma_prefix_len_is(s, space_is(false), t.len() as int);
    assert(s.take(t.len() as int) =~= t);
    assert(s.skip(t.len() as int) =~= rest);
}

/// Every token of a sequence is a non-empty run of bytes without whitespace.
pub proof fn lemma_tokens_are_tokens(s: Seq<u8>)
    ensures
        forall|k: int| 0 <= k < tokens(s).len() ==> is_token(#[trigger] tokens(s)[k]),
    decreases s.len(),
{
    lemma_prefix_len(s, space_is(true));
    let a = s.skip(prefix_len(s, space_is(true)));
    lemma_prefix_len(a, space_is(false));
    let n = prefix_len(a, space_is(false));
    if 0 < n <= a.len() <= s.len() {
        lemma_tokens_are_tokens(a.skip(n));
        let first = a.take(n);
        assert forall|i: int| 0 <= i < first.len() implies !is_space(#[trigger] first[i]) by {
            assert(first[i] == a[i]);
            assert((space_is(false))(a[i]));
        }
        let rest = tokens(a.skip(n));
        assert forall|k: int| 0 <= k < tokens(s).len() implies is_token(
            #[trigger] tokens(s)[k],
        ) by {
            if k == 0 {
                assert(tokens(s)[0] == first);
            } else {
                assert(tokens(s)[k] == rest[k - 1]);
            }
        }
    }
}

/// Pieces written with tabs before them start with a tab.
pub proof fn lemma_tabbed_head(parts: Seq<Seq<u8>>)
    requires
        parts.len() > 0,
    ensures
        tabbed(parts).len() > 0,
        tabbed(parts)[0] == 9,
    decreases parts.len(),
{
    if parts.len() > 1 {
        lemma_tabbed_head(parts.drop_last());
    } else {
        assert(tabbed(parts.drop_last()) =~= Seq::<u8>::empty());
    }
}

/// The tokens of tokens written with tabs before them are those tokens.
pub proof fn lemma_tokens_tabbed(parts: Seq<Seq<u8>>, rest: Seq<u8>)
    requires
        forall|k: int| 0 <= k < parts.len() ==> is_token(#[trigger] parts[k]),
        rest.len() == 0 || is_space(rest[0]),
    ensures
        tokens(tabbed(parts) + rest) == parts + tokens(rest),
    decreases parts.len(),
{
    if parts.len() == 0 {
        assert(tabbed(parts) + rest =~= rest);
        assert(parts + tokens(rest) =~= tokens(rest));
    } else {
        let init = parts.drop_last();
        let last = parts.last();
        let tail = seq![9u8] + last + rest;
        assert forall|k: int| 0 <= k < init.len() implies is_token(#[trigger] init[k]) by {
            assert(init[k] == parts[k]);
        }
        assert(tail[0] == 9);
        lemma_tokens_tabbed(init, tail);
        assert(tabbed(parts) + rest =~= tabbed(init) + tail);
        lemma_tokens_skip_space(tail);
        assert(tail.skip(1) =~= last + rest);
        assert(is_token(last));
        lemma_tokens_cons(last, rest);
        assert(init + (seq![last] + tokens(rest)) =~= parts + tokens(rest));
    }
}

/// The pieces of a sequence without whitespace hold no whitespace.
pub proof fn lemma_split_no_space(s: Seq<u8>, sep: u8)
    requires
        no_space(s),
    ensures
        forall|k: int| 0 <= k < split(s, sep).len() ==> no_space(#[trigger] split(s, sep)[k]),
    decreases s.len(),
{
    lemma_prefix_len(s, other_than(sep));
    let i = find(s, sep);
    if 0 <= i < s.len() {
        let tail = s.skip(i + 1);
        assert forall|j: int| 0 <= j < tail.len() implies !is_space(#[trigger] tail[j]) by {
            assert(tail[j] == s[j + i + 1]);
        }
        lemma_split_no_space(tail, sep);
        let rest = split(tail, sep);
        let head = s.take(i);
        assert forall|j: int| 0 <= j < head.len() implies !is_space(#[trigger] head[j]) by {
            assert(head[j] == s[j]);
        }
        assert forall|k: int| 0 <= k < split(s, sep).len() implies no_space(
            #[trigger] split(s, sep)[k],
        ) by {
            if k == 0 {
                assert(split(s, sep)[0] == head);
            } else {
                assert(split(s, sep)[k] == rest[k - 1]);
            }
        }
    } else {
        assert(split(s, sep)[0] == s);
    }
}

/// The pieces of a sequence that is free of a byte are free of that byte.
pub proof fn lemma_split_free_of(s: Seq<u8>, sep: u8, other: u8)
    requires
        free_of(s, other),
    ensures
        forall|k: int|
            0 <= k < split(s, sep).len() ==> free_of(#[trigger] split(s, sep)[k], other),
    decreases s.len(),
{
    lemma_prefix_len(s, other_than(sep));
    let i = find(s, sep);
    if 0 <= i < s.len() {
        let tail = s.skip(i + 1);
        assert forall|j: int| 0 <= j < tail.len() implies tail[j] != other by {
            assert(tail[j] == s[j + i + 1]);
        }
        lemma_split_free_of(tail, sep, other);
        let rest = split(tail, sep);
        let head = s.take(i);
        assert forall|j: int| 0 <= j < head.len() implies head[j] != other by {
            assert(head[j] == s[j]);
        }
        assert forall|k: int| 0 <= k < split(s, sep).len() implies free_of(
            #[trigger] split(s, sep)[k],
            other,
        ) by {
            if k == 0 {
                assert(split(s, sep)[0] == head);
            } else {
                assert(split(s, sep)[k] == rest[k - 1]);
            }
        }
    } else {
        assert(split(s, sep)[0] == s);
    }
}

} // verus!
