//! Finding an id in a list of ids.

use vstd::prelude::*;

verus! {

/// Position of the first occurrence of `id` in `ids`, or `ids.len()` if
/// there is none.
pub open spec fn position(ids: Seq<Seq<u8>>, id: Seq<u8>) -> int
    decreases ids.len(),
{
    if ids.len() == 0 || ids[0] == id {
        0
    } else {
        1 + position(ids.skip(1), id)
    }
}

/// No id occurs twice in `ids`.
pub open spec fn distinct(ids: Seq<Seq<u8>>) -> bool {
    forall|i: int, j: int| 0 <= i < j < ids.len() ==> ids[i] != ids[j]
}

/// The numbers of `v` as mathematical integers.
pub open spec fn ints(v: Seq<usize>) -> Seq<int> {
    Seq::new(v.len(), |i: int| v[i] as int)
}

/// `position` stays within the list, no id before it is the one sought, and
/// the id at it, if any, is.
pub proof fn lemma_position(ids: Seq<Seq<u8>>, id: Seq<u8>)
    ensures
        0 <= position(ids, id) <= ids.len(),
        forall|k: int| 0 <= k < position(ids, id) ==> ids[k] != id,
        position(ids, id) < ids.len() ==> ids[position(ids, id)] == id,
    decreases ids.len(),
{
    if ids.len() > 0 && ids[0] != id {
        let t = ids.skip(1);
        lemma_position(t, id);
        assert forall|k: int| 0 <= k < position(ids, id) implies ids[k] != id by {
            if k > 0 {
                assert(ids[k] == t[k - 1]);
            }
        }
        if position(ids, id) < ids.len() {
            assert(ids[position(ids, id)] == t[position(t, id)]);
        }
    }
}

/// The first place at which the id stands is `position`.
pub proof fn lemma_position_is(ids: Seq<Seq<u8>>, id: Seq<u8>, n: int)
    requires
        0 <= n <= ids.len(),
        forall|k: int| 0 <= k < n ==> ids[k] != id,
        n < ids.len() ==> ids[n] == id,
    ensures
        position(ids, id) == n,
    decreases ids.len(),
{
    if n > 0 {
        let t = ids.skip(1);
        assert(ids[0] != id);
        assert forall|k: int| 0 <= k < n - 1 implies t[k] != id by {
            assert(t[k] == ids[k + 1]);
        }
        if n - 1 < t.len() {
            assert(t[n - 1] == ids[n]);
        }
        lemma_position_is(t, id, n - 1);
    }
}

/// Position of the first of `indices` for which `ok` does not hold, or
/// `indices.len()` if it holds for all.
pub open spec fn first_failing(indices: Seq<int>, ok: spec_fn(int) -> bool) -> int
    decreases indices.len(),
{
    if indices.len() == 0 || !ok(indices[0]) {
        0
    } else {
        1 + first_failing(indices.skip(1), ok)
    }
}

/// The first place at which `ok` does not hold is `first_failing`.
pub proof fn lemma_first_failing_is(indices: Seq<int>, ok: spec_fn(int) -> bool, n: int)
    requires
        0 <= n <= indices.len(),
        forall|k: int| 0 <= k < n ==> ok(#[trigger] indices[k]),
        n < indices.len() ==> !ok(indices[n]),
    ensures
        first_failing(indices, ok) == n,
    decreases indices.len(),
{
    if n > 0 {
        let t = indices.skip(1);
        assert(ok(indices[0]));
        assert forall|k: int| 0 <= k < n - 1 implies ok(#[trigger] t[k]) by {
            assert(t[k] == indices[k + 1]);
        }
        if n - 1 < t.len() {
            assert(t[n - 1] == indices[n]);
        }
        lemma_first_failing_is(t, ok, n - 1);
    }
}

} // verus!
