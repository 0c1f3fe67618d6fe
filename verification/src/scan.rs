//! Finding the first position in a range at which a condition fails.

use vstd::prelude::*;

verus! {

/// The least `i` with `from <= i < to` for which `ok(i)` is false, or `to`
/// where there is none.
pub open spec fn first_failure(ok: spec_fn(int) -> bool, from: int, to: int) -> int
    decreases to - from,
{
    if from >= to {
        to
    } else if !ok(from) {
        from
    } else {
        first_failure(ok, from + 1, to)
    }
}

/// `first_failure` lies in the range, fails there unless it is the end, and
/// nothing before it fails.
pub proof fn lemma_first_failure(ok: spec_fn(int) -> bool, from: int, to: int)
    requires
        from <= to,
    ensures
        from <= first_failure(ok, from, to) <= to,
        first_failure(ok, from, to) < to ==> !ok(first_failure(ok, from, to)),
        forall|j: int| from <= j < first_failure(ok, from, to) ==> #[trigger] ok(j),
    decreases to - from,
{
    if from < to && ok(from) {
        lemma_first_failure(ok, from + 1, to);
    }
}

/// A position before which nothing fails, and which fails itself unless it is
/// the end, is the first failure.
pub proof fn lemma_first_failure_is(ok: spec_fn(int) -> bool, from: int, to: int, at: int)
    requires
        from <= at <= to,
        forall|j: int| from <= j < at ==> #[trigger] ok(j),
        at < to ==> !ok(at),
    ensures
        first_failure(ok, from, to) == at,
    decreases at - from,
{
    if from < at {
        lemma_first_failure_is(ok, from + 1, to, at);
    }
}

} // verus!
