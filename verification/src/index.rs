//! The rules of an offset index, and the check that an index keeps them.
//!
//! An offset index over a data array has one entry more than there are
//! entities. Entity `i` owns the bytes of the data array from entry `i` up to
//! entry `i + 1`.

use crate::error::GraphError;
use crate::layout::{element_width, width_of};
use crate::scan::{first_failure, lemma_first_failure, lemma_first_failure_is};
use crate::store::WordSlice;
use vstd::prelude::*;

verus! {

/// Entry `i` keeps the rules: it is a multiple of `width`; the first entry is
/// zero and every other entry is not below the one before it; the last entry
/// is `data_len`.
pub open spec fn entry_ok(index: Seq<u64>, width: int, data_len: int, i: int) -> bool {
    &&& index[i] as int % width == 0
    &&& if i == 0 {
        index[i] == 0
    } else {
        index[i - 1] <= index[i]
    }
    &&& i == index.len() - 1 ==> index[i] == data_len
}

/// The number of the first entry that breaks the rules, or the number of
/// entries where none does.
pub open spec fn first_bad_entry(index: Seq<u64>, width: int, data_len: int) -> int {
    first_failure(|i: int| entry_ok(index, width, data_len, i), 0, index.len() as int)
}

/// `index` is an offset index over `data_len` bytes of elements `width`
/// bytes wide: it has an entry, and every entry keeps the rules.
pub open spec fn index_ok(index: Seq<u64>, width: int, data_len: int) -> bool {
    index.len() >= 1 && first_bad_entry(index, width, data_len) == index.len()
}

/// The entries never decrease.
pub open spec fn non_decreasing(index: Seq<u64>) -> bool {
    forall|i: int, j: int| 0 <= i <= j < index.len() ==> index[i] <= index[j]
}

/// In an index that keeps the rules every entry keeps them.
pub proof fn lemma_entries_ok(index: Seq<u64>, width: int, data_len: int)
    requires
        index_ok(index, width, data_len),
    ensures
        forall|i: int| 0 <= i < index.len() ==> entry_ok(index, width, data_len, i),
{
    let ok = |i: int| entry_ok(index, width, data_len, i);
    lemma_first_failure(ok, 0, index.len() as int);
    assert forall|i: int| 0 <= i < index.len() implies entry_ok(index, width, data_len, i) by {
        assert(ok(i));
    }
}

/// An index of which every entry keeps the rules keeps the rules.
pub proof fn lemma_index_ok(index: Seq<u64>, width: int, data_len: int)
    requires
        index.len() >= 1,
        forall|i: int| 0 <= i < index.len() ==> entry_ok(index, width, data_len, i),
    ensures
        index_ok(index, width, data_len),
{
    let ok = |i: int| entry_ok(index, width, data_len, i);
    assert forall|i: int| 0 <= i < index.len() implies #[trigger] ok(i) by {
        assert(entry_ok(index, width, data_len, i));
    }
    lemma_first_failure_is(ok, 0, index.len() as int, index.len() as int);
}

/// Where every entry keeps the rules, an earlier entry is not above a later
/// one.
proof fn lemma_chain(index: Seq<u64>, width: int, data_len: int, i: int, j: int)
    requires
        forall|k: int| 0 <= k < index.len() ==> entry_ok(index, width, data_len, k),
        0 <= i <= j < index.len(),
    ensures
        index[i] <= index[j],
    decreases j - i,
{
    if i < j {
        lemma_chain(index, width, data_len, i, j - 1);
        assert(entry_ok(index, width, data_len, j));
    }
}

/// An index that keeps the rules starts at zero, never decreases, ends at
/// the length of its data array, and holds only multiples of the element
/// width.
pub proof fn lemma_index_shape(index: Seq<u64>, width: int, data_len: int)
    requires
        index_ok(index, width, data_len),
    ensures
        index[0] == 0,
        index[index.len() - 1] == data_len,
        non_decreasing(index),
        forall|i: int| 0 <= i < index.len() ==> 0 <= #[trigger] index[i] <= data_len,
        forall|i: int| 0 <= i < index.len() ==> (#[trigger] index[i]) as int % width == 0,
{
    lemma_entries_ok(index, width, data_len);
    assert(entry_ok(index, width, data_len, 0));
    assert(entry_ok(index, width, data_len, index.len() - 1));
    assert forall|i: int, j: int| 0 <= i <= j < index.len() implies index[i] <= index[j] by {
        lemma_chain(index, width, data_len, i, j);
    }
    assert forall|i: int| 0 <= i < index.len() implies 0 <= #[trigger] index[i] <= data_len by {
        lemma_chain(index, width, data_len, i, index.len() - 1);
    }
    assert forall|i: int| 0 <= i < index.len() implies (#[trigger] index[i]) as int % width
        == 0 by {
        assert(entry_ok(index, width, data_len, i));
    }
}

/// Checks that `index` is an offset index over `data_len` bytes of the
/// elements of segment `data`, and reports the first entry that breaks the
/// rules as an entry of segment `segment`.
pub fn check_index(index: &WordSlice, data: usize, data_len: usize, segment: usize) -> (res: Result<
    (),
    GraphError,
>)
    ensures
        match res {
            Ok(_) => first_bad_entry(index@, element_width(data as int), data_len as int)
                == index@.len(),
            Err(e) => {
                let bad = first_bad_entry(index@, element_width(data as int), data_len as int);
                &&& bad < index@.len()
                &&& e == GraphError::CorruptIndex { segment, entry: bad as u64 }
            },
        },
{
    let count = index.len();
    let width = width_of(data) as u64;
    let ghost ok = |i: int| entry_ok(index@, element_width(data as int), data_len as int, i);
    let mut before: u64 = 0;
    let mut i: usize = 0;
    while i < count
        invariant
            i <= count,
            count == index@.len(),
            width == element_width(data as int),
            ok == (|i: int| entry_ok(index@, element_width(data as int), data_len as int, i)),
            forall|j: int| 0 <= j < i ==> #[trigger] ok(j),
            i > 0 ==> before == index@[i - 1],
            i == 0 ==> before == 0,
        decreases count - i,
    {
        let entry = index.word(i);
        let in_order = if i == 0 {
            entry == 0
        } else {
            before <= entry
        };
        let ends = i + 1 < count || entry == data_len as u64;
        if entry % width != 0 || !in_order || !ends {
            proof {
                assert(!ok(i as int));
                lemma_first_failure_is(ok, 0, count as int, i as int);
            }
            return Err(GraphError::CorruptIndex { segment, entry: i as u64 });
        }
        assert(ok(i as int));
        before = entry;
        i += 1;
    }
    proof {
        lemma_first_failure_is(ok, 0, count as int, count as int);
    }
    Ok(())
}

} // verus!
