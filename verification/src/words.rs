//! Little-endian integers inside byte sequences, and byte sequences read as
//! arrays of 64-bit words.

use vstd::bytes::{
    lemma_auto_spec_u32_to_from_le_bytes, lemma_auto_spec_u64_to_from_le_bytes,
    spec_u32_from_le_bytes, spec_u32_to_le_bytes, spec_u64_from_le_bytes, spec_u64_to_le_bytes,
    u32_from_le_bytes, u32_to_le_bytes, u64_from_le_bytes, u64_to_le_bytes,
};
use vstd::prelude::*;
use vstd::slice::slice_subrange;

verus! {

/// The 32-bit integer stored at `pos`.
pub open spec fn u32_at(b: Seq<u8>, pos: int) -> u32 {
    spec_u32_from_le_bytes(b.subrange(pos, pos + 4))
}

/// The 64-bit integer stored at `pos`.
pub open spec fn u64_at(b: Seq<u8>, pos: int) -> u64 {
    spec_u64_from_le_bytes(b.subrange(pos, pos + 8))
}

/// `b` read as an array of 64-bit words; bytes beyond the last whole word are
/// not part of it.
pub open spec fn words(b: Seq<u8>) -> Seq<u64> {
    Seq::new((b.len() / 8) as nat, |i: int| u64_at(b, 8 * i))
}

/// The bytes of an array of 64-bit words.
pub open spec fn word_bytes(ws: Seq<u64>) -> Seq<u8>
    decreases ws.len(),
{
    if ws.len() == 0 {
        Seq::empty()
    } else {
        word_bytes(ws.drop_last()) + spec_u64_to_le_bytes(ws.last())
    }
}

/// `n` zero bytes.
pub open spec fn zeros(n: int) -> Seq<u8> {
    Seq::new(n as nat, |i: int| 0u8)
}

/// A 32-bit integer takes four bytes and is read back from them.
pub proof fn lemma_u32_bytes_len(x: u32)
    ensures
        spec_u32_to_le_bytes(x).len() == 4,
        spec_u32_from_le_bytes(spec_u32_to_le_bytes(x)) == x,
{
    lemma_auto_spec_u32_to_from_le_bytes();
    assert(spec_u32_to_le_bytes(x).len() == 4);
}

/// A 64-bit integer takes eight bytes and is read back from them.
pub proof fn lemma_u64_bytes_len(x: u64)
    ensures
        spec_u64_to_le_bytes(x).len() == 8,
        spec_u64_from_le_bytes(spec_u64_to_le_bytes(x)) == x,
{
    lemma_auto_spec_u64_to_from_le_bytes();
}

/// A 32-bit integer written between two byte sequences is read back there.
pub proof fn lemma_u32_at_written(before: Seq<u8>, x: u32, after: Seq<u8>)
    ensures
        u32_at(before + spec_u32_to_le_bytes(x) + after, before.len() as int) == x,
{
    lemma_u32_bytes_len(x);
    let all = before + spec_u32_to_le_bytes(x) + after;
    assert(all.subrange(before.len() as int, before.len() as int + 4) =~= spec_u32_to_le_bytes(x));
}

/// A 64-bit integer written between two byte sequences is read back there.
pub proof fn lemma_u64_at_written(before: Seq<u8>, x: u64, after: Seq<u8>)
    ensures
        u64_at(before + spec_u64_to_le_bytes(x) + after, before.len() as int) == x,
{
    lemma_u64_bytes_len(x);
    let all = before + spec_u64_to_le_bytes(x) + after;
    assert(all.subrange(before.len() as int, before.len() as int + 8) =~= spec_u64_to_le_bytes(x));
}

/// An array of words takes eight bytes for each word.
pub proof fn lemma_word_bytes_len(ws: Seq<u64>)
    ensures
        word_bytes(ws).len() == 8 * ws.len(),
    decreases ws.len(),
{
    if ws.len() > 0 {
        lemma_word_bytes_len(ws.drop_last());
        lemma_u64_bytes_len(ws.last());
    }
}

/// Word `i` of an array occupies bytes `8 * i .. 8 * i + 8` of its bytes.
pub proof fn lemma_word_bytes_at(ws: Seq<u64>, i: int)
    requires
        0 <= i < ws.len(),
    ensures
        u64_at(word_bytes(ws), 8 * i) == ws[i],
    decreases ws.len(),
{
    let front = word_bytes(ws.drop_last());
    lemma_word_bytes_len(ws.drop_last());
    lemma_u64_bytes_len(ws.last());
    if i == ws.len() - 1 {
        lemma_u64_at_written(front, ws.last(), Seq::empty());
        assert(front + spec_u64_to_le_bytes(ws.last()) + Seq::<u8>::empty() =~= word_bytes(ws));
    } else {
        lemma_word_bytes_at(ws.drop_last(), i);
        assert(word_bytes(ws).subrange(8 * i, 8 * i + 8) =~= front.subrange(8 * i, 8 * i + 8));
    }
}

/// Reading the bytes of a word array as words gives the array back.
pub proof fn lemma_words_of_word_bytes(ws: Seq<u64>)
    ensures
        words(word_bytes(ws)) == ws,
{
    lemma_word_bytes_len(ws);
    assert forall|i: int| 0 <= i < ws.len() implies words(word_bytes(ws))[i] == ws[i] by {
        lemma_word_bytes_at(ws, i);
    }
    assert(words(word_bytes(ws)) =~= ws);
}

/// The bytes of two arrays joined are the bytes of each, joined.
pub proof fn lemma_word_bytes_concat(a: Seq<u64>, b: Seq<u64>)
    ensures
        word_bytes(a + b) == word_bytes(a) + word_bytes(b),
    decreases b.len(),
{
    if b.len() == 0 {
        assert(a + b =~= a);
        assert(word_bytes(a) + word_bytes(b) =~= word_bytes(a));
    } else {
        lemma_word_bytes_concat(a, b.drop_last());
        assert((a + b).drop_last() =~= a + b.drop_last());
        assert((a + b).last() == b.last());
        assert(word_bytes(a + b) =~= word_bytes(a) + word_bytes(b));
    }
}

/// Reads the 32-bit integer at `pos`.
pub(crate) fn read_u32(bytes: &[u8], pos: usize) -> (x: u32)
    requires
        pos + 4 <= bytes@.len(),
    ensures
        x == u32_at(bytes@, pos as int),
{
    proof {
        assert(bytes@.len() == bytes.len());
    }
    u32_from_le_bytes(slice_subrange(bytes, pos, pos + 4))
}

/// Reads the 64-bit integer at `pos`.
pub(crate) fn read_u64(bytes: &[u8], pos: usize) -> (x: u64)
    requires
        pos + 8 <= bytes@.len(),
    ensures
        x == u64_at(bytes@, pos as int),
{
    proof {
        assert(bytes@.len() == bytes.len());
    }
    u64_from_le_bytes(slice_subrange(bytes, pos, pos + 8))
}

/// Appends a 32-bit integer.
pub(crate) fn push_u32(out: &mut Vec<u8>, x: u32)
    ensures
        final(out)@ == old(out)@ + spec_u32_to_le_bytes(x),
{
    let v = u32_to_le_bytes(x);
    out.extend_from_slice(v.as_slice());
}

/// Appends a 64-bit integer.
pub(crate) fn push_u64(out: &mut Vec<u8>, x: u64)
    ensures
        final(out)@ == old(out)@ + spec_u64_to_le_bytes(x),
{
    let v = u64_to_le_bytes(x);
    out.extend_from_slice(v.as_slice());
}

/// Appends an array of 64-bit words.
pub(crate) fn push_words(out: &mut Vec<u8>, ws: &[u64])
    ensures
        final(out)@ == old(out)@ + word_bytes(ws@),
{
    let n = ws.len();
    let mut i: usize = 0;
    assert(old(out)@ + word_bytes(ws@.take(0)) =~= old(out)@);
    while i < n
        invariant
            n == ws@.len(),
            i <= n,
            out@ == old(out)@ + word_bytes(ws@.take(i as int)),
        decreases n - i,
    {
        push_u64(out, ws[i]);
        proof {
            let next = ws@.take(i + 1);
            assert(next.drop_last() =~= ws@.take(i as int));
            assert(next.last() == ws@[i as int]);
            assert(old(out)@ + word_bytes(next) =~= old(out)@ + word_bytes(ws@.take(i as int))
                + spec_u64_to_le_bytes(ws@[i as int]));
        }
        i += 1;
    }
    assert(ws@.take(n as int) =~= ws@);
}

} // verus!
