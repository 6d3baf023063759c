//! Counting physical lines in a byte buffer.

use vstd::prelude::*;

verus! {

/// The number of newline bytes in `bytes`.
pub open spec fn newline_count(bytes: Seq<u8>) -> nat
    decreases bytes.len(),
{
    if bytes.len() == 0 {
        0
    } else {
        newline_count(bytes.drop_last()) + if bytes.last() == 10u8 { 1nat } else { 0nat }
    }
}

/// The number of physical lines in `bytes`: every newline ends a line, and a
/// final line without a newline still counts.
pub open spec fn line_count(bytes: Seq<u8>) -> nat {
    if bytes.len() == 0 {
        0
    } else {
        newline_count(bytes) + if bytes.last() != 10u8 { 1nat } else { 0nat }
    }
}

proof fn lemma_newline_count_le_len(bytes: Seq<u8>)
    ensures
        newline_count(bytes) <= bytes.len(),
    decreases bytes.len(),
{
    if bytes.len() > 0 {
        lemma_newline_count_le_len(bytes.drop_last());
    }
}

proof fn lemma_newline_count_append(a: Seq<u8>, b: Seq<u8>)
    ensures
        newline_count(a + b) == newline_count(a) + newline_count(b),
    decreases b.len(),
{
    if b.len() == 0 {
        assert(a + b =~= a);
    } else {
        lemma_newline_count_append(a, b.drop_last());
        assert((a + b).drop_last() =~= a + b.drop_last());
    }
}

/// The newline bytes of `bytes`.
pub open spec fn newline_bytes(bytes: Seq<u8>) -> Seq<u8> {
    bytes.filter(|b: u8| b == 10u8)
}

proof fn lemma_newline_count_is_filter(bytes: Seq<u8>)
    ensures
        newline_count(bytes) == newline_bytes(bytes).len(),
    decreases bytes.len(),
{
    reveal_with_fuel(Seq::<_>::filter, 1);
    if bytes.len() > 0 {
        lemma_newline_count_is_filter(bytes.drop_last());
    }
}

/// Only newline bytes end lines: the line count is the number of `\n` bytes
/// (those kept by a filter on the byte value), plus one when the buffer is
/// non-empty and its last byte is not `\n`.
pub proof fn lemma_line_count_is_newlines_plus_tail(bytes: Seq<u8>)
    ensures
        line_count(bytes) == newline_bytes(bytes).len() + if bytes.len() > 0 && bytes[bytes.len() - 1]
            != 10u8 {
            1nat
        } else {
            0nat
        },
{
    lemma_newline_count_is_filter(bytes);
}

/// A non-empty buffer without any `\n` byte is a single line, whatever other
/// bytes (carriage returns among them) it holds.
pub proof fn lemma_no_newline_is_one_line(bytes: Seq<u8>)
    requires
        bytes.len() > 0,
        forall|i: int| 0 <= i < bytes.len() ==> bytes[i] != 10u8,
    ensures
        line_count(bytes) == 1,
{
    lemma_line_count_is_newlines_plus_tail(bytes);
    assert(newline_bytes(bytes).len() == 0) by {
        lemma_no_newline_filter_empty(bytes);
    }
}

proof fn lemma_no_newline_filter_empty(bytes: Seq<u8>)
    requires
        forall|i: int| 0 <= i < bytes.len() ==> bytes[i] != 10u8,
    ensures
        newline_bytes(bytes).len() == 0,
    decreases bytes.len(),
{
    reveal_with_fuel(Seq::<_>::filter, 1);
    if bytes.len() > 0 {
        lemma_no_newline_filter_empty(bytes.drop_last());
    }
}

/// Counts the physical lines in `bytes`: the number of `\n` bytes, plus one
/// when the buffer is non-empty and does not end with `\n`.
pub fn count_lines(bytes: &[u8]) -> (count: usize)
    ensures
        count == line_count(bytes@),
        count == newline_bytes(bytes@).len() + if bytes@.len() > 0 && bytes@[bytes@.len() - 1] != 10u8 {
            1nat
        } else {
            0nat
        },
{
    proof {
        lemma_line_count_is_newlines_plus_tail(bytes@);
    }
    let n: usize = bytes.len();
    if n == 0 {
        return 0;
    }
    let mut newlines: usize = 0;
    let mut i: usize = 0;
    while i < n
        invariant
            n == bytes@.len(),
            i <= n,
            newlines == newline_count(bytes@.take(i as int)),
            newlines <= i,
        decreases n - i,
    {
        assert(bytes@.take(i as int + 1).drop_last() =~= bytes@.take(i as int));
        if bytes[i] == 10u8 {
            newlines = newlines + 1;
        }
        i = i + 1;
    }
    assert(bytes@.take(n as int) =~= bytes@);
    if bytes[n - 1] != 10u8 {
        proof {
            lemma_newline_count_le_len(bytes@.drop_last());
        }
        newlines + 1
    } else {
        newlines
    }
}

/// Line counts add up over concatenation: when the first buffer is empty or
/// ends with a newline, the lines of `a + b` are the lines of `a` followed by
/// the lines of `b`.
pub proof fn lemma_line_count_concat(a: Seq<u8>, b: Seq<u8>)
    requires
        a.len() == 0 || a.last() == 10u8,
    ensures
        line_count(a + b) == line_count(a) + line_count(b),
{
    lemma_newline_count_append(a, b);
    if b.len() == 0 {
        assert(a + b =~= a);
    } else {
        assert((a + b).last() == b.last());
    }
}

/// A buffer never has more lines than bytes.
pub proof fn lemma_line_count_le_len(bytes: Seq<u8>)
    ensures
        line_count(bytes) <= bytes.len(),
{
    if bytes.len() > 0 {
        lemma_newline_count_le_len(bytes);
        if bytes.last() != 10u8 {
            lemma_newline_count_le_len(bytes.drop_last());
            assert(newline_count(bytes) == newline_count(bytes.drop_last()));
        }
    }
}

} // verus!
