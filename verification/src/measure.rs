//! In-memory size accounting for lines.
//!
//! A line is a decoded text line without its terminator, held as a byte
//! vector.  Its weight is its byte length plus one, for the newline byte
//! that is re-appended on write.  Sums of weights saturate at `u64::MAX`
//! rather than overflow.

use vstd::prelude::*;

verus! {

/// The mathematical view of a sequence of lines.
pub open spec fn lines_of(s: Seq<Vec<u8>>) -> Seq<Seq<u8>> {
    Seq::new(s.len(), |i: int| s[i]@)
}

/// The mathematical view of a sequence of chunks (each chunk a sequence of lines).
pub open spec fn chunks_of(s: Seq<Vec<Vec<u8>>>) -> Seq<Seq<Seq<u8>>> {
    Seq::new(s.len(), |i: int| lines_of(s[i]@))
}

/// The weight of one line: its byte length plus one newline byte.
pub open spec fn line_weight(l: Seq<u8>) -> nat {
    l.len() + 1
}

/// The summed weight of a sequence of lines: the byte size the lines will
/// occupy on disk once each is written followed by one newline byte.
pub open spec fn weight_sum(ls: Seq<Seq<u8>>) -> nat
    decreases ls.len(),
{
    if ls.len() == 0 {
        0
    } else {
        weight_sum(ls.drop_last()) + line_weight(ls.last())
    }
}

/// Saturation at `u64::MAX`.
pub open spec fn sat64(n: int) -> int {
    if n > u64::MAX {
        u64::MAX as int
    } else {
        n
    }
}

pub proof fn lemma_weight_sum_push(ls: Seq<Seq<u8>>, l: Seq<u8>)
    ensures
        weight_sum(ls.push(l)) == weight_sum(ls) + line_weight(l),
{
    assert(ls.push(l).drop_last() =~= ls);
    assert(ls.push(l).last() == l);
}

pub proof fn lemma_weight_sum_concat(a: Seq<Seq<u8>>, b: Seq<Seq<u8>>)
    ensures
        weight_sum(a + b) == weight_sum(a) + weight_sum(b),
    decreases b.len(),
{
    if b.len() == 0 {
        assert(a + b =~= a);
    } else {
        lemma_weight_sum_concat(a, b.drop_last());
        assert((a + b).drop_last() =~= a + b.drop_last());
        assert((a + b).last() == b.last());
    }
}

pub proof fn lemma_weight_sum_take_succ(ls: Seq<Seq<u8>>, i: int)
    requires
        0 <= i < ls.len(),
    ensures
        weight_sum(ls.take(i + 1)) == weight_sum(ls.take(i)) + line_weight(ls[i]),
{
    assert(ls.take(i + 1).drop_last() =~= ls.take(i));
    assert(ls.take(i + 1).last() == ls[i]);
}

pub proof fn lemma_weight_sum_take_le(ls: Seq<Seq<u8>>, i: int)
    requires
        0 <= i <= ls.len(),
    ensures
        weight_sum(ls.take(i)) <= weight_sum(ls),
{
    assert(ls =~= ls.take(i) + ls.skip(i));
    lemma_weight_sum_concat(ls.take(i), ls.skip(i));
}

/// Copies one line; the copy holds the same bytes.
pub fn clone_line(l: &Vec<u8>) -> (r: Vec<u8>)
    ensures
        r@ == l@,
{
    let r = l.clone();
    proof {
        assert(r@ =~= l@);
    }
    r
}

/// Copies a sequence of lines; the copy holds the same lines.
pub fn clone_lines(ls: &Vec<Vec<u8>>) -> (r: Vec<Vec<u8>>)
    ensures
        lines_of(r@) == lines_of(ls@),
        r@.len() == ls@.len(),
{
    let mut r: Vec<Vec<u8>> = Vec::new();
    let mut i: usize = 0;
    while i < ls.len()
        invariant
            i <= ls@.len(),
            r@.len() == i,
            forall|j: int| 0 <= j < i ==> r@[j]@ == ls@[j]@,
        decreases ls@.len() - i,
    {
        r.push(clone_line(&ls[i]));
        i = i + 1;
    }
    proof {
        assert(lines_of(r@) =~= lines_of(ls@));
    }
    r
}

/// The summed weight of a slice of lines, saturating at `u64::MAX`.
///
/// Each line counts for its byte length plus one newline byte, the byte
/// size it will occupy on disk once written.
pub fn get_slice_bytes(s: &[Vec<u8>]) -> (r: u64)
    ensures
        r as int == sat64(weight_sum(lines_of(s@)) as int),
{
    let ghost lv = lines_of(s@);
    let mut total: u64 = 0;
    let mut i: usize = 0;
    while i < s.len()
        invariant
            i <= s@.len(),
            lv == lines_of(s@),
            total as int == sat64(weight_sum(lv.take(i as int)) as int),
        decreases s@.len() - i,
    {
        proof {
            lemma_weight_sum_take_succ(lv, i as int);
        }
        let len_u64: u64 = s[i].len() as u64;
        let w: u64 = if len_u64 == u64::MAX {
            u64::MAX
        } else {
            len_u64 + 1
        };
        total = if total > u64::MAX - w {
            u64::MAX
        } else {
            total + w
        };
        i = i + 1;
    }
    proof {
        assert(lv.take(s@.len() as int) =~= lv);
    }
    total
}

} // verus!
