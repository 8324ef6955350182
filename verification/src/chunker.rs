//! Calibration and streaming chunk accumulation.
//!
//! `estimate_chunk_size` turns the caller's on-disk size ceiling into an
//! in-memory byte budget, scaled by the ratio of the summed line weights
//! to the file's true on-disk length, and extracts the header lines.
//!
//! `split_lines` accumulates lines into chunks against that budget: a line
//! whose weight no longer fits flushes the current chunk, and the next
//! chunk is re-seeded with the header before the line is appended.  A line
//! too wide for the budget by itself is emitted in its own chunk (with its
//! header seed) rather than looping forever.

use vstd::prelude::*;
use crate::measure::{
    lines_of, chunks_of, line_weight, weight_sum, sat64, clone_line, clone_lines,
    get_slice_bytes, lemma_weight_sum_push, lemma_weight_sum_take_succ,
    lemma_weight_sum_take_le,
};

verus! {

/// Appending a line of this weight to this buffer would overrun the
/// budget; the buffer is flushed first.  An empty buffer is never flushed.
pub open spec fn over_budget(buffer: Seq<Seq<u8>>, l: Seq<u8>, budget: int) -> bool {
    buffer.len() > 0 && weight_sum(buffer) + line_weight(l) > budget
}

/// The chunks flushed so far and the chunk still accumulating, after the
/// given lines have been streamed against the budget.  A flush re-seeds
/// the accumulating chunk with the header followed by the line that did
/// not fit.
pub open spec fn split_state(lines: Seq<Seq<u8>>, budget: int, header: Seq<Seq<u8>>) -> (Seq<
    Seq<Seq<u8>>,
>, Seq<Seq<u8>>)
    decreases lines.len(),
{
    if lines.len() == 0 {
        (Seq::empty(), Seq::empty())
    } else {
        let (cs, buf) = split_state(lines.drop_last(), budget, header);
        let l = lines.last();
        if over_budget(buf, l, budget) {
            (cs.push(buf), header.push(l))
        } else {
            (cs, buf.push(l))
        }
    }
}

/// All chunks produced from the given lines: the flushed ones, and the
/// final accumulating chunk when it is not empty.
pub open spec fn spec_chunks(lines: Seq<Seq<u8>>, budget: int, header: Seq<Seq<u8>>) -> Seq<
    Seq<Seq<u8>>,
> {
    let (cs, buf) = split_state(lines, budget, header);
    if buf.len() > 0 {
        cs.push(buf)
    } else {
        cs
    }
}

/// The concatenation of the chunks with the repeated header stripped: the
/// first chunk whole, every later chunk without its first `h` lines.
pub open spec fn strip_concat(chunks: Seq<Seq<Seq<u8>>>, h: int) -> Seq<Seq<u8>>
    decreases chunks.len(),
{
    if chunks.len() == 0 {
        Seq::empty()
    } else if chunks.len() == 1 {
        chunks[0]
    } else {
        strip_concat(chunks.drop_last(), h) + chunks.last().skip(h)
    }
}

proof fn lemma_split_state_invariants(lines: Seq<Seq<u8>>, budget: int, header: Seq<Seq<u8>>)
    ensures
        ({
            let (cs, buf) = split_state(lines, budget, header);
            let h = header.len() as int;
            &&& cs.len() == 0 ==> buf == lines
            &&& cs.len() > 0 ==> buf.len() > h && buf.take(h) == header
            &&& lines.len() > 0 ==> buf.len() > 0
            &&& strip_concat(cs.push(buf), h) == lines
            &&& forall|k: int| 1 <= k < cs.len() ==> (#[trigger] cs[k]).len() > h && cs[k].take(h)
                == header
            &&& forall|k: int|
                0 <= k < cs.len() ==> weight_sum(#[trigger] cs[k]) <= budget || cs[k].len() <= h
                    + 1
            &&& weight_sum(buf) <= budget || buf.len() <= h + 1
            &&& weight_sum(buf) <= weight_sum(header) + weight_sum(lines)
        }),
    decreases lines.len(),
{
    let (cs, buf) = split_state(lines, budget, header);
    let h = header.len() as int;
    if lines.len() == 0 {
        assert(cs.push(buf).drop_last() =~= cs);
        assert(strip_concat(cs.push(buf), h) =~= lines);
    } else {
        let prev = lines.drop_last();
        let (pcs, pbuf) = split_state(prev, budget, header);
        let l = lines.last();
        lemma_split_state_invariants(prev, budget, header);
        assert(weight_sum(prev) + line_weight(l) == weight_sum(lines));
        if over_budget(pbuf, l, budget) {
            // cs == pcs.push(pbuf), buf == header.push(l)
            lemma_weight_sum_push(header, l);
            assert(header.push(l).take(h) =~= header);
            // strip_concat over the new pair
            let stacked = cs.push(buf);
            assert(stacked.drop_last() =~= cs);
            assert(stacked.last() == buf);
            if cs.len() == 1 {
                // pcs was empty: first chunk is pbuf == prev
                assert(cs[0] == pbuf);
                assert(strip_concat(cs, h) == pbuf);
                assert(buf.skip(h) =~= seq![l]);
                assert(strip_concat(stacked, h) == pbuf + buf.skip(h));
                assert(pbuf + seq![l] =~= lines);
            } else {
                let pstacked = pcs.push(pbuf);
                assert(pstacked.drop_last() =~= pcs);
                assert(strip_concat(pstacked, h) == strip_concat(pcs, h) + pbuf.skip(h));
                assert(cs.drop_last() =~= pcs);
                assert(strip_concat(cs, h) == strip_concat(pcs, h) + pbuf.skip(h));
                assert(buf.skip(h) =~= seq![l]);
                assert(strip_concat(stacked, h) == strip_concat(cs, h) + seq![l]);
                assert(strip_concat(pstacked, h) + seq![l] =~= lines);
            }
            // chunk invariants carry to the newly flushed pbuf
            assert(forall|k: int| 1 <= k < cs.len() - 1 ==> cs[k] == pcs[k]);
            assert(cs[cs.len() - 1] == pbuf);
        } else {
            // cs == pcs, buf == pbuf.push(l)
            lemma_weight_sum_push(pbuf, l);
            if pcs.len() > 0 {
                assert(pbuf.push(l).take(h) =~= pbuf.take(h));
            }
            let stacked = cs.push(buf);
            let pstacked = pcs.push(pbuf);
            if cs.len() == 0 {
                assert(buf =~= lines);
                assert(strip_concat(stacked, h) == buf);
            } else {
                assert(pstacked.drop_last() =~= pcs);
                assert(stacked.drop_last() =~= cs);
                assert(strip_concat(pstacked, h) == strip_concat(pcs, h) + pbuf.skip(h));
                assert(strip_concat(stacked, h) == strip_concat(pcs, h) + buf.skip(h));
                assert(buf.skip(h) =~= pbuf.skip(h) + seq![l]);
                assert(strip_concat(pcs, h) + (pbuf.skip(h) + seq![l]) =~= (strip_concat(pcs, h)
                    + pbuf.skip(h)) + seq![l]);
                assert(strip_concat(pstacked, h) + seq![l] =~= lines);
            }
            if !(weight_sum(buf) <= budget) {
                // the last line was appended within budget
                assert(weight_sum(pbuf) + line_weight(l) <= budget || pbuf.len() == 0);
                assert(pbuf.len() == 0);
                assert(buf.len() == 1);
            }
        }
    }
}

/// Concatenating all chunks in order, after stripping the first
/// `header.len()` lines from every chunk beyond the first, reproduces the
/// source lines in order, exactly once each.  Chunks exist exactly when
/// lines do.
pub proof fn lemma_completeness(lines: Seq<Seq<u8>>, budget: int, header: Seq<Seq<u8>>)
    ensures
        strip_concat(spec_chunks(lines, budget, header), header.len() as int) == lines,
        spec_chunks(lines, budget, header).len() == 0 <==> lines.len() == 0,
{
    let (cs, buf) = split_state(lines, budget, header);
    lemma_split_state_invariants(lines, budget, header);
    if buf.len() == 0 {
        assert(lines.len() == 0);
        assert(cs.len() == 0) by {
            if cs.len() > 0 {
                assert(buf.len() > header.len());
            }
        }
    }
}

/// Every chunk beyond the first begins with exactly the header lines, in
/// order, and holds at least one line more.
pub proof fn lemma_header_repetition(lines: Seq<Seq<u8>>, budget: int, header: Seq<Seq<u8>>)
    ensures
        forall|k: int|
            1 <= k < spec_chunks(lines, budget, header).len() ==> {
                let c = #[trigger] spec_chunks(lines, budget, header)[k];
                c.len() > header.len() && c.take(header.len() as int) == header
            },
{
    lemma_split_state_invariants(lines, budget, header);
}

/// Every chunk stays within the budget, except a chunk that holds a single
/// line beside its header seed: a line wider than the budget by itself is
/// emitted alone rather than split.
pub proof fn lemma_soft_bound(lines: Seq<Seq<u8>>, budget: int, header: Seq<Seq<u8>>)
    ensures
        forall|k: int|
            0 <= k < spec_chunks(lines, budget, header).len() ==> {
                let c = #[trigger] spec_chunks(lines, budget, header)[k];
                weight_sum(c) <= budget || c.len() <= header.len() + 1
            },
{
    lemma_split_state_invariants(lines, budget, header);
}

/// Splitting the same lines against the same budget and header a second
/// time yields an identical chunk sequence: the chunks are a function of
/// those inputs alone.
pub proof fn lemma_rerun_identical(
    a: Seq<Seq<Seq<u8>>>,
    b: Seq<Seq<Seq<u8>>>,
    lines: Seq<Seq<u8>>,
    budget: int,
    header: Seq<Seq<u8>>,
)
    requires
        a == spec_chunks(lines, budget, header),
        b == spec_chunks(lines, budget, header),
    ensures
        a == b,
{
}

/// Streams the source lines into chunks against the calibrated budget.
///
/// Each line is appended to the chunk being accumulated; a line whose
/// weight would overrun the budget flushes the chunk first, and the next
/// chunk begins with the header lines.  The final chunk is flushed when it
/// is not empty, so an empty source yields no chunks.
pub fn split_lines(lines: &Vec<Vec<u8>>, max_chunk_bytes: u64, header: &Vec<Vec<u8>>) -> (r: Vec<
    Vec<Vec<u8>>,
>)
    requires
        weight_sum(lines_of(header@)) + weight_sum(lines_of(lines@)) <= u64::MAX,
    ensures
        chunks_of(r@) == spec_chunks(
            lines_of(lines@),
            max_chunk_bytes as int,
            lines_of(header@),
        ),
{
    let ghost lv = lines_of(lines@);
    let ghost hv = lines_of(header@);
    let ghost budget = max_chunk_bytes as int;
    let header_bytes: u64 = get_slice_bytes(header.as_slice());
    let mut out: Vec<Vec<Vec<u8>>> = Vec::new();
    let mut buffer: Vec<Vec<u8>> = Vec::new();
    let mut chunk_bytes: u64 = 0;
    let mut i: usize = 0;
    while i < lines.len()
        invariant
            i <= lines@.len(),
            lv == lines_of(lines@),
            hv == lines_of(header@),
            budget == max_chunk_bytes as int,
            weight_sum(hv) + weight_sum(lv) <= u64::MAX,
            header_bytes == weight_sum(hv),
            (chunks_of(out@), lines_of(buffer@)) == split_state(lv.take(i as int), budget, hv),
            chunk_bytes == weight_sum(lines_of(buffer@)),
            weight_sum(lines_of(buffer@)) <= weight_sum(hv) + weight_sum(lv.take(i as int)),
        decreases lines@.len() - i,
    {
        let ghost prev_take = lv.take(i as int);
        let ghost bufv = lines_of(buffer@);
        proof {
            lemma_weight_sum_take_succ(lv, i as int);
            lemma_weight_sum_take_le(lv, i + 1);
            assert(lv.take(i + 1).drop_last() =~= prev_take);
            assert(lv.take(i + 1).last() == lv[i as int]);
        }
        let line = clone_line(&lines[i]);
        let w: u64 = line.len() as u64 + 1;
        assert(w == line_weight(lv[i as int]));
        if buffer.len() > 0 && chunk_bytes + w > max_chunk_bytes {
            proof {
                assert(over_budget(bufv, lv[i as int], budget));
            }
            out.push(buffer);
            let mut seeded = clone_lines(header);
            seeded.push(line);
            buffer = seeded;
            chunk_bytes = header_bytes + w;
            proof {
                lemma_weight_sum_push(hv, lv[i as int]);
                assert(lines_of(buffer@) =~= hv.push(lv[i as int]));
                assert(chunks_of(out@) =~= split_state(lv.take(i + 1), budget, hv).0);
            }
        } else {
            proof {
                assert(!over_budget(bufv, lv[i as int], budget));
            }
            buffer.push(line);
            chunk_bytes = chunk_bytes + w;
            proof {
                lemma_weight_sum_push(bufv, lv[i as int]);
                assert(lines_of(buffer@) =~= bufv.push(lv[i as int]));
            }
        }
        i = i + 1;
    }
    proof {
        assert(lv.take(lines@.len() as int) =~= lv);
    }
    if buffer.len() > 0 {
        out.push(buffer);
        proof {
            assert(chunks_of(out@) =~= spec_chunks(lv, budget, hv));
        }
    }
    out
}

/// The calibrated in-memory budget: the requested on-disk ceiling scaled
/// by the ratio of the summed line weights to the true on-disk length,
/// rounded down and saturated at `u64::MAX`.  A zero on-disk length (an
/// empty file) leaves the ceiling unscaled.
pub open spec fn spec_budget(max_file_size_bytes: u64, memory_size: u64, disk_size: u64) -> int {
    if disk_size == 0 {
        max_file_size_bytes as int
    } else {
        sat64((max_file_size_bytes * memory_size) / disk_size as int)
    }
}

/// Calibrates the chunk budget and extracts the header.
///
/// The budget is the requested per-file ceiling scaled by the ratio of the
/// lines' summed in-memory weight to the file's on-disk byte length; the
/// header is the first `num_header_lines` lines (fewer when the file is
/// shorter).
pub fn estimate_chunk_size(
    lines: &Vec<Vec<u8>>,
    file_disk_size: u64,
    max_file_size_bytes: u64,
    num_header_lines: u8,
) -> (r: (u64, Vec<Vec<u8>>))
    ensures
        r.0 as int == spec_budget(
            max_file_size_bytes,
            (sat64(weight_sum(lines_of(lines@)) as int)) as u64,
            file_disk_size,
        ),
        lines_of(r.1@) == lines_of(lines@).take(
            if num_header_lines as int <= lines@.len() {
                num_header_lines as int
            } else {
                lines@.len() as int
            },
        ),
{
    let memory_size: u64 = get_slice_bytes(lines.as_slice());
    let budget: u64 = if file_disk_size == 0 {
        max_file_size_bytes
    } else {
        proof {
            assert((max_file_size_bytes as int) * (memory_size as int) <= u128::MAX) by (nonlinear_arith)
                requires
                    max_file_size_bytes <= u64::MAX,
                    memory_size <= u64::MAX,
            ;
        }
        let p: u128 = (max_file_size_bytes as u128) * (memory_size as u128);
        let q: u128 = p / (file_disk_size as u128);
        if q > u64::MAX as u128 {
            u64::MAX
        } else {
            q as u64
        }
    };
    let n: usize = if (num_header_lines as usize) <= lines.len() {
        num_header_lines as usize
    } else {
        lines.len()
    };
    let mut header: Vec<Vec<u8>> = Vec::new();
    let mut i: usize = 0;
    while i < n
        invariant
            i <= n <= lines@.len(),
            header@.len() == i,
            forall|j: int| 0 <= j < i ==> header@[j]@ == lines@[j]@,
        decreases n - i,
    {
        header.push(clone_line(&lines[i]));
        i = i + 1;
    }
    proof {
        assert(lines_of(header@) =~= lines_of(lines@).take(n as int));
    }
    (budget, header)
}

} // verus!
