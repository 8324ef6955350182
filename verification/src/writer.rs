//! Overflow correction and remainder propagation.
//!
//! A chunk is written to disk by the caller, who measures the file's true
//! byte size and feeds it back here.  While the measured size exceeds the
//! true maximum, the candidate is cut to a fixed fraction of its lines
//! (the leeway factor, eight tenths) and rewritten; the cut-off tail,
//! prefixed by the header, is carried as a remainder.  A remainder too
//! large for the memory budget, or one left at the end of the stream, is
//! written as the next file by the same rules; otherwise it is handed back
//! so the next chunk begins with it.  When nothing had to be carried, the
//! header alone is handed back for the next chunk mid-stream.
//!
//! The caller drives the loop: it performs each requested write, measures,
//! and calls `write_buffer_to_file` again with the new size.

use vstd::prelude::*;
use crate::measure::{
    lines_of, weight_sum, sat64, clone_line, clone_lines, get_slice_bytes,
};

verus! {

/// One cut of the leeway factor: eight tenths of the length, rounded down.
pub open spec fn spec_shrink(len: int) -> int {
    (len * 8) / 10
}

/// The state of one chunk write under correction.
///
/// The caller writes `buffer[..first_len]` to the file named by
/// `file_index`, measures the file's on-disk size, and hands both back to
/// `write_buffer_to_file`.
pub struct ChunkWrite {
    /// The lines of the chunk being written.
    pub buffer: Vec<Vec<u8>>,
    /// How many leading lines of `buffer` the file currently holds.
    pub first_len: usize,
    /// Lines cut off by a correction, prefixed by the header, owed to a
    /// later file or to the next chunk.
    pub remainder: Option<Vec<Vec<u8>>>,
    /// The summed weight of `remainder`, saturated at `u64::MAX`.
    pub remainder_bytes: u64,
    /// The ordinal of the file being written.
    pub file_index: u32,
    /// The true on-disk byte ceiling per output file.
    pub max_size: u64,
    /// The calibrated in-memory byte budget per chunk.
    pub max_chunk_memory_bytes: u64,
    /// The header lines repeated at the top of every chunk after the first.
    pub header: Vec<Vec<u8>>,
    /// Whether the source stream is exhausted: a remainder is then written
    /// out rather than handed back.
    pub is_end_of_file: bool,
}

impl ChunkWrite {
    /// The prefix on disk never outruns the buffer, and the recorded
    /// remainder weight is the weight of the recorded remainder.
    pub open spec fn wf(self) -> bool {
        &&& self.first_len <= self.buffer@.len()
        &&& match self.remainder {
            Option::Some(r) => self.remainder_bytes as int == sat64(
                weight_sum(lines_of(r@)) as int,
            ),
            Option::None => self.remainder_bytes == 0,
        }
    }
}

/// What the caller must do next with a chunk write.
pub enum WriteStep {
    /// The file exceeded the true maximum: rewrite `buffer[..first_len]`
    /// to the same file, measure it, and call again.
    Rewrite(ChunkWrite),
    /// The file fits, and a remainder is owed its own file: write the new
    /// state's `buffer` to the file named by its `file_index`, measure it,
    /// and call again.
    NextFile(ChunkWrite),
    /// The file fits and no further file is owed here: `remainder`, if
    /// any, seeds the next chunk, and `file_index` names the next file.
    Done { remainder: Option<Vec<Vec<u8>>>, file_index: u32 },
}

/// Begins writing one chunk: the caller writes all of `buffer` to the file
/// named by `file_index`, measures it, and hands the state and the size to
/// `write_buffer_to_file`.
pub fn begin_chunk_write(
    buffer: Vec<Vec<u8>>,
    file_index: u32,
    max_size: u64,
    max_chunk_memory_bytes: u64,
    header: Vec<Vec<u8>>,
    is_end_of_file: bool,
) -> (st: ChunkWrite)
    ensures
        st.buffer == buffer,
        st.first_len == buffer@.len(),
        st.remainder is None,
        st.remainder_bytes == 0,
        st.file_index == file_index,
        st.max_size == max_size,
        st.max_chunk_memory_bytes == max_chunk_memory_bytes,
        st.header == header,
        st.is_end_of_file == is_end_of_file,
        st.wf(),
{
    let first_len = buffer.len();
    ChunkWrite {
        buffer,
        first_len,
        remainder: None,
        remainder_bytes: 0,
        file_index,
        max_size,
        max_chunk_memory_bytes,
        header,
        is_end_of_file,
    }
}

/// Decides one step of a chunk write from the measured on-disk size.
///
/// A file over the true maximum is cut to eight tenths of its current
/// line count and rewritten, the tail carried as a header-prefixed
/// remainder.  A file that fits advances the ordinal; a remainder beyond
/// the memory budget, or any remainder at end of stream, becomes the next
/// file, while mid-stream the remainder (or, when none, the header) is
/// handed back to seed the next chunk.
pub fn write_buffer_to_file(st: ChunkWrite, measured_size: u64) -> (step: WriteStep)
    requires
        st.wf(),
        st.file_index < u32::MAX,
    ensures
        match step {
            WriteStep::Rewrite(n) => {
                let sp = spec_shrink(st.first_len as int);
                &&& measured_size > st.max_size
                &&& n.wf()
                &&& n.buffer == st.buffer
                &&& n.first_len == sp
                &&& n.header == st.header
                &&& n.file_index == st.file_index
                &&& n.max_size == st.max_size
                &&& n.max_chunk_memory_bytes == st.max_chunk_memory_bytes
                &&& n.is_end_of_file == st.is_end_of_file
                &&& st.buffer@.len() > sp ==> (n.remainder matches Some(r) && lines_of(r@)
                    == lines_of(st.header@) + lines_of(st.buffer@).skip(sp))
                &&& st.buffer@.len() <= sp ==> n.remainder == st.remainder
                    && n.remainder_bytes == st.remainder_bytes
            },
            WriteStep::NextFile(n) => {
                &&& measured_size <= st.max_size
                &&& st.remainder_bytes > st.max_chunk_memory_bytes || st.is_end_of_file
                &&& st.remainder matches Some(r) && n.buffer == r
                &&& n.first_len == n.buffer@.len()
                &&& n.remainder is None
                &&& n.remainder_bytes == 0
                &&& n.file_index == st.file_index + 1
                &&& n.header == st.header
                &&& n.max_size == st.max_size
                &&& n.max_chunk_memory_bytes == st.max_chunk_memory_bytes
                &&& n.is_end_of_file == st.is_end_of_file
                &&& n.wf()
            },
            WriteStep::Done { remainder, file_index } => {
                &&& measured_size <= st.max_size
                &&& file_index == st.file_index + 1
                &&& !((st.remainder_bytes > st.max_chunk_memory_bytes || st.is_end_of_file)
                    && st.remainder is Some)
                &&& if st.remainder is None && !st.is_end_of_file && st.header@.len() > 0 {
                    remainder matches Some(r) && lines_of(r@) == lines_of(st.header@)
                } else {
                    remainder == st.remainder
                }
            },
        },
{
    if measured_size > st.max_size {
        let sp128: u128 = (st.first_len as u128) * 8 / 10;
        proof {
            assert((st.first_len as int) * 8 / 10 <= st.first_len as int) by (nonlinear_arith)
                requires
                    st.first_len >= 0,
            ;
        }
        let sp: usize = sp128 as usize;
        if st.buffer.len() > sp {
            let mut rem = clone_lines(&st.header);
            let mut j: usize = sp;
            while j < st.buffer.len()
                invariant
                    sp <= j <= st.buffer@.len(),
                    rem@.len() == st.header@.len() + (j - sp),
                    lines_of(rem@) == lines_of(st.header@) + lines_of(st.buffer@).subrange(
                        sp as int,
                        j as int,
                    ),
                decreases st.buffer@.len() - j,
            {
                let ghost prev = rem@;
                rem.push(clone_line(&st.buffer[j]));
                proof {
                    assert(rem@ == prev.push(rem@.last()));
                    assert(lines_of(rem@) =~= lines_of(prev).push(rem@.last()@));
                    assert(lines_of(rem@) =~= lines_of(st.header@) + lines_of(
                        st.buffer@,
                    ).subrange(sp as int, j + 1));
                }
                j = j + 1;
            }
            proof {
                assert(lines_of(st.buffer@).subrange(sp as int, st.buffer@.len() as int)
                    =~= lines_of(st.buffer@).skip(sp as int));
            }
            let remainder_bytes = get_slice_bytes(rem.as_slice());
            WriteStep::Rewrite(
                ChunkWrite {
                    first_len: sp,
                    remainder: Some(rem),
                    remainder_bytes,
                    ..st
                },
            )
        } else {
            WriteStep::Rewrite(ChunkWrite { first_len: sp, ..st })
        }
    } else {
        let next_index = st.file_index + 1;
        let recurse = st.remainder_bytes > st.max_chunk_memory_bytes || st.is_end_of_file;
        match st.remainder {
            Some(r) => {
                if recurse {
                    let len = r.len();
                    WriteStep::NextFile(
                        ChunkWrite {
                            buffer: r,
                            first_len: len,
                            remainder: None,
                            remainder_bytes: 0,
                            file_index: next_index,
                            max_size: st.max_size,
                            max_chunk_memory_bytes: st.max_chunk_memory_bytes,
                            header: st.header,
                            is_end_of_file: st.is_end_of_file,
                        },
                    )
                } else {
                    WriteStep::Done { remainder: Some(r), file_index: next_index }
                }
            },
            None => {
                if !st.is_end_of_file && st.header.len() > 0 {
                    WriteStep::Done {
                        remainder: Some(clone_lines(&st.header)),
                        file_index: next_index,
                    }
                } else {
                    WriteStep::Done { remainder: None, file_index: next_index }
                }
            },
        }
    }
}

/// A correction never loses or duplicates a line: the prefix kept in the
/// file and the carried remainder minus its header seed together are
/// exactly the chunk that was cut.
pub proof fn lemma_correction_no_loss(buffer: Seq<Seq<u8>>, header: Seq<Seq<u8>>, sp: int)
    requires
        0 <= sp <= buffer.len(),
    ensures
        buffer.take(sp) + (header + buffer.skip(sp)).skip(header.len() as int) == buffer,
{
    assert((header + buffer.skip(sp)).skip(header.len() as int) =~= buffer.skip(sp));
    assert(buffer.take(sp) + buffer.skip(sp) =~= buffer);
}

/// Seeds the next chunk with a remainder handed back by a finished write:
/// the remainder already begins with the header, so it replaces the
/// header seed the chunk was built with.  Without a remainder the chunk
/// stands as built.
pub fn merge_remainder(
    remainder: Option<Vec<Vec<u8>>>,
    chunk: Vec<Vec<u8>>,
    header_len: usize,
) -> (r: Vec<Vec<u8>>)
    requires
        remainder is Some ==> header_len <= chunk@.len(),
    ensures
        match remainder {
            Option::Some(rr) => lines_of(r@) == lines_of(rr@) + lines_of(chunk@).skip(
                header_len as int,
            ),
            Option::None => lines_of(r@) == lines_of(chunk@),
        },
{
    match remainder {
        Some(rr) => {
            let mut r = rr;
            let ghost rv = lines_of(r@);
            let mut j: usize = header_len;
            while j < chunk.len()
                invariant
                    header_len <= j <= chunk@.len(),
                    lines_of(r@) == rv + lines_of(chunk@).subrange(header_len as int, j as int),
                decreases chunk@.len() - j,
            {
                let ghost prev = r@;
                r.push(clone_line(&chunk[j]));
                proof {
                    assert(r@ == prev.push(r@.last()));
                    assert(lines_of(r@) =~= lines_of(prev).push(r@.last()@));
                    assert(lines_of(r@) =~= rv + lines_of(chunk@).subrange(
                        header_len as int,
                        j + 1,
                    ));
                }
                j = j + 1;
            }
            proof {
                assert(lines_of(chunk@).subrange(header_len as int, chunk@.len() as int)
                    =~= lines_of(chunk@).skip(header_len as int));
            }
            r
        },
        None => {
            let r = chunk;
            r
        },
    }
}

} // verus!
