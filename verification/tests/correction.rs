use linesplit::writer::{begin_chunk_write, merge_remainder, write_buffer_to_file, WriteStep};

fn line(s: &str) -> Vec<u8> {
    s.as_bytes().to_vec()
}

fn lines(ss: &[&str]) -> Vec<Vec<u8>> {
    ss.iter().map(|s| line(s)).collect()
}

#[test]
fn fitting_chunk_mid_stream_hands_back_the_header() {
    let header = lines(&["h"]);
    let buffer = lines(&["h", "a", "b"]);
    let st = begin_chunk_write(buffer, 0, 100, 100, header.clone(), false);
    match write_buffer_to_file(st, 6) {
        WriteStep::Done { remainder, file_index } => {
            assert_eq!(remainder, Some(header));
            assert_eq!(file_index, 1);
        },
        _ => panic!("a fitting chunk needs no further write"),
    }
}

#[test]
fn fitting_chunk_at_end_of_stream_leaves_nothing() {
    let header = lines(&["h"]);
    let buffer = lines(&["h", "a", "b"]);
    let st = begin_chunk_write(buffer, 3, 100, 100, header, true);
    match write_buffer_to_file(st, 6) {
        WriteStep::Done { remainder, file_index } => {
            assert_eq!(remainder, None);
            assert_eq!(file_index, 4);
        },
        _ => panic!("a fitting chunk needs no further write"),
    }
}

#[test]
fn fitting_chunk_without_header_hands_back_nothing() {
    let buffer = lines(&["a", "b"]);
    let st = begin_chunk_write(buffer, 0, 100, 100, Vec::new(), false);
    match write_buffer_to_file(st, 4) {
        WriteStep::Done { remainder, .. } => assert_eq!(remainder, None),
        _ => panic!("a fitting chunk needs no further write"),
    }
}

#[test]
fn forced_overflow_loses_no_line() {
    // simulate a disk size far above the memory estimate: the chunk of
    // ten lines is cut to eight, and the header plus the last two lines
    // carry over into the next file
    let header = lines(&["h"]);
    let buffer = lines(&["h", "d1", "d2", "d3", "d4", "d5", "d6", "d7", "d8", "d9"]);
    let st = begin_chunk_write(buffer.clone(), 0, 10, 1000, header.clone(), true);

    let st = match write_buffer_to_file(st, 50) {
        WriteStep::Rewrite(n) => n,
        _ => panic!("an oversized file must be rewritten"),
    };
    assert_eq!(st.first_len, 8);
    assert_eq!(st.remainder, Some(lines(&["h", "d8", "d9"])));
    assert_eq!(st.file_index, 0);
    let kept = st.buffer[..st.first_len].to_vec();

    // the rewritten prefix now fits; at end of stream the remainder is
    // written as the next file
    let st = match write_buffer_to_file(st, 10) {
        WriteStep::NextFile(n) => n,
        _ => panic!("the remainder is owed its own file at end of stream"),
    };
    assert_eq!(st.file_index, 1);
    assert_eq!(st.buffer, lines(&["h", "d8", "d9"]));
    let tail = st.buffer.clone();

    match write_buffer_to_file(st, 6) {
        WriteStep::Done { remainder, file_index } => {
            assert_eq!(remainder, None);
            assert_eq!(file_index, 2);
        },
        _ => panic!("the remainder file fits"),
    }

    // no line lost or duplicated: the kept prefix plus the tail minus its
    // header seed is the original chunk
    let mut joined = kept;
    joined.extend_from_slice(&tail[header.len()..]);
    assert_eq!(joined, buffer);
}

#[test]
fn small_remainder_mid_stream_is_handed_back() {
    // the corrective remainder stays within the memory budget, so it
    // seeds the next chunk instead of becoming a file of its own
    let header = lines(&["h"]);
    let buffer = lines(&["h", "a", "b", "c", "d"]);
    let st = begin_chunk_write(buffer, 0, 8, 1000, header, false);
    let st = match write_buffer_to_file(st, 20) {
        WriteStep::Rewrite(n) => n,
        _ => panic!("an oversized file must be rewritten"),
    };
    assert_eq!(st.first_len, 4);
    match write_buffer_to_file(st, 8) {
        WriteStep::Done { remainder, file_index } => {
            assert_eq!(remainder, Some(lines(&["h", "d"])));
            assert_eq!(file_index, 1);
        },
        _ => panic!("a small remainder is handed back mid-stream"),
    }
}

#[test]
fn large_remainder_mid_stream_becomes_the_next_file() {
    let header = lines(&["h"]);
    let buffer = lines(&["h", "a", "b", "c", "d"]);
    // a memory budget of 2 is smaller than any header-seeded remainder
    let st = begin_chunk_write(buffer, 0, 8, 2, header, false);
    let st = match write_buffer_to_file(st, 20) {
        WriteStep::Rewrite(n) => n,
        _ => panic!("an oversized file must be rewritten"),
    };
    match write_buffer_to_file(st, 8) {
        WriteStep::NextFile(n) => {
            assert_eq!(n.buffer, lines(&["h", "d"]));
            assert_eq!(n.file_index, 1);
            assert_eq!(n.remainder, None);
        },
        _ => panic!("a remainder over the memory budget is owed its own file"),
    }
}

#[test]
fn repeated_correction_keeps_shrinking() {
    let header: Vec<Vec<u8>> = Vec::new();
    let buffer = lines(&["a"; 100]);
    let st = begin_chunk_write(buffer, 0, 10, 1000, header, true);
    let st = match write_buffer_to_file(st, 200) {
        WriteStep::Rewrite(n) => n,
        _ => panic!("an oversized file must be rewritten"),
    };
    assert_eq!(st.first_len, 80);
    let st = match write_buffer_to_file(st, 160) {
        WriteStep::Rewrite(n) => n,
        _ => panic!("a still-oversized file is cut again"),
    };
    assert_eq!(st.first_len, 64);
    assert_eq!(st.remainder, Some(lines(&["a"; 36])));
}

#[test]
fn merge_without_remainder_keeps_the_chunk() {
    let chunk = lines(&["h", "a", "b"]);
    let r = merge_remainder(None, chunk.clone(), 1);
    assert_eq!(r, chunk);
}

#[test]
fn merge_replaces_the_header_seed() {
    let chunk = lines(&["h", "a", "b"]);
    let carried = lines(&["h", "x", "y"]);
    let r = merge_remainder(Some(carried), chunk, 1);
    assert_eq!(r, lines(&["h", "x", "y", "a", "b"]));
}
