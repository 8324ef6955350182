use linesplit::chunker::{estimate_chunk_size, split_lines};
use linesplit::measure::get_slice_bytes;

fn line(s: &str) -> Vec<u8> {
    s.as_bytes().to_vec()
}

fn lines(ss: &[&str]) -> Vec<Vec<u8>> {
    ss.iter().map(|s| line(s)).collect()
}

#[test]
fn scenario_header_and_ten_data_lines() {
    // 1 header line + 10 data lines, each "X" + newline = 2 bytes on disk;
    // the file is 22 bytes on disk and 22 by the in-memory estimate, so a
    // requested maximum of 10 calibrates to a budget of 10.
    let src = lines(&["X"; 11]);
    let (budget, header) = estimate_chunk_size(&src, 22, 10, 1);
    assert_eq!(budget, 10);
    assert_eq!(header, lines(&["X"]));

    let chunks = split_lines(&src, budget, &header);
    assert_eq!(chunks.len(), 3);
    // header + 4 data lines, header + 4 data lines, header + 2 data lines
    assert_eq!(chunks[0].len(), 5);
    assert_eq!(chunks[1].len(), 5);
    assert_eq!(chunks[2].len(), 3);
    assert_eq!(get_slice_bytes(&chunks[0]), 10);
    assert_eq!(get_slice_bytes(&chunks[1]), 10);
    assert_eq!(get_slice_bytes(&chunks[2]), 6);
    // 10 data lines in all, the header once per chunk
    let data: usize = chunks.iter().map(|c| c.len()).sum::<usize>() - chunks.len();
    assert_eq!(data, 10);
}

#[test]
fn empty_source_is_a_no_op() {
    let src: Vec<Vec<u8>> = Vec::new();
    // an empty file has on-disk size 0: the ratio degenerates and the
    // requested maximum is kept unscaled
    let (budget, header) = estimate_chunk_size(&src, 0, 1000, 2);
    assert_eq!(budget, 1000);
    assert!(header.is_empty());
    let chunks = split_lines(&src, budget, &header);
    assert!(chunks.is_empty());
}

#[test]
fn completeness_strips_repeated_header() {
    // header h1,h2 then data a..e; budget 12 forces several chunks
    let src = lines(&["h1", "h2", "aaa", "bbb", "ccc", "ddd", "eee"]);
    let header = lines(&["h1", "h2"]);
    let chunks = split_lines(&src, 12, &header);
    assert!(chunks.len() > 1);
    let mut joined: Vec<Vec<u8>> = Vec::new();
    for (k, c) in chunks.iter().enumerate() {
        let skip = if k == 0 { 0 } else { header.len() };
        for l in &c[skip..] {
            joined.push(l.clone());
        }
    }
    assert_eq!(joined, src);
}

#[test]
fn header_repeated_at_top_of_later_chunks() {
    let src = lines(&["h1", "h2", "aaa", "bbb", "ccc", "ddd", "eee"]);
    let header = lines(&["h1", "h2"]);
    let chunks = split_lines(&src, 12, &header);
    assert!(chunks.len() > 1);
    for c in &chunks[1..] {
        assert!(c.len() > header.len());
        assert_eq!(&c[..2], &header[..]);
    }
    // the first chunk holds the header once, as the file's leading lines
    assert_eq!(chunks[0], lines(&["h1", "h2", "aaa"]));
}

#[test]
fn rerun_gives_identical_chunks() {
    let src = lines(&["h", "one", "two", "three", "four", "five"]);
    let header = lines(&["h"]);
    let first = split_lines(&src, 11, &header);
    let second = split_lines(&src, 11, &header);
    assert_eq!(first, second);
}

#[test]
fn oversized_line_gets_its_own_chunk() {
    // a line wider than the whole budget is emitted alone rather than
    // splitting forever
    let src = lines(&["aa", "xxxxxxxxx", "bb"]);
    let header: Vec<Vec<u8>> = Vec::new();
    let chunks = split_lines(&src, 4, &header);
    assert_eq!(chunks.len(), 3);
    assert_eq!(chunks[0], lines(&["aa"]));
    assert_eq!(chunks[1], lines(&["xxxxxxxxx"]));
    assert_eq!(chunks[2], lines(&["bb"]));
}

#[test]
fn budget_scales_by_memory_over_disk_ratio() {
    // five lines of nine bytes weigh 50 in memory; against an on-disk
    // size of 100 a requested maximum of 1000 calibrates to 500
    let src = lines(&["123456789"; 5]);
    let (budget, header) = estimate_chunk_size(&src, 100, 1000, 0);
    assert_eq!(budget, 500);
    assert!(header.is_empty());
}

#[test]
fn header_shorter_than_requested() {
    let src = lines(&["a", "b"]);
    let (_, header) = estimate_chunk_size(&src, 4, 100, 5);
    assert_eq!(header, src);
}

#[test]
fn slice_bytes_counts_length_plus_newline() {
    let v = lines(&["ab", "", "xyz"]);
    assert_eq!(get_slice_bytes(&v), 3 + 1 + 4);
    let empty: Vec<Vec<u8>> = Vec::new();
    assert_eq!(get_slice_bytes(&empty), 0);
}
