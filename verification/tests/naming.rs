use linesplit::paths::{compose_file_path, get_file_name_and_extension};

fn b(s: &str) -> Vec<u8> {
    s.as_bytes().to_vec()
}

#[test]
fn compose_basic() {
    let r = compose_file_path(&b("out"), &b("test.csv"), 1);
    assert_eq!(r, b("out/test_000000001.csv"));
}

#[test]
fn compose_strips_leading_directories_of_source() {
    let r = compose_file_path(&b("results"), &b("/data/in/archive.tar.gz"), 12);
    assert_eq!(r, b("results/archive.tar_000000012.gz"));
}

#[test]
fn compose_without_extension() {
    let r = compose_file_path(&b("out"), &b("data"), 42);
    assert_eq!(r, b("out/data_000000042"));
}

#[test]
fn compose_without_stem_or_extension() {
    let r = compose_file_path(&b("out"), &b(""), 7);
    assert_eq!(r, b("out/000000007"));
}

#[test]
fn compose_directory_with_trailing_slash() {
    let r = compose_file_path(&b("out/"), &b("test.csv"), 0);
    assert_eq!(r, b("out/test_000000000.csv"));
}

#[test]
fn compose_empty_directory() {
    let r = compose_file_path(&b(""), &b("test.csv"), 123);
    assert_eq!(r, b("test_000000123.csv"));
}

#[test]
fn compose_dot_file_has_no_extension() {
    let r = compose_file_path(&b("out"), &b(".hidden"), 1);
    assert_eq!(r, b("out/.hidden_000000001"));
}

#[test]
fn compose_index_wider_than_nine_digits() {
    let r = compose_file_path(&b("out"), &b("test.csv"), 1_000_000_000);
    assert_eq!(r, b("out/test_1000000000.csv"));
}

#[test]
fn stem_and_extension_split_at_last_dot() {
    let (stem, ext) = get_file_name_and_extension(&b("/a/b/archive.tar.gz"));
    assert_eq!(stem, Some(b("archive.tar")));
    assert_eq!(ext, Some(b("gz")));
}

#[test]
fn stem_without_dot_has_no_extension() {
    let (stem, ext) = get_file_name_and_extension(&b("notes"));
    assert_eq!(stem, Some(b("notes")));
    assert_eq!(ext, None);
}

#[test]
fn trailing_dot_gives_empty_extension() {
    let (stem, ext) = get_file_name_and_extension(&b("foo."));
    assert_eq!(stem, Some(b("foo")));
    assert_eq!(ext, Some(b("")));
}

#[test]
fn path_ending_in_slash_has_neither() {
    let (stem, ext) = get_file_name_and_extension(&b("a/b/"));
    assert_eq!(stem, None);
    assert_eq!(ext, None);
}
