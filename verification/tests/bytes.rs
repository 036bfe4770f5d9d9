use dbfs::content::{pad_and_append, read_range};
use dbfs::encoder::{append, child_path, decode_index_key, index_key, Kind};
use dbfs::ops::{data_name, root_name, same_bytes};
use dbfs::text::name_bytes;

#[test]
fn index_key_appends_the_mark() {
    assert_eq!(index_key(b"notes", Kind::File), b"notes-f".to_vec());
    assert_eq!(index_key(b"notes", Kind::Dir), b"notes-d".to_vec());
    assert_eq!(index_key(b"", Kind::File), b"-f".to_vec());
}

#[test]
fn child_path_of_root_children() {
    assert_eq!(child_path(b"root-d", b"a", Kind::Dir), b"root/a-d".to_vec());
    assert_eq!(child_path(b"root-d", b"a", Kind::File), b"root/a-f".to_vec());
}

#[test]
fn child_path_nests_by_name() {
    let a = child_path(b"root-d", b"a", Kind::Dir);
    let b = child_path(&a, b"b", Kind::Dir);
    assert_eq!(b, b"root/a/b-d".to_vec());
    assert_eq!(child_path(&b, b"f", Kind::File), b"root/a/b/f-f".to_vec());
}

#[test]
fn child_path_of_a_short_parent_keeps_nothing_of_it() {
    assert_eq!(child_path(b"x", b"a", Kind::File), b"/a-f".to_vec());
    assert_eq!(child_path(b"", b"a", Kind::Dir), b"/a-d".to_vec());
    assert_eq!(child_path(b"-d", b"a", Kind::Dir), b"/a-d".to_vec());
}

#[test]
fn two_kinds_never_share_a_path() {
    assert_ne!(child_path(b"root-d", b"a", Kind::Dir), child_path(b"root-d", b"a", Kind::File));
    assert_ne!(index_key(b"a", Kind::Dir), index_key(b"a", Kind::File));
    assert_ne!(index_key(b"a-d", Kind::File), index_key(b"a", Kind::Dir));
}

#[test]
fn decode_reads_back_what_index_key_wrote() {
    assert_eq!(decode_index_key(&index_key(b"file7", Kind::File)), Some((b"file7".to_vec(), Kind::File)));
    assert_eq!(decode_index_key(&index_key(b"sub", Kind::Dir)), Some((b"sub".to_vec(), Kind::Dir)));
    assert_eq!(decode_index_key(&index_key(b"", Kind::Dir)), Some((Vec::new(), Kind::Dir)));
    assert_eq!(decode_index_key(b"a-d-f"), Some((b"a-d".to_vec(), Kind::File)));
}

#[test]
fn decode_refuses_keys_without_a_mark() {
    assert_eq!(decode_index_key(b""), None);
    assert_eq!(decode_index_key(b"f"), None);
    assert_eq!(decode_index_key(b"data"), None);
    assert_eq!(decode_index_key(b"a-x"), None);
    assert_eq!(decode_index_key(b"a_f"), None);
}

#[test]
fn append_adds_at_the_end() {
    let mut v = b"ab".to_vec();
    append(&mut v, b"cd");
    assert_eq!(v, b"abcd".to_vec());
    append(&mut v, b"");
    assert_eq!(v, b"abcd".to_vec());
}

#[test]
fn fixed_names() {
    assert_eq!(data_name(), b"data".to_vec());
    assert_eq!(root_name(), b"root-d".to_vec());
}

#[test]
fn same_bytes_compares_contents() {
    assert!(same_bytes(b"", b""));
    assert!(same_bytes(b"abc", b"abc"));
    assert!(!same_bytes(b"abc", b"abd"));
    assert!(!same_bytes(b"abc", b"ab"));
    assert!(!same_bytes(b"", b"a"));
}

#[test]
fn name_bytes_are_utf8() {
    assert_eq!(name_bytes("file1"), b"file1".to_vec());
    assert_eq!(name_bytes("é"), vec![0xc3u8, 0xa9u8]);
    assert_eq!(name_bytes(""), Vec::<u8>::new());
}

#[test]
fn read_inside_the_content() {
    let data = b"hello world";
    assert_eq!(read_range(data, 0, 5), b"hello".to_vec());
    assert_eq!(read_range(data, 6, 5), b"world".to_vec());
    assert_eq!(read_range(data, 3, 0), Vec::<u8>::new());
}

#[test]
fn read_is_clamped_to_the_end() {
    let data = b"hello world";
    assert_eq!(read_range(data, 0, 20), b"hello world".to_vec());
    assert_eq!(read_range(data, 6, 100), b"world".to_vec());
    assert_eq!(read_range(data, 10, u32::MAX), b"d".to_vec());
    assert_eq!(read_range(data, 0, u32::MAX).len(), 11);
}

#[test]
fn read_at_or_behind_the_end_is_empty() {
    let data = b"hello world";
    assert_eq!(read_range(data, 11, 4), Vec::<u8>::new());
    assert_eq!(read_range(data, 12, 4), Vec::<u8>::new());
    assert_eq!(read_range(data, u32::MAX, u32::MAX), Vec::<u8>::new());
    assert_eq!(read_range(b"", 0, 8), Vec::<u8>::new());
}

#[test]
fn write_into_empty_content() {
    assert_eq!(pad_and_append(Vec::new(), 0, b"hello world"), b"hello world".to_vec());
}

#[test]
fn write_behind_the_end_pads_with_zeros() {
    let out = pad_and_append(b"hello world".to_vec(), 20, b"hello world");
    assert_eq!(out.len(), 31);
    assert_eq!(&out[0..11], b"hello world");
    assert_eq!(&out[11..20], &[0u8; 9]);
    assert_eq!(&out[20..31], b"hello world");
}

#[test]
fn write_before_the_end_appends_and_overwrites_nothing() {
    assert_eq!(pad_and_append(b"abcdef".to_vec(), 2, b"XY"), b"abcdefXY".to_vec());
    assert_eq!(pad_and_append(b"abcdef".to_vec(), 6, b"XY"), b"abcdefXY".to_vec());
    assert_eq!(pad_and_append(b"abc".to_vec(), 5, b""), vec![97u8, 98, 99, 0, 0]);
}
