use libfct4::error::FctError;
use libfct4::fct_archive::{FctArchive, SourceFile};
use libfct4::file_parser::FileParser;

fn new_archive(chunk_size: u16) -> FctArchive {
    FctArchive::create_new(chunk_size).expect("create_new failed")
}

fn add(archive: &mut FctArchive, name: &str, content: &[u8]) {
    let path = format!("/base/{}", name);
    archive
        .add_file(&path, "/base", &content.to_vec(), false)
        .expect("add_file failed");
}

#[test]
fn end_to_end_chunk4() {
    // chunk_size 4, a 10-byte file: 2 full chunks, a 2-byte partial chunk,
    // 3 on-disk blocks of 4 bytes each.
    let mut a = new_archive(4);
    let content = b"ABCDEFGHIJ";
    add(&mut a, "f.txt", content);
    assert_eq!(a.headers.len(), 1);
    assert_eq!(a.headers[0].chunk_count, 2);
    assert_eq!(a.headers[0].last_chunk_size, 2);
    // archive header (5) + entry header (8 + 5) + 3 blocks of 4
    assert_eq!(a.data.len(), 5 + 8 + 5 + 12);
    // the padded final block holds "IJ\0\0"
    assert_eq!(&a.data[a.data.len() - 4..], b"IJ\0\0");
    let listing = a.list_files();
    assert_eq!(listing.len(), 1);
    assert_eq!(listing[0].0, b"f.txt".to_vec());
    assert_eq!(listing[0].1, 10);
    let (path, extracted) = a.extract_file(0).expect("extract failed");
    assert_eq!(path, b"f.txt".to_vec());
    assert_eq!(extracted, content.to_vec());
}

#[test]
fn round_trip_many_sizes() {
    for &cs in &[1u16, 3, 4, 7, 256] {
        for len in [0usize, 1, 3, 4, 8, 10, 255, 256, 1000] {
            let content: Vec<u8> = (0..len).map(|i| (i % 251) as u8).collect();
            let mut a = new_archive(cs);
            let path = "/r/data.bin".to_string();
            a.add_file(&path, "/r", &content, false).expect("add failed");
            let (_, out) = a.extract_file(0).expect("extract failed");
            assert_eq!(out, content, "round trip failed for cs={} len={}", cs, len);
        }
    }
}

#[test]
fn header_round_trip() {
    let parser = FileParser {
        file_path: b"dir/sub/name.txt".to_vec(),
        chunk_count: 0x01020304,
        last_chunk_size: 0x0506,
    };
    let bytes = parser.generate_header().expect("encode failed");
    assert_eq!(bytes.len(), 8 + 16);
    assert_eq!(parser.get_header_size(), bytes.len());
    let (decoded, next) = FileParser::from_archive(&bytes, 0).expect("decode failed");
    assert_eq!(decoded, parser);
    assert_eq!(next, bytes.len());
}

#[test]
fn header_fields_little_endian() {
    let parser = FileParser {
        file_path: b"ab".to_vec(),
        chunk_count: 258,
        last_chunk_size: 3,
    };
    let bytes = parser.generate_header().expect("encode failed");
    assert_eq!(bytes, vec![2, 1, 0, 0, 3, 0, 2, 0, b'a', b'b']);
}

#[test]
fn list_reports_append_order() {
    let mut a = new_archive(8);
    add(&mut a, "first.bin", b"11111");
    add(&mut a, "second.bin", b"2222222222");
    add(&mut a, "third.bin", b"3");
    let listing = a.list_files();
    assert_eq!(listing.len(), 3);
    assert_eq!(listing[0].0, b"first.bin".to_vec());
    assert_eq!(listing[1].0, b"second.bin".to_vec());
    assert_eq!(listing[2].0, b"third.bin".to_vec());
    assert_eq!(listing[0].1, 5);
    assert_eq!(listing[1].1, 10);
    assert_eq!(listing[2].1, 1);
}

#[test]
fn relative_path_is_recorded() {
    // The archived path is the source path taken relative to the root
    // directory, not the source path itself.
    let mut a = new_archive(4);
    a.add_file("/base/sub/f.bin", "/base", &b"xyz".to_vec(), false)
        .expect("add failed");
    let listing = a.list_files();
    assert_eq!(listing[0].0, b"sub/f.bin".to_vec());
}

#[test]
fn extract_twice_yields_same_bytes() {
    let mut a = new_archive(4);
    add(&mut a, "f", b"ABCDEFGHIJ");
    let first = a.extract_file(0).expect("first extract failed");
    let second = a.extract_file(0).expect("second extract failed");
    assert_eq!(first, second);
}

#[test]
fn remove_middle_entry() {
    let mut a = new_archive(4);
    add(&mut a, "A", b"aaaa-aaaa");
    add(&mut a, "B", b"bbbb");
    add(&mut a, "C", b"c");
    a.remove_files(&vec![1]).expect("remove failed");
    let listing = a.list_files();
    assert_eq!(listing.len(), 2);
    assert_eq!(listing[0].0, b"A".to_vec());
    assert_eq!(listing[1].0, b"C".to_vec());
    let (_, c0) = a.extract_file(0).expect("extract A failed");
    let (_, c1) = a.extract_file(1).expect("extract C failed");
    assert_eq!(c0, b"aaaa-aaaa".to_vec());
    assert_eq!(c1, b"c".to_vec());
    assert!(a.extract_file(2).is_err());
}

#[test]
fn remove_ignores_out_of_range_index() {
    let mut a = new_archive(4);
    add(&mut a, "A", b"aa");
    a.remove_files(&vec![7]).expect("remove failed");
    assert_eq!(a.list_files().len(), 1);
}

#[test]
fn zero_length_file() {
    let mut a = new_archive(16);
    let before = a.data.len();
    add(&mut a, "empty", b"");
    // only the entry header is written: no payload blocks at all
    assert_eq!(a.data.len(), before + 8 + 5);
    assert_eq!(a.headers[0].chunk_count, 0);
    assert_eq!(a.headers[0].last_chunk_size, 0);
    let listing = a.list_files();
    assert_eq!(listing[0].1, 0);
    let (_, out) = a.extract_file(0).expect("extract failed");
    assert_eq!(out, Vec::<u8>::new());
}

#[test]
fn exact_multiple_has_no_padded_block() {
    let mut a = new_archive(4);
    let before = a.data.len();
    add(&mut a, "x", b"ABCDEFGH");
    assert_eq!(a.headers[0].chunk_count, 2);
    assert_eq!(a.headers[0].last_chunk_size, 0);
    assert_eq!(a.data.len(), before + 8 + 1 + 8);
}

#[test]
fn open_round_trip() {
    let mut a = new_archive(4);
    add(&mut a, "f", b"ABCDEFGHIJ");
    let bytes = a.data.clone();
    let mut b = FctArchive::open(bytes).expect("open failed");
    assert_eq!(b.chunk_size, 4);
    let listing = b.list_files();
    assert_eq!(listing.len(), 1);
    assert_eq!(listing[0].0, b"f".to_vec());
    assert_eq!(listing[0].1, 10);
    let (_, out) = b.extract_file(0).expect("extract failed");
    assert_eq!(out, b"ABCDEFGHIJ".to_vec());
}

#[test]
fn open_drops_truncated_tail() {
    let mut a = new_archive(4);
    add(&mut a, "f", b"ABCD");
    let complete_len = a.data.len();
    let mut bytes = a.data.clone();
    // a truncated further header: fewer than 8 bytes remain
    bytes.extend_from_slice(&[1, 2, 3]);
    let b = FctArchive::open(bytes).expect("open failed");
    assert_eq!(b.headers.len(), 1);
    assert_eq!(b.data.len(), complete_len);
}

#[test]
fn open_drops_entry_with_truncated_payload() {
    let mut a = new_archive(4);
    add(&mut a, "f", b"ABCD");
    add(&mut a, "g", b"WXYZ");
    let mut bytes = a.data.clone();
    // cut into the last entry's payload block
    bytes.truncate(bytes.len() - 2);
    let b = FctArchive::open(bytes).expect("open failed");
    assert_eq!(b.headers.len(), 1);
    assert_eq!(b.headers[0].file_path, b"f".to_vec());
}

#[test]
fn open_stops_at_inconsistent_descriptor() {
    // an entry header claiming a partial chunk as large as a whole chunk
    let mut bytes = vec![b'F', b'C', b'T', 4, 0];
    bytes.extend_from_slice(&[0, 0, 0, 0, 4, 0, 1, 0, b'x']);
    bytes.extend_from_slice(&[0; 4]);
    let b = FctArchive::open(bytes).expect("open failed");
    assert_eq!(b.headers.len(), 0);
    assert_eq!(b.data.len(), 5);
}

#[test]
fn largest_chunk_size_works() {
    let mut a = new_archive(65535);
    add(&mut a, "f", b"tiny");
    assert_eq!(a.headers[0].chunk_count, 0);
    assert_eq!(a.headers[0].last_chunk_size, 4);
    let (_, out) = a.extract_file(0).expect("extract failed");
    assert_eq!(out, b"tiny".to_vec());
}

#[test]
fn open_rejects_bad_magic() {
    let r = FctArchive::open(vec![b'X', b'Y', b'Z', 4, 0]);
    assert_eq!(r.err(), Some(FctError::FormatError));
}

#[test]
fn open_rejects_short_data() {
    let r = FctArchive::open(vec![b'F', b'C']);
    assert_eq!(r.err(), Some(FctError::FormatError));
}

#[test]
fn open_rejects_zero_chunk_size() {
    let r = FctArchive::open(vec![b'F', b'C', b'T', 0, 0]);
    assert_eq!(r.err(), Some(FctError::FormatError));
}

#[test]
fn create_rejects_zero_chunk_size() {
    let r = FctArchive::create_new(0);
    assert_eq!(r.err(), Some(FctError::SizeLimitExceeded));
}

#[test]
fn readonly_source_is_refused() {
    let mut a = new_archive(4);
    let r = a.add_file("/base/f", "/base", &b"abc".to_vec(), true);
    assert_eq!(r.err(), Some(FctError::PermissionDenied));
    assert_eq!(a.list_files().len(), 0);
}

#[test]
fn unresolvable_path_is_refused() {
    let mut a = new_archive(4);
    // a relative source path cannot be taken relative to an absolute root
    let r = a.add_file("f.txt", "/base", &b"abc".to_vec(), false);
    assert_eq!(r.err(), Some(FctError::PathError));
}

#[test]
fn too_long_path_is_refused() {
    let mut a = new_archive(4);
    let long_name: String = std::iter::repeat('a').take(70000).collect();
    let path = format!("/base/{}", long_name);
    let r = a.add_file(&path, "/base", &b"abc".to_vec(), false);
    assert_eq!(r.err(), Some(FctError::SizeLimitExceeded));
}

#[test]
fn extract_out_of_range_is_not_found() {
    let mut a = new_archive(4);
    add(&mut a, "f", b"abc");
    assert_eq!(a.extract_file(1).err(), Some(FctError::NotFound));
    assert_eq!(a.extract_file(100).err(), Some(FctError::NotFound));
}

#[test]
fn remove_from_empty_archive_is_not_found() {
    let mut a = new_archive(4);
    assert_eq!(a.remove_files(&vec![0]).err(), Some(FctError::NotFound));
}

#[test]
fn from_archive_reports_clean_end() {
    let a = new_archive(4);
    let r = FileParser::from_archive(&a.data, a.data.len());
    assert_eq!(r.err(), Some(FctError::EndOfArchive));
}

#[test]
fn from_archive_rejects_incomplete_prefix() {
    let bytes = vec![1, 2, 3];
    let r = FileParser::from_archive(&bytes, 0);
    assert_eq!(r.err(), Some(FctError::FormatError));
}

#[test]
fn from_archive_rejects_short_path() {
    // path length field says 4 but only 2 path bytes follow
    let bytes = vec![0, 0, 0, 0, 0, 0, 4, 0, b'a', b'b'];
    let r = FileParser::from_archive(&bytes, 0);
    assert_eq!(r.err(), Some(FctError::FormatError));
}

#[test]
fn from_archive_rejects_invalid_utf8_path() {
    let bytes = vec![0, 0, 0, 0, 0, 0, 2, 0, 0xFF, 0xFE];
    let r = FileParser::from_archive(&bytes, 0);
    assert_eq!(r.err(), Some(FctError::FormatError));
}

#[test]
fn generate_header_rejects_long_path() {
    let parser = FileParser {
        file_path: vec![b'a'; 70000],
        chunk_count: 0,
        last_chunk_size: 0,
    };
    assert_eq!(parser.generate_header().err(), Some(FctError::SizeLimitExceeded));
}

#[test]
fn add_files_collects_failures() {
    let mut a = new_archive(4);
    let files = vec![
        SourceFile { path: "/base/good1".to_string(), content: b"one".to_vec(), readonly: false },
        SourceFile { path: "/base/locked".to_string(), content: b"two".to_vec(), readonly: true },
        SourceFile { path: "/base/good2".to_string(), content: b"three".to_vec(), readonly: false },
    ];
    let failed = a.add_files(&files, "/base");
    assert_eq!(failed, vec!["/base/locked".to_string()]);
    let listing = a.list_files();
    assert_eq!(listing.len(), 2);
    assert_eq!(listing[0].0, b"good1".to_vec());
    assert_eq!(listing[1].0, b"good2".to_vec());
}

#[test]
fn extract_files_empty_indices_extracts_all() {
    let mut a = new_archive(4);
    add(&mut a, "A", b"aaa");
    add(&mut a, "B", b"bbbbb");
    let out = a.extract_files(&Vec::new());
    assert_eq!(out.len(), 2);
    assert_eq!(out[0].0, b"A".to_vec());
    assert_eq!(out[0].1, b"aaa".to_vec());
    assert_eq!(out[1].0, b"B".to_vec());
    assert_eq!(out[1].1, b"bbbbb".to_vec());
}

#[test]
fn extract_files_selects_by_index() {
    let mut a = new_archive(4);
    add(&mut a, "A", b"aaa");
    add(&mut a, "B", b"bbbbb");
    add(&mut a, "C", b"cc");
    let out = a.extract_files(&vec![2, 0]);
    // one pass in on-disk order, whatever order the indices came in
    assert_eq!(out.len(), 2);
    assert_eq!(out[0].0, b"A".to_vec());
    assert_eq!(out[1].0, b"C".to_vec());
    // an index past the end selects nothing
    let none = a.extract_files(&vec![9]);
    assert_eq!(none.len(), 0);
}

#[test]
fn remove_after_append_shifts_ordinals() {
    let mut a = new_archive(4);
    add(&mut a, "A", b"a");
    add(&mut a, "B", b"b");
    add(&mut a, "C", b"c");
    add(&mut a, "D", b"d");
    a.remove_files(&vec![0, 2]).expect("remove failed");
    let listing = a.list_files();
    assert_eq!(listing.len(), 2);
    assert_eq!(listing[0].0, b"B".to_vec());
    assert_eq!(listing[1].0, b"D".to_vec());
}
