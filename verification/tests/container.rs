use rustcomp::container::{extract_entry, pack_archive, parse_directory, unpack_archive};
use rustcomp::models::{ArchiveError, FileData, FileEntry};

fn file(path: &str, contents: &[u8]) -> FileData {
    FileData { path: path.to_string(), contents: contents.to_vec() }
}

#[test]
fn pack_unpack_round_trip_tree() {
    // A small tree with a nested path and an empty file.
    let files = vec![file("a.txt", b"aaaabbbccd"), file("sub/b.txt", b"")];
    let archive = pack_archive(&files);
    let out = unpack_archive(archive.as_slice()).expect("archive is sound");
    assert_eq!(out.len(), 2);
    assert_eq!(out[0].path, "a.txt");
    assert_eq!(out[0].contents, b"aaaabbbccd".to_vec());
    assert_eq!(out[1].path, "sub/b.txt");
    assert_eq!(out[1].contents, Vec::<u8>::new());
}

#[test]
fn single_file_entry_keeps_bare_name() {
    // Packing a lone file: the single entry's path is just the name.
    let files = vec![file("notes.txt", b"hello")];
    let archive = pack_archive(&files);
    let entries = parse_directory(archive.as_slice()).unwrap();
    assert_eq!(entries.len(), 1);
    assert_eq!(entries[0].path, "notes.txt");
    assert!(!entries[0].path.contains('/'));
}

#[test]
fn archive_layout_exact() {
    // One file "a" holding "aa": count, one row, one record.
    let files = vec![file("a", b"aa")];
    let archive = pack_archive(&files);
    let mut expected = Vec::new();
    expected.extend_from_slice(&1u64.to_le_bytes());
    expected.extend_from_slice(&1u32.to_le_bytes());
    expected.push(b'a');
    expected.extend_from_slice(&5u64.to_le_bytes());
    expected.extend_from_slice(&29u64.to_le_bytes()); // 8 + (4 + 1 + 8 + 8)
    expected.push(b'a');
    expected.extend_from_slice(&2u32.to_le_bytes());
    assert_eq!(archive, expected);
}

#[test]
fn offsets_tile_the_archive() {
    let files = vec![
        file("one.bin", b"wwwwwwww"),
        file("two.bin", b"xyz"),
        file("three.bin", b""),
    ];
    let archive = pack_archive(&files);
    let entries = parse_directory(archive.as_slice()).unwrap();
    assert_eq!(entries.len(), 3);
    // Row sizes: 20 bytes plus the path; the count field takes 8.
    let header = 8 + (20 + 7) + (20 + 7) + (20 + 9);
    assert_eq!(entries[0].offset, header as u64);
    for window in entries.windows(2) {
        assert_eq!(window[0].offset + window[0].size, window[1].offset);
    }
    let last = &entries[entries.len() - 1];
    assert_eq!(last.offset + last.size, archive.len() as u64);
}

#[test]
fn truncated_header_is_corrupt() {
    let files = vec![file("a.txt", b"aaaabbbccd"), file("sub/b.txt", b"")];
    let archive = pack_archive(&files);
    let header = 8 + (20 + 5) + (20 + 9);
    for cut in [0, 1, 7, 8, 9, 20, header - 1] {
        let truncated = &archive[..cut];
        assert_eq!(
            unpack_archive(truncated).err(),
            Some(ArchiveError::CorruptArchive),
            "cut at {cut}"
        );
    }
}

#[test]
fn region_past_end_is_corrupt() {
    let entry = FileEntry { path: "a".to_string(), size: 5, offset: 1000 };
    let data = vec![0u8; 40];
    assert_eq!(extract_entry(&data, &entry), Err(ArchiveError::CorruptArchive));
}

#[test]
fn torn_region_is_corrupt() {
    // A size that is no whole number of five-byte records.
    let entry = FileEntry { path: "a".to_string(), size: 7, offset: 0 };
    let data = vec![0u8; 40];
    assert_eq!(extract_entry(&data, &entry), Err(ArchiveError::CorruptArchive));
}

#[test]
fn escaping_paths_are_unsafe() {
    let data = vec![0u8; 40];
    for bad in ["../x", "a/../b", "/etc/passwd", "a/..", "..", ""] {
        let entry = FileEntry { path: bad.to_string(), size: 5, offset: 0 };
        assert_eq!(
            extract_entry(&data, &entry),
            Err(ArchiveError::UnsafePath),
            "path {bad:?}"
        );
    }
}

#[test]
fn dotted_names_are_safe() {
    let entry = FileEntry { path: "a..b/notes..txt".to_string(), size: 5, offset: 0 };
    let data = vec![b'x', 1, 0, 0, 0, 0, 0, 0, 0, 0];
    assert_eq!(extract_entry(&data, &entry), Ok(vec![b'x']));
}

#[test]
fn non_utf8_path_is_corrupt() {
    // Hand-built archive whose one path byte is not UTF-8.
    let mut archive = Vec::new();
    archive.extend_from_slice(&1u64.to_le_bytes());
    archive.extend_from_slice(&1u32.to_le_bytes());
    archive.push(0xFF);
    archive.extend_from_slice(&0u64.to_le_bytes());
    archive.extend_from_slice(&29u64.to_le_bytes());
    assert!(parse_directory(archive.as_slice()).is_err());
    assert_eq!(unpack_archive(archive.as_slice()).err(), Some(ArchiveError::CorruptArchive));
}

#[test]
fn unpack_of_empty_archive() {
    let archive = pack_archive(&Vec::new());
    assert_eq!(archive, 0u64.to_le_bytes().to_vec());
    let out = unpack_archive(archive.as_slice()).unwrap();
    assert!(out.is_empty());
}
