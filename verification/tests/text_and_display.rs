use rustcomp::compressor::{display_name, file_name_of, name_matches, Compressor};
use rustcomp::container::{pack_archive, unpack_archive};
use rustcomp::models::{ArchiveError, FileData};
use rustcomp::text::{decode_container, encode_container};
use rustcomp::utils::{format_size, format_time};

#[test]
fn container_text_exact() {
    // Pins the base64 engine: 01 02 03 encodes to AQID.
    let text = encode_container(&vec![1u8, 2, 3]);
    assert_eq!(text, "RUSTCOMP\nAQID\n");
}

#[test]
fn container_text_round_trip() {
    let files = vec![
        FileData { path: "a.txt".to_string(), contents: b"aaaabbbccd".to_vec() },
        FileData { path: "sub/b.txt".to_string(), contents: Vec::new() },
    ];
    let archive = pack_archive(&files);
    let text = encode_container(&archive);
    // Armor text travels as lines without their newlines.
    let lines: Vec<String> = text.lines().map(|l| l.to_string()).collect();
    let read_back = decode_container(&lines).expect("text form is sound");
    assert_eq!(read_back, archive);
    let out = unpack_archive(read_back.as_slice()).unwrap();
    assert_eq!(out.len(), 2);
    assert_eq!(out[0].path, "a.txt");
    assert_eq!(out[0].contents, b"aaaabbbccd".to_vec());
    assert_eq!(out[1].path, "sub/b.txt");
    assert!(out[1].contents.is_empty());
}

#[test]
fn container_text_split_lines() {
    let archive = pack_archive(&vec![FileData {
        path: "x".to_string(),
        contents: b"zzzz".to_vec(),
    }]);
    let text = encode_container(&archive);
    let b64 = text.lines().nth(1).unwrap();
    let (first, second) = b64.split_at(b64.len() / 2);
    let lines = vec!["RUSTCOMP".to_string(), first.to_string(), second.to_string()];
    assert_eq!(decode_container(&lines).unwrap(), archive);
}

#[test]
fn wrong_signature_is_corrupt() {
    let lines = vec!["NOTANARCHIVE".to_string(), "AQID".to_string()];
    assert_eq!(decode_container(&lines).err(), Some(ArchiveError::CorruptArchive));
    assert_eq!(decode_container(&Vec::new()).err(), Some(ArchiveError::CorruptArchive));
}

#[test]
fn broken_base64_is_corrupt() {
    let lines = vec!["RUSTCOMP".to_string(), "@@@not base64@@@".to_string()];
    assert_eq!(decode_container(&lines).err(), Some(ArchiveError::CorruptArchive));
}

#[test]
fn format_size_exact_values() {
    assert_eq!(format_size(0), "0 B");
    assert_eq!(format_size(512), "512 B");
    assert_eq!(format_size(1023), "1023 B");
    assert_eq!(format_size(1024), "1.00 KB");
    assert_eq!(format_size(1536), "1.50 KB");
    assert_eq!(format_size(123456789), "117.74 MB");
    assert_eq!(format_size(1048576), "1.00 MB");
    assert_eq!(format_size(3221225472), "3.00 GB");
}

#[test]
fn format_time_known_moments() {
    assert_eq!(format_time(0), "1970-01-01 00:00:00");
    assert_eq!(format_time(1_000_000_000), "2001-09-09 01:46:40");
}

#[test]
fn name_matching_is_case_insensitive_substring() {
    assert!(name_matches("Hello.TXT", "hello"));
    assert!(name_matches("FooBar", "OBA"));
    assert!(name_matches("anything", ""));
    assert!(!name_matches("abc", "zz"));
    assert!(!name_matches("", "a"));
}

#[test]
fn display_name_truncates_long_names() {
    let long = "abcdefghijklmnopqrstuvwxyz0123456789";
    assert_eq!(display_name(&long.to_string()), "abcdefghijklmnopqrstuvwxyz0...");
    assert_eq!(display_name(&"short.txt".to_string()), "short.txt");
}

#[test]
fn compressor_keeps_its_paths() {
    let job = Compressor::new("in.dir".to_string(), "out.bin".to_string());
    assert_eq!(job.input_path().as_str(), "in.dir");
    assert_eq!(job.output_path().as_str(), "out.bin");
}

#[test]
fn file_name_takes_last_component() {
    assert_eq!(file_name_of(&"dir/sub/notes.txt".to_string()), "notes.txt");
    assert_eq!(file_name_of(&"notes.txt".to_string()), "notes.txt");
    assert_eq!(file_name_of(&"/tmp/x".to_string()), "x");
    assert_eq!(file_name_of(&"dir/".to_string()), "");
    assert_eq!(file_name_of(&"".to_string()), "");
}
