use rustcomp::codec::{rle_decode, rle_encode};
use rustcomp::models::ArchiveError;

fn round_trip(input: &[u8]) {
    let encoded = rle_encode(input);
    assert_eq!(encoded.len() % 5, 0);
    let decoded = rle_decode(encoded.as_slice()).expect("well-formed records");
    assert_eq!(decoded, input.to_vec());
}

#[test]
fn round_trip_empty() {
    let encoded = rle_encode(&[]);
    assert_eq!(encoded, Vec::<u8>::new());
    round_trip(&[]);
}

#[test]
fn round_trip_all_same_byte() {
    round_trip(&[7u8; 1000]);
}

#[test]
fn round_trip_irregular() {
    let mut input = Vec::new();
    for i in 0..2000u32 {
        input.push((i.wrapping_mul(2654435761) >> 13) as u8);
    }
    round_trip(&input);
}

#[test]
fn round_trip_alternating() {
    round_trip(&[0, 1, 0, 1, 0, 1, 0]);
}

#[test]
fn record_layout_exact() {
    // "aaaabbbccd": four maximal runs, one five-byte record each.
    let encoded = rle_encode(b"aaaabbbccd");
    assert_eq!(
        encoded,
        vec![
            b'a', 4, 0, 0, 0, //
            b'b', 3, 0, 0, 0, //
            b'c', 2, 0, 0, 0, //
            b'd', 1, 0, 0, 0,
        ]
    );
}

#[test]
fn records_are_minimal() {
    // No two adjacent records share a symbol; no record is empty.
    let encoded = rle_encode(b"xxxyyxzzzzz");
    let records: Vec<(u8, u32)> = encoded
        .chunks(5)
        .map(|c| (c[0], u32::from_le_bytes([c[1], c[2], c[3], c[4]])))
        .collect();
    for window in records.windows(2) {
        assert_ne!(window[0].0, window[1].0);
    }
    for record in &records {
        assert!(record.1 >= 1);
    }
    assert_eq!(records, vec![(b'x', 3), (b'y', 2), (b'x', 1), (b'z', 5)]);
}

#[test]
fn boundary_run_single_record() {
    // A lone repeated byte of length L is exactly one record with count L.
    let length = 70000usize; // larger than one byte's range
    let input = vec![b'Q'; length];
    let encoded = rle_encode(&input);
    assert_eq!(encoded.len(), 5);
    assert_eq!(encoded[0], b'Q');
    assert_eq!(
        u32::from_le_bytes([encoded[1], encoded[2], encoded[3], encoded[4]]),
        length as u32
    );
    let decoded = rle_decode(encoded.as_slice()).unwrap();
    assert_eq!(decoded, input);
}

#[test]
fn decode_rejects_torn_record() {
    let result = rle_decode(&[b'a', 1, 0]);
    assert_eq!(result, Err(ArchiveError::CorruptArchive));
    let result = rle_decode(&[b'a', 1, 0, 0, 0, b'b']);
    assert_eq!(result, Err(ArchiveError::CorruptArchive));
}
