use file_sys::codec::{decode_stream, encode, DecodeError};

#[test]
fn round_trip_basic() {
    let payload = vec![b'h', b'e', b'l', b'l', b'o'];
    let frame = encode(&payload, 7);
    assert_eq!(frame.len(), 12 + payload.len());
    let out = decode_stream(&frame);
    assert_eq!(out.error, None);
    assert_eq!(out.records.len(), 1);
    assert_eq!(out.records[0].id, 7);
    assert_eq!(out.records[0].payload, payload);
    assert_eq!(out.records[0].checksum, 0x3610_a686);
}

#[test]
fn round_trip_empty_payload() {
    let payload: Vec<u8> = Vec::new();
    let frame = encode(&payload, 0);
    assert_eq!(frame.len(), 12);
    let out = decode_stream(&frame);
    assert_eq!(out.error, None);
    assert_eq!(out.records.len(), 1);
    assert_eq!(out.records[0].id, 0);
    assert!(out.records[0].payload.is_empty());
    assert_eq!(out.records[0].checksum, 0);
}

#[test]
fn frame_layout_exact() {
    let frame = encode(&vec![b'4', b'2'], 1_700_000_000);
    assert_eq!(
        frame,
        vec![
            0x65, 0x53, 0xF1, 0x00, // id, big endian
            0x00, 0x00, 0x00, 0x02, // payload length, big endian
            0x34, 0x32, // the payload bytes b"42"
            0x32, 0x24, 0xB0, 0x88, // CRC-32-IEEE of the payload, big endian
        ]
    );
}

#[test]
fn crc_known_value() {
    let frame = encode(&vec![b'4', b'2'], 1);
    let out = decode_stream(&frame);
    assert_eq!(out.records[0].checksum, 841_265_288);
}

#[test]
fn append_stream_three() {
    let mut file: Vec<u8> = Vec::new();
    file.extend(encode(&vec![b'a'], 10));
    file.extend(encode(&vec![b'b', b'c'], 11));
    file.extend(encode(&Vec::new(), 12));
    let out = decode_stream(&file);
    assert_eq!(out.error, None);
    assert_eq!(out.records.len(), 3);
    assert_eq!(out.records[0].id, 10);
    assert_eq!(out.records[0].payload, vec![b'a']);
    assert_eq!(out.records[1].id, 11);
    assert_eq!(out.records[1].payload, vec![b'b', b'c']);
    assert_eq!(out.records[2].id, 12);
    assert!(out.records[2].payload.is_empty());
}

#[test]
fn append_preserves_prefix() {
    let first = encode(&vec![1, 2, 3], 1);
    let mut file = first.clone();
    file.extend(encode(&vec![4, 5], 2));
    // the bytes already flushed are untouched by the append
    assert_eq!(&file[..first.len()], &first[..]);
    // and their decoding is untouched too
    let before = decode_stream(&first);
    let after = decode_stream(&file);
    assert_eq!(after.records[0], before.records[0]);
}

#[test]
fn partial_corruption_containment() {
    let mut file: Vec<u8> = Vec::new();
    file.extend(encode(&vec![b'x'], 1));
    file.extend(encode(&vec![b'y'], 2));
    let third = encode(&vec![b'z', b'z', b'z'], 3);
    file.extend(&third[..third.len() - 5]); // a write cut short
    let out = decode_stream(&file);
    assert_eq!(out.error, Some(DecodeError::Truncated));
    assert_eq!(out.records.len(), 2);
    assert_eq!(out.records[0].id, 1);
    assert_eq!(out.records[1].id, 2);
}

#[test]
fn truncated_header() {
    let out = decode_stream(&vec![1, 2, 3]);
    assert_eq!(out.error, Some(DecodeError::Truncated));
    assert!(out.records.is_empty());
}

#[test]
fn empty_buffer_is_no_records_no_error() {
    let out = decode_stream(&Vec::new());
    assert_eq!(out.error, None);
    assert!(out.records.is_empty());
}

#[test]
fn checksum_mismatch_detected() {
    let mut frame = encode(&vec![b'4', b'2'], 9);
    let last = frame.len() - 1;
    frame[last] ^= 0x01;
    let out = decode_stream(&frame);
    assert_eq!(out.error, Some(DecodeError::ChecksumMismatch));
    assert!(out.records.is_empty());
}

#[test]
fn corruption_single_bit_flips_in_payload_and_checksum() {
    let frame = encode(&vec![b'4', b'2'], 1_700_000_000);
    // bytes 8..10 are the payload, 10..14 the stored checksum: any single
    // bit flip there must be reported as a checksum mismatch
    for j in 8..frame.len() {
        for bit in 0..8 {
            let mut corrupted = frame.clone();
            corrupted[j] ^= 1 << bit;
            let out = decode_stream(&corrupted);
            assert_eq!(out.error, Some(DecodeError::ChecksumMismatch));
            assert!(out.records.is_empty());
        }
    }
}

#[test]
fn corruption_never_a_false_positive() {
    let payload = vec![b'4', b'2'];
    let frame = encode(&payload, 1_700_000_000);
    for j in 0..frame.len() {
        for bit in 0..8 {
            let mut corrupted = frame.clone();
            corrupted[j] ^= 1 << bit;
            let out = decode_stream(&corrupted);
            // decoding never reproduces the original record as if nothing
            // had happened: it errors out, or the record it yields differs
            let silently_ok = out.error.is_none()
                && out.records.len() == 1
                && out.records[0].id == 1_700_000_000
                && out.records[0].payload == payload;
            assert!(!silently_ok);
        }
    }
}

#[test]
fn length_field_corruption_is_an_error() {
    let frame = encode(&vec![b'4', b'2'], 5);
    // bytes 4..8 are the length prefix; growing it truncates the frame,
    // shrinking it misplaces the checksum
    for j in 4..8 {
        let mut corrupted = frame.clone();
        corrupted[j] ^= 0xFF;
        let out = decode_stream(&corrupted);
        assert!(out.error.is_some());
        assert!(out.records.is_empty());
    }
}
