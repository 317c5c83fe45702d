use paramo::container::{compress, decompress, parse_header, serialize_header};
use paramo::encoder::{Encoded, HuffmanEncoder};
use paramo::frequency::frequency_counter;
use paramo::utils::Header;
use paramo::HuffmanError;

fn sample_header() -> Header {
    let data = b"abracadabra".to_vec();
    let freq = frequency_counter(&data).unwrap();
    Header { frequencies: freq.data, extension: Some("txt".to_string()), padding: Some(3) }
}

#[test]
fn header_round_trip() {
    let h = sample_header();
    let bytes = serialize_header(&h);
    let back = parse_header(&bytes).unwrap();
    assert_eq!(back.frequencies.len(), h.frequencies.len());
    for (a, b) in back.frequencies.iter().zip(h.frequencies.iter()) {
        assert_eq!(a.0, b.0);
        assert_eq!(a.1, b.1);
    }
    assert_eq!(back.extension, h.extension);
    assert_eq!(back.padding, h.padding);
}

#[test]
fn header_round_trip_without_extension() {
    let data = b"zzzy".to_vec();
    let freq = frequency_counter(&data).unwrap();
    let h = Header { frequencies: freq.data, extension: None, padding: None };
    let bytes = serialize_header(&h);
    let back = parse_header(&bytes).unwrap();
    assert_eq!(back.frequencies.len(), h.frequencies.len());
    assert_eq!(back.extension, None);
    assert_eq!(back.padding, None);
}

#[test]
fn wire_format_is_stable() {
    // "AAAB": the table holds B (count 1) ahead of A (count 3), codes are
    // B = 0 and A = 1, so the payload is the single byte 1110_0000 with
    // four filler bits
    let stream = compress(&b"AAAB".to_vec(), None).unwrap();
    let expected = vec![
        0, 0, 0, 24, // header length
        0, 0, 0, 2, // two table entries
        66, 0, 0, 0, 0, 0, 0, 0, 1, // B occurs once
        65, 0, 0, 0, 0, 0, 0, 0, 3, // A occurs three times
        4, // padding
        0, // no extension
        0xE0, // payload
    ];
    assert_eq!(stream, expected);
}

#[test]
fn truncated_header_is_malformed() {
    let h = sample_header();
    let mut bytes = serialize_header(&h);
    bytes.truncate(bytes.len() - 1);
    assert!(matches!(parse_header(&bytes), Err(HuffmanError::MalformedHeader)));
}

#[test]
fn empty_table_is_malformed() {
    // an entry count of zero must be rejected before any tree rebuild
    let bytes = vec![0, 0, 0, 0, 0, 0];
    assert!(matches!(parse_header(&bytes), Err(HuffmanError::MalformedHeader)));
}

#[test]
fn duplicate_symbols_are_malformed() {
    let h = sample_header();
    let mut bytes = serialize_header(&h);
    // overwrite the second entry's symbol with the first entry's
    let first_sym = bytes[4];
    bytes[4 + 9] = first_sym;
    assert!(matches!(parse_header(&bytes), Err(HuffmanError::MalformedHeader)));
}

#[test]
fn zero_count_is_malformed() {
    let h = sample_header();
    let mut bytes = serialize_header(&h);
    // zero out the first entry's eight count bytes
    for i in 0..8 {
        bytes[5 + i] = 0;
    }
    assert!(matches!(parse_header(&bytes), Err(HuffmanError::MalformedHeader)));
}

#[test]
fn padding_out_of_range_is_invalid() {
    let h = sample_header();
    let n = h.frequencies.len();
    let mut bytes = serialize_header(&h);
    bytes[4 + 9 * n] = 9;
    assert!(matches!(parse_header(&bytes), Err(HuffmanError::InvalidPadding)));
}

#[test]
fn short_stream_is_malformed() {
    assert!(matches!(decompress(&Vec::new()), Err(HuffmanError::MalformedHeader)));
    assert!(matches!(decompress(&vec![0, 0]), Err(HuffmanError::MalformedHeader)));
    // a length prefix that claims more header bytes than the stream holds
    assert!(matches!(decompress(&vec![0, 0, 0, 50, 1, 2]), Err(HuffmanError::MalformedHeader)));
}

#[test]
fn missing_payload_is_truncated() {
    let data = b"AAAB".to_vec();
    let stream = compress(&data, None).unwrap();
    // drop the single payload byte: the header claims four padding bits,
    // so the walk cannot land on the root
    let shorter = stream[..stream.len() - 1].to_vec();
    assert!(matches!(decompress(&shorter), Err(HuffmanError::TruncatedPayload)));
}

#[test]
fn mid_path_leftover_is_truncated() {
    // four equally frequent symbols give two-bit codes; claiming one
    // filler bit leaves fifteen valid bits, so the last walk stops
    // between the root and a leaf
    let data = b"aabbccdd".to_vec();
    let freq = frequency_counter(&data).unwrap();
    let mut encoder = HuffmanEncoder::new(&freq.data);
    let encoded = encoder.encode(&data).unwrap();
    assert_eq!(encoded.padding, None);
    let tampered = Encoded { data: encoded.data, padding: Some(1) };
    assert!(matches!(encoder.decode(tampered), Err(HuffmanError::TruncatedPayload)));
}
