use paramo::container::{compress, decompress};
use paramo::encoder::HuffmanEncoder;
use paramo::frequency::frequency_counter;
use paramo::HuffmanError;

fn total_payload_bits(input: &[u8]) -> usize {
    let data = input.to_vec();
    let freq = frequency_counter(&data).unwrap();
    let mut encoder = HuffmanEncoder::new(&freq.data);
    let encoded = encoder.encode(&data).unwrap();
    let pad = encoded.padding.unwrap_or(0) as usize;
    encoded.data.len() * 8 - pad
}

#[test]
fn round_trip_simple() {
    let data = b"AAAB".to_vec();
    let stream = compress(&data, None).unwrap();
    let (back, ext) = decompress(&stream).unwrap();
    assert_eq!(back, data);
    assert_eq!(ext, None);
}

#[test]
fn round_trip_mixed_text() {
    let data = b"abracadabra".to_vec();
    let stream = compress(&data, Some("txt".to_string())).unwrap();
    let (back, ext) = decompress(&stream).unwrap();
    assert_eq!(back, data);
    assert_eq!(ext, Some("txt".to_string()));
}

#[test]
fn round_trip_single_symbol_input() {
    // one repeated byte value encodes and decodes back to the original
    let data = vec![0x41u8; 1000];
    let stream = compress(&data, None).unwrap();
    let (back, ext) = decompress(&stream).unwrap();
    assert_eq!(back, data);
    assert_eq!(ext, None);
}

#[test]
fn round_trip_binary_blob() {
    let mut data = Vec::new();
    for i in 0..5000u32 {
        data.push((i * 7 % 251) as u8);
    }
    let stream = compress(&data, Some("bin".to_string())).unwrap();
    let (back, ext) = decompress(&stream).unwrap();
    assert_eq!(back, data);
    assert_eq!(ext, Some("bin".to_string()));
}

#[test]
fn empty_input_is_rejected() {
    // frequency analysis of zero bytes reports the error; nothing is written
    let data: Vec<u8> = Vec::new();
    assert_eq!(compress(&data, None), Err(HuffmanError::EmptyInput));
    assert!(frequency_counter(&data).is_none());
}

#[test]
fn full_alphabet_aligns_without_padding() {
    // a table covering all 256 byte values, each equally frequent, gives
    // eight-bit codes: the payload is byte aligned and no bit is lost
    let mut data = Vec::new();
    for b in 0..=255u8 {
        data.push(b);
    }
    let freq = frequency_counter(&data).unwrap();
    let mut encoder = HuffmanEncoder::new(&freq.data);
    let encoded = encoder.encode(&data).unwrap();
    assert_eq!(encoded.padding, None);
    assert_eq!(encoded.data.len(), 256);
    let stream = compress(&data, None).unwrap();
    let (back, _) = decompress(&stream).unwrap();
    assert_eq!(back, data);
}

#[test]
fn two_symbol_tree_gives_one_bit_codes() {
    // frequencies A=3, B=1: the two leaves merge directly into the root
    // and each symbol gets a one-bit code, so "AAAB" packs into one byte
    let data = b"AAAB".to_vec();
    let freq = frequency_counter(&data).unwrap();
    let mut encoder = HuffmanEncoder::new(&freq.data);
    let encoded = encoder.encode(&data).unwrap();
    // B was discovered last, so it heads the table and takes the left
    // edge: A = 1, B = 0, giving bits 1110 and four filler zeros
    assert_eq!(encoded.data, vec![0xE0]);
    assert_eq!(encoded.padding, Some(4));
    let back = encoder.decode(encoded).unwrap();
    assert_eq!(back, data);
}

#[test]
fn padding_stays_within_bounds() {
    for len in 1..40usize {
        let data: Vec<u8> = (0..len).map(|i| (i % 5) as u8 * 17).collect();
        let freq = frequency_counter(&data).unwrap();
        let mut encoder = HuffmanEncoder::new(&freq.data);
        let encoded = encoder.encode(&data).unwrap();
        let pad = encoded.padding.unwrap_or(0);
        assert!(pad <= 7);
        if pad > 0 {
            let last = *encoded.data.last().unwrap();
            assert_eq!(last % (1u8 << pad), 0, "filler bits must be zero");
        }
    }
}

#[test]
fn cost_matches_textbook_huffman() {
    // frequencies a=5, b=2, r=2, c=1, d=1: the optimal prefix code costs
    // 5*1 + 2*2 + 2*3 + 1*4 + 1*4 = 23 bits (textbook computation)
    assert_eq!(total_payload_bits(b"abracadabra"), 23);
    // frequencies A=3, B=1: one bit per symbol is optimal, 4 bits
    assert_eq!(total_payload_bits(b"AAAB"), 4);
    // a lone symbol gets the one-bit code 0 by policy: 1000 bits
    assert_eq!(total_payload_bits(&[0x41u8; 1000][..]), 1000);
}

#[test]
fn unknown_symbol_is_fatal() {
    // a table derived from other bytes cannot encode a foreign byte
    let table_data = b"AAB".to_vec();
    let freq = frequency_counter(&table_data).unwrap();
    let mut encoder = HuffmanEncoder::new(&freq.data);
    let foreign = b"AAC".to_vec();
    assert!(matches!(encoder.encode(&foreign), Err(HuffmanError::UnknownSymbol)));
}
