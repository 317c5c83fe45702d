use paramo::utils::{str_generator, BitString, BitStringError};

#[test]
fn bit_string_packs_bytes() {
    let s = "01000001".to_string();
    assert_eq!(s.to_vec(), Ok(vec![0x41]));
    let two = "0100000111111111".to_string();
    assert_eq!(two.to_vec(), Ok(vec![0x41, 0xFF]));
    let empty = "".to_string();
    assert_eq!(empty.to_vec(), Ok(Vec::new()));
}

#[test]
fn incomplete_bit_string_is_rejected() {
    let s = "0100000".to_string();
    assert_eq!(s.to_vec(), Err(BitStringError::Incomplete));
    assert!(!s.is_complete());
    assert!( "01000001".to_string().is_complete());
}

#[test]
fn invalid_bit_is_rejected() {
    let s = "0100000x".to_string();
    assert_eq!(s.to_vec(), Err(BitStringError::InvalidBit));
}

#[test]
fn bit_string_lengths() {
    let s = "0100000111111111".to_string();
    assert_eq!(BitString::len(&s), 16);
    assert_eq!(s.byte_len(), 2);
}

#[test]
fn generated_string_repeats() {
    assert_eq!(str_generator('a', 5), "aaaaa".to_string());
    assert_eq!(str_generator('0', 0), "".to_string());
    let zeros = str_generator('0', 24);
    assert_eq!(zeros.to_vec(), Ok(vec![0, 0, 0]));
}
