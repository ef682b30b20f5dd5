use mlkem::constant::N;
use mlkem::encode::{bits_to_bytes, bytes_decode, bytes_encode, bytes_to_bits, decode_raw};

#[test]
fn test_bits_to_bytes() {
    let vec = vec![1, 0, 1, 0, 1, 0, 1, 0, 0, 0, 0, 0, 0, 0, 0, 1];
    let bytes = bits_to_bytes(vec);
    assert_eq!(bytes, vec![85, 128]);
}

#[test]
fn test_bytes_to_bits() {
    let vec = vec![85, 128];
    let bits = bytes_to_bits(vec);
    assert_eq!(bits, vec![1, 0, 1, 0, 1, 0, 1, 0, 0, 0, 0, 0, 0, 0, 0, 1]);
}

#[test]
fn test_bytes_encode_decode() {
    let d = 5;
    let mut f = vec![0b11110, 0b10100, 0b11000, 0b10010, 0b11101];
    f.append(&mut vec![0; N - f.len()]);
    let bytes = bytes_encode(d, f.clone());
    let f_ = bytes_decode(d, bytes);
    assert_eq!(f, f_);
}

#[test]
fn bits_to_bytes_completes_last_group() {
    assert_eq!(bits_to_bytes(vec![1, 1, 0, 1]), vec![11]);
    assert_eq!(bits_to_bytes(vec![0, 0, 0, 0, 0, 0, 0, 0, 1]), vec![0, 1]);
    assert_eq!(bits_to_bytes(Vec::new()), Vec::<u16>::new());
}

#[test]
fn bytes_to_bits_reads_low_byte() {
    assert_eq!(bytes_to_bits(vec![0x0100 | 3]), vec![1, 1, 0, 0, 0, 0, 0, 0]);
    assert_eq!(bytes_to_bits(Vec::new()), Vec::<u16>::new());
}

#[test]
fn bytes_encode_five_bits_begins_as_expected() {
    let f = vec![0b11110, 0b10100, 0b11000, 0b10010, 0b11101];
    let bytes = bytes_encode(5, f);
    assert_eq!(bytes.len(), 160);
    assert_eq!(&bytes[..5], &[0x9E, 0x62, 0xD9, 0x01, 0x00]);
    assert!(bytes[5..].iter().all(|b| *b == 0));
}

#[test]
fn bytes_encode_lengths() {
    for d in 1..=12usize {
        assert_eq!(bytes_encode(d, vec![0; 256]).len(), 32 * d);
    }
}

#[test]
fn bytes_encode_keeps_low_bits_only() {
    let bytes = bytes_encode(4, vec![0x1F, 0x23]);
    assert_eq!(bytes[0], 0x3F);
}

#[test]
fn encode_decode_round_trip_all_widths() {
    for d in 1..=12usize {
        let m: u32 = if d == 12 { 3329 } else { 1 << d };
        let f: Vec<u16> = (0..256u32).map(|i| ((i * 7919 + 13) % m) as u16).collect();
        let bytes = bytes_encode(d, f.clone());
        assert_eq!(bytes.len(), 32 * d);
        assert_eq!(bytes_decode(d, bytes), f);
    }
}

#[test]
fn bytes_decode_twelve_reduces_modulo_q() {
    let mut bytes = vec![0u16; 384];
    bytes[0] = 0xFF;
    bytes[1] = 0x0F;
    bytes[2] = 0xD0;
    assert_eq!(decode_raw(12, bytes.clone())[0], 4095);
    assert_eq!(decode_raw(12, bytes.clone())[1], 3328);
    let f = bytes_decode(12, bytes);
    assert_eq!(f[0], 4095 - 3329);
    assert_eq!(f[1], 3328);
}

#[test]
fn bytes_decode_reads_missing_bytes_as_zero() {
    let f = bytes_decode(8, vec![7, 9]);
    assert_eq!(f.len(), 256);
    assert_eq!(f[0], 7);
    assert_eq!(f[1], 9);
    assert!(f[2..].iter().all(|x| *x == 0));
}
