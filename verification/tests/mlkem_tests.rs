use mlkem::helper::{h, j, to_bytes};
use mlkem::kpke::{kpke_dec, kpke_enc, kpke_key_gen};
use mlkem::mlkem::{
    coefficients_reduced, decaps, decaps_internal, difference_mask, encaps, encaps_internal,
    keygen, keygen_internal, select_bytes, MlKemError,
};

fn hex(bytes: &[u8]) -> String {
    let mut s = String::new();
    for b in bytes {
        s.push_str(&format!("{:02x}", b));
    }
    s
}

fn fixed_keys() -> (Vec<u16>, Vec<u16>) {
    let d: Vec<u8> = (0..32).collect();
    let z: Vec<u16> = (32..64).collect();
    keygen_internal(d, z)
}

fn fixed_message() -> Vec<u8> {
    (64..96).collect()
}

#[test]
fn test_keygen_encaps_decaps() {
    let (ek, dk) = keygen();
    let (k, c) = encaps(ek).unwrap();
    let k_ = decaps(dk, c).unwrap();
    assert_eq!(k, k_);
}

#[test]
fn key_and_ciphertext_lengths() {
    let (ek, dk) = fixed_keys();
    assert_eq!(ek.len(), 1184);
    assert_eq!(dk.len(), 2400);
    let (k, c) = encaps_internal(ek, fixed_message()).unwrap();
    assert_eq!(k.len(), 32);
    assert_eq!(c.len(), 1088);
}

#[test]
fn fixed_seeds_give_known_answers() {
    let (ek, dk) = fixed_keys();
    assert_eq!(&ek[..8], &[41, 138, 161, 13, 66, 60, 141, 218]);
    assert_eq!(&dk[..8], &[39, 210, 167, 127, 51, 117, 111, 97]);
    assert_eq!(
        hex(&h(to_bytes(&ek))),
        "a24e16d8f8f9383a95b77050f4d9fd2f5733eec1d63ef3c23ebf9918173669a7"
    );
    assert_eq!(
        hex(&h(to_bytes(&dk))),
        "1149f17c3c4ac6ab1e3e2d9d8bd0171355ac0fa31bb8855c48ceade874c0864b"
    );
    let (k, c) = encaps_internal(ek, fixed_message()).unwrap();
    assert_eq!(&c[..8], &[105, 90, 96, 217, 199, 159, 8, 52]);
    assert_eq!(
        hex(&h(to_bytes(&c))),
        "b4cfbd24cef67afd3764276c6980e0f88f8e9ca57f59b7f12fe1a9c1e72f4710"
    );
    assert_eq!(hex(&k), "9cddd089ffe70e3996e76f7c8d06746df34d07e8657bc0fcf2bb0e1c3084aea1");
    assert_eq!(decaps_internal(dk, c).unwrap(), k);
}

#[test]
fn decapsulation_key_layout() {
    let (ek, dk) = fixed_keys();
    assert_eq!(&dk[1152..2336], &ek[..]);
    let digest: Vec<u16> = h(to_bytes(&ek)).iter().map(|b| *b as u16).collect();
    assert_eq!(&dk[2336..2368], &digest[..]);
    let z: Vec<u16> = (32..64).collect();
    assert_eq!(&dk[2368..], &z[..]);
}

#[test]
fn keys_and_ciphertexts_are_deterministic() {
    assert_eq!(fixed_keys(), fixed_keys());
    let (ek, _) = fixed_keys();
    assert_eq!(
        encaps_internal(ek.clone(), fixed_message()),
        encaps_internal(ek, fixed_message())
    );
}

#[test]
fn round_trip_for_many_seeds() {
    for s in 0..8u8 {
        let d: Vec<u8> = (0..32).map(|i| i ^ s.wrapping_mul(37)).collect();
        let z: Vec<u16> = (0..32).map(|i| (i * 3 + s as u16) % 256).collect();
        let m: Vec<u8> = (0..32).map(|i| i * 5 + s).collect();
        let (ek, dk) = keygen_internal(d, z);
        let (k, c) = encaps_internal(ek, m).unwrap();
        assert_eq!(decaps_internal(dk, c).unwrap(), k);
    }
}

#[test]
fn flipped_ciphertext_bit_is_rejected_implicitly() {
    let (ek, dk) = fixed_keys();
    let (k, c) = encaps_internal(ek, fixed_message()).unwrap();
    for position in [0usize, 1, 500, 1087] {
        for bit in [0u16, 7] {
            let mut changed = c.clone();
            changed[position] ^= 1 << bit;
            let got = decaps_internal(dk.clone(), changed.clone()).unwrap();
            assert_ne!(got, k);
            let mut input: Vec<u8> = (32..64).collect();
            input.extend(to_bytes(&changed));
            assert_eq!(got, j(input));
            assert_eq!(decaps_internal(dk.clone(), changed).unwrap(), got);
        }
    }
    let mut changed = c.clone();
    changed[0] ^= 1;
    assert_eq!(
        hex(&decaps_internal(dk, changed).unwrap()),
        "dcfc80c6db46ff7028e3a4398651c063ae7a42c107a6dc8cb07141861698ab92"
    );
}

#[test]
fn wrong_lengths_are_rejected() {
    let (ek, dk) = fixed_keys();
    let (_, c) = encaps_internal(ek.clone(), fixed_message()).unwrap();
    assert_eq!(
        encaps_internal(ek[..1183].to_vec(), fixed_message()),
        Err(MlKemError::InvalidInputLength)
    );
    let mut long = ek.clone();
    long.push(0);
    assert_eq!(encaps(long), Err(MlKemError::InvalidInputLength));
    assert_eq!(encaps(Vec::new()), Err(MlKemError::InvalidInputLength));
    assert_eq!(
        decaps_internal(dk[..2399].to_vec(), c.clone()),
        Err(MlKemError::InvalidInputLength)
    );
    assert_eq!(decaps(dk.clone(), c[..1087].to_vec()), Err(MlKemError::InvalidInputLength));
    assert_eq!(decaps(Vec::new(), Vec::new()), Err(MlKemError::InvalidInputLength));
    assert!(decaps(dk, c).is_ok());
}

#[test]
fn unreduced_key_coefficient_is_rejected() {
    let (ek, _) = fixed_keys();
    let mut bad = ek.clone();
    bad[0] = 0xFF;
    bad[1] |= 0x0F;
    assert!(!coefficients_reduced(3, &bad));
    assert_eq!(encaps_internal(bad.clone(), fixed_message()), Err(MlKemError::InvalidKeyEncoding));
    assert_eq!(encaps(bad), Err(MlKemError::InvalidKeyEncoding));
    let mut edge = ek.clone();
    edge[0] = 0x01;
    edge[1] = (edge[1] & 0xF0) | 0x0D;
    assert_eq!(encaps_internal(edge, fixed_message()), Err(MlKemError::InvalidKeyEncoding));
    let mut largest = ek.clone();
    largest[0] = 0x00;
    largest[1] = (largest[1] & 0xF0) | 0x0D;
    assert!(coefficients_reduced(3, &largest));
    assert!(encaps_internal(largest, fixed_message()).is_ok());
    assert!(coefficients_reduced(3, &ek));
}

#[test]
fn difference_mask_values() {
    assert_eq!(difference_mask(&vec![1, 2, 3], &vec![1, 2, 3]), 0);
    assert_eq!(difference_mask(&vec![1, 2, 3], &vec![1, 2, 4]), 255);
    assert_eq!(difference_mask(&vec![0x8000], &vec![0]), 255);
    assert_eq!(difference_mask(&vec![0x0100], &vec![0]), 255);
    assert_eq!(difference_mask(&Vec::new(), &Vec::new()), 0);
}

#[test]
fn select_bytes_values() {
    assert_eq!(select_bytes(0, &vec![1, 2], &vec![3, 4]), vec![1, 2]);
    assert_eq!(select_bytes(255, &vec![1, 2], &vec![3, 4]), vec![3, 4]);
}

#[test]
fn encryption_round_trip() {
    let (ek, dk) = kpke_key_gen((0..32).collect());
    assert_eq!(ek.len(), 1184);
    assert_eq!(dk.len(), 1152);
    let m: Vec<u16> = (0..32).map(|i| (i * 9 + 1) % 256).collect();
    let c = kpke_enc(ek, m.clone(), vec![7u8; 32]);
    assert_eq!(c.len(), 1088);
    assert_eq!(kpke_dec(dk, c), m);
}
