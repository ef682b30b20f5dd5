use mlkem::constant::ParameterSet;
use mlkem::helper::{h, to_bytes};
use mlkem::mlkem::{decaps_internal, encaps_internal, keygen_internal, MlKemError};

fn hex(bytes: &[u8]) -> String {
    let mut s = String::new();
    for b in bytes {
        s.push_str(&format!("{:02x}", b));
    }
    s
}

fn digest(cells: &Vec<u16>) -> String {
    hex(&h(to_bytes(cells)))
}

fn seeds() -> (Vec<u8>, Vec<u16>, Vec<u8>) {
    ((0..32).collect(), (32..64).collect(), (64..96).collect())
}

fn known_answers(p: ParameterSet, lengths: [usize; 3], expected: [&str; 5]) {
    let (d, z, m) = seeds();
    assert_eq!(p.encapsulation_key_length(), lengths[0]);
    assert_eq!(p.decapsulation_key_length(), lengths[1]);
    assert_eq!(p.ciphertext_length(), lengths[2]);
    let (ek, dk) = p.keygen_internal(d, z);
    assert_eq!(ek.len(), lengths[0]);
    assert_eq!(dk.len(), lengths[1]);
    assert_eq!(digest(&ek), expected[0]);
    assert_eq!(digest(&dk), expected[1]);
    let (k, c) = p.encaps_internal(ek, m).unwrap();
    assert_eq!(c.len(), lengths[2]);
    assert_eq!(digest(&c), expected[2]);
    assert_eq!(hex(&k), expected[3]);
    assert_eq!(p.decaps_internal(dk.clone(), c.clone()).unwrap(), k);
    let mut changed = c;
    changed[5] ^= 0x10;
    assert_eq!(hex(&p.decaps_internal(dk, changed).unwrap()), expected[4]);
}

#[test]
fn ml_kem_512_known_answers() {
    known_answers(
        ParameterSet::ml_kem_512(),
        [800, 1632, 768],
        [
            "82f101ff648063b376e2bb6c5b7455f655a50c2feadade150efa0e0e6f365aea",
            "0bd3f5df01098ac9c29d687c7f1bd0588a5573feeef8f1e3b4573fa7f6ab57c8",
            "e3fdddb90255869185c07cdf1c1880b2efe08b6f04da4997b693c0dea61503bd",
            "14cace3e48771b316676afad2cfcfe8488daaa4fad954e57236caa3f24a42cf7",
            "0fc40a97226ca3bd5be2ec1292d3a8ca1004599a7de5392daa8ffde4820cdc41",
        ],
    );
}

#[test]
fn ml_kem_768_known_answers() {
    known_answers(
        ParameterSet::ml_kem_768(),
        [1184, 2400, 1088],
        [
            "a24e16d8f8f9383a95b77050f4d9fd2f5733eec1d63ef3c23ebf9918173669a7",
            "1149f17c3c4ac6ab1e3e2d9d8bd0171355ac0fa31bb8855c48ceade874c0864b",
            "b4cfbd24cef67afd3764276c6980e0f88f8e9ca57f59b7f12fe1a9c1e72f4710",
            "9cddd089ffe70e3996e76f7c8d06746df34d07e8657bc0fcf2bb0e1c3084aea1",
            "6b464f13a6ac396a68e9a6bcdba79773e8f89c3e2d81998349f981536bf690d4",
        ],
    );
}

#[test]
fn ml_kem_1024_known_answers() {
    known_answers(
        ParameterSet::ml_kem_1024(),
        [1568, 3168, 1568],
        [
            "61349e5c131a7e116a0463861d7d18663c5627c38c7147ddaadfd48acd7a4535",
            "f0db5d938027fcd9bad87847d52c14cf0c4abcf0703b749793f212111ffb303b",
            "c1579fa02c614f3762b2a799b51e41cebb8f820f34fa736af02c56de2460ce3c",
            "0ad8d1ea1b8dd788979b4379581218df9321bdce5567eca42ae6be7d395f1a54",
            "ee784353c7c8594d156af3ed8008aa72e0d8d0b5beeead4d9ef6ee4d152a925c",
        ],
    );
}

#[test]
fn default_functions_use_ml_kem_768() {
    let (d, z, m) = seeds();
    let p = ParameterSet::ml_kem_768();
    let (ek, dk) = keygen_internal(d.clone(), z.clone());
    assert_eq!((ek.clone(), dk.clone()), p.keygen_internal(d, z));
    let (k, c) = encaps_internal(ek.clone(), m.clone()).unwrap();
    assert_eq!((k.clone(), c.clone()), p.encaps_internal(ek, m).unwrap());
    assert_eq!(decaps_internal(dk, c).unwrap(), k);
}

#[test]
fn random_round_trip_for_every_parameter_set() {
    for p in [ParameterSet::ml_kem_512(), ParameterSet::ml_kem_768(), ParameterSet::ml_kem_1024()] {
        let (ek, dk) = p.keygen();
        let (k, c) = p.encaps(ek).unwrap();
        assert_eq!(p.decaps(dk, c).unwrap(), k);
    }
}

#[test]
fn keys_of_another_parameter_set_are_rejected() {
    let (d, z, m) = seeds();
    let small = ParameterSet::ml_kem_512();
    let large = ParameterSet::ml_kem_1024();
    let (ek, dk) = small.keygen_internal(d, z);
    assert_eq!(large.encaps_internal(ek.clone(), m.clone()), Err(MlKemError::InvalidInputLength));
    let (_, c) = small.encaps_internal(ek, m).unwrap();
    assert_eq!(large.decaps_internal(dk.clone(), c.clone()), Err(MlKemError::InvalidInputLength));
    assert_eq!(small.decaps(dk, c[..767].to_vec()), Err(MlKemError::InvalidInputLength));
}

#[test]
fn unreduced_coefficient_is_rejected_in_every_parameter_set() {
    let (d, z, m) = seeds();
    for p in [ParameterSet::ml_kem_512(), ParameterSet::ml_kem_768(), ParameterSet::ml_kem_1024()] {
        let (ek, _) = p.keygen_internal(d.clone(), z.clone());
        let last = 384 * p.k - 1;
        let mut bad = ek.clone();
        bad[last] = 0xFF;
        bad[last - 1] |= 0xF0;
        assert_eq!(p.encaps_internal(bad, m.clone()), Err(MlKemError::InvalidKeyEncoding));
        let mut seed_changed = ek;
        seed_changed[last + 1] ^= 0xFF;
        assert!(p.encaps_internal(seed_changed, m.clone()).is_ok());
    }
}
