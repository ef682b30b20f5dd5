//! The key-encapsulation mechanism: key generation, encapsulation, and
//! decapsulation with implicit rejection.
//!
//! Keys and ciphertexts are byte strings carried in 16-bit cells; of each cell
//! only the low eight bits are read.

use vstd::prelude::*;
use crate::constant::Q;
use crate::constant::ParameterSet;
use crate::constant::ml_kem_768;
use crate::constant::lemma_parameter_ranges;
use crate::encode::decode_raw;
use crate::encode::raw_decode_spec;
use crate::helper::sha3_256;
use crate::helper::sha3_512;
use crate::helper::shake256;
use crate::helper::widen;
use crate::helper::narrow;
use crate::helper::h;
use crate::helper::g;
use crate::helper::j;
use crate::helper::random_bytes;
use crate::helper::to_cells;
use crate::helper::to_bytes;
use crate::helper::slice_cells;
use crate::helper::append_cells;
use crate::helper::append_bytes;
use crate::kpke::kpke_key_gen_spec;
use crate::kpke::kpke_enc_spec;
use crate::kpke::kpke_dec_spec;

verus! {

/// The ways in which an input is rejected.
#[derive(Debug, Clone, Copy, PartialEq, Eq, Structural)]
pub enum MlKemError {
    /// A key or a ciphertext does not have the length that the parameter set
    /// fixes.
    InvalidInputLength,
    /// An encapsulation key holds a coefficient that is not below Q.
    InvalidKeyEncoding,
}

/// The key pair derived from the seeds `d` and `z`: the encapsulation key,
/// and the decapsulation key made of the decryption key, the encapsulation
/// key, its hash and `z`.
pub open spec fn keygen_internal_spec(p: ParameterSet, d: Seq<u8>, z: Seq<u16>) -> (
    Seq<u16>,
    Seq<u16>,
) {
    let keys = kpke_key_gen_spec(p, d);
    (keys.0, keys.1 + keys.0 + widen(sha3_256(narrow(keys.0))) + z)
}

/// Every 12-bit coefficient that the encapsulation key holds is below Q.
pub open spec fn ek_coefficients_reduced(k: nat, ek: Seq<u16>) -> bool {
    forall|i: int, j: int|
        0 <= i < k && 0 <= j < 256 ==> #[trigger] raw_decode_spec(
            12,
            ek.subrange(384 * i, 384 * (i + 1)),
        )[j] < 3329
}

/// The shared secret and the ciphertext that encapsulation derives from the
/// key `ek` and the message `m`.
pub open spec fn encaps_spec(p: ParameterSet, ek: Seq<u16>, m: Seq<u8>) -> (Seq<u8>, Seq<u16>) {
    let seed = sha3_512(m + sha3_256(narrow(ek)));
    (seed.subrange(0, 32), kpke_enc_spec(p, ek, widen(m), seed.subrange(32, 64)))
}

/// The message that decapsulation decrypts from the ciphertext.
pub open spec fn decaps_message(p: ParameterSet, dk: Seq<u16>, c: Seq<u16>) -> Seq<u16> {
    kpke_dec_spec(p, dk.subrange(0, 384 * p.k as int), c)
}

/// The hash from which decapsulation takes the candidate secret and the
/// randomness of the second encryption.
pub open spec fn decaps_seed(p: ParameterSet, dk: Seq<u16>, c: Seq<u16>) -> Seq<u8> {
    sha3_512(narrow(decaps_message(p, dk, c) + dk.subrange(768 * p.k + 32, 768 * p.k + 64)))
}

/// The ciphertext that decapsulation obtains by encrypting the decrypted
/// message again.
pub open spec fn decaps_ciphertext(p: ParameterSet, dk: Seq<u16>, c: Seq<u16>) -> Seq<u16> {
    kpke_enc_spec(
        p,
        dk.subrange(384 * p.k as int, 768 * p.k + 32),
        decaps_message(p, dk, c),
        decaps_seed(p, dk, c).subrange(32, 64),
    )
}

/// The secret that stands in when the ciphertext is rejected: a hash of the
/// rejection seed `z` and the ciphertext.
pub open spec fn rejection_secret(p: ParameterSet, dk: Seq<u16>, c: Seq<u16>) -> Seq<u8> {
    shake256(narrow(dk.subrange(768 * p.k + 64, 768 * p.k + 96) + c), 32)
}

/// The shared secret that decapsulation returns: the candidate secret if the
/// second encryption gives the ciphertext again, the rejection secret if not.
pub open spec fn decaps_spec(p: ParameterSet, dk: Seq<u16>, c: Seq<u16>) -> Seq<u8> {
    if c == decaps_ciphertext(p, dk, c) {
        decaps_seed(p, dk, c).subrange(0, 32)
    } else {
        rejection_secret(p, dk, c)
    }
}

/// What encapsulation owes: a key of the wrong length and a key with a
/// coefficient that is not below Q are rejected, each with its error, and
/// for any other key the secret and the ciphertext are those of the message
/// `m`.
pub open spec fn encaps_result(
    p: ParameterSet,
    ek: Seq<u16>,
    m: Seq<u8>,
    r: Result<(Vec<u8>, Vec<u16>), MlKemError>,
) -> bool {
    if ek.len() != p.ek_len() {
        r == Err::<(Vec<u8>, Vec<u16>), MlKemError>(MlKemError::InvalidInputLength)
    } else if !ek_coefficients_reduced(p.k as nat, ek) {
        r == Err::<(Vec<u8>, Vec<u16>), MlKemError>(MlKemError::InvalidKeyEncoding)
    } else {
        &&& r.is_ok()
        &&& r.unwrap().0@ == encaps_spec(p, ek, m).0
        &&& r.unwrap().1@ == encaps_spec(p, ek, m).1
        &&& r.unwrap().0.len() == 32
        &&& r.unwrap().1.len() == p.ct_len()
    }
}

/// What decapsulation owes: a key or a ciphertext of the wrong length is
/// rejected, and for any other input the secret is that of `decaps_spec`.
pub open spec fn decaps_result(
    p: ParameterSet,
    dk: Seq<u16>,
    c: Seq<u16>,
    r: Result<Vec<u8>, MlKemError>,
) -> bool {
    if dk.len() != p.dk_len() || c.len() != p.ct_len() {
        r == Err::<Vec<u8>, MlKemError>(MlKemError::InvalidInputLength)
    } else {
        &&& r.is_ok()
        &&& r.unwrap()@ == decaps_spec(p, dk, c)
        &&& r.unwrap().len() == 32
    }
}

/// Whether every 12-bit coefficient among the first `384 * k` bytes of the
/// encapsulation key is below Q.
pub fn coefficients_reduced(k: usize, ek: &Vec<u16>) -> (ok: bool)
    requires
        k <= 4,
        ek.len() >= 384 * k,
    ensures
        ok == ek_coefficients_reduced(k as nat, ek@),
{
    let mut ok = true;
    let mut i: usize = 0;
    while i < k
        invariant
            i <= k <= 4,
            ek.len() >= 384 * k,
            ok == (forall|s: int, t: int|
                0 <= s < i && 0 <= t < 256 ==> #[trigger] raw_decode_spec(
                    12,
                    ek@.subrange(384 * s, 384 * (s + 1)),
                )[t] < 3329),
        decreases k - i,
    {
        let raw = decode_raw(12, slice_cells(ek, 384 * i, 384 * (i + 1)));
        let ghost part = raw_decode_spec(12, ek@.subrange(384 * i, 384 * (i + 1)));
        let mut t: usize = 0;
        let mut part_ok = true;
        while t < 256
            invariant
                t <= 256,
                raw.len() == 256,
                raw@ == part,
                part_ok == (forall|p: int| 0 <= p < t ==> part[p] < 3329),
            decreases 256 - t,
        {
            if raw[t] >= Q {
                part_ok = false;
            }
            t = t + 1;
        }
        ok = ok && part_ok;
        i = i + 1;
    }
    ok
}

/// A mask that tells whether two byte strings differ, computed without a
/// branch on their contents: 0 if they are equal, 255 if they differ.
pub fn difference_mask(a: &Vec<u16>, b: &Vec<u16>) -> (mask: u8)
    requires
        a.len() == b.len(),
    ensures
        mask == (if a@ == b@ {
            0u8
        } else {
            255u8
        }),
{
    let mut acc: u16 = 0;
    let mut i: usize = 0;
    while i < a.len()
        invariant
            i <= a.len(),
            a.len() == b.len(),
            (acc == 0) == (forall|t: int| 0 <= t < i ==> a[t] == b[t]),
        decreases a.len() - i,
    {
        let x: u16 = a[i];
        let y: u16 = b[i];
        let next: u16 = acc | (x ^ y);
        assert((next == 0) == (acc == 0 && x == y)) by (bit_vector)
            requires
                next == acc | (x ^ y),
        ;
        acc = next;
        i = i + 1;
    }
    let flag: u16 = (acc | 0u16.wrapping_sub(acc)) >> 15;
    let mask: u8 = 0u8.wrapping_sub(flag as u8);
    proof {
        let neg: u16 = 0u16.wrapping_sub(acc);
        assert(neg == (if acc == 0 { 0u16 } else { (65536 - acc) as u16 }));
        assert(flag == (if acc == 0 { 0u16 } else { 1u16 })) by (bit_vector)
            requires
                flag == (acc | neg) >> 15,
                neg == (if acc == 0 { 0u16 } else { (65536 - acc) as u16 }),
        ;
        if a@ == b@ {
            assert(acc == 0);
        } else {
            if acc == 0 {
                assert(a@ =~= b@);
            }
        }
    }
    mask
}

/// Chooses between two byte strings by a mask, without a branch: `first`
/// where the mask is 0, `second` where it is 255.
pub fn select_bytes(mask: u8, first: &Vec<u8>, second: &Vec<u8>) -> (r: Vec<u8>)
    requires
        mask == 0 || mask == 255,
        first.len() == second.len(),
    ensures
        r@ == (if mask == 0 {
            first@
        } else {
            second@
        }),
{
    let mut r: Vec<u8> = Vec::new();
    let mut i: usize = 0;
    while i < first.len()
        invariant
            i <= first.len(),
            mask == 0 || mask == 255,
            first.len() == second.len(),
            r.len() == i,
            forall|t: int| 0 <= t < i ==> r[t] == (if mask == 0 { first[t] } else { second[t] }),
        decreases first.len() - i,
    {
        let x: u8 = first[i];
        let y: u8 = second[i];
        let chosen: u8 = (x & !mask) | (y & mask);
        assert(chosen == (if mask == 0 { x } else { y })) by (bit_vector)
            requires
                chosen == (x & !mask) | (y & mask),
                mask == 0 || mask == 255,
        ;
        r.push(chosen);
        i = i + 1;
    }
    proof {
        if mask == 0 {
            assert(r@ =~= first@);
        } else {
            assert(r@ =~= second@);
        }
    }
    r
}

impl ParameterSet {
    /// Derives an encapsulation key and the matching decapsulation key from
    /// the seeds `d` and `z` of 32 bytes each.
    pub fn keygen_internal(&self, d: Vec<u8>, z: Vec<u16>) -> (keys: (Vec<u16>, Vec<u16>))
        requires
            self.wf(),
            d.len() == 32,
            z.len() == 32,
        ensures
            keys.0@ == keygen_internal_spec(*self, d@, z@).0,
            keys.1@ == keygen_internal_spec(*self, d@, z@).1,
            keys.0.len() == self.ek_len(),
            keys.1.len() == self.dk_len(),
    {
        let (ek, dk_pke) = self.kpke_key_gen(d);
        let mut dk = dk_pke;
        append_cells(&mut dk, &ek);
        let digest = to_cells(&h(to_bytes(&ek)));
        append_cells(&mut dk, &digest);
        append_cells(&mut dk, &z);
        (ek, dk)
    }

    /// Derives a shared secret and a ciphertext from the encapsulation key
    /// `ek` and the message `m` of 32 bytes. A key of the wrong length or
    /// with a coefficient that is not below Q is rejected.
    pub fn encaps_internal(&self, ek: Vec<u16>, m: Vec<u8>) -> (r: Result<
        (Vec<u8>, Vec<u16>),
        MlKemError,
    >)
        requires
            self.wf(),
            m.len() == 32,
        ensures
            encaps_result(*self, ek@, m@, r),
    {
        proof {
            lemma_parameter_ranges(*self);
        }
        if ek.len() != self.encapsulation_key_length() {
            return Err(MlKemError::InvalidInputLength);
        }
        if !coefficients_reduced(self.k, &ek) {
            return Err(MlKemError::InvalidKeyEncoding);
        }
        let mut seed = m;
        let digest = h(to_bytes(&ek));
        let cells = to_cells(&seed);
        append_bytes(&mut seed, &digest);
        let (k, r) = g(seed);
        let c = self.kpke_enc(ek, cells, r);
        Ok((k, c))
    }

    /// Recovers the shared secret from the ciphertext `c` with the
    /// decapsulation key `dk`. A key or a ciphertext of the wrong length is
    /// rejected. A ciphertext that the key did not produce yields the
    /// rejection secret.
    pub fn decaps_internal(&self, dk: Vec<u16>, c: Vec<u16>) -> (r: Result<Vec<u8>, MlKemError>)
        requires
            self.wf(),
        ensures
            decaps_result(*self, dk@, c@, r),
    {
        proof {
            lemma_parameter_ranges(*self);
        }
        if dk.len() != self.decapsulation_key_length() || c.len() != self.ciphertext_length() {
            return Err(MlKemError::InvalidInputLength);
        }
        let k = self.k;
        let dk_pke = slice_cells(&dk, 0, 384 * k);
        let ek_pke = slice_cells(&dk, 384 * k, 768 * k + 32);
        let digest = slice_cells(&dk, 768 * k + 32, 768 * k + 64);
        let mut z = slice_cells(&dk, 768 * k + 64, 768 * k + 96);
        let c_copy = slice_cells(&c, 0, c.len());
        proof {
            assert(c_copy@ =~= c@);
        }
        let m = self.kpke_dec(dk_pke, c_copy);
        let mut seed = slice_cells(&m, 0, m.len());
        proof {
            assert(seed@ =~= m@);
        }
        append_cells(&mut seed, &digest);
        let (k_candidate, r_candidate) = g(to_bytes(&seed));
        append_cells(&mut z, &c);
        let k_rejection = j(to_bytes(&z));
        let c_again = self.kpke_enc(ek_pke, m, r_candidate);
        let mask = difference_mask(&c, &c_again);
        Ok(select_bytes(mask, &k_candidate, &k_rejection))
    }

    /// Generates an encapsulation key and the matching decapsulation key
    /// from fresh randomness.
    pub fn keygen(&self) -> (keys: (Vec<u16>, Vec<u16>))
        requires
            self.wf(),
        ensures
            exists|d: Seq<u8>, z: Seq<u16>|
                d.len() == 32 && z.len() == 32 && keys.0@ == keygen_internal_spec(*self, d, z).0
                    && keys.1@ == keygen_internal_spec(*self, d, z).1,
            keys.0.len() == self.ek_len(),
            keys.1.len() == self.dk_len(),
    {
        let d = random_bytes(32);
        let z = to_cells(&random_bytes(32));
        let ghost seed_d = d@;
        let ghost seed_z = z@;
        let keys = self.keygen_internal(d, z);
        proof {
            assert(seed_d.len() == 32 && seed_z.len() == 32 && keys.0@ == keygen_internal_spec(
                *self,
                seed_d,
                seed_z,
            ).0 && keys.1@ == keygen_internal_spec(*self, seed_d, seed_z).1);
        }
        keys
    }

    /// Derives a shared secret and a ciphertext from the encapsulation key
    /// `ek` and a fresh random message. A key of the wrong length or with a
    /// coefficient that is not below Q is rejected.
    pub fn encaps(&self, ek: Vec<u16>) -> (r: Result<(Vec<u8>, Vec<u16>), MlKemError>)
        requires
            self.wf(),
        ensures
            exists|m: Seq<u8>| m.len() == 32 && encaps_result(*self, ek@, m, r),
    {
        let m = random_bytes(32);
        let ghost message = m@;
        let ghost key = ek@;
        let r = self.encaps_internal(ek, m);
        proof {
            assert(message.len() == 32 && encaps_result(*self, key, message, r));
        }
        r
    }

    /// Recovers the shared secret from the ciphertext `c` with the
    /// decapsulation key `dk`. A key or a ciphertext of the wrong length is
    /// rejected. A ciphertext that the key did not produce yields the
    /// rejection secret.
    pub fn decaps(&self, dk: Vec<u16>, c: Vec<u16>) -> (r: Result<Vec<u8>, MlKemError>)
        requires
            self.wf(),
        ensures
            decaps_result(*self, dk@, c@, r),
    {
        self.decaps_internal(dk, c)
    }
}

/// Derives an encapsulation key and the matching decapsulation key of
/// ML-KEM-768 from the seeds `d` and `z` of 32 bytes each.
pub fn keygen_internal(d: Vec<u8>, z: Vec<u16>) -> (keys: (Vec<u16>, Vec<u16>))
    requires
        d.len() == 32,
        z.len() == 32,
    ensures
        keys.0@ == keygen_internal_spec(ml_kem_768(), d@, z@).0,
        keys.1@ == keygen_internal_spec(ml_kem_768(), d@, z@).1,
        keys.0.len() == 1184,
        keys.1.len() == 2400,
{
    ParameterSet::ml_kem_768().keygen_internal(d, z)
}

/// Derives a shared secret and a ciphertext from the encapsulation key `ek`
/// of ML-KEM-768 and the message `m` of 32 bytes. A key of the wrong length
/// or with a coefficient that is not below Q is rejected.
pub fn encaps_internal(ek: Vec<u16>, m: Vec<u8>) -> (r: Result<(Vec<u8>, Vec<u16>), MlKemError>)
    requires
        m.len() == 32,
    ensures
        encaps_result(ml_kem_768(), ek@, m@, r),
{
    ParameterSet::ml_kem_768().encaps_internal(ek, m)
}

/// Recovers the shared secret from the ciphertext `c` with the decapsulation
/// key `dk` of ML-KEM-768. A key or a ciphertext of the wrong length is
/// rejected. A ciphertext that the key did not produce yields the rejection
/// secret.
pub fn decaps_internal(dk: Vec<u16>, c: Vec<u16>) -> (r: Result<Vec<u8>, MlKemError>)
    ensures
        decaps_result(ml_kem_768(), dk@, c@, r),
{
    ParameterSet::ml_kem_768().decaps_internal(dk, c)
}

/// Generates an encapsulation key and the matching decapsulation key of
/// ML-KEM-768 from fresh randomness.
pub fn keygen() -> (keys: (Vec<u16>, Vec<u16>))
    ensures
        exists|d: Seq<u8>, z: Seq<u16>|
            d.len() == 32 && z.len() == 32 && keys.0@ == keygen_internal_spec(ml_kem_768(), d, z).0
                && keys.1@ == keygen_internal_spec(ml_kem_768(), d, z).1,
        keys.0.len() == 1184,
        keys.1.len() == 2400,
{
    ParameterSet::ml_kem_768().keygen()
}

/// Derives a shared secret and a ciphertext from the encapsulation key `ek`
/// of ML-KEM-768 and a fresh random message. A key of the wrong length or
/// with a coefficient that is not below Q is rejected.
pub fn encaps(ek: Vec<u16>) -> (r: Result<(Vec<u8>, Vec<u16>), MlKemError>)
    ensures
        exists|m: Seq<u8>| m.len() == 32 && encaps_result(ml_kem_768(), ek@, m, r),
{
    ParameterSet::ml_kem_768().encaps(ek)
}

/// Recovers the shared secret from the ciphertext `c` with the decapsulation
/// key `dk` of ML-KEM-768. A key or a ciphertext of the wrong length is
/// rejected. A ciphertext that the key did not produce yields the rejection
/// secret.
pub fn decaps(dk: Vec<u16>, c: Vec<u16>) -> (r: Result<Vec<u8>, MlKemError>)
    ensures
        decaps_result(ml_kem_768(), dk@, c@, r),
{
    ParameterSet::ml_kem_768().decaps(dk, c)
}

/// The low bytes of widened bytes are the bytes.
pub proof fn lemma_narrow_widen(s: Seq<u8>)
    ensures
        narrow(widen(s)) == s,
{
    assert(narrow(widen(s)) =~= s);
}

/// The key pair of key generation is laid out as decapsulation reads it: the
/// decapsulation key holds the decryption key, the encapsulation key, its
/// hash and the rejection seed.
pub proof fn lemma_keygen_layout(p: ParameterSet, d: Seq<u8>, z: Seq<u16>)
    requires
        kpke_key_gen_spec(p, d).0.len() == p.ek_len(),
        kpke_key_gen_spec(p, d).1.len() == 384 * p.k,
        sha3_256(narrow(kpke_key_gen_spec(p, d).0)).len() == 32,
        z.len() == 32,
    ensures
        ({
            let keys = keygen_internal_spec(p, d, z);
            &&& keys.1.len() == p.dk_len()
            &&& keys.1.subrange(0, 384 * p.k as int) == kpke_key_gen_spec(p, d).1
            &&& keys.1.subrange(384 * p.k as int, 768 * p.k + 32) == keys.0
            &&& keys.1.subrange(768 * p.k + 32, 768 * p.k + 64) == widen(
                sha3_256(narrow(keys.0)),
            )
            &&& keys.1.subrange(768 * p.k + 64, 768 * p.k + 96) == z
        }),
{
    let keys = keygen_internal_spec(p, d, z);
    assert(keys.1.subrange(0, 384 * p.k as int) =~= kpke_key_gen_spec(p, d).1);
    assert(keys.1.subrange(384 * p.k as int, 768 * p.k + 32) =~= keys.0);
    assert(keys.1.subrange(768 * p.k + 32, 768 * p.k + 64) =~= widen(sha3_256(narrow(keys.0))));
    assert(keys.1.subrange(768 * p.k + 64, 768 * p.k + 96) =~= z);
}

/// Decapsulation undoes encapsulation whenever decryption undoes encryption:
/// for a decapsulation key `dk` that holds the encapsulation key `ek` and its
/// hash, and the secret and ciphertext that encapsulation derives from `ek`
/// and a message `m`, if decrypting the ciphertext gives `m` again, then
/// decapsulation returns the secret.
pub proof fn lemma_decaps_encaps(p: ParameterSet, dk: Seq<u16>, ek: Seq<u16>, m: Seq<u8>)
    requires
        dk.subrange(384 * p.k as int, 768 * p.k + 32) == ek,
        dk.subrange(768 * p.k + 32, 768 * p.k + 64) == widen(sha3_256(narrow(ek))),
        decaps_message(p, dk, encaps_spec(p, ek, m).1) == widen(m),
    ensures
        decaps_spec(p, dk, encaps_spec(p, ek, m).1) == encaps_spec(p, ek, m).0,
{
    let c = encaps_spec(p, ek, m).1;
    let digest = sha3_256(narrow(ek));
    lemma_narrow_widen(m);
    lemma_narrow_widen(digest);
    assert(narrow(widen(m) + widen(digest)) =~= narrow(widen(m)) + narrow(widen(digest)));
    assert(decaps_seed(p, dk, c) == sha3_512(m + digest));
}

/// Key generation, encapsulation and decapsulation agree on the shared
/// secret whenever decryption undoes encryption: for the key pair derived
/// from seeds `d` and `z` and the secret and ciphertext derived from the
/// encapsulation key and a message `m`, if decrypting the ciphertext with the
/// decryption key gives `m` again, then decapsulation returns the secret.
pub proof fn lemma_keygen_encaps_decaps(p: ParameterSet, d: Seq<u8>, z: Seq<u16>, m: Seq<u8>)
    requires
        z.len() == 32,
        kpke_key_gen_spec(p, d).0.len() == p.ek_len(),
        kpke_key_gen_spec(p, d).1.len() == 384 * p.k,
        sha3_256(narrow(kpke_key_gen_spec(p, d).0)).len() == 32,
        kpke_dec_spec(
            p,
            kpke_key_gen_spec(p, d).1,
            encaps_spec(p, kpke_key_gen_spec(p, d).0, m).1,
        ) == widen(m),
    ensures
        ({
            let keys = keygen_internal_spec(p, d, z);
            let shared = encaps_spec(p, keys.0, m);
            decaps_spec(p, keys.1, shared.1) == shared.0
        }),
{
    let keys = keygen_internal_spec(p, d, z);
    lemma_keygen_layout(p, d, z);
    lemma_decaps_encaps(p, keys.1, keys.0, m);
}

/// Implicit rejection: a ciphertext that the second encryption does not
/// reproduce yields the rejection secret, which depends on the rejection
/// seed in the key and on the ciphertext alone.
pub proof fn lemma_implicit_rejection(p: ParameterSet, dk: Seq<u16>, c: Seq<u16>)
    requires
        c != decaps_ciphertext(p, dk, c),
    ensures
        decaps_spec(p, dk, c) == shake256(
            narrow(dk.subrange(768 * p.k + 64, 768 * p.k + 96) + c),
            32,
        ),
{
}

} // verus!
