//! The public-key encryption scheme K-PKE that the key-encapsulation
//! mechanism is built on.

use vstd::prelude::*;
use crate::constant::ParameterSet;
use crate::constant::ml_kem_768;
use crate::constant::lemma_parameter_ranges;
use crate::encode::bytes_encode;
use crate::encode::bytes_decode;
use crate::encode::bytes_encode_spec;
use crate::encode::bytes_decode_spec;
use crate::helper::sha3_512;
use crate::helper::shake256;
use crate::helper::widen;
use crate::helper::narrow;
use crate::helper::g;
use crate::helper::prf;
use crate::helper::compress;
use crate::helper::decompress;
use crate::helper::compress_seq;
use crate::helper::decompress_seq;
use crate::helper::copy_bytes;
use crate::helper::to_cells;
use crate::helper::to_bytes;
use crate::helper::slice_cells;
use crate::helper::append_cells;
use crate::matrix::Matrix;
use crate::matrix::vec_view;
use crate::matrix::vec_wf;
use crate::matrix::vec_add_spec;
use crate::matrix::mat_vec_spec;
use crate::matrix::dot_spec;
use crate::matrix::dot;
use crate::poly::Polynomial;
use crate::poly::sample_ntt;
use crate::poly::sample_ntt_spec;
use crate::poly::sample_poly_cbd;
use crate::poly::sample_poly_cbd_spec;
use crate::poly::ntt_spec;
use crate::poly::intt_spec;
use crate::poly::poly_add;
use crate::poly::poly_sub;
use crate::poly::cells;
use crate::poly::cell_values;

verus! {

/// The matrix drawn from the seed `rho`: the entry in row `r` and column `c`
/// is sampled from the stream for `rho` followed by the bytes `c` and `r`.
pub open spec fn matrix_spec(k: nat, rho: Seq<u8>) -> Seq<Seq<Seq<int>>> {
    Seq::new(
        k,
        |r: int| Seq::new(k, |c: int| sample_ntt_spec(rho.push(c as u8).push(r as u8))),
    )
}

/// The matrix with rows and columns exchanged.
pub open spec fn transpose_spec(k: nat, a: Seq<Seq<Seq<int>>>) -> Seq<Seq<Seq<int>>> {
    Seq::new(k, |i: int| Seq::new(k, |j: int| a[j][i]))
}

/// The noise element drawn from `seed` and the counter byte.
pub open spec fn noise_spec(seed: Seq<u8>, counter: int, eta: nat) -> Seq<int> {
    sample_poly_cbd_spec(widen(shake256(seed.push(counter as u8), 64 * eta)), eta)
}

/// The vector of `k` noise elements drawn with the counters `first`,
/// `first + 1`, ...
pub open spec fn noise_vec_spec(k: nat, seed: Seq<u8>, first: int, eta: nat) -> Seq<Seq<int>> {
    Seq::new(k, |i: int| noise_spec(seed, first + i, eta))
}

/// Every entry transformed.
pub open spec fn vec_ntt_spec(v: Seq<Seq<int>>) -> Seq<Seq<int>> {
    Seq::new(v.len(), |i: int| ntt_spec(v[i]))
}

/// Every entry transformed back.
pub open spec fn vec_intt_spec(v: Seq<Seq<int>>) -> Seq<Seq<int>> {
    Seq::new(v.len(), |i: int| intt_spec(v[i]))
}

/// The 12-bit encodings of the first `n` entries, one after the other.
pub open spec fn encode_vec_spec(v: Seq<Seq<int>>, n: nat) -> Seq<u16>
    decreases n,
{
    if n == 0 {
        Seq::<u16>::empty()
    } else {
        encode_vec_spec(v, (n - 1) as nat) + bytes_encode_spec(12, cells(v[n - 1]))
    }
}

/// The vector of `k` entries whose entry `i` is decoded from the bytes
/// `[384 i, 384 (i + 1))`.
pub open spec fn decode_vec_spec(k: nat, bytes: Seq<u16>) -> Seq<Seq<int>> {
    Seq::new(
        k,
        |i: int| cell_values(bytes_decode_spec(12, bytes.subrange(384 * i, 384 * (i + 1)))),
    )
}

/// The `d`-bit encodings of the compressed first `n` entries, one after the
/// other.
pub open spec fn compress_vec_spec(d: nat, v: Seq<Seq<int>>, n: nat) -> Seq<u16>
    decreases n,
{
    if n == 0 {
        Seq::<u16>::empty()
    } else {
        compress_vec_spec(d, v, (n - 1) as nat) + bytes_encode_spec(
            d,
            compress_seq(cells(v[n - 1]), d),
        )
    }
}

/// The vector of `k` entries whose entry `i` is decoded from the bytes
/// `[32 d i, 32 d (i + 1))` and decompressed.
pub open spec fn decompress_vec_spec(k: nat, d: nat, bytes: Seq<u16>) -> Seq<Seq<int>> {
    Seq::new(
        k,
        |i: int|
            cell_values(
                decompress_seq(
                    bytes_decode_spec(d, bytes.subrange(32 * d * i, 32 * d * (i + 1))),
                    d,
                ),
            ),
    )
}

/// The key pair that key generation derives from the seed `d`: the
/// encryption key and the decryption key.
pub open spec fn kpke_key_gen_spec(p: ParameterSet, d: Seq<u8>) -> (Seq<u16>, Seq<u16>) {
    let k = p.k as nat;
    let seed = sha3_512(d.push(p.k as u8));
    let rho = seed.subrange(0, 32);
    let sigma = seed.subrange(32, 64);
    let a = matrix_spec(k, rho);
    let s = vec_ntt_spec(noise_vec_spec(k, sigma, 0, p.eta1 as nat));
    let e = vec_ntt_spec(noise_vec_spec(k, sigma, p.k as int, p.eta1 as nat));
    let t = vec_add_spec(mat_vec_spec(a, s), e);
    (encode_vec_spec(t, k) + widen(rho), encode_vec_spec(s, k))
}

/// The ciphertext of the message `m` under the encryption key `ek` with the
/// randomness `r`.
pub open spec fn kpke_enc_spec(p: ParameterSet, ek: Seq<u16>, m: Seq<u16>, r: Seq<u8>) -> Seq<
    u16,
> {
    let k = p.k as nat;
    let t = decode_vec_spec(k, ek);
    let rho = narrow(ek.subrange(384 * p.k as int, 384 * p.k + 32));
    let a = matrix_spec(k, rho);
    let y = vec_ntt_spec(noise_vec_spec(k, r, 0, p.eta1 as nat));
    let e1 = noise_vec_spec(k, r, p.k as int, p.eta2 as nat);
    let e2 = noise_spec(r, 2 * p.k as int, p.eta2 as nat);
    let u = vec_add_spec(vec_intt_spec(mat_vec_spec(transpose_spec(k, a), y)), e1);
    let mu = cell_values(decompress_seq(bytes_decode_spec(1, m), 1));
    let v = poly_add(poly_add(intt_spec(dot_spec(t, y, k)), e2), mu);
    compress_vec_spec(p.du as nat, u, k) + bytes_encode_spec(
        p.dv as nat,
        compress_seq(cells(v), p.dv as nat),
    )
}

/// The message that the decryption key `dk` recovers from the ciphertext `c`.
pub open spec fn kpke_dec_spec(p: ParameterSet, dk: Seq<u16>, c: Seq<u16>) -> Seq<u16> {
    let k = p.k as nat;
    let u = vec_ntt_spec(decompress_vec_spec(k, p.du as nat, c));
    let v = cell_values(
        decompress_seq(
            bytes_decode_spec(p.dv as nat, c.subrange(32 * p.du * p.k as int, p.ct_len())),
            p.dv as nat,
        ),
    );
    let s = decode_vec_spec(k, dk);
    let w = poly_sub(v, intt_spec(dot_spec(s, u, k)));
    bytes_encode_spec(1, compress_seq(cells(w), 1))
}

/// Draws the matrix from the seed `rho`.
pub fn sample_matrix(k: usize, rho: &Vec<u8>) -> (a: Matrix)
    requires
        k <= 4,
        rho.len() == 32,
    ensures
        a.wf(k as nat, k as nat),
        a@ == matrix_spec(k as nat, rho@),
{
    let mut rows: Vec<Vec<Polynomial>> = Vec::new();
    let mut i: usize = 0;
    while i < k
        invariant
            i <= k,
            rho.len() == 32,
            k <= 4,
            rows.len() == i,
            forall|s: int| 0 <= s < i ==> (#[trigger] rows[s]).len() == k && vec_wf(rows[s]@),
            forall|s: int, t: int|
                0 <= s < i && 0 <= t < k ==> (#[trigger] rows[s][t])@ == sample_ntt_spec(
                    rho@.push(t as u8).push(s as u8),
                ),
        decreases k - i,
    {
        let mut line: Vec<Polynomial> = Vec::new();
        let mut j: usize = 0;
        while j < k
            invariant
                i < k,
                j <= k,
                rho.len() == 32,
                k <= 4,
                line.len() == j,
                vec_wf(line@),
                forall|t: int|
                    0 <= t < j ==> (#[trigger] line[t])@ == sample_ntt_spec(
                        rho@.push(t as u8).push(i as u8),
                    ),
            decreases k - j,
        {
            line.push(sample_ntt(copy_bytes(rho), j as u8, i as u8));
            j = j + 1;
        }
        rows.push(line);
        i = i + 1;
    }
    let a = Matrix::init(rows);
    proof {
        assert(a@ =~~= matrix_spec(k as nat, rho@));
    }
    a
}

/// Draws a vector of noise elements from `seed` with the counters `first`,
/// `first + 1`, ...
pub fn sample_noise_vec(k: usize, seed: &Vec<u8>, first: u8, eta: usize) -> (v: Vec<Polynomial>)
    requires
        eta == 2 || eta == 3,
        k <= 4,
        first + k <= 255,
    ensures
        v.len() == k,
        vec_wf(v@),
        vec_view(v@) == noise_vec_spec(k as nat, seed@, first as int, eta as nat),
{
    let mut v: Vec<Polynomial> = Vec::new();
    let mut i: usize = 0;
    while i < k
        invariant
            i <= k,
            eta == 2 || eta == 3,
            first + k <= 255,
            k <= 4,
            v.len() == i,
            vec_wf(v@),
            forall|t: int|
                0 <= t < i ==> (#[trigger] v[t])@ == noise_spec(seed@, first + t, eta as nat),
        decreases k - i,
    {
        let counter: u8 = first + i as u8;
        v.push(sample_poly_cbd(prf(eta, copy_bytes(seed), counter), eta));
        i = i + 1;
    }
    proof {
        assert(vec_view(v@) =~= noise_vec_spec(k as nat, seed@, first as int, eta as nat));
    }
    v
}

/// Transforms every entry of a vector.
pub fn ntt_vec(v: &Vec<Polynomial>) -> (r: Vec<Polynomial>)
    requires
        vec_wf(v@),
    ensures
        r.len() == v.len(),
        vec_wf(r@),
        vec_view(r@) == vec_ntt_spec(vec_view(v@)),
{
    let mut r: Vec<Polynomial> = Vec::new();
    let mut i: usize = 0;
    while i < v.len()
        invariant
            i <= v.len(),
            vec_wf(v@),
            r.len() == i,
            vec_wf(r@),
            forall|t: int| 0 <= t < i ==> (#[trigger] r[t])@ == ntt_spec(v[t]@),
        decreases v.len() - i,
    {
        proof {
            assert(v[i as int].wf());
        }
        let entry = v[i].clone();
        r.push(entry.ntt());
        i = i + 1;
    }
    proof {
        assert(vec_view(r@) =~= vec_ntt_spec(vec_view(v@)));
    }
    r
}

/// Transforms every entry of a vector back.
pub fn intt_vec(v: &Vec<Polynomial>) -> (r: Vec<Polynomial>)
    requires
        vec_wf(v@),
    ensures
        r.len() == v.len(),
        vec_wf(r@),
        vec_view(r@) == vec_intt_spec(vec_view(v@)),
{
    let mut r: Vec<Polynomial> = Vec::new();
    let mut i: usize = 0;
    while i < v.len()
        invariant
            i <= v.len(),
            vec_wf(v@),
            r.len() == i,
            vec_wf(r@),
            forall|t: int| 0 <= t < i ==> (#[trigger] r[t])@ == intt_spec(v[t]@),
        decreases v.len() - i,
    {
        proof {
            assert(v[i as int].wf());
        }
        let entry = v[i].clone();
        r.push(entry.intt());
        i = i + 1;
    }
    proof {
        assert(vec_view(r@) =~= vec_intt_spec(vec_view(v@)));
    }
    r
}

/// Encodes every entry of a vector with 12 bits for each coefficient.
pub fn encode_vec(v: &Vec<Polynomial>) -> (r: Vec<u16>)
    requires
        v.len() <= 4,
        vec_wf(v@),
    ensures
        r@ == encode_vec_spec(vec_view(v@), v.len() as nat),
        r.len() == 384 * v.len(),
{
    let mut r: Vec<u16> = Vec::new();
    let mut i: usize = 0;
    while i < v.len()
        invariant
            i <= v.len(),
            v.len() <= 4,
            vec_wf(v@),
            r@ == encode_vec_spec(vec_view(v@), i as nat),
            r.len() == 384 * i,
        decreases v.len() - i,
    {
        proof {
            assert(v[i as int].wf());
        }
        let part = bytes_encode(12, v[i].list());
        append_cells(&mut r, &part);
        i = i + 1;
    }
    r
}

/// Decodes a vector of `k` entries from `384 * k` bytes, 12 bits for each
/// coefficient.
pub fn decode_vec(k: usize, bytes: &Vec<u16>) -> (v: Vec<Polynomial>)
    requires
        k <= 4,
        bytes.len() >= 384 * k,
    ensures
        v.len() == k,
        vec_wf(v@),
        vec_view(v@) == decode_vec_spec(k as nat, bytes@),
{
    let mut v: Vec<Polynomial> = Vec::new();
    let mut i: usize = 0;
    while i < k
        invariant
            i <= k,
            bytes.len() >= 384 * k,
            k <= 4,
            v.len() == i,
            vec_wf(v@),
            forall|t: int|
                0 <= t < i ==> (#[trigger] v[t])@ == cell_values(
                    bytes_decode_spec(12, bytes@.subrange(384 * t, 384 * (t + 1))),
                ),
        decreases k - i,
    {
        let part = slice_cells(bytes, 384 * i, 384 * (i + 1));
        let decoded = bytes_decode(12, part);
        v.push(Polynomial::from_cells(&decoded));
        i = i + 1;
    }
    proof {
        assert(vec_view(v@) =~= decode_vec_spec(k as nat, bytes@));
    }
    v
}

/// Compresses every entry of a vector to `d` bits for each coefficient and
/// encodes it.
pub fn compress_vec(d: usize, v: &Vec<Polynomial>) -> (r: Vec<u16>)
    requires
        1 <= d <= 11,
        v.len() <= 4,
        vec_wf(v@),
    ensures
        r@ == compress_vec_spec(d as nat, vec_view(v@), v.len() as nat),
        r.len() == 32 * d * v.len(),
        forall|i: int| 0 <= i < r.len() ==> r[i] < 256,
{
    let mut r: Vec<u16> = Vec::new();
    let mut i: usize = 0;
    while i < v.len()
        invariant
            i <= v.len(),
            1 <= d <= 11,
            v.len() <= 4,
            vec_wf(v@),
            r@ == compress_vec_spec(d as nat, vec_view(v@), i as nat),
            r.len() == 32 * d * i,
            forall|t: int| 0 <= t < r.len() ==> r[t] < 256,
        decreases v.len() - i,
    {
        proof {
            assert(v[i as int].wf());
            assert(32 * d * (i + 1) == 32 * d * i + 32 * d) by (nonlinear_arith);
        }
        let part = bytes_encode(d, compress(v[i].list(), d as u8));
        append_cells(&mut r, &part);
        i = i + 1;
    }
    r
}

/// Decodes a vector of `k` entries from `32 * d * k` bytes, `d` bits for each
/// coefficient, and decompresses it.
pub fn decompress_vec(k: usize, d: usize, bytes: &Vec<u16>) -> (v: Vec<Polynomial>)
    requires
        1 <= d <= 11,
        k <= 4,
        bytes.len() >= 32 * d * k,
    ensures
        v.len() == k,
        vec_wf(v@),
        vec_view(v@) == decompress_vec_spec(k as nat, d as nat, bytes@),
{
    let mut v: Vec<Polynomial> = Vec::new();
    let mut i: usize = 0;
    while i < k
        invariant
            i <= k,
            1 <= d <= 11,
            bytes.len() >= 32 * d * k,
            k <= 4,
            v.len() == i,
            vec_wf(v@),
            forall|t: int|
                0 <= t < i ==> (#[trigger] v[t])@ == cell_values(
                    decompress_seq(
                        bytes_decode_spec(
                            d as nat,
                            bytes@.subrange(32 * d * t, 32 * d * (t + 1)),
                        ),
                        d as nat,
                    ),
                ),
        decreases k - i,
    {
        proof {
            assert(32 * d * (i + 1) == 32 * d * i + 32 * d) by (nonlinear_arith);
            assert(32 * d * (i + 1) <= 32 * d * k) by (nonlinear_arith)
                requires
                    i + 1 <= k,
            ;
        }
        let part = slice_cells(bytes, 32 * d * i, 32 * d * (i + 1));
        let decoded = decompress(bytes_decode(d, part), d as u8);
        v.push(Polynomial::from_cells(&decoded));
        i = i + 1;
    }
    proof {
        assert(vec_view(v@) =~= decompress_vec_spec(k as nat, d as nat, bytes@));
    }
    v
}

/// A copy of a vector of ring elements.
pub fn copy_vec(v: &Vec<Polynomial>) -> (r: Vec<Polynomial>)
    ensures
        r.len() == v.len(),
        forall|i: int| 0 <= i < v.len() ==> (#[trigger] r[i]).coeffs@ == v[i].coeffs@,
        vec_wf(v@) ==> vec_wf(r@),
        vec_view(r@) == vec_view(v@),
{
    let mut r: Vec<Polynomial> = Vec::new();
    let mut i: usize = 0;
    while i < v.len()
        invariant
            i <= v.len(),
            r.len() == i,
            forall|t: int| 0 <= t < i ==> (#[trigger] r[t]).coeffs@ == v[t].coeffs@,
        decreases v.len() - i,
    {
        r.push(v[i].clone());
        i = i + 1;
    }
    proof {
        assert(vec_view(r@) =~= vec_view(v@));
        if vec_wf(v@) {
            assert forall|t: int| 0 <= t < r.len() implies (#[trigger] r[t]).wf() by {
                assert(v[t].wf());
            }
        }
    }
    r
}

impl ParameterSet {
    /// Generates an encryption key and the matching decryption key from a
    /// seed of 32 bytes.
    pub fn kpke_key_gen(&self, bytes: Vec<u8>) -> (keys: (Vec<u16>, Vec<u16>))
        requires
            self.wf(),
            bytes.len() == 32,
        ensures
            keys.0@ == kpke_key_gen_spec(*self, bytes@).0,
            keys.1@ == kpke_key_gen_spec(*self, bytes@).1,
            keys.0.len() == self.ek_len(),
            keys.1.len() == 384 * self.k,
    {
        proof {
            lemma_parameter_ranges(*self);
        }
        let k = self.k;
        let mut seed = bytes;
        seed.push(k as u8);
        let (rho, sigma) = g(seed);
        let a = sample_matrix(k, &rho);
        let s = sample_noise_vec(k, &sigma, 0, self.eta1);
        let e = sample_noise_vec(k, &sigma, k as u8, self.eta1);
        let s_hat = ntt_vec(&s);
        let e_hat = ntt_vec(&e);
        let t_hat = crate::matrix::add(crate::matrix::mul(&a, copy_vec(&s_hat)), e_hat);
        let mut ek_pke = encode_vec(&t_hat);
        let rho_cells = to_cells(&rho);
        append_cells(&mut ek_pke, &rho_cells);
        let dk_pke = encode_vec(&s_hat);
        (ek_pke, dk_pke)
    }

    /// Encrypts the message `m` of 32 bytes under the encryption key
    /// `ek_pke` with the randomness `r` of 32 bytes.
    pub fn kpke_enc(&self, ek_pke: Vec<u16>, m: Vec<u16>, r: Vec<u8>) -> (c: Vec<u16>)
        requires
            self.wf(),
            ek_pke.len() == self.ek_len(),
            m.len() == 32,
            r.len() == 32,
        ensures
            c@ == kpke_enc_spec(*self, ek_pke@, m@, r@),
            c.len() == self.ct_len(),
            forall|i: int| 0 <= i < c.len() ==> c[i] < 256,
    {
        proof {
            lemma_parameter_ranges(*self);
        }
        let k = self.k;
        let t_hat = decode_vec(k, &ek_pke);
        let rho = to_bytes(&slice_cells(&ek_pke, 384 * k, 384 * k + 32));
        let a = sample_matrix(k, &rho);
        let y_hat = ntt_vec(&sample_noise_vec(k, &r, 0, self.eta1));
        let e1 = sample_noise_vec(k, &r, k as u8, self.eta2);
        let e2 = sample_poly_cbd(prf(self.eta2, copy_bytes(&r), (2 * k) as u8), self.eta2);
        let a_t = a.transpose();
        proof {
            assert(a_t@ =~~= transpose_spec(k as nat, a@));
        }
        let u = crate::matrix::add(intt_vec(&crate::matrix::mul(&a_t, copy_vec(&y_hat))), e1);
        let mu = Polynomial::from_cells(&decompress(bytes_decode(1, m), 1));
        let v = dot(&t_hat, &y_hat).intt().add_ref(&e2).add_ref(&mu);
        let mut c = compress_vec(self.du, &u);
        let c2 = bytes_encode(self.dv, compress(v.list(), self.dv as u8));
        append_cells(&mut c, &c2);
        c
    }

    /// Decrypts the ciphertext `c` with the decryption key `pk_pke`.
    pub fn kpke_dec(&self, pk_pke: Vec<u16>, c: Vec<u16>) -> (m: Vec<u16>)
        requires
            self.wf(),
            pk_pke.len() == 384 * self.k,
            c.len() == self.ct_len(),
        ensures
            m@ == kpke_dec_spec(*self, pk_pke@, c@),
            m.len() == 32,
            forall|i: int| 0 <= i < m.len() ==> m[i] < 256,
    {
        proof {
            lemma_parameter_ranges(*self);
        }
        let k = self.k;
        let u_hat = ntt_vec(&decompress_vec(k, self.du, &c));
        let c2 = slice_cells(&c, 32 * self.du * k, c.len());
        let v = Polynomial::from_cells(&decompress(bytes_decode(self.dv, c2), self.dv as u8));
        let s_hat = decode_vec(k, &pk_pke);
        let w = v.sub_ref(&dot(&s_hat, &u_hat).intt());
        bytes_encode(1, compress(w.list(), 1))
    }
}

/// Generates an encryption key and the matching decryption key of ML-KEM-768
/// from a seed of 32 bytes.
pub fn kpke_key_gen(bytes: Vec<u8>) -> (keys: (Vec<u16>, Vec<u16>))
    requires
        bytes.len() == 32,
    ensures
        keys.0@ == kpke_key_gen_spec(ml_kem_768(), bytes@).0,
        keys.1@ == kpke_key_gen_spec(ml_kem_768(), bytes@).1,
        keys.0.len() == 1184,
        keys.1.len() == 1152,
{
    ParameterSet::ml_kem_768().kpke_key_gen(bytes)
}

/// Encrypts the message `m` of 32 bytes under the encryption key `ek_pke` of
/// ML-KEM-768 with the randomness `r` of 32 bytes.
pub fn kpke_enc(ek_pke: Vec<u16>, m: Vec<u16>, r: Vec<u8>) -> (c: Vec<u16>)
    requires
        ek_pke.len() == 1184,
        m.len() == 32,
        r.len() == 32,
    ensures
        c@ == kpke_enc_spec(ml_kem_768(), ek_pke@, m@, r@),
        c.len() == 1088,
        forall|i: int| 0 <= i < c.len() ==> c[i] < 256,
{
    ParameterSet::ml_kem_768().kpke_enc(ek_pke, m, r)
}

/// Decrypts the ciphertext `c` with the decryption key `pk_pke` of
/// ML-KEM-768.
pub fn kpke_dec(pk_pke: Vec<u16>, c: Vec<u16>) -> (m: Vec<u16>)
    requires
        pk_pke.len() == 1152,
        c.len() == 1088,
    ensures
        m@ == kpke_dec_spec(ml_kem_768(), pk_pke@, c@),
        m.len() == 32,
        forall|i: int| 0 <= i < m.len() ==> m[i] < 256,
{
    ParameterSet::ml_kem_768().kpke_dec(pk_pke, c)
}

} // verus!
