//! Decryption undoes encryption whenever the noise is small, and so
//! decapsulation recovers the shared secret of encapsulation.

use vstd::prelude::*;
use vstd::arithmetic::power2::pow2;
use vstd::arithmetic::power2::lemma2_to64;
use vstd::arithmetic::power2::lemma_pow2_pos;
use vstd::arithmetic::power2::lemma_pow2_unfold;
use vstd::arithmetic::power2::lemma_pow2_strictly_increases;
use vstd::arithmetic::div_mod::lemma_small_mod;
use vstd::arithmetic::div_mod::lemma_mod_bound;
use vstd::arithmetic::div_mod::lemma_fundamental_div_mod;
use vstd::arithmetic::mul::lemma_mul_is_distributive_add;
use crate::constant::ParameterSet;
use crate::constant::lemma_parameter_ranges;
use crate::encode::bytes_encode_spec;
use crate::encode::bytes_decode_spec;
use crate::encode::bytes_to_bits_spec;
use crate::encode::bits_to_bytes_spec;
use crate::encode::encode_bits;
use crate::encode::decode_modulus;
use crate::encode::le_value;
use crate::encode::bit_at;
use crate::encode::digit;
use crate::encode::lemma_decode_encode;
use crate::encode::lemma_le_value_of_digits;
use crate::helper::compress_seq;
use crate::helper::decompress_seq;
use crate::helper::compress_spec;
use crate::helper::decompress_spec;
use crate::poly::cells;
use crate::poly::cell_values;
use crate::kpke::encode_vec_spec;
use crate::kpke::decode_vec_spec;
use crate::kpke::compress_vec_spec;
use crate::kpke::decompress_vec_spec;
use crate::helper::sha3_512;
use crate::helper::widen;
use crate::helper::narrow;
use crate::helper::xof_stream;
use crate::field::fadd;
use crate::field::lemma_fadd_congruent;
use crate::field::lemma_fsub_congruent;
use crate::poly::poly_add;
use crate::poly::poly_sub;
use crate::poly::intt_spec;
use crate::poly::sample_ntt_spec;
use crate::poly::sample_ntt_from;
use crate::poly::accepted;
use crate::poly::at_most;
use crate::matrix::dot_spec;
use crate::matrix::vec_add_spec;
use crate::matrix::mat_vec_spec;
use crate::kpke::matrix_spec;
use crate::kpke::transpose_spec;
use crate::kpke::noise_spec;
use crate::kpke::noise_vec_spec;
use crate::kpke::vec_ntt_spec;
use crate::kpke::vec_intt_spec;
use crate::kpke::kpke_key_gen_spec;
use crate::kpke::kpke_enc_spec;
use crate::kpke::kpke_dec_spec;
use crate::ntt_laws::is_poly;
use crate::ntt_laws::lemma_ntt_additive;
use crate::ntt_laws::lemma_ntt_intt;
use crate::ntt_laws::lemma_intt_additive;
use crate::ntt_laws::lemma_transforms_are_polys;
use crate::algebra::are_polys;
use crate::algebra::is_square;
use crate::algebra::column;
use crate::algebra::partial_columns;
use crate::algebra::lemma_sums_are_polys;
use crate::algebra::lemma_add_associative;
use crate::algebra::lemma_dot_additive_left;
use crate::algebra::lemma_dot_additive_right;
use crate::algebra::lemma_dot_is_poly;
use crate::algebra::lemma_bilinear_rows;
use crate::mlkem::lemma_narrow_widen;
use crate::mlkem::lemma_keygen_encaps_decaps;
use crate::mlkem::keygen_internal_spec;
use crate::mlkem::encaps_spec;
use crate::mlkem::decaps_spec;
use crate::helper::sha3_256;

verus! {

/// The coefficient sequence that comes back when `f` is compressed to `d`
/// bits for each coefficient and decompressed.
pub open spec fn round_poly(f: Seq<int>, d: nat) -> Seq<int> {
    cell_values(decompress_seq(compress_seq(cells(f), d), d))
}

/// Every entry compressed to `d` bits for each coefficient and decompressed.
pub open spec fn round_vec(v: Seq<Seq<int>>, d: nat) -> Seq<Seq<int>> {
    Seq::new(v.len(), |i: int| round_poly(v[i], d))
}

/// Reduced coefficients come back unchanged from 16-bit cells.
pub proof fn lemma_cells_round_trip(f: Seq<int>)
    requires
        is_poly(f),
    ensures
        cell_values(cells(f)) == f,
        cells(f).len() == 256,
        forall|i: int| 0 <= i < 256 ==> #[trigger] cells(f)[i] < 3329,
{
    assert(cell_values(cells(f)) =~= f);
}

/// An encoding of 256 integers with `d` bits each has `32 * d` bytes.
pub proof fn lemma_encoding_len(d: nat, f: Seq<u16>)
    requires
        1 <= d <= 12,
    ensures
        bytes_encode_spec(d, f).len() == 32 * d,
{
    assert(encode_bits(d, f).len() == 256 * d);
}

/// The encodings of `n` entries take `384 * n` bytes.
pub proof fn lemma_encode_vec_len(v: Seq<Seq<int>>, n: nat)
    ensures
        encode_vec_spec(v, n).len() == 384 * n,
    decreases n,
{
    if n > 0 {
        lemma_encode_vec_len(v, (n - 1) as nat);
        lemma_encoding_len(12, cells(v[n - 1]));
    }
}

/// The bytes `[384 i, 384 (i + 1))` of the encodings of `n` entries,
/// whatever follows them, are the encoding of entry `i`.
pub proof fn lemma_encode_vec_block(v: Seq<Seq<int>>, n: nat, i: int, tail: Seq<u16>)
    requires
        0 <= i < n,
    ensures
        (encode_vec_spec(v, n) + tail).subrange(384 * i, 384 * (i + 1)) == bytes_encode_spec(
            12,
            cells(v[i]),
        ),
    decreases n,
{
    let m = (n - 1) as nat;
    let last = bytes_encode_spec(12, cells(v[n - 1]));
    lemma_encode_vec_len(v, m);
    lemma_encode_vec_len(v, n);
    lemma_encoding_len(12, cells(v[n - 1]));
    if i == n - 1 {
        assert((encode_vec_spec(v, n) + tail).subrange(384 * i, 384 * (i + 1)) =~= last);
    } else {
        lemma_encode_vec_block(v, m, i, last + tail);
        assert(encode_vec_spec(v, n) + tail =~= encode_vec_spec(v, m) + (last + tail));
    }
}

/// Decoding the encodings of the entries of a vector, whatever follows
/// them, gives the vector again.
pub proof fn lemma_decode_encode_vec(v: Seq<Seq<int>>, k: nat, tail: Seq<u16>)
    requires
        v.len() == k,
        are_polys(v),
    ensures
        decode_vec_spec(k, encode_vec_spec(v, k) + tail) == v,
{
    let bytes = encode_vec_spec(v, k) + tail;
    let back = decode_vec_spec(k, bytes);
    assert forall|i: int| 0 <= i < k implies back[i] == v[i] by {
        lemma_encode_vec_block(v, k, i, tail);
        lemma_cells_round_trip(v[i]);
        lemma_decode_encode(12, cells(v[i]));
    }
    assert(back =~= v);
}

/// The compressed encodings of `n` entries take `32 * d * n` bytes.
pub proof fn lemma_compress_vec_len(d: nat, v: Seq<Seq<int>>, n: nat)
    requires
        1 <= d <= 12,
    ensures
        compress_vec_spec(d, v, n).len() == (32 * d) * n,
    decreases n,
{
    if n > 0 {
        lemma_compress_vec_len(d, v, (n - 1) as nat);
        lemma_encoding_len(d, compress_seq(cells(v[n - 1]), d));
        lemma_mul_is_distributive_add((32 * d) as int, (n - 1) as int, 1);
    }
}

/// The bytes `[32 d i, 32 d (i + 1))` of the compressed encodings of `n`
/// entries, whatever follows them, are the compressed encoding of entry `i`.
pub proof fn lemma_compress_vec_block(d: nat, v: Seq<Seq<int>>, n: nat, i: int, tail: Seq<u16>)
    requires
        1 <= d <= 12,
        0 <= i < n,
    ensures
        (compress_vec_spec(d, v, n) + tail).subrange((32 * d) * i, (32 * d) * (i + 1))
            == bytes_encode_spec(d, compress_seq(cells(v[i]), d)),
    decreases n,
{
    let m = (n - 1) as nat;
    let last = bytes_encode_spec(d, compress_seq(cells(v[n - 1]), d));
    let size = (32 * d) as int;
    lemma_compress_vec_len(d, v, m);
    lemma_compress_vec_len(d, v, n);
    lemma_encoding_len(d, compress_seq(cells(v[n - 1]), d));
    lemma_mul_is_distributive_add(size, i, 1);
    lemma_mul_is_distributive_add(size, (n - 1) as int, 1);
    if i == n - 1 {
        assert((compress_vec_spec(d, v, n) + tail).subrange(size * i, size * (i + 1)) =~= last);
    } else {
        lemma_compress_vec_block(d, v, m, i, last + tail);
        assert(compress_vec_spec(d, v, n) + tail =~= compress_vec_spec(d, v, m) + (last + tail));
    }
}

/// A compressed value is below `2^d`, and what decompression makes of a
/// value below `2^d` is reduced.
pub proof fn lemma_rounding_ranges(x: int, d: nat)
    requires
        1 <= d <= 11,
    ensures
        0 <= compress_spec(x, d) < pow2(d),
        pow2(d) <= 2048,
        0 <= x < pow2(d) ==> 0 <= decompress_spec(x, d) < 3329,
{
    lemma2_to64();
    lemma_pow2_pos(d);
    lemma_pow2_strictly_increases(d, 12);
    lemma_pow2_unfold(d);
    lemma_pow2_pos((d - 1) as nat);
    let s = pow2(d) as int;
    let half = pow2((d - 1) as nat) as int;
    lemma_mod_bound((x * s + 1664) / 3329, s);
    if 0 <= x < s {
        let numerator = x * 3329 + half;
        assert(0 <= numerator < 3329 * s) by (nonlinear_arith)
            requires
                numerator == x * 3329 + half,
                0 <= x,
                x + 1 <= s,
                0 < half <= 1024,
        ;
        lemma_fundamental_div_mod(numerator, s);
        lemma_mod_bound(numerator, s);
        let quotient = numerator / s;
        assert(0 <= quotient < 3329) by (nonlinear_arith)
            requires
                numerator == s * quotient + numerator % s,
                0 <= numerator % s < s,
                0 <= numerator < 3329 * s,
                s > 0,
        ;
    }
}

/// What comes back from compression and decompression is reduced.
pub proof fn lemma_round_poly_is_poly(f: Seq<int>, d: nat)
    requires
        f.len() == 256,
        1 <= d <= 11,
    ensures
        is_poly(round_poly(f, d)),
{
    let back = round_poly(f, d);
    assert forall|j: int| 0 <= j < 256 implies 0 <= #[trigger] back[j] < 3329 by {
        let x = cells(f)[j] as int;
        lemma_rounding_ranges(x, d);
        lemma_rounding_ranges(compress_spec(x, d), d);
    }
}

/// Decoding and decompressing the compressed encodings of the entries of a
/// vector, whatever follows them, gives the rounded entries.
#[verifier::rlimit(40)]
pub proof fn lemma_decompress_compress_vec(d: nat, v: Seq<Seq<int>>, k: nat, tail: Seq<u16>)
    requires
        1 <= d <= 11,
        v.len() == k,
        are_polys(v),
    ensures
        decompress_vec_spec(k, d, compress_vec_spec(d, v, k) + tail) == round_vec(v, d),
{
    let bytes = compress_vec_spec(d, v, k) + tail;
    let back = decompress_vec_spec(k, d, bytes);
    lemma2_to64();
    assert forall|i: int| 0 <= i < k implies back[i] == round_vec(v, d)[i] by {
        lemma_compress_vec_block(d, v, k, i, tail);
        let small = compress_seq(cells(v[i]), d);
        assert forall|j: int| 0 <= j < 256 implies #[trigger] small[j] < decode_modulus(d) by {
            lemma_rounding_ranges(cells(v[i])[j] as int, d);
        }
        lemma_decode_encode(d, small);
        assert((32 * d) * i == 32 * d * i && (32 * d) * (i + 1) == 32 * d * (i + 1));
    }
    assert(back =~= round_vec(v, d));
}

/// Encoding the bits decoded from 32 bytes gives the bytes again.
#[verifier::rlimit(40)]
pub proof fn lemma_encode_decode_bits(m: Seq<u16>)
    requires
        m.len() == 32,
        forall|i: int| 0 <= i < 32 ==> #[trigger] m[i] < 256,
    ensures
        bytes_encode_spec(1, bytes_decode_spec(1, m)) == m,
        forall|j: int| 0 <= j < 256 ==> #[trigger] bytes_decode_spec(1, m)[j] <= 1,
{
    let bits = bytes_to_bits_spec(m);
    let f = bytes_decode_spec(1, m);
    lemma2_to64();
    assert(bits.len() == 256);
    assert forall|j: int| 0 <= j < 256 implies f[j] == bits[j] && f[j] <= 1 by {
        let start = j * 1;
        assert(start == j);
        assert(le_value(bits, start, 0) == 0);
        assert(le_value(bits, start, 1) == le_value(bits, start, 0) + bit_at(bits, start + 1 - 1)
            * pow2(0));
        assert(bit_at(bits, j) == bits[j] as int);
        assert(bits[j] <= 1);
        assert(pow2(0) == 1 && pow2(1) == 2);
        assert(le_value(bits, start, 1) == bits[j] as int);
        assert(decode_modulus(1) == 2);
        lemma_small_mod(bits[j] as nat, 2);
    }
    let again = encode_bits(1, f);
    assert forall|j: int| 0 <= j < 256 implies again[j] == bits[j] by {
        assert(j / 1 == j && j % 1 == 0);
    }
    assert(again =~= bits);
    let back = bits_to_bytes_spec(bits);
    assert forall|i: int| 0 <= i < 32 implies back[i] == m[i] by {
        assert forall|t: nat| t < 8 implies bit_at(bits, 8 * i + t) == #[trigger] digit(
            m[i] as int,
            t,
        ) by {
            assert((8 * i + t) / 8 == i && (8 * i + t) % 8 == t);
        }
        lemma_le_value_of_digits(bits, 8 * i, 8, m[i] as int);
        lemma_small_mod(m[i] as nat, 256);
    }
    assert(back =~= m);
}

/// The hash of the key seed `d` and the module rank, from which key
/// generation takes the seed of the matrix and the seed of the noise.
pub open spec fn key_seed(p: ParameterSet, d: Seq<u8>) -> Seq<u8> {
    sha3_512(d.push(p.k as u8))
}

/// The matrix of the key pair derived from `d`, in the transformed domain.
pub open spec fn public_matrix(p: ParameterSet, d: Seq<u8>) -> Seq<Seq<Seq<int>>> {
    matrix_spec(p.k as nat, key_seed(p, d).subrange(0, 32))
}

/// The secret vector of the key pair derived from `d`, in the transformed
/// domain.
pub open spec fn secret_vector(p: ParameterSet, d: Seq<u8>) -> Seq<Seq<int>> {
    vec_ntt_spec(noise_vec_spec(p.k as nat, key_seed(p, d).subrange(32, 64), 0, p.eta1 as nat))
}

/// The error vector of the key pair derived from `d`, in the transformed
/// domain.
pub open spec fn error_vector(p: ParameterSet, d: Seq<u8>) -> Seq<Seq<int>> {
    vec_ntt_spec(
        noise_vec_spec(p.k as nat, key_seed(p, d).subrange(32, 64), p.k as int, p.eta1 as nat),
    )
}

/// The public vector of the key pair derived from `d`: the matrix times the
/// secret vector, plus the error vector.
pub open spec fn public_vector(p: ParameterSet, d: Seq<u8>) -> Seq<Seq<int>> {
    vec_add_spec(mat_vec_spec(public_matrix(p, d), secret_vector(p, d)), error_vector(p, d))
}

/// The vector that encryption draws from the randomness `r` and multiplies
/// the key by, in the transformed domain.
pub open spec fn mask_vector(p: ParameterSet, r: Seq<u8>) -> Seq<Seq<int>> {
    vec_ntt_spec(noise_vec_spec(p.k as nat, r, 0, p.eta1 as nat))
}

/// The error that encryption adds to the ciphertext vector.
pub open spec fn first_error(p: ParameterSet, r: Seq<u8>) -> Seq<Seq<int>> {
    noise_vec_spec(p.k as nat, r, p.k as int, p.eta2 as nat)
}

/// The error that encryption adds to the ciphertext polynomial.
pub open spec fn second_error(p: ParameterSet, r: Seq<u8>) -> Seq<int> {
    noise_spec(r, 2 * p.k as int, p.eta2 as nat)
}

/// The polynomial that holds the message: half of Q where a bit is 1.
pub open spec fn message_poly(m: Seq<u16>) -> Seq<int> {
    cell_values(decompress_seq(bytes_decode_spec(1, m), 1))
}

/// The ciphertext vector before compression.
pub open spec fn cipher_vector(p: ParameterSet, d: Seq<u8>, r: Seq<u8>) -> Seq<Seq<int>> {
    vec_add_spec(
        vec_intt_spec(
            mat_vec_spec(transpose_spec(p.k as nat, public_matrix(p, d)), mask_vector(p, r)),
        ),
        first_error(p, r),
    )
}

/// The ciphertext polynomial before compression.
pub open spec fn cipher_poly(p: ParameterSet, d: Seq<u8>, m: Seq<u16>, r: Seq<u8>) -> Seq<int> {
    poly_add(
        poly_add(
            intt_spec(dot_spec(public_vector(p, d), mask_vector(p, r), p.k as nat)),
            second_error(p, r),
        ),
        message_poly(m),
    )
}

/// Entry by entry, the difference of two vectors.
pub open spec fn vec_sub_spec(a: Seq<Seq<int>>, b: Seq<Seq<int>>) -> Seq<Seq<int>> {
    Seq::new(a.len(), |i: int| poly_sub(a[i], b[i]))
}

/// What compression changes of the ciphertext vector.
pub open spec fn vector_rounding(p: ParameterSet, d: Seq<u8>, r: Seq<u8>) -> Seq<Seq<int>> {
    vec_sub_spec(round_vec(cipher_vector(p, d, r), p.du as nat), cipher_vector(p, d, r))
}

/// What compression changes of the ciphertext polynomial.
pub open spec fn poly_rounding(p: ParameterSet, d: Seq<u8>, m: Seq<u16>, r: Seq<u8>) -> Seq<int> {
    poly_sub(round_poly(cipher_poly(p, d, m, r), p.dv as nat), cipher_poly(p, d, m, r))
}

/// The noise of a decryption: with `s` and `e` for the secret and the error
/// of the key, `y`, `e1`, `e2` for the mask and the errors of the encryption,
/// and `cu`, `cv` for what compression changes,
/// `e . y + e2 + cv - s . (e1 + cu)`.
pub open spec fn decryption_noise(p: ParameterSet, d: Seq<u8>, m: Seq<u16>, r: Seq<u8>) -> Seq<
    int,
> {
    poly_sub(
        poly_add(
            poly_add(
                intt_spec(dot_spec(error_vector(p, d), mask_vector(p, r), p.k as nat)),
                second_error(p, r),
            ),
            poly_rounding(p, d, m, r),
        ),
        intt_spec(
            dot_spec(
                secret_vector(p, d),
                vec_ntt_spec(vec_add_spec(first_error(p, r), vector_rounding(p, d, r))),
                p.k as nat,
            ),
        ),
    )
}

/// The polynomial from which decryption reads the message: the rounded
/// ciphertext polynomial less the product of the secret vector and the
/// rounded ciphertext vector.
pub open spec fn decrypted_poly(p: ParameterSet, d: Seq<u8>, m: Seq<u16>, r: Seq<u8>) -> Seq<int> {
    poly_sub(
        round_poly(cipher_poly(p, d, m, r), p.dv as nat),
        intt_spec(
            dot_spec(
                secret_vector(p, d),
                vec_ntt_spec(round_vec(cipher_vector(p, d, r), p.du as nat)),
                p.k as nat,
            ),
        ),
    )
}

/// The accepted candidates of rejection sampling are reduced.
proof fn lemma_sample_ntt_from_reduced(input: Seq<u8>, group: nat, acc: Seq<int>)
    requires
        forall|i: int| 0 <= i < acc.len() ==> 0 <= #[trigger] acc[i] < 3329,
    ensures
        forall|i: int|
            0 <= i < sample_ntt_from(input, group, acc).len() ==> 0 <= #[trigger] sample_ntt_from(
                input,
                group,
                acc,
            )[i] < 3329,
    decreases 65536 - group,
{
    if acc.len() >= 256 || group >= 65536 {
    } else {
        let bytes = xof_stream(input, 3 * group, 3);
        let more = accepted(bytes);
        let d1 = bytes[0] as int + 256 * (bytes[1] as int % 16);
        let d2 = bytes[1] as int / 16 + 16 * bytes[2] as int;
        assert(0 <= d1 && 0 <= d2);
        assert forall|i: int| 0 <= i < more.len() implies 0 <= #[trigger] more[i] < 3329 by {
            if d1 < 3329 {
                if d2 < 3329 {
                    assert(more =~= seq![d1, d2]);
                } else {
                    assert(more =~= seq![d1]);
                }
            } else {
                if d2 < 3329 {
                    assert(more =~= seq![d2]);
                } else {
                    assert(more =~= Seq::<int>::empty());
                }
            }
        }
        let joined = acc + more;
        assert forall|i: int| 0 <= i < joined.len() implies 0 <= #[trigger] joined[i] < 3329 by {
            if i >= acc.len() {
                assert(joined[i] == more[i - acc.len()]);
            }
        }
        let next = at_most(joined, 256);
        assert forall|i: int| 0 <= i < next.len() implies 0 <= #[trigger] next[i] < 3329 by {
            assert(next[i] == joined[i]);
        }
        lemma_sample_ntt_from_reduced(input, group + 1, next);
        assert(sample_ntt_from(input, group, acc) == sample_ntt_from(input, group + 1, next));
    }
}

/// An element drawn by rejection sampling has 256 reduced coefficients.
pub proof fn lemma_sample_ntt_is_poly(input: Seq<u8>)
    ensures
        is_poly(sample_ntt_spec(input)),
{
    lemma_sample_ntt_from_reduced(input, 0, Seq::<int>::empty());
    let drawn = sample_ntt_from(input, 0, Seq::<int>::empty());
    let f = sample_ntt_spec(input);
    assert forall|i: int| 0 <= i < 256 implies 0 <= #[trigger] f[i] < 3329 by {
        if i < drawn.len() {
            assert(f[i] == drawn[i]);
        }
    }
}

/// The vectors and the matrix of a key pair and of an encryption have the
/// module rank as their length, and their entries have 256 reduced
/// coefficients.
#[verifier::rlimit(40)]
pub proof fn lemma_pieces_are_polys(p: ParameterSet, d: Seq<u8>, r: Seq<u8>)
    ensures
        is_square(public_matrix(p, d), p.k as nat),
        secret_vector(p, d).len() == p.k,
        error_vector(p, d).len() == p.k,
        public_vector(p, d).len() == p.k,
        mask_vector(p, r).len() == p.k,
        first_error(p, r).len() == p.k,
        are_polys(secret_vector(p, d)),
        are_polys(error_vector(p, d)),
        are_polys(public_vector(p, d)),
        are_polys(mask_vector(p, r)),
        are_polys(first_error(p, r)),
        is_poly(second_error(p, r)),
{
    let k = p.k as nat;
    let a = public_matrix(p, d);
    let rho = key_seed(p, d).subrange(0, 32);
    assert forall|i: int| 0 <= i < k implies (#[trigger] a[i]).len() == k && are_polys(a[i]) by {
        assert forall|j: int| 0 <= j < a[i].len() implies is_poly(#[trigger] a[i][j]) by {
            lemma_sample_ntt_is_poly(rho.push(j as u8).push(i as u8));
        }
    }
    let s = secret_vector(p, d);
    let e = error_vector(p, d);
    let t = public_vector(p, d);
    let y = mask_vector(p, r);
    let e1 = first_error(p, r);
    let sigma = key_seed(p, d).subrange(32, 64);
    assert forall|i: int| 0 <= i < s.len() implies is_poly(#[trigger] s[i]) by {
        lemma_transforms_are_polys(noise_vec_spec(k, sigma, 0, p.eta1 as nat)[i]);
    }
    assert forall|i: int| 0 <= i < e.len() implies is_poly(#[trigger] e[i]) by {
        lemma_transforms_are_polys(noise_vec_spec(k, sigma, p.k as int, p.eta1 as nat)[i]);
    }
    assert forall|i: int| 0 <= i < y.len() implies is_poly(#[trigger] y[i]) by {
        lemma_transforms_are_polys(noise_vec_spec(k, r, 0, p.eta1 as nat)[i]);
    }
    assert forall|i: int| 0 <= i < t.len() implies is_poly(#[trigger] t[i]) by {
        lemma_sums_are_polys(mat_vec_spec(a, s)[i], e[i]);
    }
    assert forall|i: int| 0 <= i < e1.len() implies is_poly(#[trigger] e1[i]) by {
        let f = e1[i];
        assert forall|j: int| 0 <= j < 256 implies 0 <= #[trigger] f[j] < 3329 by {}
    }
    let e2 = second_error(p, r);
    assert forall|j: int| 0 <= j < 256 implies 0 <= #[trigger] e2[j] < 3329 by {}
}

/// The product of the transposed matrix and the mask vector, from which the
/// ciphertext vector is made.
pub open spec fn masked_columns(p: ParameterSet, d: Seq<u8>, r: Seq<u8>) -> Seq<Seq<int>> {
    mat_vec_spec(transpose_spec(p.k as nat, public_matrix(p, d)), mask_vector(p, r))
}

/// The transform of the first error and of what compression changes of the
/// ciphertext vector.
pub open spec fn transformed_errors(p: ParameterSet, d: Seq<u8>, r: Seq<u8>) -> Seq<Seq<int>> {
    vec_ntt_spec(vec_add_spec(first_error(p, r), vector_rounding(p, d, r)))
}

/// The transform of the rounded ciphertext vector: the product of the
/// transposed matrix and the mask vector, plus the transformed errors.
#[verifier::rlimit(40)]
pub proof fn lemma_rounded_vector_transform(p: ParameterSet, d: Seq<u8>, r: Seq<u8>)
    requires
        p.wf(),
    ensures
        vec_ntt_spec(round_vec(cipher_vector(p, d, r), p.du as nat)) == vec_add_spec(
            masked_columns(p, d, r),
            transformed_errors(p, d, r),
        ),
{
    lemma_parameter_ranges(p);
    lemma_pieces_are_polys(p, d, r);
    let k = p.k as nat;
    let columns = masked_columns(p, d, r);
    let e1 = first_error(p, r);
    let u = cipher_vector(p, d, r);
    let rounded = round_vec(u, p.du as nat);
    let change = vector_rounding(p, d, r);
    let left = vec_ntt_spec(rounded);
    let right = vec_add_spec(columns, transformed_errors(p, d, r));
    assert forall|i: int| 0 <= i < k implies left[i] == right[i] by {
        let back = intt_spec(columns[i]);
        lemma_dot_is_poly(
            transpose_spec(k, public_matrix(p, d))[i],
            mask_vector(p, r),
            mask_vector(p, r).len(),
        );
        lemma_transforms_are_polys(columns[i]);
        assert(u[i] == poly_add(back, e1[i]));
        lemma_round_poly_is_poly(u[i], p.du as nat);
        // the rounded entry is the entry plus the change
        let sum = poly_add(u[i], change[i]);
        assert forall|j: int| 0 <= j < 256 implies sum[j] == rounded[i][j] by {
            lemma_fsub_congruent(rounded[i][j], u[i][j], rounded[i][j], u[i][j]);
            lemma_fadd_congruent(
                u[i][j],
                change[i][j],
                u[i][j],
                rounded[i][j] - u[i][j],
            );
            lemma_small_mod(rounded[i][j] as nat, 3329);
        }
        assert(sum =~= rounded[i]);
        lemma_add_associative(back, e1[i], change[i]);
        let errors = poly_add(e1[i], change[i]);
        lemma_ntt_additive(back, errors);
        lemma_ntt_intt(columns[i]);
    }
    assert(left =~= right);
}

/// The inner product of the secret vector with the product of the transposed
/// matrix and the mask vector is the inner product of the product of the
/// matrix and the secret vector with the mask vector.
pub proof fn lemma_transposed_product(p: ParameterSet, d: Seq<u8>, r: Seq<u8>)
    ensures
        dot_spec(secret_vector(p, d), masked_columns(p, d, r), p.k as nat) == dot_spec(
            mat_vec_spec(public_matrix(p, d), secret_vector(p, d)),
            mask_vector(p, r),
            p.k as nat,
        ),
{
    lemma_pieces_are_polys(p, d, r);
    let k = p.k as nat;
    let a = public_matrix(p, d);
    let y = mask_vector(p, r);
    lemma_bilinear_rows(a, secret_vector(p, d), y, k, k);
    let columns = masked_columns(p, d, r);
    let partial = partial_columns(a, y, k);
    assert forall|j: int| 0 <= j < k implies partial[j] == columns[j] by {
        assert(column(a, j) =~= transpose_spec(k, a)[j]);
    }
    assert(partial =~= columns);
}

/// The polynomial from which decryption reads the message is the message
/// polynomial plus the noise.
#[verifier::rlimit(40)]
pub proof fn lemma_decrypted_poly(p: ParameterSet, d: Seq<u8>, m: Seq<u16>, r: Seq<u8>)
    requires
        p.wf(),
    ensures
        decrypted_poly(p, d, m, r) == poly_add(message_poly(m), decryption_noise(p, d, m, r)),
{
    lemma_parameter_ranges(p);
    lemma_pieces_are_polys(p, d, r);
    let k = p.k as nat;
    let a = public_matrix(p, d);
    let s = secret_vector(p, d);
    let e = error_vector(p, d);
    let y = mask_vector(p, r);
    let e2 = second_error(p, r);
    let mu = message_poly(m);
    let columns = masked_columns(p, d, r);
    let errors = transformed_errors(p, d, r);
    let v = cipher_poly(p, d, m, r);
    let rounded = round_poly(v, p.dv as nat);
    let change = poly_rounding(p, d, m, r);
    // the three inner products
    let main = dot_spec(mat_vec_spec(a, s), y, k);
    let key_noise = dot_spec(e, y, k);
    let cipher_noise = dot_spec(s, errors, k);
    lemma_dot_is_poly(mat_vec_spec(a, s), y, k);
    lemma_dot_is_poly(e, y, k);
    lemma_dot_is_poly(s, errors, k);
    // t . y = (A s) . y + e . y
    assert forall|i: int| 0 <= i < k implies is_poly(#[trigger] mat_vec_spec(a, s)[i]) by {
        lemma_dot_is_poly(a[i], s, s.len());
    }
    lemma_dot_additive_left(mat_vec_spec(a, s), e, y, k);
    lemma_intt_additive(main, key_noise);
    // s . ntt(rounded u) = s . (A^T y) + s . errors = (A s) . y + s . errors
    lemma_rounded_vector_transform(p, d, r);
    assert forall|i: int| 0 <= i < k implies is_poly(#[trigger] columns[i]) by {
        lemma_dot_is_poly(transpose_spec(k, a)[i], y, y.len());
    }
    assert forall|i: int| 0 <= i < k implies is_poly(#[trigger] errors[i]) by {
        lemma_transforms_are_polys(vec_add_spec(first_error(p, r), vector_rounding(p, d, r))[i]);
    }
    lemma_dot_additive_right(s, columns, errors, k);
    lemma_transposed_product(p, d, r);
    lemma_intt_additive(main, cipher_noise);
    // coefficient by coefficient
    let b = intt_spec(main);
    let n1 = intt_spec(key_noise);
    let n2 = intt_spec(cipher_noise);
    let w = decrypted_poly(p, d, m, r);
    let noise = decryption_noise(p, d, m, r);
    let target = poly_add(mu, noise);
    assert(v == poly_add(poly_add(poly_add(b, n1), e2), mu));
    assert(w == poly_sub(rounded, poly_add(b, n2)));
    assert(noise == poly_sub(poly_add(poly_add(n1, e2), change), n2));
    assert forall|j: int| 0 <= j < 256 implies w[j] == target[j] by {
        let bj = b[j];
        let n1j = n1[j];
        let n2j = n2[j];
        let ej = e2[j];
        let mj = mu[j];
        let rj = rounded[j];
        // v
        lemma_fadd_congruent(bj, n1j, bj, n1j);
        lemma_fadd_congruent(fadd(bj, n1j), ej, bj + n1j, ej);
        lemma_fadd_congruent(fadd(fadd(bj, n1j), ej), mj, bj + n1j + ej, mj);
        // the change
        lemma_fsub_congruent(rj, v[j], rj, bj + n1j + ej + mj);
        // the noise
        lemma_fadd_congruent(n1j, ej, n1j, ej);
        lemma_fadd_congruent(fadd(n1j, ej), change[j], n1j + ej, rj - (bj + n1j + ej + mj));
        lemma_fsub_congruent(
            fadd(fadd(n1j, ej), change[j]),
            n2j,
            n1j + ej + (rj - (bj + n1j + ej + mj)),
            n2j,
        );
        // the message plus the noise
        lemma_fadd_congruent(
            mj,
            noise[j],
            mj,
            n1j + ej + (rj - (bj + n1j + ej + mj)) - n2j,
        );
        // what decryption reads
        lemma_fadd_congruent(bj, n2j, bj, n2j);
        lemma_fsub_congruent(rj, fadd(bj, n2j), rj, bj + n2j);
    }
    assert(w =~= target);
}

/// The representative of a residue that is closest to zero.
pub open spec fn centered(x: int) -> int {
    if x % 3329 > 1664 {
        x % 3329 - 3329
    } else {
        x % 3329
    }
}

/// Every coefficient of the noise of a decryption is closer to zero than
/// 832, which is a quarter of Q.
pub open spec fn noise_is_small(p: ParameterSet, d: Seq<u8>, m: Seq<u16>, r: Seq<u8>) -> bool {
    forall|j: int|
        0 <= j < 256 ==> -832 < centered(#[trigger] decryption_noise(p, d, m, r)[j]) < 832
}

/// A message bit survives noise that is closer to zero than a quarter of Q:
/// the coefficient that holds the bit, plus the noise, compresses to the bit.
pub proof fn lemma_message_bit(bit: int, noise: int)
    requires
        bit == 0 || bit == 1,
        0 <= noise < 3329,
        -832 < centered(noise) < 832,
    ensures
        0 <= decompress_spec(bit, 1) < 3329,
        compress_spec(fadd(decompress_spec(bit, 1), noise), 1) == bit,
{
    lemma2_to64();
    assert(pow2(0) == 1 && pow2(1) == 2);
    lemma_small_mod(noise as nat, 3329);
    let held = decompress_spec(bit, 1);
    assert(held == (bit * 3329 + 1) / 2);
    if bit == 0 {
        assert(held == 0);
        let w = fadd(0, noise);
        assert(w == noise);
        if noise <= 1664 {
            assert((w * 2 + 1664) / 3329 == 0);
        } else {
            assert((w * 2 + 1664) / 3329 == 2);
        }
    } else {
        assert(held == 1665);
        let w = fadd(1665, noise);
        if noise <= 1664 {
            assert(w == 1665 + noise);
        } else {
            assert(w == 1665 + noise - 3329);
        }
        assert(834 <= w <= 2496);
        assert((w * 2 + 1664) / 3329 == 1);
    }
}

/// The ciphertext of an encryption under the key derived from `d`: the
/// compressed encodings of the ciphertext vector and of the ciphertext
/// polynomial.
#[verifier::rlimit(40)]
pub proof fn lemma_ciphertext(p: ParameterSet, d: Seq<u8>, m: Seq<u16>, r: Seq<u8>)
    requires
        p.wf(),
        key_seed(p, d).len() == 64,
    ensures
        kpke_enc_spec(p, kpke_key_gen_spec(p, d).0, m, r) == compress_vec_spec(
            p.du as nat,
            cipher_vector(p, d, r),
            p.k as nat,
        ) + bytes_encode_spec(
            p.dv as nat,
            compress_seq(cells(cipher_poly(p, d, m, r)), p.dv as nat),
        ),
        kpke_key_gen_spec(p, d).0.len() == p.ek_len(),
        kpke_key_gen_spec(p, d).1.len() == 384 * p.k,
        kpke_key_gen_spec(p, d).1 == encode_vec_spec(secret_vector(p, d), p.k as nat),
{
    lemma_pieces_are_polys(p, d, r);
    let k = p.k as nat;
    let rho = key_seed(p, d).subrange(0, 32);
    let t = public_vector(p, d);
    let ek = kpke_key_gen_spec(p, d).0;
    assert(ek == encode_vec_spec(t, k) + widen(rho));
    lemma_encode_vec_len(t, k);
    lemma_encode_vec_len(secret_vector(p, d), k);
    lemma_decode_encode_vec(t, k, widen(rho));
    assert(ek.subrange(384 * p.k as int, 384 * p.k + 32) =~= widen(rho));
    lemma_narrow_widen(rho);
}

/// Decryption undoes encryption whenever the noise is small: for the key
/// pair derived from the seed `d`, a message `m` of 32 bytes and the
/// randomness `r`, decrypting the ciphertext gives `m` again.
#[verifier::rlimit(40)]
pub proof fn lemma_decrypt_encrypt(p: ParameterSet, d: Seq<u8>, m: Seq<u16>, r: Seq<u8>)
    requires
        p.wf(),
        key_seed(p, d).len() == 64,
        m.len() == 32,
        forall|i: int| 0 <= i < 32 ==> #[trigger] m[i] < 256,
        noise_is_small(p, d, m, r),
    ensures
        kpke_dec_spec(
            p,
            kpke_key_gen_spec(p, d).1,
            kpke_enc_spec(p, kpke_key_gen_spec(p, d).0, m, r),
        ) == m,
{
    lemma_parameter_ranges(p);
    lemma_pieces_are_polys(p, d, r);
    lemma_ciphertext(p, d, m, r);
    let k = p.k as nat;
    let du = p.du as nat;
    let dv = p.dv as nat;
    let s = secret_vector(p, d);
    let u = cipher_vector(p, d, r);
    let v = cipher_poly(p, d, m, r);
    let dk = kpke_key_gen_spec(p, d).1;
    let first = compress_vec_spec(du, u, k);
    let second = bytes_encode_spec(dv, compress_seq(cells(v), dv));
    let c = first + second;
    // the ciphertext vector comes back rounded
    assert forall|i: int| 0 <= i < k implies is_poly(#[trigger] u[i]) by {
        lemma_sums_are_polys(
            vec_intt_spec(masked_columns(p, d, r))[i],
            first_error(p, r)[i],
        );
    }
    lemma_decompress_compress_vec(du, u, k, second);
    // the ciphertext polynomial comes back rounded
    lemma_compress_vec_len(du, u, k);
    lemma_encoding_len(dv, compress_seq(cells(v), dv));
    assert((32 * du) * k == 32 * p.du * p.k) by (nonlinear_arith)
        requires
            du == p.du,
            k == p.k,
    ;
    assert(c.subrange(32 * p.du * p.k as int, p.ct_len()) =~= second);
    let small = compress_seq(cells(v), dv);
    lemma2_to64();
    assert forall|j: int| 0 <= j < 256 implies #[trigger] small[j] < decode_modulus(dv) by {
        lemma_rounding_ranges(cells(v)[j] as int, dv);
    }
    lemma_decode_encode(dv, small);
    // the secret vector comes back
    lemma_decode_encode_vec(s, k, Seq::<u16>::empty());
    assert(encode_vec_spec(s, k) + Seq::<u16>::empty() =~= encode_vec_spec(s, k));
    // so decryption reads the message from the message plus the noise
    let w = decrypted_poly(p, d, m, r);
    assert(kpke_dec_spec(p, dk, c) == bytes_encode_spec(1, compress_seq(cells(w), 1)));
    lemma_decrypted_poly(p, d, m, r);
    let noise = decryption_noise(p, d, m, r);
    let mu = message_poly(m);
    lemma_encode_decode_bits(m);
    let bits = bytes_decode_spec(1, m);
    let read = compress_seq(cells(w), 1);
    assert forall|j: int| 0 <= j < 256 implies read[j] == bits[j] by {
        assert(0 <= noise[j] < 3329);
        lemma_message_bit(bits[j] as int, noise[j]);
        assert(mu[j] == decompress_spec(bits[j] as int, 1));
        assert(w[j] == fadd(mu[j], noise[j]));
        assert(cells(w)[j] as int == w[j]);
    }
    assert(read =~= bits);
}

/// The randomness with which encapsulation encrypts the message `m` under
/// the encapsulation key `ek`.
pub open spec fn encaps_randomness(ek: Seq<u16>, m: Seq<u8>) -> Seq<u8> {
    sha3_512(m + sha3_256(narrow(ek))).subrange(32, 64)
}

/// Decapsulation recovers the shared secret of encapsulation whenever the
/// noise is small: for the key pair derived from the seeds `d` and `z`, and
/// the secret and the ciphertext that encapsulation derives from the
/// encapsulation key and a message `m` of 32 bytes, decapsulation of the
/// ciphertext returns the secret.
pub proof fn lemma_decaps_recovers_secret(p: ParameterSet, d: Seq<u8>, z: Seq<u16>, m: Seq<u8>)
    requires
        p.wf(),
        z.len() == 32,
        m.len() == 32,
        key_seed(p, d).len() == 64,
        sha3_256(narrow(kpke_key_gen_spec(p, d).0)).len() == 32,
        noise_is_small(p, d, widen(m), encaps_randomness(kpke_key_gen_spec(p, d).0, m)),
    ensures
        ({
            let keys = keygen_internal_spec(p, d, z);
            let shared = encaps_spec(p, keys.0, m);
            decaps_spec(p, keys.1, shared.1) == shared.0
        }),
{
    let ek = kpke_key_gen_spec(p, d).0;
    let r = encaps_randomness(ek, m);
    lemma_ciphertext(p, d, widen(m), r);
    lemma_decrypt_encrypt(p, d, widen(m), r);
    lemma_keygen_encaps_decaps(p, d, z, m);
}

} // verus!
