//! Conversions between bit arrays, byte arrays and arrays of `d`-bit integers.
//!
//! Bits and bytes are carried in `u16` cells. A bit array holds 0 or 1 in each
//! cell; of a byte cell only the low eight bits are read.

use vstd::prelude::*;
use vstd::arithmetic::power2::pow2;
use vstd::arithmetic::power2::lemma_pow2_unfold;
use vstd::arithmetic::power2::lemma_pow2_pos;
use vstd::arithmetic::power2::lemma2_to64;
use vstd::arithmetic::div_mod::lemma_div_denominator;
use vstd::arithmetic::div_mod::lemma_small_mod;
use vstd::arithmetic::div_mod::lemma_breakdown;
use vstd::arithmetic::div_mod::lemma_mod_multiples_vanish;
use vstd::arithmetic::power2::lemma_pow2_adds;
use vstd::arithmetic::div_mod::lemma_fundamental_div_mod_converse;
use vstd::arithmetic::power2::lemma_pow2_strictly_increases;
use crate::constant::Q;
use crate::constant::N;

verus! {

/// Every cell holds 0 or 1.
pub open spec fn is_bits(bits: Seq<u16>) -> bool {
    forall|k: int| 0 <= k < bits.len() ==> bits[k] <= 1
}

/// The bit at position `k`, where positions past the end read as 0.
pub open spec fn bit_at(bits: Seq<u16>, k: int) -> int {
    if 0 <= k < bits.len() {
        bits[k] as int
    } else {
        0
    }
}

/// The integer whose little-endian binary digits are the `n` bits that start
/// at position `start`.
pub open spec fn le_value(bits: Seq<u16>, start: int, n: nat) -> int
    decreases n,
{
    if n == 0 {
        0
    } else {
        le_value(bits, start, (n - 1) as nat) + bit_at(bits, start + n - 1) * pow2((n - 1) as nat)
    }
}

/// Binary digit `j` of `x`, counted from the least significant.
pub open spec fn digit(x: int, j: nat) -> int {
    (x / pow2(j) as int) % 2
}

/// Packs bits into bytes, least significant bit first; a last incomplete
/// group is completed with zero bits.
pub open spec fn bits_to_bytes_spec(bits: Seq<u16>) -> Seq<u16> {
    Seq::new(((bits.len() + 7) / 8) as nat, |i: int| le_value(bits, 8 * i, 8) as u16)
}

/// Unpacks the low eight bits of each byte, least significant bit first.
pub open spec fn bytes_to_bits_spec(bytes: Seq<u16>) -> Seq<u16> {
    Seq::new(8 * bytes.len(), |k: int| digit(bytes[k / 8] as int, (k % 8) as nat) as u16)
}

/// The entry at position `i`, where positions past the end read as 0.
pub open spec fn entry_at(f: Seq<u16>, i: int) -> int {
    if 0 <= i < f.len() {
        f[i] as int
    } else {
        0
    }
}

/// The stream of `256 * d` bits made of the `d` low bits of each of 256
/// entries, least significant bit first.
pub open spec fn encode_bits(d: nat, f: Seq<u16>) -> Seq<u16> {
    Seq::new(256 * d, |k: int| digit(entry_at(f, k / d as int), (k % d as int) as nat) as u16)
}

/// The `32 * d` bytes that encode 256 integers of `d` bits each.
pub open spec fn bytes_encode_spec(d: nat, f: Seq<u16>) -> Seq<u16> {
    bits_to_bytes_spec(encode_bits(d, f))
}

/// The modulus by which decoded integers are reduced.
pub open spec fn decode_modulus(d: nat) -> int {
    if d == 12 {
        3329
    } else {
        pow2(d) as int
    }
}

/// The 256 integers of `d` bits each that a byte string holds; missing bytes
/// read as 0.
pub open spec fn bytes_decode_spec(d: nat, bytes: Seq<u16>) -> Seq<u16> {
    Seq::new(
        256,
        |i: int| (le_value(bytes_to_bits_spec(bytes), i * d, d) % decode_modulus(d)) as u16,
    )
}

/// A little-endian value of `n` bits is below `2^n`.
pub proof fn lemma_le_value_bound(bits: Seq<u16>, start: int, n: nat)
    requires
        is_bits(bits),
    ensures
        0 <= le_value(bits, start, n) < pow2(n),
    decreases n,
{
    lemma_pow2_pos(n);
    if n > 0 {
        lemma_le_value_bound(bits, start, (n - 1) as nat);
        lemma_pow2_unfold(n);
        let b = bit_at(bits, start + n - 1);
        assert(0 <= b <= 1);
        assert(0 <= b * pow2((n - 1) as nat) <= pow2((n - 1) as nat)) by (nonlinear_arith)
            requires
                0 <= b <= 1,
        ;
    }
}

/// Converts a bit array into a byte array in little-endian bit order.
pub fn bits_to_bytes(bits: Vec<u16>) -> (bytes: Vec<u16>)
    requires
        is_bits(bits@),
    ensures
        bytes@ == bits_to_bytes_spec(bits@),
        forall|i: int| 0 <= i < bytes.len() ==> bytes[i] < 256,
{
    let l = bits.len();
    let n = l / 8 + (if l % 8 != 0 { 1 } else { 0 });
    let mut bytes: Vec<u16> = Vec::new();
    let mut i: usize = 0;
    while i < n
        invariant
            l == bits.len(),
            n == (l + 7) / 8,
            i <= n,
            is_bits(bits@),
            bytes.len() == i,
            forall|t: int| 0 <= t < i ==> bytes[t] == le_value(bits@, 8 * t, 8),
            forall|t: int| 0 <= t < i ==> bytes[t] < 256,
        decreases n - i,
    {
        let mut acc: u16 = 0;
        let mut weight: u16 = 1;
        let mut j: usize = 0;
        proof {
            lemma2_to64();
        }
        while j < 8
            invariant
                l == bits.len(),
                i < n,
                n == (l + 7) / 8,
                j <= 8,
                is_bits(bits@),
                weight == pow2(j as nat),
                acc == le_value(bits@, 8 * i, j as nat),
                acc < weight,
            decreases 8 - j,
        {
            let k = 8 * i + j;
            let b: u16 = if k < l { bits[k] } else { 0 };
            proof {
                lemma_pow2_unfold((j + 1) as nat);
                lemma2_to64();
                assert(b as int == bit_at(bits@, 8 * i + (j + 1) - 1));
                assert(b * weight <= weight) by (nonlinear_arith)
                    requires
                        b <= 1,
                ;
                assert(weight <= 128) by {
                    if j == 0 {
                    } else if j == 1 {
                    } else if j == 2 {
                    } else if j == 3 {
                    } else if j == 4 {
                    } else if j == 5 {
                    } else if j == 6 {
                    } else {
                    }
                }
            }
            acc = acc + b * weight;
            weight = weight * 2;
            j = j + 1;
        }
        proof {
            lemma2_to64();
        }
        bytes.push(acc);
        i = i + 1;
    }
    proof {
        assert(bytes@ =~= bits_to_bytes_spec(bits@));
    }
    bytes
}

/// Converts a byte array into a bit array in little-endian bit order.
pub fn bytes_to_bits(bytes: Vec<u16>) -> (bits: Vec<u16>)
    requires
        bytes.len() * 8 <= usize::MAX,
    ensures
        bits@ == bytes_to_bits_spec(bytes@),
        is_bits(bits@),
{
    let l = bytes.len();
    let mut bits: Vec<u16> = Vec::new();
    let mut i: usize = 0;
    while i < l
        invariant
            l == bytes.len(),
            l * 8 <= usize::MAX,
            i <= l,
            bits.len() == 8 * i,
            forall|k: int|
                0 <= k < 8 * i ==> bits[k] == digit(bytes[k / 8] as int, (k % 8) as nat) as u16,
        decreases l - i,
    {
        let mut a: u16 = bytes[i];
        let mut j: usize = 0;
        proof {
            lemma2_to64();
        }
        while j < 8
            invariant
                l == bytes.len(),
                l * 8 <= usize::MAX,
                i < l,
                j <= 8,
                bits.len() == 8 * i + j,
                a as int == bytes[i as int] as int / pow2(j as nat) as int,
                forall|k: int|
                    0 <= k < 8 * i + j ==> bits[k] == digit(
                        bytes[k / 8] as int,
                        (k % 8) as nat,
                    ) as u16,
            decreases 8 - j,
        {
            let low: u16 = a & 1;
            let rest: u16 = a >> 1;
            assert(low == a % 2 && rest == a / 2) by (bit_vector)
                requires
                    low == a & 1,
                    rest == a >> 1,
            ;
            proof {
                lemma_pow2_pos(j as nat);
                lemma_pow2_unfold((j + 1) as nat);
                lemma_div_denominator(bytes[i as int] as int, pow2(j as nat) as int, 2);
                assert(pow2(j as nat) * 2 == pow2((j + 1) as nat));
                let k = 8 * i + j;
                assert(k / 8 == i && k % 8 == j);
            }
            bits.push(low);
            a = rest;
            j = j + 1;
        }
        i = i + 1;
    }
    proof {
        assert(bits@ =~= bytes_to_bits_spec(bytes@));
    }
    bits
}

/// Position `i * d + j` of a stream of `d`-bit groups lies in group `i` at
/// offset `j`.
pub proof fn lemma_group_position(i: int, d: int, j: int)
    requires
        0 <= i,
        0 <= j < d,
    ensures
        (i * d + j) / d == i,
        (i * d + j) % d == j,
        0 <= i * d + j,
        i * d + j < (i + 1) * d,
{
    assert(i * d + j == d * i + j) by (nonlinear_arith);
    assert(0 <= i * d) by (nonlinear_arith)
        requires
            0 <= i,
            0 < d,
    ;
    assert((i + 1) * d == i * d + d) by (nonlinear_arith);
    lemma_fundamental_div_mod_converse(i * d + j, d, i, j);
}

/// Encodes 256 integers of `d` bits each into `32 * d` bytes; missing entries
/// read as 0, and of each entry only the `d` low bits are kept.
pub fn bytes_encode(d: usize, f: Vec<u16>) -> (b: Vec<u16>)
    requires
        1 <= d <= 12,
        f.len() <= 256,
    ensures
        b@ == bytes_encode_spec(d as nat, f@),
        b.len() == 32 * d,
        forall|i: int| 0 <= i < b.len() ==> b[i] < 256,
{
    let mut bits: Vec<u16> = Vec::new();
    let mut i: usize = 0;
    while i < N
        invariant
            1 <= d <= 12,
            i <= 256,
            bits.len() == i * d,
            forall|k: int|
                0 <= k < bits.len() ==> bits[k] == digit(
                    entry_at(f@, k / d as int),
                    (k % d as int) as nat,
                ) as u16,
        decreases 256 - i,
    {
        let mut a: u16 = if i < f.len() { f[i] } else { 0 };
        let mut j: usize = 0;
        proof {
            lemma2_to64();
            assert((i + 1) * d == i * d + d) by (nonlinear_arith);
            assert(i * d <= 255 * 12) by (nonlinear_arith)
                requires
                    i <= 255,
                    d <= 12,
            ;
        }
        while j < d
            invariant
                1 <= d <= 12,
                i < 256,
                j <= d,
                i * d <= 255 * 12,
                bits.len() == i * d + j,
                a as int == entry_at(f@, i as int) / pow2(j as nat) as int,
                forall|k: int|
                    0 <= k < bits.len() ==> bits[k] == digit(
                        entry_at(f@, k / d as int),
                        (k % d as int) as nat,
                    ) as u16,
            decreases d - j,
        {
            let low: u16 = a & 1;
            let rest: u16 = a >> 1;
            assert(low == a % 2 && rest == a / 2) by (bit_vector)
                requires
                    low == a & 1,
                    rest == a >> 1,
            ;
            proof {
                lemma_pow2_pos(j as nat);
                lemma_pow2_unfold((j + 1) as nat);
                lemma_div_denominator(entry_at(f@, i as int), pow2(j as nat) as int, 2);
                assert(pow2(j as nat) * 2 == pow2((j + 1) as nat));
                lemma_group_position(i as int, d as int, j as int);
            }
            bits.push(low);
            a = rest;
            j = j + 1;
        }
        i = i + 1;
    }
    proof {
        assert(bits@ =~= encode_bits(d as nat, f@));
        assert(bits.len() == 256 * d);
    }
    bits_to_bytes(bits)
}

/// The 256 integers of `d` bits each that a byte string holds, unreduced;
/// missing bytes read as 0.
pub open spec fn raw_decode_spec(d: nat, bytes: Seq<u16>) -> Seq<u16> {
    Seq::new(256, |i: int| le_value(bytes_to_bits_spec(bytes), i * d, d) as u16)
}

/// Reads 256 integers of `d` bits each from a byte array, without reducing
/// them; missing bytes read as 0.
pub fn decode_raw(d: usize, bytes: Vec<u16>) -> (f: Vec<u16>)
    requires
        1 <= d <= 12,
        bytes.len() <= 32 * d,
    ensures
        f@ == raw_decode_spec(d as nat, bytes@),
        f.len() == 256,
        forall|i: int|
            0 <= i < 256 ==> f[i] == le_value(bytes_to_bits_spec(bytes@), i * d, d as nat),
        forall|i: int| 0 <= i < 256 ==> f[i] < pow2(d as nat),
        forall|i: int| 0 <= i < 256 ==> f[i] < 4096,
{
    let bit = bytes_to_bits(bytes);
    let nbits = bit.len();
    let mut f: Vec<u16> = Vec::new();
    let mut i: usize = 0;
    while i < N
        invariant
            1 <= d <= 12,
            i <= 256,
            nbits == bit.len(),
            bit@ == bytes_to_bits_spec(bytes@),
            is_bits(bit@),
            f.len() == i,
            forall|t: int| 0 <= t < i ==> f[t] == le_value(bit@, t * d, d as nat),
            forall|t: int| 0 <= t < i ==> f[t] < pow2(d as nat),
            forall|t: int| 0 <= t < i ==> f[t] < 4096,
        decreases 256 - i,
    {
        let mut acc: u16 = 0;
        let mut weight: u16 = 1;
        let mut j: usize = 0;
        proof {
            lemma2_to64();
            assert(i * d <= 255 * 12) by (nonlinear_arith)
                requires
                    i <= 255,
                    d <= 12,
            ;
        }
        while j < d
            invariant
                1 <= d <= 12,
                i < 256,
                j <= d,
                i * d <= 255 * 12,
                nbits == bit.len(),
                is_bits(bit@),
                weight == pow2(j as nat),
                acc == le_value(bit@, i * d, j as nat),
                acc < weight,
                weight <= 4096,
            decreases d - j,
        {
            let k = i * d + j;
            let b: u16 = if k < nbits { bit[k] } else { 0 };
            proof {
                lemma_pow2_unfold((j + 1) as nat);
                lemma2_to64();
                assert(b as int == bit_at(bit@, i * d + (j + 1) - 1));
                assert(b * weight <= weight) by (nonlinear_arith)
                    requires
                        b <= 1,
                ;
                if j + 1 < 12 {
                    lemma_pow2_strictly_increases((j + 1) as nat, 12);
                }
                if j < 11 {
                    lemma_pow2_strictly_increases(j as nat, 11);
                }
            }
            acc = acc + b * weight;
            weight = weight * 2;
            j = j + 1;
        }
        f.push(acc);
        i = i + 1;
    }
    proof {
        assert(f@ =~= raw_decode_spec(d as nat, bytes@));
    }
    f
}

/// Decodes a byte array into 256 integers of `d` bits each; missing bytes read
/// as 0. For `d < 12` an integer is taken modulo `2^d`, for `d = 12` modulo Q.
pub fn bytes_decode(d: usize, bytes: Vec<u16>) -> (f: Vec<u16>)
    requires
        1 <= d <= 12,
        bytes.len() <= 32 * d,
    ensures
        f@ == bytes_decode_spec(d as nat, bytes@),
        f.len() == 256,
        forall|i: int| 0 <= i < 256 ==> f[i] < decode_modulus(d as nat),
        forall|i: int| 0 <= i < 256 ==> f[i] < 4096,
{
    let ghost input = bytes@;
    let mut f = decode_raw(d, bytes);
    let mut i: usize = 0;
    while i < N
        invariant
            1 <= d <= 12,
            i <= 256,
            f.len() == 256,
            forall|t: int|
                0 <= t < i ==> f[t] == (le_value(bytes_to_bits_spec(input), t * d, d as nat)
                    % decode_modulus(d as nat)) as u16,
            forall|t: int| 0 <= t < i ==> f[t] < decode_modulus(d as nat),
            forall|t: int|
                i <= t < 256 ==> f[t] == le_value(bytes_to_bits_spec(input), t * d, d as nat),
            forall|t: int| 0 <= t < 256 ==> f[t] < pow2(d as nat),
            forall|t: int| 0 <= t < 256 ==> f[t] < 4096,
        decreases 256 - i,
    {
        let raw: u16 = f[i];
        let reduced: u16 = if d == 12 { raw % Q } else { raw };
        proof {
            if d != 12 {
                lemma_small_mod(raw as nat, pow2(d as nat));
            }
        }
        f.set(i, reduced);
        i = i + 1;
    }
    proof {
        assert(f@ =~= bytes_decode_spec(d as nat, input));
    }
    f
}

/// The low `j` binary digits of a little-endian value of `n` bits are its
/// first `j` bits.
pub proof fn lemma_le_value_prefix(bits: Seq<u16>, start: int, n: nat, j: nat)
    requires
        is_bits(bits),
        j <= n,
    ensures
        le_value(bits, start, n) % (pow2(j) as int) == le_value(bits, start, j),
    decreases n,
{
    lemma_pow2_pos(j);
    if n == j {
        lemma_le_value_bound(bits, start, j);
        lemma_small_mod(le_value(bits, start, j) as nat, pow2(j));
    } else {
        lemma_le_value_prefix(bits, start, (n - 1) as nat, j);
        let b = bit_at(bits, start + n - 1);
        let shift = (n - 1 - j) as nat;
        lemma_pow2_adds(j, shift);
        assert(b * pow2((n - 1) as nat) == pow2(j) * (b * pow2(shift))) by (nonlinear_arith)
            requires
                pow2((n - 1) as nat) == pow2(j) * pow2(shift),
        ;
        lemma_mod_multiples_vanish(
            b * pow2(shift),
            le_value(bits, start, (n - 1) as nat),
            pow2(j) as int,
        );
    }
}

/// Binary digit `j` of a little-endian value of `n` bits is its bit `j`.
pub proof fn lemma_le_value_digit(bits: Seq<u16>, start: int, n: nat, j: nat)
    requires
        is_bits(bits),
        j < n,
    ensures
        digit(le_value(bits, start, n), j) == bit_at(bits, start + j),
{
    let value = le_value(bits, start, n);
    lemma_le_value_bound(bits, start, n);
    lemma_le_value_prefix(bits, start, n, j);
    lemma_le_value_prefix(bits, start, n, j + 1);
    lemma_pow2_pos(j);
    lemma_pow2_unfold(j + 1);
    lemma_breakdown(value, pow2(j) as int, 2);
    assert(pow2(j) * 2 == pow2(j + 1));
    let low = bit_at(bits, start + j);
    let high = (value / pow2(j) as int) % 2;
    assert(le_value(bits, start, j + 1) == le_value(bits, start, j) + low * pow2(j));
    assert(pow2(j) * high == low * pow2(j));
    assert(high == low) by (nonlinear_arith)
        requires
            pow2(j) * high == low * pow2(j),
            pow2(j) > 0,
    ;
}

/// Bits that are the binary digits of `x` have, as a little-endian value of
/// `n` bits, the value of `x` modulo `2^n`.
pub proof fn lemma_le_value_of_digits(bits: Seq<u16>, start: int, n: nat, x: int)
    requires
        0 <= x,
        forall|j: nat| j < n ==> bit_at(bits, start + j) == #[trigger] digit(x, j),
    ensures
        le_value(bits, start, n) == x % (pow2(n) as int),
    decreases n,
{
    lemma2_to64();
    if n > 0 {
        let m = (n - 1) as nat;
        lemma_le_value_of_digits(bits, start, m, x);
        lemma_pow2_pos(m);
        lemma_pow2_unfold(n);
        lemma_breakdown(x, pow2(m) as int, 2);
        assert(pow2(m) * 2 == pow2(n));
        assert(bit_at(bits, start + m) == digit(x, m));
        assert(pow2(m) * digit(x, m) == digit(x, m) * pow2(m)) by (nonlinear_arith);
    }
}

/// Unpacking the bytes packed from a bit array whose length is a multiple of
/// eight gives the bit array again.
pub proof fn lemma_bits_bytes_round_trip(bits: Seq<u16>)
    requires
        is_bits(bits),
        bits.len() % 8 == 0,
    ensures
        bytes_to_bits_spec(bits_to_bytes_spec(bits)) == bits,
{
    let bytes = bits_to_bytes_spec(bits);
    let back = bytes_to_bits_spec(bytes);
    assert(back.len() == bits.len());
    assert forall|k: int| 0 <= k < bits.len() implies back[k] == bits[k] by {
        let i = k / 8;
        let j = (k % 8) as nat;
        lemma_le_value_bound(bits, 8 * i, 8);
        lemma2_to64();
        assert(bytes[i] as int == le_value(bits, 8 * i, 8));
        lemma_le_value_digit(bits, 8 * i, 8, j);
        assert(8 * i + j == k);
    }
    assert(back =~= bits);
}

/// Decoding the encoding of 256 integers gives the integers again, provided
/// each is below `2^d` (for `d < 12`) or below Q (for `d = 12`); the encoding
/// has `32 * d` bytes.
pub proof fn lemma_decode_encode(d: nat, f: Seq<u16>)
    requires
        1 <= d <= 12,
        f.len() == 256,
        forall|i: int| 0 <= i < 256 ==> f[i] < decode_modulus(d),
    ensures
        bytes_decode_spec(d, bytes_encode_spec(d, f)) == f,
        bytes_encode_spec(d, f).len() == 32 * d,
{
    let bits = encode_bits(d, f);
    let bytes = bytes_encode_spec(d, f);
    assert(is_bits(bits));
    assert(bits.len() == 256 * d);
    lemma_bits_bytes_round_trip(bits);
    let decoded = bytes_decode_spec(d, bytes);
    lemma2_to64();
    assert forall|i: int| 0 <= i < 256 implies decoded[i] == f[i] by {
        let x = f[i] as int;
        assert forall|j: nat| j < d implies bit_at(bits, i * d + j) == #[trigger] digit(x, j) by {
            lemma_group_position(i, d as int, j as int);
            assert(i * d + j < 256 * d) by (nonlinear_arith)
                requires
                    i * d + j < (i + 1) * d,
                    i + 1 <= 256,
                    d > 0,
            ;
        }
        lemma_le_value_of_digits(bits, i * d, d, x);
        lemma_pow2_pos(d);
        if d == 12 {
            lemma_small_mod(x as nat, pow2(12));
            lemma_small_mod(x as nat, 3329);
        } else {
            lemma_small_mod(x as nat, pow2(d));
        }
    }
    assert(decoded =~= f);
}

} // verus!
