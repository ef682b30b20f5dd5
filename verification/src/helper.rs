//! Coefficient compression, the product of two degree-one polynomials, and the
//! hash functions of the scheme.

use vstd::prelude::*;
use vstd::arithmetic::power2::pow2;
use vstd::arithmetic::power2::lemma2_to64;
use vstd::arithmetic::power2::lemma_pow2_unfold;
use vstd::arithmetic::power2::lemma_pow2_pos;
use vstd::arithmetic::power2::lemma_pow2_strictly_increases;
use vstd::arithmetic::div_mod::lemma_fundamental_div_mod;
use vstd::arithmetic::div_mod::lemma_mod_bound;
use vstd::arithmetic::div_mod::lemma_small_mod;
use vstd::arithmetic::div_mod::lemma_fundamental_div_mod_converse;
use crate::field::FieldElement as FF;
use crate::field::fadd;
use crate::field::fmul;

verus! {

/// The lossy rounding of a residue `x` to `d` bits:
/// `round(2^d / Q * x) mod 2^d`, halves rounded up.
pub open spec fn compress_spec(x: int, d: nat) -> int {
    ((x * pow2(d) + 1664) / 3329) % (pow2(d) as int)
}

/// The residue that a `d`-bit value `y` stands for: `round(Q / 2^d * y)`,
/// halves rounded up.
pub open spec fn decompress_spec(y: int, d: nat) -> int {
    (y * 3329 + pow2((d - 1) as nat)) / (pow2(d) as int)
}

/// Every entry compressed to `d` bits.
pub open spec fn compress_seq(v: Seq<u16>, d: nat) -> Seq<u16> {
    Seq::new(v.len(), |i: int| compress_spec(v[i] as int, d) as u16)
}

/// Every `d`-bit entry decompressed.
pub open spec fn decompress_seq(v: Seq<u16>, d: nat) -> Seq<u16> {
    Seq::new(v.len(), |i: int| decompress_spec(v[i] as int, d) as u16)
}

/// Every entry is below `2^d`.
pub open spec fn below_pow2(v: Seq<u16>, d: nat) -> bool {
    forall|i: int| 0 <= i < v.len() ==> v[i] < pow2(d)
}

/// `2^d` for an exponent of at most 15.
fn small_pow2(d: u8) -> (r: u32)
    requires
        d <= 15,
    ensures
        r == pow2(d as nat),
        1 <= r <= 32768,
{
    let mut r: u32 = 1;
    let mut i: u8 = 0;
    proof {
        lemma2_to64();
    }
    while i < d
        invariant
            i <= d <= 15,
            r == pow2(i as nat),
            1 <= r <= 32768,
            i < 15 ==> r <= 16384,
        decreases d - i,
    {
        proof {
            lemma_pow2_unfold((i + 1) as nat);
            lemma2_to64();
            if i + 1 < 15 {
                lemma_pow2_strictly_increases((i + 1) as nat, 15);
                lemma_pow2_strictly_increases(i as nat, 14);
            }
        }
        r = r * 2;
        i = i + 1;
    }
    r
}

/// The quotient of `dividend` by `divisor`, rounded to the nearest integer,
/// halves rounded up.
pub fn div_and_round(dividend: u32, divisor: u32) -> (r: u32)
    requires
        divisor > 0,
        dividend + divisor / 2 <= u32::MAX,
    ensures
        r == (dividend + divisor / 2) / (divisor as int),
{
    let half: u32 = divisor >> 1;
    assert(half == divisor / 2) by (bit_vector)
        requires
            half == divisor >> 1,
    ;
    (dividend + half) / divisor
}

/// Compresses every entry to `d` bits.
pub fn compress(v: Vec<u16>, d: u8) -> (r: Vec<u16>)
    requires
        1 <= d <= 11,
    ensures
        r@ == compress_seq(v@, d as nat),
        r.len() == v.len(),
        forall|i: int| 0 <= i < v.len() ==> r[i] == compress_spec(v[i] as int, d as nat),
        below_pow2(r@, d as nat),
{
    let mut r = v;
    let scale: u32 = small_pow2(d);
    let mask: u32 = scale - 1;
    let mut i: usize = 0;
    proof {
        lemma2_to64();
        lemma_pow2_strictly_increases(d as nat, 12);
    }
    while i < r.len()
        invariant
            1 <= d <= 11,
            scale == pow2(d as nat),
            1 <= scale <= 2048,
            mask == scale - 1,
            r.len() == v.len(),
            i <= r.len(),
            forall|t: int| 0 <= t < i ==> r[t] == compress_spec(v[t] as int, d as nat),
            forall|t: int| 0 <= t < i ==> r[t] < pow2(d as nat),
            forall|t: int| i <= t < r.len() ==> r[t] == v[t],
        decreases r.len() - i,
    {
        let x: u32 = r[i] as u32;
        assert(x * scale <= 65535 * 2048) by (nonlinear_arith)
            requires
                x <= 65535,
                scale <= 2048,
        ;
        let quotient: u32 = div_and_round(x * scale, 3329);
        let low: u32 = quotient & mask;
        proof {
            lemma_small_pow2_cases(d as nat);
        }
        assert(low == quotient % scale) by (bit_vector)
            requires
                low == quotient & mask,
                mask == (scale - 1) as u32,
                scale == 2 || scale == 4 || scale == 8 || scale == 16 || scale == 32 || scale
                    == 64 || scale == 128 || scale == 256 || scale == 512 || scale == 1024
                    || scale == 2048,
        ;
        r.set(i, low as u16);
        i = i + 1;
    }
    proof {
        assert(r@ =~= compress_seq(v@, d as nat));
    }
    r
}

/// The powers of two with exponent from 1 to 11.
proof fn lemma_small_pow2_cases(d: nat)
    requires
        1 <= d <= 11,
    ensures
        pow2(d) == 2 || pow2(d) == 4 || pow2(d) == 8 || pow2(d) == 16 || pow2(d) == 32 || pow2(d)
            == 64 || pow2(d) == 128 || pow2(d) == 256 || pow2(d) == 512 || pow2(d) == 1024
            || pow2(d) == 2048,
{
    lemma2_to64();
}

/// Decompresses every `d`-bit entry to a residue.
pub fn decompress(v: Vec<u16>, d: u8) -> (r: Vec<u16>)
    requires
        1 <= d <= 11,
        below_pow2(v@, d as nat),
    ensures
        r@ == decompress_seq(v@, d as nat),
        r.len() == v.len(),
        forall|i: int| 0 <= i < v.len() ==> r[i] == decompress_spec(v[i] as int, d as nat),
        forall|i: int| 0 <= i < v.len() ==> r[i] < 3329,
{
    let mut r = v;
    let scale: u32 = small_pow2(d);
    let half: u32 = small_pow2(d - 1);
    let mut i: usize = 0;
    proof {
        lemma2_to64();
        lemma_pow2_strictly_increases(d as nat, 12);
        lemma_pow2_unfold(d as nat);
    }
    while i < r.len()
        invariant
            1 <= d <= 11,
            scale == pow2(d as nat),
            half == pow2((d - 1) as nat),
            scale == 2 * half,
            1 <= scale <= 2048,
            r.len() == v.len(),
            i <= r.len(),
            below_pow2(v@, d as nat),
            forall|t: int| 0 <= t < i ==> r[t] == decompress_spec(v[t] as int, d as nat),
            forall|t: int| 0 <= t < i ==> r[t] < 3329,
            forall|t: int| i <= t < r.len() ==> r[t] == v[t],
        decreases r.len() - i,
    {
        let y: u32 = r[i] as u32;
        assert(y * 3329 <= 2047 * 3329) by (nonlinear_arith)
            requires
                y <= 2047,
        ;
        let rounded: u32 = (y * 3329 + half) / scale;
        let ghost numerator: int = y * 3329 + half;
        assert(numerator < 3329 * scale) by (nonlinear_arith)
            requires
                numerator == y * 3329 + half,
                y + 1 <= scale,
                half <= 1024,
        ;
        assert(rounded < 3329) by (nonlinear_arith)
            requires
                numerator < 3329 * scale,
                rounded == numerator / (scale as int),
                scale > 0,
        ;
        r.set(i, rounded as u16);
        i = i + 1;
    }
    proof {
        assert(r@ =~= decompress_seq(v@, d as nat));
    }
    r
}

/// The product of `a0 + a1 X` and `b0 + b1 X` modulo `X^2 - gamma`.
pub fn base_case_multiply(a0: FF, a1: FF, b0: FF, b1: FF, gamma: FF) -> (c: (FF, FF))
    requires
        a0.wf(),
        a1.wf(),
        b0.wf(),
        b1.wf(),
        gamma.wf(),
    ensures
        c.0.wf(),
        c.1.wf(),
        c.0.value() == fadd(
            fmul(a0.value(), b0.value()),
            fmul(fmul(a1.value(), b1.value()), gamma.value()),
        ),
        c.1.value() == fadd(fmul(a0.value(), b1.value()), fmul(a1.value(), b0.value())),
{
    let c0 = a0 * b0 + a1 * b1 * gamma;
    let c1 = a0 * b1 + a1 * b0;
    (c0, c1)
}

/// The 32-byte SHA3-256 digest of a byte string.
pub uninterp spec fn sha3_256(s: Seq<u8>) -> Seq<u8>;

/// The 64-byte SHA3-512 digest of a byte string.
pub uninterp spec fn sha3_512(s: Seq<u8>) -> Seq<u8>;

/// The first `n` bytes of the SHAKE-128 output stream for a byte string.
pub uninterp spec fn shake128(s: Seq<u8>, n: nat) -> Seq<u8>;

/// The first `n` bytes of the SHAKE-256 output stream for a byte string.
pub uninterp spec fn shake256(s: Seq<u8>, n: nat) -> Seq<u8>;

/// Calls `sha3::Sha3_256` (`Digest::new`, `Update::update`,
/// `Digest::finalize`). Trusted: the result is the SHA3-256 digest of `s`,
/// which has 32 bytes.
#[verifier::external_body]
fn sha3_256_digest(s: &Vec<u8>) -> (r: Vec<u8>)
    ensures
        r@ == sha3_256(s@),
        r.len() == 32,
{
    let mut hasher = <sha3::Sha3_256 as sha3::Digest>::new();
    sha3::digest::Update::update(&mut hasher, s.as_slice());
    sha3::Digest::finalize(hasher).to_vec()
}

/// Calls `sha3::Sha3_512` (`Digest::new`, `Update::update`,
/// `Digest::finalize`). Trusted: the result is the SHA3-512 digest of `s`,
/// which has 64 bytes.
#[verifier::external_body]
fn sha3_512_digest(s: &Vec<u8>) -> (r: Vec<u8>)
    ensures
        r@ == sha3_512(s@),
        r.len() == 64,
{
    let mut hasher = <sha3::Sha3_512 as sha3::Digest>::new();
    sha3::digest::Update::update(&mut hasher, s.as_slice());
    sha3::Digest::finalize(hasher).to_vec()
}

/// Calls `sha3::Shake128` (`Update::update`, `ExtendableOutput::finalize_xof`,
/// `XofReader::read`). Trusted: the result is the first `n` bytes of the
/// SHAKE-128 output stream for `s`, and every shorter output for the same
/// input is a prefix of it.
#[verifier::external_body]
fn shake128_output(s: &Vec<u8>, n: usize) -> (r: Vec<u8>)
    ensures
        r@ == shake128(s@, n as nat),
        r.len() == n,
        forall|m: nat| m <= n ==> #[trigger] shake128(s@, m) == r@.subrange(0, m as int),
{
    let mut hasher = sha3::Shake128::default();
    sha3::digest::Update::update(&mut hasher, s.as_slice());
    let mut reader = sha3::digest::ExtendableOutput::finalize_xof(hasher);
    let mut out = vec![0u8; n];
    sha3::digest::XofReader::read(&mut reader, out.as_mut_slice());
    out
}

/// Calls `sha3::Shake256` (`Update::update`, `ExtendableOutput::finalize_xof`,
/// `XofReader::read`). Trusted: the result is the first `n` bytes of the
/// SHAKE-256 output stream for `s`.
#[verifier::external_body]
fn shake256_output(s: &Vec<u8>, n: usize) -> (r: Vec<u8>)
    ensures
        r@ == shake256(s@, n as nat),
        r.len() == n,
{
    let mut hasher = sha3::Shake256::default();
    sha3::digest::Update::update(&mut hasher, s.as_slice());
    let mut reader = sha3::digest::ExtendableOutput::finalize_xof(hasher);
    let mut out = vec![0u8; n];
    sha3::digest::XofReader::read(&mut reader, out.as_mut_slice());
    out
}

/// Each byte in a 16-bit cell.
pub open spec fn widen(s: Seq<u8>) -> Seq<u16> {
    Seq::new(s.len(), |i: int| s[i] as u16)
}

/// The low eight bits of each cell.
pub open spec fn narrow(s: Seq<u16>) -> Seq<u8> {
    Seq::new(s.len(), |i: int| (s[i] % 256) as u8)
}

/// Carries each byte in a 16-bit cell.
pub fn to_cells(bytes: &Vec<u8>) -> (r: Vec<u16>)
    ensures
        r@ == widen(bytes@),
{
    let mut r: Vec<u16> = Vec::new();
    let mut i: usize = 0;
    while i < bytes.len()
        invariant
            i <= bytes.len(),
            r.len() == i,
            forall|t: int| 0 <= t < i ==> r[t] == bytes[t] as u16,
        decreases bytes.len() - i,
    {
        r.push(bytes[i] as u16);
        i = i + 1;
    }
    proof {
        assert(r@ =~= widen(bytes@));
    }
    r
}

/// Keeps the low eight bits of each cell.
pub fn to_bytes(cells: &Vec<u16>) -> (r: Vec<u8>)
    ensures
        r@ == narrow(cells@),
{
    let mut r: Vec<u8> = Vec::new();
    let mut i: usize = 0;
    while i < cells.len()
        invariant
            i <= cells.len(),
            r.len() == i,
            forall|t: int| 0 <= t < i ==> r[t] == (cells[t] % 256) as u8,
        decreases cells.len() - i,
    {
        r.push((cells[i] % 256) as u8);
        i = i + 1;
    }
    proof {
        assert(r@ =~= narrow(cells@));
    }
    r
}

/// The `n` bytes of the SHAKE-128 output stream for `input` that follow the
/// first `from` bytes.
pub open spec fn xof_stream(input: Seq<u8>, from: nat, n: nat) -> Seq<u8> {
    shake128(input, from + n).subrange(from as int, (from + n) as int)
}

/// A reader over the SHAKE-128 output stream of one input: successive calls
/// of `squeeze` hand out successive parts of the stream. The reader keeps a
/// prefix of the stream, and hashes the input again, for a prefix at least
/// twice as long, only when a call reaches past what it keeps.
pub struct Xof {
    input: Vec<u8>,
    buffer: Vec<u8>,
    position: usize,
}

impl Xof {
    /// The byte string that was absorbed.
    pub closed spec fn input(&self) -> Seq<u8> {
        self.input@
    }

    /// The number of bytes handed out so far.
    pub closed spec fn position(&self) -> nat {
        self.position as nat
    }

    /// The buffer holds a prefix of the output stream that reaches at least to
    /// the current position.
    pub closed spec fn wf(&self) -> bool {
        &&& self.position <= self.buffer.len()
        &&& forall|m: nat|
            m <= self.buffer.len() ==> #[trigger] shake128(self.input@, m)
                == self.buffer@.subrange(0, m as int)
    }

    /// Hands out the next `n` bytes of the stream.
    pub fn squeeze(&mut self, n: usize) -> (out: Vec<u8>)
        requires
            old(self).wf(),
            old(self).position() + n <= usize::MAX,
        ensures
            final(self).wf(),
            final(self).input() == old(self).input(),
            final(self).position() == old(self).position() + n,
            out@ == xof_stream(old(self).input(), old(self).position(), n as nat),
            out.len() == n,
    {
        let end: usize = self.position + n;
        if end > self.buffer.len() {
            let len = self.buffer.len();
            let doubled: usize = if len <= usize::MAX / 2 { 2 * len } else { usize::MAX };
            let grown: usize = if doubled < 840 { 840 } else { doubled };
            let target: usize = if grown < end { end } else { grown };
            self.buffer = shake128_output(&self.input, target);
        }
        let mut out: Vec<u8> = Vec::new();
        let mut i: usize = self.position;
        while i < end
            invariant
                self.position <= i <= end <= self.buffer.len(),
                out.len() == i - self.position,
                forall|t: int| 0 <= t < out.len() ==> out[t] == self.buffer[self.position + t],
            decreases end - i,
        {
            out.push(self.buffer[i]);
            i = i + 1;
        }
        proof {
            assert(shake128(self.input@, end as nat) == self.buffer@.subrange(0, end as int));
            assert(out@ =~= xof_stream(self.input@, self.position as nat, n as nat));
        }
        self.position = end;
        out
    }
}

/// Opens a reader over the SHAKE-128 output stream for `input`.
pub fn xof(input: Vec<u8>) -> (r: Xof)
    ensures
        r.wf(),
        r.input() == input@,
        r.position() == 0,
{
    let buffer = shake128_output(&input, 0);
    Xof { input, buffer, position: 0 }
}

/// The pseudorandom function: `64 * eta` bytes of SHAKE-256 output for the
/// seed `s` followed by the byte `b`.
pub fn prf(eta: usize, s: Vec<u8>, b: u8) -> (r: Vec<u16>)
    requires
        64 * eta <= usize::MAX,
    ensures
        r@ == widen(shake256(s@.push(b), (64 * eta) as nat)),
        r.len() == 64 * eta,
{
    let size = 64 * eta;
    let mut s = s;
    s.push(b);
    let output = shake256_output(&s, size);
    to_cells(&output)
}

/// The hash H: SHA3-256.
pub fn h(s: Vec<u8>) -> (r: Vec<u8>)
    ensures
        r@ == sha3_256(s@),
        r.len() == 32,
{
    sha3_256_digest(&s)
}

/// The hash J: 32 bytes of SHAKE-256 output.
pub fn j(s: Vec<u8>) -> (r: Vec<u8>)
    ensures
        r@ == shake256(s@, 32),
        r.len() == 32,
{
    shake256_output(&s, 32)
}

/// The hash G: SHA3-512, split into two halves of 32 bytes.
pub fn g(s: Vec<u8>) -> (r: (Vec<u8>, Vec<u8>))
    ensures
        r.0@ == sha3_512(s@).subrange(0, 32),
        r.1@ == sha3_512(s@).subrange(32, 64),
        r.0.len() == 32,
        r.1.len() == 32,
{
    let output = sha3_512_digest(&s);
    let mut first: Vec<u8> = Vec::new();
    let mut second: Vec<u8> = Vec::new();
    let mut i: usize = 0;
    while i < 32
        invariant
            i <= 32,
            output.len() == 64,
            first.len() == i,
            second.len() == i,
            forall|t: int| 0 <= t < i ==> first[t] == output[t],
            forall|t: int| 0 <= t < i ==> second[t] == output[32 + t],
        decreases 32 - i,
    {
        first.push(output[i]);
        second.push(output[32 + i]);
        i = i + 1;
    }
    proof {
        assert(first@ =~= output@.subrange(0, 32));
        assert(second@ =~= output@.subrange(32, 64));
    }
    (first, second)
}

/// Calls `rand::thread_rng` and `rand::Rng::gen`. Trusted: a byte comes back;
/// nothing is stated of its value.
#[verifier::external_body]
fn random_byte() -> u8 {
    rand::Rng::gen::<u8>(&mut rand::thread_rng())
}

/// Draws `n` bytes from the thread-local random number generator, which the
/// operating system seeds.
pub fn random_bytes(n: usize) -> (r: Vec<u8>)
    ensures
        r.len() == n,
{
    let mut r: Vec<u8> = Vec::new();
    let mut i: usize = 0;
    while i < n
        invariant
            i <= n,
            r.len() == i,
        decreases n - i,
    {
        r.push(random_byte());
        i = i + 1;
    }
    r
}

/// The cells from position `from` up to, not including, position `to`.
pub fn slice_cells(v: &Vec<u16>, from: usize, to: usize) -> (r: Vec<u16>)
    requires
        from <= to <= v.len(),
    ensures
        r@ == v@.subrange(from as int, to as int),
{
    let mut r: Vec<u16> = Vec::new();
    let mut i: usize = from;
    while i < to
        invariant
            from <= i <= to <= v.len(),
            r.len() == i - from,
            forall|t: int| 0 <= t < r.len() ==> r[t] == v[from + t],
        decreases to - i,
    {
        r.push(v[i]);
        i = i + 1;
    }
    proof {
        assert(r@ =~= v@.subrange(from as int, to as int));
    }
    r
}

/// Appends the cells of `src` to `dst`.
pub fn append_cells(dst: &mut Vec<u16>, src: &Vec<u16>)
    ensures
        final(dst)@ == old(dst)@ + src@,
{
    let ghost before = dst@;
    let mut i: usize = 0;
    while i < src.len()
        invariant
            i <= src.len(),
            dst@ == before + src@.subrange(0, i as int),
        decreases src.len() - i,
    {
        dst.push(src[i]);
        proof {
            assert(dst@ =~= before + src@.subrange(0, i + 1));
        }
        i = i + 1;
    }
    proof {
        assert(src@.subrange(0, src.len() as int) =~= src@);
    }
}

/// Appends the bytes of `src` to `dst`.
pub fn append_bytes(dst: &mut Vec<u8>, src: &Vec<u8>)
    ensures
        final(dst)@ == old(dst)@ + src@,
{
    let ghost before = dst@;
    let mut i: usize = 0;
    while i < src.len()
        invariant
            i <= src.len(),
            dst@ == before + src@.subrange(0, i as int),
        decreases src.len() - i,
    {
        dst.push(src[i]);
        proof {
            assert(dst@ =~= before + src@.subrange(0, i + 1));
        }
        i = i + 1;
    }
    proof {
        assert(src@.subrange(0, src.len() as int) =~= src@);
    }
}

/// A copy of a byte string.
pub fn copy_bytes(v: &Vec<u8>) -> (r: Vec<u8>)
    ensures
        r@ == v@,
{
    let mut r: Vec<u8> = Vec::new();
    append_bytes(&mut r, v);
    proof {
        assert(r@ =~= v@);
    }
    r
}

/// The distance between two residues on the circle of residues modulo Q.
pub open spec fn mod_distance(a: int, b: int) -> int {
    if (a - b) % 3329 <= (b - a) % 3329 {
        (a - b) % 3329
    } else {
        (b - a) % 3329
    }
}

/// The largest distance by which compression to `d` bits followed by
/// decompression may move a residue: `ceil(Q / 2^(d + 1))`.
pub open spec fn compress_error_bound(d: nat) -> int {
    (3329 + pow2(d + 1) - 1) / (pow2(d + 1) as int)
}

/// The rounding law with `s` for `2^d`: for a residue `x`, the rounded
/// quotient `t` of `x s` by Q and the rounded quotient `back` of `y Q` by `s`,
/// where `y` is `t` modulo `s`, `back` is within `(3328 + 2 s) / (2 s)` of
/// `x` on the circle of residues.
#[verifier::rlimit(40)]
proof fn lemma_rounding_error(x: int, s: int, half: int)
    requires
        0 <= x < 3329,
        1 <= half <= 1024,
        s == 2 * half,
    ensures
        mod_distance((((x * s + 1664) / 3329) % s * 3329 + half) / s, x) <= (3328 + 2 * s) / (2
            * s),
{
    let t = (x * s + 1664) / 3329;
    let rest = (x * s + 1664) % 3329;
    lemma_fundamental_div_mod(x * s + 1664, 3329);
    lemma_mod_bound(x * s + 1664, 3329);
    assert(0 <= x * s) by (nonlinear_arith)
        requires
            0 <= x,
            0 < s,
    ;
    assert(x * s <= 3328 * s) by (nonlinear_arith)
        requires
            x <= 3328,
            0 < s,
    ;
    assert(0 <= t <= s) by (nonlinear_arith)
        requires
            x * s + 1664 == 3329 * t + rest,
            0 <= rest < 3329,
            0 <= x * s <= 3328 * s,
            0 < s <= 2048,
    ;
    let bound = (3328 + 2 * s) / (2 * s);
    lemma_fundamental_div_mod(3328 + 2 * s, 2 * s);
    lemma_mod_bound(3328 + 2 * s, 2 * s);
    let bound_rest = (3328 + 2 * s) % (2 * s);
    assert(2 * s * bound + bound_rest == 3328 + 2 * s);
    if t == s {
        lemma_mod_self_is_zero(s);
        let back = (0 * 3329 + half) / s;
        lemma_small_div(half, s);
        assert(back == 0);
        assert(s * (3329 - x) <= 1664) by (nonlinear_arith)
            requires
                x * s + 1664 == 3329 * s + rest,
                0 <= rest,
        ;
        assert(3329 - x <= bound) by (nonlinear_arith)
            requires
                s * (3329 - x) <= 1664,
                2 * s * bound + bound_rest == 3328 + 2 * s,
                0 <= bound_rest < 2 * s,
                0 < s,
                0 < 3329 - x,
        ;
        if x == 0 {
            lemma_small_mod(0, 3329);
        } else {
            lemma_fundamental_div_mod_converse(0 - x, 3329, -1, 3329 - x);
            lemma_small_mod(x as nat, 3329);
        }
    } else {
        lemma_small_mod(t as nat, s as nat);
        let back = (t * 3329 + half) / s;
        let back_rest = (t * 3329 + half) % s;
        lemma_fundamental_div_mod(t * 3329 + half, s);
        lemma_mod_bound(t * 3329 + half, s);
        assert(s * back + back_rest == t * 3329 + half);
        // s * (back - x) = 3329 t - x s + half - back_rest
        //               = 1664 - rest + half - back_rest
        assert(s * (back - x) == 1664 - rest + half - back_rest) by (nonlinear_arith)
            requires
                s * back + back_rest == t * 3329 + half,
                x * s + 1664 == 3329 * t + rest,
        ;
        assert(-bound <= back - x <= bound) by (nonlinear_arith)
            requires
                s * (back - x) == 1664 - rest + half - back_rest,
                0 <= rest < 3329,
                0 <= back_rest < s,
                s == 2 * half,
                2 * s * bound + bound_rest == 3328 + 2 * s,
                0 <= bound_rest < 2 * s,
                0 < s,
        ;
        assert(bound <= 833) by (nonlinear_arith)
            requires
                2 * s * bound + bound_rest == 3328 + 2 * s,
                0 <= bound_rest,
                2 <= s,
        ;
        let diff = back - x;
        if diff >= 0 {
            lemma_small_mod(diff as nat, 3329);
            if diff > 0 {
                lemma_fundamental_div_mod_converse(-diff, 3329, -1, 3329 - diff);
            }
        } else {
            lemma_small_mod((-diff) as nat, 3329);
            lemma_fundamental_div_mod_converse(diff, 3329, -1, 3329 + diff);
        }
    }
}

/// A positive integer divides itself without remainder.
proof fn lemma_mod_self_is_zero(s: int)
    requires
        s > 0,
    ensures
        s % s == 0,
{
    lemma_fundamental_div_mod_converse(s, s, 1, 0);
}

/// A quotient of a smaller by a larger natural number is zero.
proof fn lemma_small_div(a: int, s: int)
    requires
        0 <= a < s,
    ensures
        a / s == 0,
{
    lemma_fundamental_div_mod_converse(a, s, 0, a);
}

/// Compression to `d` bits followed by decompression moves a residue by at
/// most `ceil(Q / 2^(d + 1))` on the circle of residues.
pub proof fn lemma_compress_decompress_error(x: int, d: nat)
    requires
        0 <= x < 3329,
        1 <= d <= 11,
    ensures
        mod_distance(decompress_spec(compress_spec(x, d), d), x) <= compress_error_bound(d),
{
    lemma2_to64();
    lemma_pow2_unfold(d);
    lemma_pow2_unfold(d + 1);
    lemma_pow2_pos((d - 1) as nat);
    lemma_pow2_strictly_increases((d - 1) as nat, 11);
    let half = pow2((d - 1) as nat) as int;
    let s = pow2(d) as int;
    lemma_rounding_error(x, s, half);
    assert(3329 + pow2(d + 1) - 1 == 3328 + 2 * s);
}

} // verus!
