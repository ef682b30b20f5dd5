//! The product of the ring is the negacyclic convolution of the coefficient
//! sequences: the transform turns multiplication by X into a twist of each
//! coefficient pair, and the product of the transformed domain is bilinear
//! and commutes with that twist.

use vstd::prelude::*;
use vstd::arithmetic::div_mod::lemma_small_mod;
use vstd::arithmetic::div_mod::lemma_mod_multiples_vanish;
use crate::field::fadd;
use crate::field::fsub;
use crate::field::fmul;
use crate::field::lemma_fadd_congruent;
use crate::field::lemma_fsub_congruent;
use crate::field::lemma_fmul_congruent;
use crate::poly::zeta;
use crate::poly::gamma;
use crate::poly::is_layer_len;
use crate::poly::ntt_layer;
use crate::poly::ntt_layers;
use crate::poly::ntt_spec;
use crate::poly::multiply_ntt_spec;
use crate::poly::poly_mul;
use crate::poly::poly_add;
use crate::poly::poly_scale;
use crate::poly::zero_poly;
use crate::ntt_laws::is_poly;
use crate::ntt_laws::lemma_ntt_layers_scale;
use crate::ntt_laws::lemma_ntt_layers_is_poly;
use crate::twiddle::lemma_twiddle_squares;
use crate::twiddle::lemma_factor_constants;
use crate::ntt_laws::lemma_ntt_additive;
use crate::ntt_laws::lemma_intt_ntt;

verus! {

/// The constant `c` of the modulus `X^size - c` that belongs to block `b` of
/// the blocks of `size` coefficients: -1 for the whole sequence, and for the
/// two halves of a block that was split with the twiddle factor `z`, `z` and
/// `-z`.
pub open spec fn wrap(size: int, b: int) -> int {
    if size == 256 {
        3328
    } else if b % 2 == 0 {
        zeta(128int / size + b / 2)
    } else {
        fsub(0, zeta(128int / size + b / 2))
    }
}

/// Multiplication by X within each block of `size` coefficients: every
/// coefficient moves up by one place, and the last one of a block comes back
/// at its start, times the constant of the block.
pub open spec fn block_shift(a: Seq<int>, size: int) -> Seq<int> {
    Seq::new(
        256,
        |j: int|
            if j % size == 0 {
                fmul(wrap(size, j / size), a[j + size - 1])
            } else {
                a[j - 1]
            },
    )
}

/// The sizes of the blocks before and between the layers: the powers of two
/// from 2 to 256.
pub open spec fn is_block_size(size: int) -> bool {
    is_layer_len(size) || size == 256
}

/// The constant of a block that is about to be split is the square of the
/// twiddle factor that splits it.
pub proof fn lemma_wrap_is_square(len: int, b: int)
    requires
        is_layer_len(len),
        0 <= b < 128int / len,
    ensures
        wrap(2 * len, b) == fmul(zeta(128int / len + b), zeta(128int / len + b)),
{
    if len == 128 {
        assert(128int / 128 == 1);
        assert(zeta(1) == 1729);
        assert((1729int * 1729) % 3329 == 3328);
    } else {
        let groups = 128int / (2 * len);
        let s = groups + b / 2;
        if len == 2 {
            assert(128int / 2 == 64 && 128int / 4 == 32);
        } else if len == 4 {
            assert(128int / 4 == 32 && 128int / 8 == 16);
        } else if len == 8 {
            assert(128int / 8 == 16 && 128int / 16 == 8);
        } else if len == 16 {
            assert(128int / 16 == 8 && 128int / 32 == 4);
        } else if len == 32 {
            assert(128int / 32 == 4 && 128int / 64 == 2);
        } else {
            assert(128int / 64 == 2 && 128int / 128 == 1);
        }
        assert(128int / len == 2 * groups);
        lemma_twiddle_squares(s);
        if b % 2 == 0 {
            assert(128int / len + b == 2 * s);
        } else {
            assert(128int / len + b == 2 * s + 1);
        }
    }
}

/// The facts about positions that the layer lemma needs. With `o` for the
/// offset of position `j` in its block of `2 * len` coefficients: in which
/// block of `len` coefficients `j` lies, and that the positions whose
/// coefficients meet at `j` lie in the same block of `2 * len` coefficients,
/// with their offsets.
#[verifier::rlimit(40)]
pub proof fn lemma_block_positions(j: int, len: int)
    requires
        is_layer_len(len),
        0 <= j < 256,
    ensures
        0 <= j / (2 * len) < 128int / len,
        0 <= j % (2 * len) < 2 * len,
        j % (2 * len) < len ==> j / len == 2 * (j / (2 * len)) && j % len == j % (2 * len),
        j % (2 * len) >= len ==> j / len == 2 * (j / (2 * len)) + 1 && j % len == j % (2 * len)
            - len,
        j % (2 * len) != 0 ==> j - 1 >= 0 && (j - 1) / (2 * len) == j / (2 * len) && (j - 1) % (2
            * len) == j % (2 * len) - 1,
        j % (2 * len) == 0 ==> j + 2 * len - 1 < 256 && (j + len - 1) / (2 * len) == j / (2
            * len) && (j + len - 1) % (2 * len) == len - 1 && (j + 2 * len - 1) / (2 * len) == j
            / (2 * len) && (j + 2 * len - 1) % (2 * len) == 2 * len - 1 && (j + len) / (2 * len)
            == j / (2 * len) && (j + len) % (2 * len) == len,
        j % (2 * len) == len ==> j + len - 1 < 256 && j - len >= 0 && (j + len - 1) / (2 * len)
            == j / (2 * len) && (j + len - 1) % (2 * len) == 2 * len - 1 && (j - len) / (2
            * len) == j / (2 * len) && (j - len) % (2 * len) == 0,
        j % (2 * len) > len ==> j - len - 1 >= 0 && (j - len - 1) / (2 * len) == j / (2 * len)
            && (j - len - 1) % (2 * len) == j % (2 * len) - len - 1,
        0 < j % (2 * len) < len ==> j + len - 1 < 256 && (j + len - 1) / (2 * len) == j / (2
            * len) && (j + len - 1) % (2 * len) == j % (2 * len) + len - 1,
{
    if len == 2 {
        assert(2 * len == 4);
        assert(128int / 2 == 64);
        assert(j / 2 == 2 * (j / 4) + (if j % 4 < 2 { 0int } else { 1int }));
        assert(j % 2 == j % 4 - (if j % 4 < 2 { 0int } else { 2int }));
        if j % 4 != 0 {
            assert((j - 1) / 4 == j / 4 && (j - 1) % 4 == j % 4 - 1);
        }
        if j % 4 == 0 {
            assert((j + 1) / 4 == j / 4 && (j + 1) % 4 == 1);
            assert((j + 3) / 4 == j / 4 && (j + 3) % 4 == 3);
            assert((j + 2) / 4 == j / 4 && (j + 2) % 4 == 2);
        }
        if j % 4 == 2 {
            assert((j + 1) / 4 == j / 4 && (j + 1) % 4 == 3);
            assert((j - 2) / 4 == j / 4 && (j - 2) % 4 == 0);
        }
        if j % 4 > 2 {
            assert((j - 3) / 4 == j / 4 && (j - 3) % 4 == j % 4 - 3);
        }
        if 0 < j % 4 < 2 {
            assert((j + 1) / 4 == j / 4 && (j + 1) % 4 == j % 4 + 1);
        }
    } else if len == 4 {
        assert(2 * len == 8);
        assert(128int / 4 == 32);
        assert(j / 4 == 2 * (j / 8) + (if j % 8 < 4 { 0int } else { 1int }));
        assert(j % 4 == j % 8 - (if j % 8 < 4 { 0int } else { 4int }));
        if j % 8 != 0 {
            assert((j - 1) / 8 == j / 8 && (j - 1) % 8 == j % 8 - 1);
        }
        if j % 8 == 0 {
            assert((j + 3) / 8 == j / 8 && (j + 3) % 8 == 3);
            assert((j + 7) / 8 == j / 8 && (j + 7) % 8 == 7);
            assert((j + 4) / 8 == j / 8 && (j + 4) % 8 == 4);
        }
        if j % 8 == 4 {
            assert((j + 3) / 8 == j / 8 && (j + 3) % 8 == 7);
            assert((j - 4) / 8 == j / 8 && (j - 4) % 8 == 0);
        }
        if j % 8 > 4 {
            assert((j - 5) / 8 == j / 8 && (j - 5) % 8 == j % 8 - 5);
        }
        if 0 < j % 8 < 4 {
            assert((j + 3) / 8 == j / 8 && (j + 3) % 8 == j % 8 + 3);
        }
    } else if len == 8 {
        assert(2 * len == 16);
        assert(128int / 8 == 16);
        assert(j / 8 == 2 * (j / 16) + (if j % 16 < 8 { 0int } else { 1int }));
        assert(j % 8 == j % 16 - (if j % 16 < 8 { 0int } else { 8int }));
        if j % 16 != 0 {
            assert((j - 1) / 16 == j / 16 && (j - 1) % 16 == j % 16 - 1);
        }
        if j % 16 == 0 {
            assert((j + 7) / 16 == j / 16 && (j + 7) % 16 == 7);
            assert((j + 15) / 16 == j / 16 && (j + 15) % 16 == 15);
            assert((j + 8) / 16 == j / 16 && (j + 8) % 16 == 8);
        }
        if j % 16 == 8 {
            assert((j + 7) / 16 == j / 16 && (j + 7) % 16 == 15);
            assert((j - 8) / 16 == j / 16 && (j - 8) % 16 == 0);
        }
        if j % 16 > 8 {
            assert((j - 9) / 16 == j / 16 && (j - 9) % 16 == j % 16 - 9);
        }
        if 0 < j % 16 < 8 {
            assert((j + 7) / 16 == j / 16 && (j + 7) % 16 == j % 16 + 7);
        }
    } else if len == 16 {
        assert(2 * len == 32);
        assert(128int / 16 == 8);
        assert(j / 16 == 2 * (j / 32) + (if j % 32 < 16 { 0int } else { 1int }));
        assert(j % 16 == j % 32 - (if j % 32 < 16 { 0int } else { 16int }));
        if j % 32 != 0 {
            assert((j - 1) / 32 == j / 32 && (j - 1) % 32 == j % 32 - 1);
        }
        if j % 32 == 0 {
            assert((j + 15) / 32 == j / 32 && (j + 15) % 32 == 15);
            assert((j + 31) / 32 == j / 32 && (j + 31) % 32 == 31);
            assert((j + 16) / 32 == j / 32 && (j + 16) % 32 == 16);
        }
        if j % 32 == 16 {
            assert((j + 15) / 32 == j / 32 && (j + 15) % 32 == 31);
            assert((j - 16) / 32 == j / 32 && (j - 16) % 32 == 0);
        }
        if j % 32 > 16 {
            assert((j - 17) / 32 == j / 32 && (j - 17) % 32 == j % 32 - 17);
        }
        if 0 < j % 32 < 16 {
            assert((j + 15) / 32 == j / 32 && (j + 15) % 32 == j % 32 + 15);
        }
    } else if len == 32 {
        assert(2 * len == 64);
        assert(128int / 32 == 4);
        assert(j / 32 == 2 * (j / 64) + (if j % 64 < 32 { 0int } else { 1int }));
        assert(j % 32 == j % 64 - (if j % 64 < 32 { 0int } else { 32int }));
        if j % 64 != 0 {
            assert((j - 1) / 64 == j / 64 && (j - 1) % 64 == j % 64 - 1);
        }
        if j % 64 == 0 {
            assert((j + 31) / 64 == j / 64 && (j + 31) % 64 == 31);
            assert((j + 63) / 64 == j / 64 && (j + 63) % 64 == 63);
            assert((j + 32) / 64 == j / 64 && (j + 32) % 64 == 32);
        }
        if j % 64 == 32 {
            assert((j + 31) / 64 == j / 64 && (j + 31) % 64 == 63);
            assert((j - 32) / 64 == j / 64 && (j - 32) % 64 == 0);
        }
        if j % 64 > 32 {
            assert((j - 33) / 64 == j / 64 && (j - 33) % 64 == j % 64 - 33);
        }
        if 0 < j % 64 < 32 {
            assert((j + 31) / 64 == j / 64 && (j + 31) % 64 == j % 64 + 31);
        }
    } else if len == 64 {
        assert(2 * len == 128);
        assert(128int / 64 == 2);
        assert(j / 64 == 2 * (j / 128) + (if j % 128 < 64 { 0int } else { 1int }));
        assert(j % 64 == j % 128 - (if j % 128 < 64 { 0int } else { 64int }));
        if j % 128 != 0 {
            assert((j - 1) / 128 == j / 128 && (j - 1) % 128 == j % 128 - 1);
        }
        if j % 128 == 0 {
            assert((j + 63) / 128 == j / 128 && (j + 63) % 128 == 63);
            assert((j + 127) / 128 == j / 128 && (j + 127) % 128 == 127);
            assert((j + 64) / 128 == j / 128 && (j + 64) % 128 == 64);
        }
        if j % 128 == 64 {
            assert((j + 63) / 128 == j / 128 && (j + 63) % 128 == 127);
            assert((j - 64) / 128 == j / 128 && (j - 64) % 128 == 0);
        }
        if j % 128 > 64 {
            assert((j - 65) / 128 == j / 128 && (j - 65) % 128 == j % 128 - 65);
        }
        if 0 < j % 128 < 64 {
            assert((j + 63) / 128 == j / 128 && (j + 63) % 128 == j % 128 + 63);
        }
    } else {
        assert(2 * len == 256);
        assert(128int / 128 == 1);
        assert(j / 128 == 2 * (j / 256) + (if j % 256 < 128 { 0int } else { 1int }));
        assert(j % 128 == j % 256 - (if j % 256 < 128 { 0int } else { 128int }));
        if j % 256 != 0 {
            assert((j - 1) / 256 == j / 256 && (j - 1) % 256 == j % 256 - 1);
        }
        if j % 256 == 0 {
            assert((j + 127) / 256 == j / 256 && (j + 127) % 256 == 127);
            assert((j + 255) / 256 == j / 256 && (j + 255) % 256 == 255);
            assert((j + 128) / 256 == j / 256 && (j + 128) % 256 == 128);
        }
        if j % 256 == 128 {
            assert((j + 127) / 256 == j / 256 && (j + 127) % 256 == 255);
            assert((j - 128) / 256 == j / 256 && (j - 128) % 256 == 0);
        }
        if j % 256 > 128 {
            assert((j - 129) / 256 == j / 256 && (j - 129) % 256 == j % 256 - 129);
        }
        if 0 < j % 256 < 128 {
            assert((j + 127) / 256 == j / 256 && (j + 127) % 256 == j % 256 + 127);
        }
    }
}

/// The constants of the two halves of a block that is split with the twiddle
/// factor `w`.
proof fn lemma_wrap_of_halves(len: int, b: int)
    requires
        is_layer_len(len),
        0 <= b,
    ensures
        wrap(len, 2 * b) == zeta(128int / len + b),
        wrap(len, 2 * b + 1) == fsub(0, zeta(128int / len + b)),
{
    assert((2 * b) % 2 == 0 && (2 * b) / 2 == b);
    assert((2 * b + 1) % 2 == 1 && (2 * b + 1) / 2 == b);
}

/// The first coefficient of the lower half after a shift and a butterfly:
/// `c x + w y` is `w (y + w x)` when `c` is the square of `w`.
#[verifier::rlimit(40)]
proof fn lemma_shifted_butterfly_low(c: int, w: int, x: int, y: int)
    requires
        c == fmul(w, w),
    ensures
        fadd(fmul(c, x), fmul(w, y)) == fmul(w, fadd(y, fmul(w, x))),
{
    lemma_small_mod(c as nat, 3329);
    lemma_fmul_congruent(c, x, w * w, x);
    lemma_fmul_congruent(w, y, w, y);
    lemma_fadd_congruent(fmul(c, x), fmul(w, y), w * w * x, w * y);
    lemma_fmul_congruent(w, x, w, x);
    lemma_fadd_congruent(y, fmul(w, x), y, w * x);
    lemma_fmul_congruent(w, fadd(y, fmul(w, x)), w, y + w * x);
    assert(w * w * x + w * y == w * (y + w * x)) by (nonlinear_arith);
}

/// The first coefficient of the upper half after a shift and a butterfly:
/// `c x - w y` is `-w (y - w x)` when `c` is the square of `w`.
#[verifier::rlimit(40)]
proof fn lemma_shifted_butterfly_high(c: int, w: int, x: int, y: int)
    requires
        c == fmul(w, w),
    ensures
        fsub(fmul(c, x), fmul(w, y)) == fmul(fsub(0, w), fsub(y, fmul(w, x))),
{
    lemma_small_mod(c as nat, 3329);
    lemma_fmul_congruent(c, x, w * w, x);
    lemma_fmul_congruent(w, y, w, y);
    lemma_fsub_congruent(fmul(c, x), fmul(w, y), w * w * x, w * y);
    lemma_fmul_congruent(w, x, w, x);
    lemma_fsub_congruent(y, fmul(w, x), y, w * x);
    lemma_fsub_congruent(0, w, 0, w);
    lemma_fmul_congruent(fsub(0, w), fsub(y, fmul(w, x)), 0 - w, y - w * x);
    assert(w * w * x - w * y == (0 - w) * (y - w * x)) by (nonlinear_arith);
}

/// The layer lemma at one position.
#[verifier::rlimit(40)]
proof fn lemma_layer_of_block_shift_at(a: Seq<int>, len: int, j: int)
    requires
        a.len() == 256,
        is_layer_len(len),
        0 <= j < 256,
    ensures
        ntt_layer(block_shift(a, 2 * len), len)[j] == block_shift(ntt_layer(a, len), len)[j],
{
    let shifted = block_shift(a, 2 * len);
    let plain = ntt_layer(a, len);
    lemma_block_positions(j, len);
    let b = j / (2 * len);
    let o = j % (2 * len);
    let w = zeta(128int / len + b);
    let c = wrap(2 * len, b);
    lemma_wrap_is_square(len, b);
    lemma_wrap_of_halves(len, b);
    if o == 0 {
        let x = a[j + 2 * len - 1];
        let y = a[j + len - 1];
        assert(shifted[j] == fmul(c, x));
        assert(shifted[j + len] == y);
        assert(plain[j + len - 1] == fadd(y, fmul(w, x)));
        lemma_shifted_butterfly_low(c, w, x, y);
    } else if o < len {
        assert(shifted[j] == a[j - 1]);
        assert(shifted[j + len] == a[j + len - 1]);
        assert(plain[j - 1] == fadd(a[j - 1], fmul(w, a[j - 1 + len])));
    } else if o == len {
        let x = a[j + len - 1];
        let y = a[j - 1];
        assert(shifted[j - len] == fmul(c, x));
        assert(shifted[j] == y);
        assert(plain[j + len - 1] == fsub(a[j + len - 1 - len], fmul(w, a[j + len - 1])));
        lemma_shifted_butterfly_high(c, w, x, y);
    } else {
        assert(shifted[j] == a[j - 1]);
        assert(shifted[j - len] == a[j - len - 1]);
        assert(plain[j - 1] == fsub(a[j - 1 - len], fmul(w, a[j - 1])));
    }
}

/// A layer of forward butterflies turns multiplication by X within the
/// blocks of `2 * len` coefficients into multiplication by X within the
/// blocks of `len` coefficients.
pub proof fn lemma_layer_of_block_shift(a: Seq<int>, len: int)
    requires
        a.len() == 256,
        is_layer_len(len),
    ensures
        ntt_layer(block_shift(a, 2 * len), len) == block_shift(ntt_layer(a, len), len),
{
    let left = ntt_layer(block_shift(a, 2 * len), len);
    let right = block_shift(ntt_layer(a, len), len);
    assert forall|j: int| 0 <= j < 256 implies left[j] == right[j] by {
        lemma_layer_of_block_shift_at(a, len, j);
    }
    assert(left =~= right);
}

/// The forward layers from distance `len` down turn multiplication by X
/// within the blocks of `2 * len` coefficients into multiplication by X
/// within the coefficient pairs.
pub proof fn lemma_layers_of_block_shift(a: Seq<int>, len: int)
    requires
        a.len() == 256,
        is_layer_len(len) || len == 1,
    ensures
        ntt_layers(block_shift(a, 2 * len), len) == block_shift(ntt_layers(a, len), 2),
    decreases len,
{
    if len >= 2 {
        lemma_layer_of_block_shift(a, len);
        lemma_layers_of_block_shift(ntt_layer(a, len), len / 2);
        assert(2 * (len / 2) == len);
    }
}

/// Multiplication by X in the ring: every coefficient moves up by one place,
/// and the last one comes back at the start with its sign changed.
pub open spec fn shift(g: Seq<int>) -> Seq<int> {
    Seq::new(256, |k: int| if k == 0 { fsub(0, g[255]) } else { g[k - 1] })
}

/// Multiplication by X, `n` times.
pub open spec fn shift_n(g: Seq<int>, n: nat) -> Seq<int>
    decreases n,
{
    if n == 0 {
        g
    } else {
        shift(shift_n(g, (n - 1) as nat))
    }
}

/// Multiplication by X in the transformed domain: the pair `(a0, a1)` of the
/// factor with the constant `c` becomes `(c a1, a0)`.
pub open spec fn twist(a: Seq<int>) -> Seq<int> {
    Seq::new(256, |j: int| if j % 2 == 0 { fmul(gamma(j / 2), a[j + 1]) } else { a[j - 1] })
}

/// The twist, `n` times.
pub open spec fn twist_n(a: Seq<int>, n: nat) -> Seq<int>
    decreases n,
{
    if n == 0 {
        a
    } else {
        twist(twist_n(a, (n - 1) as nat))
    }
}

/// The coefficients of the constant polynomial 1.
pub open spec fn unit_poly() -> Seq<int> {
    Seq::new(256, |k: int| if k == 0 { 1int } else { 0int })
}

/// The transformed representation of the constant polynomial 1: the pair
/// `(1, 0)` in every factor.
pub open spec fn unit_ntt() -> Seq<int> {
    Seq::new(256, |j: int| if j % 2 == 0 { 1int } else { 0int })
}

/// The term that the coefficients `f[u]` and `g` contribute to coefficient
/// `k` of the negacyclic convolution: the product with `g[k - u]`, or, where
/// the degrees add up to 256 or more, the negative of the product with
/// `g[256 + k - u]`.
pub open spec fn negacyclic_term(f: Seq<int>, g: Seq<int>, k: int, u: int) -> int {
    if u <= k {
        f[u] * g[k - u]
    } else {
        -(f[u] * g[256 + k - u])
    }
}

/// The sum of the terms of `f[0]`, ..., `f[n - 1]` for coefficient `k`.
pub open spec fn negacyclic_sum(f: Seq<int>, g: Seq<int>, k: int, n: nat) -> int
    decreases n,
{
    if n == 0 {
        0
    } else {
        negacyclic_sum(f, g, k, (n - 1) as nat) + negacyclic_term(f, g, k, n - 1)
    }
}

/// The schoolbook product of `f` and `g` modulo `X^256 + 1`, coefficients
/// reduced modulo Q.
pub open spec fn negacyclic(f: Seq<int>, g: Seq<int>) -> Seq<int> {
    Seq::new(256, |k: int| negacyclic_sum(f, g, k, 256) % 3329)
}

/// The sum of `f[u] X^u g` over `u < n`, built up in the ring.
pub open spec fn shifted_sum(f: Seq<int>, g: Seq<int>, n: nat) -> Seq<int>
    decreases n,
{
    if n == 0 {
        zero_poly()
    } else {
        poly_add(
            shifted_sum(f, g, (n - 1) as nat),
            poly_scale(f[n - 1], shift_n(g, (n - 1) as nat)),
        )
    }
}

/// The sum of `f[u]` times the `u`-fold twist of `a` over `u < n`.
pub open spec fn twisted_sum(f: Seq<int>, a: Seq<int>, n: nat) -> Seq<int>
    decreases n,
{
    if n == 0 {
        zero_poly()
    } else {
        poly_add(
            twisted_sum(f, a, (n - 1) as nat),
            poly_scale(f[n - 1], twist_n(a, (n - 1) as nat)),
        )
    }
}

/// Multiplication by X keeps coefficients reduced.
pub proof fn lemma_shift_n_is_poly(g: Seq<int>, n: nat)
    requires
        is_poly(g),
    ensures
        is_poly(shift_n(g, n)),
    decreases n,
{
    if n > 0 {
        lemma_shift_n_is_poly(g, (n - 1) as nat);
        let before = shift_n(g, (n - 1) as nat);
        let after = shift(before);
        assert forall|k: int| 0 <= k < 256 implies 0 <= #[trigger] after[k] < 3329 by {
            if k > 0 {
                assert(after[k] == before[k - 1]);
            }
        }
    }
}

/// The transform turns multiplication by X into the twist.
#[verifier::rlimit(40)]
pub proof fn lemma_ntt_of_shift(g: Seq<int>)
    requires
        is_poly(g),
    ensures
        ntt_spec(shift(g)) == twist(ntt_spec(g)),
{
    let whole = block_shift(g, 256);
    assert forall|k: int| 0 <= k < 256 implies shift(g)[k] == whole[k] by {
        if k == 0 {
            lemma_fsub_congruent(0, g[255], 0, g[255]);
            lemma_fmul_congruent(3328, g[255], 3328, g[255]);
            assert(3328 * g[255] == 3329 * g[255] + (0 - g[255]));
            lemma_mod_multiples_vanish(g[255], 0 - g[255], 3329);
        }
    }
    assert(shift(g) =~= whole);
    lemma_layers_of_block_shift(g, 128);
    let image = ntt_spec(g);
    let pairs = block_shift(image, 2);
    assert forall|j: int| 0 <= j < 256 implies twist(image)[j] == pairs[j] by {
        if j % 2 == 0 {
            let b = j / 2;
            lemma_factor_constants(b / 2);
            assert(128int / 2 == 64);
            if b % 2 == 0 {
                assert(b == 2 * (b / 2));
            } else {
                assert(b == 2 * (b / 2) + 1);
            }
        }
    }
    assert(twist(image) =~= pairs);
}

/// The transform turns `n` multiplications by X into `n` twists.
pub proof fn lemma_ntt_of_shift_n(g: Seq<int>, n: nat)
    requires
        is_poly(g),
    ensures
        ntt_spec(shift_n(g, n)) == twist_n(ntt_spec(g), n),
    decreases n,
{
    if n > 0 {
        lemma_ntt_of_shift_n(g, (n - 1) as nat);
        lemma_shift_n_is_poly(g, (n - 1) as nat);
        lemma_ntt_of_shift(shift_n(g, (n - 1) as nat));
    }
}

/// The transform of the zero polynomial is zero.
pub proof fn lemma_ntt_of_zero()
    ensures
        ntt_spec(zero_poly()) == zero_poly(),
{
    let zero = zero_poly();
    lemma_ntt_layers_scale(zero, 128, 0);
    assert(poly_scale(0, zero) =~= zero);
    assert(poly_scale(0, ntt_spec(zero)) =~= zero) by {
        assert forall|j: int| 0 <= j < 256 implies poly_scale(0, ntt_spec(zero))[j] == 0 by {
            assert(ntt_spec(zero)[j] * 0 == 0) by (nonlinear_arith);
        }
    }
}

/// The sequence with 1 at the first place of each block of `size`
/// coefficients and 0 elsewhere.
pub open spec fn comb(size: int) -> Seq<int> {
    Seq::new(256, |j: int| if j % size == 0 { 1int } else { 0int })
}

/// The forward layers from distance `len` down take the comb of the blocks
/// of `2 * len` coefficients to the comb of the coefficient pairs.
pub proof fn lemma_ntt_layers_of_comb(len: int)
    requires
        is_layer_len(len) || len == 1,
    ensures
        ntt_layers(comb(2 * len), len) == comb(2),
    decreases len,
{
    if len >= 2 {
        let before = comb(2 * len);
        let left = ntt_layer(before, len);
        let right = comb(len);
        assert forall|j: int| 0 <= j < 256 implies left[j] == right[j] by {
            lemma_block_positions(j, len);
            crate::ntt_laws::lemma_butterfly_positions(j, len);
            let z = zeta(128int / len + j / (2 * len));
            assert(z * 0 == 0) by (nonlinear_arith);
            if j % (2 * len) < len {
                assert(before[j + len] == 0);
            } else {
                assert(before[j] == 0);
            }
        }
        assert(left =~= right);
        lemma_ntt_layers_of_comb(len / 2);
        assert(2 * (len / 2) == len);
    }
}

/// The transform of the constant polynomial 1.
pub proof fn lemma_ntt_of_unit()
    ensures
        ntt_spec(unit_poly()) == unit_ntt(),
{
    lemma_ntt_layers_of_comb(128);
    assert(unit_poly() =~= comb(256));
    assert(unit_ntt() =~= comb(2));
}

/// The plain products of one coefficient pair as residues of integer
/// expressions, with `p` for the constant of the factor.
proof fn lemma_pair_product_plain(a0: int, a1: int, b0: int, b1: int, p: int)
    ensures
        fadd(fmul(a0, b0), fmul(fmul(a1, b1), p)) == (a0 * b0 + (a1 * b1) * p) % 3329,
        fadd(fmul(a0, b1), fmul(a1, b0)) == (a0 * b1 + a1 * b0) % 3329,
{
    lemma_fmul_congruent(a0, b0, a0, b0);
    lemma_fmul_congruent(a1, b1, a1, b1);
    lemma_fmul_congruent(fmul(a1, b1), p, a1 * b1, p);
    lemma_fadd_congruent(fmul(a0, b0), fmul(fmul(a1, b1), p), a0 * b0, (a1 * b1) * p);
    lemma_fmul_congruent(a0, b1, a0, b1);
    lemma_fmul_congruent(a1, b0, a1, b0);
    lemma_fadd_congruent(fmul(a0, b1), fmul(a1, b0), a0 * b1, a1 * b0);
}

/// The products of one coefficient pair are additive in the first pair.
#[verifier::rlimit(40)]
proof fn lemma_pair_product_additive(
    a0: int,
    a1: int,
    x0: int,
    x1: int,
    b0: int,
    b1: int,
    p: int,
)
    ensures
        fadd(fmul(fadd(a0, x0), b0), fmul(fmul(fadd(a1, x1), b1), p)) == fadd(
            fadd(fmul(a0, b0), fmul(fmul(a1, b1), p)),
            fadd(fmul(x0, b0), fmul(fmul(x1, b1), p)),
        ),
        fadd(fmul(fadd(a0, x0), b1), fmul(fadd(a1, x1), b0)) == fadd(
            fadd(fmul(a0, b1), fmul(a1, b0)),
            fadd(fmul(x0, b1), fmul(x1, b0)),
        ),
{
    lemma_pair_product_plain(a0, a1, b0, b1, p);
    lemma_pair_product_plain(x0, x1, b0, b1, p);
    lemma_fadd_congruent(a0, x0, a0, x0);
    lemma_fadd_congruent(a1, x1, a1, x1);
    lemma_fmul_congruent(fadd(a0, x0), b0, a0 + x0, b0);
    lemma_fmul_congruent(fadd(a1, x1), b1, a1 + x1, b1);
    lemma_fmul_congruent(fmul(fadd(a1, x1), b1), p, (a1 + x1) * b1, p);
    lemma_fadd_congruent(
        fmul(fadd(a0, x0), b0),
        fmul(fmul(fadd(a1, x1), b1), p),
        (a0 + x0) * b0,
        ((a1 + x1) * b1) * p,
    );
    lemma_fadd_congruent(
        fadd(fmul(a0, b0), fmul(fmul(a1, b1), p)),
        fadd(fmul(x0, b0), fmul(fmul(x1, b1), p)),
        a0 * b0 + (a1 * b1) * p,
        x0 * b0 + (x1 * b1) * p,
    );
    assert((a0 + x0) * b0 == a0 * b0 + x0 * b0) by (nonlinear_arith);
    assert((a1 + x1) * b1 == a1 * b1 + x1 * b1) by (nonlinear_arith);
    assert((a1 * b1 + x1 * b1) * p == (a1 * b1) * p + (x1 * b1) * p) by (nonlinear_arith);
    lemma_fmul_congruent(fadd(a0, x0), b1, a0 + x0, b1);
    lemma_fmul_congruent(fadd(a1, x1), b0, a1 + x1, b0);
    lemma_fadd_congruent(
        fmul(fadd(a0, x0), b1),
        fmul(fadd(a1, x1), b0),
        (a0 + x0) * b1,
        (a1 + x1) * b0,
    );
    lemma_fadd_congruent(
        fadd(fmul(a0, b1), fmul(a1, b0)),
        fadd(fmul(x0, b1), fmul(x1, b0)),
        a0 * b1 + a1 * b0,
        x0 * b1 + x1 * b0,
    );
    assert((a0 + x0) * b1 == a0 * b1 + x0 * b1) by (nonlinear_arith);
    assert((a1 + x1) * b0 == a1 * b0 + x1 * b0) by (nonlinear_arith);
}

/// A common factor of the first pair passes through the products of one
/// coefficient pair.
#[verifier::rlimit(40)]
proof fn lemma_pair_product_scales(a0: int, a1: int, b0: int, b1: int, p: int, c: int)
    ensures
        fadd(fmul(fmul(a0, c), b0), fmul(fmul(fmul(a1, c), b1), p)) == fmul(
            fadd(fmul(a0, b0), fmul(fmul(a1, b1), p)),
            c,
        ),
        fadd(fmul(fmul(a0, c), b1), fmul(fmul(a1, c), b0)) == fmul(
            fadd(fmul(a0, b1), fmul(a1, b0)),
            c,
        ),
{
    lemma_pair_product_plain(a0, a1, b0, b1, p);
    lemma_fmul_congruent(a0, c, a0, c);
    lemma_fmul_congruent(a1, c, a1, c);
    lemma_fmul_congruent(fmul(a0, c), b0, a0 * c, b0);
    lemma_fmul_congruent(fmul(a1, c), b1, a1 * c, b1);
    lemma_fmul_congruent(fmul(fmul(a1, c), b1), p, (a1 * c) * b1, p);
    lemma_fadd_congruent(
        fmul(fmul(a0, c), b0),
        fmul(fmul(fmul(a1, c), b1), p),
        (a0 * c) * b0,
        ((a1 * c) * b1) * p,
    );
    lemma_fmul_congruent(fadd(fmul(a0, b0), fmul(fmul(a1, b1), p)), c, a0 * b0 + (a1 * b1) * p, c);
    assert((a0 * c) * b0 == (a0 * b0) * c) by (nonlinear_arith);
    assert((a1 * c) * b1 == (a1 * b1) * c) by (nonlinear_arith);
    assert(((a1 * b1) * c) * p == ((a1 * b1) * p) * c) by (nonlinear_arith);
    assert((a0 * b0 + (a1 * b1) * p) * c == (a0 * b0) * c + ((a1 * b1) * p) * c)
        by (nonlinear_arith);
    lemma_fmul_congruent(fmul(a0, c), b1, a0 * c, b1);
    lemma_fmul_congruent(fmul(a1, c), b0, a1 * c, b0);
    lemma_fadd_congruent(
        fmul(fmul(a0, c), b1),
        fmul(fmul(a1, c), b0),
        (a0 * c) * b1,
        (a1 * c) * b0,
    );
    lemma_fmul_congruent(fadd(fmul(a0, b1), fmul(a1, b0)), c, a0 * b1 + a1 * b0, c);
    assert((a0 * c) * b1 == (a0 * b1) * c) by (nonlinear_arith);
    assert((a1 * c) * b0 == (a1 * b0) * c) by (nonlinear_arith);
    assert((a0 * b1 + a1 * b0) * c == (a0 * b1) * c + (a1 * b0) * c) by (nonlinear_arith);
}

/// The twist of the first pair passes through the products of one
/// coefficient pair.
#[verifier::rlimit(40)]
proof fn lemma_pair_product_twists(a0: int, a1: int, b0: int, b1: int, p: int)
    ensures
        fadd(fmul(fmul(p, a1), b0), fmul(fmul(a0, b1), p)) == fmul(
            p,
            fadd(fmul(a0, b1), fmul(a1, b0)),
        ),
        fadd(fmul(fmul(p, a1), b1), fmul(a0, b0)) == fadd(fmul(a0, b0), fmul(fmul(a1, b1), p)),
{
    lemma_pair_product_plain(a0, a1, b0, b1, p);
    lemma_fmul_congruent(p, a1, p, a1);
    lemma_fmul_congruent(fmul(p, a1), b0, p * a1, b0);
    lemma_fmul_congruent(a0, b1, a0, b1);
    lemma_fmul_congruent(fmul(a0, b1), p, a0 * b1, p);
    lemma_fadd_congruent(
        fmul(fmul(p, a1), b0),
        fmul(fmul(a0, b1), p),
        (p * a1) * b0,
        (a0 * b1) * p,
    );
    lemma_fmul_congruent(p, fadd(fmul(a0, b1), fmul(a1, b0)), p, a0 * b1 + a1 * b0);
    assert((p * a1) * b0 == p * (a1 * b0)) by (nonlinear_arith);
    assert((a0 * b1) * p == p * (a0 * b1)) by (nonlinear_arith);
    assert(p * (a0 * b1 + a1 * b0) == p * (a0 * b1) + p * (a1 * b0)) by (nonlinear_arith);
    lemma_fmul_congruent(fmul(p, a1), b1, p * a1, b1);
    lemma_fmul_congruent(a0, b0, a0, b0);
    lemma_fadd_congruent(fmul(fmul(p, a1), b1), fmul(a0, b0), (p * a1) * b1, a0 * b0);
    assert((p * a1) * b1 == (a1 * b1) * p) by (nonlinear_arith);
}

/// The facts about a position and its pair.
proof fn lemma_pair_positions(j: int)
    requires
        0 <= j < 256,
    ensures
        0 <= j / 2 < 128,
        j % 2 == 0 ==> 2 * (j / 2) == j && (j + 1) / 2 == j / 2 && (j + 1) % 2 == 1,
        j % 2 != 0 ==> 2 * (j / 2) + 1 == j && (j - 1) / 2 == j / 2 && (j - 1) % 2 == 0,
{
}

/// The product of the transformed domain is additive in its first factor.
pub proof fn lemma_multiply_additive(a: Seq<int>, x: Seq<int>, b: Seq<int>)
    requires
        a.len() == 256,
        x.len() == 256,
        b.len() == 256,
    ensures
        multiply_ntt_spec(poly_add(a, x), b) == poly_add(
            multiply_ntt_spec(a, b),
            multiply_ntt_spec(x, b),
        ),
{
    let left = multiply_ntt_spec(poly_add(a, x), b);
    let right = poly_add(multiply_ntt_spec(a, b), multiply_ntt_spec(x, b));
    assert forall|j: int| 0 <= j < 256 implies left[j] == right[j] by {
        lemma_pair_positions(j);
        let i = j / 2;
        lemma_pair_product_additive(
            a[2 * i],
            a[2 * i + 1],
            x[2 * i],
            x[2 * i + 1],
            b[2 * i],
            b[2 * i + 1],
            gamma(i),
        );
    }
    assert(left =~= right);
}

/// A common factor of the first factor passes through the product of the
/// transformed domain.
pub proof fn lemma_multiply_scales(a: Seq<int>, b: Seq<int>, c: int)
    requires
        a.len() == 256,
        b.len() == 256,
    ensures
        multiply_ntt_spec(poly_scale(c, a), b) == poly_scale(c, multiply_ntt_spec(a, b)),
{
    let left = multiply_ntt_spec(poly_scale(c, a), b);
    let right = poly_scale(c, multiply_ntt_spec(a, b));
    assert forall|j: int| 0 <= j < 256 implies left[j] == right[j] by {
        lemma_pair_positions(j);
        let i = j / 2;
        lemma_pair_product_scales(a[2 * i], a[2 * i + 1], b[2 * i], b[2 * i + 1], gamma(i), c);
    }
    assert(left =~= right);
}

/// The twist of the first factor passes through the product of the
/// transformed domain.
pub proof fn lemma_multiply_twist(a: Seq<int>, b: Seq<int>)
    requires
        a.len() == 256,
        b.len() == 256,
    ensures
        multiply_ntt_spec(twist(a), b) == twist(multiply_ntt_spec(a, b)),
{
    let left = multiply_ntt_spec(twist(a), b);
    let right = twist(multiply_ntt_spec(a, b));
    assert forall|j: int| 0 <= j < 256 implies left[j] == right[j] by {
        lemma_pair_positions(j);
        let i = j / 2;
        lemma_pair_product_twists(a[2 * i], a[2 * i + 1], b[2 * i], b[2 * i + 1], gamma(i));
        assert(twist(a)[2 * i] == fmul(gamma(i), a[2 * i + 1]));
        assert(twist(a)[2 * i + 1] == a[2 * i]);
    }
    assert(left =~= right);
}

/// The `n`-fold twist of the first factor passes through the product of the
/// transformed domain.
pub proof fn lemma_multiply_twist_n(a: Seq<int>, b: Seq<int>, n: nat)
    requires
        a.len() == 256,
        b.len() == 256,
    ensures
        multiply_ntt_spec(twist_n(a, n), b) == twist_n(multiply_ntt_spec(a, b), n),
        twist_n(a, n).len() == 256,
    decreases n,
{
    if n > 0 {
        lemma_multiply_twist_n(a, b, (n - 1) as nat);
        lemma_multiply_twist(twist_n(a, (n - 1) as nat), b);
    }
}

/// The transformed representation of 1 is the unit of the product of the
/// transformed domain.
pub proof fn lemma_multiply_unit(b: Seq<int>)
    requires
        is_poly(b),
    ensures
        multiply_ntt_spec(unit_ntt(), b) == b,
{
    let left = multiply_ntt_spec(unit_ntt(), b);
    assert forall|j: int| 0 <= j < 256 implies left[j] == b[j] by {
        lemma_pair_positions(j);
        let i = j / 2;
        let e = unit_ntt();
        assert(e[2 * i] == 1 && e[2 * i + 1] == 0);
        assert(0 * b[2 * i + 1] == 0 && 0 * b[2 * i] == 0 && 0 * gamma(i) == 0);
        lemma_small_mod(b[2 * i] as nat, 3329);
        lemma_small_mod(b[2 * i + 1] as nat, 3329);
    }
    assert(left =~= b);
}

/// The transform takes the sum of `f[u] X^u g` to the sum of `f[u]` times
/// the `u`-fold twist of the transform of `g`.
pub proof fn lemma_ntt_of_shifted_sum(f: Seq<int>, g: Seq<int>, n: nat)
    requires
        is_poly(g),
    ensures
        ntt_spec(shifted_sum(f, g, n)) == twisted_sum(f, ntt_spec(g), n),
        shifted_sum(f, g, n).len() == 256,
    decreases n,
{
    if n == 0 {
        lemma_ntt_of_zero();
    } else {
        let m = (n - 1) as nat;
        lemma_ntt_of_shifted_sum(f, g, m);
        lemma_shift_n_is_poly(g, m);
        let moved = shift_n(g, m);
        lemma_ntt_additive(shifted_sum(f, g, m), poly_scale(f[n - 1], moved));
        lemma_ntt_layers_scale(moved, 128, f[n - 1]);
        lemma_ntt_of_shift_n(g, m);
    }
}

/// The product of the transformed domain takes a sum of twists of `a` to the
/// sum of twists of the product.
pub proof fn lemma_multiply_twisted_sum(f: Seq<int>, a: Seq<int>, b: Seq<int>, n: nat)
    requires
        a.len() == 256,
        b.len() == 256,
    ensures
        multiply_ntt_spec(twisted_sum(f, a, n), b) == twisted_sum(f, multiply_ntt_spec(a, b), n),
        twisted_sum(f, a, n).len() == 256,
    decreases n,
{
    if n == 0 {
        let zero = zero_poly();
        lemma_multiply_scales(zero, b, 0);
        assert(poly_scale(0, zero) =~= zero);
        assert(poly_scale(0, multiply_ntt_spec(zero, b)) =~= zero) by {
            assert forall|j: int| 0 <= j < 256 implies poly_scale(0, multiply_ntt_spec(zero, b))[j]
                == 0 by {
                assert(multiply_ntt_spec(zero, b)[j] * 0 == 0) by (nonlinear_arith);
            }
        }
    } else {
        let m = (n - 1) as nat;
        lemma_multiply_twisted_sum(f, a, b, m);
        lemma_multiply_twist_n(a, b, m);
        let turned = twist_n(a, m);
        lemma_multiply_additive(twisted_sum(f, a, m), poly_scale(f[n - 1], turned), b);
        lemma_multiply_scales(turned, b, f[n - 1]);
    }
}

/// Coefficient `k` of `X^n g`: `g[k - n]`, or the negative of
/// `g[256 + k - n]` where `n` exceeds `k`.
pub proof fn lemma_shift_n_entry(g: Seq<int>, n: nat, k: int)
    requires
        is_poly(g),
        n <= 255,
        0 <= k < 256,
    ensures
        shift_n(g, n)[k] == (if n <= k {
            g[k - n]
        } else {
            fsub(0, g[256 + k - n])
        }),
    decreases n,
{
    if n > 0 {
        let m = (n - 1) as nat;
        if k == 0 {
            lemma_shift_n_entry(g, m, 255);
        } else {
            lemma_shift_n_entry(g, m, k - 1);
        }
    }
}

/// Coefficient `k` of the sum of `f[u] X^u g` over `u < n` is the sum of the
/// terms of the negacyclic convolution, reduced.
#[verifier::rlimit(40)]
pub proof fn lemma_shifted_sum_entry(f: Seq<int>, g: Seq<int>, n: nat, k: int)
    requires
        is_poly(g),
        n <= 256,
        0 <= k < 256,
    ensures
        shifted_sum(f, g, n)[k] == negacyclic_sum(f, g, k, n) % 3329,
    decreases n,
{
    if n == 0 {
        lemma_small_mod(0, 3329);
    } else {
        let m = (n - 1) as nat;
        lemma_shifted_sum_entry(f, g, m, k);
        lemma_shift_n_entry(g, m, k);
        let moved = shift_n(g, m)[k];
        let c = f[n - 1];
        let term = negacyclic_term(f, g, k, n - 1);
        if m <= k {
            lemma_fmul_congruent(moved, c, g[k - m], c);
            assert(g[k - m] * c == c * g[k - m]) by (nonlinear_arith);
        } else {
            lemma_fsub_congruent(0, g[256 + k - m], 0, g[256 + k - m]);
            lemma_fmul_congruent(moved, c, 0 - g[256 + k - m], c);
            assert((0 - g[256 + k - m]) * c == -(c * g[256 + k - m])) by (nonlinear_arith);
        }
        lemma_fadd_congruent(
            shifted_sum(f, g, m)[k],
            fmul(moved, c),
            negacyclic_sum(f, g, k, m),
            term,
        );
    }
}

/// The terms that the constant polynomial 1 contributes pick out one
/// coefficient of `f`.
proof fn lemma_unit_sum(f: Seq<int>, k: int, n: nat)
    requires
        n <= 256,
        0 <= k < 256,
    ensures
        negacyclic_sum(f, unit_poly(), k, n) == (if n > k {
            f[k]
        } else {
            0
        }),
    decreases n,
{
    if n > 0 {
        lemma_unit_sum(f, k, (n - 1) as nat);
        let u = n - 1;
        let e = unit_poly();
        if u <= k {
            assert(e[k - u] == (if u == k { 1int } else { 0int }));
            assert(f[u] * e[k - u] == (if u == k { f[u] } else { 0 })) by (nonlinear_arith)
                requires
                    e[k - u] == (if u == k { 1int } else { 0int }),
            ;
        } else {
            assert(e[256 + k - u] == 0);
            assert(f[u] * e[256 + k - u] == 0) by (nonlinear_arith)
                requires
                    e[256 + k - u] == 0,
            ;
        }
    }
}

/// The product of the ring is the schoolbook product modulo `X^256 + 1`:
/// transforming two polynomials, multiplying in the transformed domain and
/// transforming back gives their negacyclic convolution.
#[verifier::rlimit(40)]
pub proof fn lemma_product_is_negacyclic(f: Seq<int>, g: Seq<int>)
    requires
        is_poly(f),
        is_poly(g),
    ensures
        poly_mul(f, g) == negacyclic(f, g),
{
    let one = unit_poly();
    let image = ntt_spec(g);
    lemma_ntt_layers_is_poly(g, 128);
    // f is the sum of f[u] X^u
    let spread = shifted_sum(f, one, 256);
    lemma_ntt_of_shifted_sum(f, one, 256);
    assert forall|k: int| 0 <= k < 256 implies spread[k] == f[k] by {
        lemma_shifted_sum_entry(f, one, 256, k);
        lemma_unit_sum(f, k, 256);
        lemma_small_mod(f[k] as nat, 3329);
    }
    assert(spread =~= f);
    lemma_ntt_of_unit();
    // so its transform is a sum of twists of the unit
    assert(ntt_spec(f) == twisted_sum(f, unit_ntt(), 256));
    lemma_multiply_twisted_sum(f, unit_ntt(), image, 256);
    lemma_multiply_unit(image);
    // and the product is the transform of the sum of f[u] X^u g
    let product = shifted_sum(f, g, 256);
    lemma_ntt_of_shifted_sum(f, g, 256);
    assert(multiply_ntt_spec(ntt_spec(f), image) == ntt_spec(product));
    assert forall|k: int| 0 <= k < 256 implies 0 <= #[trigger] product[k] < 3329 by {}
    lemma_intt_ntt(product);
    assert forall|k: int| 0 <= k < 256 implies product[k] == negacyclic(f, g)[k] by {
        lemma_shifted_sum_entry(f, g, 256, k);
    }
    assert(product =~= negacyclic(f, g));
}

} // verus!
