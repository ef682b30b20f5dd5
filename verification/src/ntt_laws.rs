//! Laws of the number-theoretic transform: it is additive, and the inverse
//! transform undoes it.

use vstd::prelude::*;
use vstd::arithmetic::div_mod::lemma_add_mod_noop;
use vstd::arithmetic::div_mod::lemma_add_mod_noop_right;
use vstd::arithmetic::div_mod::lemma_sub_mod_noop;
use vstd::arithmetic::div_mod::lemma_sub_mod_noop_right;
use vstd::arithmetic::div_mod::lemma_mul_mod_noop_left;
use vstd::arithmetic::div_mod::lemma_mul_mod_noop_right;
use vstd::arithmetic::div_mod::lemma_mod_multiples_vanish;
use vstd::arithmetic::div_mod::lemma_small_mod;
use crate::field::fadd;
use crate::field::fsub;
use crate::field::fmul;
use crate::poly::zeta;
use crate::twiddle::layer_groups;
use crate::twiddle::partner;
use crate::twiddle::lemma_twiddle_pair;
use crate::poly::is_layer_len;
use crate::poly::ntt_layer;
use crate::poly::ntt_layers;
use crate::poly::ntt_spec;
use crate::poly::intt_layer;
use crate::poly::intt_layers;
use crate::poly::intt_spec;
use crate::poly::poly_add;
use crate::poly::poly_scale;
use crate::poly::poly_sub;
use crate::field::lemma_fadd_congruent;
use crate::field::lemma_fsub_congruent;
use crate::field::lemma_fmul_congruent;

verus! {

/// There are 256 coefficients, each in `[0, Q)`.
pub open spec fn is_poly(f: Seq<int>) -> bool {
    &&& f.len() == 256
    &&& forall|i: int| 0 <= i < 256 ==> 0 <= #[trigger] f[i] < 3329
}

/// Where the partner of position `j` lies in a layer at distance `len`: in
/// the same group, `len` above a position of the lower half and `len` below a
/// position of the upper half.
#[verifier::rlimit(40)]
pub proof fn lemma_butterfly_positions(j: int, len: int)
    requires
        is_layer_len(len),
        0 <= j < 256,
    ensures
        0 <= j / (2 * len) < 128int / len,
        1 <= 128int / len + j / (2 * len) < 128,
        layer_groups(128int / len + j / (2 * len)) == 128int / len,
        partner(128int / len + j / (2 * len)) == 2 * (128int / len) - 1 - j / (2 * len),
        0 <= j % (2 * len) < 2 * len,
        j % (2 * len) < len ==> j + len < 256 && (j + len) / (2 * len) == j / (2 * len) && (j
            + len) % (2 * len) == j % (2 * len) + len,
        j % (2 * len) >= len ==> j - len >= 0 && (j - len) / (2 * len) == j / (2 * len) && (j
            - len) % (2 * len) == j % (2 * len) - len,
{
    if len == 2 {
        assert(128int / 2 == 64);
        assert(2 * len == 4);
        assert(0 <= j / 4 < 64);
        assert(0 <= j % 4 < 4);
        assert(layer_groups(64 + j / 4) == 64);
        if j % 4 < 2 {
            assert((j + 2) / 4 == j / 4 && (j + 2) % 4 == j % 4 + 2);
        } else {
            assert((j - 2) / 4 == j / 4 && (j - 2) % 4 == j % 4 - 2);
        }
    } else if len == 4 {
        assert(128int / 4 == 32);
        assert(2 * len == 8);
        assert(0 <= j / 8 < 32);
        assert(0 <= j % 8 < 8);
        assert(layer_groups(32 + j / 8) == 32);
        if j % 8 < 4 {
            assert((j + 4) / 8 == j / 8 && (j + 4) % 8 == j % 8 + 4);
        } else {
            assert((j - 4) / 8 == j / 8 && (j - 4) % 8 == j % 8 - 4);
        }
    } else if len == 8 {
        assert(128int / 8 == 16);
        assert(2 * len == 16);
        assert(0 <= j / 16 < 16);
        assert(0 <= j % 16 < 16);
        assert(layer_groups(16 + j / 16) == 16);
        if j % 16 < 8 {
            assert((j + 8) / 16 == j / 16 && (j + 8) % 16 == j % 16 + 8);
        } else {
            assert((j - 8) / 16 == j / 16 && (j - 8) % 16 == j % 16 - 8);
        }
    } else if len == 16 {
        assert(128int / 16 == 8);
        assert(2 * len == 32);
        assert(0 <= j / 32 < 8);
        assert(0 <= j % 32 < 32);
        assert(layer_groups(8 + j / 32) == 8);
        if j % 32 < 16 {
            assert((j + 16) / 32 == j / 32 && (j + 16) % 32 == j % 32 + 16);
        } else {
            assert((j - 16) / 32 == j / 32 && (j - 16) % 32 == j % 32 - 16);
        }
    } else if len == 32 {
        assert(128int / 32 == 4);
        assert(2 * len == 64);
        assert(0 <= j / 64 < 4);
        assert(0 <= j % 64 < 64);
        assert(layer_groups(4 + j / 64) == 4);
        if j % 64 < 32 {
            assert((j + 32) / 64 == j / 64 && (j + 32) % 64 == j % 64 + 32);
        } else {
            assert((j - 32) / 64 == j / 64 && (j - 32) % 64 == j % 64 - 32);
        }
    } else if len == 64 {
        assert(128int / 64 == 2);
        assert(2 * len == 128);
        assert(0 <= j / 128 < 2);
        assert(0 <= j % 128 < 128);
        assert(layer_groups(2 + j / 128) == 2);
        if j % 128 < 64 {
            assert((j + 64) / 128 == j / 128 && (j + 64) % 128 == j % 128 + 64);
        } else {
            assert((j - 64) / 128 == j / 128 && (j - 64) % 128 == j % 128 - 64);
        }
    } else {
        assert(128int / 128 == 1);
        assert(2 * len == 256);
        assert(0 <= j / 256 < 1);
        assert(0 <= j % 256 < 256);
        assert(layer_groups(1 + j / 256) == 1);
        if j % 256 < 128 {
            assert((j + 128) / 256 == j / 256 && (j + 128) % 256 == j % 256 + 128);
        } else {
            assert((j - 128) / 256 == j / 256 && (j - 128) % 256 == j % 256 - 128);
        }
    }
}

/// A sum of two butterfly inputs passes through the butterfly as the sum of
/// the outputs.
proof fn lemma_butterfly_additive(a: int, b: int, c: int, d: int, z: int)
    ensures
        fadd(fadd(a, b), fmul(z, fadd(c, d))) == fadd(fadd(a, fmul(z, c)), fadd(b, fmul(z, d))),
        fsub(fadd(a, b), fmul(z, fadd(c, d))) == fadd(fsub(a, fmul(z, c)), fsub(b, fmul(z, d))),
{
    assert(z * (c + d) == z * c + z * d) by (nonlinear_arith);
    lemma_mul_mod_noop_right(z, c + d, 3329);
    lemma_add_mod_noop(a + b, z * (c + d), 3329);
    lemma_add_mod_noop_right(a, z * c, 3329);
    lemma_add_mod_noop_right(b, z * d, 3329);
    lemma_add_mod_noop(a + z * c, b + z * d, 3329);
    lemma_sub_mod_noop(a + b, z * (c + d), 3329);
    lemma_sub_mod_noop_right(a, z * c, 3329);
    lemma_sub_mod_noop_right(b, z * d, 3329);
    lemma_add_mod_noop(a - z * c, b - z * d, 3329);
}

/// One layer of forward butterflies is additive.
pub proof fn lemma_ntt_layer_additive(f: Seq<int>, g: Seq<int>, len: int)
    requires
        f.len() == 256,
        g.len() == 256,
        is_layer_len(len),
    ensures
        ntt_layer(poly_add(f, g), len) == poly_add(ntt_layer(f, len), ntt_layer(g, len)),
{
    let left = ntt_layer(poly_add(f, g), len);
    let right = poly_add(ntt_layer(f, len), ntt_layer(g, len));
    assert forall|j: int| 0 <= j < 256 implies left[j] == right[j] by {
        lemma_butterfly_positions(j, len);
        let z = zeta(128int / len + j / (2 * len));
        if j % (2 * len) < len {
            lemma_butterfly_additive(f[j], g[j], f[j + len], g[j + len], z);
        } else {
            lemma_butterfly_additive(f[j - len], g[j - len], f[j], g[j], z);
        }
    }
    assert(left =~= right);
}

/// The forward layers from any distance down are additive.
pub proof fn lemma_ntt_layers_additive(f: Seq<int>, g: Seq<int>, len: int)
    requires
        f.len() == 256,
        g.len() == 256,
        is_layer_len(len) || len == 1,
    ensures
        ntt_layers(poly_add(f, g), len) == poly_add(ntt_layers(f, len), ntt_layers(g, len)),
        ntt_layers(f, len).len() == 256,
    decreases len,
{
    if len >= 2 {
        lemma_ntt_layer_additive(f, g, len);
        lemma_ntt_layers_additive(ntt_layer(f, len), ntt_layer(g, len), len / 2);
    } else {
        assert(poly_add(f, g).len() == 256);
    }
}

/// The transform of a sum is the sum of the transforms.
pub proof fn lemma_ntt_additive(f: Seq<int>, g: Seq<int>)
    requires
        f.len() == 256,
        g.len() == 256,
    ensures
        ntt_spec(poly_add(f, g)) == poly_add(ntt_spec(f), ntt_spec(g)),
{
    lemma_ntt_layers_additive(f, g, 128);
}

/// An inverse butterfly applied to the outputs of a forward butterfly gives
/// each input twice, provided the two twiddle factors multiply to -1.
#[verifier::rlimit(40)]
proof fn lemma_butterfly_cancels(a: int, b: int, z: int, w: int)
    requires
        fmul(z, w) == 3328,
    ensures
        fadd(fadd(a, fmul(z, b)), fsub(a, fmul(z, b))) == fmul(a, 2),
        fmul(w, fsub(fsub(a, fmul(z, b)), fadd(a, fmul(z, b)))) == fmul(b, 2),
{
    let t = z * b;
    lemma_add_mod_noop_right(a, t, 3329);
    lemma_sub_mod_noop_right(a, t, 3329);
    lemma_add_mod_noop(a + t, a - t, 3329);
    assert(a + t + (a - t) == a * 2);
    lemma_sub_mod_noop(a - t, a + t, 3329);
    assert((a - t) - (a + t) == -2 * t);
    lemma_mul_mod_noop_right(w, -2 * t, 3329);
    // w * (-2 z b) = (z w) * (-2 b)
    assert(w * (-2 * t) == (z * w) * (-2 * b)) by (nonlinear_arith)
        requires
            t == z * b,
    ;
    lemma_mul_mod_noop_left(z * w, -2 * b, 3329);
    assert(3328 * (-2 * b) == 3329 * (-2 * b) + b * 2);
    lemma_mod_multiples_vanish(-2 * b, b * 2, 3329);
}

/// A layer of inverse butterflies undoes the layer of forward butterflies at
/// the same distance, up to a factor of 2.
pub proof fn lemma_inverse_layer_cancels(f: Seq<int>, len: int)
    requires
        f.len() == 256,
        is_layer_len(len),
    ensures
        intt_layer(ntt_layer(f, len), len) == poly_scale(2, f),
{
    let forward = ntt_layer(f, len);
    let left = intt_layer(forward, len);
    let right = poly_scale(2, f);
    assert forall|j: int| 0 <= j < 256 implies left[j] == right[j] by {
        lemma_butterfly_positions(j, len);
        let i = 128int / len + j / (2 * len);
        lemma_twiddle_pair(i);
        let z = zeta(i);
        let w = zeta(partner(i));
        if j % (2 * len) < len {
            lemma_butterfly_positions(j + len, len);
            lemma_butterfly_cancels(f[j], f[j + len], z, w);
        } else {
            lemma_butterfly_positions(j - len, len);
            lemma_butterfly_cancels(f[j - len], f[j], z, w);
        }
    }
    assert(left =~= right);
}

/// A common factor passes through an inverse butterfly.
#[verifier::rlimit(40)]
proof fn lemma_butterfly_scales(a: int, b: int, w: int, c: int)
    ensures
        fadd(fmul(a, c), fmul(b, c)) == fmul(fadd(a, b), c),
        fmul(w, fsub(fmul(b, c), fmul(a, c))) == fmul(fmul(w, fsub(b, a)), c),
{
    lemma_add_mod_noop(a * c, b * c, 3329);
    lemma_mul_mod_noop_left(a + b, c, 3329);
    assert(a * c + b * c == (a + b) * c) by (nonlinear_arith);
    lemma_sub_mod_noop(b * c, a * c, 3329);
    assert(b * c - a * c == (b - a) * c) by (nonlinear_arith);
    lemma_mul_mod_noop_right(w, (b - a) * c, 3329);
    assert(w * ((b - a) * c) == (w * (b - a)) * c) by (nonlinear_arith);
    lemma_mul_mod_noop_right(w, b - a, 3329);
    lemma_mul_mod_noop_left(w * (b - a), c, 3329);
    lemma_mul_mod_noop_left(w * ((b - a) % 3329), c, 3329);
}

/// A common factor of all coefficients passes through a layer of inverse
/// butterflies.
pub proof fn lemma_inverse_layer_scales(f: Seq<int>, len: int, c: int)
    requires
        f.len() == 256,
        is_layer_len(len),
    ensures
        intt_layer(poly_scale(c, f), len) == poly_scale(c, intt_layer(f, len)),
{
    let left = intt_layer(poly_scale(c, f), len);
    let right = poly_scale(c, intt_layer(f, len));
    assert forall|j: int| 0 <= j < 256 implies left[j] == right[j] by {
        lemma_butterfly_positions(j, len);
        let w = zeta(2 * (128int / len) - 1 - j / (2 * len));
        if j % (2 * len) < len {
            lemma_butterfly_scales(f[j], f[j + len], w, c);
        } else {
            lemma_butterfly_scales(f[j - len], f[j], w, c);
        }
    }
    assert(left =~= right);
}

/// Scaling by `c` after scaling by 2 is scaling by `2 c`.
proof fn lemma_scale_twice(f: Seq<int>, c: int)
    requires
        f.len() == 256,
    ensures
        poly_scale(c, poly_scale(2, f)) == poly_scale(2 * c, f),
{
    let left = poly_scale(c, poly_scale(2, f));
    let right = poly_scale(2 * c, f);
    assert forall|j: int| 0 <= j < 256 implies left[j] == right[j] by {
        lemma_mul_mod_noop_left(f[j] * 2, c, 3329);
        assert((f[j] * 2) * c == f[j] * (2 * c)) by (nonlinear_arith);
    }
    assert(left =~= right);
}

/// The inverse layers applied to the forward layers from distance `len`
/// down leave the inverse layers above `len`, applied to `len` times the
/// input.
#[verifier::rlimit(40)]
pub proof fn lemma_inverse_layers_cancel(f: Seq<int>, len: int)
    requires
        f.len() == 256,
        is_layer_len(len) || len == 1,
    ensures
        intt_layers(ntt_layers(f, len), 2) == intt_layers(poly_scale(len, f), 2 * len),
    decreases len,
{
    if len == 1 {
        // both sides apply all inverse layers; the inputs f and 1 * f agree
        // after the first layer, which reduces every coefficient
        lemma_inverse_layer_scales(f, 2, 1);
        let scaled = poly_scale(1, intt_layer(f, 2));
        let plain = intt_layer(f, 2);
        assert forall|j: int| 0 <= j < 256 implies scaled[j] == plain[j] by {
            lemma_small_mod(plain[j] as nat, 3329);
        }
        assert(scaled =~= plain);
    } else {
        let first = ntt_layer(f, len);
        let half = len / 2;
        lemma_inverse_layers_cancel(first, half);
        // intt_layers(scale(half, first), len)
        //   = intt_layers(intt_layer(scale(half, first), len), 2 len)
        lemma_inverse_layer_scales(first, len, half);
        lemma_inverse_layer_cancels(f, len);
        lemma_scale_twice(f, half);
        assert(2 * half == len);
    }
}

/// The inverse transform undoes the transform.
pub proof fn lemma_intt_ntt(f: Seq<int>)
    requires
        is_poly(f),
    ensures
        intt_spec(ntt_spec(f)) == f,
{
    lemma_inverse_layers_cancel(f, 128);
    let scaled = poly_scale(128, f);
    assert(intt_layers(scaled, 256) == scaled);
    let back = poly_scale(3303, scaled);
    assert forall|j: int| 0 <= j < 256 implies back[j] == f[j] by {
        lemma_mul_mod_noop_left(f[j] * 128, 3303, 3329);
        assert((f[j] * 128) * 3303 == 3329 * (f[j] * 127) + f[j]);
        lemma_mod_multiples_vanish(f[j] * 127, f[j], 3329);
        lemma_small_mod(f[j] as nat, 3329);
    }
    assert(back =~= f);
}

/// A common factor passes through a forward butterfly.
#[verifier::rlimit(40)]
proof fn lemma_forward_butterfly_scales(a: int, b: int, z: int, c: int)
    ensures
        fadd(fmul(a, c), fmul(z, fmul(b, c))) == fmul(fadd(a, fmul(z, b)), c),
        fsub(fmul(a, c), fmul(z, fmul(b, c))) == fmul(fsub(a, fmul(z, b)), c),
{
    lemma_fmul_congruent(a, c, a, c);
    lemma_fmul_congruent(b, c, b, c);
    lemma_fmul_congruent(z, fmul(b, c), z, b * c);
    lemma_fadd_congruent(fmul(a, c), fmul(z, fmul(b, c)), a * c, z * (b * c));
    lemma_fsub_congruent(fmul(a, c), fmul(z, fmul(b, c)), a * c, z * (b * c));
    lemma_fmul_congruent(z, b, z, b);
    lemma_fadd_congruent(a, fmul(z, b), a, z * b);
    lemma_fsub_congruent(a, fmul(z, b), a, z * b);
    lemma_fmul_congruent(fadd(a, fmul(z, b)), c, a + z * b, c);
    lemma_fmul_congruent(fsub(a, fmul(z, b)), c, a - z * b, c);
    assert(a * c + z * (b * c) == (a + z * b) * c) by (nonlinear_arith);
    assert(a * c - z * (b * c) == (a - z * b) * c) by (nonlinear_arith);
}

/// A common factor of all coefficients passes through the forward layers.
pub proof fn lemma_ntt_layers_scale(f: Seq<int>, len: int, c: int)
    requires
        f.len() == 256,
        is_layer_len(len) || len == 1,
    ensures
        ntt_layers(poly_scale(c, f), len) == poly_scale(c, ntt_layers(f, len)),
    decreases len,
{
    if len >= 2 {
        let left = ntt_layer(poly_scale(c, f), len);
        let right = poly_scale(c, ntt_layer(f, len));
        assert forall|j: int| 0 <= j < 256 implies left[j] == right[j] by {
            lemma_butterfly_positions(j, len);
            let z = zeta(128int / len + j / (2 * len));
            if j % (2 * len) < len {
                lemma_forward_butterfly_scales(f[j], f[j + len], z, c);
            } else {
                lemma_forward_butterfly_scales(f[j - len], f[j], z, c);
            }
        }
        assert(left =~= right);
        lemma_ntt_layers_scale(ntt_layer(f, len), len / 2, c);
    }
}


/// A forward butterfly applied to the outputs of an inverse butterfly gives
/// each input twice, provided the two twiddle factors multiply to -1.
#[verifier::rlimit(40)]
proof fn lemma_butterfly_cancels_back(a: int, b: int, z: int, w: int)
    requires
        fmul(z, w) == 3328,
    ensures
        fadd(fadd(a, b), fmul(z, fmul(w, fsub(b, a)))) == fmul(a, 2),
        fsub(fadd(a, b), fmul(z, fmul(w, fsub(b, a)))) == fmul(b, 2),
{
    lemma_fadd_congruent(a, b, a, b);
    lemma_fsub_congruent(b, a, b, a);
    lemma_fmul_congruent(w, fsub(b, a), w, b - a);
    lemma_fmul_congruent(z, fmul(w, fsub(b, a)), z, w * (b - a));
    lemma_fadd_congruent(fadd(a, b), fmul(z, fmul(w, fsub(b, a))), a + b, z * (w * (b - a)));
    lemma_fsub_congruent(fadd(a, b), fmul(z, fmul(w, fsub(b, a))), a + b, z * (w * (b - a)));
    // z w = -1 + 3329 t
    let t = (z * w) / 3329;
    vstd::arithmetic::div_mod::lemma_fundamental_div_mod(z * w, 3329);
    assert(z * w == 3329 * t + 3328);
    assert(z * (w * (b - a)) == (z * w) * (b - a)) by (nonlinear_arith);
    assert((3329 * t + 3328) * (b - a) == 3329 * (t * (b - a) + (b - a)) - (b - a))
        by (nonlinear_arith);
    assert(a + b + z * (w * (b - a)) == 3329 * (t * (b - a) + (b - a)) + a * 2);
    assert(a + b - z * (w * (b - a)) == 3329 * (-(t * (b - a) + (b - a))) + b * 2);
    lemma_mod_multiples_vanish(t * (b - a) + (b - a), a * 2, 3329);
    lemma_mod_multiples_vanish(-(t * (b - a) + (b - a)), b * 2, 3329);
}

/// A layer of forward butterflies undoes the layer of inverse butterflies at
/// the same distance, up to a factor of 2.
pub proof fn lemma_forward_layer_cancels(f: Seq<int>, len: int)
    requires
        f.len() == 256,
        is_layer_len(len),
    ensures
        ntt_layer(intt_layer(f, len), len) == poly_scale(2, f),
{
    let inverse = intt_layer(f, len);
    let left = ntt_layer(inverse, len);
    let right = poly_scale(2, f);
    assert forall|j: int| 0 <= j < 256 implies left[j] == right[j] by {
        lemma_butterfly_positions(j, len);
        let i = 128int / len + j / (2 * len);
        lemma_twiddle_pair(i);
        let z = zeta(i);
        let w = zeta(partner(i));
        if j % (2 * len) < len {
            lemma_butterfly_positions(j + len, len);
            lemma_butterfly_cancels_back(f[j], f[j + len], z, w);
        } else {
            lemma_butterfly_positions(j - len, len);
            lemma_butterfly_cancels_back(f[j - len], f[j], z, w);
        }
    }
    assert(left =~= right);
}

/// The outputs of the forward layers are reduced.
pub proof fn lemma_ntt_layers_is_poly(f: Seq<int>, len: int)
    requires
        is_layer_len(len),
    ensures
        is_poly(ntt_layers(f, len)),
    decreases len,
{
    let first = ntt_layer(f, len);
    if len == 2 {
        assert(ntt_layers(first, 1) == first);
        assert forall|j: int| 0 <= j < 256 implies 0 <= #[trigger] first[j] < 3329 by {}
    } else {
        lemma_ntt_layers_is_poly(first, len / 2);
    }
}

/// The number of times that 2 has been multiplied in when the inverse layers
/// from distance `len` up have been undone.
pub open spec fn undone_factor(len: int) -> int {
    256int / len
}

/// The forward layers applied to the inverse layers from distance `len` up
/// leave the forward layers below `len`, times a power of two.
#[verifier::rlimit(40)]
pub proof fn lemma_forward_layers_cancel(f: Seq<int>, len: int)
    requires
        f.len() == 256,
        is_layer_len(len) || len == 256,
    ensures
        ntt_layers(intt_layers(f, len), 128) == poly_scale(
            undone_factor(len),
            ntt_layers(f, len / 2),
        ),
    decreases 256 - len,
{
    if len == 256 {
        let image = ntt_layers(f, 128);
        lemma_ntt_layers_is_poly(f, 128);
        let same = poly_scale(1, image);
        assert forall|j: int| 0 <= j < 256 implies same[j] == image[j] by {
            lemma_small_mod(image[j] as nat, 3329);
        }
        assert(same =~= image);
    } else {
        let first = intt_layer(f, len);
        lemma_forward_layers_cancel(first, 2 * len);
        lemma_forward_layer_cancels(f, len);
        // ntt_layers(first, len) = ntt_layers(2 f, len / 2) = 2 ntt_layers(f, len / 2)
        lemma_ntt_layers_scale(f, len / 2, 2);
        lemma_ntt_layers_len(f, len / 2);
        lemma_scale_twice(ntt_layers(f, len / 2), undone_factor(2 * len));
        assert(2 * undone_factor(2 * len) == undone_factor(len) && (2 * len) / 2 == len) by {
            if len == 2 {
                assert(256int / 2 == 128 && 256int / 4 == 64 && 2int / 2 == 1);
            } else if len == 4 {
                assert(256int / 4 == 64 && 256int / 8 == 32 && 4int / 2 == 2);
            } else if len == 8 {
                assert(256int / 8 == 32 && 256int / 16 == 16 && 8int / 2 == 4);
            } else if len == 16 {
                assert(256int / 16 == 16 && 256int / 32 == 8 && 16int / 2 == 8);
            } else if len == 32 {
                assert(256int / 32 == 8 && 256int / 64 == 4 && 32int / 2 == 16);
            } else if len == 64 {
                assert(256int / 64 == 4 && 256int / 128 == 2 && 64int / 2 == 32);
            } else {
                assert(256int / 128 == 2 && 256int / 256 == 1 && 128int / 2 == 64);
            }
        }
    }
}

/// The forward layers keep the number of coefficients.
pub proof fn lemma_ntt_layers_len(f: Seq<int>, len: int)
    requires
        f.len() == 256,
        is_layer_len(len) || len == 1,
    ensures
        ntt_layers(f, len).len() == 256,
    decreases len,
{
    if len >= 2 {
        lemma_ntt_layers_len(ntt_layer(f, len), len / 2);
    }
}

/// The inverse layers keep the number of coefficients.
pub proof fn lemma_intt_layers_len(f: Seq<int>, len: int)
    requires
        f.len() == 256,
        is_layer_len(len) || len == 256,
    ensures
        intt_layers(f, len).len() == 256,
    decreases 256 - len,
{
    if len <= 128 {
        lemma_intt_layers_len(intt_layer(f, len), 2 * len);
    }
}

/// The transform undoes the inverse transform.
pub proof fn lemma_ntt_intt(f: Seq<int>)
    requires
        is_poly(f),
    ensures
        ntt_spec(intt_spec(f)) == f,
{
    let inner = intt_layers(f, 2);
    lemma_intt_layers_len(f, 2);
    lemma_ntt_layers_scale(inner, 128, 3303);
    lemma_forward_layers_cancel(f, 2);
    assert(undone_factor(2) == 128);
    assert(ntt_layers(f, 1) == f);
    let scaled = poly_scale(128, f);
    let back = poly_scale(3303, scaled);
    assert forall|j: int| 0 <= j < 256 implies back[j] == f[j] by {
        lemma_mul_mod_noop_left(f[j] * 128, 3303, 3329);
        assert((f[j] * 128) * 3303 == 3329 * (f[j] * 127) + f[j]);
        lemma_mod_multiples_vanish(f[j] * 127, f[j], 3329);
        lemma_small_mod(f[j] as nat, 3329);
    }
    assert(back =~= f);
}

/// The outputs of the two transforms are reduced.
pub proof fn lemma_transforms_are_polys(f: Seq<int>)
    ensures
        is_poly(ntt_spec(f)),
        is_poly(intt_spec(f)),
{
    lemma_ntt_layers_is_poly(f, 128);
    let back = intt_spec(f);
    assert forall|j: int| 0 <= j < 256 implies 0 <= #[trigger] back[j] < 3329 by {}
}

/// The transform of a difference is the difference of the transforms.
pub proof fn lemma_ntt_subtractive(f: Seq<int>, g: Seq<int>)
    requires
        is_poly(f),
        is_poly(g),
    ensures
        ntt_spec(poly_sub(f, g)) == poly_sub(ntt_spec(f), ntt_spec(g)),
{
    let d = poly_sub(f, g);
    // (f - g) + g = f
    let sum = poly_add(d, g);
    assert forall|j: int| 0 <= j < 256 implies sum[j] == f[j] by {
        lemma_fsub_congruent(f[j], g[j], f[j], g[j]);
        lemma_fadd_congruent(d[j], g[j], f[j] - g[j], g[j]);
        lemma_small_mod(f[j] as nat, 3329);
    }
    assert(sum =~= f);
    lemma_ntt_additive(d, g);
    lemma_transforms_are_polys(d);
    lemma_transforms_are_polys(g);
    let x = ntt_spec(d);
    let y = ntt_spec(g);
    let left = poly_sub(ntt_spec(f), y);
    assert forall|j: int| 0 <= j < 256 implies left[j] == x[j] by {
        lemma_fadd_congruent(x[j], y[j], x[j], y[j]);
        lemma_fsub_congruent(fadd(x[j], y[j]), y[j], x[j] + y[j], y[j]);
        lemma_small_mod(x[j] as nat, 3329);
    }
    assert(left =~= x);
}

/// The inverse transform of a sum is the sum of the inverse transforms, and
/// that of a difference their difference.
pub proof fn lemma_intt_additive(a: Seq<int>, b: Seq<int>)
    requires
        is_poly(a),
        is_poly(b),
    ensures
        intt_spec(poly_add(a, b)) == poly_add(intt_spec(a), intt_spec(b)),
        intt_spec(poly_sub(a, b)) == poly_sub(intt_spec(a), intt_spec(b)),
{
    let x = intt_spec(a);
    let y = intt_spec(b);
    lemma_transforms_are_polys(a);
    lemma_transforms_are_polys(b);
    lemma_ntt_intt(a);
    lemma_ntt_intt(b);
    lemma_ntt_additive(x, y);
    lemma_ntt_subtractive(x, y);
    let sum = poly_add(x, y);
    let difference = poly_sub(x, y);
    assert forall|j: int| 0 <= j < 256 implies 0 <= #[trigger] sum[j] < 3329 by {}
    assert forall|j: int| 0 <= j < 256 implies 0 <= #[trigger] difference[j] < 3329 by {}
    lemma_intt_ntt(sum);
    lemma_intt_ntt(difference);
}

} // verus!
