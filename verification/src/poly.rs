//! Elements of the ring Z_q[X]/(X^256 + 1), the number-theoretic transform and
//! the samplers that produce ring elements from hash output.

use vstd::prelude::*;
use vstd::std_specs::ops::AddSpecImpl;
use vstd::std_specs::ops::SubSpecImpl;
use vstd::std_specs::ops::MulSpecImpl;
use crate::constant::BITREV7;
use crate::constant::BITREV7_2;
use crate::constant::N;
use crate::constant::Q;
use crate::field::FieldElement as FF;
use crate::field::fadd;
use crate::field::fsub;
use crate::field::fmul;
use crate::helper::base_case_multiply;
use crate::helper::xof;
use crate::helper::xof_stream;
use crate::encode::bytes_to_bits;
use crate::encode::bytes_to_bits_spec;
use crate::encode::bit_at;
use crate::encode::is_bits;
use crate::encode::lemma_group_position;

verus! {

/// A ring element: 256 coefficients, lowest degree first.
#[derive(Debug, PartialEq)]
pub struct Polynomial {
    pub coeffs: Vec<FF>,
}

impl Clone for Polynomial {
    fn clone(&self) -> (r: Polynomial)
        ensures
            r.coeffs@ == self.coeffs@,
    {
        let mut coeffs: Vec<FF> = Vec::new();
        let mut i: usize = 0;
        while i < self.coeffs.len()
            invariant
                i <= self.coeffs.len(),
                coeffs.len() == i,
                forall|t: int| 0 <= t < i ==> coeffs[t] == self.coeffs[t],
            decreases self.coeffs.len() - i,
        {
            coeffs.push(self.coeffs[i]);
            i = i + 1;
        }
        proof {
            assert(coeffs@ =~= self.coeffs@);
        }
        Polynomial { coeffs }
    }
}

/// The coefficients of the zero element.
pub open spec fn zero_poly() -> Seq<int> {
    Seq::new(256, |i: int| 0int)
}

/// The residues held by a sequence of field elements.
pub open spec fn values(coeffs: Seq<FF>) -> Seq<int> {
    Seq::new(coeffs.len(), |i: int| coeffs[i].value())
}

/// Every element is reduced.
pub open spec fn all_reduced(coeffs: Seq<FF>) -> bool {
    forall|i: int| 0 <= i < coeffs.len() ==> (#[trigger] coeffs[i]).wf()
}

/// The sequence extended with zeros to 256 entries; a longer one is kept.
pub open spec fn padded(coeffs: Seq<FF>) -> Seq<FF> {
    if coeffs.len() >= 256 {
        coeffs
    } else {
        Seq::new(256, |i: int| if i < coeffs.len() { coeffs[i] } else { FF(0) })
    }
}

/// The residues in 16-bit cells.
pub open spec fn cells(f: Seq<int>) -> Seq<u16> {
    Seq::new(f.len(), |i: int| f[i] as u16)
}

/// The integers that 16-bit cells hold.
pub open spec fn cell_values(c: Seq<u16>) -> Seq<int> {
    Seq::new(c.len(), |i: int| c[i] as int)
}

/// Coefficientwise sum.
pub open spec fn poly_add(f: Seq<int>, g: Seq<int>) -> Seq<int> {
    Seq::new(256, |i: int| fadd(f[i], g[i]))
}

/// Coefficientwise difference.
pub open spec fn poly_sub(f: Seq<int>, g: Seq<int>) -> Seq<int> {
    Seq::new(256, |i: int| fsub(f[i], g[i]))
}

impl View for Polynomial {
    type V = Seq<int>;

    open spec fn view(&self) -> Seq<int> {
        values(self.coeffs@)
    }
}

impl Polynomial {
    /// There are 256 coefficients, each reduced.
    pub open spec fn wf(&self) -> bool {
        &&& self.coeffs.len() == 256
        &&& all_reduced(self.coeffs@)
    }

    /// The polynomial with the given coefficients, completed with zeros.
    pub fn new(coeffs: Vec<FF>) -> (p: Polynomial)
        requires
            coeffs.len() <= 256,
        ensures
            p.coeffs@ == padded(coeffs@),
            p.coeffs.len() == 256,
            all_reduced(coeffs@) ==> p.wf(),
    {
        let coeffs = Polynomial::padding_zeros(coeffs);
        Polynomial { coeffs }
    }

    /// Appends zeros until there are 256 coefficients.
    pub fn padding_zeros(coeffs: Vec<FF>) -> (r: Vec<FF>)
        ensures
            r@ == padded(coeffs@),
    {
        let ghost before = coeffs@;
        let mut padded_coeffs = coeffs;
        while padded_coeffs.len() < N
            invariant
                padded_coeffs.len() >= before.len(),
                padded_coeffs.len() <= 256 || padded_coeffs.len() == before.len(),
                forall|i: int| 0 <= i < before.len() ==> padded_coeffs[i] == before[i],
                forall|i: int| before.len() <= i < padded_coeffs.len() ==> padded_coeffs[i] == FF(0),
            decreases 256 - padded_coeffs.len(),
        {
            padded_coeffs.push(FF(0));
        }
        proof {
            assert(padded_coeffs@ =~= padded(before));
        }
        padded_coeffs
    }

    /// The polynomial whose coefficients are all zero.
    pub fn zero_polynomial() -> (p: Polynomial)
        ensures
            p.wf(),
            p@ == zero_poly(),
    {
        let p = Polynomial::new(Vec::new());
        proof {
            assert forall|i: int| 0 <= i < 256 implies (#[trigger] p.coeffs@[i]).wf() by {}
            assert(p@ =~= zero_poly());
        }
        p
    }

    /// The polynomial whose coefficients are the given reduced integers.
    pub fn from_cells(v: &Vec<u16>) -> (p: Polynomial)
        requires
            v.len() == 256,
            forall|i: int| 0 <= i < 256 ==> v[i] < 3329,
        ensures
            p.wf(),
            p@ == cell_values(v@),
    {
        let mut coeffs: Vec<FF> = Vec::new();
        let mut i: usize = 0;
        while i < N
            invariant
                i <= 256,
                v.len() == 256,
                forall|t: int| 0 <= t < 256 ==> v[t] < 3329,
                coeffs.len() == i,
                all_reduced(coeffs@),
                forall|t: int| 0 <= t < i ==> (#[trigger] coeffs[t]).0 == v[t],
            decreases 256 - i,
        {
            coeffs.push(FF(v[i]));
            i = i + 1;
        }
        proof {
            assert(values(coeffs@) =~= cell_values(v@));
        }
        Polynomial { coeffs }
    }

    /// The coefficients as integers.
    pub fn list(&self) -> (r: Vec<u16>)
        ensures
            r@ == cells(self@),
            r.len() == self.coeffs.len(),
            forall|i: int| 0 <= i < r.len() ==> r[i] == self.coeffs[i].0,
    {
        let mut r: Vec<u16> = Vec::new();
        let mut i: usize = 0;
        while i < self.coeffs.len()
            invariant
                i <= self.coeffs.len(),
                r.len() == i,
                forall|t: int| 0 <= t < i ==> r[t] == self.coeffs[t].0,
            decreases self.coeffs.len() - i,
        {
            r.push(self.coeffs[i].to_int());
            i = i + 1;
        }
        proof {
            assert(r@ =~= cells(self@));
        }
        r
    }
}

/// The twiddle factor with index `i`: the power of 17 whose exponent is the
/// bit reversal of `i`.
pub open spec fn zeta(i: int) -> int {
    BITREV7[i] as int % 3329
}

/// The constant of the quadratic factor with index `i`.
pub open spec fn gamma(i: int) -> int {
    BITREV7_2[i] as int % 3329
}

/// The distances between butterfly partners: the powers of two from 2 to 128.
pub open spec fn is_layer_len(len: int) -> bool {
    len == 2 || len == 4 || len == 8 || len == 16 || len == 32 || len == 64 || len == 128
}

/// One layer of forward butterflies at distance `len`: within group `g` of
/// `2 * len` entries, with `z` the twiddle factor of index `128 / len + g`,
/// the pair `(a, b)` at distance `len` becomes `(a + z b, a - z b)`.
pub open spec fn ntt_layer(f: Seq<int>, len: int) -> Seq<int> {
    Seq::new(
        256,
        |j: int|
            {
                let z = zeta(128int / len + j / (2 * len));
                if j % (2 * len) < len {
                    fadd(f[j], fmul(z, f[j + len]))
                } else {
                    fsub(f[j - len], fmul(z, f[j]))
                }
            },
    )
}

/// The forward layers from distance `len` down to distance 2.
pub open spec fn ntt_layers(f: Seq<int>, len: int) -> Seq<int>
    decreases len,
{
    if len < 2 {
        f
    } else {
        ntt_layers(ntt_layer(f, len), len / 2)
    }
}

/// The number-theoretic transform: seven layers of forward butterflies at
/// distances 128, 64, 32, 16, 8, 4, 2.
pub open spec fn ntt_spec(f: Seq<int>) -> Seq<int> {
    ntt_layers(f, 128)
}

/// One layer of inverse butterflies at distance `len`: within group `g` of
/// `2 * len` entries, with `z` the twiddle factor of index
/// `2 * (128 / len) - 1 - g`, the pair `(a, b)` at distance `len` becomes
/// `(a + b, z (b - a))`.
pub open spec fn intt_layer(f: Seq<int>, len: int) -> Seq<int> {
    Seq::new(
        256,
        |j: int|
            {
                let z = zeta(2 * (128int / len) - 1 - j / (2 * len));
                if j % (2 * len) < len {
                    fadd(f[j], f[j + len])
                } else {
                    fmul(z, fsub(f[j], f[j - len]))
                }
            },
    )
}

/// The inverse layers from distance `len` up to distance 128.
pub open spec fn intt_layers(f: Seq<int>, len: int) -> Seq<int>
    decreases 256 - len,
{
    if len > 128 || len < 1 {
        f
    } else {
        intt_layers(intt_layer(f, len), 2 * len)
    }
}

/// Every coefficient multiplied by `c`.
pub open spec fn poly_scale(c: int, f: Seq<int>) -> Seq<int> {
    Seq::new(256, |i: int| fmul(f[i], c))
}

/// The inverse transform: seven layers of inverse butterflies at distances
/// 2, 4, 8, 16, 32, 64, 128, then every coefficient times 3303, the inverse
/// of 128.
pub open spec fn intt_spec(f: Seq<int>) -> Seq<int> {
    poly_scale(3303, intt_layers(f, 2))
}

/// The product in the transformed domain: for each of the 128 pairs, the
/// product of two degree-one polynomials modulo `X^2 - gamma(i)`.
pub open spec fn multiply_ntt_spec(f: Seq<int>, g: Seq<int>) -> Seq<int> {
    Seq::new(
        256,
        |j: int|
            {
                let i = j / 2;
                if j % 2 == 0 {
                    fadd(
                        fmul(f[2 * i], g[2 * i]),
                        fmul(fmul(f[2 * i + 1], g[2 * i + 1]), gamma(i)),
                    )
                } else {
                    fadd(fmul(f[2 * i], g[2 * i + 1]), fmul(f[2 * i + 1], g[2 * i]))
                }
            },
    )
}

/// The product in the ring: transform both factors, multiply in the
/// transformed domain, transform back.
pub open spec fn poly_mul(f: Seq<int>, g: Seq<int>) -> Seq<int> {
    intt_spec(multiply_ntt_spec(ntt_spec(f), ntt_spec(g)))
}

/// The number of groups of a layer, and the span they cover.
pub proof fn lemma_layer_groups(len: int)
    requires
        is_layer_len(len),
    ensures
        1 <= 128int / len <= 64,
        (128int / len) * (2 * len) == 256,
        (128int / len) * len == 128,
{
    if len == 2 {
        assert(128int / 2 == 64);
    } else if len == 4 {
        assert(128int / 4 == 32);
    } else if len == 8 {
        assert(128int / 8 == 16);
    } else if len == 16 {
        assert(128int / 16 == 8);
    } else if len == 32 {
        assert(128int / 32 == 4);
    } else if len == 64 {
        assert(128int / 64 == 2);
    } else {
        assert(128int / 128 == 1);
    }
}

/// Applies one layer of forward butterflies in place.
#[verifier::rlimit(40)]
fn forward_layer(coeffs: &mut Vec<FF>, len: usize)
    requires
        old(coeffs).len() == 256,
        all_reduced(old(coeffs)@),
        is_layer_len(len as int),
    ensures
        final(coeffs).len() == 256,
        all_reduced(final(coeffs)@),
        values(final(coeffs)@) == ntt_layer(values(old(coeffs)@), len as int),
{
    let ghost before = coeffs@;
    let ghost target = ntt_layer(values(before), len as int);
    let groups: usize = 128 / len;
    let mut group: usize = 0;
    let mut start: usize = 0;
    proof {
        lemma_layer_groups(len as int);
    }
    while group < groups
        invariant
            is_layer_len(len as int),
            groups == 128usize / len,
            1 <= groups <= 64,
            group <= groups,
            groups * (2 * len) == 256,
            start == group * (2 * len),
            coeffs.len() == 256,
            before.len() == 256,
            all_reduced(coeffs@),
            all_reduced(before),
            target == ntt_layer(values(before), len as int),
            forall|p: int| 0 <= p < group * (2 * len) ==> (#[trigger] coeffs[p]).value() == target[p],
            forall|p: int| group * (2 * len) <= p < 256 ==> coeffs[p] == before[p],
        decreases groups - group,
    {
        let twiddle = FF::new(BITREV7[groups + group]);
        proof {
            assert((group + 1) * (2 * len) == start + 2 * len) by (nonlinear_arith)
                requires
                    start == group * (2 * len),
            ;
            assert((group + 1) * (2 * len) <= groups * (2 * len)) by (nonlinear_arith)
                requires
                    group + 1 <= groups,
            ;
        }
        let mut j: usize = start;
        while j < start + len
            invariant
                is_layer_len(len as int),
                groups == 128usize / len,
                1 <= groups <= 64,
                group < groups,
                start == group * (2 * len),
                start + 2 * len <= 256,
                start <= j <= start + len,
                twiddle.wf(),
                twiddle.value() == zeta(groups + group),
                coeffs.len() == 256,
                before.len() == 256,
                all_reduced(coeffs@),
                all_reduced(before),
                target == ntt_layer(values(before), len as int),
                forall|p: int|
                    (0 <= p < j || start + len <= p < j + len) ==> (#[trigger] coeffs[p]).value()
                        == target[p],
                forall|p: int|
                    (j <= p < start + len || j + len <= p < 256) ==> coeffs[p] == before[p],
            decreases start + len - j,
        {
            let a = coeffs[j];
            let b = coeffs[j + len];
            let t = twiddle * b;
            proof {
                lemma_group_position(group as int, 2 * len, j - start);
                lemma_group_position(group as int, 2 * len, j + len - start);
                assert(values(before)[j as int] == before[j as int].value());
                assert(values(before)[j + len] == before[j + len].value());
            }
            coeffs.set(j + len, a - t);
            coeffs.set(j, a + t);
            j = j + 1;
        }
        start = start + 2 * len;
        group = group + 1;
    }
    proof {
        assert(values(coeffs@) =~= target);
    }
}

/// Applies one layer of inverse butterflies in place.
#[verifier::rlimit(40)]
fn inverse_layer(coeffs: &mut Vec<FF>, len: usize)
    requires
        old(coeffs).len() == 256,
        all_reduced(old(coeffs)@),
        is_layer_len(len as int),
    ensures
        final(coeffs).len() == 256,
        all_reduced(final(coeffs)@),
        values(final(coeffs)@) == intt_layer(values(old(coeffs)@), len as int),
{
    let ghost before = coeffs@;
    let ghost target = intt_layer(values(before), len as int);
    let groups: usize = 128 / len;
    let mut group: usize = 0;
    let mut start: usize = 0;
    proof {
        lemma_layer_groups(len as int);
    }
    while group < groups
        invariant
            is_layer_len(len as int),
            groups == 128usize / len,
            1 <= groups <= 64,
            group <= groups,
            groups * (2 * len) == 256,
            start == group * (2 * len),
            coeffs.len() == 256,
            before.len() == 256,
            all_reduced(coeffs@),
            all_reduced(before),
            target == intt_layer(values(before), len as int),
            forall|p: int| 0 <= p < group * (2 * len) ==> (#[trigger] coeffs[p]).value() == target[p],
            forall|p: int| group * (2 * len) <= p < 256 ==> coeffs[p] == before[p],
        decreases groups - group,
    {
        let twiddle = FF::new(BITREV7[2 * groups - 1 - group]);
        proof {
            assert((group + 1) * (2 * len) == start + 2 * len) by (nonlinear_arith)
                requires
                    start == group * (2 * len),
            ;
            assert((group + 1) * (2 * len) <= groups * (2 * len)) by (nonlinear_arith)
                requires
                    group + 1 <= groups,
            ;
        }
        let mut j: usize = start;
        while j < start + len
            invariant
                is_layer_len(len as int),
                groups == 128usize / len,
                1 <= groups <= 64,
                group < groups,
                start == group * (2 * len),
                start + 2 * len <= 256,
                start <= j <= start + len,
                twiddle.wf(),
                twiddle.value() == zeta(2 * groups - 1 - group),
                coeffs.len() == 256,
                before.len() == 256,
                all_reduced(coeffs@),
                all_reduced(before),
                target == intt_layer(values(before), len as int),
                forall|p: int|
                    (0 <= p < j || start + len <= p < j + len) ==> (#[trigger] coeffs[p]).value()
                        == target[p],
                forall|p: int|
                    (j <= p < start + len || j + len <= p < 256) ==> coeffs[p] == before[p],
            decreases start + len - j,
        {
            let t = coeffs[j];
            let b = coeffs[j + len];
            proof {
                lemma_group_position(group as int, 2 * len, j - start);
                lemma_group_position(group as int, 2 * len, j + len - start);
                assert(values(before)[j as int] == before[j as int].value());
                assert(values(before)[j + len] == before[j + len].value());
            }
            coeffs.set(j, t + b);
            coeffs.set(j + len, twiddle * (b - t));
            j = j + 1;
        }
        start = start + 2 * len;
        group = group + 1;
    }
    proof {
        assert(values(coeffs@) =~= target);
    }
}

impl Polynomial {
    /// The transformed representation of a ring element.
    pub fn ntt(self) -> (r: Polynomial)
        requires
            self.wf(),
        ensures
            r.wf(),
            r@ == ntt_spec(self@),
    {
        let mut coeffs = self.coeffs;
        let mut len: usize = 128;
        while len >= 2
            invariant
                is_layer_len(len as int) || len == 1,
                coeffs.len() == 256,
                all_reduced(coeffs@),
                ntt_layers(values(coeffs@), len as int) == ntt_spec(self@),
            decreases len,
        {
            forward_layer(&mut coeffs, len);
            len = len / 2;
        }
        Polynomial { coeffs }
    }

    /// The ring element that a transformed representation stands for.
    pub fn intt(self) -> (r: Polynomial)
        requires
            self.wf(),
        ensures
            r.wf(),
            r@ == intt_spec(self@),
    {
        let mut coeffs = self.coeffs;
        let mut len: usize = 2;
        while len <= 128
            invariant
                is_layer_len(len as int) || len == 256,
                coeffs.len() == 256,
                all_reduced(coeffs@),
                intt_layers(values(coeffs@), len as int) == intt_layers(self@, 2),
            decreases 256 - len,
        {
            inverse_layer(&mut coeffs, len);
            len = 2 * len;
        }
        let ghost unscaled = values(coeffs@);
        let mut i: usize = 0;
        while i < N
            invariant
                i <= 256,
                coeffs.len() == 256,
                all_reduced(coeffs@),
                unscaled.len() == 256,
                forall|t: int| 0 <= t < i ==> (#[trigger] coeffs[t]).value() == fmul(unscaled[t], 3303),
                forall|t: int| i <= t < 256 ==> (#[trigger] coeffs[t]).value() == unscaled[t],
            decreases 256 - i,
        {
            let c = coeffs[i] * FF(3303);
            coeffs.set(i, c);
            i = i + 1;
        }
        proof {
            assert(values(coeffs@) =~= poly_scale(3303, unscaled));
        }
        Polynomial { coeffs }
    }

    /// The product of two transformed representations.
    pub fn multiply_ntt(f: Polynomial, g: Polynomial) -> (h: Polynomial)
        requires
            f.wf(),
            g.wf(),
        ensures
            h.wf(),
            h@ == multiply_ntt_spec(f@, g@),
    {
        Polynomial::multiply_ntt_ref(&f, &g)
    }

    /// The product of two transformed representations, by reference.
    pub fn multiply_ntt_ref(f: &Polynomial, g: &Polynomial) -> (h: Polynomial)
        requires
            f.wf(),
            g.wf(),
        ensures
            h.wf(),
            h@ == multiply_ntt_spec(f@, g@),
    {
        let ghost target = multiply_ntt_spec(f@, g@);
        let mut coeffs: Vec<FF> = Vec::new();
        let mut i: usize = 0;
        while i < 128
            invariant
                i <= 128,
                f.wf(),
                g.wf(),
                coeffs.len() == 2 * i,
                all_reduced(coeffs@),
                target == multiply_ntt_spec(f@, g@),
                forall|p: int| 0 <= p < 2 * i ==> (#[trigger] coeffs[p]).value() == target[p],
            decreases 128 - i,
        {
            let c = base_case_multiply(
                f.coeffs[2 * i],
                f.coeffs[2 * i + 1],
                g.coeffs[2 * i],
                g.coeffs[2 * i + 1],
                FF::new(BITREV7_2[i]),
            );
            proof {
                assert(f@[2 * i] == f.coeffs[2 * i as int].value());
                assert(f@[2 * i + 1] == f.coeffs[2 * i + 1].value());
                assert(g@[2 * i] == g.coeffs[2 * i as int].value());
                assert(g@[2 * i + 1] == g.coeffs[2 * i + 1].value());
            }
            coeffs.push(c.0);
            coeffs.push(c.1);
            i = i + 1;
        }
        proof {
            assert(values(coeffs@) =~= target);
        }
        Polynomial { coeffs }
    }

    /// The coefficientwise sum, by reference.
    pub fn add_ref(&self, other: &Polynomial) -> (r: Polynomial)
        requires
            self.wf(),
            other.wf(),
        ensures
            r.wf(),
            r@ == poly_add(self@, other@),
    {
        let mut sum: Vec<FF> = Vec::new();
        let mut i: usize = 0;
        while i < N
            invariant
                i <= 256,
                self.wf(),
                other.wf(),
                sum.len() == i,
                all_reduced(sum@),
                forall|t: int|
                    0 <= t < i ==> (#[trigger] sum[t]).value() == fadd(self@[t], other@[t]),
            decreases 256 - i,
        {
            sum.push(self.coeffs[i] + other.coeffs[i]);
            i = i + 1;
        }
        proof {
            assert(values(sum@) =~= poly_add(self@, other@));
        }
        Polynomial { coeffs: sum }
    }

    /// The coefficientwise difference, by reference.
    pub fn sub_ref(&self, other: &Polynomial) -> (r: Polynomial)
        requires
            self.wf(),
            other.wf(),
        ensures
            r.wf(),
            r@ == poly_sub(self@, other@),
    {
        let mut sum: Vec<FF> = Vec::new();
        let mut i: usize = 0;
        while i < N
            invariant
                i <= 256,
                self.wf(),
                other.wf(),
                sum.len() == i,
                all_reduced(sum@),
                forall|t: int|
                    0 <= t < i ==> (#[trigger] sum[t]).value() == fsub(self@[t], other@[t]),
            decreases 256 - i,
        {
            sum.push(self.coeffs[i] - other.coeffs[i]);
            i = i + 1;
        }
        proof {
            assert(values(sum@) =~= poly_sub(self@, other@));
        }
        Polynomial { coeffs: sum }
    }
}

impl core::ops::Add<Polynomial> for Polynomial {
    type Output = Polynomial;

    fn add(self, other: Polynomial) -> (r: Polynomial)
        ensures
            r.wf(),
            r@ == poly_add(self@, other@),
    {
        self.add_ref(&other)
    }
}

impl AddSpecImpl<Polynomial> for Polynomial {
    open spec fn obeys_add_spec() -> bool {
        false
    }

    open spec fn add_req(self, other: Polynomial) -> bool {
        self.wf() && other.wf()
    }

    open spec fn add_spec(self, other: Polynomial) -> Polynomial {
        arbitrary()
    }
}

impl core::ops::Sub<Polynomial> for Polynomial {
    type Output = Polynomial;

    fn sub(self, other: Polynomial) -> (r: Polynomial)
        ensures
            r.wf(),
            r@ == poly_sub(self@, other@),
    {
        self.sub_ref(&other)
    }
}

impl SubSpecImpl<Polynomial> for Polynomial {
    open spec fn obeys_sub_spec() -> bool {
        false
    }

    open spec fn sub_req(self, other: Polynomial) -> bool {
        self.wf() && other.wf()
    }

    open spec fn sub_spec(self, other: Polynomial) -> Polynomial {
        arbitrary()
    }
}

impl core::ops::Mul<Polynomial> for Polynomial {
    type Output = Polynomial;

    fn mul(self, other: Polynomial) -> (r: Polynomial)
        ensures
            r.wf(),
            r@ == poly_mul(self@, other@),
    {
        let f_ntt = self.ntt();
        let g_ntt = other.ntt();
        let h_ntt = Polynomial::multiply_ntt(f_ntt, g_ntt);
        h_ntt.intt()
    }
}

impl MulSpecImpl<Polynomial> for Polynomial {
    open spec fn obeys_mul_spec() -> bool {
        false
    }

    open spec fn mul_req(self, other: Polynomial) -> bool {
        self.wf() && other.wf()
    }

    open spec fn mul_spec(self, other: Polynomial) -> Polynomial {
        arbitrary()
    }
}

/// The number of three-byte groups that `sample_ntt` reads at most.
pub const SAMPLE_NTT_GROUPS: usize = 65536;

/// The candidates below Q among the two 12-bit integers that three bytes
/// hold, in order.
pub open spec fn accepted(group: Seq<u8>) -> Seq<int> {
    let d1 = group[0] as int + 256 * (group[1] as int % 16);
    let d2 = group[1] as int / 16 + 16 * group[2] as int;
    let first = if d1 < 3329 {
        seq![d1]
    } else {
        Seq::<int>::empty()
    };
    if d2 < 3329 {
        first.push(d2)
    } else {
        first
    }
}

/// The first `n` entries, or all of them if there are fewer.
pub open spec fn at_most(s: Seq<int>, n: int) -> Seq<int> {
    if s.len() <= n {
        s
    } else {
        s.subrange(0, n)
    }
}

/// Rejection sampling from the SHAKE-128 stream for `input`: from group
/// `group` on, accepted candidates are appended to `acc` until it holds 256
/// integers or `SAMPLE_NTT_GROUPS` groups have been read.
pub open spec fn sample_ntt_from(input: Seq<u8>, group: nat, acc: Seq<int>) -> Seq<int>
    decreases 65536 - group,
{
    if acc.len() >= 256 || group >= 65536 {
        acc
    } else {
        sample_ntt_from(
            input,
            group + 1,
            at_most(acc + accepted(xof_stream(input, 3 * group, 3)), 256),
        )
    }
}

/// The sequence extended with zeros to 256 entries.
pub open spec fn zero_extended(s: Seq<int>) -> Seq<int> {
    Seq::new(256, |i: int| if i < s.len() { s[i] } else { 0 })
}

/// The transformed-domain element that rejection sampling draws from the
/// SHAKE-128 stream for `input`.
pub open spec fn sample_ntt_spec(input: Seq<u8>) -> Seq<int> {
    zero_extended(sample_ntt_from(input, 0, Seq::<int>::empty()))
}

/// The number of ones among the `n` bits that start at position `start`.
pub open spec fn bit_sum(bits: Seq<u16>, start: int, n: nat) -> int
    decreases n,
{
    if n == 0 {
        0
    } else {
        bit_sum(bits, start, (n - 1) as nat) + bit_at(bits, start + n - 1)
    }
}

/// The element with centered-binomial coefficients that a byte string holds:
/// coefficient `i` is the number of ones among the bits
/// `[2 i eta, 2 i eta + eta)` less that among the `eta` bits that follow.
pub open spec fn sample_poly_cbd_spec(bytes: Seq<u16>, eta: nat) -> Seq<int> {
    Seq::new(
        256,
        |i: int|
            fsub(
                bit_sum(bytes_to_bits_spec(bytes), 2 * i * eta, eta),
                bit_sum(bytes_to_bits_spec(bytes), (2 * i + 1) * eta, eta),
            ),
    )
}

/// Draws a pseudorandom element of the transformed domain from the SHAKE-128
/// stream for the seed `bytes` followed by the bytes `i` and `j`.
pub fn sample_ntt(bytes: Vec<u8>, i: u8, j: u8) -> (a: Polynomial)
    requires
        bytes.len() == 32,
    ensures
        a.wf(),
        a@ == sample_ntt_spec(bytes@.push(i).push(j)),
{
    let mut input = bytes;
    input.push(i);
    input.push(j);
    let mut reader = xof(input);
    let ghost stream_input = reader.input();
    let mut coeffs: Vec<FF> = Vec::new();
    let mut group: usize = 0;
    while coeffs.len() < N && group < SAMPLE_NTT_GROUPS
        invariant
            reader.wf(),
            reader.input() == stream_input,
            reader.position() == 3 * group,
            group <= 65536,
            coeffs.len() <= 256,
            all_reduced(coeffs@),
            sample_ntt_from(stream_input, group as nat, values(coeffs@)) == sample_ntt_from(
                stream_input,
                0,
                Seq::<int>::empty(),
            ),
        decreases 65536 - group,
    {
        let ghost acc = values(coeffs@);
        let c = reader.squeeze(3);
        let c0: u16 = c[0] as u16;
        let c1: u16 = c[1] as u16;
        let c2: u16 = c[2] as u16;
        let d1: u16 = c0 + 256 * (c1 % 16);
        let d2: u16 = c1 / 16 + 16 * c2;
        if d1 < Q {
            coeffs.push(FF(d1));
        }
        if d2 < Q && coeffs.len() < N {
            coeffs.push(FF(d2));
        }
        proof {
            assert(values(coeffs@) =~= at_most(acc + accepted(c@), 256));
        }
        group = group + 1;
    }
    let ghost drawn = values(coeffs@);
    let a = Polynomial::new(coeffs);
    proof {
        assert(a@ =~= zero_extended(drawn));
        assert forall|t: int| 0 <= t < 256 implies (#[trigger] a.coeffs@[t]).wf() by {}
    }
    a
}

/// Draws an element with centered-binomial coefficients from `64 * eta`
/// bytes; missing bytes read as 0.
pub fn sample_poly_cbd(bytes: Vec<u16>, eta: usize) -> (f: Polynomial)
    requires
        eta == 2 || eta == 3,
        bytes.len() * 8 <= usize::MAX,
    ensures
        f.wf(),
        f@ == sample_poly_cbd_spec(bytes@, eta as nat),
{
    let bits = bytes_to_bits(bytes);
    let nbits = bits.len();
    let mut coeffs: Vec<FF> = Vec::new();
    let mut i: usize = 0;
    while i < N
        invariant
            eta == 2 || eta == 3,
            i <= 256,
            nbits == bits.len(),
            bits@ == bytes_to_bits_spec(bytes@),
            is_bits(bits@),
            coeffs.len() == i,
            all_reduced(coeffs@),
            forall|t: int|
                0 <= t < i ==> (#[trigger] coeffs[t]).value() == fsub(
                    bit_sum(bits@, 2 * t * eta, eta as nat),
                    bit_sum(bits@, (2 * t + 1) * eta, eta as nat),
                ),
        decreases 256 - i,
    {
        let mut x: u16 = 0;
        let mut y: u16 = 0;
        let mut j: usize = 0;
        let base: usize = 2 * i * eta;
        while j < eta
            invariant
                eta == 2 || eta == 3,
                i < 256,
                j <= eta,
                base == 2 * i * eta,
                nbits == bits.len(),
                is_bits(bits@),
                x == bit_sum(bits@, base as int, j as nat),
                y == bit_sum(bits@, base + eta, j as nat),
                x <= j,
                y <= j,
            decreases eta - j,
        {
            let px = base + j;
            let py = base + eta + j;
            let bx: u16 = if px < nbits { bits[px] } else { 0 };
            let by: u16 = if py < nbits { bits[py] } else { 0 };
            proof {
                assert(bx as int == bit_at(bits@, base + (j + 1) - 1));
                assert(by as int == bit_at(bits@, base + eta + (j + 1) - 1));
            }
            x = x + bx;
            y = y + by;
            j = j + 1;
        }
        proof {
            assert((2 * i + 1) * eta == base + eta) by (nonlinear_arith)
                requires
                    base == 2 * i * eta,
            ;
        }
        coeffs.push(FF(x) - FF(y));
        i = i + 1;
    }
    proof {
        assert(values(coeffs@) =~= sample_poly_cbd_spec(bytes@, eta as nat));
    }
    Polynomial { coeffs }
}

} // verus!
