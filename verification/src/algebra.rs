//! The algebra of the transformed domain: sums and products of elements, and
//! inner products of vectors.

use vstd::prelude::*;
use vstd::arithmetic::div_mod::lemma_small_mod;
use crate::field::fadd;
use crate::field::fmul;
use crate::field::lemma_fadd_congruent;
use crate::field::lemma_fmul_congruent;
use crate::poly::gamma;
use crate::poly::multiply_ntt_spec;
use crate::poly::poly_add;
use crate::poly::poly_sub;
use crate::poly::zero_poly;
use crate::matrix::dot_spec;
use crate::matrix::vec_add_spec;
use crate::matrix::mat_vec_spec;
use crate::ntt_laws::is_poly;

verus! {

/// Every entry of the vector has 256 coefficients, each in `[0, Q)`.
pub open spec fn are_polys(v: Seq<Seq<int>>) -> bool {
    forall|i: int| 0 <= i < v.len() ==> is_poly(#[trigger] v[i])
}

/// Sums and differences of coefficient sequences are reduced.
pub proof fn lemma_sums_are_polys(a: Seq<int>, b: Seq<int>)
    ensures
        is_poly(poly_add(a, b)),
        is_poly(poly_sub(a, b)),
{
    let s = poly_add(a, b);
    let d = poly_sub(a, b);
    assert forall|j: int| 0 <= j < 256 implies 0 <= #[trigger] s[j] < 3329 by {}
    assert forall|j: int| 0 <= j < 256 implies 0 <= #[trigger] d[j] < 3329 by {}
}

/// Products in the transformed domain are reduced.
pub proof fn lemma_product_is_poly(a: Seq<int>, b: Seq<int>)
    ensures
        is_poly(multiply_ntt_spec(a, b)),
{
    let m = multiply_ntt_spec(a, b);
    assert forall|j: int| 0 <= j < 256 implies 0 <= #[trigger] m[j] < 3329 by {}
}

/// The sum of coefficient sequences is associative.
pub proof fn lemma_add_associative(a: Seq<int>, b: Seq<int>, c: Seq<int>)
    ensures
        poly_add(poly_add(a, b), c) == poly_add(a, poly_add(b, c)),
{
    let left = poly_add(poly_add(a, b), c);
    let right = poly_add(a, poly_add(b, c));
    assert forall|j: int| 0 <= j < 256 implies left[j] == right[j] by {
        lemma_fadd_congruent(a[j], b[j], a[j], b[j]);
        lemma_fadd_congruent(fadd(a[j], b[j]), c[j], a[j] + b[j], c[j]);
        lemma_fadd_congruent(b[j], c[j], b[j], c[j]);
        lemma_fadd_congruent(a[j], fadd(b[j], c[j]), a[j], b[j] + c[j]);
    }
    assert(left =~= right);
}

/// Two sums added are the sums of the first and of the second summands,
/// added.
pub proof fn lemma_add_interchange(a: Seq<int>, b: Seq<int>, c: Seq<int>, d: Seq<int>)
    ensures
        poly_add(poly_add(a, b), poly_add(c, d)) == poly_add(poly_add(a, c), poly_add(b, d)),
{
    let left = poly_add(poly_add(a, b), poly_add(c, d));
    let right = poly_add(poly_add(a, c), poly_add(b, d));
    assert forall|j: int| 0 <= j < 256 implies left[j] == right[j] by {
        lemma_fadd_congruent(a[j], b[j], a[j], b[j]);
        lemma_fadd_congruent(c[j], d[j], c[j], d[j]);
        lemma_fadd_congruent(fadd(a[j], b[j]), fadd(c[j], d[j]), a[j] + b[j], c[j] + d[j]);
        lemma_fadd_congruent(a[j], c[j], a[j], c[j]);
        lemma_fadd_congruent(b[j], d[j], b[j], d[j]);
        lemma_fadd_congruent(fadd(a[j], c[j]), fadd(b[j], d[j]), a[j] + c[j], b[j] + d[j]);
    }
    assert(left =~= right);
}

/// Adding zero leaves a reduced coefficient sequence unchanged.
pub proof fn lemma_add_zero(a: Seq<int>)
    requires
        is_poly(a),
    ensures
        poly_add(zero_poly(), a) == a,
        poly_add(a, zero_poly()) == a,
{
    let left = poly_add(zero_poly(), a);
    let right = poly_add(a, zero_poly());
    assert forall|j: int| 0 <= j < 256 implies left[j] == a[j] && right[j] == a[j] by {
        lemma_small_mod(a[j] as nat, 3329);
    }
    assert(left =~= a);
    assert(right =~= a);
}

/// The products of one coefficient pair as residues of integer expressions,
/// where the entries of the pairs are congruent to given integers.
proof fn lemma_pair_product_congruent(
    a0: int,
    a1: int,
    b0: int,
    b1: int,
    p: int,
    x0: int,
    x1: int,
    y0: int,
    y1: int,
)
    requires
        a0 % 3329 == x0 % 3329,
        a1 % 3329 == x1 % 3329,
        b0 % 3329 == y0 % 3329,
        b1 % 3329 == y1 % 3329,
    ensures
        fadd(fmul(a0, b0), fmul(fmul(a1, b1), p)) == (x0 * y0 + (x1 * y1) * p) % 3329,
        fadd(fmul(a0, b1), fmul(a1, b0)) == (x0 * y1 + x1 * y0) % 3329,
        fadd(fmul(a0, b0), fmul(fmul(a1, b1), p)) % 3329 == (x0 * y0 + (x1 * y1) * p) % 3329,
        fadd(fmul(a0, b1), fmul(a1, b0)) % 3329 == (x0 * y1 + x1 * y0) % 3329,
{
    lemma_fmul_congruent(a0, b0, x0, y0);
    lemma_fmul_congruent(a1, b1, x1, y1);
    lemma_fmul_congruent(fmul(a1, b1), p, x1 * y1, p);
    lemma_fadd_congruent(fmul(a0, b0), fmul(fmul(a1, b1), p), x0 * y0, (x1 * y1) * p);
    lemma_fmul_congruent(a0, b1, x0, y1);
    lemma_fmul_congruent(a1, b0, x1, y0);
    lemma_fadd_congruent(fmul(a0, b1), fmul(a1, b0), x0 * y1, x1 * y0);
}

/// The product of the transformed domain is commutative.
pub proof fn lemma_multiply_commutative(a: Seq<int>, b: Seq<int>)
    ensures
        multiply_ntt_spec(a, b) == multiply_ntt_spec(b, a),
{
    let left = multiply_ntt_spec(a, b);
    let right = multiply_ntt_spec(b, a);
    assert forall|j: int| 0 <= j < 256 implies left[j] == right[j] by {
        let i = j / 2;
        let p = gamma(i);
        let a0 = a[2 * i];
        let a1 = a[2 * i + 1];
        let b0 = b[2 * i];
        let b1 = b[2 * i + 1];
        lemma_pair_product_congruent(a0, a1, b0, b1, p, a0, a1, b0, b1);
        lemma_pair_product_congruent(b0, b1, a0, a1, p, b0, b1, a0, a1);
        assert(a0 * b0 == b0 * a0) by (nonlinear_arith);
        assert(a1 * b1 == b1 * a1) by (nonlinear_arith);
        assert(a0 * b1 == b1 * a0) by (nonlinear_arith);
        assert(a1 * b0 == b0 * a1) by (nonlinear_arith);
    }
    assert(left =~= right);
}

/// A product with a sum is the sum of the products.
pub proof fn lemma_distribute(x: int, u: int, v: int)
    ensures
        x * (u + v) == x * u + x * v,
        (u + v) * x == u * x + v * x,
{
    assert(x * (u + v) == x * u + x * v) by (nonlinear_arith);
    assert((u + v) * x == u * x + v * x) by (nonlinear_arith);
}

/// Three factors may be grouped and ordered freely.
pub proof fn lemma_regroup(x: int, y: int, z: int)
    ensures
        x * (y * z) == (x * y) * z,
        (x * y) * z == (x * z) * y,
{
    assert(x * (y * z) == (x * y) * z) by (nonlinear_arith);
    assert((x * y) * z == (x * z) * y) by (nonlinear_arith);
}

/// The integer identities behind the associativity of the product of one
/// coefficient pair.
#[verifier::rlimit(40)]
proof fn lemma_pair_associative_identity(
    a0: int,
    a1: int,
    b0: int,
    b1: int,
    c0: int,
    c1: int,
    p: int,
)
    ensures
        (a0 * b0 + (a1 * b1) * p) * c0 + ((a0 * b1 + a1 * b0) * c1) * p == a0 * (b0 * c0 + (b1
            * c1) * p) + (a1 * (b0 * c1 + b1 * c0)) * p,
        (a0 * b0 + (a1 * b1) * p) * c1 + (a0 * b1 + a1 * b0) * c0 == a0 * (b0 * c1 + b1 * c0) + a1
            * (b0 * c0 + (b1 * c1) * p),
{
    let m000 = (a0 * b0) * c0;
    let m110 = ((a1 * b1) * c0) * p;
    let m011 = ((a0 * b1) * c1) * p;
    let m101 = ((a1 * b0) * c1) * p;
    let m001 = (a0 * b0) * c1;
    let m111 = ((a1 * b1) * c1) * p;
    let m010 = (a0 * b1) * c0;
    let m100 = (a1 * b0) * c0;
    assert((a0 * b0 + (a1 * b1) * p) * c0 == m000 + m110) by {
        lemma_distribute(c0, a0 * b0, (a1 * b1) * p);
        lemma_regroup(a1 * b1, p, c0);
    }
    assert(((a0 * b1 + a1 * b0) * c1) * p == m011 + m101) by {
        lemma_distribute(c1, a0 * b1, a1 * b0);
        lemma_distribute(p, (a0 * b1) * c1, (a1 * b0) * c1);
    }
    assert(a0 * (b0 * c0 + (b1 * c1) * p) == m000 + m011) by {
        lemma_distribute(a0, b0 * c0, (b1 * c1) * p);
        lemma_regroup(a0, b0, c0);
        lemma_regroup(a0, b1 * c1, p);
        lemma_regroup(a0, b1, c1);
    }
    assert((a1 * (b0 * c1 + b1 * c0)) * p == m101 + m110) by {
        lemma_distribute(a1, b0 * c1, b1 * c0);
        lemma_regroup(a1, b0, c1);
        lemma_regroup(a1, b1, c0);
        lemma_distribute(p, (a1 * b0) * c1, (a1 * b1) * c0);
    }
    assert((a0 * b0 + (a1 * b1) * p) * c1 == m001 + m111) by {
        lemma_distribute(c1, a0 * b0, (a1 * b1) * p);
        lemma_regroup(a1 * b1, p, c1);
    }
    assert((a0 * b1 + a1 * b0) * c0 == m010 + m100) by {
        lemma_distribute(c0, a0 * b1, a1 * b0);
    }
    assert(a0 * (b0 * c1 + b1 * c0) == m001 + m010) by {
        lemma_distribute(a0, b0 * c1, b1 * c0);
        lemma_regroup(a0, b0, c1);
        lemma_regroup(a0, b1, c0);
    }
    assert(a1 * (b0 * c0 + (b1 * c1) * p) == m100 + m111) by {
        lemma_distribute(a1, b0 * c0, (b1 * c1) * p);
        lemma_regroup(a1, b0, c0);
        lemma_regroup(a1, b1 * c1, p);
        lemma_regroup(a1, b1, c1);
    }
}

/// The product of the transformed domain is associative.
#[verifier::rlimit(40)]
pub proof fn lemma_multiply_associative(a: Seq<int>, b: Seq<int>, c: Seq<int>)
    ensures
        multiply_ntt_spec(multiply_ntt_spec(a, b), c) == multiply_ntt_spec(
            a,
            multiply_ntt_spec(b, c),
        ),
{
    let ab = multiply_ntt_spec(a, b);
    let bc = multiply_ntt_spec(b, c);
    let left = multiply_ntt_spec(ab, c);
    let right = multiply_ntt_spec(a, bc);
    assert forall|j: int| 0 <= j < 256 implies left[j] == right[j] by {
        let i = j / 2;
        let p = gamma(i);
        let a0 = a[2 * i];
        let a1 = a[2 * i + 1];
        let b0 = b[2 * i];
        let b1 = b[2 * i + 1];
        let c0 = c[2 * i];
        let c1 = c[2 * i + 1];
        assert((2 * i) / 2 == i && (2 * i) % 2 == 0);
        assert((2 * i + 1) / 2 == i && (2 * i + 1) % 2 == 1);
        lemma_pair_product_congruent(a0, a1, b0, b1, p, a0, a1, b0, b1);
        lemma_pair_product_congruent(b0, b1, c0, c1, p, b0, b1, c0, c1);
        lemma_pair_product_congruent(
            ab[2 * i],
            ab[2 * i + 1],
            c0,
            c1,
            p,
            a0 * b0 + (a1 * b1) * p,
            a0 * b1 + a1 * b0,
            c0,
            c1,
        );
        lemma_pair_product_congruent(
            a0,
            a1,
            bc[2 * i],
            bc[2 * i + 1],
            p,
            a0,
            a1,
            b0 * c0 + (b1 * c1) * p,
            b0 * c1 + b1 * c0,
        );
        lemma_pair_associative_identity(a0, a1, b0, b1, c0, c1, p);
    }
    assert(left =~= right);
}

/// The product of the transformed domain is additive in its second factor.
pub proof fn lemma_multiply_additive_right(a: Seq<int>, b: Seq<int>, c: Seq<int>)
    requires
        a.len() == 256,
        b.len() == 256,
        c.len() == 256,
    ensures
        multiply_ntt_spec(a, poly_add(b, c)) == poly_add(
            multiply_ntt_spec(a, b),
            multiply_ntt_spec(a, c),
        ),
{
    lemma_multiply_commutative(a, poly_add(b, c));
    crate::convolution::lemma_multiply_additive(b, c, a);
    lemma_multiply_commutative(b, a);
    lemma_multiply_commutative(c, a);
}

/// The inner product is additive in its first vector.
pub proof fn lemma_dot_additive_left(a: Seq<Seq<int>>, x: Seq<Seq<int>>, b: Seq<Seq<int>>, n: nat)
    requires
        n <= a.len(),
        a.len() == x.len(),
        n <= b.len(),
        are_polys(a),
        are_polys(x),
        are_polys(b),
    ensures
        dot_spec(vec_add_spec(a, x), b, n) == poly_add(dot_spec(a, b, n), dot_spec(x, b, n)),
    decreases n,
{
    if n == 0 {
        lemma_add_zero(zero_poly());
    } else {
        let m = (n - 1) as nat;
        lemma_dot_additive_left(a, x, b, m);
        crate::convolution::lemma_multiply_additive(a[n - 1], x[n - 1], b[n - 1]);
        lemma_add_interchange(
            dot_spec(a, b, m),
            dot_spec(x, b, m),
            multiply_ntt_spec(a[n - 1], b[n - 1]),
            multiply_ntt_spec(x[n - 1], b[n - 1]),
        );
    }
}

/// The inner product is additive in its second vector.
pub proof fn lemma_dot_additive_right(a: Seq<Seq<int>>, b: Seq<Seq<int>>, y: Seq<Seq<int>>, n: nat)
    requires
        n <= a.len(),
        n <= b.len(),
        b.len() == y.len(),
        are_polys(a),
        are_polys(b),
        are_polys(y),
    ensures
        dot_spec(a, vec_add_spec(b, y), n) == poly_add(dot_spec(a, b, n), dot_spec(a, y, n)),
    decreases n,
{
    if n == 0 {
        lemma_add_zero(zero_poly());
    } else {
        let m = (n - 1) as nat;
        lemma_dot_additive_right(a, b, y, m);
        lemma_multiply_additive_right(a[n - 1], b[n - 1], y[n - 1]);
        lemma_add_interchange(
            dot_spec(a, b, m),
            dot_spec(a, y, m),
            multiply_ntt_spec(a[n - 1], b[n - 1]),
            multiply_ntt_spec(a[n - 1], y[n - 1]),
        );
    }
}

/// Inner products are reduced.
pub proof fn lemma_dot_is_poly(a: Seq<Seq<int>>, b: Seq<Seq<int>>, n: nat)
    ensures
        is_poly(dot_spec(a, b, n)),
{
    if n == 0 {
        lemma_zero_is_poly();
    } else {
        lemma_sums_are_polys(
            dot_spec(a, b, (n - 1) as nat),
            multiply_ntt_spec(a[n - 1], b[n - 1]),
        );
    }
}

/// The products of the entries of a vector with one element.
pub open spec fn products_with(row: Seq<Seq<int>>, c: Seq<int>) -> Seq<Seq<int>> {
    Seq::new(row.len(), |j: int| multiply_ntt_spec(row[j], c))
}

/// Column `j` of a matrix.
pub open spec fn column(a: Seq<Seq<Seq<int>>>, j: int) -> Seq<Seq<int>> {
    Seq::new(a.len(), |i: int| a[i][j])
}

/// The inner products of the columns of a matrix with a vector, over the
/// first `n` rows.
pub open spec fn partial_columns(a: Seq<Seq<Seq<int>>>, y: Seq<Seq<int>>, n: nat) -> Seq<
    Seq<int>,
> {
    Seq::new(a.len(), |j: int| dot_spec(column(a, j), y, n))
}

/// The matrix has `k` rows of `k` entries, each of 256 reduced coefficients.
pub open spec fn is_square(a: Seq<Seq<Seq<int>>>, k: nat) -> bool {
    &&& a.len() == k
    &&& forall|i: int| 0 <= i < k ==> (#[trigger] a[i]).len() == k && are_polys(a[i])
}

/// A product with the zero element is zero.
pub proof fn lemma_multiply_zero(a: Seq<int>)
    ensures
        multiply_ntt_spec(a, zero_poly()) == zero_poly(),
{
    let left = multiply_ntt_spec(a, zero_poly());
    assert forall|j: int| 0 <= j < 256 implies left[j] == 0 by {
        let i = j / 2;
        let z = zero_poly();
        assert(z[2 * i] == 0 && z[2 * i + 1] == 0);
        assert(a[2 * i] * 0 == 0 && a[2 * i + 1] * 0 == 0 && 0 * gamma(i) == 0);
    }
    assert(left =~= zero_poly());
}

/// The inner product with a vector of zero elements is zero.
#[verifier::rlimit(40)]
proof fn lemma_dot_with_zeros(a: Seq<Seq<int>>, b: Seq<Seq<int>>, n: nat)
    requires
        n <= b.len(),
        forall|j: int| 0 <= j < b.len() ==> #[trigger] b[j] == zero_poly(),
    ensures
        dot_spec(a, b, n) == zero_poly(),
    decreases n,
{
    if n > 0 {
        let m = (n - 1) as nat;
        lemma_dot_with_zeros(a, b, m);
        assert(b[n - 1] == zero_poly());
        lemma_multiply_zero(a[n - 1]);
        lemma_zero_is_poly();
        lemma_add_zero(zero_poly());
        assert(dot_spec(a, b, n) == poly_add(
            dot_spec(a, b, m),
            multiply_ntt_spec(a[n - 1], b[n - 1]),
        ));
    }
}

/// The zero element has 256 reduced coefficients.
pub proof fn lemma_zero_is_poly()
    ensures
        is_poly(zero_poly()),
{
    let z = zero_poly();
    assert forall|j: int| 0 <= j < 256 implies 0 <= #[trigger] z[j] < 3329 by {}
}

/// An inner product times an element is the inner product of the second
/// vector with the products of the first vector and the element.
#[verifier::rlimit(40)]
pub proof fn lemma_dot_times(a: Seq<Seq<int>>, b: Seq<Seq<int>>, c: Seq<int>, n: nat)
    requires
        n <= a.len(),
        n <= b.len(),
        are_polys(a),
        are_polys(b),
        is_poly(c),
    ensures
        multiply_ntt_spec(dot_spec(a, b, n), c) == dot_spec(b, products_with(a, c), n),
    decreases n,
{
    if n == 0 {
        lemma_multiply_commutative(zero_poly(), c);
        lemma_multiply_zero(c);
    } else {
        let m = (n - 1) as nat;
        lemma_dot_times(a, b, c, m);
        let x = a[n - 1];
        let y = b[n - 1];
        lemma_dot_is_poly(a, b, m);
        crate::convolution::lemma_multiply_additive(dot_spec(a, b, m), multiply_ntt_spec(x, y), c);
        // (x y) c = y (x c)
        lemma_multiply_commutative(x, y);
        lemma_multiply_associative(y, x, c);
    }
}

/// The inner product of a matrix-vector product with a second vector, over
/// the first `n` rows, is the inner product of the first vector with the
/// inner products of the columns and the second vector over those rows.
#[verifier::rlimit(40)]
pub proof fn lemma_bilinear_rows(
    a: Seq<Seq<Seq<int>>>,
    s: Seq<Seq<int>>,
    y: Seq<Seq<int>>,
    k: nat,
    n: nat,
)
    requires
        is_square(a, k),
        s.len() == k,
        y.len() == k,
        are_polys(s),
        are_polys(y),
        n <= k,
    ensures
        dot_spec(mat_vec_spec(a, s), y, n) == dot_spec(s, partial_columns(a, y, n), k),
    decreases n,
{
    if n == 0 {
        lemma_dot_with_zeros(s, partial_columns(a, y, 0), k);
    } else {
        let m = (n - 1) as nat;
        lemma_bilinear_rows(a, s, y, k, m);
        let row = a[n - 1];
        let before = partial_columns(a, y, m);
        let grown = products_with(row, y[n - 1]);
        let after = partial_columns(a, y, n);
        assert forall|j: int| 0 <= j < k implies after[j] == vec_add_spec(before, grown)[j] by {
            assert(column(a, j)[n - 1] == row[j]);
        }
        assert(after =~= vec_add_spec(before, grown));
        assert forall|j: int| 0 <= j < k implies is_poly(#[trigger] before[j]) by {
            lemma_dot_is_poly(column(a, j), y, m);
        }
        assert forall|j: int| 0 <= j < k implies is_poly(#[trigger] grown[j]) by {
            lemma_product_is_poly(row[j], y[n - 1]);
        }
        lemma_dot_additive_right(s, before, grown, k);
        lemma_dot_times(row, s, y[n - 1], k);
        assert(mat_vec_spec(a, s)[n - 1] == dot_spec(row, s, k));
    }
}

} // verus!
