use mlkem::constant::N;
use mlkem::field::FieldElement as FF;
use mlkem::helper::prf;
use mlkem::poly::{sample_ntt, sample_poly_cbd, Polynomial};

fn from_ints(v: &[u16]) -> Polynomial {
    Polynomial::new(v.iter().map(|x| FF(*x)).collect())
}

fn pseudo(seed: u32) -> Polynomial {
    let mut state = seed;
    let mut v = Vec::new();
    for _ in 0..256 {
        state = state.wrapping_mul(1664525).wrapping_add(1013904223);
        v.push(FF(((state >> 8) % 3329) as u16));
    }
    Polynomial::new(v)
}

fn schoolbook(f: &Polynomial, g: &Polynomial) -> Vec<u16> {
    let mut out = vec![0i64; 256];
    for a in 0..256 {
        for b in 0..256 {
            let p = f.coeffs[a].0 as i64 * g.coeffs[b].0 as i64;
            if a + b < 256 {
                out[a + b] += p;
            } else {
                out[a + b - 256] -= p;
            }
        }
    }
    out.iter().map(|x| x.rem_euclid(3329) as u16).collect()
}

#[test]
fn test_padding_zeros() {
    let p = Polynomial::new(vec![FF(1), FF(2), FF(3)]);
    let padded_p = Polynomial::padding_zeros(p.coeffs);
    assert_eq!(padded_p.len(), N);
    assert_eq!(padded_p[0], FF(1));
    assert_eq!(padded_p[1], FF(2));
    assert_eq!(padded_p[2], FF(3));
    for i in 3..N {
        assert_eq!(padded_p[i], FF(0));
    }
}

#[test]
fn poly_test_add() {
    let first = Polynomial::new(vec![FF(1), FF(2), FF(3)]);
    let second = Polynomial::new(vec![FF(4), FF(5), FF(6)]);
    let sum = first + second;
    assert_eq!(sum.coeffs[0], FF(5));
    assert_eq!(sum.coeffs[1], FF(7));
    assert_eq!(sum.coeffs[2], FF(9));
}

#[test]
fn test_multiply() {
    let first = Polynomial::new(vec![FF(1), FF(2), FF(3)]);
    let second = Polynomial::new(vec![FF(4), FF(5), FF(6)]);
    let product = first * second;
    assert_eq!(product.coeffs[0], FF(4));
    assert_eq!(product.coeffs[1], FF(13));
    assert_eq!(product.coeffs[2], FF(28));
    assert_eq!(product.coeffs[3], FF(27));
    assert_eq!(product.coeffs[4], FF(18));
}

#[test]
fn every_polynomial_has_256_coefficients() {
    assert_eq!(Polynomial::zero_polynomial().coeffs.len(), 256);
    assert_eq!(Polynomial::new(Vec::new()).coeffs.len(), 256);
    assert_eq!(pseudo(1).ntt().coeffs.len(), 256);
    assert_eq!(pseudo(1).intt().coeffs.len(), 256);
    assert_eq!((pseudo(1) * pseudo(2)).coeffs.len(), 256);
    assert_eq!((pseudo(1) - pseudo(2)).list().len(), 256);
}

#[test]
fn zero_polynomial_is_zero() {
    assert!(Polynomial::zero_polynomial().list().iter().all(|x| *x == 0));
}

#[test]
fn subtraction_wraps() {
    let d = from_ints(&[1, 0]) - from_ints(&[2, 5]);
    assert_eq!(d.coeffs[0], FF(3328));
    assert_eq!(d.coeffs[1], FF(3324));
    assert_eq!(d.coeffs[2], FF(0));
}

#[test]
fn ntt_of_one_plus_x() {
    let f = from_ints(&[1, 1]).ntt();
    assert!(f.list().iter().all(|x| *x == 1));
}

#[test]
fn ntt_of_x_squared_holds_the_factor_constants() {
    let f = from_ints(&[0, 0, 1]).ntt().list();
    assert_eq!(f[0], 17);
    assert_eq!(f[1], 0);
    assert_eq!(f[2], 3312);
    assert_eq!(f[254], 1175);
}

#[test]
fn intt_inverts_ntt() {
    for seed in 0..20 {
        let f = pseudo(seed);
        assert_eq!(f.clone().ntt().intt(), f);
        assert_eq!(f.clone().intt().ntt(), f);
    }
}

#[test]
fn ntt_is_additive() {
    for seed in 0..10 {
        let f = pseudo(seed);
        let g = pseudo(seed + 100);
        assert_eq!((f.clone() + g.clone()).ntt(), f.ntt() + g.ntt());
    }
}

#[test]
fn product_is_negacyclic_convolution() {
    for seed in 0..5 {
        let f = pseudo(seed);
        let g = pseudo(seed + 50);
        let expected = schoolbook(&f, &g);
        assert_eq!((f * g).list(), expected);
    }
}

#[test]
fn one_plus_x_squared() {
    let f = from_ints(&[1, 1]);
    let g = from_ints(&[1, 1]);
    let h = Polynomial::multiply_ntt(f.ntt(), g.ntt()).intt();
    let mut expected = vec![0u16; 256];
    expected[0] = 1;
    expected[1] = 2;
    expected[2] = 1;
    assert_eq!(h.list(), expected);
}

#[test]
fn top_degree_wraps_with_a_sign() {
    let mut x255 = vec![0u16; 256];
    x255[255] = 1;
    let p = from_ints(&x255) * from_ints(&[0, 1]);
    let mut expected = vec![0u16; 256];
    expected[0] = 3328;
    assert_eq!(p.list(), expected);
}

#[test]
fn sample_ntt_known_values() {
    let a = sample_ntt(vec![0u8; 32], 0, 1);
    assert_eq!(&a.list()[..8], &[3236, 77, 320, 991, 2431, 3064, 1471, 615]);
    assert!(a.list().iter().all(|x| *x < 3329));
    assert_ne!(sample_ntt(vec![0u8; 32], 1, 0).list(), a.list());
}

#[test]
fn sample_poly_cbd_known_values() {
    let f = sample_poly_cbd(prf(2, vec![0u8; 32], 0), 2);
    assert_eq!(&f.list()[..8], &[0, 3327, 0, 2, 3327, 3327, 1, 3328]);
}

#[test]
fn sample_poly_cbd_extremes() {
    let ones = sample_poly_cbd(vec![0x0F; 128], 2).list();
    assert_eq!(ones[0], 0);
    let high = sample_poly_cbd(vec![0x33; 128], 2).list();
    assert!(high.iter().all(|x| *x == 2));
    let low = sample_poly_cbd(vec![0xCC; 128], 2).list();
    assert!(low.iter().all(|x| *x == 3327));
    let three = sample_poly_cbd(vec![0xC7, 0x71, 0x1C].repeat(64), 3).list();
    assert!(three.iter().all(|x| *x == 3));
    let short = sample_poly_cbd(vec![0x03], 2).list();
    assert_eq!(short[0], 2);
    assert!(short[1..].iter().all(|x| *x == 0));
}
