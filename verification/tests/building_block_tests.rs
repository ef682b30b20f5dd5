use mlkem::constant::ParameterSet;
use mlkem::field::FieldElement as FF;
use mlkem::helper::{append_bytes, append_cells, copy_bytes, prf, slice_cells};
use mlkem::kpke::{
    compress_vec, copy_vec, decode_vec, decompress_vec, encode_vec, intt_vec, ntt_vec,
    sample_matrix, sample_noise_vec,
};
use mlkem::poly::{sample_ntt, sample_poly_cbd, Polynomial};

fn ramp(offset: u16) -> Polynomial {
    Polynomial::new((0..256u16).map(|i| FF((i * 13 + offset) % 3329)).collect())
}

#[test]
fn slices_and_appends() {
    let v: Vec<u16> = (0..10).collect();
    assert_eq!(slice_cells(&v, 2, 5), vec![2, 3, 4]);
    assert_eq!(slice_cells(&v, 4, 4), Vec::<u16>::new());
    assert_eq!(slice_cells(&v, 0, 10), v);
    let mut cells = vec![1u16, 2];
    append_cells(&mut cells, &vec![3, 4]);
    assert_eq!(cells, vec![1, 2, 3, 4]);
    let mut bytes = vec![9u8];
    append_bytes(&mut bytes, &Vec::new());
    append_bytes(&mut bytes, &vec![8, 7]);
    assert_eq!(bytes, vec![9, 8, 7]);
    assert_eq!(copy_bytes(&bytes), bytes);
}

#[test]
fn polynomial_from_cells_and_by_reference() {
    let cells: Vec<u16> = (0..256).collect();
    let f = Polynomial::from_cells(&cells);
    assert_eq!(f.list(), cells);
    let g = ramp(5);
    assert_eq!(f.add_ref(&g), f.clone() + g.clone());
    assert_eq!(f.sub_ref(&g), f.clone() - g.clone());
    assert_eq!(
        Polynomial::multiply_ntt_ref(&f, &g),
        Polynomial::multiply_ntt(f.clone(), g.clone())
    );
    assert_eq!(f.clone(), f);
}

#[test]
fn vectors_transform_entry_by_entry() {
    let v = vec![ramp(1), ramp(2), ramp(3)];
    let image = ntt_vec(&v);
    for i in 0..3 {
        assert_eq!(image[i], v[i].clone().ntt());
    }
    assert_eq!(intt_vec(&image), v);
    assert_eq!(copy_vec(&v), v);
}

#[test]
fn vectors_encode_and_decode() {
    let v = vec![ramp(1), ramp(2), ramp(3)];
    let bytes = encode_vec(&v);
    assert_eq!(bytes.len(), 1152);
    assert_eq!(decode_vec(3, &bytes), v);
    let mut longer = bytes.clone();
    longer.extend(vec![0xAB; 32]);
    assert_eq!(decode_vec(3, &longer), v);
    assert_eq!(decode_vec(2, &bytes), v[..2].to_vec());
}

#[test]
fn vectors_compress_and_decompress() {
    let v = vec![ramp(1), ramp(2)];
    for d in [10usize, 11] {
        let bytes = compress_vec(d, &v);
        assert_eq!(bytes.len(), 32 * d * 2);
        let back = decompress_vec(2, d, &bytes);
        for i in 0..2 {
            for j in 0..256 {
                let x = v[i].coeffs[j].0 as i32;
                let y = back[i].coeffs[j].0 as i32;
                let diff = (x - y).rem_euclid(3329);
                assert!(diff.min(3329 - diff) <= 2);
            }
        }
    }
}

#[test]
fn matrix_entries_are_sampled_by_column_then_row() {
    let rho = vec![7u8; 32];
    let a = sample_matrix(3, &rho);
    assert_eq!(a.matrix.len(), 3);
    for r in 0..3u8 {
        assert_eq!(a.matrix[r as usize].len(), 3);
        for c in 0..3u8 {
            assert_eq!(a.matrix[r as usize][c as usize], sample_ntt(rho.clone(), c, r));
        }
    }
    assert_ne!(a.matrix[0][1], a.matrix[1][0]);
}

#[test]
fn noise_vectors_count_up() {
    let seed = vec![3u8; 32];
    let p = ParameterSet::ml_kem_512();
    let v = sample_noise_vec(p.k, &seed, 4, p.eta1);
    assert_eq!(v.len(), 2);
    assert_eq!(v[0], sample_poly_cbd(prf(3, seed.clone(), 4), 3));
    assert_eq!(v[1], sample_poly_cbd(prf(3, seed.clone(), 5), 3));
    assert!(v[0].list().iter().all(|x| *x <= 3 || *x >= 3326));
}
