use mlkem::field::FieldElement as FF;
use mlkem::matrix::{add, mul, vec_mul, Matrix};
use mlkem::poly::Polynomial;

fn constant(c: u16) -> Polynomial {
    Polynomial::new(vec![FF(c)]).ntt()
}

#[test]
fn zero_matrix_shape() {
    let m = Matrix::zero_matrix(2, 3);
    assert_eq!(m.matrix.len(), 2);
    assert!(m.matrix.iter().all(|row| row.len() == 3));
    assert!(m.matrix.iter().all(|row| row.iter().all(|p| *p == Polynomial::zero_polynomial())));
}

#[test]
fn init_keeps_rows() {
    let rows = vec![vec![constant(1), constant(2)]];
    assert_eq!(Matrix::init(rows.clone()).matrix, rows);
}

#[test]
fn transpose_swaps_indices() {
    let m = Matrix::init(vec![
        vec![constant(1), constant(2), constant(3)],
        vec![constant(4), constant(5), constant(6)],
    ]);
    let t = m.transpose();
    assert_eq!(t.matrix.len(), 3);
    for i in 0..2 {
        for j in 0..3 {
            assert_eq!(t.matrix[j][i], m.matrix[i][j]);
        }
    }
    assert_eq!(t.transpose(), m);
}

#[test]
fn vector_sum_is_componentwise() {
    let c = add(vec![constant(1), constant(2)], vec![constant(10), constant(20)]);
    assert_eq!(c, vec![constant(11), constant(22)]);
}

#[test]
fn inner_product_of_constants() {
    let c = vec_mul(vec![constant(2), constant(3)], vec![constant(5), constant(7)]);
    assert_eq!(c.intt(), Polynomial::new(vec![FF(31)]));
    assert_eq!(vec_mul(Vec::new(), Vec::new()), Polynomial::zero_polynomial());
}

#[test]
fn matrix_times_vector_of_constants() {
    let m = Matrix::init(vec![vec![constant(1), constant(2)], vec![constant(3), constant(4)]]);
    let c = mul(&m, vec![constant(5), constant(6)]);
    assert_eq!(c.len(), 2);
    assert_eq!(c[0].clone().intt(), Polynomial::new(vec![FF(17)]));
    assert_eq!(c[1].clone().intt(), Polynomial::new(vec![FF(39)]));
}
