//! Vectors and matrices of ring elements in the transformed domain.

use vstd::prelude::*;
use crate::poly::Polynomial;
use crate::poly::poly_add;
use crate::poly::multiply_ntt_spec;
use crate::poly::zero_poly;

verus! {

/// A matrix of ring elements, held row by row.
#[derive(Debug, PartialEq)]
pub struct Matrix {
    pub matrix: Vec<Vec<Polynomial>>,
}

impl Clone for Matrix {
    fn clone(&self) -> (m: Matrix)
        ensures
            m.matrix.len() == self.matrix.len(),
            forall|i: int|
                0 <= i < self.matrix.len() ==> (#[trigger] m.matrix[i]).len()
                    == self.matrix[i].len(),
            forall|i: int, j: int|
                0 <= i < self.matrix.len() && 0 <= j < self.matrix[i].len() ==> (
                #[trigger] m.matrix[i][j]).coeffs@ == self.matrix[i][j].coeffs@,
    {
        let mut rows: Vec<Vec<Polynomial>> = Vec::new();
        let mut i: usize = 0;
        while i < self.matrix.len()
            invariant
                i <= self.matrix.len(),
                rows.len() == i,
                forall|s: int| 0 <= s < i ==> (#[trigger] rows[s]).len() == self.matrix[s].len(),
                forall|s: int, t: int|
                    0 <= s < i && 0 <= t < self.matrix[s].len() ==> (#[trigger] rows[s][t]).coeffs@
                        == self.matrix[s][t].coeffs@,
            decreases self.matrix.len() - i,
        {
            let mut line: Vec<Polynomial> = Vec::new();
            let mut j: usize = 0;
            while j < self.matrix[i].len()
                invariant
                    i < self.matrix.len(),
                    j <= self.matrix[i as int].len(),
                    line.len() == j,
                    forall|t: int|
                        0 <= t < j ==> (#[trigger] line[t]).coeffs@
                            == self.matrix[i as int][t].coeffs@,
                decreases self.matrix[i as int].len() - j,
            {
                line.push(self.matrix[i][j].clone());
                j = j + 1;
            }
            rows.push(line);
            i = i + 1;
        }
        Matrix { matrix: rows }
    }
}

/// The coefficient sequences of a vector of ring elements.
pub open spec fn vec_view(v: Seq<Polynomial>) -> Seq<Seq<int>> {
    Seq::new(v.len(), |i: int| v[i]@)
}

/// Every entry of the vector is well formed.
pub open spec fn vec_wf(v: Seq<Polynomial>) -> bool {
    forall|i: int| 0 <= i < v.len() ==> (#[trigger] v[i]).wf()
}

/// The componentwise sum of two vectors of equal length.
pub open spec fn vec_add_spec(a: Seq<Seq<int>>, b: Seq<Seq<int>>) -> Seq<Seq<int>> {
    Seq::new(a.len(), |i: int| poly_add(a[i], b[i]))
}

/// The sum of the transformed-domain products of the first `n` entries of
/// `a` with those of `b`.
pub open spec fn dot_spec(a: Seq<Seq<int>>, b: Seq<Seq<int>>, n: nat) -> Seq<int>
    decreases n,
{
    if n == 0 {
        zero_poly()
    } else {
        poly_add(dot_spec(a, b, (n - 1) as nat), multiply_ntt_spec(a[n - 1], b[n - 1]))
    }
}

/// The product of a matrix with a vector: entry `i` is the inner product of
/// row `i` with the vector.
pub open spec fn mat_vec_spec(a: Seq<Seq<Seq<int>>>, b: Seq<Seq<int>>) -> Seq<Seq<int>> {
    Seq::new(a.len(), |i: int| dot_spec(a[i], b, b.len()))
}

impl View for Matrix {
    type V = Seq<Seq<Seq<int>>>;

    open spec fn view(&self) -> Seq<Seq<Seq<int>>> {
        Seq::new(self.matrix@.len(), |i: int| vec_view(self.matrix@[i]@))
    }
}

impl Matrix {
    /// The matrix has `rows` rows of `columns` well-formed entries each.
    pub open spec fn wf(&self, rows: nat, columns: nat) -> bool {
        &&& self.matrix.len() == rows
        &&& forall|i: int|
            0 <= i < rows ==> (#[trigger] self.matrix[i]).len() == columns && vec_wf(
                self.matrix[i]@,
            )
    }

    /// The matrix with the given rows.
    pub fn init(matrix: Vec<Vec<Polynomial>>) -> (m: Matrix)
        ensures
            m.matrix == matrix,
    {
        Matrix { matrix }
    }

    /// The matrix of the given shape whose entries are all zero.
    pub fn zero_matrix(row: usize, column: usize) -> (m: Matrix)
        ensures
            m.wf(row as nat, column as nat),
            forall|i: int, j: int| 0 <= i < row && 0 <= j < column ==> m@[i][j] == zero_poly(),
    {
        let mut rows: Vec<Vec<Polynomial>> = Vec::new();
        let mut i: usize = 0;
        while i < row
            invariant
                i <= row,
                rows.len() == i,
                forall|s: int|
                    0 <= s < i ==> (#[trigger] rows[s]).len() == column && vec_wf(rows[s]@),
                forall|s: int, t: int|
                    0 <= s < i && 0 <= t < column ==> (#[trigger] rows[s][t])@ == zero_poly(),
            decreases row - i,
        {
            let mut line: Vec<Polynomial> = Vec::new();
            let mut j: usize = 0;
            while j < column
                invariant
                    j <= column,
                    line.len() == j,
                    vec_wf(line@),
                    forall|t: int| 0 <= t < j ==> (#[trigger] line[t])@ == zero_poly(),
                decreases column - j,
            {
                line.push(Polynomial::zero_polynomial());
                j = j + 1;
            }
            rows.push(line);
            i = i + 1;
        }
        let m = Matrix::init(rows);
        proof {
            assert forall|i: int, j: int| 0 <= i < row && 0 <= j < column implies m@[i][j]
                == zero_poly() by {
                assert(m.matrix[i][j]@ == zero_poly());
            }
        }
        m
    }

    /// The matrix with rows and columns exchanged.
    pub fn transpose(&self) -> (m: Matrix)
        requires
            self.matrix.len() > 0,
            self.wf(self.matrix.len() as nat, self.matrix[0].len() as nat),
        ensures
            m.wf(self.matrix[0].len() as nat, self.matrix.len() as nat),
            forall|i: int, j: int|
                0 <= i < self.matrix.len() && 0 <= j < self.matrix[0].len() ==> m@[j][i]
                    == self@[i][j],
    {
        let rows = self.matrix.len();
        let columns = self.matrix[0].len();
        let mut lines: Vec<Vec<Polynomial>> = Vec::new();
        let mut j: usize = 0;
        while j < columns
            invariant
                j <= columns,
                rows == self.matrix.len(),
                self.wf(rows as nat, columns as nat),
                lines.len() == j,
                forall|t: int| 0 <= t < j ==> (#[trigger] lines[t]).len() == rows && vec_wf(lines[t]@),
                forall|t: int, s: int|
                    0 <= t < j && 0 <= s < rows ==> (#[trigger] lines[t][s]).coeffs@
                        == self.matrix[s][t].coeffs@,
            decreases columns - j,
        {
            let mut line: Vec<Polynomial> = Vec::new();
            let mut i: usize = 0;
            while i < rows
                invariant
                    i <= rows,
                    j < columns,
                    rows == self.matrix.len(),
                    self.wf(rows as nat, columns as nat),
                    line.len() == i,
                    vec_wf(line@),
                    forall|s: int|
                        0 <= s < i ==> (#[trigger] line[s]).coeffs@ == self.matrix[s][j as int].coeffs@,
                decreases rows - i,
            {
                let entry = self.matrix[i][j].clone();
                proof {
                    assert(self.matrix[i as int].len() == columns && vec_wf(self.matrix[i as int]@));
                    assert(self.matrix[i as int][j as int].wf());
                }
                line.push(entry);
                i = i + 1;
            }
            lines.push(line);
            j = j + 1;
        }
        let m = Matrix::init(lines);
        proof {
            assert forall|i: int, j: int|
                0 <= i < self.matrix.len() && 0 <= j < self.matrix[0].len() implies m@[j][i]
                == self@[i][j] by {
                assert(m.matrix[j][i].coeffs@ == self.matrix[i][j].coeffs@);
                assert(self.matrix[i].len() == columns);
            }
        }
        m
    }
}

/// The inner product of two vectors in the transformed domain.
pub fn vec_mul(a: Vec<Polynomial>, b: Vec<Polynomial>) -> (c: Polynomial)
    requires
        a.len() == b.len(),
        vec_wf(a@),
        vec_wf(b@),
    ensures
        c.wf(),
        c@ == dot_spec(vec_view(a@), vec_view(b@), a.len() as nat),
{
    dot(&a, &b)
}

/// The inner product of two vectors in the transformed domain, by reference.
pub fn dot(a: &Vec<Polynomial>, b: &Vec<Polynomial>) -> (c: Polynomial)
    requires
        a.len() == b.len(),
        vec_wf(a@),
        vec_wf(b@),
    ensures
        c.wf(),
        c@ == dot_spec(vec_view(a@), vec_view(b@), a.len() as nat),
{
    let mut c = Polynomial::zero_polynomial();
    let mut i: usize = 0;
    while i < a.len()
        invariant
            i <= a.len(),
            a.len() == b.len(),
            vec_wf(a@),
            vec_wf(b@),
            c.wf(),
            c@ == dot_spec(vec_view(a@), vec_view(b@), i as nat),
        decreases a.len() - i,
    {
        proof {
            assert(a[i as int].wf());
            assert(b[i as int].wf());
        }
        let product = Polynomial::multiply_ntt_ref(&a[i], &b[i]);
        c = c.add_ref(&product);
        i = i + 1;
    }
    c
}

/// The product of a matrix with a vector in the transformed domain.
pub fn mul(a: &Matrix, b: Vec<Polynomial>) -> (c: Vec<Polynomial>)
    requires
        a.wf(a.matrix.len() as nat, b.len() as nat),
        vec_wf(b@),
    ensures
        c.len() == a.matrix.len(),
        vec_wf(c@),
        vec_view(c@) == mat_vec_spec(a@, vec_view(b@)),
{
    let mut c: Vec<Polynomial> = Vec::new();
    let mut i: usize = 0;
    while i < a.matrix.len()
        invariant
            i <= a.matrix.len(),
            a.wf(a.matrix.len() as nat, b.len() as nat),
            vec_wf(b@),
            c.len() == i,
            vec_wf(c@),
            forall|t: int|
                0 <= t < i ==> (#[trigger] c[t])@ == dot_spec(
                    vec_view(a.matrix[t]@),
                    vec_view(b@),
                    b.len() as nat,
                ),
        decreases a.matrix.len() - i,
    {
        proof {
            assert(a.matrix[i as int].len() == b.len() && vec_wf(a.matrix[i as int]@));
        }
        let entry = dot(&a.matrix[i], &b);
        c.push(entry);
        i = i + 1;
    }
    proof {
        assert(vec_view(c@) =~= mat_vec_spec(a@, vec_view(b@)));
    }
    c
}

/// The componentwise sum of two vectors.
pub fn add(a: Vec<Polynomial>, b: Vec<Polynomial>) -> (c: Vec<Polynomial>)
    requires
        a.len() == b.len(),
        vec_wf(a@),
        vec_wf(b@),
    ensures
        c.len() == a.len(),
        vec_wf(c@),
        vec_view(c@) == vec_add_spec(vec_view(a@), vec_view(b@)),
{
    let mut c: Vec<Polynomial> = Vec::new();
    let mut i: usize = 0;
    while i < a.len()
        invariant
            i <= a.len(),
            a.len() == b.len(),
            vec_wf(a@),
            vec_wf(b@),
            c.len() == i,
            vec_wf(c@),
            forall|t: int| 0 <= t < i ==> (#[trigger] c[t])@ == poly_add(a[t]@, b[t]@),
        decreases a.len() - i,
    {
        proof {
            assert(a[i as int].wf());
            assert(b[i as int].wf());
        }
        c.push(a[i].add_ref(&b[i]));
        i = i + 1;
    }
    proof {
        assert(vec_view(c@) =~= vec_add_spec(vec_view(a@), vec_view(b@)));
    }
    c
}

} // verus!
