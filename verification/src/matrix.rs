//! Symmetric count matrices, stored upper-triangle.
//!
//! A `Matrix` is a square table of `i32` counts indexed by an unordered pair
//! of indices: the cell for the pair `(i, j)` is stored at `[min(i, j)][max(i, j)]`,
//! so every read and write goes through the upper triangle and the table is
//! symmetric by construction.

use vstd::prelude::*;

verus! {

pub type Matrix = Vec<Vec<i32>>;

/// The mathematical value of a matrix: a sequence of rows, each a sequence of entries.
pub open spec fn mat_view(m: &Matrix) -> Seq<Seq<i32>> {
    m@.map_values(|r: Vec<i32>| r@)
}

/// A square table with `n` rows of `n` entries each.
pub open spec fn mat_square(m: Seq<Seq<i32>>, n: int) -> bool {
    m.len() == n && (forall|i: int| 0 <= i < n ==> #[trigger] m[i].len() == n)
}

/// The count stored for the unordered pair `(i, j)`.
pub open spec fn mat_at(m: Seq<Seq<i32>>, i: int, j: int) -> int {
    if i <= j {
        m[i][j] as int
    } else {
        m[j][i] as int
    }
}

/// The matrix after adding one to the count of the unordered pair `(i, j)`.
pub open spec fn mat_inc(m: Seq<Seq<i32>>, i: int, j: int) -> Seq<Seq<i32>> {
    let lo = if i <= j { i } else { j };
    let hi = if i <= j { j } else { i };
    m.update(lo, m[lo].update(hi, (m[lo][hi] + 1) as i32))
}

/// The stored `i32` cell for the unordered pair `(i, j)`.
pub open spec fn mat_at32(m: Seq<Seq<i32>>, i: int, j: int) -> i32 {
    if i <= j {
        m[i][j]
    } else {
        m[j][i]
    }
}

/// The count of a pair never depends on the order the two indices are given in.
///
/// Law: the team-game matrix is symmetric — the value read for `(i, j)` equals
/// the value read for `(j, i)`, for every pair of indices.
pub proof fn lemma_mat_symmetric(m: Seq<Seq<i32>>, i: int, j: int)
    ensures
        mat_at(m, i, j) == mat_at(m, j, i),
{
}

pub fn increment_matrix(matrix: &mut Matrix, i0: usize, i1: usize)
    requires
        mat_square(mat_view(old(matrix)), old(matrix)@.len() as int),
        i0 < old(matrix)@.len(),
        i1 < old(matrix)@.len(),
        mat_at(mat_view(old(matrix)), i0 as int, i1 as int) < i32::MAX,
    ensures
        mat_view(final(matrix)) == mat_inc(mat_view(old(matrix)), i0 as int, i1 as int),
        final(matrix)@.len() == old(matrix)@.len(),
        mat_square(mat_view(final(matrix)), final(matrix)@.len() as int),
{
    if i0 <= i1 {
        let v = matrix[i0][i1];
        matrix[i0][i1] = v + 1;
    } else {
        let v = matrix[i1][i0];
        matrix[i1][i0] = v + 1;
    }
    proof {
        assert(mat_view(matrix) =~~= mat_inc(mat_view(old(matrix)), i0 as int, i1 as int));
    }
}

pub fn get_matrix_val(matrix: &Matrix, i0: usize, i1: usize) -> (v: i32)
    requires
        mat_square(mat_view(matrix), matrix@.len() as int),
        i0 < matrix@.len(),
        i1 < matrix@.len(),
    ensures
        v as int == mat_at(mat_view(matrix), i0 as int, i1 as int),
        v == mat_at32(mat_view(matrix), i0 as int, i1 as int),
{
    proof {
        assert(mat_view(matrix)[i0 as int] == matrix@[i0 as int]@);
        assert(mat_view(matrix)[i1 as int] == matrix@[i1 as int]@);
    }
    if i0 <= i1 {
        matrix[i0][i1]
    } else {
        matrix[i1][i0]
    }
}

pub fn create_matrix_with_dimension(dimension: usize) -> (m: Matrix)
    ensures
        m@.len() == dimension,
        mat_square(mat_view(&m), dimension as int),
        forall|i: int, j: int|
            0 <= i < dimension && 0 <= j < dimension ==> #[trigger] mat_at(
                mat_view(&m),
                i,
                j,
            ) == 0,
        forall|i: int, j: int|
            0 <= i < dimension && 0 <= j < dimension ==> #[trigger] mat_view(&m)[i][j] == 0i32,
{
    let mut m: Matrix = Vec::new();
    let mut i: usize = 0;
    while i < dimension
        invariant
            i <= dimension,
            m@.len() == i,
            forall|k: int| 0 <= k < i ==> #[trigger] m@[k]@.len() == dimension,
            forall|k: int, l: int|
                0 <= k < i && 0 <= l < dimension ==> #[trigger] m@[k]@[l] == 0i32,
        decreases dimension - i,
    {
        let mut row: Vec<i32> = Vec::new();
        let mut j: usize = 0;
        while j < dimension
            invariant
                j <= dimension,
                row@.len() == j,
                forall|l: int| 0 <= l < j ==> #[trigger] row@[l] == 0i32,
            decreases dimension - j,
        {
            row.push(0);
            j = j + 1;
        }
        m.push(row);
        i = i + 1;
    }
    m
}

} // verus!
