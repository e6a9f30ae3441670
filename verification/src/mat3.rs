//! The one operation on a 3 by 3 matrix that moves its entries and computes
//! nothing: the transpose, which for a rotation is its inverse.

use vstd::prelude::*;

verus! {

/// The entries of `m` mirrored at the diagonal: what stood in row `i` and
/// column `j` stands in row `j` and column `i`.
pub open spec fn transposed<T>(m: [[T; 3]; 3]) -> Seq<Seq<T>> {
    Seq::new(3, |i: int| Seq::new(3, |j: int| m@[j]@[i]))
}

/// The rows of a matrix, each as a sequence.
pub open spec fn rows<T>(m: [[T; 3]; 3]) -> Seq<Seq<T>> {
    Seq::new(3, |i: int| m@[i]@)
}

/// Transposes a matrix of any entries.
pub fn transpose<T: Copy>(m: &[[T; 3]; 3]) -> (t: [[T; 3]; 3])
    ensures
        rows(t) == transposed(*m),
{
    let t = [[m[0][0], m[1][0], m[2][0]], [m[0][1], m[1][1], m[2][1]], [m[0][2], m[1][2], m[2][2]]];
    proof {
        assert forall|i: int| 0 <= i < 3 implies #[trigger] rows(t)[i] == transposed(*m)[i] by {
            assert(rows(t)[i] =~= transposed(*m)[i]);
        }
        assert(rows(t) =~= transposed(*m));
    }
    t
}

/// Transposing twice gives the matrix back.
pub proof fn lemma_transpose_twice<T>(m: [[T; 3]; 3], t: [[T; 3]; 3])
    requires
        rows(t) == transposed(m),
    ensures
        transposed(t) == rows(m),
{
    assert forall|i: int| 0 <= i < 3 implies #[trigger] transposed(t)[i] == rows(m)[i] by {
        assert forall|j: int| 0 <= j < 3 implies transposed(t)[i][j] == rows(m)[i][j] by {
            assert(transposed(t)[i][j] == t@[j]@[i]);
            assert(rows(t)[j] == t@[j]@);
            assert(rows(t)[j][i] == transposed(m)[j][i]);
            assert(transposed(m)[j][i] == m@[i]@[j]);
            assert(rows(m)[i] == m@[i]@);
        }
        assert(transposed(t)[i] =~= rows(m)[i]);
    }
    assert(transposed(t) =~= rows(m));
}

} // verus!
