//! Compressed sparse column (CSC) matrices and the product of such a matrix's
//! transpose with itself, computed by `nalgebra_sparse`.

use vstd::prelude::*;

verus! {

/// The CSC layout that `CscMatrix::try_from_csc_data` accepts: one offset per
/// column plus one, starting at 0 and ending at the number of stored entries,
/// non-decreasing; within each column strictly increasing row indices, all
/// below `nrows`; one value per row index.
pub open spec fn csc_valid(
    nrows: nat,
    ncols: nat,
    offsets: Seq<usize>,
    rows: Seq<usize>,
    values: Seq<isize>,
) -> bool {
    &&& offsets.len() == ncols + 1
    &&& offsets[0] == 0
    &&& offsets[ncols as int] == rows.len()
    &&& values.len() == rows.len()
    &&& forall|c: int| 0 <= c < ncols ==> #[trigger] offsets[c] <= offsets[c + 1]
    &&& forall|c: int, k1: int, k2: int|
        #![trigger offsets[c], rows[k1], rows[k2]]
        0 <= c < ncols && offsets[c] <= k1 < k2 < offsets[c + 1] ==> rows[k1] < rows[k2]
    &&& forall|k: int| 0 <= k < rows.len() ==> #[trigger] rows[k] < nrows
}

/// The sum of the stored values at positions `lo..hi` whose row index is `r`.
pub open spec fn lane_sum(rows: Seq<usize>, values: Seq<isize>, r: int, lo: int, hi: int) -> int
    decreases hi - lo,
{
    if hi <= lo {
        0
    } else {
        lane_sum(rows, values, r, lo, hi - 1) + (if rows[hi - 1] == r {
            values[hi - 1] as int
        } else {
            0
        })
    }
}

/// The entry in row `r` and column `c` of the matrix that the CSC data stands for.
pub open spec fn csc_entry(
    offsets: Seq<usize>,
    rows: Seq<usize>,
    values: Seq<isize>,
    r: int,
    c: int,
) -> int {
    lane_sum(rows, values, r, offsets[c] as int, offsets[c + 1] as int)
}

/// Sum over the rows `r < k` of `A[r][i] * A[r][j]`: with `k` the number of
/// rows of `A`, the entry `(i, j)` of `Aᵀ·A`.
pub open spec fn gram_sum(
    offsets: Seq<usize>,
    rows: Seq<usize>,
    values: Seq<isize>,
    i: int,
    j: int,
    k: int,
) -> int
    decreases k,
{
    if k <= 0 {
        0
    } else {
        gram_sum(offsets, rows, values, i, j, k - 1) + csc_entry(offsets, rows, values, k - 1, i)
            * csc_entry(offsets, rows, values, k - 1, j)
    }
}

/// A dense `n` by `n` matrix of machine integers (at most 8 bytes each)
/// can be allocated: its size in bytes is at most `isize::MAX`.
pub open spec fn matrix_fits(n: int) -> bool {
    n * n * 8 <= isize::MAX
}

/// Builds the CSC matrix with `nalgebra_sparse::csc::CscMatrix::try_from_csc_data`,
/// multiplies its transpose by it (`nalgebra_sparse`'s sparse product), turns
/// the product into a dense `nalgebra::DMatrix` and hands its columns back.
/// Claimed of that code: for a valid 0/1 matrix `A` with `ncols` columns, the
/// result has `ncols` columns of `ncols` entries and column `c`, row `r`
/// holds `Σ_k A[k][r] · A[k][c]`.
#[verifier::external_body]
pub(crate) fn gram_of_csc(
    nrows: usize,
    ncols: usize,
    offsets: Vec<usize>,
    rows: Vec<usize>,
    values: Vec<isize>,
) -> (res: Vec<Vec<isize>>)
    requires
        csc_valid(nrows as nat, ncols as nat, offsets@, rows@, values@),
        forall|k: int| 0 <= k < values.len() ==> #[trigger] values[k] == 1,
        nrows <= isize::MAX,
        matrix_fits(ncols as int),
    ensures
        res.len() == ncols,
        forall|c: int| 0 <= c < ncols ==> (#[trigger] res[c]).len() == ncols,
        forall|r: int, c: int|
            0 <= r < ncols && 0 <= c < ncols ==> #[trigger] res[c][r] as int == gram_sum(
                offsets@,
                rows@,
                values@,
                r,
                c,
                nrows as int,
            ),
{
    let a = nalgebra_sparse::csc::CscMatrix::try_from_csc_data(nrows, ncols, offsets, rows, values)
        .expect("valid CSC data");
    let product = a.transpose() * a;
    let dense = nalgebra::DMatrix::from(&product);
    dense.column_iter().map(|column| column.iter().cloned().collect()).collect()
}

/// Stored entries at positions `lo..hi` keep their sum when more entries are
/// appended after `hi`.
pub proof fn lemma_lane_sum_frame(
    rows: Seq<usize>,
    values: Seq<isize>,
    rows2: Seq<usize>,
    values2: Seq<isize>,
    r: int,
    lo: int,
    hi: int,
)
    requires
        0 <= lo,
        hi <= rows.len(),
        hi <= values.len(),
        rows.len() <= rows2.len(),
        values.len() <= values2.len(),
        forall|k: int| 0 <= k < rows.len() ==> rows2[k] == rows[k],
        forall|k: int| 0 <= k < values.len() ==> values2[k] == values[k],
    ensures
        lane_sum(rows2, values2, r, lo, hi) == lane_sum(rows, values, r, lo, hi),
    decreases hi - lo,
{
    if hi > lo {
        lemma_lane_sum_frame(rows, values, rows2, values2, r, lo, hi - 1);
    }
}

} // verus!
