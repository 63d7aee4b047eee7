//! The adjacency matrix: a rectangular array of `usize` entries,
//! stored in an `ndarray` two-dimensional array. Verus cannot declare
//! `ndarray::ArrayBase` itself (its `RawData` bound cannot be stated
//! here), so the array sits in a private field of `AdjMatrix`, whose
//! contents are named by `mat_view` and `mat_width`; every `ndarray`
//! call the library makes goes through a wrapper with a contract over
//! those names.
use vstd::prelude::*;

verus! {

/// A rectangular matrix of `usize` entries, backed by
/// `ndarray::Array2<usize>`.
#[verifier::external_body]
pub struct AdjMatrix {
    inner: ndarray::Array2<usize>,
}

/// What the matrix holds: its rows, in order, each row the sequence
/// of entries of that row.
pub uninterp spec fn mat_view(m: AdjMatrix) -> Seq<Seq<usize>>;

/// The width the matrix was made with; every row has this length,
/// also when the matrix has no rows.
pub uninterp spec fn mat_width(m: AdjMatrix) -> nat;

/// Relies on `ndarray::ArrayBase::zeros`: an array of the given shape
/// with every entry zero. `ndarray` refuses a shape whose non-zero
/// axis lengths multiply beyond `isize::MAX`; bounding each axis and
/// the product covers that rule also when one axis is zero.
#[verifier::external_body]
pub(crate) fn mat_zeros(rows: usize, cols: usize) -> (m: AdjMatrix)
    requires
        rows <= isize::MAX,
        cols <= isize::MAX,
        rows * cols <= isize::MAX,
    ensures
        mat_view(m).len() == rows,
        mat_width(m) == cols,
        forall|r: int, c: int|
            0 <= r < rows && 0 <= c < cols ==> mat_view(m)[r][c] == 0,
        forall|r: int| 0 <= r < rows ==> (#[trigger] mat_view(m)[r]).len() == cols,
{
    AdjMatrix { inner: ndarray::Array2::zeros((rows, cols)) }
}

/// Relies on `ndarray::ArrayBase::nrows`: the length of the first axis.
#[verifier::external_body]
pub(crate) fn mat_nrows(m: &AdjMatrix) -> (r: usize)
    ensures
        r == mat_view(*m).len(),
{
    m.inner.nrows()
}

/// Relies on `ndarray::ArrayBase::ncols`: the length of the second
/// axis; a two-dimensional array is rectangular, so every row has
/// that length.
#[verifier::external_body]
pub(crate) fn mat_ncols(m: &AdjMatrix) -> (c: usize)
    ensures
        c == mat_width(*m),
        forall|r: int|
            0 <= r < mat_view(*m).len() ==> (#[trigger] mat_view(*m)[r]).len() == c,
{
    m.inner.ncols()
}

/// Relies on `ndarray::ArrayBase`'s `Index` implementation: reading
/// at `[r, c]` yields the entry of row `r`, column `c`.
#[verifier::external_body]
pub(crate) fn mat_get(m: &AdjMatrix, r: usize, c: usize) -> (v: usize)
    requires
        r < mat_view(*m).len(),
        c < mat_view(*m)[r as int].len(),
    ensures
        v == mat_view(*m)[r as int][c as int],
{
    m.inner[[r, c]]
}

/// Relies on `ndarray::ArrayBase`'s `IndexMut` implementation:
/// writing at `[r, c]` replaces that entry and no other.
#[verifier::external_body]
pub(crate) fn mat_set(m: &mut AdjMatrix, r: usize, c: usize, v: usize)
    requires
        r < mat_view(*old(m)).len(),
        c < mat_view(*old(m))[r as int].len(),
    ensures
        mat_view(*final(m)) == mat_view(*old(m)).update(
            r as int,
            mat_view(*old(m))[r as int].update(c as int, v),
        ),
        mat_width(*final(m)) == mat_width(*old(m)),
{
    m.inner[[r, c]] = v;
}

impl AdjMatrix {
    /// The shape as a two-element vector: row count, then column count.
    pub fn shape(&self) -> (s: Vec<usize>)
        ensures
            s@ =~= seq![mat_view(*self).len() as usize, mat_width(*self) as usize],
    {
        let mut s: Vec<usize> = Vec::new();
        s.push(mat_nrows(self));
        s.push(mat_ncols(self));
        s
    }

    /// The number of rows.
    pub fn nrows(&self) -> (r: usize)
        ensures
            r == mat_view(*self).len(),
    {
        mat_nrows(self)
    }

    /// The number of columns: the length of every row.
    pub fn ncols(&self) -> (c: usize)
        ensures
            c == mat_width(*self),
            forall|r: int|
                0 <= r < mat_view(*self).len() ==> (#[trigger] mat_view(*self)[r]).len()
                    == c,
    {
        mat_ncols(self)
    }

    /// The entry of row `r`, column `c`.
    pub fn entry(&self, r: usize, c: usize) -> (v: usize)
        requires
            r < mat_view(*self).len(),
            c < mat_view(*self)[r as int].len(),
        ensures
            v == mat_view(*self)[r as int][c as int],
    {
        mat_get(self, r, c)
    }
}

} // verus!
