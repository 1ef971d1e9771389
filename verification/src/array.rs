//! The two-dimensional table of residues behind a polynomial: one row per
//! modulus, one column per coefficient, held in an `ndarray` array.
use vstd::prelude::*;

verus! {

/// A table of words with a fixed number of rows and columns: an
/// `ndarray::Array2<u64>` in standard layout, of which the verifier knows what
/// `array_rows` and `array_cols` say.
#[verifier::external_body]
#[derive(Debug, PartialEq, Eq)]
pub struct ResidueArray {
    inner: ndarray::Array2<u64>,
}

/// The rows of the table, first row first.
pub uninterp spec fn array_rows(a: ResidueArray) -> Seq<Seq<u64>>;

/// The number of columns of the table, which every row has.
pub uninterp spec fn array_cols(a: ResidueArray) -> nat;

/// The table has `rows` rows of `cols` entries each.
pub open spec fn has_shape(a: ResidueArray, rows: nat, cols: nat) -> bool {
    &&& array_cols(a) == cols
    &&& array_rows(a).len() == rows
    &&& forall|i: int| 0 <= i < rows ==> (#[trigger] array_rows(a)[i]).len() == cols
}

/// The table of `rows` by `cols` zeros.
pub open spec fn zero_rows(rows: nat, cols: nat) -> Seq<Seq<u64>> {
    Seq::new(rows, |i: int| Seq::new(cols, |j: int| 0u64))
}

/// The rows that a flat sequence holds when it is read row after row.
pub open spec fn rows_of_flat(v: Seq<u64>, rows: nat, cols: nat) -> Seq<Seq<u64>> {
    Seq::new(rows, |i: int| v.subrange(i * cols, i * cols + cols))
}

/// `ndarray::Array2::zeros`: a table of the given shape that holds zeros only.
/// The outside function panics when the product of the lengths that are not
/// zero exceeds `isize::MAX`, which the precondition leaves out.
#[verifier::external_body]
pub(crate) fn array_zeros(rows: usize, cols: usize) -> (r: ResidueArray)
    requires
        rows <= isize::MAX,
        cols <= isize::MAX,
        rows * cols <= isize::MAX,
    ensures
        has_shape(r, rows as nat, cols as nat),
        array_rows(r) == zero_rows(rows as nat, cols as nat),
{
    ResidueArray { inner: ndarray::Array2::zeros((rows, cols)) }
}

/// `ndarray::Array2::from_shape_vec`: the table whose rows are the consecutive
/// runs of `cols` entries of `v`; it exists exactly when `v` holds `rows * cols`
/// entries. The outside function also refuses a shape in which the product of
/// the lengths that are not zero exceeds `isize::MAX`: with both lengths within
/// `isize::MAX`, as the precondition asks, no vector has so many entries.
#[verifier::external_body]
pub(crate) fn array_from_flat(rows: usize, cols: usize, v: Vec<u64>) -> (r: Option<ResidueArray>)
    requires
        rows <= isize::MAX,
        cols <= isize::MAX,
    ensures
        r is Some <==> v@.len() == rows * cols,
        r is Some ==> has_shape(r->Some_0, rows as nat, cols as nat) && array_rows(r->Some_0)
            == rows_of_flat(v@, rows as nat, cols as nat),
{
    match ndarray::Array2::from_shape_vec((rows, cols), v) {
        Ok(inner) => Some(ResidueArray { inner }),
        Err(_) => None,
    }
}

/// `ndarray::ArrayBase::dim`: the numbers of rows and of columns; every row of
/// a two-dimensional array has as many entries as there are columns.
#[verifier::external_body]
pub(crate) fn array_dim(a: &ResidueArray) -> (r: (usize, usize))
    ensures
        has_shape(*a, r.0 as nat, r.1 as nat),
{
    a.inner.dim()
}

/// `ndarray::ArrayBase::row`: row `i` as a slice. A row of a table in standard
/// layout, the only layout built here, is contiguous.
#[verifier::external_body]
pub(crate) fn array_row(a: &ResidueArray, i: usize) -> (row: &[u64])
    requires
        i < array_rows(*a).len(),
    ensures
        row@ == array_rows(*a)[i as int],
{
    a.inner.row(i).to_slice().unwrap()
}

/// `ndarray::ArrayBase::row_mut`: row `i` as a mutable slice; what is written
/// through it becomes row `i`, and nothing else changes.
#[verifier::external_body]
pub(crate) fn array_row_mut(a: &mut ResidueArray, i: usize) -> (row: &mut [u64])
    requires
        i < array_rows(*old(a)).len(),
    ensures
        row@ == array_rows(*old(a))[i as int],
        array_rows(*final(a)) == array_rows(*old(a)).update(i as int, final(row)@),
        array_cols(*final(a)) == array_cols(*old(a)),
{
    a.inner.row_mut(i).into_slice().unwrap()
}

/// `Clone::clone` of `ndarray::Array2`: a table with the same rows.
#[verifier::external_body]
pub(crate) fn array_clone(a: &ResidueArray) -> (r: ResidueArray)
    ensures
        array_rows(r) == array_rows(*a),
        array_cols(r) == array_cols(*a),
{
    ResidueArray { inner: a.inner.clone() }
}

/// The entries of a table read row after row.
pub open spec fn flat_of_rows(rows: Seq<Seq<u64>>, cols: nat) -> Seq<u64> {
    Seq::new(rows.len() * cols, |k: int| rows[k / (cols as int)][k % (cols as int)])
}

impl ResidueArray {
    /// The table whose rows are the consecutive runs of `cols` entries of `v`,
    /// where `v` holds `rows * cols` entries and neither length exceeds
    /// `isize::MAX`.
    pub fn from_shape_vec(rows: usize, cols: usize, v: Vec<u64>) -> (r: Option<ResidueArray>)
        ensures
            r is Some <==> v@.len() == rows * cols && rows <= isize::MAX && cols <= isize::MAX,
            r is Some ==> has_shape(r->Some_0, rows as nat, cols as nat) && array_rows(r->Some_0)
                == rows_of_flat(v@, rows as nat, cols as nat),
    {
        if rows > isize::MAX as usize || cols > isize::MAX as usize {
            None
        } else {
            array_from_flat(rows, cols, v)
        }
    }

    /// The numbers of rows and of columns.
    pub fn dim(&self) -> (r: (usize, usize))
        ensures
            has_shape(*self, r.0 as nat, r.1 as nat),
    {
        array_dim(self)
    }

    /// Row `i` of the table.
    pub fn row(&self, i: usize) -> (r: &[u64])
        requires
            i < array_rows(*self).len(),
        ensures
            r@ == array_rows(*self)[i as int],
    {
        array_row(self, i)
    }

    /// The entries of the table, row after row.
    pub fn to_flat(&self) -> (r: Vec<u64>)
        ensures
            r@ == flat_of_rows(array_rows(*self), array_cols(*self)),
    {
        let (m, n) = array_dim(self);
        let ghost rows = array_rows(*self);
        let mut out: Vec<u64> = Vec::new();
        let mut i: usize = 0;
        while i < m
            invariant
                0 <= i <= m,
                rows == array_rows(*self),
                has_shape(*self, m as nat, n as nat),
                out@.len() == i * n,
                forall|k: int|
                    0 <= k < i * n ==> (#[trigger] out@[k]) == rows[k / (n as int)][k % (n as int)],
            decreases m - i,
        {
            let row: &[u64] = array_row(self, i);
            let ghost before = out@;
            out.extend_from_slice(row);
            proof {
                assert(i * n + n == (i + 1) * n) by (nonlinear_arith);
                assert forall|k: int| 0 <= k < (i + 1) * n implies (#[trigger] out@[k]) == rows[k / (
                n as int)][k % (n as int)] by {
                    if k >= i * n {
                        let j = k - i * n;
                        vstd::arithmetic::div_mod::lemma_fundamental_div_mod_converse(
                            k,
                            n as int,
                            i as int,
                            j,
                        );
                        assert(out@[k] == row@[j]);
                    } else {
                        assert(out@[k] == before[k]);
                    }
                }
            }
            i += 1;
        }
        assert(out@ =~= flat_of_rows(rows, n as nat));
        out
    }
}

} // verus!
