//! Arrays of the `ndarray` crate that hold 32-bit floating-point numbers
//! as their bits.
//!
//! The library keeps its vectors and matrices in `ndarray` arrays, as their
//! users do. It never computes with the numbers, so the arrays here hold
//! the bits of each number; users turn them into numbers and back without
//! loss.

use vstd::prelude::*;

verus! {

/// A vector in an `ndarray::Array1`.
#[verifier::external_body]
#[derive(Debug, PartialEq, Eq)]
pub struct Array1Bits {
    inner: ndarray::Array1<u32>,
}

/// The elements of a vector, in their order.
pub uninterp spec fn array1_elements(array: Array1Bits) -> Seq<u32>;

impl View for Array1Bits {
    type V = Seq<u32>;

    open spec fn view(&self) -> Seq<u32> {
        array1_elements(*self)
    }
}

/// `ndarray::Array1::from_vec`: the vector of the elements of `values`, in
/// their order. The crate documents a panic for more than `isize::MAX`
/// elements.
#[verifier::external_body]
pub(crate) fn array1_from_vec(values: Vec<u32>) -> (r: Array1Bits)
    requires
        values@.len() <= isize::MAX,
    ensures
        array1_elements(r) == values@,
{
    Array1Bits { inner: ndarray::Array1::from_vec(values) }
}

/// `ndarray::ArrayBase::len` of a vector: the number of its elements.
#[verifier::external_body]
pub(crate) fn array1_len(array: &Array1Bits) -> (r: usize)
    ensures
        r == array1_elements(*array).len(),
{
    array.inner.len()
}

/// `ndarray::ArrayBase::to_vec` of a vector: its elements, in their order.
#[verifier::external_body]
pub(crate) fn array1_to_vec(array: &Array1Bits) -> (r: Vec<u32>)
    ensures
        r@ == array1_elements(*array),
{
    array.inner.to_vec()
}

/// A matrix in an `ndarray::Array2`.
#[verifier::external_body]
#[derive(Debug, PartialEq, Eq)]
pub struct Array2Bits {
    inner: ndarray::Array2<u32>,
}

/// The elements of a matrix, row by row.
pub uninterp spec fn array2_elements(array: Array2Bits) -> Seq<u32>;

/// The numbers of rows and of columns that a matrix was made with.
pub uninterp spec fn array2_shape(array: Array2Bits) -> (nat, nat);

/// Whether `ndarray` makes arrays of a shape: the product of those of its
/// lengths that are not zero is at most `isize::MAX`.
pub open spec fn shape_fits(rows: int, dims: int) -> bool {
    (if rows == 0 {
        1
    } else {
        rows
    }) * (if dims == 0 {
        1
    } else {
        dims
    }) <= isize::MAX
}

/// `ndarray::Array2::from_shape_vec` with the shape `(rows, dims)`: the
/// matrix of that shape whose elements are those of `data`, row by row.
/// The crate refuses a shape that does not correspond to the number of
/// elements, and one that would overflow `isize`.
#[verifier::external_body]
pub(crate) fn array2_from_shape_vec(
    rows: usize,
    dims: usize,
    data: Vec<u32>,
) -> (r: Option<Array2Bits>)
    ensures
        r.is_some() == (data@.len() == rows * dims && shape_fits(rows as int, dims as int)),
        r.is_some() ==> array2_shape(r.unwrap()) == (rows as nat, dims as nat),
        r.is_some() ==> array2_elements(r.unwrap()) == data@,
{
    match ndarray::Array2::from_shape_vec((rows, dims), data) {
        Ok(inner) => Some(Array2Bits { inner }),
        Err(_) => None,
    }
}

/// `ndarray::ArrayBase::dim` of a matrix: the numbers of its rows and
/// columns.
#[verifier::external_body]
pub(crate) fn array2_dim(array: &Array2Bits) -> (r: (usize, usize))
    ensures
        array2_shape(*array) == (r.0 as nat, r.1 as nat),
{
    array.inner.dim()
}

/// `ndarray::ArrayBase::row`, handed out by `to_vec`: the elements of row
/// `i`. The crate panics for a row that the matrix does not have.
#[verifier::external_body]
pub(crate) fn array2_row(array: &Array2Bits, i: usize) -> (r: Vec<u32>)
    requires
        i < array2_shape(*array).0,
    ensures
        r@ == array2_elements(*array).subrange(
            i * array2_shape(*array).1,
            i * array2_shape(*array).1 + array2_shape(*array).1,
        ),
{
    array.inner.row(i).to_vec()
}

/// `ndarray::ArrayBase::row_mut`, filled by `assign` from a view of
/// `values`: row `i` becomes `values`, and nothing else changes. The crate
/// panics for a row that the matrix does not have, and broadcasts or
/// panics for values that are not as many as the columns.
#[verifier::external_body]
pub(crate) fn array2_assign_row(array: &mut Array2Bits, i: usize, values: &[u32])
    requires
        i < array2_shape(*old(array)).0,
        values@.len() == array2_shape(*old(array)).1,
        values@.len() <= isize::MAX,
    ensures
        array2_shape(*final(array)) == array2_shape(*old(array)),
        array2_elements(*final(array)) == array2_elements(*old(array)).subrange(
            0,
            i * array2_shape(*old(array)).1,
        ) + values@ + array2_elements(*old(array)).subrange(
            i * array2_shape(*old(array)).1 + array2_shape(*old(array)).1,
            array2_elements(*old(array)).len() as int,
        ),
{
    array.inner.row_mut(i).assign(&ndarray::ArrayView1::from(values));
}

} // verus!
