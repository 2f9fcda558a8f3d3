//! The matrix of the embeddings.
//!
//! A matrix holds one embedding in each row. Its elements are 32-bit
//! IEEE 754 numbers; the library stores and moves them as their bits and
//! leaves the arithmetic on them to its users. A matrix in memory is an
//! array of `ndarray`; a mapped matrix is a stretch of the bytes of a
//! container.

use vstd::prelude::*;
use vstd::slice::slice_subrange;

use crate::array::{
    array2_assign_row, array2_dim, array2_elements, array2_from_shape_vec, array2_row,
    array2_shape, shape_fits, Array2Bits,
};
use crate::error::Error;
use crate::io::{
    lemma_numeric_chunk_layout, numeric_chunk, numeric_layout, numeric_padding,
    read_numeric_layout, write_numeric_chunk, ChunkIdentifier,
};
use crate::le::{
    get_u32, get_u32s, get_u64, in_bounds, lemma_u32_le_roundtrip, lemma_u32s_roundtrip,
    lemma_u64_le_roundtrip, put_u32, put_u64, u32_at, u32_to_le, u32s_at, u64_at, u64_to_le,
};

verus! {

/// A matrix as plain values: its shape and its elements row by row.
pub struct MatrixView {
    pub rows: int,
    pub dims: int,
    pub data: Seq<u32>,
}

impl MatrixView {
    /// The elements of row `i`.
    pub open spec fn row(self, i: int) -> Seq<u32> {
        self.data.subrange(i * self.dims, i * self.dims + self.dims)
    }
}

/// The rows before row `i` and row `i` itself lie inside the matrix.
proof fn lemma_row_bounds(rows: int, dims: int, i: int)
    requires
        0 <= i < rows,
        0 <= dims,
    ensures
        0 <= i * dims,
        i * dims + dims <= rows * dims,
{
    assert(0 <= i * dims) by (nonlinear_arith)
        requires
            0 <= i,
            0 <= dims,
    ;
    assert(i * dims + dims <= rows * dims) by (nonlinear_arith)
        requires
            i + 1 <= rows,
            0 <= dims,
    ;
}

/// Whether a matrix of such a shape can be held in memory.
pub open spec fn holds_shape(rows: int, dims: int) -> bool {
    0 <= rows <= usize::MAX && 0 <= dims <= usize::MAX && shape_fits(rows, dims)
}

/// Whether `ndarray` makes arrays of the shape `(rows, dims)`.
pub fn fits_shape(rows: usize, dims: usize) -> (r: bool)
    ensures
        r == shape_fits(rows as int, dims as int),
{
    let wide = if rows == 0 {
        1
    } else {
        rows
    };
    let long = if dims == 0 {
        1
    } else {
        dims
    };
    match wide.checked_mul(long) {
        Some(cells) => cells <= isize::MAX as usize,
        None => false,
    }
}

/// A matrix in memory, in an array of `ndarray`. Its rows can be replaced.
#[derive(Debug, PartialEq, Eq)]
pub struct DenseStorage {
    matrix: Array2Bits,
}

impl View for DenseStorage {
    type V = MatrixView;

    closed spec fn view(&self) -> MatrixView {
        MatrixView {
            rows: array2_shape(self.matrix).0 as int,
            dims: array2_shape(self.matrix).1 as int,
            data: array2_elements(self.matrix),
        }
    }
}

impl DenseStorage {
    /// The matrix holds as many elements as its shape says, and the array
    /// can have the shape.
    pub closed spec fn wf(&self) -> bool {
        &&& self@.data.len() == self@.rows * self@.dims
        &&& holds_shape(self@.rows, self@.dims)
    }

    /// A matrix of `rows` rows of `dims` elements, which `data` holds row
    /// by row. Fails with `ShapeMismatch` when `data` does not hold
    /// `rows * dims` elements, or when no array can have the shape.
    pub fn new(rows: usize, dims: usize, data: Vec<u32>) -> (r: Result<Self, Error>)
        ensures
            match r {
                Ok(storage) => {
                    &&& storage.wf()
                    &&& data@.len() == rows * dims
                    &&& shape_fits(rows as int, dims as int)
                    &&& storage@ == (MatrixView { rows: rows as int, dims: dims as int, data: data@ })
                },
                Err(e) => e == Error::ShapeMismatch && (data@.len() != rows * dims || !shape_fits(
                    rows as int,
                    dims as int,
                )),
            },
    {
        match array2_from_shape_vec(rows, dims, data) {
            Some(matrix) => Ok(DenseStorage { matrix }),
            None => Err(Error::ShapeMismatch),
        }
    }

    /// The numbers of rows and of elements in a row.
    pub fn shape(&self) -> (r: (usize, usize))
        ensures
            r.0 == self@.rows,
            r.1 == self@.dims,
    {
        array2_dim(&self.matrix)
    }

    /// A copy of row `i`.
    pub fn row(&self, i: usize) -> (r: Vec<u32>)
        requires
            self.wf(),
            i < self@.rows,
        ensures
            r@ == self@.row(i as int),
    {
        array2_row(&self.matrix, i)
    }

    /// Replaces row `i` by `values`.
    pub fn set_row(&mut self, i: usize, values: &[u32])
        requires
            old(self).wf(),
            i < old(self)@.rows,
            values@.len() == old(self)@.dims,
        ensures
            final(self).wf(),
            final(self)@.rows == old(self)@.rows,
            final(self)@.dims == old(self)@.dims,
            final(self)@.data == old(self)@.data.subrange(0, i * old(self)@.dims) + values@ + old(
                self,
            )@.data.subrange(
                i * old(self)@.dims + old(self)@.dims,
                old(self)@.rows * old(self)@.dims,
            ),
    {
        proof {
            lemma_row_bounds(self@.rows, self@.dims, i as int);
        }
        array2_assign_row(&mut self.matrix, i, values);
    }

    /// The elements of the matrix, row by row.
    pub fn to_vec(&self) -> (r: Vec<u32>)
        requires
            self.wf(),
        ensures
            r@ == self@.data,
    {
        let (rows, dims) = self.shape();
        let mut data: Vec<u32> = Vec::new();
        let mut i: usize = 0;
        while i < rows
            invariant
                i <= rows,
                self.wf(),
                rows == self@.rows,
                dims == self@.dims,
                data@ == self@.data.subrange(0, i * dims),
            decreases rows - i,
        {
            proof {
                lemma_row_bounds(rows as int, dims as int, i as int);
                assert((i + 1) * dims == i * dims + dims) by (nonlinear_arith);
            }
            let row = self.row(i);
            let ghost before = data@;
            let mut j: usize = 0;
            while j < row.len()
                invariant
                    j <= row@.len(),
                    data@ == before + row@.subrange(0, j as int),
                decreases row@.len() - j,
            {
                data.push(row[j]);
                j += 1;
            }
            i += 1;
        }
        data
    }
}

/// A matrix in a stretch of bytes that is mapped read-only, such as a part
/// of a file: the elements stand there little-endian, row by row, and are
/// decoded when a row is asked for.
#[derive(Clone, Copy, Debug)]
pub struct MappedStorage<'a> {
    rows: usize,
    dims: usize,
    offset: usize,
    bytes: &'a [u8],
}

impl<'a> View for MappedStorage<'a> {
    type V = MatrixView;

    closed spec fn view(&self) -> MatrixView {
        MatrixView {
            rows: self.rows as int,
            dims: self.dims as int,
            data: u32s_at(self.bytes@, 0, (self.rows * self.dims) as nat),
        }
    }
}

impl<'a> MappedStorage<'a> {
    /// The stretch holds exactly the elements, and it starts on a multiple
    /// of the element size.
    pub closed spec fn wf(&self) -> bool {
        &&& self.bytes@.len() == 4 * (self.rows * self.dims)
        &&& self.offset % 4 == 0
    }

    /// Where the stretch starts in the file it is a part of.
    pub closed spec fn spec_offset(&self) -> int {
        self.offset as int
    }

    /// The bytes of the stretch.
    pub closed spec fn region(&self) -> Seq<u8> {
        self.bytes@
    }

    /// A matrix of `rows` rows of `dims` elements in `bytes`, a stretch of
    /// a file that starts at `offset`. Fails with `MmapAlignmentViolation`
    /// when `offset` is no multiple of four or `bytes` does not hold
    /// exactly `4 * rows * dims` bytes.
    pub fn new(bytes: &'a [u8], offset: usize, rows: usize, dims: usize) -> (r: Result<
        Self,
        Error,
    >)
        ensures
            match r {
                Ok(storage) => {
                    &&& offset % 4 == 0
                    &&& bytes@.len() == 4 * (rows * dims)
                    &&& storage.wf()
                    &&& storage.spec_offset() == offset
                    &&& storage.region() == bytes@
                    &&& storage@ == (MatrixView {
                        rows: rows as int,
                        dims: dims as int,
                        data: u32s_at(bytes@, 0, (rows * dims) as nat),
                    })
                },
                Err(e) => e == Error::MmapAlignmentViolation && (offset % 4 != 0 || bytes@.len()
                    != 4 * (rows * dims)),
            },
    {
        let given = bytes.len();
        if offset % 4 != 0 {
            return Err(Error::MmapAlignmentViolation);
        }
        let count = match rows.checked_mul(dims) {
            Some(count) => count,
            None => {
                return Err(Error::MmapAlignmentViolation);
            },
        };
        if given % 4 != 0 || given / 4 != count {
            return Err(Error::MmapAlignmentViolation);
        }
        Ok(MappedStorage { rows, dims, offset, bytes })
    }

    /// The numbers of rows and of elements in a row.
    pub fn shape(&self) -> (r: (usize, usize))
        ensures
            r.0 == self@.rows,
            r.1 == self@.dims,
    {
        (self.rows, self.dims)
    }

    /// Where the stretch starts in the file it is a part of.
    pub fn offset(&self) -> (r: usize)
        ensures
            r == self.spec_offset(),
    {
        self.offset
    }

    /// The number of bytes of the stretch.
    pub fn byte_len(&self) -> (r: usize)
        ensures
            r == self.region().len(),
    {
        self.bytes.len()
    }

    /// The elements of row `i`, decoded.
    pub fn row(&self, i: usize) -> (r: Vec<u32>)
        requires
            self.wf(),
            i < self@.rows,
        ensures
            r@ == self@.row(i as int),
    {
        proof {
            lemma_row_bounds(self.rows as int, self.dims as int, i as int);
        }
        assert(self.bytes@.len() == self.bytes.len());
        let first = i * self.dims;
        match get_u32s(self.bytes, 4 * first, self.dims) {
            Ok((values, _next)) => {
                values
            },
            Err(_) => {
                proof {
                    assert(false);
                }
                Vec::new()
            },
        }
    }
}

/// A matrix, in memory or mapped.
#[derive(Debug)]
pub enum StorageBackend<'a> {
    Dense(DenseStorage),
    Mapped(MappedStorage<'a>),
}

impl<'a> View for StorageBackend<'a> {
    type V = MatrixView;

    open spec fn view(&self) -> MatrixView {
        match self {
            StorageBackend::Dense(storage) => storage@,
            StorageBackend::Mapped(storage) => storage@,
        }
    }
}

impl<'a> StorageBackend<'a> {
    /// What the constructors of the variants establish.
    pub open spec fn wf(&self) -> bool {
        match self {
            StorageBackend::Dense(storage) => storage.wf(),
            StorageBackend::Mapped(storage) => storage.wf(),
        }
    }

    /// A matrix holds as many elements as its shape says.
    pub proof fn lemma_shape(&self)
        requires
            self.wf(),
        ensures
            0 <= self@.rows <= usize::MAX,
            0 <= self@.dims <= usize::MAX,
            self@.data.len() == self@.rows * self@.dims,
    {
    }

    /// The numbers of rows and of elements in a row.
    pub fn shape(&self) -> (r: (usize, usize))
        ensures
            r.0 == self@.rows,
            r.1 == self@.dims,
    {
        match self {
            StorageBackend::Dense(storage) => storage.shape(),
            StorageBackend::Mapped(storage) => storage.shape(),
        }
    }

    /// A copy of row `i`.
    pub fn row(&self, i: usize) -> (r: Vec<u32>)
        requires
            self.wf(),
            i < self@.rows,
        ensures
            r@ == self@.row(i as int),
    {
        match self {
            StorageBackend::Dense(storage) => storage.row(i),
            StorageBackend::Mapped(storage) => storage.row(i),
        }
    }

    /// Whether rows can be replaced: they can in memory, and cannot in a
    /// mapped matrix.
    pub fn is_mutable(&self) -> (r: bool)
        ensures
            r == (*self is Dense),
    {
        match self {
            StorageBackend::Dense(_) => true,
            StorageBackend::Mapped(_) => false,
        }
    }

    /// The matrix for changing it, if it is in memory: a mapped matrix
    /// cannot be changed.
    pub fn as_mutable(&mut self) -> (r: Option<&mut DenseStorage>)
        ensures
            match *old(self) {
                StorageBackend::Dense(storage) => r matches Some(dense) && *dense == storage
                    && *final(self) == StorageBackend::Dense(*final(dense)),
                StorageBackend::Mapped(_) => r is None && *final(self) == *old(self),
            },
    {
        match self {
            StorageBackend::Dense(storage) => Some(storage),
            StorageBackend::Mapped(_) => None,
        }
    }

    /// Replaces row `i` by `values`. Fails with
    /// `MutationOnReadOnlyStorage` on a mapped matrix, which stays as it
    /// is.
    pub fn set_row(&mut self, i: usize, values: &[u32]) -> (r: Result<(), Error>)
        requires
            old(self).wf(),
            i < old(self)@.rows,
            values@.len() == old(self)@.dims,
        ensures
            final(self).wf(),
            final(self)@.rows == old(self)@.rows,
            final(self)@.dims == old(self)@.dims,
            *old(self) is Mapped ==> r == Err::<(), Error>(Error::MutationOnReadOnlyStorage)
                && *final(self) == *old(self),
            *old(self) is Dense ==> r.is_ok() && *final(self) is Dense && final(self)@.data == old(
                self,
            )@.data.subrange(0, i * old(self)@.dims) + values@ + old(self)@.data.subrange(
                i * old(self)@.dims + old(self)@.dims,
                old(self)@.rows * old(self)@.dims,
            ),
    {
        match self {
            StorageBackend::Dense(storage) => {
                storage.set_row(i, values);
                Ok(())
            },
            StorageBackend::Mapped(_) => Err(Error::MutationOnReadOnlyStorage),
        }
    }
}

/// The shape of a matrix as it stands in a chunk: the number of rows in 64
/// bits, then the number of elements in a row in 32.
pub open spec fn shape_bytes(rows: int, dims: int) -> Seq<u8> {
    u64_to_le(rows as u64) + u32_to_le(dims as u32)
}

/// The chunk of the matrix `matrix` at position `start` of a container: a
/// numeric chunk whose shape is that of the matrix.
pub open spec fn storage_chunk(start: int, matrix: MatrixView) -> Seq<u8> {
    numeric_chunk(
        ChunkIdentifier::StorageDense,
        start,
        shape_bytes(matrix.rows, matrix.dims),
        matrix.data,
    )
}

/// What reading a chunk of a matrix at `pos` gives: the matrix, the
/// position of its first element and the position behind the chunk.
/// Beyond the failures of [`numeric_layout`], a chunk that ends before the
/// last element is `TruncatedData`, and a shape that no matrix in memory
/// can have is `ShapeMismatch`.
pub open spec fn parse_storage(bytes: Seq<u8>, pos: int) -> Result<(MatrixView, int, int), Error> {
    match numeric_layout(bytes, pos, ChunkIdentifier::StorageDense, 12) {
        Err(e) => Err(e),
        Ok((len, body, data)) => {
            let rows = u64_at(bytes, body) as int;
            let dims = u32_at(bytes, body + 8) as int;
            if data - body + 4 * (rows * dims) > len {
                Err(Error::TruncatedData)
            } else if !holds_shape(rows, dims) {
                Err(Error::ShapeMismatch)
            } else {
                Ok(
                    (
                        MatrixView { rows, dims, data: u32s_at(bytes, data, (rows * dims) as nat) },
                        data,
                        body + len,
                    ),
                )
            }
        },
    }
}

/// Reads the start of a chunk of a matrix at `pos`: the shape, the
/// position of the first element and the position behind the chunk.
fn read_storage_layout(bytes: &[u8], pos: usize) -> (r: Result<(usize, usize, usize, usize), Error>)
    ensures
        match r {
            Ok((rows, dims, data, next)) => {
                &&& parse_storage(bytes@, pos as int) == Ok::<(MatrixView, int, int), Error>(
                    (
                        MatrixView {
                            rows: rows as int,
                            dims: dims as int,
                            data: u32s_at(bytes@, data as int, (rows * dims) as nat),
                        },
                        data as int,
                        next as int,
                    ),
                )
                &&& rows * dims <= usize::MAX
                &&& data + 4 * (rows * dims) <= next <= bytes@.len()
                &&& data % 4 == 0
            },
            Err(e) => parse_storage(bytes@, pos as int) == Err::<(MatrixView, int, int), Error>(e),
        },
{
    assert(bytes@.len() == bytes.len());
    let (len, body, data) = read_numeric_layout(bytes, pos, ChunkIdentifier::StorageDense, 12)?;
    let (rows, at_dims) = match get_u64(bytes, body) {
        Ok(found) => found,
        Err(e) => {
            return Err(e);
        },
    };
    let (dims, _at_type) = match get_u32(bytes, at_dims) {
        Ok(found) => found,
        Err(e) => {
            return Err(e);
        },
    };
    let room = (len - (data - body)) as u64;
    let count = match rows.checked_mul(dims as u64) {
        Some(count) => count,
        None => {
            return Err(Error::TruncatedData);
        },
    };
    if count > room / 4 {
        return Err(Error::TruncatedData);
    }
    if rows > usize::MAX as u64 || dims as u64 > usize::MAX as u64 {
        return Err(Error::ShapeMismatch);
    }
    let wide = if rows == 0 {
        1
    } else {
        rows
    };
    let long = if dims == 0 {
        1
    } else {
        dims as u64
    };
    match wide.checked_mul(long) {
        Some(cells) => {
            if cells > isize::MAX as u64 {
                return Err(Error::ShapeMismatch);
            }
        },
        None => {
            return Err(Error::ShapeMismatch);
        },
    }
    Ok((rows as usize, dims as usize, data, body + len))
}

impl DenseStorage {
    /// Reads the chunk of a matrix at `pos` into memory, and hands the
    /// matrix back with the position behind the chunk.
    pub fn read_chunk(bytes: &[u8], pos: usize) -> (r: Result<(DenseStorage, usize), Error>)
        ensures
            match r {
                Ok((storage, next)) => storage.wf() && (parse_storage(bytes@, pos as int)
                    matches Ok((matrix, _, end)) && matrix == storage@ && end == next),
                Err(e) => parse_storage(bytes@, pos as int) == Err::<(MatrixView, int, int), Error>(
                    e,
                ),
            },
    {
        let (rows, dims, data, next) = read_storage_layout(bytes, pos)?;
        let values = match get_u32s(bytes, data, rows * dims) {
            Ok((values, _end)) => values,
            Err(e) => {
                proof {
                    assert(false);
                }
                return Err(e);
            },
        };
        match DenseStorage::new(rows, dims, values) {
            Ok(storage) => Ok((storage, next)),
            Err(e) => {
                proof {
                    assert(false);
                }
                Err(e)
            },
        }
    }
}

impl<'a> MappedStorage<'a> {
    /// Reads the chunk of a matrix at `pos` without copying its elements:
    /// the matrix that is handed back, with the position behind the chunk,
    /// is the stretch of `bytes` that holds them.
    pub fn read_chunk(bytes: &'a [u8], pos: usize) -> (r: Result<(MappedStorage<'a>, usize), Error>)
        ensures
            match r {
                Ok((storage, next)) => storage.wf() && (parse_storage(bytes@, pos as int)
                    matches Ok((matrix, data, end)) && matrix == storage@ && end == next
                    && storage.spec_offset() == data && storage.region() == bytes@.subrange(
                    data,
                    data + 4 * (matrix.rows * matrix.dims),
                )),
                Err(e) => parse_storage(bytes@, pos as int) == Err::<(MatrixView, int, int), Error>(
                    e,
                ),
            },
    {
        let (rows, dims, data, next) = read_storage_layout(bytes, pos)?;
        let region = slice_subrange(bytes, data, data + 4 * (rows * dims));
        proof {
            let count = (rows * dims) as nat;
            assert forall|i: int| 0 <= i < count implies #[trigger] u32s_at(region@, 0, count)[i]
                == u32s_at(bytes@, data as int, count)[i] by {
                assert(region@.subrange(4 * i, 4 * i + 4) =~= bytes@.subrange(
                    data + 4 * i,
                    data + 4 * i + 4,
                ));
            }
            assert(u32s_at(region@, 0, count) =~= u32s_at(bytes@, data as int, count));
        }
        Ok((MappedStorage { rows, dims, offset: data, bytes: region }, next))
    }
}

impl<'a> StorageBackend<'a> {
    /// Appends the chunk of this matrix to `buf`, which holds the
    /// container from its first byte. A matrix in memory and a mapped one
    /// give the same chunk.
    pub fn write_chunk(&self, buf: &mut Vec<u8>)
        requires
            self.wf(),
            self@.dims <= u32::MAX,
            4 * (self@.rows * self@.dims) + 32 <= u64::MAX,
            shape_fits(self@.rows, self@.dims),
        ensures
            final(buf)@ == old(buf)@ + storage_chunk(old(buf)@.len() as int, self@),
            parse_storage(final(buf)@, old(buf)@.len() as int) matches Ok((matrix, _, next))
                && matrix == self@ && next == final(buf)@.len(),
    {
        let (rows, dims) = self.shape();
        let mut shape: Vec<u8> = Vec::new();
        put_u64(&mut shape, rows as u64);
        put_u32(&mut shape, dims as u32);
        proof {
            lemma_u64_le_roundtrip(rows as u64);
            lemma_u32_le_roundtrip(dims as u32);
        }
        match self {
            StorageBackend::Dense(storage) => {
                let values = storage.to_vec();
                write_numeric_chunk(
                    buf,
                    ChunkIdentifier::StorageDense,
                    shape.as_slice(),
                    values.as_slice(),
                );
            },
            StorageBackend::Mapped(storage) => {
                assert(storage.bytes@.len() == storage.bytes.len());
                match get_u32s(storage.bytes, 0, rows * dims) {
                    Ok((values, _end)) => {
                        write_numeric_chunk(
                            buf,
                            ChunkIdentifier::StorageDense,
                            shape.as_slice(),
                            values.as_slice(),
                        );
                    },
                    Err(_) => {
                        proof {
                            assert(false);
                        }
                    },
                }
            },
        }
        proof {
            let start = old(buf)@.len() as int;
            assert(buf@.subrange(start, buf@.len() as int) =~= storage_chunk(start, self@));
            lemma_storage_roundtrip(buf@, start, self@);
        }
    }
}

proof fn lemma_shape_at(bytes: Seq<u8>, at: int, rows: int, dims: int)
    requires
        0 <= rows <= u64::MAX,
        0 <= dims <= u32::MAX,
        in_bounds(bytes, at, 12),
        bytes.subrange(at, at + 12) == shape_bytes(rows, dims),
    ensures
        u64_at(bytes, at) == rows,
        u32_at(bytes, at + 8) == dims,
{
    let shape = shape_bytes(rows, dims);
    lemma_u64_le_roundtrip(rows as u64);
    lemma_u32_le_roundtrip(dims as u32);
    assert(bytes.subrange(at, at + 8) =~= shape.subrange(0, 8));
    assert(bytes.subrange(at + 8, at + 12) =~= shape.subrange(8, 12));
    assert(shape.subrange(0, 8) =~= u64_to_le(rows as u64));
    assert(shape.subrange(8, 12) =~= u32_to_le(dims as u32));
}

/// A matrix that was written is read back unchanged: wherever a container
/// holds the chunk of `matrix` at the position `start` it was written for,
/// reading at `start` gives `matrix` and the position behind the chunk.
/// The length that the chunk declares is the number of its bytes behind
/// the length field, padding included.
pub proof fn lemma_storage_roundtrip(bytes: Seq<u8>, start: int, matrix: MatrixView)
    requires
        0 <= start,
        holds_shape(matrix.rows, matrix.dims),
        matrix.dims <= u32::MAX,
        matrix.data.len() == matrix.rows * matrix.dims,
        4 * matrix.data.len() + 32 <= u64::MAX,
        in_bounds(bytes, start, storage_chunk(start, matrix).len() as int),
        bytes.subrange(start, start + storage_chunk(start, matrix).len()) == storage_chunk(
            start,
            matrix,
        ),
    ensures
        parse_storage(bytes, start) == Ok::<(MatrixView, int, int), Error>(
            (
                matrix,
                start + 28 + numeric_padding(start, 12),
                start + storage_chunk(start, matrix).len(),
            ),
        ),
        u64_at(storage_chunk(start, matrix), 4) == storage_chunk(start, matrix).len() - 12,
{
    let shape = shape_bytes(matrix.rows, matrix.dims);
    let data = start + 28 + numeric_padding(start, 12);
    assert(shape.len() == 12) by {
        lemma_u64_le_roundtrip(matrix.rows as u64);
        lemma_u32_le_roundtrip(matrix.dims as u32);
    }
    lemma_numeric_chunk_layout(bytes, start, ChunkIdentifier::StorageDense, shape, matrix.data);
    crate::io::lemma_numeric_chunk_len(ChunkIdentifier::StorageDense, start, shape, matrix.data);
    lemma_shape_at(bytes, start + 12, matrix.rows, matrix.dims);
    lemma_u32s_roundtrip(bytes, data, matrix.data);
}

} // verus!
