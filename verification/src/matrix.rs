//! Dense matrices as carried by the HTTP transport: a flat element
//! buffer in row-major order plus a shape. Elements are IEEE-754 double
//! bit patterns, held as 64-bit integers so that construction and
//! indexing stay within integer arithmetic; layers that do numeric work
//! convert at the boundary.
use vstd::prelude::*;

verus! {

/// Row-major offset of position (`i`, `j`) in a grid `size` wide.
pub open spec fn row_major(i: int, j: int, size: int) -> int {
    i * size + j
}

/// Bit pattern of the double-precision value zero.
pub const F64_ZERO_BITS: u64 = 0;

/// Bit pattern of the double-precision value one.
pub const F64_ONE_BITS: u64 = 0x3FF0000000000000;

/// A dense matrix: `data` holds the elements row-major, `shape` the
/// dimensions.
#[derive(Debug, PartialEq, Eq)]
pub struct Matrix {
    /// Elements as IEEE-754 double bit patterns, row-major.
    pub data: Vec<u64>,
    /// Dimensions, outermost first.
    pub shape: Vec<usize>,
}

impl Matrix {
    /// A matrix from its raw parts.
    pub fn new(data: Vec<u64>, shape: Vec<usize>) -> (r: Matrix)
        ensures
            r.data@ == data@,
            r.shape@ == shape@,
    {
        Matrix { data, shape }
    }
}

/// The `size` by `size` identity matrix: ones on the diagonal, zeros
/// elsewhere.
pub fn create_identity_matrix(size: usize) -> (r: Matrix)
    requires
        size * size <= usize::MAX,
    ensures
        r.shape@ == seq![size, size],
        r.data@.len() == size * size,
        forall|i: int, j: int|
            0 <= i < size && 0 <= j < size ==> r.data@[#[trigger] row_major(i, j, size as int)]
                == if i == j {
                F64_ONE_BITS
            } else {
                F64_ZERO_BITS
            },
{
    let n: usize = size * size;
    let mut data: Vec<u64> = Vec::new();
    let mut t: usize = 0;
    while t < n
        invariant
            t <= n,
            data@.len() == t,
            forall|q: int| 0 <= q < t ==> data@[q] == F64_ZERO_BITS,
        decreases n - t,
    {
        data.push(F64_ZERO_BITS);
        t = t + 1;
    }
    proof {
        assert forall|a: int, b: int|
            0 <= a < size && 0 <= b < size implies 0 <= #[trigger] row_major(a, b, size as int)
            < n by {
            assert(0 <= a * (size as int) + b < n) by (nonlinear_arith)
                requires
                    0 <= a < (size as int),
                    0 <= b < (size as int),
                    n == (size as int) * (size as int),
            ;
        }
    }
    let mut i: usize = 0;
    while i < size
        invariant
            i <= size,
            size * size == n,
            data@.len() == n,
            forall|a: int, b: int|
                0 <= a < size && 0 <= b < size && (a < i || a != b) ==> data@[#[trigger] row_major(
                    a,
                    b,
                    size as int,
                )] == if a == b && a < i {
                    F64_ONE_BITS
                } else {
                    F64_ZERO_BITS
                },
        decreases size - i,
    {
        proof {
            assert(i * size + i < n) by (nonlinear_arith)
                requires
                    0 <= i < size,
                    n == size * size,
            ;
        }
        let idx: usize = i * size + i;
        data[idx] = F64_ONE_BITS;
        proof {
            assert forall|a: int, b: int|
                0 <= a < size && 0 <= b < size && (a < i + 1 || a != b) implies data@[#[trigger] row_major(
                a,
                b,
                size as int,
            )] == if a == b && a < i + 1 {
                F64_ONE_BITS
            } else {
                F64_ZERO_BITS
            } by {
                lemma_row_major_injective(a, b, i as int, i as int, size as int);
                assert(0 <= a * (size as int) + b < n) by (nonlinear_arith)
                    requires
                        0 <= a < (size as int),
                        0 <= b < (size as int),
                        n == (size as int) * (size as int),
                ;
            }
        }
        i = i + 1;
    }
    let mut shape: Vec<usize> = Vec::new();
    shape.push(size);
    shape.push(size);
    proof {
        assert(shape@ =~= seq![size, size]);
    }
    Matrix { data, shape }
}

/// Distinct positions in one square grid have distinct row-major
/// offsets.
proof fn lemma_row_major_injective(a: int, b: int, c: int, d: int, size: int)
    requires
        0 <= a < size,
        0 <= b < size,
        0 <= c < size,
        0 <= d < size,
    ensures
        a * size + b == c * size + d ==> a == c && b == d,
{
    if a * size + b == c * size + d {
        assert(a == c && b == d) by (nonlinear_arith)
            requires
                0 <= a < size,
                0 <= b < size,
                0 <= c < size,
                0 <= d < size,
                a * size + b == c * size + d,
        ;
    }
}

/// A `rows` by `cols` matrix with every element zero.
pub fn create_zeros_matrix(rows: usize, cols: usize) -> (r: Matrix)
    requires
        rows * cols <= usize::MAX,
    ensures
        r.shape@ == seq![rows, cols],
        r.data@.len() == rows * cols,
        forall|q: int| 0 <= q < rows * cols ==> r.data@[q] == F64_ZERO_BITS,
{
    create_filled_matrix(rows, cols, F64_ZERO_BITS)
}

/// A `rows` by `cols` matrix with every element one.
pub fn create_ones_matrix(rows: usize, cols: usize) -> (r: Matrix)
    requires
        rows * cols <= usize::MAX,
    ensures
        r.shape@ == seq![rows, cols],
        r.data@.len() == rows * cols,
        forall|q: int| 0 <= q < rows * cols ==> r.data@[q] == F64_ONE_BITS,
{
    create_filled_matrix(rows, cols, F64_ONE_BITS)
}

fn create_filled_matrix(rows: usize, cols: usize, bits: u64) -> (r: Matrix)
    requires
        rows * cols <= usize::MAX,
    ensures
        r.shape@ == seq![rows, cols],
        r.data@.len() == rows * cols,
        forall|q: int| 0 <= q < rows * cols ==> r.data@[q] == bits,
{
    let n: usize = rows * cols;
    let mut data: Vec<u64> = Vec::new();
    let mut t: usize = 0;
    while t < n
        invariant
            t <= n,
            data@.len() == t,
            forall|q: int| 0 <= q < t ==> data@[q] == bits,
        decreases n - t,
    {
        data.push(bits);
        t = t + 1;
    }
    let mut shape: Vec<usize> = Vec::new();
    shape.push(rows);
    shape.push(cols);
    proof {
        assert(shape@ =~= seq![rows, cols]);
    }
    Matrix { data, shape }
}

} // verus!
