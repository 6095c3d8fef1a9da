//! A dense tensor: a flat buffer in row-major order and the sizes of its
//! dimensions.

use crate::scalar::{is_abs, is_difference, is_le, is_zero, Scalar};
use vstd::prelude::*;

verus! {

/// Why a tensor could not be built.
#[derive(Clone, Copy, Debug, PartialEq, Eq)]
pub enum TensorError {
    /// The buffer does not hold as many elements as the shape asks for.
    ShapeMismatch,
}

/// The number of elements of a tensor with dimensions `dims`.
pub open spec fn shape_product(dims: Seq<usize>) -> nat
    decreases dims.len(),
{
    if dims.len() == 0 {
        1
    } else {
        shape_product(dims.drop_last()) * (dims.last() as nat)
    }
}

/// A shape with an empty dimension holds no element.
pub proof fn lemma_product_with_zero(dims: Seq<usize>, k: int)
    requires
        0 <= k < dims.len(),
        dims[k] == 0,
    ensures
        shape_product(dims) == 0,
    decreases dims.len(),
{
    if k < dims.len() - 1 {
        lemma_product_with_zero(dims.drop_last(), k);
        assert(shape_product(dims.drop_last()) * (dims.last() as nat) == 0) by (nonlinear_arith)
            requires
                shape_product(dims.drop_last()) == 0,
        ;
    } else {
        assert(shape_product(dims.drop_last()) * (dims.last() as nat) == 0) by (nonlinear_arith)
            requires
                dims.last() == 0,
        ;
    }
}

/// A shape that holds an element has no empty dimension.
pub proof fn lemma_nonempty_dims(dims: Seq<usize>)
    requires
        shape_product(dims) > 0,
    ensures
        forall|k: int| 0 <= k < dims.len() ==> dims[k] >= 1,
{
    assert forall|k: int| 0 <= k < dims.len() implies dims[k] >= 1 by {
        if dims[k] == 0 {
            lemma_product_with_zero(dims, k);
        }
    }
}

/// Without an empty dimension, the leading dimensions never hold more
/// elements than the whole shape.
pub proof fn lemma_product_of_prefix(dims: Seq<usize>, n: int)
    requires
        0 <= n <= dims.len(),
        forall|k: int| 0 <= k < dims.len() ==> dims[k] >= 1,
    ensures
        1 <= shape_product(dims.take(n)) <= shape_product(dims),
    decreases dims.len() - n,
{
    if n == dims.len() {
        assert(dims.take(n) =~= dims);
        lemma_product_positive(dims);
    } else {
        lemma_product_of_prefix(dims, n + 1);
        let longer = dims.take(n + 1);
        assert(longer.drop_last() =~= dims.take(n));
        assert(longer.last() == dims[n]);
        lemma_product_positive(dims.take(n));
        assert(shape_product(dims.take(n)) <= shape_product(dims.take(n)) * (dims[n] as nat))
            by (nonlinear_arith)
            requires
                dims[n] >= 1,
        ;
    }
}

proof fn lemma_product_positive(dims: Seq<usize>)
    requires
        forall|k: int| 0 <= k < dims.len() ==> dims[k] >= 1,
    ensures
        shape_product(dims) >= 1,
    decreases dims.len(),
{
    if dims.len() > 0 {
        lemma_product_positive(dims.drop_last());
        assert(shape_product(dims.drop_last()) * (dims.last() as nat) >= 1) by (nonlinear_arith)
            requires
                shape_product(dims.drop_last()) >= 1,
                dims.last() >= 1,
        ;
    }
}

/// The element count of `shape`, or `None` when it does not fit a `usize`.
pub fn checked_shape_product(shape: &Vec<usize>) -> (r: Option<usize>)
    ensures
        match r {
            Some(p) => p == shape_product(shape@),
            None => shape_product(shape@) > usize::MAX,
        },
{
    let n = shape.len();
    let mut k: usize = 0;
    while k < n
        invariant
            k <= n,
            n == shape.len(),
            forall|j: int| 0 <= j < k ==> shape[j] >= 1,
        decreases n - k,
    {
        if shape[k] == 0 {
            proof {
                lemma_product_with_zero(shape@, k as int);
            }
            return Some(0);
        }
        k += 1;
    }
    let mut p: usize = 1;
    let mut i: usize = 0;
    while i < n
        invariant
            i <= n,
            n == shape.len(),
            forall|j: int| 0 <= j < n ==> shape[j] >= 1,
            p == shape_product(shape@.take(i as int)),
        decreases n - i,
    {
        proof {
            let longer = shape@.take(i + 1);
            assert(longer.drop_last() =~= shape@.take(i as int));
            assert(longer.last() == shape[i as int]);
            lemma_product_of_prefix(shape@, i + 1);
        }
        match p.checked_mul(shape[i]) {
            Some(q) => {
                p = q;
            },
            None => {
                return None;
            },
        }
        i += 1;
    }
    proof {
        assert(shape@.take(n as int) =~= shape@);
    }
    Some(p)
}

/// A vector holds as many elements as its one dimension says.
pub proof fn lemma_product_of_vector(dims: Seq<usize>)
    requires
        dims.len() == 1,
    ensures
        shape_product(dims) == dims[0],
{
    reveal_with_fuel(shape_product, 2);
    assert(shape_product(dims.drop_last()) == 1);
    assert(1 * (dims[0] as nat) == dims[0]) by (nonlinear_arith);
}

/// A matrix holds rows times columns elements.
pub proof fn lemma_product_of_matrix(dims: Seq<usize>)
    requires
        dims.len() == 2,
    ensures
        shape_product(dims) == dims[0] * dims[1],
{
    reveal_with_fuel(shape_product, 3);
    assert(dims.drop_last().last() == dims[0]);
    assert(shape_product(dims.drop_last().drop_last()) == 1);
    assert(1 * (dims[0] as nat) * (dims[1] as nat) == dims[0] * dims[1]) by (nonlinear_arith);
}

/// A tensor of three dimensions holds the product of the three.
pub proof fn lemma_product_of_cube(dims: Seq<usize>)
    requires
        dims.len() == 3,
    ensures
        shape_product(dims) == (dims[0] * dims[1]) * dims[2],
{
    lemma_product_of_matrix(dims.drop_last());
}

/// A tensor of two or more dimensions is a batch of matrices: it holds
/// the product of the leading dimensions times rows times columns.
pub proof fn lemma_product_of_batches(dims: Seq<usize>)
    requires
        dims.len() >= 2,
    ensures
        shape_product(dims) == (shape_product(dims.take(dims.len() - 2)) * dims[dims.len() - 2])
            * dims[dims.len() - 1],
{
    reveal_with_fuel(shape_product, 3);
    assert(dims.drop_last().drop_last() =~= dims.take(dims.len() - 2));
    assert(dims.drop_last().last() == dims[dims.len() - 2]);
}

/// Row `r` of a buffer that is laid out in rows of `cols` elements.
pub open spec fn row_of<T>(buffer: Seq<T>, cols: int, r: int) -> Seq<T> {
    buffer.subrange(r * cols, (r + 1) * cols)
}

/// Where row `r` starts and ends, and that it lies inside a buffer that
/// holds more than `r` rows.
pub proof fn lemma_row_bounds(len: int, cols: int, r: int)
    requires
        cols > 0,
        0 <= r < len / cols,
    ensures
        0 <= r * cols,
        (r + 1) * cols == r * cols + cols,
        (r + 1) * cols <= len,
{
    assert((r + 1) * cols == r * cols + cols) by (nonlinear_arith);
    assert(0 <= r * cols) by (nonlinear_arith)
        requires
            cols > 0,
            0 <= r,
    ;
    assert((r + 1) * cols <= len) by (nonlinear_arith)
        requires
            cols > 0,
            0 <= r < len / cols,
    {
        assert((len / cols) * cols <= len);
        assert((r + 1) * cols <= (len / cols) * cols);
    }
}

/// Row `j` of block `i` of a buffer whose blocks hold `block` rows of
/// `cols` elements each.
pub open spec fn block_row<T>(buffer: Seq<T>, cols: int, block: int, i: int, j: int) -> Seq<T> {
    row_of(buffer, cols, i * block + j)
}

/// `y` is the matrix `x` of `rows` by `cols` elements, transposed: row
/// `c` of `y` is column `c` of `x`.
pub open spec fn is_transposed<T>(x: Seq<T>, rows: int, cols: int, y: Seq<T>) -> bool {
    &&& y.len() == x.len()
    &&& forall|c: int, r: int|
        0 <= c < cols && 0 <= r < rows ==> #[trigger] row_of(y, rows, c)[r] == row_of(x, cols, r)[c]
}

/// `y` is `x`, of dimensions `[a, b, c]`, with the first two dimensions
/// exchanged: row `i` of block `j` of `y` is row `j` of block `i` of `x`.
pub open spec fn is_swapped<T>(x: Seq<T>, a: int, b: int, c: int, y: Seq<T>) -> bool {
    &&& y.len() == x.len()
    &&& forall|j: int, i: int|
        0 <= j < b && 0 <= i < a ==> #[trigger] block_row(y, c, a, j, i) == block_row(x, c, b, i, j)
}

/// Row `j` of block `i` is one of the rows of `blocks` blocks.
pub proof fn lemma_block_index(blocks: int, block: int, i: int, j: int)
    requires
        0 <= i < blocks,
        0 <= j < block,
    ensures
        0 <= i * block + j < blocks * block,
        i * block + j + 1 <= blocks * block,
{
    assert(0 <= i * block && i * block + block <= blocks * block) by (nonlinear_arith)
        requires
            0 <= i < blocks,
            0 <= block,
    ;
}

/// A buffer of whole rows: how long it is after one more row, and where
/// row `r` lies.
pub proof fn lemma_row_span(rows: int, cols: int, r: int)
    requires
        0 <= r < rows,
        0 <= cols,
    ensures
        0 <= r * cols,
        (r + 1) * cols == r * cols + cols,
        (r + 1) * cols <= rows * cols,
{
    assert(0 <= r * cols && (r + 1) * cols == r * cols + cols && (r + 1) * cols <= rows * cols)
        by (nonlinear_arith)
        requires
            0 <= r < rows,
            0 <= cols,
    ;
}

/// Appending a row to a buffer of `rows` whole rows makes it row `rows`
/// and leaves the earlier rows as they were.
pub proof fn lemma_row_appended<T>(buffer: Seq<T>, row: Seq<T>, cols: int, rows: int)
    requires
        0 <= rows,
        0 <= cols,
        buffer.len() == rows * cols,
        row.len() == cols,
    ensures
        (buffer + row).len() == (rows + 1) * cols,
        row_of(buffer + row, cols, rows) == row,
        forall|q: int|
            0 <= q < rows ==> #[trigger] row_of(buffer + row, cols, q) == row_of(buffer, cols, q),
{
    assert((rows + 1) * cols == rows * cols + cols) by (nonlinear_arith);
    assert(row_of(buffer + row, cols, rows) =~= row);
    assert forall|q: int| 0 <= q < rows implies #[trigger] row_of(buffer + row, cols, q)
        == row_of(buffer, cols, q) by {
        lemma_row_span(rows, cols, q);
        assert(row_of(buffer + row, cols, q) =~= row_of(buffer, cols, q));
    }
}

/// Writing one row leaves every other row as it was.
pub proof fn lemma_row_written<T>(before: Seq<T>, after: Seq<T>, cols: int, r: int, row: Seq<T>)
    requires
        cols > 0,
        0 <= r < (before.len() as int) / cols,
        after.len() == before.len(),
        row.len() == cols,
        forall|i: int| r * cols <= i < r * cols + cols ==> after[i] == row[i - r * cols],
        forall|i: int|
            0 <= i < before.len() && !(r * cols <= i < r * cols + cols) ==> after[i] == before[i],
    ensures
        row_of(after, cols, r) == row,
        forall|q: int|
            0 <= q < (before.len() as int) / cols && q != r ==> #[trigger] row_of(after, cols, q) == row_of(
                before,
                cols,
                q,
            ),
{
    lemma_row_bounds(before.len() as int, cols, r);
    assert(row_of(after, cols, r) =~= row);
    assert forall|q: int| 0 <= q < (before.len() as int) / cols && q != r implies #[trigger] row_of(
        after,
        cols,
        q,
    ) == row_of(before, cols, q) by {
        lemma_row_bounds(before.len() as int, cols, q);
        if q < r {
            assert((q + 1) * cols <= r * cols) by (nonlinear_arith)
                requires
                    q < r,
                    cols > 0,
            ;
        } else {
            assert(q * cols >= (r + 1) * cols) by (nonlinear_arith)
                requires
                    q > r,
                    cols > 0,
            ;
        }
        assert(row_of(after, cols, q) =~= row_of(before, cols, q));
    }
}

/// A buffer of elements together with the sizes of its dimensions. The
/// last dimension varies fastest.
pub struct Tensor<T> {
    data: Vec<T>,
    shape: Vec<usize>,
}

impl<T> Tensor<T> {
    /// The elements, in row-major order.
    pub closed spec fn view(&self) -> Seq<T> {
        self.data@
    }

    /// The sizes of the dimensions, outermost first.
    pub closed spec fn dims(&self) -> Seq<usize> {
        self.shape@
    }

    /// The buffer holds exactly as many elements as the shape asks for.
    pub open spec fn wf(&self) -> bool {
        self@.len() == shape_product(self.dims())
    }

    /// The size of the last dimension: the length of a row.
    pub open spec fn cols(&self) -> nat
        recommends
            self.dims().len() > 0,
    {
        self.dims().last() as nat
    }

    /// Builds a tensor from its elements and its shape. Fails when the
    /// number of elements is not the product of the dimensions.
    pub fn new(data: Vec<T>, shape: &Vec<usize>) -> (r: Result<Self, TensorError>)
        ensures
            r is Ok <==> data@.len() == shape_product(shape@),
            r matches Ok(t) ==> t.wf() && t@ == data@ && t.dims() == shape@,
            r matches Err(e) ==> e == TensorError::ShapeMismatch,
    {
        let ghost old_shape = *shape;
        let n = data.len();
        match checked_shape_product(shape) {
            Some(p) => {
                if p == n {
                    let shape = shape.clone();
                    assert(shape@ =~= old_shape@);
                    Ok(Tensor { data, shape })
                } else {
                    Err(TensorError::ShapeMismatch)
                }
            },
            None => Err(TensorError::ShapeMismatch),
        }
    }

    /// The sizes of the dimensions.
    pub fn shape(&self) -> (s: &Vec<usize>)
        ensures
            s@ == self.dims(),
    {
        &self.shape
    }

    /// The number of elements.
    pub fn size(&self) -> (n: usize)
        ensures
            n == self@.len(),
    {
        self.data.len()
    }

    /// The elements, for reading.
    pub fn data(&self) -> (d: &Vec<T>)
        ensures
            d@ == self@,
    {
        &self.data
    }

    /// The elements, for writing. The borrow ends before the tensor can
    /// be read again; the shape stays as it is, and so does the number
    /// of elements.
    pub fn data_mut(&mut self) -> (d: &mut [T])
        ensures
            d@ == old(self)@,
            final(self)@ == final(d)@,
            final(self).dims() == old(self).dims(),
    {
        self.data.as_mut_slice()
    }

    /// Overwrites the element at offset `i`. The shape stays as it is.
    pub fn set(&mut self, i: usize, value: T)
        requires
            i < old(self)@.len(),
        ensures
            final(self)@ == old(self)@.update(i as int, value),
            final(self).dims() == old(self).dims(),
    {
        self.data.set(i, value);
    }
}

/// Appends the `n` elements of `source` from offset `start` on to `out`.
pub fn push_run<T: Copy>(out: &mut Vec<T>, source: &Vec<T>, start: usize, n: usize)
    requires
        start + n <= source.len(),
    ensures
        final(out)@ == old(out)@ + source@.subrange(start as int, start + n),
{
    let mut j: usize = 0;
    assert(out@ =~= old(out)@ + source@.subrange(start as int, start + 0));
    while j < n
        invariant
            j <= n,
            start + n <= source.len(),
            out@ == old(out)@ + source@.subrange(start as int, start + j),
        decreases n - j,
    {
        out.push(source[start + j]);
        assert(out@ =~= old(out)@ + source@.subrange(start as int, start + j + 1));
        j += 1;
    }
}

impl<T> Tensor<T> {
    /// Whether the tensor has the shape `shape` and holds as many
    /// elements as that shape asks for.
    pub fn has_shape(&self, shape: &Vec<usize>) -> (b: bool)
        ensures
            b <==> self.wf() && self.dims() == shape@,
    {
        if !same_shape(&self.shape, shape) {
            return false;
        }
        let len = self.data.len();
        match checked_shape_product(shape) {
            Some(n) => n == len,
            None => false,
        }
    }
}

impl<T: Copy> Tensor<T> {
    /// Builds a tensor from elements that are known to fill the shape.
    pub fn from_parts(data: Vec<T>, shape: &Vec<usize>) -> (t: Self)
        requires
            data@.len() == shape_product(shape@),
        ensures
            t.wf(),
            t@ == data@,
            t.dims() == shape@,
    {
        let ghost dims = shape@;
        let shape = shape.clone();
        assert(shape@ =~= dims);
        Tensor { data, shape }
    }

    /// Gives the same elements another shape of the same size.
    pub fn reshape(&mut self, shape: &Vec<usize>)
        requires
            old(self)@.len() == shape_product(shape@),
        ensures
            final(self).wf(),
            final(self)@ == old(self)@,
            final(self).dims() == shape@,
    {
        let ghost dims = shape@;
        let shape = shape.clone();
        assert(shape@ =~= dims);
        self.shape = shape;
    }

    /// The transpose of a matrix: row `c` of the result is column `c` of
    /// `self`.
    pub fn transpose(&self) -> (t: Self)
        requires
            self.wf(),
            self.dims().len() == 2,
        ensures
            t.wf(),
            t.dims() == seq![self.dims()[1], self.dims()[0]],
            is_transposed(self@, self.dims()[0] as int, self.dims()[1] as int, t@),
    {
        let rows = self.shape[0];
        let cols = self.shape[1];
        let ghost x = self.data@;
        let len = self.data.len();
        proof {
            lemma_product_of_matrix(self.shape@);
        }
        let mut out: Vec<T> = Vec::new();
        let mut c: usize = 0;
        assert(0 * rows == 0) by (nonlinear_arith);
        while c < cols
            invariant
                c <= cols,
                x == self.data@,
                len == x.len(),
                len == rows * cols,
                out.len() == c * rows,
                forall|cc: int, r: int|
                    0 <= cc < c && 0 <= r < rows ==> #[trigger] row_of(out@, rows as int, cc)[r]
                        == row_of(x, cols as int, r)[cc],
            decreases cols - c,
        {
            let ghost done = out@;
            let mut r: usize = 0;
            while r < rows
                invariant
                    r <= rows,
                    c < cols,
                    x == self.data@,
                    len == x.len(),
                    len == rows * cols,
                    done.len() == c * rows,
                    out.len() == c * rows + r,
                    out@.subrange(0, done.len() as int) == done,
                    forall|rr: int|
                        0 <= rr < r ==> #[trigger] out[c * rows + rr] == row_of(x, cols as int, rr)[c as int],
                decreases rows - r,
            {
                proof {
                    lemma_row_span(rows as int, cols as int, r as int);
                }
                let ghost before = out@;
                out.push(self.data[r * cols + c]);
                assert(out@.subrange(0, done.len() as int) =~= before.subrange(
                    0,
                    done.len() as int,
                ));
                r += 1;
            }
            proof {
                assert((c + 1) * rows == c * rows + rows) by (nonlinear_arith);
                let column = out@.subrange(done.len() as int, out.len() as int);
                assert(out@ =~= done + column);
                lemma_row_appended(done, column, rows as int, c as int);
                assert forall|cc: int, r: int| 0 <= cc < c + 1 && 0 <= r < rows implies #[trigger] row_of(
                    out@,
                    rows as int,
                    cc,
                )[r] == row_of(x, cols as int, r)[cc] by {
                    if cc == c {
                        assert(row_of(out@, rows as int, cc)[r] == column[r]);
                        assert(column[r] == out[c * rows + r]);
                    } else {
                        assert(row_of(out@, rows as int, cc) == row_of(done, rows as int, cc));
                    }
                }
            }
            c += 1;
        }
        let shape: Vec<usize> = vec![cols, rows];
        proof {
            lemma_product_of_matrix(shape@);
            assert(cols * rows == rows * cols) by (nonlinear_arith);
        }
        let t = Tensor { data: out, shape };
        assert(t.dims() =~= seq![self.dims()[1], self.dims()[0]]);
        t
    }

    /// Exchanges the first two of three dimensions: from `[a, b, c]` to
    /// `[b, a, c]`. Row `i` of block `j` of the result is row `j` of
    /// block `i` of `self`.
    pub fn swap_leading_axes(&self) -> (t: Self)
        requires
            self.wf(),
            self.dims().len() == 3,
        ensures
            t.wf(),
            t.dims() == seq![self.dims()[1], self.dims()[0], self.dims()[2]],
            is_swapped(
                self@,
                self.dims()[0] as int,
                self.dims()[1] as int,
                self.dims()[2] as int,
                t@,
            ),
    {
        let a = self.shape[0];
        let b = self.shape[1];
        let c = self.shape[2];
        let ghost x = self.data@;
        let len = self.data.len();
        proof {
            lemma_product_of_cube(self.shape@);
        }
        let mut out: Vec<T> = Vec::new();
        if len == 0 {
            let shape: Vec<usize> = vec![b, a, c];
            proof {
                lemma_product_of_cube(shape@);
                assert((b * a) * c == (a * b) * c) by (nonlinear_arith);
                assert forall|j: int, i: int| 0 <= j < b && 0 <= i < a implies #[trigger] block_row(
                    out@,
                    c as int,
                    a as int,
                    j,
                    i,
                ) == block_row(x, c as int, b as int, i, j) by {
                    // the tensor is empty although it has rows: the rows are empty
                    assert(c == 0) by (nonlinear_arith)
                        requires
                            (a * b) * c == 0,
                            a > 0,
                            b > 0,
                            c >= 0,
                    ;
                    assert(block_row(out@, c as int, a as int, j, i) =~= block_row(
                        x,
                        c as int,
                        b as int,
                        i,
                        j,
                    ));
                }
            }
            let t = Tensor { data: out, shape };
            assert(t.dims() =~= seq![self.dims()[1], self.dims()[0], self.dims()[2]]);
            return t;
        }
        let mut j: usize = 0;
        assert((0 * a) * c == 0) by (nonlinear_arith);
        while j < b
            invariant
                j <= b,
                x == self.data@,
                len == x.len(),
                len > 0,
                len == (a * b) * c,
                out.len() == (j * a) * c,
                forall|jj: int, i: int|
                    0 <= jj < j && 0 <= i < a ==> #[trigger] block_row(
                        out@,
                        c as int,
                        a as int,
                        jj,
                        i,
                    ) == block_row(x, c as int, b as int, i, jj),
            decreases b - j,
        {
            let mut i: usize = 0;
            while i < a
                invariant
                    i <= a,
                    j < b,
                    x == self.data@,
                    len == x.len(),
                    len > 0,
                    len == (a * b) * c,
                    out.len() == (j * a + i) * c,
                    forall|jj: int, ii: int|
                        0 <= jj < j && 0 <= ii < a ==> #[trigger] block_row(
                            out@,
                            c as int,
                            a as int,
                            jj,
                            ii,
                        ) == block_row(x, c as int, b as int, ii, jj),
                    forall|ii: int|
                        0 <= ii < i ==> #[trigger] block_row(out@, c as int, a as int, j as int, ii)
                            == block_row(x, c as int, b as int, ii, j as int),
                decreases a - i,
            {
                proof {
                    lemma_block_index(a as int, b as int, i as int, j as int);
                    assert(a * b <= (a * b) * c) by (nonlinear_arith)
                        requires
                            (a * b) * c > 0,
                    ;
                    lemma_row_span((a * b) as int, c as int, (i * b + j) as int);
                }
                let ghost before = out@;
                let source = i * b + j;
                push_run(&mut out, &self.data, source * c, c);
                proof {
                    let row = x.subrange(source * c, source * c + c);
                    assert(row =~= row_of(x, c as int, source as int));
                    lemma_row_appended(before, row, c as int, (j * a + i) as int);
                    assert forall|jj: int, ii: int| 0 <= jj < j && 0 <= ii < a implies #[trigger] block_row(
                        out@,
                        c as int,
                        a as int,
                        jj,
                        ii,
                    ) == block_row(x, c as int, b as int, ii, jj) by {
                        lemma_block_index(j as int, a as int, jj, ii);
                        assert(block_row(before, c as int, a as int, jj, ii) == block_row(
                            x,
                            c as int,
                            b as int,
                            ii,
                            jj,
                        ));
                    }
                    assert forall|ii: int| 0 <= ii < i + 1 implies #[trigger] block_row(
                        out@,
                        c as int,
                        a as int,
                        j as int,
                        ii,
                    ) == block_row(x, c as int, b as int, ii, j as int) by {
                        if ii < i {
                            assert(block_row(before, c as int, a as int, j as int, ii)
                                == block_row(x, c as int, b as int, ii, j as int));
                        }
                    }
                }
                i += 1;
            }
            proof {
                assert(((j + 1) * a) * c == (j * a + a) * c) by (nonlinear_arith);
            }
            j += 1;
        }
        let shape: Vec<usize> = vec![b, a, c];
        proof {
            lemma_product_of_cube(shape@);
            assert((b * a) * c == (a * b) * c) by (nonlinear_arith);
        }
        let t = Tensor { data: out, shape };
        assert(t.dims() =~= seq![self.dims()[1], self.dims()[0], self.dims()[2]]);
        t
    }

    /// A copy of the `n` elements from offset `start` on.
    pub fn read_at(&self, start: usize, n: usize) -> (values: Vec<T>)
        requires
            start + n <= self@.len(),
        ensures
            values@ == self@.subrange(start as int, start + n),
    {
        let len = self.data.len();
        let mut values: Vec<T> = Vec::new();
        let mut j: usize = 0;
        while j < n
            invariant
                j <= n,
                start + n <= len,
                len == self.data@.len(),
                values@ == self@.subrange(start as int, start + j),
            decreases n - j,
        {
            values.push(self.data[start + j]);
            assert(values@ =~= self@.subrange(start as int, start + j + 1));
            j += 1;
        }
        values
    }

    /// Overwrites the elements from offset `start` on with `values`.
    pub fn write_at(&mut self, start: usize, values: &Vec<T>)
        requires
            start + values.len() <= old(self)@.len(),
        ensures
            final(self).dims() == old(self).dims(),
            final(self)@.len() == old(self)@.len(),
            forall|i: int|
                start <= i < start + values.len() ==> final(self)@[i] == values[i - start],
            forall|i: int|
                0 <= i < old(self)@.len() && !(start <= i < start + values.len())
                    ==> final(self)@[i] == old(self)@[i],
    {
        let n = values.len();
        let len = self.size();
        let mut j: usize = 0;
        while j < n
            invariant
                j <= n,
                n == values.len(),
                len == self@.len(),
                start + n <= len,
                self.dims() == old(self).dims(),
                self@.len() == old(self)@.len(),
                forall|i: int| start <= i < start + j ==> self@[i] == values[i - start],
                forall|i: int|
                    0 <= i < self@.len() && !(start <= i < start + j)
                        ==> self@[i] == old(self)@[i],
            decreases n - j,
        {
            self.set(start + j, values[j]);
            j += 1;
        }
    }
}

/// `holds` answers whether `a` and `b` differ by at most `tol`: whether
/// the absolute value of their difference is at most `tol`.
pub open spec fn is_close<T: Scalar>(a: T, b: T, tol: T, holds: bool) -> bool {
    exists|d: T, m: T| is_difference(a, b, d) && is_abs(d, m) && is_le(m, tol, holds)
}

fn close<T: Scalar>(a: T, b: T, tol: T) -> (holds: bool)
    ensures
        is_close(a, b, tol, holds),
{
    let d = a.sub(b);
    let m = d.abs();
    let holds = m.le(tol);
    assert(is_difference(a, b, d) && is_abs(d, m) && is_le(m, tol, holds));
    holds
}

fn same_shape(a: &Vec<usize>, b: &Vec<usize>) -> (same: bool)
    ensures
        same <==> a@ == b@,
{
    if a.len() != b.len() {
        return false;
    }
    let n = a.len();
    let mut i: usize = 0;
    while i < n
        invariant
            i <= n,
            n == a.len(),
            n == b.len(),
            forall|k: int| 0 <= k < i ==> a[k] == b[k],
        decreases n - i,
    {
        if a[i] != b[i] {
            return false;
        }
        i += 1;
    }
    assert(a@ =~= b@);
    true
}

impl<T: Scalar> Tensor<T> {
    /// A tensor of zeros.
    pub fn zeros(shape: &Vec<usize>) -> (t: Self)
        requires
            shape_product(shape@) <= usize::MAX,
        ensures
            t.wf(),
            t.dims() == shape@,
            forall|i: int| 0 <= i < t@.len() ==> is_zero(#[trigger] t@[i]),
    {
        let n = match checked_shape_product(shape) {
            Some(n) => n,
            None => 0,
        };
        let zero = T::zero();
        let mut data: Vec<T> = Vec::new();
        let mut i: usize = 0;
        while i < n
            invariant
                i <= n,
                data.len() == i,
                is_zero(zero),
                forall|k: int| 0 <= k < i ==> is_zero(#[trigger] data[k]),
            decreases n - i,
        {
            data.push(zero);
            i += 1;
        }
        Tensor::from_parts(data, shape)
    }

    /// Whether two tensors have the same shape and agree, element by
    /// element, within `tol`.
    ///
    /// The answer is `false` when the shapes differ, and otherwise when
    /// some pair of elements is further apart than `tol`.
    pub fn close_to(&self, other: &Self, tol: T) -> (close: bool)
        requires
            self.wf(),
            other.wf(),
        ensures
            close ==> self.dims() == other.dims() && forall|i: int|
                0 <= i < self@.len() ==> is_close(#[trigger] self@[i], other@[i], tol, true),
            !close ==> self.dims() != other.dims() || exists|i: int|
                0 <= i < self@.len() && is_close(#[trigger] self@[i], other@[i], tol, false),
    {
        if !same_shape(&self.shape, &other.shape) {
            return false;
        }
        let n = self.data.len();
        let mut i: usize = 0;
        while i < n
            invariant
                i <= n,
                n == self.data.len(),
                n == other.data.len(),
                forall|k: int| 0 <= k < i ==> is_close(#[trigger] self@[k], other@[k], tol, true),
            decreases n - i,
        {
            if !close(self.data[i], other.data[i], tol) {
                assert(is_close(self@[i as int], other@[i as int], tol, false));
                return false;
            }
            i += 1;
        }
        true
    }
}

} // verus!
