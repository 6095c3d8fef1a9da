//! The operators of the forward pass.

use crate::reduce::{dot_of, is_dot, is_max_of, is_sum_of, max_of, sum_of};
use crate::sampling::{is_sample, sample_from, Entropy};
use crate::scalar::{
    is_difference, is_exp, is_from_usize, is_negation, is_one, is_power, is_product, is_quotient,
    is_sin_cos, is_sqrt, is_sum, is_zero, Scalar,
};
use crate::tensor::{
    lemma_nonempty_dims, lemma_product_of_batches, lemma_product_of_cube,
    lemma_product_of_matrix, lemma_row_bounds, lemma_row_written, row_of, shape_product, Tensor,
};
use vstd::prelude::*;

verus! {

/// How many rows of `cols` elements a buffer of `len` elements holds.
pub open spec fn row_count(len: nat, cols: int) -> int {
    if cols <= 0 {
        0
    } else {
        len as int / cols
    }
}

/// Row `i` of `y` is the row of `table` that `indices[i]` names, where
/// rows have `dim` elements.
pub open spec fn is_gathered<T>(indices: Seq<u32>, table: Seq<T>, dim: int, y: Seq<T>) -> bool {
    forall|i: int|
        0 <= i < indices.len() ==> #[trigger] row_of(y, dim, i) == row_of(
            table,
            dim,
            indices[i] as int,
        )
}

/// Looks rows up in a table: row `i` of `y` becomes the row of `table`
/// that `indices[i]` names.
pub fn gather<T: Copy>(y: &mut Tensor<T>, indices: &Tensor<u32>, table: &Tensor<T>)
    requires
        table.wf(),
        table.dims().len() == 2,
        old(y)@.len() == indices@.len() * table.dims()[1],
        forall|i: int| 0 <= i < indices@.len() ==> indices@[i] < table.dims()[0],
    ensures
        final(y).dims() == old(y).dims(),
        final(y)@.len() == old(y)@.len(),
        is_gathered(indices@, table@, table.dims()[1] as int, final(y)@),
{
    let length = indices.size();
    let dim = table.shape()[1];
    let ghost vocab = table.dims()[0];
    let y_len = y.size();
    let table_len = table.size();
    proof {
        lemma_product_of_matrix(table.dims());
    }
    let mut i: usize = 0;
    while i < length
        invariant
            i <= length,
            length == indices@.len(),
            dim == table.dims()[1],
            vocab == table.dims()[0],
            table.dims().len() == 2,
            table_len == table@.len(),
            table_len == vocab * dim,
            y_len == y@.len(),
            y_len == length * dim,
            y.dims() == old(y).dims(),
            forall|k: int| 0 <= k < indices@.len() ==> indices@[k] < vocab,
            forall|q: int|
                0 <= q < i ==> #[trigger] row_of(y@, dim as int, q) == row_of(
                    table@,
                    dim as int,
                    indices@[q] as int,
                ),
        decreases length - i,
    {
        let row = indices.data()[i] as usize;
        proof {
            assert(0 <= i * dim && i * dim + dim <= length * dim) by (nonlinear_arith)
                requires
                    i < length,
            ;
            assert(0 <= row * dim && row * dim + dim <= vocab * dim) by (nonlinear_arith)
                requires
                    row < vocab,
            ;
            assert((i + 1) * dim == i * dim + dim) by (nonlinear_arith);
            assert((row + 1) * dim == row * dim + dim) by (nonlinear_arith);
        }
        let ghost before = y@;
        let dst = i * dim;
        let src = row * dim;
        let mut j: usize = 0;
        while j < dim
            invariant
                j <= dim,
                dst + dim <= y_len,
                src + dim <= table_len,
                y_len == y@.len(),
                table_len == table@.len(),
                y@.len() == before.len(),
                y.dims() == old(y).dims(),
                forall|k: int| dst <= k < dst + j ==> #[trigger] y@[k] == table@[k - dst + src],
                forall|k: int| 0 <= k < y@.len() && !(dst <= k < dst + j) ==> y@[k] == before[k],
            decreases dim - j,
        {
            y.set(dst + j, table.data()[src + j]);
            j += 1;
        }
        proof {
            assert(row_of(y@, dim as int, i as int) =~= row_of(table@, dim as int, row as int));
            assert forall|q: int| 0 <= q < i implies #[trigger] row_of(y@, dim as int, q)
                == row_of(table@, dim as int, indices@[q] as int) by {
                assert((q + 1) * dim <= i * dim) by (nonlinear_arith)
                    requires
                        q < i,
                ;
                assert(0 <= q * dim && (q + 1) * dim == q * dim + dim) by (nonlinear_arith)
                    requires
                        0 <= q,
                ;
                assert(row_of(y@, dim as int, q) =~= row_of(before, dim as int, q));
            }
        }
        i += 1;
    }
}

/// `freq` is the angle by which pair `i` of a vector of `d` elements is
/// turned at position `pos`: the position over `theta` to the power
/// `2i/d`.
pub open spec fn is_angle<T: Scalar>(pos: usize, i: usize, d: usize, theta: T, freq: T) -> bool {
    exists|p: T, n: T, m: T, e: T, b: T|
        is_from_usize(pos, p) && is_from_usize((2 * i) as usize, n) && is_from_usize(d, m)
            && is_quotient(n, m, e) && is_power(theta, e, b) && is_quotient(p, b, freq)
}

/// `(a2, b2)` is `(a, b)` turned by the angle with sine `sin` and cosine
/// `cos`: `a2 = a cos - b sin` and `b2 = b cos + a sin`.
pub open spec fn is_turned<T: Scalar>(a: T, b: T, sin: T, cos: T, a2: T, b2: T) -> bool {
    exists|ac: T, bs: T, bc: T, sa: T|
        is_product(a, cos, ac) && is_product(b, sin, bs) && is_difference(ac, bs, a2)
            && is_product(b, cos, bc) && is_product(a, sin, sa) && is_sum(bc, sa, b2)
}

/// `(a2, b2)` is pair `i` of a vector of `d` elements after the rotary
/// embedding of position `pos`.
pub open spec fn is_rotation<T: Scalar>(
    pos: usize,
    i: usize,
    d: usize,
    theta: T,
    a: T,
    b: T,
    a2: T,
    b2: T,
) -> bool {
    exists|freq: T, sin: T, cos: T|
        is_angle(pos, i, d, theta, freq) && is_sin_cos(freq, sin, cos) && is_turned(
            a,
            b,
            sin,
            cos,
            a2,
            b2,
        )
}

/// `after` is the vector `before` with every pair of elements half a
/// vector apart turned as position `pos` asks.
pub open spec fn is_rope_row<T: Scalar>(pos: usize, theta: T, before: Seq<T>, after: Seq<T>) -> bool {
    &&& after.len() == before.len()
    &&& forall|i: int|
        0 <= i < before.len() / 2 ==> is_rotation(
            pos,
            i as usize,
            before.len() as usize,
            theta,
            before[i],
            before[i + before.len() / 2],
            #[trigger] after[i],
            after[i + before.len() / 2],
        )
}

/// `after` is `before`, a buffer of vectors of `d` elements, with the
/// vector of head `h` at token `t`, which is row `t * n_heads + h`,
/// turned as position `start_pos + t` asks.
pub open spec fn is_roped<T: Scalar>(
    before: Seq<T>,
    n_heads: int,
    d: int,
    start_pos: int,
    theta: T,
    after: Seq<T>,
) -> bool {
    &&& after.len() == before.len()
    &&& forall|r: int|
        0 <= r < row_count(before.len(), d) ==> is_rope_row(
            (start_pos + r / n_heads) as usize,
            theta,
            row_of(before, d, r),
            #[trigger] row_of(after, d, r),
        )
}

fn angle<T: Scalar>(pos: usize, i: usize, d: usize, theta: T) -> (freq: T)
    requires
        2 * i <= usize::MAX,
    ensures
        is_angle(pos, i, d, theta, freq),
{
    let p = T::from_usize(pos);
    let n = T::from_usize(2 * i);
    let m = T::from_usize(d);
    let e = n.div(m);
    let b = theta.powf(e);
    let freq = p.div(b);
    assert(is_from_usize(pos, p) && is_from_usize((2 * i) as usize, n) && is_from_usize(d, m)
        && is_quotient(n, m, e) && is_power(theta, e, b) && is_quotient(p, b, freq));
    freq
}

fn turn<T: Scalar>(a: T, b: T, sin: T, cos: T) -> (r: (T, T))
    ensures
        is_turned(a, b, sin, cos, r.0, r.1),
{
    let ac = a.mul(cos);
    let bs = b.mul(sin);
    let a2 = ac.sub(bs);
    let bc = b.mul(cos);
    let sa = a.mul(sin);
    let b2 = bc.add(sa);
    assert(is_product(a, cos, ac) && is_product(b, sin, bs) && is_difference(ac, bs, a2)
        && is_product(b, cos, bc) && is_product(a, sin, sa) && is_sum(bc, sa, b2));
    (a2, b2)
}

fn rope_row<T: Scalar>(y: &Tensor<T>, start: usize, d: usize, pos: usize, theta: T) -> (row: Vec<T>)
    requires
        start + d <= y@.len(),
        d % 2 == 0,
    ensures
        is_rope_row(pos, theta, y@.subrange(start as int, start + d), row@),
{
    let mut row = y.read_at(start, d);
    let ghost before = row@;
    let half = d / 2;
    let mut i: usize = 0;
    while i < half
        invariant
            i <= half,
            half == d / 2,
            d % 2 == 0,
            before.len() == d,
            row.len() == d,
            forall|k: int|
                (i <= k < half || i + half <= k < d) ==> #[trigger] row[k] == before[k],
            forall|k: int|
                0 <= k < i ==> is_rotation(
                    pos,
                    k as usize,
                    d,
                    theta,
                    before[k],
                    before[k + half],
                    #[trigger] row[k],
                    row[k + half],
                ),
        decreases half - i,
    {
        let a = row[i];
        let b = row[i + half];
        let freq = angle(pos, i, d, theta);
        let (sin, cos) = freq.sin_cos();
        let (a2, b2) = turn(a, b, sin, cos);
        assert(is_rotation(pos, i, d, theta, a, b, a2, b2)) by {
            assert(is_angle(pos, i, d, theta, freq) && is_sin_cos(freq, sin, cos) && is_turned(
                a,
                b,
                sin,
                cos,
                a2,
                b2,
            ));
        }
        row.set(i, a2);
        row.set(i + half, b2);
        i += 1;
    }
    row
}

/// Rotary position embedding, in place.
///
/// `y` has the shape `[seq_len, n_heads, d]`. The vector of head `h` at
/// token `t` is row `t * n_heads + h`; it is turned as position
/// `start_pos + t` asks.
pub fn rope<T: Scalar>(y: &mut Tensor<T>, start_pos: usize, theta: T)
    requires
        old(y).wf(),
        old(y).dims().len() == 3,
        old(y).dims()[2] % 2 == 0,
        start_pos + old(y).dims()[0] <= usize::MAX,
    ensures
        final(y).dims() == old(y).dims(),
        is_roped(
            old(y)@,
            old(y).dims()[1] as int,
            old(y).dims()[2] as int,
            start_pos as int,
            theta,
            final(y)@,
        ),
{
    let seq_len = y.shape()[0];
    let n_heads = y.shape()[1];
    let d = y.shape()[2];
    let len = y.size();
    if d == 0 || len == 0 {
        return ;
    }
    let rows = len / d;
    proof {
        lemma_nonempty_dims(y.dims());
        lemma_product_of_cube(y.dims());
        assert(len == (seq_len * n_heads) * d);
        assert(rows == seq_len * n_heads) by (nonlinear_arith)
            requires
                len == (seq_len * n_heads) * d,
                rows == len / d,
                d > 0,
        ;
    }
    let mut r: usize = 0;
    while r < rows
        invariant
            r <= rows,
            d > 0,
            d % 2 == 0,
            n_heads >= 1,
            d == y.cols(),
            d == old(y).cols(),
            len == y@.len(),
            len == old(y)@.len(),
            rows == len / d,
            rows == seq_len * n_heads,
            start_pos + seq_len <= usize::MAX,
            n_heads == old(y).dims()[1],
            y.dims() == old(y).dims(),
            forall|q: int|
                r <= q < rows ==> #[trigger] row_of(y@, d as int, q) == row_of(
                    old(y)@,
                    d as int,
                    q,
                ),
            forall|q: int|
                0 <= q < r ==> is_rope_row(
                    (start_pos + q / (n_heads as int)) as usize,
                    theta,
                    row_of(old(y)@, d as int, q),
                    #[trigger] row_of(y@, d as int, q),
                ),
        decreases rows - r,
    {
        proof {
            lemma_row_bounds(len as int, d as int, r as int);
            assert(r / n_heads < seq_len) by (nonlinear_arith)
                requires
                    r < seq_len * n_heads,
                    n_heads >= 1,
            ;
        }
        let start = r * d;
        let pos = start_pos + r / n_heads;
        let ghost before = y@;
        assert(row_of(y@, d as int, r as int) == row_of(old(y)@, d as int, r as int));
        let row = rope_row(y, start, d, pos, theta);
        y.write_at(start, &row);
        proof {
            lemma_row_written(before, y@, d as int, r as int, row@);
        }
        r += 1;
    }
}

/// `scale` is the root of the mean square of `row`, after `epsilon` is
/// added to the mean.
pub open spec fn is_rms_scale<T: Scalar>(row: Seq<T>, epsilon: T, scale: T) -> bool {
    exists|squares: T, n: T, mean: T, shifted: T|
        is_dot(row, row, squares) && is_from_usize(row.len() as usize, n) && is_quotient(
            squares,
            n,
            mean,
        ) && is_sum(mean, epsilon, shifted) && is_sqrt(shifted, scale)
}

/// `y` is the product of `w` and `x`, over `scale`.
pub open spec fn is_weighted<T: Scalar>(w: T, x: T, scale: T, y: T) -> bool {
    exists|p: T| is_product(w, x, p) && is_quotient(p, scale, y)
}

/// `y_row` is `x_row` normalized by its root mean square and weighted,
/// element by element, by `w`.
pub open spec fn is_rms_row<T: Scalar>(x_row: Seq<T>, w: Seq<T>, epsilon: T, y_row: Seq<T>) -> bool {
    &&& y_row.len() == x_row.len()
    &&& exists|scale: T|
        #![trigger is_rms_scale(x_row, epsilon, scale)]
        {
            &&& is_rms_scale(x_row, epsilon, scale)
            &&& forall|i: int|
                0 <= i < x_row.len() ==> is_weighted(w[i], x_row[i], scale, #[trigger] y_row[i])
        }
}

/// Every row of `y` is the same row of `x`, normalized and weighted by
/// `w`. Rows are as long as `w`.
pub open spec fn is_rms_normed<T: Scalar>(x: Seq<T>, w: Seq<T>, epsilon: T, y: Seq<T>) -> bool {
    &&& y.len() == x.len()
    &&& forall|r: int|
        0 <= r < row_count(x.len(), w.len() as int) ==> is_rms_row(
            row_of(x, w.len() as int, r),
            w,
            epsilon,
            #[trigger] row_of(y, w.len() as int, r),
        )
}

fn rms_scale<T: Scalar>(x: &Vec<T>, start: usize, n: usize, epsilon: T) -> (scale: T)
    requires
        start + n <= x.len(),
    ensures
        is_rms_scale(x@.subrange(start as int, start + n), epsilon, scale),
{
    let ghost row = x@.subrange(start as int, start + n);
    let squares = dot_of(x, start, x, start, n);
    let count = T::from_usize(n);
    let mean = squares.div(count);
    let shifted = mean.add(epsilon);
    let scale = shifted.sqrt();
    assert(is_dot(row, row, squares) && is_from_usize(row.len() as usize, count) && is_quotient(
        squares,
        count,
        mean,
    ) && is_sum(mean, epsilon, shifted) && is_sqrt(shifted, scale));
    scale
}

fn rms_row<T: Scalar>(x: &Vec<T>, start: usize, w: &Vec<T>, epsilon: T) -> (row: Vec<T>)
    requires
        start + w.len() <= x.len(),
    ensures
        is_rms_row(x@.subrange(start as int, start + w.len()), w@, epsilon, row@),
{
    let n = w.len();
    let ghost x_row = x@.subrange(start as int, start + n);
    let scale = rms_scale(x, start, n, epsilon);
    let mut row: Vec<T> = Vec::new();
    let mut i: usize = 0;
    while i < n
        invariant
            i <= n,
            n == w.len(),
            start + n <= x.len(),
            x_row == x@.subrange(start as int, start + n),
            row.len() == i,
            forall|k: int| 0 <= k < i ==> is_weighted(w[k], x_row[k], scale, #[trigger] row[k]),
        decreases n - i,
    {
        let p = w[i].mul(x[start + i]);
        let v = p.div(scale);
        assert(is_weighted(w[i as int], x_row[i as int], scale, v)) by {
            assert(is_product(w[i as int], x_row[i as int], p) && is_quotient(p, scale, v));
        }
        row.push(v);
        i += 1;
    }
    row
}

/// Root-mean-square normalization: every row of `x` is normalized and
/// weighted by `w`, and stored as the same row of `y`.
///
/// The rows are those of `y`'s shape; `x` is read as rows of the same
/// length.
pub fn rms_norm<T: Scalar>(y: &mut Tensor<T>, x: &Tensor<T>, w: &Tensor<T>, epsilon: T)
    requires
        old(y)@.len() == x@.len(),
        old(y).dims().len() >= 2,
        w.dims().len() == 1,
        w@.len() == old(y).cols(),
    ensures
        final(y).dims() == old(y).dims(),
        is_rms_normed(x@, w@, epsilon, final(y)@),
{
    let ndim = y.shape().len();
    let cols = y.shape()[ndim - 1];
    let len = y.size();
    if cols == 0 {
        return ;
    }
    let rows = len / cols;
    let mut r: usize = 0;
    while r < rows
        invariant
            r <= rows,
            cols > 0,
            cols == y.cols(),
            cols == w@.len(),
            len == y@.len(),
            len == x@.len(),
            rows == len / cols,
            y.dims() == old(y).dims(),
            forall|q: int|
                0 <= q < r ==> is_rms_row(
                    row_of(x@, cols as int, q),
                    w@,
                    epsilon,
                    #[trigger] row_of(y@, cols as int, q),
                ),
        decreases rows - r,
    {
        proof {
            lemma_row_bounds(len as int, cols as int, r as int);
        }
        let start = r * cols;
        let ghost before = y@;
        let row = rms_row(x.data(), start, w.data(), epsilon);
        y.write_at(start, &row);
        proof {
            lemma_row_written(before, y@, cols as int, r as int, row@);
        }
        r += 1;
    }
}

/// `weight` is the exponential of the distance from `x` to `top`.
pub open spec fn is_shifted_exp<T: Scalar>(x: T, top: T, weight: T) -> bool {
    exists|d: T| is_difference(x, top, d) && is_exp(d, weight)
}

/// `y_row` is the softmax of the first `boundary` elements of `x_row`,
/// followed by zeros.
///
/// The maximum of the first `boundary` elements is subtracted before the
/// exponential is taken, and each exponential is divided by their sum.
pub open spec fn is_softmax_row<T: Scalar>(x_row: Seq<T>, boundary: int, y_row: Seq<T>) -> bool {
    &&& y_row.len() == x_row.len()
    &&& forall|j: int| boundary <= j < y_row.len() ==> is_zero(#[trigger] y_row[j])
    &&& exists|top: T, weights: Seq<T>, mass: T|
        #![trigger is_max_of(x_row[0], x_row.take(boundary), top), is_sum_of(weights, mass)]
        {
            &&& is_max_of(x_row[0], x_row.take(boundary), top)
            &&& weights.len() == boundary
            &&& forall|j: int|
                0 <= j < boundary ==> is_shifted_exp(x_row[j], top, #[trigger] weights[j])
            &&& is_sum_of(weights, mass)
            &&& forall|j: int|
                0 <= j < boundary ==> is_quotient(weights[j], mass, #[trigger] y_row[j])
        }
}

/// How many leading columns the query in row `i` of `seq_len` rows may
/// attend to, when there are `total_seq_len` columns.
pub open spec fn causal_boundary(seq_len: int, total_seq_len: int, i: int) -> int {
    total_seq_len - seq_len + i + 1
}

/// Every row of `after` is the causal softmax of the same row of
/// `before`. Rows have `total_seq_len` elements; row `r` belongs to query
/// `r % seq_len`.
pub open spec fn is_causal_softmax<T: Scalar>(
    before: Seq<T>,
    seq_len: int,
    total_seq_len: int,
    after: Seq<T>,
) -> bool {
    &&& after.len() == before.len()
    &&& forall|r: int|
        0 <= r < row_count(before.len(), total_seq_len) ==> is_softmax_row(
            row_of(before, total_seq_len, r),
            causal_boundary(seq_len, total_seq_len, r % seq_len),
            #[trigger] row_of(after, total_seq_len, r),
        )
}

fn softmax_row<T: Scalar>(y: &Tensor<T>, start: usize, n: usize, boundary: usize) -> (row: Vec<T>)
    requires
        start + n <= y@.len(),
        1 <= boundary <= n,
    ensures
        is_softmax_row(y@.subrange(start as int, start + n), boundary as int, row@),
{
    let data = y.data();
    let ghost x_row = y@.subrange(start as int, start + n);
    let top = max_of(data, start, boundary);
    assert(x_row.take(boundary as int) =~= data@.subrange(start as int, start + boundary));
    let mut weights: Vec<T> = Vec::new();
    let mut j: usize = 0;
    while j < boundary
        invariant
            j <= boundary,
            boundary <= n,
            start + n <= data.len(),
            x_row == data@.subrange(start as int, start + n),
            weights.len() == j,
            forall|k: int| 0 <= k < j ==> is_shifted_exp(x_row[k], top, #[trigger] weights[k]),
        decreases boundary - j,
    {
        let d = data[start + j].sub(top);
        let e = d.exp();
        assert(is_shifted_exp(x_row[j as int], top, e)) by {
            assert(is_difference(x_row[j as int], top, d) && is_exp(d, e));
        }
        weights.push(e);
        j += 1;
    }
    let mass = sum_of(&weights);
    let mut row: Vec<T> = Vec::new();
    let mut j: usize = 0;
    while j < boundary
        invariant
            j <= boundary,
            weights.len() == boundary,
            row.len() == j,
            forall|k: int| 0 <= k < j ==> is_quotient(weights[k], mass, #[trigger] row[k]),
        decreases boundary - j,
    {
        row.push(weights[j].div(mass));
        j += 1;
    }
    let zero = T::zero();
    while j < n
        invariant
            boundary <= j <= n,
            row.len() == j,
            is_zero(zero),
            forall|k: int| 0 <= k < boundary ==> is_quotient(weights[k], mass, #[trigger] row[k]),
            forall|k: int| boundary <= k < j ==> is_zero(#[trigger] row[k]),
        decreases n - j,
    {
        row.push(zero);
        j += 1;
    }
    assert(is_max_of(x_row[0], x_row.take(boundary as int), top) && is_sum_of(weights@, mass));
    row
}

/// Causal softmax, in place.
///
/// The last two dimensions of `y` are `[seq_len, total_seq_len]`. Row
/// `r` belongs to query `r % seq_len`, which attends to the leading
/// columns up to its causal boundary; the rest of the row becomes zero.
pub fn masked_softmax<T: Scalar>(y: &mut Tensor<T>)
    requires
        old(y).wf(),
        old(y).dims().len() >= 2,
        old(y).dims()[old(y).dims().len() - 2] <= old(y).dims().last(),
    ensures
        final(y).dims() == old(y).dims(),
        is_causal_softmax(
            old(y)@,
            old(y).dims()[old(y).dims().len() - 2] as int,
            old(y).dims().last() as int,
            final(y)@,
        ),
{
    let ndim = y.shape().len();
    let seq_len = y.shape()[ndim - 2];
    let total_seq_len = y.shape()[ndim - 1];
    let len = y.size();
    if total_seq_len == 0 || len == 0 {
        return ;
    }
    proof {
        lemma_nonempty_dims(y.dims());
    }
    let rows = len / total_seq_len;
    let mut r: usize = 0;
    while r < rows
        invariant
            r <= rows,
            1 <= seq_len <= total_seq_len,
            total_seq_len == y.cols(),
            total_seq_len == old(y).cols(),
            seq_len == old(y).dims()[old(y).dims().len() - 2],
            len == y@.len(),
            len == old(y)@.len(),
            rows == len / total_seq_len,
            y.dims() == old(y).dims(),
            forall|q: int|
                r <= q < rows ==> #[trigger] row_of(y@, total_seq_len as int, q) == row_of(
                    old(y)@,
                    total_seq_len as int,
                    q,
                ),
            forall|q: int|
                0 <= q < r ==> is_softmax_row(
                    row_of(old(y)@, total_seq_len as int, q),
                    causal_boundary(seq_len as int, total_seq_len as int, q % (seq_len as int)),
                    #[trigger] row_of(y@, total_seq_len as int, q),
                ),
        decreases rows - r,
    {
        proof {
            lemma_row_bounds(len as int, total_seq_len as int, r as int);
        }
        let start = r * total_seq_len;
        let boundary = total_seq_len - seq_len + r % seq_len + 1;
        let ghost before = y@;
        assert(row_of(y@, total_seq_len as int, r as int) == row_of(
            old(y)@,
            total_seq_len as int,
            r as int,
        ));
        let row = softmax_row(y, start, total_seq_len, boundary);
        y.write_at(start, &row);
        proof {
            lemma_row_written(before, y@, total_seq_len as int, r as int, row@);
        }
        r += 1;
    }
}

/// `r` is `beta` times `c` plus `alpha` times the inner product of
/// `a_row` and `b_row`.
pub open spec fn is_matmul_entry<T: Scalar>(
    beta: T,
    c: T,
    alpha: T,
    a_row: Seq<T>,
    b_row: Seq<T>,
    r: T,
) -> bool {
    exists|s: T, kept: T, added: T|
        is_dot(a_row, b_row, s) && is_product(beta, c, kept) && is_product(alpha, s, added)
            && is_sum(kept, added, r)
}

/// `after` is the row `before` of `C` updated from the row `a_row` of
/// `A` and the rows of `B`, a buffer in rows of `k` elements, from row
/// `first` on: column `i` pairs `a_row` with row `first + i` of `B`.
pub open spec fn is_matmul_row<T: Scalar>(
    beta: T,
    before: Seq<T>,
    alpha: T,
    a_row: Seq<T>,
    b: Seq<T>,
    k: int,
    first: int,
    after: Seq<T>,
) -> bool {
    &&& after.len() == before.len()
    &&& forall|i: int|
        0 <= i < before.len() ==> is_matmul_entry(
            beta,
            before[i],
            alpha,
            a_row,
            row_of(b, k, first + i),
            #[trigger] after[i],
        )
}

/// `after` is `beta` times `before` plus `alpha` times the product of
/// `a` and the transpose of `b`, batch by batch.
///
/// `before` holds matrices of `m` rows and `n` columns, `a` of `m` rows
/// and `k` columns, `b` of `n` rows and `k` columns. Row `r` of `before`
/// lies in batch `r / m`; the rows of `b` in that batch start at row
/// `(r / m) * n`.
pub open spec fn is_matmul_transb<T: Scalar>(
    before: Seq<T>,
    beta: T,
    a: Seq<T>,
    b: Seq<T>,
    alpha: T,
    m: int,
    n: int,
    k: int,
    after: Seq<T>,
) -> bool {
    &&& after.len() == before.len()
    &&& forall|r: int|
        0 <= r < row_count(before.len(), n) ==> is_matmul_row(
            beta,
            row_of(before, n, r),
            alpha,
            row_of(a, k, r),
            b,
            k,
            (r / m) * n,
            #[trigger] row_of(after, n, r),
        )
}

fn matmul_row<T: Scalar>(
    c: &Tensor<T>,
    c_start: usize,
    n: usize,
    beta: T,
    alpha: T,
    a: &Vec<T>,
    a_start: usize,
    b: &Vec<T>,
    first: usize,
    k: usize,
) -> (row: Vec<T>)
    requires
        c_start + n <= c@.len(),
        a_start + k <= a.len(),
        first + n <= usize::MAX,
        (first + n) * k <= b.len(),
    ensures
        is_matmul_row(
            beta,
            c@.subrange(c_start as int, c_start + n),
            alpha,
            a@.subrange(a_start as int, a_start + k),
            b@,
            k as int,
            first as int,
            row@,
        ),
{
    let ghost before = c@.subrange(c_start as int, c_start + n);
    let ghost a_row = a@.subrange(a_start as int, a_start + k);
    let c_data = c.data();
    let mut row: Vec<T> = Vec::new();
    let mut i: usize = 0;
    while i < n
        invariant
            i <= n,
            c_start + n <= c_data.len(),
            c_data@ == c@,
            a_start + k <= a.len(),
            first + n <= usize::MAX,
            (first + n) * k <= b.len(),
            before == c@.subrange(c_start as int, c_start + n),
            a_row == a@.subrange(a_start as int, a_start + k),
            row.len() == i,
            forall|j: int|
                0 <= j < i ==> is_matmul_entry(
                    beta,
                    before[j],
                    alpha,
                    a_row,
                    row_of(b@, k as int, first + j),
                    #[trigger] row[j],
                ),
        decreases n - i,
    {
        proof {
            assert(0 <= (first + i) * k && (first + i + 1) * k == (first + i) * k + k && (first + i
                + 1) * k <= (first + n) * k) by (nonlinear_arith)
                requires
                    i < n,
            ;
        }
        let b_start = (first + i) * k;
        let s = dot_of(a, a_start, b, b_start, k);
        let kept = beta.mul(c_data[c_start + i]);
        let added = alpha.mul(s);
        let v = kept.add(added);
        assert(is_matmul_entry(
            beta,
            before[i as int],
            alpha,
            a_row,
            row_of(b@, k as int, first + i),
            v,
        )) by {
            assert(is_dot(a_row, row_of(b@, k as int, first + i), s) && is_product(
                beta,
                before[i as int],
                kept,
            ) && is_product(alpha, s, added) && is_sum(kept, added, v));
        }
        row.push(v);
        i += 1;
    }
    row
}

/// `C = beta C + alpha A Bᵗ`, over the last two dimensions.
///
/// The last two dimensions of `A`, `B` and `C` are `[m, k]`, `[n, k]`
/// and `[m, n]`; the leading dimensions, equal in the three, count
/// independent batches. Row `r` of `C` lies in batch `r / m`; its column
/// `i` pairs row `r` of `A` with row `i` of that batch of `B`.
pub fn matmul_transb<T: Scalar>(c: &mut Tensor<T>, beta: T, a: &Tensor<T>, b: &Tensor<T>, alpha: T)
    requires
        old(c).wf(),
        a.wf(),
        b.wf(),
        a.dims().len() >= 2,
        a.dims().len() == b.dims().len(),
        a.dims().len() == old(c).dims().len(),
        a.cols() == b.cols(),
        old(c).cols() == b.dims()[b.dims().len() - 2],
        a.dims()[a.dims().len() - 2] == old(c).dims()[a.dims().len() - 2],
        a.dims().take(a.dims().len() - 2) =~= old(c).dims().take(a.dims().len() - 2),
        b.dims().take(a.dims().len() - 2) =~= old(c).dims().take(a.dims().len() - 2),
    ensures
        final(c).dims() == old(c).dims(),
        is_matmul_transb(
            old(c)@,
            beta,
            a@,
            b@,
            alpha,
            old(c).dims()[old(c).dims().len() - 2] as int,
            old(c).dims().last() as int,
            a.dims().last() as int,
            final(c)@,
        ),
{
    let ndim = a.shape().len();
    let m = c.shape()[ndim - 2];
    let n = c.shape()[ndim - 1];
    let k = a.shape()[ndim - 1];
    let len = c.size();
    if n == 0 || len == 0 {
        return ;
    }
    let rows = len / n;
    let a_len = a.size();
    let b_len = b.size();
    let ghost batches = shape_product(c.dims().take(ndim - 2));
    proof {
        lemma_nonempty_dims(c.dims());
        lemma_product_of_batches(c.dims());
        lemma_product_of_batches(a.dims());
        lemma_product_of_batches(b.dims());
        assert(len == (batches * m) * n);
        assert(a_len == (batches * m) * k);
        assert(b_len == (batches * n) * k);
        assert(rows == batches * m) by (nonlinear_arith)
            requires
                len == (batches * m) * n,
                rows == len / n,
                n > 0,
        ;
    }
    let mut r: usize = 0;
    while r < rows
        invariant
            r <= rows,
            m >= 1,
            n >= 1,
            n == c.cols(),
            n == old(c).cols(),
            k == a.cols(),
            k == b.cols(),
            m == old(c).dims()[old(c).dims().len() - 2],
            len == c@.len(),
            len == old(c)@.len(),
            a_len == a@.len(),
            b_len == b@.len(),
            rows == len / n,
            rows == batches * m,
            len == (batches * m) * n,
            a_len == (batches * m) * k,
            b_len == (batches * n) * k,
            c.dims() == old(c).dims(),
            forall|q: int|
                r <= q < rows ==> #[trigger] row_of(c@, n as int, q) == row_of(
                    old(c)@,
                    n as int,
                    q,
                ),
            forall|q: int|
                0 <= q < r ==> is_matmul_row(
                    beta,
                    row_of(old(c)@, n as int, q),
                    alpha,
                    row_of(a@, k as int, q),
                    b@,
                    k as int,
                    (q / (m as int)) * n,
                    #[trigger] row_of(c@, n as int, q),
                ),
        decreases rows - r,
    {
        let batch = r / m;
        proof {
            lemma_row_bounds(len as int, n as int, r as int);
            assert(0 <= r * k && (r + 1) * k == r * k + k && (r + 1) * k <= (batches * m) * k)
                by (nonlinear_arith)
                requires
                    r < batches * m,
            ;
            assert(batch < batches) by (nonlinear_arith)
                requires
                    batch == r / m,
                    r < batches * m,
                    m >= 1,
            ;
            assert(0 <= batch * n && batch * n + n <= batches * n && (batch * n + n) * k <= (batches
                * n) * k && batches * n <= (batches * m) * n) by (nonlinear_arith)
                requires
                    0 <= batch < batches,
                    m >= 1,
            ;
        }
        let c_start = r * n;
        let a_start = r * k;
        let first = batch * n;
        let ghost before = c@;
        assert(row_of(c@, n as int, r as int) == row_of(old(c)@, n as int, r as int));
        let row = matmul_row(c, c_start, n, beta, alpha, a.data(), a_start, b.data(), first, k);
        c.write_at(c_start, &row);
        proof {
            lemma_row_written(before, c@, n as int, r as int, row@);
        }
        r += 1;
    }
}

/// `r` is the logistic function of `x`: one over one plus the
/// exponential of `-x`.
pub open spec fn is_sigmoid<T: Scalar>(x: T, r: T) -> bool {
    exists|n: T, e: T, one: T, d: T|
        is_negation(x, n) && is_exp(n, e) && is_one(one) && is_sum(one, e, d) && is_quotient(
            one,
            d,
            r,
        )
}

/// The logistic function.
pub fn sigmoid<T: Scalar>(x: T) -> (r: T)
    ensures
        is_sigmoid(x, r),
{
    let n = x.neg();
    let e = n.exp();
    let one = T::one();
    let d = one.add(e);
    let r = one.div(d);
    assert(is_negation(x, n) && is_exp(n, e) && is_one(one) && is_sum(one, e, d) && is_quotient(
        one,
        d,
        r,
    ));
    r
}

/// `r` is `up` gated by `gate`: the logistic function of `gate`, times
/// `gate`, times `up`.
pub open spec fn is_gated<T: Scalar>(gate: T, up: T, r: T) -> bool {
    exists|s: T, g: T| is_sigmoid(gate, s) && is_product(s, gate, g) && is_product(g, up, r)
}

/// Every element of `after` is the same element of `before`, gated by
/// the same element of `x`.
pub open spec fn is_gated_by<T: Scalar>(x: Seq<T>, before: Seq<T>, after: Seq<T>) -> bool {
    &&& after.len() == before.len()
    &&& forall|i: int| 0 <= i < x.len() ==> is_gated(x[i], before[i], #[trigger] after[i])
}

/// Gates `y` by `x`, element by element, in place.
pub fn silu<T: Scalar>(y: &mut Tensor<T>, x: &Tensor<T>)
    requires
        old(y)@.len() == x@.len(),
    ensures
        final(y).dims() == old(y).dims(),
        is_gated_by(x@, old(y)@, final(y)@),
{
    let len = y.size();
    let mut i: usize = 0;
    while i < len
        invariant
            i <= len,
            len == x@.len(),
            y@.len() == len,
            y.dims() == old(y).dims(),
            forall|k: int| 0 <= k < i ==> is_gated(x@[k], old(y)@[k], #[trigger] y@[k]),
            forall|k: int| i <= k < len ==> y@[k] == old(y)@[k],
        decreases len - i,
    {
        let gate = x.data()[i];
        let up = y.data()[i];
        let s = sigmoid(gate);
        let g = s.mul(gate);
        let r = g.mul(up);
        assert(is_gated(gate, up, r)) by {
            assert(is_sigmoid(gate, s) && is_product(s, gate, g) && is_product(g, up, r));
        }
        y.set(i, r);
        i += 1;
    }
}

/// The inner product of two tensors, read as vectors.
pub fn dot<T: Scalar>(x: &Tensor<T>, y: &Tensor<T>) -> (total: T)
    requires
        x@.len() == y@.len(),
    ensures
        is_dot(x@, y@, total),
{
    let len = x.size();
    let total = dot_of(x.data(), 0, y.data(), 0, len);
    assert(x@.subrange(0, len as int) =~= x@);
    assert(y@.subrange(0, len as int) =~= y@);
    total
}

/// Samples a token from the logits `x`.
///
/// When the temperature or `top_p` is not positive, or `top_k` is below
/// two, the sample is the first position of the greatest logit.
/// Otherwise the candidates are put in sampling order, and a random
/// threshold picks the first of them whose running total of weights
/// reaches it; the threshold lies below both the mass of the first
/// `top_k` candidates and the share `top_p` of the whole mass.
pub fn random_sample<T: Scalar>(x: &Tensor<T>, top_p: T, top_k: u32, temperature: T) -> (tok: u32)
    requires
        x.dims().len() > 0,
        x.dims().last() == x@.len(),
        0 < x@.len() <= u32::MAX,
    ensures
        tok < x@.len(),
        exists|bits: u32| is_sample(x@, top_p, top_k, temperature, bits, tok),
{
    sample_from(x.data(), top_p, top_k, temperature, Entropy::Fresh)
}

} // verus!
