//! What the contracts say when the arithmetic is exact.
//!
//! The kernels' contracts relate a result to its operands through the
//! operations of the element type. Where each of those operations has
//! one outcome only, each kernel has one result only: the same inputs
//! give the same output, and for the sampler the same random bits give
//! the same token.

use crate::operators::{
    is_angle, is_causal_softmax, is_gated, is_gated_by, is_matmul_entry, is_matmul_row,
    is_matmul_transb, is_rms_normed, is_rms_row, is_rms_scale, is_roped, is_rope_row,
    is_rotation, is_shifted_exp, is_sigmoid, is_softmax_row, is_turned, is_weighted, row_count,
};
use crate::reduce::{are_products, is_dot, is_max_of, is_sum_of};
use crate::sampling::{
    are_ranks, cutoff_rank, is_argmax, is_cumulative, is_draw, is_nonpositive, is_sample,
    is_sampling_order, is_selected, is_threshold, is_weight_step, lemma_argmax_unique,
    lemma_sampling_order_unique,
};
use crate::scalar::{
    is_abs, is_difference, is_exp, is_from_usize, is_le, is_max, is_min, is_negation, is_one,
    is_power, is_product, is_quotient, is_rank, is_sin_cos, is_sqrt, is_sum, is_uniform, is_zero,
    Scalar,
};
use crate::tensor::{lemma_row_bounds, row_of};
use vstd::prelude::*;

verus! {

/// Every operation of the element type has one outcome only.
pub open spec fn is_exact<T: Scalar>() -> bool {
    &&& forall|r: T, q: T| is_zero(r) && is_zero(q) ==> r == q
    &&& forall|r: T, q: T| is_one(r) && is_one(q) ==> r == q
    &&& forall|n: usize, r: T, q: T| is_from_usize(n, r) && is_from_usize(n, q) ==> r == q
    &&& forall|n: u32, r: T, q: T| is_uniform(n, r) && is_uniform(n, q) ==> r == q
    &&& forall|a: T, b: T, r: T, q: T| is_sum(a, b, r) && is_sum(a, b, q) ==> r == q
    &&& forall|a: T, b: T, r: T, q: T| is_difference(a, b, r) && is_difference(a, b, q) ==> r == q
    &&& forall|a: T, b: T, r: T, q: T| is_product(a, b, r) && is_product(a, b, q) ==> r == q
    &&& forall|a: T, b: T, r: T, q: T| is_quotient(a, b, r) && is_quotient(a, b, q) ==> r == q
    &&& forall|a: T, r: T, q: T| is_negation(a, r) && is_negation(a, q) ==> r == q
    &&& forall|a: T, r: T, q: T| is_abs(a, r) && is_abs(a, q) ==> r == q
    &&& forall|a: T, r: T, q: T| is_exp(a, r) && is_exp(a, q) ==> r == q
    &&& forall|a: T, r: T, q: T| is_sqrt(a, r) && is_sqrt(a, q) ==> r == q
    &&& forall|a: T, b: T, r: T, q: T| is_power(a, b, r) && is_power(a, b, q) ==> r == q
    &&& forall|a: T, s: T, c: T, t: T, d: T|
        is_sin_cos(a, s, c) && is_sin_cos(a, t, d) ==> s == t && c == d
    &&& forall|a: T, b: T, r: T, q: T| is_max(a, b, r) && is_max(a, b, q) ==> r == q
    &&& forall|a: T, b: T, r: T, q: T| is_min(a, b, r) && is_min(a, b, q) ==> r == q
    &&& forall|a: T, b: T, r: bool, q: bool| is_le(a, b, r) && is_le(a, b, q) ==> r == q
    &&& forall|a: T, r: u64, q: u64| is_rank(a, r) && is_rank(a, q) ==> r == q
}

/// A sum has one value.
pub proof fn lemma_sum_of_unique<T: Scalar>(terms: Seq<T>, r: T, q: T)
    requires
        is_exact::<T>(),
        is_sum_of(terms, r),
        is_sum_of(terms, q),
    ensures
        r == q,
    decreases terms.len(),
{
    if terms.len() > 0 {
        let a = choose|acc: T|
            is_sum_of(terms.drop_last(), acc) && #[trigger] is_sum(acc, terms.last(), r);
        let b = choose|acc: T|
            is_sum_of(terms.drop_last(), acc) && #[trigger] is_sum(acc, terms.last(), q);
        lemma_sum_of_unique(terms.drop_last(), a, b);
    }
}

/// A maximum has one value.
pub proof fn lemma_max_of_unique<T: Scalar>(first: T, terms: Seq<T>, r: T, q: T)
    requires
        is_exact::<T>(),
        is_max_of(first, terms, r),
        is_max_of(first, terms, q),
    ensures
        r == q,
    decreases terms.len(),
{
    if terms.len() > 0 {
        let a = choose|acc: T|
            is_max_of(first, terms.drop_last(), acc) && #[trigger] is_max(acc, terms.last(), r);
        let b = choose|acc: T|
            is_max_of(first, terms.drop_last(), acc) && #[trigger] is_max(acc, terms.last(), q);
        lemma_max_of_unique(first, terms.drop_last(), a, b);
    }
}

/// An inner product has one value.
pub proof fn lemma_dot_unique<T: Scalar>(a: Seq<T>, b: Seq<T>, r: T, q: T)
    requires
        is_exact::<T>(),
        is_dot(a, b, r),
        is_dot(a, b, q),
    ensures
        r == q,
{
    let p = choose|p: Seq<T>| are_products(a, b, p) && is_sum_of(p, r);
    let o = choose|p: Seq<T>| are_products(a, b, p) && is_sum_of(p, q);
    assert forall|j: int| 0 <= j < p.len() implies p[j] == o[j] by {
        assert(is_product(a[j], b[j], p[j]) && is_product(a[j], b[j], o[j]));
    }
    assert(p =~= o);
    lemma_sum_of_unique(p, r, q);
}

/// The logistic function has one value.
pub proof fn lemma_sigmoid_unique<T: Scalar>(x: T, r: T, q: T)
    requires
        is_exact::<T>(),
        is_sigmoid(x, r),
        is_sigmoid(x, q),
    ensures
        r == q,
{
    let (n1, e1, o1, d1) = choose|n: T, e: T, one: T, d: T|
        is_negation(x, n) && is_exp(n, e) && is_one(one) && is_sum(one, e, d) && is_quotient(
            one,
            d,
            r,
        );
    let (n2, e2, o2, d2) = choose|n: T, e: T, one: T, d: T|
        is_negation(x, n) && is_exp(n, e) && is_one(one) && is_sum(one, e, d) && is_quotient(
            one,
            d,
            q,
        );
    assert(n1 == n2);
    assert(e1 == e2);
    assert(o1 == o2);
    assert(d1 == d2);
}

/// A gated value has one value.
pub proof fn lemma_gated_unique<T: Scalar>(gate: T, up: T, r: T, q: T)
    requires
        is_exact::<T>(),
        is_gated(gate, up, r),
        is_gated(gate, up, q),
    ensures
        r == q,
{
    let (s1, g1) = choose|s: T, g: T|
        is_sigmoid(gate, s) && is_product(s, gate, g) && is_product(g, up, r);
    let (s2, g2) = choose|s: T, g: T|
        is_sigmoid(gate, s) && is_product(s, gate, g) && is_product(g, up, q);
    lemma_sigmoid_unique(gate, s1, s2);
    assert(g1 == g2);
}

/// Gating has one result.
pub proof fn lemma_gated_by_unique<T: Scalar>(x: Seq<T>, before: Seq<T>, y: Seq<T>, z: Seq<T>)
    requires
        is_exact::<T>(),
        x.len() == before.len(),
        is_gated_by(x, before, y),
        is_gated_by(x, before, z),
    ensures
        y == z,
{
    assert forall|i: int| 0 <= i < y.len() implies y[i] == z[i] by {
        assert(is_gated(x[i], before[i], y[i]));
        assert(is_gated(x[i], before[i], z[i]));
        lemma_gated_unique(x[i], before[i], y[i], z[i]);
    }
    assert(y =~= z);
}

/// The scale of a row has one value.
pub proof fn lemma_rms_scale_unique<T: Scalar>(row: Seq<T>, epsilon: T, r: T, q: T)
    requires
        is_exact::<T>(),
        is_rms_scale(row, epsilon, r),
        is_rms_scale(row, epsilon, q),
    ensures
        r == q,
{
    let (s1, n1, m1, h1) = choose|squares: T, n: T, mean: T, shifted: T|
        is_dot(row, row, squares) && is_from_usize(row.len() as usize, n) && is_quotient(
            squares,
            n,
            mean,
        ) && is_sum(mean, epsilon, shifted) && is_sqrt(shifted, r);
    let (s2, n2, m2, h2) = choose|squares: T, n: T, mean: T, shifted: T|
        is_dot(row, row, squares) && is_from_usize(row.len() as usize, n) && is_quotient(
            squares,
            n,
            mean,
        ) && is_sum(mean, epsilon, shifted) && is_sqrt(shifted, q);
    lemma_dot_unique(row, row, s1, s2);
    assert(n1 == n2);
    assert(m1 == m2);
    assert(h1 == h2);
}

/// A normalized row has one value.
pub proof fn lemma_rms_row_unique<T: Scalar>(x: Seq<T>, w: Seq<T>, epsilon: T, y: Seq<T>, z: Seq<T>)
    requires
        is_exact::<T>(),
        is_rms_row(x, w, epsilon, y),
        is_rms_row(x, w, epsilon, z),
    ensures
        y == z,
{
    let s1 = choose|scale: T|
        #![trigger is_rms_scale(x, epsilon, scale)]
        {
            &&& is_rms_scale(x, epsilon, scale)
            &&& forall|i: int|
                0 <= i < x.len() ==> is_weighted(w[i], x[i], scale, #[trigger] y[i])
        };
    let s2 = choose|scale: T|
        #![trigger is_rms_scale(x, epsilon, scale)]
        {
            &&& is_rms_scale(x, epsilon, scale)
            &&& forall|i: int|
                0 <= i < x.len() ==> is_weighted(w[i], x[i], scale, #[trigger] z[i])
        };
    lemma_rms_scale_unique(x, epsilon, s1, s2);
    assert forall|i: int| 0 <= i < y.len() implies y[i] == z[i] by {
        assert(is_weighted(w[i], x[i], s1, y[i]));
        assert(is_weighted(w[i], x[i], s1, z[i]));
        let p1 = choose|p: T| is_product(w[i], x[i], p) && is_quotient(p, s1, y[i]);
        let p2 = choose|p: T| is_product(w[i], x[i], p) && is_quotient(p, s1, z[i]);
        assert(p1 == p2);
    }
    assert(y =~= z);
}

/// Two buffers of whole rows that agree row by row are the same buffer.
pub proof fn lemma_equal_by_rows<T>(y: Seq<T>, z: Seq<T>, cols: int)
    requires
        cols > 0,
        y.len() == z.len(),
        y.len() % (cols as nat) == 0,
        forall|r: int| 0 <= r < row_count(y.len(), cols) ==> #[trigger] row_of(y, cols, r) == row_of(z, cols, r),
    ensures
        y == z,
{
    let len = y.len() as int;
    assert forall|i: int| 0 <= i < len implies y[i] == z[i] by {
        let r = i / cols;
        assert(0 <= r < len / cols && r * cols <= i < r * cols + cols) by (nonlinear_arith)
            requires
                0 <= i < len,
                cols > 0,
                r == i / cols,
                len % cols == 0,
        ;
        lemma_row_bounds(len, cols, r);
        assert(row_of(y, cols, r) == row_of(z, cols, r));
        assert(y[i] == row_of(y, cols, r)[i - r * cols]);
        assert(z[i] == row_of(z, cols, r)[i - r * cols]);
    }
    assert(y =~= z);
}

/// Normalization has one result.
pub proof fn lemma_rms_normed_unique<T: Scalar>(x: Seq<T>, w: Seq<T>, epsilon: T, y: Seq<T>, z: Seq<T>)
    requires
        is_exact::<T>(),
        w.len() > 0,
        x.len() % w.len() == 0,
        is_rms_normed(x, w, epsilon, y),
        is_rms_normed(x, w, epsilon, z),
    ensures
        y == z,
{
    let cols = w.len() as int;
    assert forall|r: int| 0 <= r < row_count(y.len(), cols) implies #[trigger] row_of(y, cols, r)
        == row_of(z, cols, r) by {
        lemma_rms_row_unique(row_of(x, cols, r), w, epsilon, row_of(y, cols, r), row_of(z, cols, r));
    }
    lemma_equal_by_rows(y, z, cols);
}

/// An entry of a matrix product has one value.
pub proof fn lemma_matmul_entry_unique<T: Scalar>(
    beta: T,
    c: T,
    alpha: T,
    a_row: Seq<T>,
    b_row: Seq<T>,
    r: T,
    q: T,
)
    requires
        is_exact::<T>(),
        is_matmul_entry(beta, c, alpha, a_row, b_row, r),
        is_matmul_entry(beta, c, alpha, a_row, b_row, q),
    ensures
        r == q,
{
    let (s1, k1, a1) = choose|s: T, kept: T, added: T|
        is_dot(a_row, b_row, s) && is_product(beta, c, kept) && is_product(alpha, s, added)
            && is_sum(kept, added, r);
    let (s2, k2, a2) = choose|s: T, kept: T, added: T|
        is_dot(a_row, b_row, s) && is_product(beta, c, kept) && is_product(alpha, s, added)
            && is_sum(kept, added, q);
    lemma_dot_unique(a_row, b_row, s1, s2);
    assert(k1 == k2);
    assert(a1 == a2);
}

/// A matrix product has one result.
pub proof fn lemma_matmul_transb_unique<T: Scalar>(
    before: Seq<T>,
    beta: T,
    a: Seq<T>,
    b: Seq<T>,
    alpha: T,
    m: int,
    n: int,
    k: int,
    y: Seq<T>,
    z: Seq<T>,
)
    requires
        is_exact::<T>(),
        n > 0,
        before.len() % (n as nat) == 0,
        is_matmul_transb(before, beta, a, b, alpha, m, n, k, y),
        is_matmul_transb(before, beta, a, b, alpha, m, n, k, z),
    ensures
        y == z,
{
    assert forall|r: int| 0 <= r < row_count(y.len(), n) implies #[trigger] row_of(y, n, r)
        == row_of(z, n, r) by {
        let u = row_of(y, n, r);
        let v = row_of(z, n, r);
        let c = row_of(before, n, r);
        assert(is_matmul_row(beta, c, alpha, row_of(a, k, r), b, k, (r / m) * n, u));
        assert(is_matmul_row(beta, c, alpha, row_of(a, k, r), b, k, (r / m) * n, v));
        assert forall|i: int| 0 <= i < u.len() implies u[i] == v[i] by {
            lemma_matmul_entry_unique(
                beta,
                c[i],
                alpha,
                row_of(a, k, r),
                row_of(b, k, (r / m) * n + i),
                u[i],
                v[i],
            );
        }
        assert(u =~= v);
    }
    lemma_equal_by_rows(y, z, n);
}

/// A row of the causal softmax has one value.
pub proof fn lemma_softmax_row_unique<T: Scalar>(x: Seq<T>, boundary: int, y: Seq<T>, z: Seq<T>)
    requires
        is_exact::<T>(),
        is_softmax_row(x, boundary, y),
        is_softmax_row(x, boundary, z),
    ensures
        y == z,
{
    let (t1, w1, m1) = choose|top: T, weights: Seq<T>, mass: T|
        #![trigger is_max_of(x[0], x.take(boundary), top), is_sum_of(weights, mass)]
        {
            &&& is_max_of(x[0], x.take(boundary), top)
            &&& weights.len() == boundary
            &&& forall|j: int|
                0 <= j < boundary ==> is_shifted_exp(x[j], top, #[trigger] weights[j])
            &&& is_sum_of(weights, mass)
            &&& forall|j: int| 0 <= j < boundary ==> is_quotient(weights[j], mass, #[trigger] y[j])
        };
    let (t2, w2, m2) = choose|top: T, weights: Seq<T>, mass: T|
        #![trigger is_max_of(x[0], x.take(boundary), top), is_sum_of(weights, mass)]
        {
            &&& is_max_of(x[0], x.take(boundary), top)
            &&& weights.len() == boundary
            &&& forall|j: int|
                0 <= j < boundary ==> is_shifted_exp(x[j], top, #[trigger] weights[j])
            &&& is_sum_of(weights, mass)
            &&& forall|j: int| 0 <= j < boundary ==> is_quotient(weights[j], mass, #[trigger] z[j])
        };
    lemma_max_of_unique(x[0], x.take(boundary), t1, t2);
    assert forall|j: int| 0 <= j < w1.len() implies w1[j] == w2[j] by {
        assert(is_shifted_exp(x[j], t1, w1[j]) && is_shifted_exp(x[j], t1, w2[j]));
        let d1 = choose|d: T| is_difference(x[j], t1, d) && is_exp(d, w1[j]);
        let d2 = choose|d: T| is_difference(x[j], t1, d) && is_exp(d, w2[j]);
        assert(d1 == d2);
    }
    assert(w1 =~= w2);
    lemma_sum_of_unique(w1, m1, m2);
    assert forall|j: int| 0 <= j < y.len() implies y[j] == z[j] by {
        if j < boundary {
            assert(is_quotient(w1[j], m1, y[j]) && is_quotient(w1[j], m1, z[j]));
        } else {
            assert(is_zero(y[j]) && is_zero(z[j]));
        }
    }
    assert(y =~= z);
}

/// The causal softmax has one result.
pub proof fn lemma_causal_softmax_unique<T: Scalar>(
    before: Seq<T>,
    seq_len: int,
    total_seq_len: int,
    y: Seq<T>,
    z: Seq<T>,
)
    requires
        is_exact::<T>(),
        total_seq_len > 0,
        before.len() % (total_seq_len as nat) == 0,
        is_causal_softmax(before, seq_len, total_seq_len, y),
        is_causal_softmax(before, seq_len, total_seq_len, z),
    ensures
        y == z,
{
    let n = total_seq_len;
    assert forall|r: int| 0 <= r < row_count(y.len(), n) implies #[trigger] row_of(y, n, r)
        == row_of(z, n, r) by {
        lemma_softmax_row_unique(
            row_of(before, n, r),
            crate::operators::causal_boundary(seq_len, n, r % seq_len),
            row_of(y, n, r),
            row_of(z, n, r),
        );
    }
    lemma_equal_by_rows(y, z, n);
}

/// A pair has one rotation.
pub proof fn lemma_rotation_unique<T: Scalar>(
    pos: usize,
    i: usize,
    d: usize,
    theta: T,
    a: T,
    b: T,
    a1: T,
    b1: T,
    a2: T,
    b2: T,
)
    requires
        is_exact::<T>(),
        is_rotation(pos, i, d, theta, a, b, a1, b1),
        is_rotation(pos, i, d, theta, a, b, a2, b2),
    ensures
        a1 == a2,
        b1 == b2,
{
    let (f1, s1, c1) = choose|freq: T, sin: T, cos: T|
        is_angle(pos, i, d, theta, freq) && is_sin_cos(freq, sin, cos) && is_turned(
            a,
            b,
            sin,
            cos,
            a1,
            b1,
        );
    let (f2, s2, c2) = choose|freq: T, sin: T, cos: T|
        is_angle(pos, i, d, theta, freq) && is_sin_cos(freq, sin, cos) && is_turned(
            a,
            b,
            sin,
            cos,
            a2,
            b2,
        );
    assert(f1 == f2) by {
        let (p1, n1, m1, e1, k1) = choose|p: T, n: T, m: T, e: T, k: T|
            is_from_usize(pos, p) && is_from_usize((2 * i) as usize, n) && is_from_usize(d, m)
                && is_quotient(n, m, e) && is_power(theta, e, k) && is_quotient(p, k, f1);
        let (p2, n2, m2, e2, k2) = choose|p: T, n: T, m: T, e: T, k: T|
            is_from_usize(pos, p) && is_from_usize((2 * i) as usize, n) && is_from_usize(d, m)
                && is_quotient(n, m, e) && is_power(theta, e, k) && is_quotient(p, k, f2);
        assert(p1 == p2 && n1 == n2 && m1 == m2);
        assert(e1 == e2);
        assert(k1 == k2);
    }
    assert(s1 == s2 && c1 == c2);
    let (ac1, bs1, bc1, sa1) = choose|ac: T, bs: T, bc: T, sa: T|
        is_product(a, c1, ac) && is_product(b, s1, bs) && is_difference(ac, bs, a1) && is_product(
            b,
            c1,
            bc,
        ) && is_product(a, s1, sa) && is_sum(bc, sa, b1);
    let (ac2, bs2, bc2, sa2) = choose|ac: T, bs: T, bc: T, sa: T|
        is_product(a, c1, ac) && is_product(b, s1, bs) && is_difference(ac, bs, a2) && is_product(
            b,
            c1,
            bc,
        ) && is_product(a, s1, sa) && is_sum(bc, sa, b2);
    assert(ac1 == ac2 && bs1 == bs2 && bc1 == bc2 && sa1 == sa2);
}

/// A vector of even length has one rotary embedding.
pub proof fn lemma_rope_row_unique<T: Scalar>(pos: usize, theta: T, before: Seq<T>, y: Seq<T>, z: Seq<T>)
    requires
        is_exact::<T>(),
        before.len() % 2 == 0,
        before.len() <= usize::MAX,
        is_rope_row(pos, theta, before, y),
        is_rope_row(pos, theta, before, z),
    ensures
        y == z,
{
    let d = before.len() as int;
    let half = d / 2;
    assert forall|k: int| 0 <= k < d implies y[k] == z[k] by {
        let i = if k < half {
            k
        } else {
            k - half
        };
        // `y[i]` and `z[i]` name the pair that holds element `k`
        let u = y[i];
        let v = z[i];
        lemma_rotation_unique(
            pos,
            i as usize,
            d as usize,
            theta,
            before[i],
            before[i + half],
            y[i],
            y[i + half],
            z[i],
            z[i + half],
        );
    }
    assert(y =~= z);
}

/// The rotary embedding has one result.
pub proof fn lemma_roped_unique<T: Scalar>(
    before: Seq<T>,
    n_heads: int,
    d: int,
    start_pos: int,
    theta: T,
    y: Seq<T>,
    z: Seq<T>,
)
    requires
        is_exact::<T>(),
        0 < d <= usize::MAX,
        d % 2 == 0,
        before.len() % (d as nat) == 0,
        is_roped(before, n_heads, d, start_pos, theta, y),
        is_roped(before, n_heads, d, start_pos, theta, z),
    ensures
        y == z,
{
    assert forall|r: int| 0 <= r < row_count(y.len(), d) implies #[trigger] row_of(y, d, r)
        == row_of(z, d, r) by {
        lemma_row_bounds(before.len() as int, d, r);
        lemma_rope_row_unique(
            (start_pos + r / n_heads) as usize,
            theta,
            row_of(before, d, r),
            row_of(y, d, r),
            row_of(z, d, r),
        );
    }
    lemma_equal_by_rows(y, z, d);
}

/// The running totals of the weights have one value each.
pub proof fn lemma_cumulative_unique<T: Scalar>(
    values: Seq<T>,
    order: Seq<u32>,
    temperature: T,
    a: Seq<T>,
    b: Seq<T>,
)
    requires
        is_exact::<T>(),
        is_cumulative(values, order, temperature, a),
        is_cumulative(values, order, temperature, b),
    ensures
        a == b,
{
    assert forall|i: int| 0 <= i < a.len() implies a[i] == b[i] by {
        lemma_cumulative_agree(values, order, temperature, a, b, i);
    }
    assert(a =~= b);
}

proof fn lemma_cumulative_agree<T: Scalar>(
    values: Seq<T>,
    order: Seq<u32>,
    temperature: T,
    a: Seq<T>,
    b: Seq<T>,
    i: int,
)
    requires
        is_exact::<T>(),
        is_cumulative(values, order, temperature, a),
        is_cumulative(values, order, temperature, b),
        0 <= i < a.len(),
    ensures
        a[i] == b[i],
    decreases i,
{
    if i > 0 {
        lemma_cumulative_agree(values, order, temperature, a, b, i - 1);
        let value = values[order[i] as int];
        let top = values[order[0] as int];
        let prev = a[i - 1];
        assert(is_weight_step(prev, value, top, temperature, a[i]));
        assert(is_weight_step(prev, value, top, temperature, b[i]));
        let (d1, q1, e1) = choose|d: T, q: T, e: T|
            is_difference(value, top, d) && is_quotient(d, temperature, q) && is_exp(q, e)
                && is_sum(prev, e, a[i]);
        let (d2, q2, e2) = choose|d: T, q: T, e: T|
            is_difference(value, top, d) && is_quotient(d, temperature, q) && is_exp(q, e)
                && is_sum(prev, e, b[i]);
        assert(d1 == d2);
        assert(q1 == q2);
        assert(e1 == e2);
    } else {
        assert(is_one(a[0]) && is_one(b[0]));
    }
}

/// A sample is determined by the logits, the settings and the random
/// bits.
pub proof fn lemma_sample_unique<T: Scalar>(
    values: Seq<T>,
    top_p: T,
    top_k: u32,
    temperature: T,
    bits: u32,
    a: u32,
    b: u32,
)
    requires
        is_exact::<T>(),
        is_sample(values, top_p, top_k, temperature, bits, a),
        is_sample(values, top_p, top_k, temperature, bits, b),
    ensures
        a == b,
{
    let (r1, cold1, flat1) = choose|ranks: Seq<u64>, cold: bool, flat: bool|
        #![trigger are_ranks(values, ranks), is_nonpositive(temperature, cold), is_nonpositive(top_p, flat)]
        {
            &&& are_ranks(values, ranks)
            &&& is_nonpositive(temperature, cold)
            &&& is_nonpositive(top_p, flat)
            &&& if cold || top_k < 2 || flat {
                is_argmax(ranks, a as int)
            } else {
                exists|draw: T|
                    is_uniform(bits, draw) && is_draw(
                        values,
                        ranks,
                        top_p,
                        top_k,
                        temperature,
                        draw,
                        a,
                    )
            }
        };
    let (r2, cold2, flat2) = choose|ranks: Seq<u64>, cold: bool, flat: bool|
        #![trigger are_ranks(values, ranks), is_nonpositive(temperature, cold), is_nonpositive(top_p, flat)]
        {
            &&& are_ranks(values, ranks)
            &&& is_nonpositive(temperature, cold)
            &&& is_nonpositive(top_p, flat)
            &&& if cold || top_k < 2 || flat {
                is_argmax(ranks, b as int)
            } else {
                exists|draw: T|
                    is_uniform(bits, draw) && is_draw(
                        values,
                        ranks,
                        top_p,
                        top_k,
                        temperature,
                        draw,
                        b,
                    )
            }
        };
    assert forall|i: int| 0 <= i < r1.len() implies r1[i] == r2[i] by {
        assert(is_rank(values[i], r1[i]) && is_rank(values[i], r2[i]));
    }
    assert(r1 =~= r2);
    lemma_nonpositive_unique(temperature, cold1, cold2);
    lemma_nonpositive_unique(top_p, flat1, flat2);
    if cold1 || top_k < 2 || flat1 {
        lemma_argmax_unique(r1, a as int, b as int);
    } else {
        let d1 = choose|draw: T|
            is_uniform(bits, draw) && is_draw(values, r1, top_p, top_k, temperature, draw, a);
        let d2 = choose|draw: T|
            is_uniform(bits, draw) && is_draw(values, r1, top_p, top_k, temperature, draw, b);
        assert(d1 == d2);
        lemma_draw_unique(values, r1, top_p, top_k, temperature, d1, a, b);
    }
}

proof fn lemma_nonpositive_unique<T: Scalar>(a: T, p: bool, q: bool)
    requires
        is_exact::<T>(),
        is_nonpositive(a, p),
        is_nonpositive(a, q),
    ensures
        p == q,
{
    let z1 = choose|z: T| is_zero(z) && is_le(a, z, p);
    let z2 = choose|z: T| is_zero(z) && is_le(a, z, q);
    assert(z1 == z2);
}

/// A draw is determined by the logits, their ranks, the settings and the
/// unit-interval value.
pub proof fn lemma_draw_unique<T: Scalar>(
    values: Seq<T>,
    ranks: Seq<u64>,
    top_p: T,
    top_k: u32,
    temperature: T,
    draw: T,
    a: u32,
    b: u32,
)
    requires
        is_exact::<T>(),
        is_draw(values, ranks, top_p, top_k, temperature, draw, a),
        is_draw(values, ranks, top_p, top_k, temperature, draw, b),
    ensures
        a == b,
{
    let (o1, c1, l1, at1) = choose|order: Seq<u32>, cum: Seq<T>, limit: T, at: int|
        #![trigger is_sampling_order(ranks, order), is_selected(cum, limit, at)]
        {
            &&& is_sampling_order(ranks, order)
            &&& is_cumulative(values, order, temperature, cum)
            &&& is_threshold(cum, top_p, top_k, draw, limit)
            &&& is_selected(cum, limit, at)
            &&& a == order[at]
        };
    let (o2, c2, l2, at2) = choose|order: Seq<u32>, cum: Seq<T>, limit: T, at: int|
        #![trigger is_sampling_order(ranks, order), is_selected(cum, limit, at)]
        {
            &&& is_sampling_order(ranks, order)
            &&& is_cumulative(values, order, temperature, cum)
            &&& is_threshold(cum, top_p, top_k, draw, limit)
            &&& is_selected(cum, limit, at)
            &&& b == order[at]
        };
    lemma_sampling_order_unique(ranks, o1, o2);
    lemma_cumulative_unique(values, o1, temperature, c1, c2);
    assert(l1 == l2) by {
        let (pp1, cap1) = choose|pp: T, cap: T|
            is_product(c1.last(), top_p, pp) && is_min(
                c1[cutoff_rank(top_k, c1.len())],
                pp,
                cap,
            ) && is_product(draw, cap, l1);
        let (pp2, cap2) = choose|pp: T, cap: T|
            is_product(c1.last(), top_p, pp) && is_min(
                c1[cutoff_rank(top_k, c1.len())],
                pp,
                cap,
            ) && is_product(draw, cap, l2);
        assert(pp1 == pp2);
        assert(cap1 == cap2);
    }
    // the first running total that reaches the limit is one position
    if at1 < at2 {
        assert(is_le(l1, c1[at1], true));
        assert(is_le(l1, c1[at1], false));
    } else if at2 < at1 {
        assert(is_le(l1, c1[at2], true));
        assert(is_le(l1, c1[at2], false));
    }
}

} // verus!
