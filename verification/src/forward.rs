//! The forward pass over new positions.

use crate::kvcache::KVCache;
use crate::model::{is_cube, is_matrix, is_vector, LayerWeights, Llama, LlamaConfig};
use crate::operators::{
    gather, is_causal_softmax, is_gated_by, is_gathered, is_matmul_transb, is_rms_normed,
    is_roped, masked_softmax, matmul_transb, rms_norm, rope, silu,
};
use crate::scalar::{is_from_usize, is_one, is_quotient, is_sqrt, is_zero, Scalar};
use crate::tensor::{
    is_swapped, is_transposed, lemma_product_of_cube, lemma_product_of_matrix,
    lemma_product_of_vector, push_run, row_of, Tensor,
};
use vstd::prelude::*;

verus! {

/// Every element of `buffer` is a zero.
pub open spec fn is_blank<T: Scalar>(buffer: Seq<T>) -> bool {
    forall|i: int| 0 <= i < buffer.len() ==> is_zero(#[trigger] buffer[i])
}

/// `y` is `alpha` times the product of `a` and the transpose of `b`,
/// batch by batch, accumulated onto zeros. The matrices of `a` have `m`
/// rows and `k` columns, those of `b` have `n` rows and `k` columns.
pub open spec fn is_scaled_product<T: Scalar>(
    a: Seq<T>,
    b: Seq<T>,
    alpha: T,
    m: int,
    n: int,
    k: int,
    y: Seq<T>,
) -> bool {
    exists|blank: Seq<T>, zero: T|
        #![trigger is_matmul_transb(blank, zero, a, b, alpha, m, n, k, y)]
        is_blank(blank) && is_zero(zero) && is_matmul_transb(blank, zero, a, b, alpha, m, n, k, y)
}

/// `y = x Wᵗ`, for `x` of `rows` by `inner` and `W` of `outer` by
/// `inner` elements.
pub open spec fn is_projection<T: Scalar>(
    x: Seq<T>,
    w: Seq<T>,
    rows: int,
    inner: int,
    outer: int,
    y: Seq<T>,
) -> bool {
    exists|one: T|
        #![trigger is_scaled_product(x, w, one, rows, outer, inner, y)]
        is_one(one) && is_scaled_product(x, w, one, rows, outer, inner, y)
}

/// `after = before + x Wᵗ`, for `x` of `rows` by `inner` and `W` of
/// `outer` by `inner` elements.
pub open spec fn is_added_projection<T: Scalar>(
    before: Seq<T>,
    x: Seq<T>,
    w: Seq<T>,
    rows: int,
    inner: int,
    outer: int,
    after: Seq<T>,
) -> bool {
    exists|keep: T, one: T|
        #![trigger is_matmul_transb(before, keep, x, w, one, rows, outer, inner, after)]
        is_one(keep) && is_one(one) && is_matmul_transb(
            before,
            keep,
            x,
            w,
            one,
            rows,
            outer,
            inner,
            after,
        )
}

/// `scale` is one over the root of the head dimension.
pub open spec fn is_attention_scale<T: Scalar>(head_dim: usize, scale: T) -> bool {
    exists|one: T, n: T, root: T|
        #![trigger is_sqrt(n, root), is_quotient(one, root, scale)]
        is_one(one) && is_from_usize(head_dim, n) && is_sqrt(n, root) && is_quotient(
            one,
            root,
            scale,
        )
}

/// The intermediate values of an attention block.
pub struct AttentionTrace<T> {
    /// The cached keys, head by head: `[n_kv_heads, total, head_dim]`.
    pub keys: Seq<T>,
    /// The cached values, head by head and transposed:
    /// `[n_kv_heads, head_dim, total]`.
    pub values: Seq<T>,
    /// The queries, head by head: `[n_q_heads, s, head_dim]`.
    pub queries: Seq<T>,
    /// One over the root of the head dimension.
    pub scale: T,
    /// The scaled scores: `[n_q_heads, s, total]`.
    pub scores: Seq<T>,
    /// The attention weights: the causal softmax of the scores.
    pub weights: Seq<T>,
    /// The weighted values, head by head: `[n_q_heads, s, head_dim]`.
    pub mixed: Seq<T>,
}

/// `out`, `[s, n_q_heads * head_dim]`, is the attention of the `s`
/// queries `q`, `[s, n_q_heads, head_dim]`, over the `total` cached
/// positions `keys` and `values`, `[total, n_kv_heads, head_dim]`.
///
/// The query heads that share a key head are multiplied together: they
/// are adjacent, so that each key head meets a matrix of `groups * s`
/// queries.
pub open spec fn is_attention<T: Scalar>(
    c: LlamaConfig,
    q: Seq<T>,
    keys: Seq<T>,
    values: Seq<T>,
    s: int,
    total: int,
    tr: AttentionTrace<T>,
    out: Seq<T>,
) -> bool {
    let hq = c.n_q_heads as int;
    let hkv = c.n_kv_heads as int;
    let dh = c.head_dim as int;
    let gs = (hq / hkv) * s;
    &&& is_swapped(keys, total, hkv, dh, tr.keys)
    &&& is_transposed(values, total, hkv * dh, tr.values)
    &&& is_swapped(q, s, hq, dh, tr.queries)
    &&& is_attention_scale(c.head_dim, tr.scale)
    &&& is_scaled_product(tr.queries, tr.keys, tr.scale, gs, total, dh, tr.scores)
    &&& is_causal_softmax(tr.scores, s, total, tr.weights)
    &&& is_projection(tr.weights, tr.values, gs, total, dh, tr.mixed)
    &&& is_swapped(tr.mixed, hq, s, dh, out)
}

/// The intermediate values of a layer.
pub struct LayerTrace<T> {
    /// The normalized input of the attention block.
    pub normed: Seq<T>,
    /// The query, key and value projections.
    pub q: Seq<T>,
    pub k: Seq<T>,
    pub v: Seq<T>,
    /// The queries and keys after the rotary embedding.
    pub q_roped: Seq<T>,
    pub k_roped: Seq<T>,
    pub attention: AttentionTrace<T>,
    /// The output of the attention, before its projection.
    pub mixed: Seq<T>,
    /// The residual after the attention block.
    pub attended: Seq<T>,
    /// The normalized input of the feed-forward block.
    pub normed_again: Seq<T>,
    /// The two projections of the feed-forward block, and their gated product.
    pub gate: Seq<T>,
    pub up: Seq<T>,
    pub gated: Seq<T>,
}

/// A layer takes the residual `x` of `s` new positions, which follow
/// `past` cached ones, to the residual `y`, and extends its cached keys
/// and values by those of the new positions.
pub open spec fn is_layer<T: Scalar>(
    c: LlamaConfig,
    w: LayerWeights<T>,
    theta: T,
    epsilon: T,
    x: Seq<T>,
    keys_before: Seq<T>,
    values_before: Seq<T>,
    past: int,
    s: int,
    tr: LayerTrace<T>,
    keys_after: Seq<T>,
    values_after: Seq<T>,
    y: Seq<T>,
) -> bool {
    let hq = c.n_q_heads as int;
    let hkv = c.n_kv_heads as int;
    let dh = c.head_dim as int;
    let d = c.hidden_size as int;
    let di = c.intermediate_size as int;
    &&& is_rms_normed(x, w.rms_att_w@, epsilon, tr.normed)
    &&& is_projection(tr.normed, w.wq@, s, d, hq * dh, tr.q)
    &&& is_projection(tr.normed, w.wk@, s, d, hkv * dh, tr.k)
    &&& is_projection(tr.normed, w.wv@, s, d, hkv * dh, tr.v)
    &&& tr.k.len() == s * (hkv * dh)
    &&& tr.v.len() == s * (hkv * dh)
    &&& is_roped(tr.q, hq, dh, past, theta, tr.q_roped)
    &&& is_roped(tr.k, hkv, dh, past, theta, tr.k_roped)
    &&& keys_after == keys_before + tr.k_roped
    &&& values_after == values_before + tr.v
    &&& is_attention(c, tr.q_roped, keys_after, values_after, s, past + s, tr.attention, tr.mixed)
    &&& is_added_projection(x, tr.mixed, w.wo@, s, hq * dh, d, tr.attended)
    &&& is_rms_normed(tr.attended, w.rms_ffn_w@, epsilon, tr.normed_again)
    &&& is_projection(tr.normed_again, w.w_gate@, s, d, di, tr.gate)
    &&& is_projection(tr.normed_again, w.w_up@, s, d, di, tr.up)
    &&& is_gated_by(tr.gate, tr.up, tr.gated)
    &&& is_added_projection(tr.attended, tr.gated, w.w_down@, s, di, d, y)
}

/// A layer extends its cached keys and values by `s` positions, and
/// what it had cached stays in front.
pub proof fn lemma_layer_extends_cache<T: Scalar>(
    c: LlamaConfig,
    w: LayerWeights<T>,
    theta: T,
    epsilon: T,
    x: Seq<T>,
    keys_before: Seq<T>,
    values_before: Seq<T>,
    past: int,
    s: int,
    tr: LayerTrace<T>,
    keys_after: Seq<T>,
    values_after: Seq<T>,
    y: Seq<T>,
)
    requires
        is_layer(
            c,
            w,
            theta,
            epsilon,
            x,
            keys_before,
            values_before,
            past,
            s,
            tr,
            keys_after,
            values_after,
            y,
        ),
    ensures
        keys_after.len() == keys_before.len() + s * c.kv_width(),
        values_after.len() == values_before.len() + s * c.kv_width(),
        keys_before.is_prefix_of(keys_after),
        values_before.is_prefix_of(values_after),
{
    assert(keys_after.subrange(0, keys_before.len() as int) =~= keys_before);
    assert(values_after.subrange(0, values_before.len() as int) =~= values_before);
}

/// The intermediate values of a forward pass.
pub struct ForwardTrace<T> {
    /// The residual before each layer, and after the last one.
    pub residuals: Seq<Seq<T>>,
    /// The intermediate values of each layer.
    pub layers: Seq<LayerTrace<T>>,
    /// The normalized residual of the last position.
    pub normed: Seq<T>,
}

/// A forward pass over `tokens` takes the cache from `before` to
/// `after` and yields `logits`.
///
/// The residual starts as the embeddings of the tokens and passes
/// through the layers in order; the logits are the projection of the
/// normalized residual of the last position.
pub open spec fn is_forward<T: Scalar>(
    m: Llama<T>,
    tokens: Seq<u32>,
    before: KVCache<T>,
    tr: ForwardTrace<T>,
    after: KVCache<T>,
    logits: Seq<T>,
) -> bool {
    let n = m.config.n_layers as int;
    let d = m.config.hidden_size as int;
    let s = tokens.len() as int;
    &&& tr.residuals.len() == n + 1
    &&& tr.layers.len() == n
    &&& tr.residuals[0].len() == s * d
    &&& is_gathered(tokens, m.embedding_table@, d, tr.residuals[0])
    &&& forall|l: int|
        0 <= l < n ==> is_layer(
            m.config,
            m.layers[l],
            m.rope_theta,
            m.rms_eps,
            tr.residuals[l],
            before.keys_of(l),
            before.values_of(l),
            before.cached() as int,
            s,
            #[trigger] tr.layers[l],
            after.keys_of(l),
            after.values_of(l),
            tr.residuals[l + 1],
        )
    &&& is_rms_normed(row_of(tr.residuals[n], d, s - 1), m.rms_out_w@, m.rms_eps, tr.normed)
    &&& is_projection(tr.normed, m.lm_head@, 1, d, m.config.vocab as int, logits)
}

fn copy_of<T: Copy>(v: &Vec<T>) -> (r: Vec<T>)
    ensures
        r@ == v@,
{
    let mut r: Vec<T> = Vec::new();
    push_run(&mut r, v, 0, v.len());
    assert(v@.subrange(0, v.len() as int) =~= v@);
    r
}

fn zeros2<T: Scalar>(rows: usize, cols: usize) -> (t: Tensor<T>)
    requires
        rows * cols <= usize::MAX,
    ensures
        is_matrix(&t, rows as int, cols as int),
        t@.len() == rows * cols,
        is_blank(t@),
{
    let shape: Vec<usize> = vec![rows, cols];
    proof {
        lemma_product_of_matrix(shape@);
    }
    let t = Tensor::zeros(&shape);
    assert(t.dims() =~= seq![rows, cols]);
    t
}

fn zeros3<T: Scalar>(a: usize, b: usize, c: usize) -> (t: Tensor<T>)
    requires
        (a * b) * c <= usize::MAX,
    ensures
        is_cube(&t, a as int, b as int, c as int),
        t@.len() == (a * b) * c,
        is_blank(t@),
{
    let shape: Vec<usize> = vec![a, b, c];
    proof {
        lemma_product_of_cube(shape@);
    }
    let t = Tensor::zeros(&shape);
    assert(t.dims() =~= seq![a, b, c]);
    t
}

fn vector_of<T: Copy>(data: Vec<T>) -> (t: Tensor<T>)
    ensures
        is_vector(&t, data.len() as int),
        t@ == data@,
{
    let shape: Vec<usize> = vec![data.len()];
    proof {
        lemma_product_of_vector(shape@);
    }
    let ghost n = data.len();
    let t = Tensor::from_parts(data, &shape);
    assert(t.dims() =~= seq![n]);
    t
}

fn matrix_of<T: Copy>(data: Vec<T>, rows: usize, cols: usize) -> (t: Tensor<T>)
    requires
        data.len() == rows * cols,
    ensures
        is_matrix(&t, rows as int, cols as int),
        t@ == data@,
{
    let shape: Vec<usize> = vec![rows, cols];
    proof {
        lemma_product_of_matrix(shape@);
    }
    let t = Tensor::from_parts(data, &shape);
    assert(t.dims() =~= seq![rows, cols]);
    t
}

fn cube_of<T: Copy>(data: Vec<T>, a: usize, b: usize, c: usize) -> (t: Tensor<T>)
    requires
        data.len() == (a * b) * c,
    ensures
        is_cube(&t, a as int, b as int, c as int),
        t@ == data@,
{
    let shape: Vec<usize> = vec![a, b, c];
    proof {
        lemma_product_of_cube(shape@);
    }
    let t = Tensor::from_parts(data, &shape);
    assert(t.dims() =~= seq![a, b, c]);
    t
}

fn as_matrix<T: Copy>(t: &mut Tensor<T>, rows: usize, cols: usize)
    requires
        old(t)@.len() == rows * cols,
    ensures
        is_matrix(final(t), rows as int, cols as int),
        final(t)@ == old(t)@,
{
    let shape: Vec<usize> = vec![rows, cols];
    proof {
        lemma_product_of_matrix(shape@);
    }
    t.reshape(&shape);
    assert(t.dims() =~= seq![rows, cols]);
}

fn as_cube<T: Copy>(t: &mut Tensor<T>, a: usize, b: usize, c: usize)
    requires
        old(t)@.len() == (a * b) * c,
    ensures
        is_cube(final(t), a as int, b as int, c as int),
        final(t)@ == old(t)@,
{
    let shape: Vec<usize> = vec![a, b, c];
    proof {
        lemma_product_of_cube(shape@);
    }
    t.reshape(&shape);
    assert(t.dims() =~= seq![a, b, c]);
}

/// What a matrix and a cube hold.
pub proof fn lemma_sizes<T>(t: &Tensor<T>)
    requires
        t.wf(),
    ensures
        t.dims().len() == 1 ==> t@.len() == t.dims()[0],
        t.dims().len() == 2 ==> t@.len() == t.dims()[0] * t.dims()[1],
        t.dims().len() == 3 ==> t@.len() == (t.dims()[0] * t.dims()[1]) * t.dims()[2],
{
    if t.dims().len() == 1 {
        lemma_product_of_vector(t.dims());
    } else if t.dims().len() == 2 {
        lemma_product_of_matrix(t.dims());
    } else if t.dims().len() == 3 {
        lemma_product_of_cube(t.dims());
    }
}

/// `y = x Wᵗ` for a matrix `x` of `rows` rows.
fn project<T: Scalar>(x: &Tensor<T>, w: &Tensor<T>, rows: usize, inner: usize, outer: usize) -> (y:
    Tensor<T>)
    requires
        is_matrix(x, rows as int, inner as int),
        is_matrix(w, outer as int, inner as int),
        rows * outer <= usize::MAX,
    ensures
        is_matrix(&y, rows as int, outer as int),
        y@.len() == rows * outer,
        is_projection(x@, w@, rows as int, inner as int, outer as int, y@),
{
    let mut y = zeros2::<T>(rows, outer);
    let ghost blank = y@;
    assert(x.dims().take(0) =~= y.dims().take(0));
    assert(w.dims().take(0) =~= y.dims().take(0));
    let zero = T::zero();
    let one = T::one();
    matmul_transb(&mut y, zero, x, w, one);
    proof {
        assert(is_matmul_transb(blank, zero, x@, w@, one, rows as int, outer as int, inner as int, y@));
        assert(is_scaled_product(x@, w@, one, rows as int, outer as int, inner as int, y@));
    }
    y
}

/// `y = y + x Wᵗ` for a matrix `x` of `rows` rows.
fn project_onto<T: Scalar>(
    y: &mut Tensor<T>,
    x: &Tensor<T>,
    w: &Tensor<T>,
    rows: usize,
    inner: usize,
    outer: usize,
)
    requires
        is_matrix(old(y), rows as int, outer as int),
        is_matrix(x, rows as int, inner as int),
        is_matrix(w, outer as int, inner as int),
    ensures
        is_matrix(final(y), rows as int, outer as int),
        final(y)@.len() == old(y)@.len(),
        is_added_projection(
            old(y)@,
            x@,
            w@,
            rows as int,
            inner as int,
            outer as int,
            final(y)@,
        ),
{
    assert(x.dims().take(0) =~= y.dims().take(0));
    assert(w.dims().take(0) =~= y.dims().take(0));
    let keep = T::one();
    let one = T::one();
    matmul_transb(y, keep, x, w, one);
    assert(is_matmul_transb(
        old(y)@,
        keep,
        x@,
        w@,
        one,
        rows as int,
        outer as int,
        inner as int,
        y@,
    ));
}

/// The rows of `x`, normalized and weighted by `w`.
fn normalized<T: Scalar>(x: &Tensor<T>, w: &Tensor<T>, epsilon: T, rows: usize, cols: usize) -> (y:
    Tensor<T>)
    requires
        is_matrix(x, rows as int, cols as int),
        is_vector(w, cols as int),
    ensures
        is_matrix(&y, rows as int, cols as int),
        is_rms_normed(x@, w@, epsilon, y@),
{
    let size = x.size();
    proof {
        lemma_sizes(x);
        lemma_sizes(w);
    }
    let mut y = zeros2::<T>(rows, cols);
    rms_norm(&mut y, x, w, epsilon);
    y
}

/// A prefix of a prefix is a prefix.
pub proof fn lemma_prefix_chain<A>(a: Seq<A>, b: Seq<A>, c: Seq<A>)
    requires
        a.is_prefix_of(b),
        b.is_prefix_of(c),
    ensures
        a.is_prefix_of(c),
{
    assert(a =~= c.subrange(0, a.len() as int)) by {
        assert(a == b.subrange(0, a.len() as int));
        assert(b == c.subrange(0, b.len() as int));
    }
}

/// A cache whose layers all hold `n` positions is level, at `n`.
proof fn lemma_level<T: Copy>(cache: &KVCache<T>, n: int)
    requires
        cache.wf(),
        n >= 0,
        forall|k: int| 0 <= k < cache.layers() ==> (#[trigger] cache.keys_of(k)).len() == n * cache.width(),
    ensures
        cache.is_level(),
        cache.layers() > 0 ==> cache.cached() == n,
{
    let w = cache.width() as int;
    assert forall|k: int| 0 <= k < cache.layers() implies cache.positions(k) == n by {
        assert(cache.keys_of(k).len() == n * w);
        assert((n * w) / w == n) by (nonlinear_arith)
            requires
                w > 0,
        ;
    }
    if cache.layers() > 0 {
        assert(cache.positions(0) == n);
    }
}

/// A forward pass extends every layer of the cache by one position for
/// each token, and what was cached stays in front.
pub proof fn lemma_forward_extends_cache<T: Scalar>(
    m: Llama<T>,
    tokens: Seq<u32>,
    before: KVCache<T>,
    tr: ForwardTrace<T>,
    after: KVCache<T>,
    logits: Seq<T>,
)
    requires
        is_forward(m, tokens, before, tr, after, logits),
    ensures
        forall|l: int|
            0 <= l < m.config.n_layers ==> #[trigger] before.grows_to(
                &after,
                l,
                tokens.len() * m.config.kv_width(),
            ),
{
    assert forall|l: int| 0 <= l < m.config.n_layers implies #[trigger] before.grows_to(
        &after,
        l,
        tokens.len() * m.config.kv_width(),
    ) by {
        let layer = tr.layers[l];
        lemma_layer_extends_cache(
            m.config,
            m.layers[l],
            m.rope_theta,
            m.rms_eps,
            tr.residuals[l],
            before.keys_of(l),
            before.values_of(l),
            before.cached() as int,
            tokens.len() as int,
            layer,
            after.keys_of(l),
            after.values_of(l),
            tr.residuals[l + 1],
        );
    }
}

impl<T: Scalar> Llama<T> {
    /// Attention of `s` new positions over all `total` cached positions.
    ///
    /// `q` holds the queries, `[s, n_q_heads, head_dim]`; `keys` and
    /// `values` hold the cached keys and values, `[total, n_kv_heads,
    /// head_dim]`. Query head `h` attends with key head `h / groups`,
    /// where `groups` query heads share a key head. The result is
    /// `[s, n_q_heads * head_dim]`.
    fn attention(&self, q: &Tensor<T>, keys: &Vec<T>, values: &Vec<T>, s: usize, total: usize) -> (att:
        Tensor<T>)
        requires
            self.config.wf(),
            0 < s <= total,
            self.fits(total as int),
            is_cube(q, s as int, self.config.n_q_heads as int, self.config.head_dim as int),
            keys.len() == total * self.config.kv_width(),
            values.len() == total * self.config.kv_width(),
        ensures
            is_matrix(&att, s as int, self.config.q_width()),
            exists|tr: AttentionTrace<T>|
                is_attention(self.config, q@, keys@, values@, s as int, total as int, tr, att@),
    {
        let hq = self.config.n_q_heads;
        let hkv = self.config.n_kv_heads;
        let dh = self.config.head_dim;
        proof {
            self.config.lemma_widths();
        }
        let groups = hq / hkv;
        let qw = hq * dh;
        let kvw = hkv * dh;
        proof {
            assert(hq == groups * hkv) by (nonlinear_arith)
                requires
                    hq % hkv == 0,
                    hkv > 0,
                    groups == hq / hkv,
            ;
            // the heads of a group, taken together, are all the query heads
            assert(hkv * (groups * s) == hq * s && groups * s <= hq * total) by (nonlinear_arith)
                requires
                    hq == groups * hkv,
                    hkv > 0,
                    0 < s <= total,
            ;
            // the scores and the weighted values fit the machine
            assert(hq * total <= (hq * total) * total && (hq * s) * total <= (hq * total) * total)
                by (nonlinear_arith)
                requires
                    0 < s <= total,
            ;
            assert((hq * s) * dh == s * qw && s * qw <= total * qw) by (nonlinear_arith)
                requires
                    0 < s <= total,
                    qw == hq * dh,
            ;
            // the cache, read by position and read by head
            assert((total * hkv) * dh == total * kvw && (hkv * dh) * total == total * kvw)
                by (nonlinear_arith)
                requires
                    kvw == hkv * dh,
            ;
        }
        let gs = groups * s;
        // keys by head: [n_kv_heads, total, head_dim]
        let k3 = cube_of(copy_of(keys), total, hkv, dh);
        let kh = k3.swap_leading_axes();
        // values by head and transposed: [n_kv_heads, head_dim, total]
        let v2 = matrix_of(copy_of(values), total, kvw);
        let mut vt = v2.transpose();
        proof {
            lemma_sizes(&vt);
            assert(kvw * total == (hkv * dh) * total);
        }
        as_cube(&mut vt, hkv, dh, total);
        // queries by head, the heads of a group together: [n_kv_heads, groups * s, head_dim]
        let mut qh = q.swap_leading_axes();
        proof {
            lemma_sizes(&qh);
            assert((hq * s) * dh == (hkv * gs) * dh);
        }
        as_cube(&mut qh, hkv, gs, dh);
        // scores, scaled by the root of the head dimension
        let one = T::one();
        let n = T::from_usize(dh);
        let root = n.sqrt();
        let scale = one.div(root);
        assert(is_attention_scale(dh, scale)) by {
            assert(is_sqrt(n, root) && is_quotient(one, root, scale));
        }
        let mut scores = zeros3::<T>(hkv, gs, total);
        let ghost blank = scores@;
        assert(qh.dims().take(1) =~= scores.dims().take(1));
        assert(kh.dims().take(1) =~= scores.dims().take(1));
        let zero = T::zero();
        matmul_transb(&mut scores, zero, &qh, &kh, scale);
        let ghost scored = scores@;
        proof {
            assert((hkv * gs) * total == (hq * s) * total);
            assert(is_matmul_transb(
                blank,
                zero,
                qh@,
                kh@,
                scale,
                gs as int,
                total as int,
                dh as int,
                scored,
            ));
        }
        as_cube(&mut scores, hq, s, total);
        masked_softmax(&mut scores);
        as_cube(&mut scores, hkv, gs, total);
        // weighted values: [n_kv_heads, groups * s, head_dim]
        let mut att = zeros3::<T>(hkv, gs, dh);
        let ghost blank_mix = att@;
        assert(scores.dims().take(1) =~= att.dims().take(1));
        assert(vt.dims().take(1) =~= att.dims().take(1));
        let zero_mix = T::zero();
        let one_mix = T::one();
        matmul_transb(&mut att, zero_mix, &scores, &vt, one_mix);
        proof {
            assert(is_matmul_transb(
                blank_mix,
                zero_mix,
                scores@,
                vt@,
                one_mix,
                gs as int,
                dh as int,
                total as int,
                att@,
            ));
            assert(is_scaled_product(
                scores@,
                vt@,
                one_mix,
                gs as int,
                dh as int,
                total as int,
                att@,
            ));
        }
        // back to positions first: [s, n_q_heads * head_dim]
        as_cube(&mut att, hq, s, dh);
        let mut out = att.swap_leading_axes();
        let ghost tr = AttentionTrace {
            keys: kh@,
            values: vt@,
            queries: qh@,
            scale,
            scores: scored,
            weights: scores@,
            mixed: att@,
        };
        proof {
            lemma_sizes(&out);
            assert((s * hq) * dh == s * qw) by (nonlinear_arith)
                requires
                    qw == hq * dh,
            ;
        }
        as_matrix(&mut out, s, qw);
        proof {
            assert(gs == (hq as int / hkv as int) * s);
            assert(kvw == (hkv as int) * (dh as int));
            assert(is_attention(self.config, q@, keys@, values@, s as int, total as int, tr, out@));
        }
        out
    }

    /// One layer of the forward pass: attention over the cache, which
    /// takes in the `s` new positions, and the feed-forward block, both
    /// added to `residual`.
    fn layer_forward(
        &self,
        l: usize,
        residual: &mut Tensor<T>,
        cache: &mut KVCache<T>,
        past: usize,
        s: usize,
    )
        requires
            self.wf(),
            l < self.config.n_layers,
            old(cache).wf(),
            old(cache).layers() == self.config.n_layers,
            old(cache).width() == self.config.kv_width(),
            old(cache).keys_of(l as int).len() == past * self.config.kv_width(),
            0 < s,
            past + s <= usize::MAX,
            self.fits(past + s),
            is_matrix(old(residual), s as int, self.config.hidden_size as int),
        ensures
            is_matrix(final(residual), s as int, self.config.hidden_size as int),
            final(cache).wf(),
            final(cache).layers() == old(cache).layers(),
            final(cache).width() == old(cache).width(),
            final(cache).keys_of(l as int).len() == (past + s) * self.config.kv_width(),
            old(cache).keys_of(l as int).is_prefix_of(final(cache).keys_of(l as int)),
            old(cache).values_of(l as int).is_prefix_of(final(cache).values_of(l as int)),
            forall|other: int|
                0 <= other < old(cache).layers() && other != l ==> final(cache).keys_of(other)
                    == old(cache).keys_of(other) && final(cache).values_of(other) == old(
                    cache,
                ).values_of(other),
            exists|tr: LayerTrace<T>|
                is_layer(
                    self.config,
                    self.layers[l as int],
                    self.rope_theta,
                    self.rms_eps,
                    old(residual)@,
                    old(cache).keys_of(l as int),
                    old(cache).values_of(l as int),
                    past as int,
                    s as int,
                    tr,
                    final(cache).keys_of(l as int),
                    final(cache).values_of(l as int),
                    final(residual)@,
                ),
    {
        let w = &self.layers[l];
        assert(w.wf(&self.config));
        let hq = self.config.n_q_heads;
        let hkv = self.config.n_kv_heads;
        let dh = self.config.head_dim;
        let d = self.config.hidden_size;
        let di = self.config.intermediate_size;
        let total = past + s;
        proof {
            self.config.lemma_widths();
        }
        let qw = hq * dh;
        let kvw = hkv * dh;
        proof {
            // the buffers of the new positions fit the machine
            assert(s * d <= total * d && s * di <= total * di && s * qw <= total * qw && s * kvw
                <= total * qw) by (nonlinear_arith)
                requires
                    0 < s <= total,
                    0 < kvw <= qw,
            ;
            // a position's vector is one vector for every head
            assert(s * qw == (s * hq) * dh && s * kvw == (s * hkv) * dh) by (nonlinear_arith)
                requires
                    qw == hq * dh,
                    kvw == hkv * dh,
            ;
            // the new keys are whole positions
            let w = kvw as int;
            assert((s * w) % w == 0 && (s * w) / w == s && (past + s) * w == past * w + s * w)
                by (nonlinear_arith)
                requires
                    w > 0,
            ;
        }
        // attention
        let hidden = normalized(residual, &w.rms_att_w, self.rms_eps, s, d);
        let mut q = project(&hidden, &w.wq, s, d, qw);
        let mut k = project(&hidden, &w.wk, s, d, kvw);
        let v = project(&hidden, &w.wv, s, d, kvw);
        let ghost q0 = q@;
        let ghost k0 = k@;
        as_cube(&mut q, s, hq, dh);
        rope(&mut q, past, self.rope_theta);
        as_cube(&mut k, s, hkv, dh);
        rope(&mut k, past, self.rope_theta);
        let ghost before = *cache;
        cache.append(l, k.data(), v.data());
        proof {
            assert(before.values_of(l as int).len() == before.keys_of(l as int).len());
        }
        let att = self.attention(&q, cache.keys(l), cache.values(l), s, total);
        let ghost attention = choose|tr: AttentionTrace<T>|
            is_attention(
                self.config,
                q@,
                cache.keys_of(l as int),
                cache.values_of(l as int),
                s as int,
                total as int,
                tr,
                att@,
            );
        project_onto(residual, &att, &w.wo, s, qw, d);
        let ghost attended = residual@;
        // feed-forward
        let again = normalized(residual, &w.rms_ffn_w, self.rms_eps, s, d);
        let gate = project(&again, &w.w_gate, s, d, di);
        let mut up = project(&again, &w.w_up, s, d, di);
        let ghost up0 = up@;
        silu(&mut up, &gate);
        assert(is_matrix(&up, s as int, di as int));
        project_onto(residual, &up, &w.w_down, s, di, d);
        proof {
            let tr = LayerTrace {
                normed: hidden@,
                q: q0,
                k: k0,
                v: v@,
                q_roped: q@,
                k_roped: k@,
                attention,
                mixed: att@,
                attended,
                normed_again: again@,
                gate: gate@,
                up: up0,
                gated: up@,
            };
            assert(is_layer(
                self.config,
                self.layers[l as int],
                self.rope_theta,
                self.rms_eps,
                old(residual)@,
                old(cache).keys_of(l as int),
                old(cache).values_of(l as int),
                past as int,
                s as int,
                tr,
                cache.keys_of(l as int),
                cache.values_of(l as int),
                residual@,
            ));
        }
    }

    /// The forward pass over new positions: the logits of the token that
    /// follows the last of `tokens`, given all that `cache` holds.
    ///
    /// The new positions continue those of the cache, which takes their
    /// keys and values in, layer by layer; what it held stays as it was.
    /// The logits have the shape `[1, vocab]`.
    pub fn forward(&self, tokens: &Vec<u32>, cache: &mut KVCache<T>) -> (logits: Tensor<T>)
        requires
            self.wf(),
            self.owns(old(cache)),
            tokens.len() > 0,
            self.accepts(tokens@),
            self.fits(old(cache).cached() + tokens.len()),
        ensures
            self.owns(final(cache)),
            final(cache).cached() == old(cache).cached() + tokens.len(),
            forall|l: int|
                0 <= l < self.config.n_layers ==> old(cache).keys_of(l).is_prefix_of(
                    #[trigger] final(cache).keys_of(l),
                ),
            forall|l: int|
                0 <= l < self.config.n_layers ==> old(cache).values_of(l).is_prefix_of(
                    #[trigger] final(cache).values_of(l),
                ),
            is_matrix(&logits, 1, self.config.vocab as int),
            exists|tr: ForwardTrace<T>|
                is_forward(*self, tokens@, *old(cache), tr, *final(cache), logits@),
    {
        let s = tokens.len();
        let d = self.config.hidden_size;
        let vocab = self.config.vocab;
        let n_layers = self.config.n_layers;
        let past = cache.len();
        let ghost kvw = self.config.kv_width();
        proof {
            self.config.lemma_widths();
            lemma_sizes(&self.embedding_table);
            assert(s * d <= (past + s) * d) by (nonlinear_arith)
                requires
                    0 <= past,
                    0 <= s,
                    0 <= d,
            ;
            assert(past + s <= usize::MAX) by (nonlinear_arith)
                requires
                    (self.config.n_q_heads * (past + s)) * (past + s) <= usize::MAX,
                    self.config.n_q_heads >= 1,
                    past + s >= 1,
            ;
            assert forall|k: int| 0 <= k < n_layers implies (#[trigger] cache.keys_of(k)).len()
                == past * kvw by {
                assert(cache.positions(k) == cache.cached());
            }
        }
        // embedding lookup
        let ids = vector_of(copy_of(tokens));
        let mut residual = zeros2::<T>(s, d);
        gather(&mut residual, &ids, &self.embedding_table);
        assert(is_matrix(&residual, s as int, d as int));
        let ghost mut residuals: Seq<Seq<T>> = seq![residual@];
        let ghost mut traces: Seq<LayerTrace<T>> = Seq::empty();
        // the layers
        let mut l: usize = 0;
        while l < n_layers
            invariant
                l <= n_layers,
                residuals.len() == l + 1,
                traces.len() == l,
                residuals[0].len() == s * d,
                is_gathered(tokens@, self.embedding_table@, d as int, residuals[0]),
                residuals[l as int] == residual@,
                forall|k: int|
                    0 <= k < l ==> is_layer(
                        self.config,
                        self.layers[k],
                        self.rope_theta,
                        self.rms_eps,
                        residuals[k],
                        old(cache).keys_of(k),
                        old(cache).values_of(k),
                        past as int,
                        s as int,
                        #[trigger] traces[k],
                        cache.keys_of(k),
                        cache.values_of(k),
                        residuals[k + 1],
                    ),
                forall|k: int|
                    l <= k < n_layers ==> (#[trigger] cache.keys_of(k)) == old(cache).keys_of(k)
                        && cache.values_of(k) == old(cache).values_of(k),
                self.wf(),
                n_layers == self.config.n_layers,
                d == self.config.hidden_size,
                kvw == self.config.kv_width(),
                kvw > 0,
                0 < s,
                s == tokens.len(),
                past == old(cache).cached(),
                past + s <= usize::MAX,
                self.fits(past + s),
                is_matrix(&residual, s as int, d as int),
                cache.wf(),
                cache.layers() == n_layers,
                cache.width() == kvw,
                forall|k: int| 0 <= k < l ==> (#[trigger] cache.keys_of(k)).len() == (past + s) * kvw,
                forall|k: int| l <= k < n_layers ==> (#[trigger] cache.keys_of(k)).len() == past * kvw,
                forall|k: int|
                    0 <= k < n_layers ==> old(cache).keys_of(k).is_prefix_of(
                        #[trigger] cache.keys_of(k),
                    ),
                forall|k: int|
                    0 <= k < n_layers ==> old(cache).values_of(k).is_prefix_of(
                        #[trigger] cache.values_of(k),
                    ),
            decreases n_layers - l,
        {
            let ghost before = *cache;
            let ghost x = residual@;
            self.layer_forward(l, &mut residual, cache, past, s);
            proof {
                let tr = choose|tr: LayerTrace<T>|
                    is_layer(
                        self.config,
                        self.layers[l as int],
                        self.rope_theta,
                        self.rms_eps,
                        x,
                        before.keys_of(l as int),
                        before.values_of(l as int),
                        past as int,
                        s as int,
                        tr,
                        cache.keys_of(l as int),
                        cache.values_of(l as int),
                        residual@,
                    );
                let ghost earlier = residuals;
                let ghost earlier_traces = traces;
                residuals = residuals.push(residual@);
                traces = traces.push(tr);
                assert forall|k: int| 0 <= k < l + 1 implies is_layer(
                    self.config,
                    self.layers[k],
                    self.rope_theta,
                    self.rms_eps,
                    residuals[k],
                    old(cache).keys_of(k),
                    old(cache).values_of(k),
                    past as int,
                    s as int,
                    #[trigger] traces[k],
                    cache.keys_of(k),
                    cache.values_of(k),
                    residuals[k + 1],
                ) by {
                    if k < l {
                        assert(traces[k] == earlier_traces[k]);
                        assert(residuals[k] == earlier[k]);
                        assert(residuals[k + 1] == earlier[k + 1]);
                        assert(cache.keys_of(k) == before.keys_of(k));
                        assert(cache.values_of(k) == before.values_of(k));
                    } else {
                        assert(before.keys_of(k) == old(cache).keys_of(k));
                        assert(before.values_of(k) == old(cache).values_of(k));
                    }
                }
                assert forall|k: int| l + 1 <= k < n_layers implies (#[trigger] cache.keys_of(k))
                    == old(cache).keys_of(k) && cache.values_of(k) == old(cache).values_of(k) by {
                    assert(before.keys_of(k) == old(cache).keys_of(k));
                }
                assert forall|k: int| 0 <= k < n_layers implies old(cache).keys_of(k).is_prefix_of(
                    #[trigger] cache.keys_of(k),
                ) && old(cache).values_of(k).is_prefix_of(cache.values_of(k)) by {
                    assert(old(cache).keys_of(k).is_prefix_of(before.keys_of(k)));
                    assert(old(cache).values_of(k).is_prefix_of(before.values_of(k)));
                    if k == l {
                        lemma_prefix_chain(old(cache).keys_of(k), before.keys_of(k), cache.keys_of(k));
                        lemma_prefix_chain(
                            old(cache).values_of(k),
                            before.values_of(k),
                            cache.values_of(k),
                        );
                    }
                }
                assert forall|k: int| l + 1 <= k < n_layers implies (#[trigger] cache.keys_of(
                    k,
                )).len() == past * kvw by {
                    assert(before.keys_of(k).len() == past * kvw);
                }
                let filled = (past + s) * kvw;
                assert forall|k: int| 0 <= k < l + 1 implies (#[trigger] cache.keys_of(k)).len()
                    == filled by {
                    if k < l {
                        assert(before.keys_of(k).len() == (past + s) * kvw);
                    }
                }
            }
            l += 1;
        }
        proof {
            lemma_level(cache, (past + s) as int);
        }
        // the logits of the last position
        proof {
            lemma_sizes(&residual);
            assert((s - 1) * d + d == s * d) by (nonlinear_arith);
            assert(0 <= (s - 1) * d) by (nonlinear_arith)
                requires
                    s >= 1,
                    d >= 0,
            ;
            assert(1 * d == d && 1 * vocab == vocab) by (nonlinear_arith);
        }
        let last = matrix_of(residual.read_at((s - 1) * d, d), 1, d);
        let hidden = normalized(&last, &self.rms_out_w, self.rms_eps, 1, d);
        let logits = project(&hidden, &self.lm_head, 1, d, vocab);
        proof {
            let tr = ForwardTrace { residuals, layers: traces, normed: hidden@ };
            assert(last@ == row_of(residual@, d as int, s - 1));
            assert(is_forward(*self, tokens@, *old(cache), tr, *cache, logits@));
        }
        logits
    }
}

} // verus!
