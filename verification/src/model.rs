//! The transformer's hyperparameters and weights.

use crate::kvcache::KVCache;
use crate::scalar::Scalar;
use crate::tensor::Tensor;
use vstd::prelude::*;

verus! {

/// Why a model could not be built.
#[derive(Clone, Copy, Debug, PartialEq, Eq)]
pub enum ModelError {
    /// The hyperparameters contradict each other or exceed the machine.
    Config,
    /// A weight tensor does not have the shape the hyperparameters ask for.
    WeightShape,
}

/// The hyperparameters of a model.
#[derive(Clone, Copy, Debug)]
pub struct LlamaConfig {
    pub n_layers: usize,
    pub n_q_heads: usize,
    pub n_kv_heads: usize,
    pub head_dim: usize,
    pub hidden_size: usize,
    pub intermediate_size: usize,
    pub vocab: usize,
    /// The token that ends a generation, if the model has one.
    pub eos_token_id: Option<u32>,
}

impl LlamaConfig {
    /// The length of a position's query vector.
    pub open spec fn q_width(&self) -> int {
        self.n_q_heads * self.head_dim
    }

    /// The length of a position's key vector, and of its value vector.
    pub open spec fn kv_width(&self) -> int {
        self.n_kv_heads * self.head_dim
    }

    /// There is a layer, the head counts divide, the head dimension is
    /// even, the vocabulary fits the token type, and a position's vectors
    /// fit the machine.
    pub open spec fn wf(&self) -> bool {
        &&& self.n_layers > 0
        &&& self.n_kv_heads > 0
        &&& self.n_q_heads % self.n_kv_heads == 0
        &&& self.n_q_heads > 0
        &&& self.head_dim > 0
        &&& self.head_dim % 2 == 0
        &&& 0 < self.vocab <= u32::MAX
        &&& self.q_width() <= usize::MAX
    }

    /// There are at least as many query heads as key heads, and a
    /// position's key vector is no longer than its query vector.
    pub proof fn lemma_widths(&self)
        requires
            self.wf(),
        ensures
            self.n_kv_heads <= self.n_q_heads,
            0 < self.kv_width() <= self.q_width(),
            self.q_width() == (self.n_q_heads / self.n_kv_heads) * self.kv_width(),
    {
        let q = self.n_q_heads as int;
        let kv = self.n_kv_heads as int;
        let d = self.head_dim as int;
        assert(q == (q / kv) * kv && kv <= q) by (nonlinear_arith)
            requires
                q % kv == 0,
                q > 0,
                kv > 0,
        ;
        assert(0 < kv * d <= q * d && q * d == (q / kv) * (kv * d)) by (nonlinear_arith)
            requires
                q == (q / kv) * kv,
                0 < kv <= q,
                d > 0,
        ;
    }

    /// Whether the hyperparameters are well-formed.
    pub fn is_valid(&self) -> (b: bool)
        ensures
            b == self.wf(),
    {
        if self.n_layers == 0 || self.n_kv_heads == 0 || self.n_q_heads == 0 || self.head_dim == 0 {
            return false;
        }
        if self.n_q_heads % self.n_kv_heads != 0 || self.head_dim % 2 != 0 {
            return false;
        }
        if self.vocab == 0 || self.vocab > 0xffff_ffff {
            return false;
        }
        self.n_q_heads.checked_mul(self.head_dim).is_some()
    }
}

/// The weights of one layer.
pub struct LayerWeights<T> {
    /// `[hidden]`
    pub rms_att_w: Tensor<T>,
    /// `[n_q_heads * head_dim, hidden]`
    pub wq: Tensor<T>,
    /// `[n_kv_heads * head_dim, hidden]`
    pub wk: Tensor<T>,
    /// `[n_kv_heads * head_dim, hidden]`
    pub wv: Tensor<T>,
    /// `[hidden, n_q_heads * head_dim]`
    pub wo: Tensor<T>,
    /// `[hidden]`
    pub rms_ffn_w: Tensor<T>,
    /// `[intermediate, hidden]`
    pub w_up: Tensor<T>,
    /// `[intermediate, hidden]`
    pub w_gate: Tensor<T>,
    /// `[hidden, intermediate]`
    pub w_down: Tensor<T>,
}

/// `t` is a well-formed vector of `n` elements.
pub open spec fn is_vector<T>(t: &Tensor<T>, n: int) -> bool {
    t.wf() && t.dims() == seq![n as usize]
}

/// `t` is a well-formed matrix of `rows` by `cols` elements.
pub open spec fn is_matrix<T>(t: &Tensor<T>, rows: int, cols: int) -> bool {
    t.wf() && t.dims() == seq![rows as usize, cols as usize]
}

impl<T> LayerWeights<T> {
    /// Every weight has the shape that the hyperparameters ask for.
    pub open spec fn wf(&self, c: &LlamaConfig) -> bool {
        &&& is_vector(&self.rms_att_w, c.hidden_size as int)
        &&& is_matrix(&self.wq, c.q_width(), c.hidden_size as int)
        &&& is_matrix(&self.wk, c.kv_width(), c.hidden_size as int)
        &&& is_matrix(&self.wv, c.kv_width(), c.hidden_size as int)
        &&& is_matrix(&self.wo, c.hidden_size as int, c.q_width())
        &&& is_vector(&self.rms_ffn_w, c.hidden_size as int)
        &&& is_matrix(&self.w_up, c.intermediate_size as int, c.hidden_size as int)
        &&& is_matrix(&self.w_gate, c.intermediate_size as int, c.hidden_size as int)
        &&& is_matrix(&self.w_down, c.hidden_size as int, c.intermediate_size as int)
    }
}

/// `t` is a well-formed tensor of `a` by `b` by `c` elements.
pub open spec fn is_cube<T>(t: &Tensor<T>, a: int, b: int, c: int) -> bool {
    t.wf() && t.dims() == seq![a as usize, b as usize, c as usize]
}

fn check_vector<T>(t: &Tensor<T>, n: usize) -> (b: bool)
    ensures
        b == is_vector(t, n as int),
{
    let shape: Vec<usize> = vec![n];
    let b = t.has_shape(&shape);
    assert(shape@ =~= seq![n]);
    b
}

fn check_matrix<T>(t: &Tensor<T>, rows: usize, cols: usize) -> (b: bool)
    ensures
        b == is_matrix(t, rows as int, cols as int),
{
    let shape: Vec<usize> = vec![rows, cols];
    let b = t.has_shape(&shape);
    assert(shape@ =~= seq![rows, cols]);
    b
}

fn check_layer<T>(w: &LayerWeights<T>, c: &LlamaConfig) -> (b: bool)
    requires
        c.wf(),
    ensures
        b == w.wf(c),
{
    proof {
        c.lemma_widths();
    }
    let q_width = c.n_q_heads * c.head_dim;
    let kv_width = c.n_kv_heads * c.head_dim;
    check_vector(&w.rms_att_w, c.hidden_size) && check_matrix(&w.wq, q_width, c.hidden_size)
        && check_matrix(&w.wk, kv_width, c.hidden_size) && check_matrix(
        &w.wv,
        kv_width,
        c.hidden_size,
    ) && check_matrix(&w.wo, c.hidden_size, q_width) && check_vector(&w.rms_ffn_w, c.hidden_size)
        && check_matrix(&w.w_up, c.intermediate_size, c.hidden_size) && check_matrix(
        &w.w_gate,
        c.intermediate_size,
        c.hidden_size,
    ) && check_matrix(&w.w_down, c.hidden_size, c.intermediate_size)
}

/// A model: hyperparameters and weights.
pub struct Llama<T> {
    pub config: LlamaConfig,
    /// The base of the rotary embedding's frequencies.
    pub rope_theta: T,
    /// The epsilon of the normalizations.
    pub rms_eps: T,
    /// `[vocab, hidden]`
    pub embedding_table: Tensor<T>,
    pub layers: Vec<LayerWeights<T>>,
    /// `[hidden]`
    pub rms_out_w: Tensor<T>,
    /// `[vocab, hidden]`
    pub lm_head: Tensor<T>,
}

impl<T: Scalar> Llama<T> {
    /// The hyperparameters are well-formed and every weight has the shape
    /// they ask for.
    pub open spec fn wf(&self) -> bool {
        &&& self.config.wf()
        &&& self.layers.len() == self.config.n_layers
        &&& forall|l: int| 0 <= l < self.layers.len() ==> (#[trigger] self.layers[l]).wf(&self.config)
        &&& is_matrix(&self.embedding_table, self.config.vocab as int, self.config.hidden_size as int)
        &&& is_vector(&self.rms_out_w, self.config.hidden_size as int)
        &&& is_matrix(&self.lm_head, self.config.vocab as int, self.config.hidden_size as int)
    }

    /// The buffers of a forward pass that ends at position `total` fit
    /// the machine.
    pub open spec fn fits(&self, total: int) -> bool {
        &&& total * self.config.hidden_size <= usize::MAX
        &&& total * self.config.intermediate_size <= usize::MAX
        &&& total * self.config.q_width() <= usize::MAX
        &&& (self.config.n_q_heads * total) * total <= usize::MAX
    }

    /// `tokens` are tokens of this model's vocabulary.
    pub open spec fn accepts(&self, tokens: Seq<u32>) -> bool {
        forall|i: int| 0 <= i < tokens.len() ==> (#[trigger] tokens[i]) < self.config.vocab
    }

    /// `cache` is a cache of this model, filled to the same position in
    /// every layer.
    pub open spec fn owns(&self, cache: &KVCache<T>) -> bool {
        &&& cache.wf()
        &&& cache.is_level()
        &&& cache.layers() == self.config.n_layers
        &&& cache.width() == self.config.kv_width()
    }

    /// Builds a model. Fails when the hyperparameters are not
    /// well-formed, and otherwise when a weight does not have its shape.
    pub fn new(
        config: LlamaConfig,
        rope_theta: T,
        rms_eps: T,
        embedding_table: Tensor<T>,
        layers: Vec<LayerWeights<T>>,
        rms_out_w: Tensor<T>,
        lm_head: Tensor<T>,
    ) -> (r: Result<Self, ModelError>)
        ensures
            r matches Ok(m) ==> m.wf() && m.config == config && m.rope_theta == rope_theta
                && m.rms_eps == rms_eps && m.embedding_table == embedding_table && m.layers
                == layers && m.rms_out_w == rms_out_w && m.lm_head == lm_head,
            r is Ok <==> (Llama {
                config,
                rope_theta,
                rms_eps,
                embedding_table,
                layers,
                rms_out_w,
                lm_head,
            }).wf(),
            r matches Err(e) ==> (e == ModelError::Config <==> !config.wf()),
    {
        if !config.is_valid() {
            return Err(ModelError::Config);
        }
        if layers.len() != config.n_layers {
            return Err(ModelError::WeightShape);
        }
        if !check_matrix(&embedding_table, config.vocab, config.hidden_size) || !check_vector(
            &rms_out_w,
            config.hidden_size,
        ) || !check_matrix(&lm_head, config.vocab, config.hidden_size) {
            return Err(ModelError::WeightShape);
        }
        let n = layers.len();
        let mut l: usize = 0;
        while l < n
            invariant
                l <= n,
                n == layers.len(),
                config.wf(),
                forall|k: int| 0 <= k < l ==> (#[trigger] layers[k]).wf(&config),
            decreases n - l,
        {
            if !check_layer(&layers[l], &config) {
                return Err(ModelError::WeightShape);
            }
            l += 1;
        }
        Ok(Llama { config, rope_theta, rms_eps, embedding_table, layers, rms_out_w, lm_head })
    }

    /// An empty cache for this model.
    pub fn new_cache(&self) -> (cache: KVCache<T>)
        requires
            self.wf(),
        ensures
            self.owns(&cache),
            cache.cached() == 0,
    {
        proof {
            self.config.lemma_widths();
        }
        KVCache::new(self.config.n_layers, self.config.n_kv_heads * self.config.head_dim)
    }

    /// What fits up to a position fits up to every earlier one.
    pub proof fn lemma_fits_earlier(&self, total: int, earlier: int)
        requires
            self.fits(total),
            0 <= earlier <= total,
        ensures
            self.fits(earlier),
    {
        let d = self.config.hidden_size as int;
        let di = self.config.intermediate_size as int;
        let qw = self.config.q_width();
        let hq = self.config.n_q_heads as int;
        assert(earlier * d <= total * d && earlier * di <= total * di) by (nonlinear_arith)
            requires
                0 <= earlier <= total,
                0 <= d,
                0 <= di,
        ;
        assert(earlier * qw <= total * qw) by (nonlinear_arith)
            requires
                0 <= earlier <= total,
                0 <= qw,
        ;
        assert((hq * earlier) * earlier <= (hq * total) * total) by (nonlinear_arith)
            requires
                0 <= earlier <= total,
                0 <= hq,
        ;
    }

    /// Whether `tokens` are tokens of this model's vocabulary.
    pub fn accepts_tokens(&self, tokens: &Vec<u32>) -> (b: bool)
        ensures
            b == self.accepts(tokens@),
    {
        let n = tokens.len();
        let mut i: usize = 0;
        while i < n
            invariant
                i <= n,
                n == tokens.len(),
                forall|k: int| 0 <= k < i ==> (#[trigger] tokens[k]) < self.config.vocab,
            decreases n - i,
        {
            if tokens[i] as usize >= self.config.vocab {
                return false;
            }
            i += 1;
        }
        true
    }

    /// Whether the buffers of a forward pass that ends at position
    /// `total` fit the machine.
    pub fn fits_in_memory(&self, total: usize) -> (b: bool)
        requires
            self.config.wf(),
        ensures
            b == self.fits(total as int),
    {
        let q_width = self.config.n_q_heads * self.config.head_dim;
        let scores = match self.config.n_q_heads.checked_mul(total) {
            Some(rows) => rows.checked_mul(total).is_some(),
            None => {
                assert(self.config.n_q_heads * total <= (self.config.n_q_heads * total) * total)
                    by (nonlinear_arith)
                    requires
                        self.config.n_q_heads * total > usize::MAX,
                        total >= 0,
                        self.config.n_q_heads >= 0,
                {
                }
                false
            },
        };
        total.checked_mul(self.config.hidden_size).is_some() && total.checked_mul(
            self.config.intermediate_size,
        ).is_some() && total.checked_mul(q_width).is_some() && scores
    }
}

} // verus!
