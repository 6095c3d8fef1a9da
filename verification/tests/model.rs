use llama_infer::kvcache::KVCache;
use llama_infer::model::{LayerWeights, Llama, LlamaConfig, ModelError};
use llama_infer::scalar::Scalar;
use llama_infer::tensor::Tensor;

/// Single-precision arithmetic as the element type.
#[derive(Clone, Copy, Debug, PartialEq)]
struct F(f32);

impl Scalar for F {
    fn zero() -> Self {
        F(0.0)
    }

    fn one() -> Self {
        F(1.0)
    }

    fn from_usize(n: usize) -> Self {
        F(n as f32)
    }

    fn uniform(bits: u32) -> Self {
        F((bits >> 8) as f32 * (1.0 / (1u32 << 24) as f32))
    }

    fn add(self, rhs: Self) -> Self {
        F(self.0 + rhs.0)
    }

    fn sub(self, rhs: Self) -> Self {
        F(self.0 - rhs.0)
    }

    fn mul(self, rhs: Self) -> Self {
        F(self.0 * rhs.0)
    }

    fn div(self, rhs: Self) -> Self {
        F(self.0 / rhs.0)
    }

    fn neg(self) -> Self {
        F(-self.0)
    }

    fn abs(self) -> Self {
        F(self.0.abs())
    }

    fn exp(self) -> Self {
        F(self.0.exp())
    }

    fn sqrt(self) -> Self {
        F(self.0.sqrt())
    }

    fn powf(self, e: Self) -> Self {
        F(self.0.powf(e.0))
    }

    fn sin_cos(self) -> (Self, Self) {
        let (s, c) = self.0.sin_cos();
        (F(s), F(c))
    }

    fn max(self, rhs: Self) -> Self {
        F(self.0.max(rhs.0))
    }

    fn min(self, rhs: Self) -> Self {
        F(self.0.min(rhs.0))
    }

    fn le(self, rhs: Self) -> bool {
        self.0 <= rhs.0
    }

    fn rank(self) -> u64 {
        let bits = self.0.to_bits();
        let key = if bits & 0x8000_0000 != 0 { !bits } else { bits | 0x8000_0000 };
        key as u64
    }
}

/// A small generator of reproducible weights in `[-0.5, 0.5)`.
struct Weights(u64);

impl Weights {
    fn next(&mut self) -> f32 {
        self.0 = self.0.wrapping_mul(6364136223846793005).wrapping_add(1442695040888963407);
        ((self.0 >> 40) as f32) / ((1u64 << 24) as f32) - 0.5
    }

    fn take(&mut self, n: usize) -> Vec<f32> {
        (0..n).map(|_| self.next()).collect()
    }
}

/// The weights of a model as plain numbers.
struct Raw {
    config: LlamaConfig,
    theta: f32,
    eps: f32,
    embedding: Vec<f32>,
    layers: Vec<RawLayer>,
    rms_out: Vec<f32>,
    lm_head: Vec<f32>,
}

struct RawLayer {
    rms_att: Vec<f32>,
    wq: Vec<f32>,
    wk: Vec<f32>,
    wv: Vec<f32>,
    wo: Vec<f32>,
    rms_ffn: Vec<f32>,
    w_up: Vec<f32>,
    w_gate: Vec<f32>,
    w_down: Vec<f32>,
}

fn config() -> LlamaConfig {
    LlamaConfig {
        n_layers: 2,
        n_q_heads: 4,
        n_kv_heads: 2,
        head_dim: 4,
        hidden_size: 6,
        intermediate_size: 10,
        vocab: 12,
        eos_token_id: None,
    }
}

fn raw(config: LlamaConfig, seed: u64) -> Raw {
    let mut w = Weights(seed);
    let d = config.hidden_size;
    let di = config.intermediate_size;
    let qw = config.n_q_heads * config.head_dim;
    let kvw = config.n_kv_heads * config.head_dim;
    let embedding = w.take(config.vocab * d);
    let layers = (0..config.n_layers)
        .map(|_| RawLayer {
            rms_att: w.take(d).iter().map(|x| x + 1.0).collect(),
            wq: w.take(qw * d),
            wk: w.take(kvw * d),
            wv: w.take(kvw * d),
            wo: w.take(d * qw),
            rms_ffn: w.take(d).iter().map(|x| x + 1.0).collect(),
            w_up: w.take(di * d),
            w_gate: w.take(di * d),
            w_down: w.take(d * di),
        })
        .collect();
    let rms_out = w.take(d).iter().map(|x| x + 1.0).collect();
    let lm_head = w.take(config.vocab * d);
    Raw { config, theta: 10000.0, eps: 1e-5, embedding, layers, rms_out, lm_head }
}

fn tensor(values: &[f32], shape: &[usize]) -> Tensor<F> {
    Tensor::<F>::new(values.iter().map(|v| F(*v)).collect(), &shape.to_vec()).unwrap()
}

fn model(raw: &Raw) -> Llama<F> {
    let c = raw.config;
    let d = c.hidden_size;
    let di = c.intermediate_size;
    let qw = c.n_q_heads * c.head_dim;
    let kvw = c.n_kv_heads * c.head_dim;
    let layers = raw
        .layers
        .iter()
        .map(|l| LayerWeights {
            rms_att_w: tensor(&l.rms_att, &[d]),
            wq: tensor(&l.wq, &[qw, d]),
            wk: tensor(&l.wk, &[kvw, d]),
            wv: tensor(&l.wv, &[kvw, d]),
            wo: tensor(&l.wo, &[d, qw]),
            rms_ffn_w: tensor(&l.rms_ffn, &[d]),
            w_up: tensor(&l.w_up, &[di, d]),
            w_gate: tensor(&l.w_gate, &[di, d]),
            w_down: tensor(&l.w_down, &[d, di]),
        })
        .collect();
    let built = Llama::new(
        c,
        F(raw.theta),
        F(raw.eps),
        tensor(&raw.embedding, &[c.vocab, d]),
        layers,
        tensor(&raw.rms_out, &[d]),
        tensor(&raw.lm_head, &[c.vocab, d]),
    );
    match built {
        Ok(m) => m,
        Err(e) => panic!("the model was refused: {:?}", e),
    }
}

fn values(t: &Tensor<F>) -> Vec<f32> {
    t.data().iter().map(|v| v.0).collect()
}

// A forward pass written down directly, position by position.

fn times(w: &[f32], rows: usize, cols: usize, x: &[f32]) -> Vec<f32> {
    (0..rows).map(|r| (0..cols).map(|c| w[r * cols + c] * x[c]).sum()).collect()
}

fn normed(x: &[f32], w: &[f32], eps: f32) -> Vec<f32> {
    let mean: f32 = x.iter().map(|v| v * v).sum::<f32>() / x.len() as f32;
    let scale = (mean + eps).sqrt();
    x.iter().zip(w).map(|(v, w)| w * v / scale).collect()
}

fn turned(x: &mut [f32], heads: usize, dh: usize, pos: usize, theta: f32) {
    for h in 0..heads {
        for i in 0..dh / 2 {
            let a = x[h * dh + i];
            let b = x[h * dh + i + dh / 2];
            let freq = pos as f32 / theta.powf((2 * i) as f32 / dh as f32);
            let (sin, cos) = freq.sin_cos();
            x[h * dh + i] = a * cos - b * sin;
            x[h * dh + i + dh / 2] = b * cos + a * sin;
        }
    }
}

/// The logits after every position of `tokens`, computed from scratch.
fn reference(raw: &Raw, tokens: &[u32]) -> Vec<Vec<f32>> {
    let c = raw.config;
    let d = c.hidden_size;
    let dh = c.head_dim;
    let qw = c.n_q_heads * dh;
    let kvw = c.n_kv_heads * dh;
    let groups = c.n_q_heads / c.n_kv_heads;
    let mut xs: Vec<Vec<f32>> =
        tokens.iter().map(|t| raw.embedding[*t as usize * d..][..d].to_vec()).collect();
    for layer in &raw.layers {
        let mut keys: Vec<Vec<f32>> = Vec::new();
        let mut vals: Vec<Vec<f32>> = Vec::new();
        let mut queries: Vec<Vec<f32>> = Vec::new();
        for (pos, x) in xs.iter().enumerate() {
            let h = normed(x, &layer.rms_att, raw.eps);
            let mut q = times(&layer.wq, qw, d, &h);
            let mut k = times(&layer.wk, kvw, d, &h);
            turned(&mut q, c.n_q_heads, dh, pos, raw.theta);
            turned(&mut k, c.n_kv_heads, dh, pos, raw.theta);
            queries.push(q);
            keys.push(k);
            vals.push(times(&layer.wv, kvw, d, &h));
        }
        for pos in 0..xs.len() {
            let mut att = vec![0.0f32; qw];
            for head in 0..c.n_q_heads {
                let kv = head / groups;
                let q = &queries[pos][head * dh..][..dh];
                let scores: Vec<f32> = (0..=pos)
                    .map(|j| {
                        let k = &keys[j][kv * dh..][..dh];
                        q.iter().zip(k).map(|(a, b)| a * b).sum::<f32>() / (dh as f32).sqrt()
                    })
                    .collect();
                let top = scores.iter().cloned().fold(f32::NEG_INFINITY, f32::max);
                let weights: Vec<f32> = scores.iter().map(|s| (s - top).exp()).collect();
                let mass: f32 = weights.iter().sum();
                for j in 0..=pos {
                    for e in 0..dh {
                        att[head * dh + e] += weights[j] / mass * vals[j][kv * dh + e];
                    }
                }
            }
            let o = times(&layer.wo, d, qw, &att);
            for e in 0..d {
                xs[pos][e] += o[e];
            }
            let h = normed(&xs[pos], &layer.rms_ffn, raw.eps);
            let gate = times(&layer.w_gate, c.intermediate_size, d, &h);
            let up = times(&layer.w_up, c.intermediate_size, d, &h);
            let act: Vec<f32> =
                gate.iter().zip(&up).map(|(g, u)| g / (1.0 + (-g).exp()) * u).collect();
            let down = times(&layer.w_down, d, c.intermediate_size, &act);
            for e in 0..d {
                xs[pos][e] += down[e];
            }
        }
    }
    xs.iter()
        .map(|x| times(&raw.lm_head, c.vocab, d, &normed(x, &raw.rms_out, raw.eps)))
        .collect()
}

fn assert_close(got: &[f32], want: &[f32], tol: f32) {
    assert_eq!(got.len(), want.len());
    for (g, w) in got.iter().zip(want) {
        assert!((g - w).abs() <= tol, "{} vs {}", g, w);
    }
}

#[test]
fn forward_matches_a_direct_computation() {
    let raw = raw(config(), 7);
    let m = model(&raw);
    let tokens: Vec<u32> = vec![3, 0, 11, 5, 5, 2];
    let want = reference(&raw, &tokens);
    let mut cache = m.new_cache();
    let logits = m.forward(&tokens, &mut cache);
    assert_eq!(logits.shape(), &vec![1, 12]);
    assert_close(&values(&logits), &want[5], 1e-4);
    assert_eq!(cache.len(), 6);
}

#[test]
fn forward_with_one_key_head_per_query_head() {
    let mut c = config();
    c.n_q_heads = 3;
    c.n_kv_heads = 3;
    c.head_dim = 2;
    c.n_layers = 1;
    let raw = raw(c, 99);
    let m = model(&raw);
    let tokens: Vec<u32> = vec![1, 2, 3];
    let want = reference(&raw, &tokens);
    let mut cache = m.new_cache();
    assert_close(&values(&m.forward(&tokens, &mut cache)), &want[2], 1e-4);
}

#[test]
fn incremental_decoding_matches_a_full_pass() {
    let raw = raw(config(), 2024);
    let m = model(&raw);
    let tokens: Vec<u32> = vec![4, 9, 1, 1, 7, 0, 10, 3];
    let want = reference(&raw, &tokens);
    // one position per call
    let mut cache = m.new_cache();
    let mut last = Vec::new();
    for (n, t) in tokens.iter().enumerate() {
        last = values(&m.forward(&vec![*t], &mut cache));
        assert_eq!(cache.len(), n + 1);
        assert_close(&last, &want[n], 1e-4);
    }
    // all positions at once, from a fresh cache
    let mut fresh = m.new_cache();
    let full = values(&m.forward(&tokens, &mut fresh));
    assert_eq!(fresh.len(), 8);
    assert_close(&last, &full, 1e-4);
    // the two caches hold the same keys and values, layer by layer
    assert_eq!(cache.n_layers(), 2);
    for l in 0..2 {
        assert_eq!(cache.keys(l).len(), 8 * 2 * 4);
        assert_eq!(cache.values(l).len(), 8 * 2 * 4);
        let a: Vec<f32> = cache.keys(l).iter().map(|v| v.0).collect();
        let b: Vec<f32> = fresh.keys(l).iter().map(|v| v.0).collect();
        assert_close(&a, &b, 1e-4);
        let a: Vec<f32> = cache.values(l).iter().map(|v| v.0).collect();
        let b: Vec<f32> = fresh.values(l).iter().map(|v| v.0).collect();
        assert_close(&a, &b, 1e-4);
    }
}

#[test]
fn a_prompt_in_two_parts_matches_the_whole() {
    let raw = raw(config(), 5);
    let m = model(&raw);
    let tokens: Vec<u32> = vec![8, 8, 2, 6, 0];
    let want = reference(&raw, &tokens);
    let mut cache = m.new_cache();
    let first = values(&m.forward(&vec![8, 8, 2], &mut cache));
    assert_close(&first, &want[2], 1e-4);
    let before: Vec<f32> = cache.keys(1).iter().map(|v| v.0).collect();
    let second = values(&m.forward(&vec![6, 0], &mut cache));
    assert_close(&second, &want[4], 1e-4);
    assert_eq!(cache.len(), 5);
    // what was cached stays where it was
    let after: Vec<f32> = cache.keys(1).iter().map(|v| v.0).collect();
    assert_eq!(&after[..before.len()], &before[..]);
}

#[test]
fn generate_with_no_budget_returns_nothing() {
    let m = model(&raw(config(), 1));
    assert_eq!(m.generate(&vec![1, 2, 3], 0, F(0.9), 4, F(1.0)), Vec::<u32>::new());
    assert_eq!(m.generate(&vec![], 0, F(0.9), 4, F(1.0)), Vec::<u32>::new());
    assert_eq!(m.generate(&vec![], 5, F(0.9), 4, F(1.0)), Vec::<u32>::new());
}

#[test]
fn greedy_generation_follows_the_argmax() {
    let raw = raw(config(), 31);
    let m = model(&raw);
    let prompt: Vec<u32> = vec![2, 7];
    let out = m.generate(&prompt, 5, F(0.9), 4, F(0.0));
    assert_eq!(out.len(), 5);
    // each token is the greedy choice after all that precedes it
    let mut all = prompt.clone();
    for tok in &out {
        let logits = reference(&raw, &all);
        let last = &logits[all.len() - 1];
        let mut best = 0;
        for (i, v) in last.iter().enumerate() {
            if *v > last[best] {
                best = i;
            }
        }
        assert_eq!(*tok as usize, best);
        all.push(*tok);
    }
    // and generation repeats itself
    assert_eq!(m.generate(&prompt, 5, F(0.9), 4, F(0.0)), out);
}

#[test]
fn generation_stops_at_the_end_token() {
    let raw0 = raw(config(), 31);
    let free = model(&raw0).generate(&vec![2, 7], 6, F(0.9), 4, F(0.0));
    assert_eq!(free.len(), 6);
    // make the third token the end token
    let mut c = config();
    c.eos_token_id = Some(free[2]);
    let first = free.iter().position(|t| *t == free[2]).unwrap();
    let m = model(&raw(c, 31));
    let out = m.generate(&vec![2, 7], 6, F(0.9), 4, F(0.0));
    assert_eq!(out, free[..=first].to_vec());
    assert_eq!(*out.last().unwrap(), free[2]);
}

#[test]
fn sampled_generation_stays_in_the_vocabulary() {
    let m = model(&raw(config(), 77));
    for _ in 0..20 {
        let out = m.generate(&vec![0, 1, 2, 3], 7, F(0.95), 5, F(1.3));
        assert_eq!(out.len(), 7);
        assert!(out.iter().all(|t| (*t as usize) < 12));
    }
}

#[test]
fn chat_extends_the_cache_turn_by_turn() {
    let raw = raw(config(), 13);
    let m = model(&raw);
    let cache = m.new_cache();
    assert_eq!(cache.len(), 0);
    let (first, cache) = m.chat(&vec![5, 6, 7], 4, F(0.9), 4, F(0.0), cache);
    assert_eq!(first.len(), 4);
    // the turn and all but the last token of the answer
    assert_eq!(cache.len(), 3 + 3);
    let (second, cache) = m.chat(&vec![first[3], 9], 2, F(0.9), 4, F(0.0), cache);
    assert_eq!(second.len(), 2);
    assert_eq!(cache.len(), 6 + 2 + 1);
    // the conversation reads like one long prompt
    let mut all: Vec<u32> = vec![5, 6, 7];
    all.extend(&first);
    all.push(9);
    let logits = reference(&raw, &all);
    let last = &logits[all.len() - 1];
    let mut best = 0;
    for (i, v) in last.iter().enumerate() {
        if *v > last[best] {
            best = i;
        }
    }
    assert_eq!(second[0] as usize, best);
    // an empty turn changes nothing
    let (none, cache) = m.chat(&vec![], 3, F(0.9), 4, F(0.0), cache);
    assert!(none.is_empty());
    assert_eq!(cache.len(), 9);
    // a turn without budget is taken in all the same
    let (none, cache) = m.chat(&vec![1, 1], 0, F(0.9), 4, F(0.0), cache);
    assert!(none.is_empty());
    assert_eq!(cache.len(), 11);
}

#[test]
fn cache_append_and_read() {
    let mut cache = KVCache::<F>::new(2, 3);
    assert_eq!(cache.n_layers(), 2);
    assert_eq!(cache.len(), 0);
    let k: Vec<F> = [1., 2., 3., 4., 5., 6.].iter().map(|v| F(*v)).collect();
    let v: Vec<F> = [7., 8., 9., 10., 11., 12.].iter().map(|v| F(*v)).collect();
    cache.append(0, &k, &v);
    assert_eq!(cache.len(), 2);
    assert_eq!(cache.keys(0), &k);
    assert_eq!(cache.values(0), &v);
    assert!(cache.keys(1).is_empty());
    cache.append(1, &k, &v);
    cache.append(0, &v[..3].to_vec(), &k[..3].to_vec());
    assert_eq!(cache.len(), 3);
    assert_eq!(cache.keys(0).len(), 9);
    assert_eq!(cache.keys(0)[..6], k[..]);
    assert_eq!(cache.keys(0)[6..], v[..3]);
    assert_eq!(cache.values(0)[6..], k[..3]);
    assert_eq!(cache.keys(1), &k);
    cache.append(1, &vec![], &vec![]);
    assert_eq!(cache.keys(1).len(), 6);
    assert_eq!(KVCache::<F>::new(0, 1).len(), 0);
}

#[test]
fn a_model_needs_consistent_hyperparameters() {
    let good = raw(config(), 3);
    let build = |c: LlamaConfig| {
        let d = c.hidden_size;
        Llama::new(
            c,
            F(10000.0),
            F(1e-5),
            tensor(&vec![0.0; c.vocab * d], &[c.vocab, d]),
            Vec::new(),
            tensor(&vec![0.0; d], &[d]),
            tensor(&vec![0.0; c.vocab * d], &[c.vocab, d]),
        )
        .err()
    };
    let mut c = good.config;
    c.head_dim = 3;
    assert_eq!(build(c), Some(ModelError::Config));
    let mut c = good.config;
    c.n_kv_heads = 3;
    assert_eq!(build(c), Some(ModelError::Config));
    let mut c = good.config;
    c.n_kv_heads = 0;
    assert_eq!(build(c), Some(ModelError::Config));
    let mut c = good.config;
    c.n_layers = 0;
    assert_eq!(build(c), Some(ModelError::Config));
    let mut c = good.config;
    c.n_q_heads = usize::MAX;
    c.n_kv_heads = 1;
    assert_eq!(build(c), Some(ModelError::Config));
    // well-formed hyperparameters, but no layer weights
    assert_eq!(build(good.config), Some(ModelError::WeightShape));
}

#[test]
fn a_model_needs_weights_of_the_right_shape() {
    let good = raw(config(), 3);
    assert!(model(&good).config.is_valid());
    let c = good.config;
    let d = c.hidden_size;
    let layer = |wo_shape: &[usize]| {
        let l = &good.layers[0];
        LayerWeights {
            rms_att_w: tensor(&l.rms_att, &[d]),
            wq: tensor(&l.wq, &[16, d]),
            wk: tensor(&l.wk, &[8, d]),
            wv: tensor(&l.wv, &[8, d]),
            wo: tensor(&l.wo, wo_shape),
            rms_ffn_w: tensor(&l.rms_ffn, &[d]),
            w_up: tensor(&l.w_up, &[10, d]),
            w_gate: tensor(&l.w_gate, &[10, d]),
            w_down: tensor(&l.w_down, &[d, 10]),
        }
    };
    let build = |layers: Vec<LayerWeights<F>>, head: &[usize]| {
        Llama::new(
            c,
            F(10000.0),
            F(1e-5),
            tensor(&good.embedding, &[c.vocab, d]),
            layers,
            tensor(&good.rms_out, &[d]),
            tensor(&good.lm_head, head),
        )
        .err()
    };
    assert_eq!(build(vec![layer(&[d, 16]), layer(&[d, 16])], &[12, d]), None);
    // one weight transposed
    assert_eq!(
        build(vec![layer(&[d, 16]), layer(&[16, d])], &[12, d]),
        Some(ModelError::WeightShape)
    );
    // a layer missing
    assert_eq!(build(vec![layer(&[d, 16])], &[12, d]), Some(ModelError::WeightShape));
    // the output projection flattened
    assert_eq!(
        build(vec![layer(&[d, 16]), layer(&[d, 16])], &[12 * d]),
        Some(ModelError::WeightShape)
    );
}

#[test]
fn checks_before_a_forward_pass() {
    let m = model(&raw(config(), 3));
    assert!(m.accepts_tokens(&vec![0, 11, 5]));
    assert!(m.accepts_tokens(&vec![]));
    assert!(!m.accepts_tokens(&vec![0, 12]));
    assert!(m.fits_in_memory(0));
    assert!(m.fits_in_memory(1 << 20));
    assert!(!m.fits_in_memory(usize::MAX));
    assert!(!m.fits_in_memory(usize::MAX / 8));
}
