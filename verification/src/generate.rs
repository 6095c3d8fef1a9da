//! The generation loop.

use crate::forward::{
    is_forward, lemma_forward_extends_cache, lemma_prefix_chain, lemma_sizes, ForwardTrace,
};
use crate::kvcache::KVCache;
use crate::model::{is_matrix, Llama};
use crate::operators::random_sample;
use crate::sampling::is_sample;
use crate::scalar::Scalar;
use vstd::prelude::*;

verus! {

/// A forward pass over `tokens` takes the cache from `before` to `after`
/// and yields `logits`.
pub open spec fn forwards<T: Scalar>(
    m: Llama<T>,
    tokens: Seq<u32>,
    before: KVCache<T>,
    after: KVCache<T>,
    logits: Seq<T>,
) -> bool {
    exists|tr: ForwardTrace<T>| is_forward(m, tokens, before, tr, after, logits)
}

/// The intermediate values of a generation.
pub struct DecodeTrace<T> {
    /// The cache after the prompt, and after each token that was fed
    /// back.
    pub caches: Seq<KVCache<T>>,
    /// The logits after the prompt, and after each token that was fed
    /// back.
    pub logits: Seq<Seq<T>>,
    /// The random bits of each sample.
    pub bits: Seq<u32>,
}

/// Token `i` of `out` was fed back: a forward pass over it alone took
/// cache `i` to cache `i + 1` and yielded logits `i + 1`.
pub open spec fn is_fed_back<T: Scalar>(m: Llama<T>, tr: DecodeTrace<T>, out: Seq<u32>, i: int) -> bool {
    forwards(m, seq![out[i]], tr.caches[i], tr.caches[i + 1], tr.logits[i + 1])
}

/// `out` was generated after `ids`, with the cache going from `before`
/// to `after`.
///
/// A forward pass over `ids` yields the first logits. Each token of
/// `out` is a sample of the latest logits, and each but the last is fed
/// back for the next logits.
pub open spec fn is_decoding<T: Scalar>(
    m: Llama<T>,
    ids: Seq<u32>,
    top_p: T,
    top_k: u32,
    temperature: T,
    before: KVCache<T>,
    tr: DecodeTrace<T>,
    out: Seq<u32>,
    after: KVCache<T>,
) -> bool {
    &&& tr.caches.len() == fed_back(out.len()) + 1
    &&& tr.logits.len() == tr.caches.len()
    &&& tr.bits.len() == out.len()
    &&& forwards(m, ids, before, tr.caches[0], tr.logits[0])
    &&& forall|i: int|
        0 <= i < out.len() ==> is_sample(
            tr.logits[i],
            top_p,
            top_k,
            temperature,
            tr.bits[i],
            #[trigger] out[i],
        )
    &&& forall|i: int| 0 <= i < out.len() - 1 ==> is_fed_back(m, tr, out, i)
    &&& after == tr.caches.last()
}

/// During a generation the cache grows by one position with every token
/// that is fed back: cache `i` holds, in every layer, what was cached
/// before, then the positions of `ids`, then `i` more.
pub proof fn lemma_decoding_extends_cache<T: Scalar>(
    m: Llama<T>,
    ids: Seq<u32>,
    top_p: T,
    top_k: u32,
    temperature: T,
    before: KVCache<T>,
    tr: DecodeTrace<T>,
    out: Seq<u32>,
    after: KVCache<T>,
    i: int,
    l: int,
)
    requires
        is_decoding(m, ids, top_p, top_k, temperature, before, tr, out, after),
        0 <= i < tr.caches.len(),
        0 <= l < m.config.n_layers,
    ensures
        before.grows_to(&tr.caches[i], l, (ids.len() + i) * m.config.kv_width()),
    decreases i,
{
    let w = m.config.kv_width();
    if i == 0 {
        let f = choose|f: ForwardTrace<T>|
            is_forward(m, ids, before, f, tr.caches[0], tr.logits[0]);
        lemma_forward_extends_cache(m, ids, before, f, tr.caches[0], tr.logits[0]);
        assert(before.grows_to(&tr.caches[0], l, ids.len() * w));
    } else {
        lemma_decoding_extends_cache(
            m,
            ids,
            top_p,
            top_k,
            temperature,
            before,
            tr,
            out,
            after,
            i - 1,
            l,
        );
        assert(is_fed_back(m, tr, out, i - 1));
        let one = seq![out[i - 1]];
        let prev = tr.caches[i - 1];
        let next = tr.caches[i];
        let logits = tr.logits[i];
        let f = choose|f: ForwardTrace<T>| is_forward(m, one, prev, f, next, logits);
        lemma_forward_extends_cache(m, one, prev, f, next, logits);
        assert(prev.grows_to(&next, l, one.len() * w));
        assert(before.grows_to(&prev, l, (ids.len() + (i - 1)) * w));
        assert(one.len() * w == 1 * w);
        assert((ids.len() + i) * w == (ids.len() + (i - 1)) * w + 1 * w) by (nonlinear_arith);
        lemma_prefix_chain(
            before.keys_of(l),
            tr.caches[i - 1].keys_of(l),
            tr.caches[i].keys_of(l),
        );
        lemma_prefix_chain(
            before.values_of(l),
            tr.caches[i - 1].values_of(l),
            tr.caches[i].values_of(l),
        );
    }
}

/// `out` was generated after `prompt`, starting from an empty cache.
pub open spec fn is_generation<T: Scalar>(
    m: Llama<T>,
    prompt: Seq<u32>,
    top_p: T,
    top_k: u32,
    temperature: T,
    out: Seq<u32>,
) -> bool {
    exists|fresh: KVCache<T>, tr: DecodeTrace<T>, after: KVCache<T>|
        #![trigger is_decoding(m, prompt, top_p, top_k, temperature, fresh, tr, out, after)]
        m.owns(&fresh) && fresh.cached() == 0 && is_decoding(
            m,
            prompt,
            top_p,
            top_k,
            temperature,
            fresh,
            tr,
            out,
            after,
        )
}

/// `out` is a continuation of at most `budget` tokens of a vocabulary of
/// `vocab` tokens: only its last token may be the end token `eos`, and
/// it is shorter than the budget only if it ends with that token.
pub open spec fn is_continuation(out: Seq<u32>, budget: int, eos: Option<u32>, vocab: int) -> bool {
    &&& out.len() <= budget
    &&& forall|i: int| 0 <= i < out.len() ==> (#[trigger] out[i]) < vocab
    &&& forall|i: int| 0 <= i < out.len() - 1 ==> Some(#[trigger] out[i]) != eos
    &&& out.len() < budget ==> out.len() > 0 && Some(out.last()) == eos
}

/// How many of `n` sampled tokens were fed back to the model: all but
/// the last.
pub open spec fn fed_back(n: nat) -> nat {
    if n == 0 {
        0
    } else {
        (n - 1) as nat
    }
}

impl<T: Scalar> Llama<T> {
    /// Samples tokens one by one, feeding each back, after `ids` have
    /// been taken in.
    fn decode(
        &self,
        ids: &Vec<u32>,
        max_new_tokens: usize,
        top_p: T,
        top_k: u32,
        temperature: T,
        cache: &mut KVCache<T>,
    ) -> (out: Vec<u32>)
        requires
            self.wf(),
            self.owns(old(cache)),
            ids.len() > 0,
            self.accepts(ids@),
            self.fits(old(cache).cached() + ids.len() + max_new_tokens),
        ensures
            self.owns(final(cache)),
            is_continuation(
                out@,
                max_new_tokens as int,
                self.config.eos_token_id,
                self.config.vocab as int,
            ),
            final(cache).cached() == old(cache).cached() + ids.len() + fed_back(out@.len()),
            forall|l: int|
                0 <= l < self.config.n_layers ==> old(cache).keys_of(l).is_prefix_of(
                    #[trigger] final(cache).keys_of(l),
                ),
            forall|l: int|
                0 <= l < self.config.n_layers ==> old(cache).values_of(l).is_prefix_of(
                    #[trigger] final(cache).values_of(l),
                ),
            exists|tr: DecodeTrace<T>|
                is_decoding(
                    *self,
                    ids@,
                    top_p,
                    top_k,
                    temperature,
                    *old(cache),
                    tr,
                    out@,
                    *final(cache),
                ),
    {
        let ghost base = old(cache).cached() + ids.len();
        let ghost limit = base + max_new_tokens;
        let eos = self.config.eos_token_id;
        proof {
            self.lemma_fits_earlier(limit as int, base as int);
        }
        let mut logits = self.forward(ids, cache);
        let mut out: Vec<u32> = Vec::new();
        let mut done = false;
        let ghost mut tr = DecodeTrace { caches: seq![*cache], logits: seq![logits@], bits: Seq::empty() };
        assert(forwards(*self, ids@, *old(cache), tr.caches[0], tr.logits[0]));
        while !done && out.len() < max_new_tokens
            invariant
                self.wf(),
                tr.logits.len() == tr.caches.len(),
                tr.bits.len() == out.len(),
                !done ==> tr.caches.len() == out.len() + 1 && tr.logits.last() == logits@,
                done ==> tr.caches.len() == out.len(),
                tr.caches.last() == *cache,
                forwards(*self, ids@, *old(cache), tr.caches[0], tr.logits[0]),
                forall|i: int|
                    0 <= i < out.len() ==> is_sample(
                        tr.logits[i],
                        top_p,
                        top_k,
                        temperature,
                        tr.bits[i],
                        #[trigger] out[i],
                    ),
                forall|i: int| 0 <= i < tr.caches.len() - 1 ==> is_fed_back(*self, tr, out@, i),
                self.owns(cache),
                eos == self.config.eos_token_id,
                base == old(cache).cached() + ids.len(),
                limit == base + max_new_tokens,
                self.fits(limit as int),
                is_matrix(&logits, 1, self.config.vocab as int),
                out.len() <= max_new_tokens,
                forall|i: int| 0 <= i < out.len() ==> (#[trigger] out[i]) < self.config.vocab,
                forall|i: int| 0 <= i < out.len() - 1 ==> Some(#[trigger] out[i]) != eos,
                !done ==> cache.cached() == base + out.len(),
                !done && out.len() > 0 ==> Some(out[out.len() - 1]) != eos && out.len()
                    < max_new_tokens,
                done ==> out.len() > 0 && cache.cached() == base + out.len() - 1 && (Some(
                    out[out.len() - 1],
                ) == eos || out.len() == max_new_tokens),
                forall|l: int|
                    0 <= l < self.config.n_layers ==> old(cache).keys_of(l).is_prefix_of(
                        #[trigger] cache.keys_of(l),
                    ),
                forall|l: int|
                    0 <= l < self.config.n_layers ==> old(cache).values_of(l).is_prefix_of(
                        #[trigger] cache.values_of(l),
                    ),
            decreases max_new_tokens - out.len() + (if done { 0int } else { 1int }),
        {
            proof {
                lemma_sizes(&logits);
                assert(1 * self.config.vocab == self.config.vocab) by (nonlinear_arith);
            }
            let tok = random_sample(&logits, top_p, top_k, temperature);
            let ghost bits = choose|bits: u32|
                is_sample(logits@, top_p, top_k, temperature, bits, tok);
            let ghost earlier = tr;
            let ghost sampled = out@;
            out.push(tok);
            proof {
                tr = DecodeTrace { caches: tr.caches, logits: tr.logits, bits: tr.bits.push(bits) };
                assert forall|i: int| 0 <= i < tr.caches.len() - 1 implies is_fed_back(
                    *self,
                    tr,
                    out@,
                    i,
                ) by {
                    assert(is_fed_back(*self, earlier, sampled, i));
                    assert(out@[i] == sampled[i]);
                }
            }
            let ends = match eos {
                Some(e) => e == tok,
                None => false,
            };
            if ends || out.len() >= max_new_tokens {
                done = true;
            } else {
                let next: Vec<u32> = vec![tok];
                let ghost before = *cache;
                proof {
                    self.lemma_fits_earlier(limit as int, (cache.cached() + 1) as int);
                }
                logits = self.forward(&next, cache);
                proof {
                    let grown = tr;
                    tr = DecodeTrace {
                        caches: tr.caches.push(*cache),
                        logits: tr.logits.push(logits@),
                        bits: tr.bits,
                    };
                    assert(next@ =~= seq![tok]);
                    assert forall|i: int| 0 <= i < tr.caches.len() - 1 implies is_fed_back(
                        *self,
                        tr,
                        out@,
                        i,
                    ) by {
                        if i < grown.caches.len() - 1 {
                            assert(is_fed_back(*self, grown, out@, i));
                        } else {
                            assert(tr.caches[i] == before);
                            assert(forwards(*self, next@, before, *cache, logits@));
                        }
                    }
                    assert forall|l: int| 0 <= l < self.config.n_layers implies old(
                        cache,
                    ).keys_of(l).is_prefix_of(#[trigger] cache.keys_of(l)) && old(
                        cache,
                    ).values_of(l).is_prefix_of(cache.values_of(l)) by {
                        lemma_prefix_chain(old(cache).keys_of(l), before.keys_of(l), cache.keys_of(l));
                        lemma_prefix_chain(
                            old(cache).values_of(l),
                            before.values_of(l),
                            cache.values_of(l),
                        );
                    }
                }
            }
        }
        proof {
            assert(is_decoding(
                *self,
                ids@,
                top_p,
                top_k,
                temperature,
                *old(cache),
                tr,
                out@,
                *cache,
            ));
        }
        out
    }

    /// Continues `prompt` by at most `max_new_tokens` tokens.
    ///
    /// The prompt is taken in at once; then tokens are sampled one by
    /// one, each fed back before the next is sampled. Generation stops
    /// when the budget is used up or the end token has been sampled; the
    /// end token is the last token of the result. The result holds the
    /// new tokens only, not the prompt. The cache of the generation is
    /// dropped at the end.
    ///
    /// Nothing follows an empty prompt.
    pub fn generate(
        &self,
        prompt: &Vec<u32>,
        max_new_tokens: usize,
        top_p: T,
        top_k: u32,
        temperature: T,
    ) -> (out: Vec<u32>)
        requires
            self.wf(),
            self.accepts(prompt@),
            self.fits(prompt.len() + max_new_tokens),
        ensures
            max_new_tokens == 0 || prompt.len() == 0 ==> out.len() == 0,
            prompt.len() > 0 ==> is_continuation(
                out@,
                max_new_tokens as int,
                self.config.eos_token_id,
                self.config.vocab as int,
            ),
            prompt.len() > 0 && max_new_tokens > 0 ==> is_generation(
                *self,
                prompt@,
                top_p,
                top_k,
                temperature,
                out@,
            ),
    {
        if prompt.len() == 0 || max_new_tokens == 0 {
            return Vec::new();
        }
        let mut cache = self.new_cache();
        let ghost fresh = cache;
        let out = self.decode(prompt, max_new_tokens, top_p, top_k, temperature, &mut cache);
        proof {
            let tr = choose|tr: DecodeTrace<T>|
                is_decoding(*self, prompt@, top_p, top_k, temperature, fresh, tr, out@, cache);
            assert(is_decoding(*self, prompt@, top_p, top_k, temperature, fresh, tr, out@, cache));
        }
        out
    }

    /// Continues a conversation by one turn: takes `turn` in on top of
    /// what `cache` holds, and answers with at most `max_new_tokens`
    /// tokens, sampled as in [`Llama::generate`].
    ///
    /// The cache comes back extended by the turn and by every token of
    /// the answer that was fed back, which is every one but the last.
    /// An empty turn leaves the cache as it was and has no answer.
    pub fn chat(
        &self,
        turn: &Vec<u32>,
        max_new_tokens: usize,
        top_p: T,
        top_k: u32,
        temperature: T,
        cache: KVCache<T>,
    ) -> (r: (Vec<u32>, KVCache<T>))
        requires
            self.wf(),
            self.owns(&cache),
            self.accepts(turn@),
            self.fits(cache.cached() + turn.len() + max_new_tokens),
        ensures
            self.owns(&r.1),
            turn.len() == 0 ==> r.0.len() == 0 && r.1 == cache,
            turn.len() > 0 ==> is_continuation(
                r.0@,
                max_new_tokens as int,
                self.config.eos_token_id,
                self.config.vocab as int,
            ) && r.1.cached() == cache.cached() + turn.len() + fed_back(r.0@.len()),
            turn.len() > 0 ==> exists|tr: DecodeTrace<T>|
                is_decoding(*self, turn@, top_p, top_k, temperature, cache, tr, r.0@, r.1),
            forall|l: int|
                0 <= l < self.config.n_layers ==> cache.keys_of(l).is_prefix_of(
                    #[trigger] r.1.keys_of(l),
                ),
            forall|l: int|
                0 <= l < self.config.n_layers ==> cache.values_of(l).is_prefix_of(
                    #[trigger] r.1.values_of(l),
                ),
    {
        let mut cache = cache;
        if turn.len() == 0 {
            return (Vec::new(), cache);
        }
        let out = self.decode(turn, max_new_tokens, top_p, top_k, temperature, &mut cache);
        (out, cache)
    }
}

} // verus!
