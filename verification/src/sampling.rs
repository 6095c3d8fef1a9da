//! The order in which candidates are drawn and the choice among them.
//!
//! Candidates are compared by the rank of their logit, an integer, so the
//! order is exact: greater rank first, and among equal ranks the lower
//! index first.

use crate::scalar::{
    is_difference, is_exp, is_le, is_min, is_one, is_product, is_quotient, is_rank, is_sum,
    is_uniform, is_zero, Scalar,
};
use crate::tensor::Tensor;
use vstd::prelude::*;

verus! {

/// `ranks` holds a rank of each value, position by position.
pub open spec fn are_ranks<T: Scalar>(values: Seq<T>, ranks: Seq<u64>) -> bool {
    &&& ranks.len() == values.len()
    &&& forall|i: int| 0 <= i < values.len() ==> is_rank(values[i], #[trigger] ranks[i])
}

/// `i` is the first position that holds the greatest rank.
pub open spec fn is_argmax(ranks: Seq<u64>, i: int) -> bool {
    &&& 0 <= i < ranks.len()
    &&& forall|j: int| 0 <= j < ranks.len() ==> ranks[j] <= ranks[i]
    &&& forall|j: int| 0 <= j < i ==> ranks[j] < ranks[i]
}

/// Candidate `a` is drawn before candidate `b`: it has the greater rank,
/// or the same rank and the lower index.
pub open spec fn comes_before(ranks: Seq<u64>, a: int, b: int) -> bool {
    ranks[a] > ranks[b] || (ranks[a] == ranks[b] && a < b)
}

/// `order` lists every candidate once, each before all those it is drawn
/// before.
pub open spec fn is_sampling_order(ranks: Seq<u64>, order: Seq<u32>) -> bool {
    &&& order.len() == ranks.len()
    &&& forall|i: int| 0 <= i < order.len() ==> (#[trigger] order[i]) < ranks.len()
    &&& forall|i: int, j: int|
        0 <= i < j < order.len() ==> comes_before(ranks, order[i] as int, order[j] as int)
}

/// `order` mentions candidate `c`.
pub open spec fn mentions(order: Seq<u32>, c: int) -> bool {
    exists|k: int| 0 <= k < order.len() && order[k] == c
}

/// The greedy choice is determined by the ranks: two answers to the same
/// question are the same answer.
pub proof fn lemma_argmax_unique(ranks: Seq<u64>, i: int, j: int)
    requires
        is_argmax(ranks, i),
        is_argmax(ranks, j),
    ensures
        i == j,
{
    if i < j {
        assert(ranks[i] < ranks[j]);
        assert(ranks[j] <= ranks[i]);
    } else if j < i {
        assert(ranks[j] < ranks[i]);
        assert(ranks[i] <= ranks[j]);
    }
}

/// The candidate drawn first is the greedy choice.
pub proof fn lemma_order_starts_at_argmax(ranks: Seq<u64>, order: Seq<u32>)
    requires
        is_sampling_order(ranks, order),
        order.len() > 0,
    ensures
        is_argmax(ranks, order[0] as int),
{
    let first = order[0] as int;
    lemma_order_is_complete(ranks, order);
    assert forall|j: int| 0 <= j < ranks.len() implies ranks[j] <= ranks[first] && (j < first
        ==> ranks[j] < ranks[first]) by {
        assert(mentions(order, j));
        let k = choose|k: int| 0 <= k < order.len() && order[k] == j;
        if k > 0 {
            assert(comes_before(ranks, order[0] as int, order[k] as int));
        }
    }
}

/// A sampling order mentions every candidate.
pub proof fn lemma_order_is_complete(ranks: Seq<u64>, order: Seq<u32>)
    requires
        is_sampling_order(ranks, order),
    ensures
        forall|c: int| 0 <= c < ranks.len() ==> mentions(order, c),
{
    let n = ranks.len() as int;
    assert forall|i: int, j: int| 0 <= i < j < order.len() implies order[i] != order[j] by {
        assert(comes_before(ranks, order[i] as int, order[j] as int));
    }
    let listed = order.map_values(|t: u32| t as int);
    assert(listed.no_duplicates());
    listed.unique_seq_to_set();
    let all = vstd::set_lib::set_int_range(0, n);
    vstd::set_lib::lemma_int_range(0, n);
    assert(listed.to_set().subset_of(all)) by {
        assert forall|c: int| listed.to_set().contains(c) implies all.contains(c) by {
            let k = choose|k: int| 0 <= k < listed.len() && listed[k] == c;
            assert(order[k] < ranks.len());
        }
    }
    vstd::set_lib::lemma_subset_equality(listed.to_set(), all);
    assert forall|c: int| 0 <= c < n implies mentions(order, c) by {
        assert(all.contains(c));
        assert(listed.to_set().contains(c));
        let k = choose|k: int| 0 <= k < listed.len() && listed[k] == c;
        assert(order[k] == c);
    }
}

/// The tie-break leaves no freedom: the ranks determine the order.
pub proof fn lemma_sampling_order_unique(ranks: Seq<u64>, a: Seq<u32>, b: Seq<u32>)
    requires
        is_sampling_order(ranks, a),
        is_sampling_order(ranks, b),
    ensures
        a == b,
{
    assert forall|k: int| 0 <= k < a.len() implies a[k] == b[k] by {
        lemma_same_position(ranks, a, b, k);
    }
    assert(a =~= b);
}

/// The number of candidates drawn before a given one is its position in
/// any sampling order, so two orders agree position by position.
proof fn lemma_same_position(ranks: Seq<u64>, a: Seq<u32>, b: Seq<u32>, k: int)
    requires
        is_sampling_order(ranks, a),
        is_sampling_order(ranks, b),
        0 <= k < a.len(),
    ensures
        a[k] == b[k],
    decreases k,
{
    lemma_order_is_complete(ranks, a);
    lemma_order_is_complete(ranks, b);
    // where does b hold the candidate a[k]?
    let c = a[k] as int;
    assert(mentions(b, c));
    let m = choose|m: int| 0 <= m < b.len() && b[m] == c;
    if m < k {
        // b[m] sits earlier in a as well, by induction
        lemma_same_position(ranks, a, b, m);
        assert(comes_before(ranks, a[m] as int, a[k] as int));
    } else if m > k {
        // b[k] is drawn before c, so a holds it before position k
        let d = b[k] as int;
        assert(comes_before(ranks, b[k] as int, b[m] as int));
        assert(mentions(a, d));
        let q = choose|q: int| 0 <= q < a.len() && a[q] == d;
        if q < k {
            lemma_same_position(ranks, a, b, q);
            assert(comes_before(ranks, b[q] as int, b[k] as int));
        } else if q > k {
            assert(comes_before(ranks, a[k] as int, a[q] as int));
        }
    }
}

/// The rank of every value.
pub fn ranks_of<T: Scalar>(values: &Vec<T>) -> (ranks: Vec<u64>)
    ensures
        are_ranks(values@, ranks@),
{
    let n = values.len();
    let mut ranks: Vec<u64> = Vec::new();
    let mut i: usize = 0;
    while i < n
        invariant
            i <= n,
            n == values.len(),
            ranks.len() == i,
            forall|j: int| 0 <= j < i ==> is_rank(values[j], #[trigger] ranks[j]),
        decreases n - i,
    {
        ranks.push(values[i].rank());
        i += 1;
    }
    ranks
}

/// The greedy choice: the first position of the greatest rank.
pub fn argmax(ranks: &Vec<u64>) -> (best: usize)
    requires
        ranks.len() > 0,
    ensures
        is_argmax(ranks@, best as int),
{
    let n = ranks.len();
    let mut best: usize = 0;
    let mut i: usize = 1;
    while i < n
        invariant
            1 <= i <= n,
            n == ranks.len(),
            best < i,
            forall|j: int| 0 <= j < i ==> ranks[j] <= ranks[best as int],
            forall|j: int| 0 <= j < best ==> ranks[j] < ranks[best as int],
        decreases n - i,
    {
        if ranks[i] > ranks[best] {
            best = i;
        }
        i += 1;
    }
    best
}

/// The order of pairs: by the first component, then by the second.
pub open spec fn pair_le(a: (u64, u32), b: (u64, u32)) -> bool {
    a.0 < b.0 || (a.0 == b.0 && a.1 <= b.1)
}

/// `slice::sort_unstable` on pairs of integers. The standard library
/// documents that it sorts the slice in ascending order, that tuples are
/// ordered lexicographically, and that sorting only rearranges: the same
/// pairs are there afterwards, each as often as before.
#[verifier::external_body]
fn sort_pairs(pairs: &mut Vec<(u64, u32)>)
    ensures
        final(pairs)@.to_multiset() == old(pairs)@.to_multiset(),
        forall|i: int, j: int|
            0 <= i <= j < final(pairs)@.len() ==> pair_le(final(pairs)@[i], final(pairs)@[j]),
{
    pairs.sort_unstable();
}

/// The candidates in the order in which they are drawn.
pub fn sampling_order(ranks: &Vec<u64>) -> (order: Vec<u32>)
    requires
        ranks.len() <= u32::MAX,
    ensures
        is_sampling_order(ranks@, order@),
{
    let n = ranks.len();
    let mut pairs: Vec<(u64, u32)> = Vec::new();
    let mut i: usize = 0;
    while i < n
        invariant
            i <= n,
            n == ranks.len(),
            n <= u32::MAX,
            pairs.len() == i,
            forall|j: int| 0 <= j < i ==> (#[trigger] pairs[j]) == ((u64::MAX - ranks[j]) as u64, j as u32),
        decreases n - i,
    {
        pairs.push((u64::MAX - ranks[i], i as u32));
        i += 1;
    }
    let ghost unsorted = pairs@;
    sort_pairs(&mut pairs);
    proof {
        let sorted = pairs@;
        unsorted.to_multiset_ensures();
        sorted.to_multiset_ensures();
        assert(unsorted.no_duplicates());
        unsorted.lemma_multiset_has_no_duplicates();
        sorted.lemma_multiset_has_no_duplicates_conv();
        assert forall|k: int| 0 <= k < sorted.len() implies (#[trigger] sorted[k]).1 < n
            && sorted[k].0 == u64::MAX - ranks[sorted[k].1 as int] by {
            assert(sorted.contains(sorted[k]));
            assert(sorted.to_multiset().count(sorted[k]) > 0);
            assert(unsorted.to_multiset().count(sorted[k]) > 0);
            assert(unsorted.contains(sorted[k]));
            let j = choose|j: int| 0 <= j < unsorted.len() && unsorted[j] == sorted[k];
            assert(unsorted[j] == ((u64::MAX - ranks[j]) as u64, j as u32));
        }
    }
    let mut order: Vec<u32> = Vec::new();
    let mut k: usize = 0;
    while k < n
        invariant
            k <= n,
            n == pairs.len(),
            order.len() == k,
            forall|j: int| 0 <= j < k ==> (#[trigger] order[j]) == pairs[j].1,
        decreases n - k,
    {
        order.push(pairs[k].1);
        k += 1;
    }
    proof {
        let sorted = pairs@;
        assert forall|a: int, b: int| 0 <= a < b < order.len() implies comes_before(
            ranks@,
            order[a] as int,
            order[b] as int,
        ) by {
            assert(pair_le(sorted[a], sorted[b]));
            assert(sorted[a] != sorted[b]);
            assert(order[a] == sorted[a].1);
            assert(order[b] == sorted[b].1);
        }
    }
    order
}

/// `next` continues the running total `prev` with the weight of `value`:
/// the exponential of its distance to the top logit, `top`, divided by the
/// temperature.
pub open spec fn is_weight_step<T: Scalar>(
    prev: T,
    value: T,
    top: T,
    temperature: T,
    next: T,
) -> bool {
    exists|d: T, q: T, e: T|
        is_difference(value, top, d) && is_quotient(d, temperature, q) && is_exp(q, e) && is_sum(
            prev,
            e,
            next,
        )
}

/// `cum` holds the running totals of the candidates' weights, in sampling
/// order. The first candidate has weight one.
pub open spec fn is_cumulative<T: Scalar>(
    values: Seq<T>,
    order: Seq<u32>,
    temperature: T,
    cum: Seq<T>,
) -> bool {
    &&& cum.len() == order.len()
    &&& cum.len() > 0 ==> is_one(cum[0])
    &&& forall|i: int|
        1 <= i < cum.len() ==> is_weight_step(
            cum[i - 1],
            values[order[i] as int],
            values[order[0] as int],
            temperature,
            #[trigger] cum[i],
        )
}

/// The position whose running total caps the draw when at most `top_k`
/// of `n` candidates may be drawn.
pub open spec fn cutoff_rank(top_k: u32, n: nat) -> int {
    if (top_k as nat) < n {
        top_k as int - 1
    } else {
        n as int - 1
    }
}

/// `limit` is the share `draw` of the mass that may be drawn from: the
/// smaller of the mass of the first `top_k` candidates and the share
/// `top_p` of the whole mass.
pub open spec fn is_threshold<T: Scalar>(
    cum: Seq<T>,
    top_p: T,
    top_k: u32,
    draw: T,
    limit: T,
) -> bool {
    exists|pp: T, cap: T|
        is_product(cum.last(), top_p, pp) && is_min(cum[cutoff_rank(top_k, cum.len())], pp, cap)
            && is_product(draw, cap, limit)
}

/// `at` is the first position whose running total reaches `limit`, or the
/// last position when no earlier one does.
pub open spec fn is_selected<T: Scalar>(cum: Seq<T>, limit: T, at: int) -> bool {
    &&& 0 <= at < cum.len()
    &&& forall|i: int| 0 <= i < at ==> is_le(limit, #[trigger] cum[i], false)
    &&& at < cum.len() - 1 ==> is_le(limit, cum[at], true)
}

/// `holds` answers whether `a` is at most zero.
pub open spec fn is_nonpositive<T: Scalar>(a: T, holds: bool) -> bool {
    exists|z: T| is_zero(z) && is_le(a, z, holds)
}

/// `tok` is drawn from the candidates by the unit-interval value `draw`.
pub open spec fn is_draw<T: Scalar>(
    values: Seq<T>,
    ranks: Seq<u64>,
    top_p: T,
    top_k: u32,
    temperature: T,
    draw: T,
    tok: u32,
) -> bool {
    exists|order: Seq<u32>, cum: Seq<T>, limit: T, at: int|
        #![trigger is_sampling_order(ranks, order), is_selected(cum, limit, at)]
        {
            &&& is_sampling_order(ranks, order)
            &&& is_cumulative(values, order, temperature, cum)
            &&& is_threshold(cum, top_p, top_k, draw, limit)
            &&& is_selected(cum, limit, at)
            &&& tok == order[at]
        }
}

/// `tok` is a sample of the logits `values`, given the random bits `bits`.
///
/// When the temperature or `top_p` is not positive, or `top_k` is below
/// two, the sample is the greedy choice. Otherwise it is drawn by the
/// unit-interval value that `bits` stand for.
pub open spec fn is_sample<T: Scalar>(
    values: Seq<T>,
    top_p: T,
    top_k: u32,
    temperature: T,
    bits: u32,
    tok: u32,
) -> bool {
    exists|ranks: Seq<u64>, cold: bool, flat: bool|
        #![trigger are_ranks(values, ranks), is_nonpositive(temperature, cold), is_nonpositive(top_p, flat)]
        {
            &&& are_ranks(values, ranks)
            &&& is_nonpositive(temperature, cold)
            &&& is_nonpositive(top_p, flat)
            &&& if cold || top_k < 2 || flat {
                is_argmax(ranks, tok as int)
            } else {
                exists|draw: T|
                    is_uniform(bits, draw) && is_draw(
                        values,
                        ranks,
                        top_p,
                        top_k,
                        temperature,
                        draw,
                        tok,
                    )
            }
        }
}

/// `tok` is the greedy choice among `values`: the first position of the
/// greatest rank.
pub open spec fn is_greedy<T: Scalar>(values: Seq<T>, tok: u32) -> bool {
    exists|ranks: Seq<u64>| are_ranks(values, ranks) && is_argmax(ranks, tok as int)
}

/// The value `a` is known not to be positive: no answer says otherwise.
pub open spec fn surely_nonpositive<T: Scalar>(a: T) -> bool {
    forall|holds: bool| is_nonpositive(a, holds) ==> holds
}

/// On degenerate settings the sample is the greedy choice, whatever the
/// random bits.
pub proof fn lemma_degenerate_sample_is_greedy<T: Scalar>(
    values: Seq<T>,
    top_p: T,
    top_k: u32,
    temperature: T,
    bits: u32,
    tok: u32,
)
    requires
        is_sample(values, top_p, top_k, temperature, bits, tok),
        top_k < 2 || surely_nonpositive(temperature) || surely_nonpositive(top_p),
    ensures
        is_greedy(values, tok),
{
    let (ranks, cold, flat) = choose|ranks: Seq<u64>, cold: bool, flat: bool|
        #![trigger are_ranks(values, ranks), is_nonpositive(temperature, cold), is_nonpositive(top_p, flat)]
        {
            &&& are_ranks(values, ranks)
            &&& is_nonpositive(temperature, cold)
            &&& is_nonpositive(top_p, flat)
            &&& if cold || top_k < 2 || flat {
                is_argmax(ranks, tok as int)
            } else {
                exists|draw: T|
                    is_uniform(bits, draw) && is_draw(
                        values,
                        ranks,
                        top_p,
                        top_k,
                        temperature,
                        draw,
                        tok,
                    )
            }
        };
    assert(are_ranks(values, ranks) && is_argmax(ranks, tok as int));
}

/// The greedy choice is repeatable: where every value has one rank only,
/// two greedy choices among the same values are the same.
pub proof fn lemma_greedy_is_repeatable<T: Scalar>(values: Seq<T>, a: u32, b: u32)
    requires
        is_greedy(values, a),
        is_greedy(values, b),
        forall|i: int, r: u64, q: u64|
            0 <= i < values.len() && is_rank(values[i], r) && is_rank(values[i], q) ==> r == q,
    ensures
        a == b,
{
    let ra = choose|ranks: Seq<u64>| are_ranks(values, ranks) && is_argmax(ranks, a as int);
    let rb = choose|ranks: Seq<u64>| are_ranks(values, ranks) && is_argmax(ranks, b as int);
    assert forall|i: int| 0 <= i < values.len() implies ra[i] == rb[i] by {
        assert(is_rank(values[i], ra[i]) && is_rank(values[i], rb[i]));
    }
    assert(ra =~= rb);
    lemma_argmax_unique(ra, a as int, b as int);
}

/// A sample names one of the candidates.
pub proof fn lemma_sample_in_range<T: Scalar>(
    values: Seq<T>,
    top_p: T,
    top_k: u32,
    temperature: T,
    bits: u32,
    tok: u32,
)
    requires
        is_sample(values, top_p, top_k, temperature, bits, tok),
    ensures
        tok < values.len(),
{
}

/// The running totals of the candidates' weights, in sampling order.
pub fn cumulative_weights<T: Scalar>(values: &Vec<T>, order: &Vec<u32>, temperature: T) -> (cum:
    Vec<T>)
    requires
        forall|i: int| 0 <= i < order.len() ==> (#[trigger] order[i]) < values.len(),
    ensures
        is_cumulative(values@, order@, temperature, cum@),
{
    let n = order.len();
    let mut cum: Vec<T> = Vec::new();
    if n == 0 {
        return cum;
    }
    let top = values[order[0] as usize];
    let mut total = T::one();
    cum.push(total);
    let mut i: usize = 1;
    while i < n
        invariant
            1 <= i <= n,
            n == order.len(),
            cum.len() == i,
            total == cum[i - 1],
            top == values[order[0] as int],
            is_one(cum[0]),
            forall|j: int| 0 <= j < order.len() ==> (#[trigger] order[j]) < values.len(),
            forall|j: int|
                1 <= j < i ==> is_weight_step(
                    cum[j - 1],
                    values[order[j] as int],
                    top,
                    temperature,
                    #[trigger] cum[j],
                ),
        decreases n - i,
    {
        let value = values[order[i] as usize];
        let d = value.sub(top);
        let q = d.div(temperature);
        let e = q.exp();
        let next = total.add(e);
        assert(is_weight_step(total, value, top, temperature, next)) by {
            assert(is_difference(value, top, d) && is_quotient(d, temperature, q) && is_exp(q, e)
                && is_sum(total, e, next));
        }
        cum.push(next);
        total = next;
        i += 1;
    }
    cum
}

/// The share `draw` of the mass that may be drawn from.
pub fn threshold<T: Scalar>(cum: &Vec<T>, top_p: T, top_k: u32, draw: T) -> (limit: T)
    requires
        cum.len() > 0,
        top_k >= 1,
    ensures
        is_threshold(cum@, top_p, top_k, draw, limit),
{
    let n = cum.len();
    let cutoff = if (top_k as usize) < n {
        top_k as usize - 1
    } else {
        n - 1
    };
    let pk = cum[cutoff];
    let pp = cum[n - 1].mul(top_p);
    let cap = pk.min(pp);
    let limit = draw.mul(cap);
    assert(is_product(cum@.last(), top_p, pp) && is_min(
        cum@[cutoff_rank(top_k, cum@.len())],
        pp,
        cap,
    ) && is_product(draw, cap, limit));
    limit
}

/// The first position whose running total reaches `limit`, or the last
/// position when no earlier one does.
pub fn select<T: Scalar>(cum: &Vec<T>, limit: T) -> (at: usize)
    requires
        cum.len() > 0,
    ensures
        is_selected(cum@, limit, at as int),
{
    let last = cum.len() - 1;
    let mut at: usize = 0;
    while at < last
        invariant
            at <= last,
            last == cum.len() - 1,
            forall|i: int| 0 <= i < at ==> is_le(limit, #[trigger] cum[i], false),
        decreases last - at,
    {
        if limit.le(cum[at]) {
            return at;
        }
        at += 1;
    }
    at
}

/// Whether `a` is at most zero.
pub fn nonpositive<T: Scalar>(a: T) -> (holds: bool)
    ensures
        is_nonpositive(a, holds),
{
    let z = T::zero();
    let holds = a.le(z);
    assert(is_zero(z) && is_le(a, z, holds));
    holds
}

/// `rand::random` at the type `u32`: thirty-two bits from the thread's
/// generator. Nothing is promised about them.
#[verifier::external_body]
fn random_bits() -> u32 {
    rand::random::<u32>()
}

/// Where the random bits of a sample come from.
pub(crate) enum Entropy {
    /// From the random number generator, when the sample needs them.
    Fresh,
    /// Given by the caller.
    Given(u32),
}

/// Samples a token from `values`, consulting the random number generator
/// only when the sample is not the greedy choice.
pub(crate) fn sample_from<T: Scalar>(
    values: &Vec<T>,
    top_p: T,
    top_k: u32,
    temperature: T,
    entropy: Entropy,
) -> (tok: u32)
    requires
        0 < values.len() <= u32::MAX,
    ensures
        tok < values.len(),
        exists|bits: u32|
            (entropy matches Entropy::Given(b) ==> bits == b) && #[trigger] is_sample(
                values@,
                top_p,
                top_k,
                temperature,
                bits,
                tok,
            ),
{
    let ranks = ranks_of(values);
    let cold = nonpositive(temperature);
    let flat = nonpositive(top_p);
    if cold || top_k < 2 || flat {
        let tok = argmax(&ranks) as u32;
        let ghost bits: u32 = match entropy {
            Entropy::Given(b) => b,
            Entropy::Fresh => 0,
        };
        assert(is_sample(values@, top_p, top_k, temperature, bits, tok)) by {
            assert(are_ranks(values@, ranks@) && is_nonpositive(temperature, cold)
                && is_nonpositive(top_p, flat));
        }
        tok
    } else {
        let bits = match entropy {
            Entropy::Given(b) => b,
            Entropy::Fresh => random_bits(),
        };
        let draw = T::uniform(bits);
        let order = sampling_order(&ranks);
        let cum = cumulative_weights(values, &order, temperature);
        let limit = threshold(&cum, top_p, top_k, draw);
        let at = select(&cum, limit);
        let tok = order[at];
        assert(is_draw(values@, ranks@, top_p, top_k, temperature, draw, tok)) by {
            assert(is_sampling_order(ranks@, order@) && is_selected(cum@, limit, at as int));
        }
        assert(is_sample(values@, top_p, top_k, temperature, bits, tok)) by {
            assert(is_uniform(bits, draw));
            assert(are_ranks(values@, ranks@) && is_nonpositive(temperature, cold)
                && is_nonpositive(top_p, flat));
        }
        tok
    }
}

/// Samples a token from the logits `x` with the random bits `bits`.
pub fn sample_with_bits<T: Scalar>(
    x: &Tensor<T>,
    top_p: T,
    top_k: u32,
    temperature: T,
    bits: u32,
) -> (tok: u32)
    requires
        0 < x@.len() <= u32::MAX,
    ensures
        tok < x@.len(),
        is_sample(x@, top_p, top_k, temperature, bits, tok),
{
    sample_from(x.data(), top_p, top_k, temperature, Entropy::Given(bits))
}

} // verus!
