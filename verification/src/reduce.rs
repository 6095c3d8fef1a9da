//! Reductions over runs of elements: sums, inner products, maxima.
//!
//! A reduction visits its terms from first to last. Its predicate says
//! that a value can be reached that way, whatever the intermediate
//! values were.

use crate::scalar::{is_max, is_product, is_sum, is_zero, Scalar};
use vstd::prelude::*;

verus! {

/// `total` is the sum of `terms`, added one by one to zero.
pub open spec fn is_sum_of<T: Scalar>(terms: Seq<T>, total: T) -> bool
    decreases terms.len(),
{
    if terms.len() == 0 {
        is_zero(total)
    } else {
        exists|acc: T|
            is_sum_of(terms.drop_last(), acc) && #[trigger] is_sum(acc, terms.last(), total)
    }
}

/// `products` holds the products of `a` and `b`, position by position.
pub open spec fn are_products<T: Scalar>(a: Seq<T>, b: Seq<T>, products: Seq<T>) -> bool {
    &&& a.len() == b.len()
    &&& products.len() == a.len()
    &&& forall|j: int| 0 <= j < a.len() ==> is_product(a[j], b[j], #[trigger] products[j])
}

/// `total` is the inner product of `a` and `b`.
pub open spec fn is_dot<T: Scalar>(a: Seq<T>, b: Seq<T>, total: T) -> bool {
    exists|products: Seq<T>| are_products(a, b, products) && is_sum_of(products, total)
}

/// `greatest` is the maximum of `first` and then of each of `terms`,
/// taken one by one.
pub open spec fn is_max_of<T: Scalar>(first: T, terms: Seq<T>, greatest: T) -> bool
    decreases terms.len(),
{
    if terms.len() == 0 {
        greatest == first
    } else {
        exists|acc: T|
            is_max_of(first, terms.drop_last(), acc) && #[trigger] is_max(
                acc,
                terms.last(),
                greatest,
            )
    }
}

/// The sum of `terms`.
pub fn sum_of<T: Scalar>(terms: &Vec<T>) -> (total: T)
    ensures
        is_sum_of(terms@, total),
{
    let n = terms.len();
    let mut total = T::zero();
    let mut j: usize = 0;
    assert(terms@.take(0) =~= Seq::<T>::empty());
    while j < n
        invariant
            j <= n,
            n == terms.len(),
            is_sum_of(terms@.take(j as int), total),
        decreases n - j,
    {
        let next = total.add(terms[j]);
        proof {
            let longer = terms@.take(j + 1);
            assert(longer.drop_last() =~= terms@.take(j as int));
            assert(longer.last() == terms[j as int]);
            assert(is_sum_of(longer.drop_last(), total) && is_sum(total, longer.last(), next));
            assert(is_sum_of(longer, next));
        }
        total = next;
        j += 1;
    }
    assert(terms@.take(n as int) =~= terms@);
    total
}

/// The inner product of the `n` elements of `a` from `a_start` on with
/// the `n` elements of `b` from `b_start` on.
pub fn dot_of<T: Scalar>(a: &Vec<T>, a_start: usize, b: &Vec<T>, b_start: usize, n: usize) -> (total:
    T)
    requires
        a_start + n <= a.len(),
        b_start + n <= b.len(),
    ensures
        is_dot(
            a@.subrange(a_start as int, a_start + n),
            b@.subrange(b_start as int, b_start + n),
            total,
        ),
{
    let ghost xs = a@.subrange(a_start as int, a_start + n);
    let ghost ys = b@.subrange(b_start as int, b_start + n);
    let ghost products = Seq::<T>::empty();
    let mut total = T::zero();
    let mut j: usize = 0;
    while j < n
        invariant
            j <= n,
            a_start + n <= a.len(),
            b_start + n <= b.len(),
            xs == a@.subrange(a_start as int, a_start + n),
            ys == b@.subrange(b_start as int, b_start + n),
            products.len() == j,
            forall|k: int| 0 <= k < j ==> is_product(xs[k], ys[k], #[trigger] products[k]),
            is_sum_of(products, total),
        decreases n - j,
    {
        let p = a[a_start + j].mul(b[b_start + j]);
        let next = total.add(p);
        proof {
            let longer = products.push(p);
            assert(longer.drop_last() =~= products);
            assert(is_sum_of(longer.drop_last(), total) && is_sum(total, longer.last(), next));
            assert(is_sum_of(longer, next));
            assert(is_product(xs[j as int], ys[j as int], p));
            products = longer;
        }
        total = next;
        j += 1;
    }
    assert(are_products(xs, ys, products));
    total
}

/// The maximum of the `n` elements of `a` from `start` on, beginning
/// with the first of them.
pub fn max_of<T: Scalar>(a: &Vec<T>, start: usize, n: usize) -> (greatest: T)
    requires
        n > 0,
        start + n <= a.len(),
    ensures
        is_max_of(a[start as int], a@.subrange(start as int, start + n), greatest),
{
    let ghost terms = a@.subrange(start as int, start + n);
    let mut greatest = a[start];
    let mut j: usize = 0;
    assert(terms.take(0) =~= Seq::<T>::empty());
    while j < n
        invariant
            j <= n,
            start + n <= a.len(),
            terms == a@.subrange(start as int, start + n),
            is_max_of(a[start as int], terms.take(j as int), greatest),
        decreases n - j,
    {
        let next = greatest.max(a[start + j]);
        proof {
            let longer = terms.take(j + 1);
            assert(longer.drop_last() =~= terms.take(j as int));
            assert(longer.last() == a[start + j]);
            assert(is_max_of(a[start as int], longer.drop_last(), greatest) && is_max(
                greatest,
                longer.last(),
                next,
            ));
            assert(is_max_of(a[start as int], longer, next));
        }
        greatest = next;
        j += 1;
    }
    assert(terms.take(n as int) =~= terms);
    greatest
}

} // verus!
