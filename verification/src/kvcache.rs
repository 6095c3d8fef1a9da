//! The keys and values of the positions seen so far, layer by layer.

use crate::tensor::push_run;
use vstd::prelude::*;

verus! {

/// For every layer, the keys and the values of all cached positions, in
/// position order. A position takes `width()` elements of each.
pub struct KVCache<T> {
    keys: Vec<Vec<T>>,
    values: Vec<Vec<T>>,
    width: usize,
}

impl<T: Copy> KVCache<T> {
    /// The number of layers.
    pub closed spec fn layers(&self) -> nat {
        self.keys.len() as nat
    }

    /// The number of elements that one position takes in a layer.
    pub closed spec fn width(&self) -> nat {
        self.width as nat
    }

    /// The cached keys of a layer.
    pub closed spec fn keys_of(&self, layer: int) -> Seq<T> {
        self.keys[layer]@
    }

    /// The cached values of a layer.
    pub closed spec fn values_of(&self, layer: int) -> Seq<T> {
        self.values[layer]@
    }

    /// The number of positions cached in a layer.
    pub open spec fn positions(&self, layer: int) -> nat {
        self.keys_of(layer).len() / self.width()
    }

    /// There are as many layers of values as of keys.
    pub closed spec fn paired(&self) -> bool {
        self.values.len() == self.keys.len()
    }

    /// Every layer holds as many values as keys, in whole positions.
    pub open spec fn wf(&self) -> bool {
        &&& self.paired()
        &&& self.width() > 0
        &&& forall|layer: int|
            0 <= layer < self.layers() ==> {
                &&& self.values_of(layer).len() == #[trigger] self.keys_of(layer).len()
                &&& self.keys_of(layer).len() == self.positions(layer) * self.width()
            }
    }

    /// The number of positions cached: that of the first layer.
    pub open spec fn cached(&self) -> nat {
        if self.layers() == 0 {
            0
        } else {
            self.positions(0)
        }
    }

    /// Every layer holds the same number of positions.
    pub open spec fn is_level(&self) -> bool {
        forall|layer: int| 0 <= layer < self.layers() ==> #[trigger] self.positions(layer) == self.cached()
    }

    /// In `layer`, `later` holds what `self` holds and then `n` more
    /// elements of keys and of values.
    pub open spec fn grows_to(&self, later: &Self, layer: int, n: int) -> bool {
        &&& later.keys_of(layer).len() == self.keys_of(layer).len() + n
        &&& later.values_of(layer).len() == self.values_of(layer).len() + n
        &&& self.keys_of(layer).is_prefix_of(later.keys_of(layer))
        &&& self.values_of(layer).is_prefix_of(later.values_of(layer))
    }

    /// An empty cache for `n_layers` layers.
    pub fn new(n_layers: usize, width: usize) -> (cache: Self)
        requires
            width > 0,
        ensures
            cache.wf(),
            cache.is_level(),
            cache.layers() == n_layers,
            cache.width() == width,
            cache.cached() == 0,
            forall|layer: int|
                0 <= layer < n_layers ==> cache.keys_of(layer).len() == 0 && cache.values_of(
                    layer,
                ).len() == 0,
    {
        let mut keys: Vec<Vec<T>> = Vec::new();
        let mut values: Vec<Vec<T>> = Vec::new();
        let mut i: usize = 0;
        while i < n_layers
            invariant
                i <= n_layers,
                keys.len() == i,
                values.len() == i,
                forall|l: int| 0 <= l < i ==> (#[trigger] keys[l])@.len() == 0,
                forall|l: int| 0 <= l < i ==> (#[trigger] values[l])@.len() == 0,
            decreases n_layers - i,
        {
            keys.push(Vec::new());
            values.push(Vec::new());
            i += 1;
        }
        let cache = KVCache { keys, values, width };
        assert forall|layer: int| 0 <= layer < cache.layers() implies {
            &&& cache.values_of(layer).len() == #[trigger] cache.keys_of(layer).len()
            &&& cache.keys_of(layer).len() == cache.positions(layer) * cache.width()
        } by {
            assert(cache.keys[layer]@.len() == 0);
            assert(cache.values[layer]@.len() == 0);
            let w = cache.width() as int;
            assert(0int / w == 0 && (0int / w) * w == 0) by (nonlinear_arith)
                requires
                    w > 0,
            ;
            assert(cache.positions(layer) == 0);
        }
        assert forall|layer: int| 0 <= layer < cache.layers() implies #[trigger] cache.positions(
            layer,
        ) == cache.cached() by {
            assert(cache.keys[layer]@.len() == 0);
            assert(cache.keys[0]@.len() == 0);
        }
        assert(cache.cached() == 0) by {
            if cache.layers() > 0 {
                assert(cache.keys[0]@.len() == 0);
                assert(0nat / cache.width() == 0) by (nonlinear_arith)
                    requires
                        cache.width() > 0,
                ;
            }
        }
        cache
    }

    /// The number of layers.
    pub fn n_layers(&self) -> (n: usize)
        ensures
            n == self.layers(),
    {
        self.keys.len()
    }

    /// The number of positions cached.
    pub fn len(&self) -> (n: usize)
        requires
            self.wf(),
        ensures
            n == self.cached(),
    {
        if self.keys.len() == 0 {
            0
        } else {
            self.keys[0].len() / self.width
        }
    }

    /// The cached keys of a layer, oldest position first.
    pub fn keys(&self, layer: usize) -> (k: &Vec<T>)
        requires
            layer < self.layers(),
        ensures
            k@ == self.keys_of(layer as int),
    {
        &self.keys[layer]
    }

    /// The cached values of a layer, oldest position first.
    pub fn values(&self, layer: usize) -> (v: &Vec<T>)
        requires
            self.wf(),
            layer < self.layers(),
        ensures
            v@ == self.values_of(layer as int),
    {
        proof {
            assert(self.paired());
        }
        &self.values[layer]
    }

    /// Appends the keys and values of new positions to a layer. What was
    /// cached stays where it was.
    pub fn append(&mut self, layer: usize, k: &Vec<T>, v: &Vec<T>)
        requires
            old(self).wf(),
            layer < old(self).layers(),
            k.len() == v.len(),
            k@.len() % old(self).width() == 0,
        ensures
            final(self).wf(),
            final(self).layers() == old(self).layers(),
            final(self).width() == old(self).width(),
            final(self).keys_of(layer as int) == old(self).keys_of(layer as int) + k@,
            final(self).values_of(layer as int) == old(self).values_of(layer as int) + v@,
            final(self).positions(layer as int) == old(self).positions(layer as int) + k@.len()
                / old(self).width(),
            forall|other: int|
                0 <= other < old(self).layers() && other != layer ==> final(self).keys_of(other)
                    == old(self).keys_of(other) && final(self).values_of(other) == old(
                    self,
                ).values_of(other),
    {
        let ghost before = *self;
        proof {
            assert(self.paired());
            assert(self.keys_of(layer as int).len() == self.positions(layer as int) * self.width());
        }
        push_run(&mut self.keys[layer], k, 0, k.len());
        push_run(&mut self.values[layer], v, 0, v.len());
        proof {
            assert(k@.subrange(0, k.len() as int) =~= k@);
            assert(v@.subrange(0, v.len() as int) =~= v@);
            let w = self.width() as int;
            let old_len = before.keys_of(layer as int).len() as int;
            let new_len = self.keys_of(layer as int).len() as int;
            assert(new_len == old_len + k.len());
            assert(new_len / w == old_len / w + (k.len() as int) / w && new_len == (new_len / w)
                * w)
                by (nonlinear_arith)
                requires
                    w > 0,
                    old_len == (old_len / w) * w,
                    (k.len() as int) % w == 0,
                    new_len == old_len + k.len(),
            ;
            assert forall|other: int| 0 <= other < self.layers() implies {
                &&& self.values_of(other).len() == #[trigger] self.keys_of(other).len()
                &&& self.keys_of(other).len() == self.positions(other) * self.width()
            } by {
                if other != layer {
                    assert(self.keys_of(other) == before.keys_of(other));
                    assert(self.values_of(other) == before.values_of(other));
                    assert(before.values_of(other).len() == before.keys_of(other).len());
                    assert(before.keys_of(other).len() == before.positions(other) * before.width());
                } else {
                    assert(before.values_of(other).len() == before.keys_of(other).len());
                }
            }
        }
    }
}

} // verus!
