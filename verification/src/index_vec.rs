use std::marker::PhantomData;
use std::slice::Iter;

use vstd::prelude::*;

verus! {

/// An `Indexer` is a typed 32-bit id that converts to and from a `usize` position, so that it can
/// index one kind of vector only.
pub trait Indexer: Sized + Copy {
    /// The position that the id stands for.
    spec fn id(&self) -> nat;

    /// Ids are 32-bit, and two ids are equal exactly when they stand for the same position.
    proof fn lemma_id(a: Self, b: Self)
        ensures
            a.id() <= u32::MAX,
            (a.id() == b.id()) <==> (a == b),
    ;

    /// The position that the id stands for.
    fn index(&self) -> (r: usize)
        ensures
            r == self.id(),
    ;

    /// The id of a position; as with `as u32`, a position beyond `u32::MAX` wraps around.
    fn from_index(value: usize) -> (r: Self)
        ensures
            r.id() == (value as u32) as nat,
            r.id() <= value,
    ;
}

/// Taking the low 32 bits of a position never makes it larger.
pub proof fn lemma_u32_wrap(v: usize)
    ensures
        (v as u32) as nat <= v,
        v <= u32::MAX ==> (v as u32) as nat == v,
{
    assert((v as u32) as usize <= v && (v <= 0xffff_ffffusize ==> (v as u32) as usize == v)) by (bit_vector);
}

/// A vector that can only be indexed by a specific id type.
pub struct IndexVec<I: Indexer, V> {
    data: Vec<V>,
    marker: PhantomData<I>,
}

impl<I: Indexer, V> View for IndexVec<I, V> {
    type V = Seq<V>;

    closed spec fn view(&self) -> Seq<V> {
        self.data@
    }
}

impl<I: Indexer, V> IndexVec<I, V> {
    /// An empty vector.
    pub fn new() -> (r: Self)
        ensures
            r@ == Seq::<V>::empty(),
    {
        IndexVec { data: Vec::new(), marker: PhantomData }
    }

    /// Push a value and return its typed index.
    pub fn push(&mut self, value: V) -> (r: I)
        ensures
            final(self)@ == old(self)@.push(value),
            r.id() == (old(self)@.len() as u32) as nat,
    {
        let idx = I::from_index(self.data.len());
        self.data.push(value);
        idx
    }

    /// Number of elements.
    pub fn len(&self) -> (r: usize)
        ensures
            r == self@.len(),
    {
        self.data.len()
    }

    /// Returns `true` if the vec contains no elements.
    pub fn is_empty(&self) -> (r: bool)
        ensures
            r == (self@.len() == 0),
    {
        self.data.len() == 0
    }

    /// Get a reference by typed index, returning `None` if out of bounds.
    pub fn get(&self, index: I) -> (r: Option<&V>)
        ensures
            index.id() < self@.len() ==> r == Some(&self@[index.id() as int]),
            index.id() >= self@.len() ==> r is None,
    {
        let i = index.index();
        if i < self.data.len() {
            Some(&self.data[i])
        } else {
            None
        }
    }

    /// Get a mutable reference by typed index, returning `None` if out of bounds.
    pub fn get_mut(&mut self, index: I) -> (r: Option<&mut V>)
        ensures
            index.id() < old(self)@.len() ==> (r matches Some(e) && *e == old(self)@[index.id() as int]
                && final(self)@ == old(self)@.update(index.id() as int, *final(e))),
            index.id() >= old(self)@.len() ==> r is None && final(self)@ == old(self)@,
    {
        let i = index.index();
        if i < self.data.len() {
            Some(&mut self.data[i])
        } else {
            None
        }
    }

    /// Iterate over all values.
    pub fn iter(&self) -> (r: Iter<'_, V>)
        ensures
            vstd::std_specs::iter::IteratorSpec::remaining(&r).unref() == self@,
    {
        self.data.iter()
    }

    /// All values, each with its typed index, in order.
    pub fn iter_enumerated(&self) -> (r: Vec<(I, &V)>)
        ensures
            r@.len() == self@.len(),
            forall|k: int|
                0 <= k < r@.len() ==> (#[trigger] r@[k]).0.id() == (k as u32) as nat && *r@[k].1
                    == self@[k],
    {
        let mut out: Vec<(I, &V)> = Vec::new();
        let n = self.data.len();
        let mut i: usize = 0;
        while i < n
            invariant
                n == self.data@.len(),
                i <= n,
                out@.len() == i,
                forall|k: int|
                    0 <= k < i ==> (#[trigger] out@[k]).0.id() == (k as u32) as nat && *out@[k].1
                        == self.data@[k],
            decreases n - i,
        {
            out.push((I::from_index(i), &self.data[i]));
            i = i + 1;
        }
        out
    }
}

/// A value pushed is found again by the id `push` gave, while ids fit in 32 bits; the values
/// already there keep their ids.
pub proof fn lemma_push_then_get<V>(before: Seq<V>, value: V, id: nat)
    requires
        before.len() <= u32::MAX,
        id == (before.len() as u32) as nat,
    ensures
        id < before.push(value).len(),
        before.push(value)[id as int] == value,
        forall|k: int| 0 <= k < before.len() ==> #[trigger] before.push(value)[k] == before[k],
{
}

/// A copy of a vector of plain values.
pub fn copy_vec<T: Copy>(v: &Vec<T>) -> (r: Vec<T>)
    ensures
        r@ == v@,
{
    let mut out: Vec<T> = Vec::new();
    let mut i: usize = 0;
    while i < v.len()
        invariant
            i <= v@.len(),
            out@ == v@.take(i as int),
        decreases v@.len() - i,
    {
        out.push(v[i]);
        i = i + 1;
        assert(out@ =~= v@.take(i as int));
    }
    assert(out@ =~= v@);
    out
}

/// A map keyed by ids, with its entries kept in the order their keys were first inserted.
pub struct IdMap<K: Indexer, V> {
    keys: Vec<K>,
    vals: Vec<V>,
}

impl<K: Indexer, V> IdMap<K, V> {
    /// The keys, in the order they were first inserted.
    pub closed spec fn keys(&self) -> Seq<K> {
        self.keys@
    }

    /// The values, each at the place of its key.
    pub closed spec fn vals(&self) -> Seq<V> {
        self.vals@
    }

    /// Each key is held once, with one value.
    pub open spec fn wf(&self) -> bool {
        &&& self.keys().no_duplicates()
        &&& self.keys().len() == self.vals().len()
    }

    /// The map the entries stand for.
    pub open spec fn as_map(&self) -> Map<K, V> {
        Map::new(|k: K| self.keys().contains(k), |k: K| self.vals()[self.keys().index_of(k)])
    }

    /// An empty map.
    pub fn new() -> (r: Self)
        ensures
            r.wf(),
            r.keys() == Seq::<K>::empty(),
            r.as_map() == Map::<K, V>::empty(),
    {
        let r = IdMap { keys: Vec::new(), vals: Vec::new() };
        assert(r.as_map() =~= Map::<K, V>::empty());
        r
    }

    /// The number of entries.
    pub fn len(&self) -> (r: usize)
        ensures
            r == self.keys().len(),
    {
        self.keys.len()
    }

    /// The place of `k` among the keys, if it is there.
    fn find(&self, k: &K) -> (r: Option<usize>)
        requires
            self.wf(),
        ensures
            match r {
                Some(i) => i < self.keys().len() && self.keys()[i as int] == *k && self.keys().index_of(*k) == i,
                None => !self.keys().contains(*k),
            },
    {
        let mut i: usize = 0;
        while i < self.keys.len()
            invariant
                self.wf(),
                i <= self.keys().len(),
                forall|j: int| 0 <= j < i ==> self.keys()[j] != *k,
            decreases self.keys().len() - i,
        {
            if self.keys[i].index() == k.index() {
                proof {
                    K::lemma_id(self.keys()[i as int], *k);
                    let j = self.keys().index_of(*k);
                    assert(self.keys().contains(*k));
                    assert(self.keys()[j] == *k);
                    assert(j == i);
                }
                return Some(i);
            }
            i = i + 1;
        }
        None
    }

    /// Maps `k` to `v`, replacing the value it had.
    pub fn insert(&mut self, k: K, v: V)
        requires
            old(self).wf(),
        ensures
            final(self).wf(),
            final(self).as_map() == old(self).as_map().insert(k, v),
            old(self).keys().contains(k) ==> final(self).keys() == old(self).keys(),
            !old(self).keys().contains(k) ==> final(self).keys() == old(self).keys().push(k),
            final(self).vals() == if old(self).keys().contains(k) {
                old(self).vals().update(old(self).keys().index_of(k), v)
            } else {
                old(self).vals().push(v)
            },
    {
        match self.find(&k) {
            Some(i) => {
                self.vals.set(i, v);
                proof {
                    assert(self.keys() == old(self).keys());
                    assert(self.vals()[i as int] == v);
                    assert(old(self).keys().contains(k));
                    assert(self.as_map().dom() =~= old(self).as_map().insert(k, v).dom());
                    assert forall|x: K| self.as_map().dom().contains(x) implies self.as_map()[x] == old(self).as_map().insert(k, v)[x] by {
                        if x != k {
                            let j = self.keys().index_of(x);
                            assert(self.keys().contains(x));
                            assert(self.keys()[j] == x);
                            assert(j != i);
                            assert(self.vals()[j] == old(self).vals()[j]);
                        }
                    }
                    assert(self.as_map() =~= old(self).as_map().insert(k, v));
                }
            },
            None => {
                let ghost ok = self.keys();
                self.keys.push(k);
                self.vals.push(v);
                proof {
                    assert forall|x: K| #[trigger] self.keys().contains(x) && x != k implies self.keys().index_of(x) == ok.index_of(x) by {
                        let j = ok.index_of(x);
                        assert(ok.contains(x)) by {
                            let m = self.keys().index_of(x);
                            assert(self.keys()[m] == x);
                            assert(m < ok.len());
                            assert(ok[m] == x);
                        }
                        assert(self.keys()[j] == x);
                        let m = self.keys().index_of(x);
                        assert(self.keys()[m] == x);
                    }
                    let n = ok.len();
                    assert(self.keys()[n as int] == k);
                    assert(self.keys().index_of(k) == n);
                    assert forall|x: K| self.keys().contains(x) <==> (ok.contains(x) || x == k) by {
                        if ok.contains(x) {
                            let j = ok.index_of(x);
                            assert(self.keys()[j] == x);
                        }
                        if self.keys().contains(x) && x != k {
                            let m = self.keys().index_of(x);
                            assert(ok[m] == x);
                        }
                    }
                    assert(self.as_map().dom() =~= old(self).as_map().insert(k, v).dom());
                    assert forall|x: K| self.as_map().dom().contains(x) implies self.as_map()[x] == old(self).as_map().insert(k, v)[x] by {
                        if x != k {
                            assert(self.keys().contains(x));
                            let j = ok.index_of(x);
                            assert(self.keys().index_of(x) == j);
                            assert(ok.contains(x));
                            assert(j < n);
                            assert(self.vals()[j] == old(self).vals()[j]);
                        }
                    }
                    assert(self.as_map() =~= old(self).as_map().insert(k, v));
                }
            },
        }
    }

    /// After `insert(k, v)`, `get(k)` gives `v`, and every other key keeps its value.
    pub proof fn lemma_insert_then_get(&self, k: K, v: V, j: K)
        requires
            self.wf(),
        ensures
            self.as_map().insert(k, v).contains_key(k),
            self.as_map().insert(k, v)[k] == v,
            j != k ==> (self.as_map().insert(k, v).contains_key(j) == self.as_map().contains_key(j)),
            j != k && self.as_map().contains_key(j) ==> self.as_map().insert(k, v)[j] == self.as_map()[j],
    {
    }

    /// Each value the map gives is one of its values.
    pub proof fn lemma_value_in_vals(&self, k: K)
        requires
            self.wf(),
            self.as_map().contains_key(k),
        ensures
            exists|j: int| 0 <= j < self.vals().len() && #[trigger] self.vals()[j] == self.as_map()[k],
    {
        let j = self.keys().index_of(k);
        assert(self.vals()[j] == self.as_map()[k]);
    }

    /// The value `k` maps to, if any.
    pub fn get(&self, k: &K) -> (r: Option<&V>)
        requires
            self.wf(),
        ensures
            self.as_map().contains_key(*k) ==> r == Some(&self.as_map()[*k]),
            !self.as_map().contains_key(*k) ==> r is None,
    {
        match self.find(k) {
            Some(i) => Some(&self.vals[i]),
            None => None,
        }
    }

    /// Whether `k` is mapped.
    pub fn contains_key(&self, k: &K) -> (r: bool)
        requires
            self.wf(),
        ensures
            r == self.as_map().contains_key(*k),
    {
        self.find(k).is_some()
    }

    /// The entry at place `i`.
    pub fn entry(&self, i: usize) -> (r: (K, &V))
        requires
            self.wf(),
            i < self.keys().len(),
        ensures
            r.0 == self.keys()[i as int],
            *r.1 == self.vals()[i as int],
    {
        (self.keys[i], &self.vals[i])
    }
}

} // verus!
