use vstd::prelude::*;

use core::marker::PhantomData;

verus! {

/// A dense arena key: a thin wrapper around an index, with one value
/// reserved as the "none" sentinel.
///
/// `spec_max()` is the sentinel index; every ordinary key stays strictly
/// below it, so `is_none` can tell the sentinel apart.
pub trait Key: Sized + Copy {
    /// The sentinel index; ordinary keys stay strictly below it.
    spec fn spec_max() -> usize;

    /// The index this key denotes.
    spec fn index_spec(self) -> usize;

    fn new(v: usize) -> (r: Self)
        requires
            v <= Self::spec_max(),
        ensures
            r.index_spec() == v,
    ;

    fn index(&self) -> (r: usize)
        ensures
            r == self.index_spec(),
    ;

    fn none_val() -> (r: Self)
        ensures
            r.index_spec() == Self::spec_max(),
    ;

    fn is_none(&self) -> (r: bool)
        ensures
            r == (self.index_spec() == Self::spec_max()),
    ;
}

impl Key for u32 {
    open spec fn spec_max() -> usize {
        u32::MAX as usize
    }

    open spec fn index_spec(self) -> usize {
        self as usize
    }

    fn new(v: usize) -> (r: Self) {
        v as u32
    }

    fn index(&self) -> (r: usize) {
        *self as usize
    }

    fn none_val() -> (r: Self) {
        u32::MAX
    }

    fn is_none(&self) -> (r: bool) {
        *self == u32::MAX
    }
}

/// Append-only primary store: `insert` hands out stable keys, and a key
/// indexes exactly the value it was returned for.
pub struct PrimaryMap<K: Key, V> {
    values: Vec<V>,
    _key: PhantomData<K>,
}

impl<K: Key, V> View for PrimaryMap<K, V> {
    type V = Seq<V>;

    closed spec fn view(&self) -> Seq<V> {
        self.values@
    }
}

impl<K: Key, V> PrimaryMap<K, V> {
    pub fn new() -> (r: Self)
        ensures
            r@ == Seq::<V>::empty(),
    {
        PrimaryMap { values: Vec::new(), _key: PhantomData }
    }

    /// Appends `val` and returns the key of the new slot.
    pub fn insert(&mut self, val: V) -> (k: K)
        requires
            old(self)@.len() < K::spec_max(),
        ensures
            final(self)@ == old(self)@.push(val),
            k.index_spec() == old(self)@.len(),
    {
        let key = K::new(self.values.len());
        self.values.push(val);
        key
    }

    pub fn iter<'i>(&'i self) -> (r: PrimaryMapIter<'i, K, V>)
        ensures
            r.map@ == self@,
            r.idx == 0,
    {
        PrimaryMapIter { map: &self, idx: 0 }
    }

    pub fn len(&self) -> (r: usize)
        ensures
            r == self@.len(),
    {
        self.values.len()
    }

    /// The keys of all slots, in ascending order.
    pub fn keys(&self) -> (r: Vec<K>)
        requires
            self@.len() <= K::spec_max(),
        ensures
            r@.len() == self@.len(),
            forall|i: int| 0 <= i < r@.len() ==> (#[trigger] r@[i]).index_spec() == i,
    {
        let mut out: Vec<K> = Vec::new();
        let n = self.values.len();
        let mut i: usize = 0;
        while i < n
            invariant
                i <= n,
                n <= K::spec_max(),
                out@.len() == i,
                forall|j: int| 0 <= j < i ==> (#[trigger] out@[j]).index_spec() == j,
            decreases n - i,
        {
            out.push(K::new(i));
            i += 1;
        }
        out
    }

    pub fn get(&self, key: K) -> (r: &V)
        requires
            key.index_spec() < self@.len(),
        ensures
            *r == self@[key.index_spec() as int],
    {
        &self.values[key.index()]
    }

    pub fn get_mut(&mut self, key: K) -> (r: &mut V)
        requires
            key.index_spec() < old(self)@.len(),
        ensures
            *r == old(self)@[key.index_spec() as int],
            final(self)@ == old(self)@.update(key.index_spec() as int, *final(r)),
    {
        let i = key.index();
        &mut self.values[i]
    }
}

/// Borrowing iterator over a primary map, yielding `(key, &value)` pairs
/// in ascending key order.
pub struct PrimaryMapIter<'i, K: Key, V> {
    pub map: &'i PrimaryMap<K, V>,
    pub idx: usize,
}

impl<'i, K: Key, V> PrimaryMapIter<'i, K, V> {
    pub fn next(&mut self) -> (r: Option<(K, &'i V)>)
        requires
            old(self).map@.len() <= K::spec_max(),
        ensures
            final(self).map == old(self).map,
            old(self).idx < old(self).map@.len() ==> {
                &&& final(self).idx == old(self).idx + 1
                &&& r matches Some((k, v)) && k.index_spec() == old(self).idx
                    && *v == old(self).map@[old(self).idx as int]
            },
            old(self).idx >= old(self).map@.len() ==> r is None && final(self).idx == old(
                self,
            ).idx,
    {
        if self.idx < self.map.values.len() {
            let idx = self.idx;
            self.idx = idx + 1;
            Some((K::new(idx), &self.map.values[idx]))
        } else {
            None
        }
    }
}

/// Secondary store: a fixed-capacity array indexed by the same key space
/// as the primary map it mirrors.
pub struct SecondaryMap<K: Key, V> {
    values: Vec<V>,
    phantom: PhantomData<K>,
}

impl<K: Key, V> View for SecondaryMap<K, V> {
    type V = Seq<V>;

    closed spec fn view(&self) -> Seq<V> {
        self.values@
    }
}

impl<K: Key, V: Clone> SecondaryMap<K, V> {
    /// A map of `cap` slots, each holding a clone of `val`.
    pub fn new(cap: usize, val: V) -> (r: Self)
        ensures
            r@.len() == cap,
            forall|i: int| 0 <= i < cap ==> cloned(val, #[trigger] r@[i]),
    {
        let mut values: Vec<V> = Vec::new();
        let mut i: usize = 0;
        while i < cap
            invariant
                i <= cap,
                values@.len() == i,
                forall|j: int| 0 <= j < i ==> cloned(val, #[trigger] values@[j]),
            decreases cap - i,
        {
            values.push(val.clone());
            i += 1;
        }
        SecondaryMap { values, phantom: PhantomData }
    }
}

impl<K: Key, V> SecondaryMap<K, V> {
    /// A map holding exactly the given slots.
    pub fn from_vec(values: Vec<V>) -> (r: Self)
        ensures
            r@ == values@,
    {
        SecondaryMap { values, phantom: PhantomData }
    }

    /// Overwrites the slot of `key` and hands the key back.
    pub fn set(&mut self, key: K, val: V) -> (r: K)
        requires
            key.index_spec() < old(self)@.len(),
        ensures
            final(self)@ == old(self)@.update(key.index_spec() as int, val),
            r.index_spec() == key.index_spec(),
    {
        let i = key.index();
        self.values[i] = val;
        key
    }

    pub fn capacity(&self) -> (r: usize)
        ensures
            r == self@.len(),
    {
        self.values.len()
    }

    pub fn get(&self, key: K) -> (r: &V)
        requires
            key.index_spec() < self@.len(),
        ensures
            *r == self@[key.index_spec() as int],
    {
        let i = key.index();
        assert(i < self.values.len());
        &self.values[i]
    }

    pub fn get_mut(&mut self, key: K) -> (r: &mut V)
        requires
            key.index_spec() < old(self)@.len(),
        ensures
            *r == old(self)@[key.index_spec() as int],
            final(self)@ == old(self)@.update(key.index_spec() as int, *final(r)),
    {
        let i = key.index();
        assert(i < self.values.len());
        &mut self.values[i]
    }
}

/// Construction of a secondary map from a type's default value.
pub trait SecondaryMapExt<K: Key, V: Default + Clone>: Sized {
    /// The slots the finished map holds.
    spec fn slots_view(self) -> Seq<V>;

    /// A map of `cap` slots, each a clone of the type's default value.
    fn with_default(cap: usize) -> (r: Self)
        ensures
            r.slots_view().len() == cap,
            exists|d: V|
                #[trigger] call_ensures(V::default, (), d) && (forall|i: int|
                    0 <= i < cap ==> cloned(d, #[trigger] r.slots_view()[i])),
    ;
}

impl<K: Key, V: Default + Clone> SecondaryMapExt<K, V> for SecondaryMap<K, V> {
    open spec fn slots_view(self) -> Seq<V> {
        self@
    }

    fn with_default(cap: usize) -> (r: Self) {
        let d = V::default();
        let r = Self::new(cap, d);
        proof {
            assert(call_ensures(V::default, (), d));
        }
        r
    }
}

} // verus!
