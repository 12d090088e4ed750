//! Keyed tables: every registry of the kernel is a [`Table`].
//!
//! A table keeps its entries densely in two vectors and finds them through a
//! `hashbrown` map from the key's code to the entry's position.
use vstd::prelude::*;

verus! {

/// A key of a [`Table`]: a value with a three-word code that no other value shares.
pub trait Code: Copy {
    /// The code of this key.
    spec fn code(self) -> (u64, u64, u64);

    /// Computes [`Code::code`].
    fn encode(&self) -> (c: (u64, u64, u64))
        ensures
            c == self.code(),
    ;

    /// Two keys with one code are one key.
    proof fn lemma_code_injective(a: Self, b: Self)
        ensures
            a.code() == b.code() ==> a == b,
    ;
}

impl Code for usize {
    open spec fn code(self) -> (u64, u64, u64) {
        (0, self as u64, 0)
    }

    fn encode(&self) -> (c: (u64, u64, u64)) {
        (0, *self as u64, 0)
    }

    proof fn lemma_code_injective(a: Self, b: Self) {
    }
}

impl Code for u64 {
    open spec fn code(self) -> (u64, u64, u64) {
        (0, self, 0)
    }

    fn encode(&self) -> (c: (u64, u64, u64)) {
        (0, *self, 0)
    }

    proof fn lemma_code_injective(a: Self, b: Self) {
    }
}

/// A `hashbrown::HashMap` from key codes to positions.
///
/// Verus cannot name the allocator bound of the map's own declaration, so the map
/// stands in a private field and [`index_contents`] names what it holds.
#[verifier::external_body]
pub struct Index {
    inner: hashbrown::HashMap<(u64, u64, u64), usize>,
}

/// The entries that an [`Index`] holds.
pub uninterp spec fn index_contents(m: Index) -> Map<(u64, u64, u64), usize>;

impl Index {
    /// `hashbrown::HashMap::new`: the new map holds nothing.
    #[verifier::external_body]
    fn new() -> (m: Index)
        ensures
            index_contents(m).dom() == Set::<(u64, u64, u64)>::empty(),
    {
        Index { inner: hashbrown::HashMap::new() }
    }

    /// `hashbrown::HashMap::get`: the value stored under `key`, copied out, or
    /// `None` where the map holds no such key. The map does not change.
    #[verifier::external_body]
    fn get(&self, key: (u64, u64, u64)) -> (slot: Option<usize>)
        ensures
            slot == (if index_contents(*self).contains_key(key) {
                Some(index_contents(*self)[key])
            } else {
                None
            }),
    {
        self.inner.get(&key).copied()
    }

    /// `hashbrown::HashMap::insert`: stores `slot` under `key`, replacing what
    /// stood there; every other entry stays. Where the allocator has no memory for the
    /// map to grow, the call does not return, as with a vector's `push`.
    #[verifier::external_body]
    fn insert(&mut self, key: (u64, u64, u64), slot: usize)
        ensures
            index_contents(*final(self)) == index_contents(*old(self)).insert(key, slot),
    {
        self.inner.insert(key, slot);
    }

    /// `hashbrown::HashMap::remove`: takes the entry under `key` out, if there is
    /// one; every other entry stays.
    #[verifier::external_body]
    fn remove(&mut self, key: (u64, u64, u64))
        ensures
            index_contents(*final(self)) == index_contents(*old(self)).remove(key),
    {
        self.inner.remove(&key);
    }

    /// `hashbrown::HashMap::try_reserve` for one more entry: the contents do not
    /// change. Whether room could be had depends on the allocator, so the result
    /// is left open.
    #[verifier::external_body]
    fn try_reserve(&mut self) -> (ok: bool)
        ensures
            index_contents(*final(self)) == index_contents(*old(self)),
    {
        self.inner.try_reserve(1).is_ok()
    }
}

/// The parts of a [`Table`], whose agreement is [`Parts::wf`].
struct Parts<K, T> {
    index: Index,
    keys: Vec<K>,
    vals: Vec<T>,
}

impl<K: Code, T> Parts<K, T> {
    spec fn slots(self) -> Map<(u64, u64, u64), usize> {
        index_contents(self.index)
    }

    spec fn wf(self) -> bool {
        &&& self.keys@.len() == self.vals@.len()
        &&& forall|i: int|
            0 <= i < self.keys@.len() ==> self.slots().contains_key(
                (#[trigger] self.keys@[i]).code(),
            ) && self.slots()[self.keys@[i].code()] == i
        &&& forall|c: (u64, u64, u64)| #[trigger]
            self.slots().contains_key(c) ==> self.slots()[c] < self.keys@.len()
                && self.keys@[self.slots()[c] as int].code() == c
    }

    spec fn map(self) -> Map<K, T> {
        Map::new(
            |k: K| self.slots().contains_key(k.code()),
            |k: K| self.vals@[self.slots()[k.code()] as int],
        )
    }

    fn new() -> (p: Self)
        ensures
            p.wf(),
            p.map() =~= Map::<K, T>::empty(),
    {
        Parts { index: Index::new(), keys: Vec::new(), vals: Vec::new() }
    }

    fn try_reserve(&mut self) -> (ok: bool)
        requires
            old(self).wf(),
        ensures
            final(self).wf(),
            final(self).map() =~= old(self).map(),
    {
        let ghost before = *self;
        let index: bool = self.index.try_reserve();
        let keys: bool = self.keys.try_reserve(1).is_ok();
        let vals: bool = self.vals.try_reserve(1).is_ok();
        proof {
            assert(self.keys@ == before.keys@ && self.vals@ == before.vals@);
            assert(self.slots() == before.slots());
            assert forall|i: int| 0 <= i < self.keys@.len() implies self.slots().contains_key(
                (#[trigger] self.keys@[i]).code(),
            ) && self.slots()[self.keys@[i].code()] == i by {
                assert(before.slots().contains_key(before.keys@[i].code()));
            }
        }
        index && keys && vals
    }

    fn insert(&mut self, key: K, val: T) -> (previous: Option<T>)
        requires
            old(self).wf(),
        ensures
            final(self).wf(),
            final(self).map() =~= old(self).map().insert(key, val),
            previous == (if old(self).map().contains_key(key) {
                Some(old(self).map()[key])
            } else {
                None
            }),
    {
        proof {
            assert forall|k: K| k.code() == key.code() implies k == key by {
                K::lemma_code_injective(k, key);
            }
        }
        match self.index.get(key.encode()) {
            Some(slot) => {
                assert(self.slots().contains_key(key.code()));
                let mut val: T = val;
                std::mem::swap(&mut self.vals[slot], &mut val);
                Some(val)
            },
            None => {
                let slot: usize = self.keys.len();
                self.keys.push(key);
                self.vals.push(val);
                self.index.insert(key.encode(), slot);
                None
            },
        }
    }

    fn remove(&mut self, key: K) -> (gone: Option<T>)
        requires
            old(self).wf(),
        ensures
            final(self).wf(),
            final(self).map() =~= old(self).map().remove(key),
            gone == (if old(self).map().contains_key(key) {
                Some(old(self).map()[key])
            } else {
                None
            }),
    {
        proof {
            assert forall|k: K| k.code() == key.code() implies k == key by {
                K::lemma_code_injective(k, key);
            }
        }
        match self.index.get(key.encode()) {
            None => None,
            Some(slot) => {
                assert(self.slots().contains_key(key.code()));
                let last: usize = self.keys.len() - 1;
                let moved: K = self.keys[last];
                self.index.insert(moved.encode(), slot);
                self.index.remove(key.encode());
                self.keys.swap_remove(slot);
                let val: T = self.vals.swap_remove(slot);
                proof {
                    assert(old(self).slots().contains_key(moved.code()));
                    assert forall|k: K| old(self).slots().contains_key(k.code()) && k != key implies
                        self.vals@[self.slots()[k.code()] as int] == old(self).vals@[old(
                        self,
                    ).slots()[k.code()] as int] by {
                        K::lemma_code_injective(k, moved);
                        K::lemma_code_injective(k, key);
                    }
                }
                Some(val)
            },
        }
    }
}

/// A map from keys to values. `table@` is that map.
#[verifier::reject_recursive_types(K)]
pub struct Table<K: Code, T> {
    parts: Parts<K, T>,
}

impl<K: Code, T> View for Table<K, T> {
    type V = Map<K, T>;

    closed spec fn view(&self) -> Map<K, T> {
        self.parts.map()
    }
}

impl<K: Code, T> Table<K, T> {
    #[verifier::type_invariant]
    spec fn type_inv(self) -> bool {
        self.parts.wf()
    }

    /// The keys in the order in which [`Table::key_at`] gives them.
    pub closed spec fn order(self) -> Seq<K> {
        self.parts.keys@
    }

    /// An empty table.
    pub fn new() -> (t: Self)
        ensures
            t@ == Map::<K, T>::empty(),
    {
        Table { parts: Parts::new() }
    }

    /// The number of entries.
    pub fn len(&self) -> (n: usize)
        ensures
            n == self.order().len(),
            n == self@.dom().len(),
            self@.dom().finite(),
            self.order().no_duplicates(),
            forall|k: K| self.order().contains(k) <==> self@.contains_key(k),
    {
        proof {
            use_type_invariant(&*self);
            self.lemma_order();
        }
        self.parts.keys.len()
    }

    proof fn lemma_order(self)
        requires
            self.parts.wf(),
        ensures
            self.order().no_duplicates(),
            forall|k: K| self.order().contains(k) <==> self@.contains_key(k),
            self@.dom().finite(),
            self@.dom().len() == self.order().len(),
    {
        let keys = self.order();
        assert forall|k: K| self.order().contains(k) <==> self@.contains_key(k) by {
            if self@.contains_key(k) {
                let i = self.parts.slots()[k.code()] as int;
                K::lemma_code_injective(keys[i], k);
                assert(keys[i] == k);
            }
        }
        assert(keys.no_duplicates());
        assert(self@.dom() =~= keys.to_set());
        keys.unique_seq_to_set();
    }

    /// The `i`th key.
    pub fn key_at(&self, i: usize) -> (k: K)
        requires
            i < self.order().len(),
        ensures
            k == self.order()[i as int],
            self@.contains_key(k),
    {
        proof {
            use_type_invariant(&*self);
        }
        self.parts.keys[i]
    }

    /// Whether `key` has an entry.
    pub fn contains(&self, key: K) -> (b: bool)
        ensures
            b == self@.contains_key(key),
    {
        self.parts.index.get(key.encode()).is_some()
    }

    /// The value under `key`.
    pub fn get(&self, key: K) -> (v: Option<&T>)
        ensures
            v == (if self@.contains_key(key) {
                Some(&self@[key])
            } else {
                None
            }),
    {
        proof {
            use_type_invariant(&*self);
        }
        match self.parts.index.get(key.encode()) {
            None => None,
            Some(slot) => {
                assert(self.parts.slots().contains_key(key.code()));
                Some(&self.parts.vals[slot])
            },
        }
    }

    /// Stores `val` under `key`; what stood there is handed back.
    pub fn insert(&mut self, key: K, val: T) -> (previous: Option<T>)
        ensures
            final(self)@ == old(self)@.insert(key, val),
            previous == (if old(self)@.contains_key(key) {
                Some(old(self)@[key])
            } else {
                None
            }),
    {
        let mut parts: Parts<K, T> = Parts::new();
        proof {
            use_type_invariant(&*self);
        }
        std::mem::swap(&mut parts, &mut self.parts);
        let previous: Option<T> = parts.insert(key, val);
        self.parts = parts;
        previous
    }

    /// Takes the entry under `key` out.
    pub fn remove(&mut self, key: K) -> (gone: Option<T>)
        ensures
            final(self)@ == old(self)@.remove(key),
            gone == (if old(self)@.contains_key(key) {
                Some(old(self)@[key])
            } else {
                None
            }),
    {
        let mut parts: Parts<K, T> = Parts::new();
        proof {
            use_type_invariant(&*self);
        }
        std::mem::swap(&mut parts, &mut self.parts);
        let gone: Option<T> = parts.remove(key);
        self.parts = parts;
        gone
    }

    /// Drops every entry.
    pub fn clear(&mut self)
        ensures
            final(self)@ == Map::<K, T>::empty(),
    {
        self.parts = Parts::new();
    }

    /// Makes room for one more entry; `false` where the allocator has none.
    pub fn try_reserve(&mut self) -> (ok: bool)
        ensures
            final(self)@ == old(self)@,
    {
        let mut parts: Parts<K, T> = Parts::new();
        proof {
            use_type_invariant(&*self);
        }
        std::mem::swap(&mut parts, &mut self.parts);
        let ok: bool = parts.try_reserve();
        self.parts = parts;
        ok
    }

    /// The value under `key`, to change in place.
    pub fn get_mut(&mut self, key: K) -> (v: Option<&mut T>)
        ensures
            old(self)@.contains_key(key) ==> {
                &&& v is Some
                &&& *v->0 == old(self)@[key]
                &&& final(self)@ =~= old(self)@.insert(key, *final(v->0))
            },
            !old(self)@.contains_key(key) ==> v is None && final(self)@ == old(self)@,
    {
        proof {
            use_type_invariant(&*self);
            assert forall|k: K| k.code() == key.code() implies k == key by {
                K::lemma_code_injective(k, key);
            }
            assert forall|k: K, j: K|
                self.parts.slots().contains_key(k.code()) && self.parts.slots().contains_key(
                    j.code(),
                ) && self.parts.slots()[k.code()] == self.parts.slots()[j.code()] implies k.code()
                == j.code() by {}
        }
        match self.parts.index.get(key.encode()) {
            None => None,
            Some(slot) => {
                assert(self.parts.slots().contains_key(key.code()));
                Some(&mut self.parts.vals[slot])
            },
        }
    }
}

} // verus!
