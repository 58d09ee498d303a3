//! A small hash table with keys of the library's own.
use std::collections::HashMap;
use vstd::prelude::*;

use crate::bytes::same;

verus! {

broadcast use vstd::std_specs::hash::group_hash_axioms;

/// What a table asks of its keys: a hash, and to tell two keys apart.
pub trait Key: Sized {
    /// What the key stands for.
    type V;

    spec fn key(self) -> Self::V;

    spec fn spot(v: Self::V) -> u64;

    fn hash_of(&self) -> (h: u64)
        ensures
            h == Self::spot(self.key()),
    ;

    fn is(&self, other: &Self) -> (r: bool)
        ensures
            r == (self.key() == other.key()),
    ;
}

/// The hash of a byte string.
pub open spec fn byte_hash(s: Seq<u8>) -> nat
    decreases s.len(),
{
    if s.len() == 0 {
        7
    } else {
        (byte_hash(s.drop_last()) * 257 + s.last() as nat) % 1_000_000_007
    }
}

impl Key for Vec<u8> {
    type V = Seq<u8>;

    open spec fn key(self) -> Seq<u8> {
        self@
    }

    open spec fn spot(v: Seq<u8>) -> u64 {
        byte_hash(v) as u64
    }

    fn hash_of(&self) -> (h: u64) {
        let mut h: u64 = 7;
        let mut i: usize = 0;
        while i < self.len()
            invariant
                i <= self.len(),
                h == byte_hash(self@.take(i as int)),
                h < 1_000_000_007,
            decreases self.len() - i,
        {
            assert(self@.take(i + 1).drop_last() =~= self@.take(i as int));
            h = (h * 257 + self[i] as u64) % 1_000_000_007;
            i = i + 1;
        }
        assert(self@.take(self@.len() as int) =~= self@);
        h
    }

    fn is(&self, other: &Self) -> (r: bool) {
        same(self.as_slice(), other.as_slice())
    }
}

/// Values by key. Each key is in `recs` once; `index` finds it by its hash.
pub struct Table<K, T> {
    recs: Vec<(K, T)>,
    index: HashMap<u64, Vec<usize>>,
}

impl<K: Key, T: Copy> Table<K, T> {
    /// The places a hash leads to.
    pub closed spec fn slots(self, h: u64) -> Seq<usize> {
        if self.index@.contains_key(h) {
            self.index@[h]@
        } else {
            Seq::empty()
        }
    }

    /// The keys and values, in the order they came in.
    pub closed spec fn items(self) -> Seq<(K::V, T)> {
        Seq::new(self.recs@.len(), |i: int| (self.recs@[i].0.key(), self.recs@[i].1))
    }

    /// Every record is found by its hash, and no key is there twice.
    pub closed spec fn wf(self) -> bool {
        &&& forall|i: int|
            #![trigger self.recs@[i]]
            0 <= i < self.recs@.len() ==> self.slots(K::spot(self.recs@[i].0.key())).contains(
                i as usize,
            )
        &&& forall|h: u64, j: int|
            #![trigger self.slots(h)[j]]
            0 <= j < self.slots(h).len() ==> self.slots(h)[j] < self.recs@.len()
        &&& forall|i: int, j: int|
            #![trigger self.recs@[i], self.recs@[j]]
            0 <= i < j < self.recs@.len() ==> self.recs@[i].0.key() != self.recs@[j].0.key()
    }

    /// Whether a key is in the table.
    pub open spec fn has(self, k: K::V) -> bool {
        exists|i: int| 0 <= i < self.items().len() && (#[trigger] self.items()[i]).0 == k
    }

    /// Where a key stands.
    pub open spec fn place(self, k: K::V) -> int {
        choose|i: int| 0 <= i < self.items().len() && (#[trigger] self.items()[i]).0 == k
    }

    /// The value of a key that is in the table.
    pub open spec fn at(self, k: K::V) -> T {
        self.items()[self.place(k)].1
    }

    /// The table as a map.
    pub open spec fn map(self) -> Map<K::V, T> {
        Map::new(|k: K::V| self.has(k), |k: K::V| self.at(k))
    }

    /// A key stands in one place.
    pub proof fn one_place(self, i: int, j: int)
        requires
            self.wf(),
            0 <= i < self.items().len(),
            0 <= j < self.items().len(),
            self.items()[i].0 == self.items()[j].0,
        ensures
            i == j,
    {
        let a = self.recs@[i];
        let b = self.recs@[j];
        if i < j {
            assert(a.0.key() != b.0.key());
        } else if j < i {
            assert(b.0.key() != a.0.key());
        }
    }

    /// An empty table.
    pub fn new() -> (t: Self)
        ensures
            t.wf(),
            t.items() == Seq::<(K::V, T)>::empty(),
            t.map() == Map::<K::V, T>::empty(),
    {
        let t = Table { recs: Vec::new(), index: HashMap::new() };
        assert(t.items() =~= Seq::empty());
        assert(t.map() =~= Map::empty());
        t
    }

    /// The number of keys.
    pub fn len(&self) -> (n: usize)
        ensures
            n == self.items().len(),
    {
        self.recs.len()
    }

    /// The `i`th key.
    pub fn key_at(&self, i: usize) -> (k: &K)
        requires
            i < self.items().len(),
        ensures
            k.key() == self.items()[i as int].0,
    {
        &self.recs[i].0
    }

    /// The `i`th value.
    pub fn value_at(&self, i: usize) -> (v: T)
        requires
            i < self.items().len(),
        ensures
            v == self.items()[i as int].1,
    {
        self.recs[i].1
    }

    fn find(&self, k: &K) -> (r: Option<usize>)
        requires
            self.wf(),
        ensures
            match r {
                Some(i) => i < self.items().len() && self.items()[i as int].0 == k.key()
                    && self.place(k.key()) == i && self.has(k.key()),
                None => !self.has(k.key()),
            },
    {
        let h: u64 = k.hash_of();
        let n: usize = self.recs.len();
        match self.index.get(&h) {
            None => {
                assert(self.slots(h) =~= Seq::empty());
                assert forall|i: int| 0 <= i < self.items().len() implies (
                #[trigger] self.items()[i]).0 != k.key() by {
                    let r = self.recs@[i];
                    if r.0.key() == k.key() {
                        assert(self.slots(h).contains(i as usize));
                    }
                }
                None
            },
            Some(bucket) => {
                assert(self.slots(h) == bucket@);
                let mut j: usize = 0;
                while j < bucket.len()
                    invariant
                        j <= bucket.len(),
                        self.wf(),
                        h == K::spot(k.key()),
                        self.slots(h) == bucket@,
                        forall|m: int|
                            0 <= m < j ==> self.recs@[(#[trigger] bucket@[m]) as int].0.key()
                                != k.key(),
                    decreases bucket.len() - j,
                {
                    let i: usize = bucket[j];
                    assert(self.slots(h)[j as int] == i);
                    if self.recs[i].0.is(k) {
                        assert(self.items()[i as int].0 == k.key());
                        proof {
                            self.one_place(self.place(k.key()), i as int);
                        }
                        return Some(i);
                    }
                    j = j + 1;
                }
                assert forall|i: int| 0 <= i < self.items().len() implies (
                #[trigger] self.items()[i]).0 != k.key() by {
                    let r = self.recs@[i];
                    if r.0.key() == k.key() {
                        assert(self.slots(h).contains(i as usize));
                        assert(i < n && (i as usize) as int == i);
                        let m = choose|m: int| 0 <= m < bucket@.len() && bucket@[m] == i as usize;
                        assert(self.recs@[bucket@[m] as int].0.key() != k.key());
                    }
                }
                None
            },
        }
    }

    /// The value of a key.
    pub fn get(&self, k: &K) -> (r: Option<T>)
        requires
            self.wf(),
        ensures
            r == (if self.map().contains_key(k.key()) {
                Some(self.map()[k.key()])
            } else {
                None
            }),
    {
        match self.find(k) {
            Some(i) => Some(self.recs[i].1),
            None => None,
        }
    }

    /// Replaces the `i`th value.
    pub fn set_at(&mut self, i: usize, v: T)
        requires
            old(self).wf(),
            i < old(self).items().len(),
        ensures
            final(self).wf(),
            final(self).items() == old(self).items().update(
                i as int,
                (old(self).items()[i as int].0, v),
            ),
            final(self).map() == old(self).map().insert(old(self).items()[i as int].0, v),
    {
        let ghost was = *self;
        let ghost k = was.items()[i as int].0;
        self.recs[i].1 = v;
        proof {
            assert forall|a: int| 0 <= a < was.recs@.len() implies (#[trigger] self.recs@[a]).0
                == was.recs@[a].0 by {
            }
            assert(self.index == was.index);
            assert forall|h: u64| self.slots(h) == was.slots(h) by {
            }
            assert forall|a: int|
                #![trigger self.recs@[a]]
                0 <= a < self.recs@.len() implies self.slots(
                K::spot(self.recs@[a].0.key()),
            ).contains(a as usize) by {
                let b = was.recs@[a];
                assert(was.slots(K::spot(b.0.key())).contains(a as usize));
            }
            assert forall|h: u64, j: int|
                #![trigger self.slots(h)[j]]
                0 <= j < self.slots(h).len() implies self.slots(h)[j] < self.recs@.len() by {
                assert(was.slots(h)[j] < was.recs@.len());
            }
            assert forall|a: int, b: int|
                #![trigger self.recs@[a], self.recs@[b]]
                0 <= a < b < self.recs@.len() implies self.recs@[a].0.key()
                != self.recs@[b].0.key() by {
                let x = was.recs@[a];
                let y = was.recs@[b];
                assert(x.0.key() != y.0.key());
            }
            assert(self.wf());
            assert(self.items() =~= was.items().update(i as int, (k, v)));
            self.map_after(was, k, v, i as int);
        }
    }

    /// One value replaced or one record added is one insertion into the map.
    proof fn map_after(self, was: Self, k: K::V, v: T, at: int)
        requires
            self.wf(),
            was.wf(),
            0 <= at < self.items().len(),
            self.items()[at] == (k, v),
            was.items().len() <= self.items().len(),
            was.items().len() == self.items().len() || at == was.items().len(),
            self.items().len() <= was.items().len() + 1,
            forall|i: int|
                #![trigger self.items()[i]]
                #![trigger was.items()[i]]
                0 <= i < was.items().len() && i != at ==> self.items()[i] == was.items()[i],
            at < was.items().len() ==> was.items()[at].0 == k,
        ensures
            self.map() == was.map().insert(k, v),
    {
        assert forall|x: K::V| self.has(x) == (was.has(x) || x == k) by {
            if self.has(x) {
                let i = self.place(x);
                assert(self.items()[i].0 == x);
                if i != at {
                    assert(was.items()[i].0 == x);
                }
            }
            if was.has(x) {
                let i = was.place(x);
                assert(was.items()[i].0 == x);
                assert(self.items()[i].0 == x);
            }
            if x == k {
                assert(self.items()[at].0 == x);
            }
        }
        assert forall|x: K::V| self.has(x) implies self.at(x) == (if x == k {
            v
        } else {
            was.at(x)
        }) by {
            let i = self.place(x);
            assert(self.items()[i].0 == x);
            if x == k {
                self.one_place(i, at);
            } else {
                assert(was.items()[i].0 == x);
                let j = was.place(x);
                assert(was.items()[j].0 == x);
                was.one_place(i, j);
            }
        }
        assert(self.map() =~= was.map().insert(k, v));
    }

    /// Gives a key a value, whether it had one or not.
    pub fn insert(&mut self, k: K, v: T)
        requires
            old(self).wf(),
        ensures
            final(self).wf(),
            final(self).map() == old(self).map().insert(k.key(), v),
    {
        let ghost was = *self;
        let ghost kv = k.key();
        if let Some(i) = self.find(&k) {
            self.set_at(i, v);
            return;
        }
        let h: u64 = k.hash_of();
        let n: usize = self.recs.len();
        let mut bucket: Vec<usize> = match self.index.remove(&h) {
            Some(b) => b,
            None => Vec::new(),
        };
        assert(bucket@ =~= was.slots(h));
        bucket.push(n);
        self.index.insert(h, bucket);
        self.recs.push((k, v));
        proof {
            assert(self.slots(h) =~= was.slots(h).push(n));
            assert forall|g: u64| g != h implies self.slots(g) == was.slots(g) by {
            }
            assert forall|i: int| 0 <= i < n implies #[trigger] self.recs@[i] == was.recs@[i] by {
            }
            assert forall|i: int|
                #![trigger self.recs@[i]]
                0 <= i < self.recs@.len() implies self.slots(
                K::spot(self.recs@[i].0.key()),
            ).contains(i as usize) by {
                if i == n {
                    assert(self.slots(h)[was.slots(h).len() as int] == n);
                } else {
                    let r = was.recs@[i];
                    let g = K::spot(r.0.key());
                    assert(was.slots(g).contains(i as usize));
                    let m = choose|m: int|
                        0 <= m < was.slots(g).len() && was.slots(g)[m] == i as usize;
                    assert(self.slots(g)[m] == i as usize);
                }
            }
            assert forall|g: u64, j: int|
                #![trigger self.slots(g)[j]]
                0 <= j < self.slots(g).len() implies self.slots(g)[j] < self.recs@.len() by {
                if g == h && j == was.slots(h).len() {
                } else {
                    assert(was.slots(g)[j] < was.recs@.len());
                }
            }
            assert forall|i: int, j: int|
                #![trigger self.recs@[i], self.recs@[j]]
                0 <= i < j < self.recs@.len() implies self.recs@[i].0.key()
                != self.recs@[j].0.key() by {
                let a = was.recs@[i];
                if j == n {
                    assert(was.items()[i].0 == a.0.key());
                    assert(!was.has(kv));
                } else {
                    let b = was.recs@[j];
                    assert(a.0.key() != b.0.key());
                }
            }
            assert(self.wf());
            assert(self.items() =~= was.items().push((kv, v)));
            self.map_after(was, kv, v, n as int);
        }
    }
}

} // verus!
