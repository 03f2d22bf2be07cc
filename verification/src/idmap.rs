//! A map keyed by numbers, kept in the order of its keys.
use vstd::prelude::*;

verus! {

/// The keys rise from one to the next.
pub open spec fn rising(keys: Seq<u64>) -> bool {
    forall|i: int, j: int| 0 <= i < j < keys.len() ==> #[trigger] keys[i] < #[trigger] keys[j]
}

/// The map that gives each key the value at its place.
pub open spec fn zipped<V>(keys: Seq<u64>, values: Seq<V>) -> Map<u64, V> {
    Map::new(|k: u64| keys.contains(k), |k: u64| values[keys.index_of(k)])
}

/// A map from numbers to `V`.
#[derive(Debug)]
pub struct IdMap<V> {
    keys: Vec<u64>,
    values: Vec<V>,
}

impl<V> View for IdMap<V> {
    type V = Map<u64, V>;

    closed spec fn view(&self) -> Map<u64, V> {
        zipped(self.keys@, self.values@)
    }
}

proof fn lemma_index_of(keys: Seq<u64>, i: int)
    requires
        rising(keys),
        0 <= i < keys.len(),
    ensures
        keys.contains(keys[i]),
        keys.index_of(keys[i]) == i,
{
    let j = keys.index_of(keys[i]);
    assert(keys.contains(keys[i]));
    assert(0 <= j < keys.len() && keys[j] == keys[i]);
}

proof fn lemma_zipped_len<V>(keys: Seq<u64>, values: Seq<V>)
    requires
        rising(keys),
    ensures
        zipped(keys, values).dom().finite(),
        zipped(keys, values).dom().len() == keys.len(),
{
    assert(keys.no_duplicates());
    keys.unique_seq_to_set();
    assert(zipped(keys, values).dom() =~= keys.to_set());
}

proof fn lemma_zipped_insert<V>(keys: Seq<u64>, values: Seq<V>, at: int, k: u64, v: V)
    requires
        rising(keys),
        keys.len() == values.len(),
        0 <= at <= keys.len(),
        forall|i: int| 0 <= i < at ==> keys[i] < k,
        forall|i: int| at <= i < keys.len() ==> k < keys[i],
    ensures
        rising(keys.insert(at, k)),
        zipped(keys.insert(at, k), values.insert(at, v)) == zipped(keys, values).insert(k, v),
{
    let nk = keys.insert(at, k);
    let nv = values.insert(at, v);
    assert(rising(nk)) by {
        assert forall|i: int, j: int| 0 <= i < j < nk.len() implies #[trigger] nk[i]
            < #[trigger] nk[j] by {
            let a = if i < at { i } else { i - 1 };
            let b = if j < at { j } else { j - 1 };
            if i != at && j != at {
                assert(nk[i] == keys[a] && nk[j] == keys[b]);
            } else if i == at {
                assert(nk[j] == keys[b]);
            } else {
                assert(nk[i] == keys[a]);
            }
        }
    }
    let want = zipped(keys, values).insert(k, v);
    let got = zipped(nk, nv);
    assert forall|q: u64| got.contains_key(q) == want.contains_key(q) by {
        if got.contains_key(q) {
            let i = nk.index_of(q);
            assert(0 <= i < nk.len() && nk[i] == q);
            if i != at {
                let a = if i < at { i } else { i - 1 };
                assert(keys[a] == q);
            }
        }
        if want.contains_key(q) {
            if q == k {
                assert(nk[at] == k);
            } else {
                let i = keys.index_of(q);
                assert(0 <= i < keys.len() && keys[i] == q);
                let a = if i < at { i } else { i + 1 };
                assert(nk[a] == q);
            }
        }
    }
    assert forall|q: u64| got.contains_key(q) implies got[q] == want[q] by {
        let i = nk.index_of(q);
        assert(0 <= i < nk.len() && nk[i] == q);
        if i == at {
            lemma_index_of(nk, at);
        } else {
            let a = if i < at { i } else { i - 1 };
            assert(keys[a] == q);
            lemma_index_of(keys, a);
            assert(nv[i] == values[a]);
        }
    }
    assert(got =~= want);
}

proof fn lemma_zipped_remove<V>(keys: Seq<u64>, values: Seq<V>, at: int)
    requires
        rising(keys),
        keys.len() == values.len(),
        0 <= at < keys.len(),
    ensures
        rising(keys.remove(at)),
        zipped(keys.remove(at), values.remove(at)) == zipped(keys, values).remove(keys[at]),
{
    let nk = keys.remove(at);
    let nv = values.remove(at);
    assert(rising(nk)) by {
        assert forall|i: int, j: int| 0 <= i < j < nk.len() implies #[trigger] nk[i]
            < #[trigger] nk[j] by {
            let a = if i < at { i } else { i + 1 };
            let b = if j < at { j } else { j + 1 };
            assert(nk[i] == keys[a] && nk[j] == keys[b]);
        }
    }
    let want = zipped(keys, values).remove(keys[at]);
    let got = zipped(nk, nv);
    assert forall|q: u64| got.contains_key(q) == want.contains_key(q) by {
        if got.contains_key(q) {
            let i = nk.index_of(q);
            assert(0 <= i < nk.len() && nk[i] == q);
            let a = if i < at { i } else { i + 1 };
            assert(keys[a] == q);
        }
        if want.contains_key(q) {
            let i = keys.index_of(q);
            assert(0 <= i < keys.len() && keys[i] == q);
            let a = if i < at { i } else { i - 1 };
            assert(nk[a] == q);
        }
    }
    assert forall|q: u64| got.contains_key(q) implies got[q] == want[q] by {
        let i = nk.index_of(q);
        assert(0 <= i < nk.len() && nk[i] == q);
        let a = if i < at { i } else { i + 1 };
        assert(keys[a] == q);
        lemma_index_of(keys, a);
        assert(nv[i] == values[a]);
    }
    assert(got =~= want);
}

proof fn lemma_zipped_update<V>(keys: Seq<u64>, values: Seq<V>, at: int, v: V)
    requires
        rising(keys),
        keys.len() == values.len(),
        0 <= at < keys.len(),
    ensures
        zipped(keys, values.update(at, v)) == zipped(keys, values).insert(keys[at], v),
{
    let want = zipped(keys, values).insert(keys[at], v);
    let got = zipped(keys, values.update(at, v));
    lemma_index_of(keys, at);
    assert forall|q: u64| got.contains_key(q) implies got[q] == want[q] by {
        let i = keys.index_of(q);
        assert(0 <= i < keys.len() && keys[i] == q);
    }
    assert(got =~= want);
}

impl<V> IdMap<V> {
    #[verifier::type_invariant]
    spec fn inv(self) -> bool {
        rising(self.keys@) && self.keys@.len() == self.values@.len()
    }

    /// The keys, from the least to the greatest.
    pub closed spec fn key_list(&self) -> Seq<u64> {
        self.keys@
    }

    /// The empty map.
    pub fn new() -> (r: Self)
        ensures
            r@ == Map::<u64, V>::empty(),
            r.key_list() == Seq::<u64>::empty(),
    {
        let r = IdMap { keys: Vec::new(), values: Vec::new() };
        assert(zipped(r.keys@, r.values@) =~= Map::<u64, V>::empty());
        r
    }

    /// The first place whose key is not under `k`.
    fn lower_bound(&self, k: u64) -> (r: usize)
        ensures
            r <= self.keys@.len(),
            forall|i: int| 0 <= i < r ==> self.keys@[i] < k,
            forall|i: int| r <= i < self.keys@.len() ==> k <= self.keys@[i],
    {
        proof {
            use_type_invariant(self);
        }
        let mut lo: usize = 0;
        let mut hi: usize = self.keys.len();
        while lo < hi
            invariant
                rising(self.keys@),
                lo <= hi <= self.keys@.len(),
                forall|i: int| 0 <= i < lo ==> self.keys@[i] < k,
                forall|i: int| hi <= i < self.keys@.len() ==> k <= self.keys@[i],
            decreases hi - lo,
        {
            let mid: usize = lo + (hi - lo) / 2;
            if self.keys[mid] < k {
                assert forall|i: int| 0 <= i < mid + 1 implies self.keys@[i] < k by {
                    if i < mid {
                        assert(self.keys@[i] < self.keys@[mid as int]);
                    }
                }
                lo = mid + 1;
            } else {
                assert forall|i: int| mid <= i < self.keys@.len() implies k <= self.keys@[i] by {
                    if i > mid {
                        assert(self.keys@[mid as int] < self.keys@[i]);
                    }
                }
                hi = mid;
            }
        }
        lo
    }

    /// The place of a key.
    fn find(&self, k: u64) -> (r: Option<usize>)
        ensures
            match r {
                Some(i) => i < self.keys@.len() && self.keys@[i as int] == k && self@.contains_key(k)
                    && self@[k] == self.values@[i as int],
                None => !self@.contains_key(k),
            },
    {
        proof {
            use_type_invariant(self);
        }
        let i = self.lower_bound(k);
        if i < self.keys.len() && self.keys[i] == k {
            proof {
                lemma_index_of(self.keys@, i as int);
            }
            Some(i)
        } else {
            proof {
                if self.keys@.contains(k) {
                    let j = self.keys@.index_of(k);
                    assert(0 <= j < self.keys@.len() && self.keys@[j] == k);
                    if i < self.keys@.len() && i < j {
                        assert(self.keys@[i as int] < self.keys@[j]);
                    }
                }
            }
            None
        }
    }

    /// The value of a key.
    pub fn get(&self, k: u64) -> (r: Option<&V>)
        ensures
            match r {
                Some(v) => self@.contains_key(k) && *v == self@[k],
                None => !self@.contains_key(k),
            },
    {
        proof {
            use_type_invariant(self);
        }
        match self.find(k) {
            Some(i) => Some(&self.values[i]),
            None => None,
        }
    }

    /// The value of a key, to be changed in place.
    pub fn get_mut(&mut self, k: u64) -> (r: Option<&mut V>)
        ensures
            match r {
                Some(v) => old(self)@.contains_key(k) && *v == old(self)@[k] && final(self)@
                    == old(self)@.insert(k, *final(v)) && final(self).key_list() == old(
                    self).key_list(),
                None => !old(self)@.contains_key(k) && final(self)@ == old(self)@ && final(
                    self).key_list() == old(self).key_list(),
            },
    {
        proof {
            use_type_invariant(&*self);
        }
        match self.find(k) {
            Some(i) => {
                proof {
                    assert forall|v: V| #[trigger] zipped(
                        self.keys@,
                        self.values@.update(i as int, v),
                    ) == zipped(self.keys@, self.values@).insert(k, v) by {
                        lemma_zipped_update(self.keys@, self.values@, i as int, v);
                    }
                }
                Some(&mut self.values[i])
            },
            None => None,
        }
    }

    /// True iff the key has a value.
    pub fn contains_key(&self, k: u64) -> (r: bool)
        ensures
            r == self@.contains_key(k),
    {
        self.find(k).is_some()
    }

    /// Sets the value of a key and returns the one it had.
    pub fn insert(&mut self, k: u64, v: V) -> (r: Option<V>)
        ensures
            final(self)@ == old(self)@.insert(k, v),
            match r {
                Some(was) => old(self)@.contains_key(k) && was == old(self)@[k],
                None => !old(self)@.contains_key(k),
            },
    {
        let found = self.find(k);
        let at = self.lower_bound(k);
        proof {
            use_type_invariant(&*self);
        }
        let mut whole: IdMap<V> = IdMap::new();
        core::mem::swap(self, &mut whole);
        let IdMap { keys, values } = whole;
        let mut keys = keys;
        let mut values = values;
        match found {
            Some(i) => {
                proof {
                    lemma_zipped_update(keys@, values@, i as int, v);
                }
                let mut was = v;
                core::mem::swap(&mut values[i], &mut was);
                *self = IdMap { keys, values };
                Some(was)
            },
            None => {
                proof {
                    assert forall|i: int| at <= i < keys@.len() implies k < keys@[i] by {
                        if keys@[i] == k {
                            lemma_index_of(keys@, i);
                        }
                    }
                    lemma_zipped_insert(keys@, values@, at as int, k, v);
                }
                keys.insert(at, k);
                values.insert(at, v);
                *self = IdMap { keys, values };
                None
            },
        }
    }

    /// Takes the value of a key out.
    pub fn remove(&mut self, k: u64) -> (r: Option<V>)
        ensures
            final(self)@ == old(self)@.remove(k),
            match r {
                Some(was) => old(self)@.contains_key(k) && was == old(self)@[k],
                None => !old(self)@.contains_key(k),
            },
    {
        let found = self.find(k);
        proof {
            use_type_invariant(&*self);
        }
        match found {
            Some(i) => {
                let mut whole: IdMap<V> = IdMap::new();
                core::mem::swap(self, &mut whole);
                let IdMap { keys, values } = whole;
                let mut keys = keys;
                let mut values = values;
                proof {
                    lemma_zipped_remove(keys@, values@, i as int);
                }
                let key = keys.remove(i);
                let was = values.remove(i);
                *self = IdMap { keys, values };
                Some(was)
            },
            None => {
                assert(self@ =~= self@.remove(k));
                None
            },
        }
    }

    /// How many keys have a value.
    pub fn len(&self) -> (r: usize)
        ensures
            r == self@.dom().len(),
            r == self.key_list().len(),
            self@.dom().finite(),
            rising(self.key_list()),
            forall|k: u64| #[trigger] self@.contains_key(k) <==> self.key_list().contains(k),
    {
        proof {
            use_type_invariant(self);
            lemma_zipped_len(self.keys@, self.values@);
        }
        self.keys.len()
    }

    /// The `i`-th key, from the least.
    pub fn key_at(&self, i: usize) -> (r: u64)
        requires
            i < self.key_list().len(),
        ensures
            r == self.key_list()[i as int],
            self@.contains_key(r),
    {
        proof {
            use_type_invariant(self);
            lemma_index_of(self.keys@, i as int);
        }
        self.keys[i]
    }

    /// The value of the `i`-th key, from the least.
    pub fn value_at(&self, i: usize) -> (r: &V)
        requires
            i < self.key_list().len(),
        ensures
            self@.contains_key(self.key_list()[i as int]),
            *r == self@[self.key_list()[i as int]],
    {
        proof {
            use_type_invariant(self);
            lemma_index_of(self.keys@, i as int);
        }
        &self.values[i]
    }
}

} // verus!
