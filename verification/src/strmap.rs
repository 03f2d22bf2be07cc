//! A map keyed by strings, kept as a list of entries in insertion order.
use vstd::prelude::*;
use vstd::utf8::encode_utf8;

use crate::text::{
    lemma_bytes_lt_total, lemma_bytes_lt_trans, lemma_utf8_injective, str_before, str_eq, str_lt,
};

verus! {

/// One entry of a [`StrMap`].
#[derive(Debug)]
pub struct Entry<V> {
    pub key: String,
    pub value: V,
}

/// The map that a list of entries with distinct keys stands for.
pub open spec fn map_of<V>(entries: Seq<Entry<V>>) -> Map<Seq<char>, V>
    decreases entries.len(),
{
    if entries.len() == 0 {
        Map::empty()
    } else {
        map_of(entries.drop_last()).insert(entries.last().key@, entries.last().value)
    }
}

/// No key occurs twice.
pub open spec fn distinct_keys<V>(entries: Seq<Entry<V>>) -> bool {
    forall|i: int, j: int|
        0 <= i < j < entries.len() ==> (#[trigger] entries[i]).key@ != (
        #[trigger] entries[j]).key@
}

/// A map from strings to `V`. Entries keep the order in which their keys were
/// first inserted.
#[derive(Debug)]
pub struct StrMap<V> {
    entries: Vec<Entry<V>>,
}

proof fn lemma_map_of<V>(entries: Seq<Entry<V>>)
    requires
        distinct_keys(entries),
    ensures
        map_of(entries).dom().finite(),
        map_of(entries).dom().len() == entries.len(),
        forall|i: int|
            0 <= i < entries.len() ==> map_of(entries).contains_key(
                (#[trigger] entries[i]).key@,
            ) && map_of(entries)[entries[i].key@] == entries[i].value,
        forall|k: Seq<char>| #[trigger]
            map_of(entries).contains_key(k) ==> exists|i: int|
                0 <= i < entries.len() && (#[trigger] entries[i]).key@ == k,
    decreases entries.len(),
{
    if entries.len() > 0 {
        let init = entries.drop_last();
        lemma_map_of(init);
        let k = entries.last().key@;
        assert(!map_of(init).contains_key(k)) by {
            if map_of(init).contains_key(k) {
                let i = choose|i: int| 0 <= i < init.len() && (#[trigger] init[i]).key@ == k;
                assert(entries[i].key@ == entries[entries.len() - 1].key@);
            }
        }
        assert(map_of(entries).dom() =~= map_of(init).dom().insert(k));
        assert forall|i: int| 0 <= i < entries.len() implies map_of(entries).contains_key(
            (#[trigger] entries[i]).key@,
        ) && map_of(entries)[entries[i].key@] == entries[i].value by {
            if i < entries.len() - 1 {
                assert(init[i] == entries[i]);
                assert(entries[i].key@ != entries[entries.len() - 1].key@);
            }
        }
        assert forall|q: Seq<char>| #[trigger] map_of(entries).contains_key(q) implies exists|i: int|
            0 <= i < entries.len() && (#[trigger] entries[i]).key@ == q by {
            if q == k {
                assert(entries[entries.len() - 1].key@ == q);
            } else {
                assert(map_of(init).contains_key(q));
                let i = choose|i: int| 0 <= i < init.len() && (#[trigger] init[i]).key@ == q;
                assert(entries[i].key@ == q);
            }
        }
    }
}

/// Overwriting the value of one entry overwrites the value of its key.
proof fn lemma_map_of_update<V>(entries: Seq<Entry<V>>, i: int, e: Entry<V>)
    requires
        distinct_keys(entries),
        0 <= i < entries.len(),
        e.key@ == entries[i].key@,
    ensures
        distinct_keys(entries.update(i, e)),
        map_of(entries.update(i, e)) == map_of(entries).insert(e.key@, e.value),
{
    let after = entries.update(i, e);
    assert(distinct_keys(after)) by {
        assert forall|a: int, b: int| 0 <= a < b < after.len() implies (#[trigger] after[a]).key@
            != (#[trigger] after[b]).key@ by {
            assert(after[a].key@ == entries[a].key@);
            assert(after[b].key@ == entries[b].key@);
        }
    }
    lemma_map_of(entries);
    lemma_map_of(after);
    let want = map_of(entries).insert(e.key@, e.value);
    assert forall|k: Seq<char>| map_of(after).contains_key(k) == want.contains_key(k) by {
        if map_of(after).contains_key(k) {
            let j = choose|j: int| 0 <= j < after.len() && (#[trigger] after[j]).key@ == k;
            assert(entries[j].key@ == k);
        }
        if want.contains_key(k) && k != e.key@ {
            let j = choose|j: int| 0 <= j < entries.len() && (#[trigger] entries[j]).key@ == k;
            assert(after[j].key@ == k);
        }
        assert(after[i].key@ == e.key@);
    }
    assert forall|k: Seq<char>| map_of(after).contains_key(k) implies map_of(after)[k] == want[k] by {
        let j = choose|j: int| 0 <= j < after.len() && (#[trigger] after[j]).key@ == k;
        assert(entries[j].key@ == k);
        if j != i {
            assert(entries[j].key@ != entries[i].key@);
        }
    }
    assert(map_of(after) =~= want);
}

/// Taking out one entry takes out its key.
proof fn lemma_map_of_remove<V>(entries: Seq<Entry<V>>, i: int)
    requires
        distinct_keys(entries),
        0 <= i < entries.len(),
    ensures
        distinct_keys(entries.remove(i)),
        map_of(entries.remove(i)) == map_of(entries).remove(entries[i].key@),
{
    let after = entries.remove(i);
    assert(distinct_keys(after)) by {
        assert forall|a: int, b: int| 0 <= a < b < after.len() implies (#[trigger] after[a]).key@
            != (#[trigger] after[b]).key@ by {
            let x = if a < i { a } else { a + 1 };
            let y = if b < i { b } else { b + 1 };
            assert(after[a] == entries[x]);
            assert(after[b] == entries[y]);
        }
    }
    lemma_map_of(entries);
    lemma_map_of(after);
    let want = map_of(entries).remove(entries[i].key@);
    assert forall|k: Seq<char>| map_of(after).contains_key(k) == want.contains_key(k) by {
        if map_of(after).contains_key(k) {
            let j = choose|j: int| 0 <= j < after.len() && (#[trigger] after[j]).key@ == k;
            let x = if j < i { j } else { j + 1 };
            assert(after[j] == entries[x]);
            assert(entries[x].key@ != entries[i].key@);
        }
        if want.contains_key(k) {
            let j = choose|j: int| 0 <= j < entries.len() && (#[trigger] entries[j]).key@ == k;
            let x = if j < i { j } else { j - 1 };
            assert(after[x] == entries[j]);
        }
    }
    assert forall|k: Seq<char>| map_of(after).contains_key(k) implies map_of(after)[k] == want[k] by {
        let j = choose|j: int| 0 <= j < after.len() && (#[trigger] after[j]).key@ == k;
        let x = if j < i { j } else { j + 1 };
        assert(after[j] == entries[x]);
    }
    assert(map_of(after) =~= want);
}

/// `order` holds the first `n` places, in the order of their keys.
pub open spec fn in_key_order<V>(entries: Seq<Entry<V>>, order: Seq<usize>, n: int) -> bool {
    &&& forall|a: int| 0 <= a < order.len() ==> (#[trigger] order[a]) < n
    &&& forall|a: int, b: int|
        0 <= a < b < order.len() ==> str_before(
            entries[#[trigger] order[a] as int].key@,
            entries[#[trigger] order[b] as int].key@,
        )
    &&& forall|p: int| 0 <= p < n ==> #[trigger] holds_place(order, p)
}

/// Place `p` occurs in `order`.
pub open spec fn holds_place(order: Seq<usize>, p: int) -> bool {
    exists|a: int| 0 <= a < order.len() && #[trigger] order[a] == p
}

/// A later place goes in before the first whose key does not come before its
/// own.
proof fn lemma_key_slot<V>(entries: Seq<Entry<V>>, order: Seq<usize>, n: int, at: int)
    requires
        0 <= n < entries.len() <= usize::MAX,
        distinct_keys(entries),
        in_key_order(entries, order, n),
        0 <= at <= order.len(),
        forall|k: int|
            0 <= k < at ==> str_before(entries[#[trigger] order[k] as int].key@, entries[n].key@),
        at < order.len() ==> !str_before(entries[order[at] as int].key@, entries[n].key@),
    ensures
        in_key_order(entries, order.insert(at, n as usize), n + 1),
{
    let after = order.insert(at, n as usize);
    let mine = encode_utf8(entries[n].key@);
    if at < order.len() {
        let first = entries[order[at] as int].key@;
        lemma_bytes_lt_total(mine, encode_utf8(first));
        assert(entries[order[at] as int].key@ != entries[n].key@);
        if mine == encode_utf8(first) {
            lemma_utf8_injective(entries[n].key@, first);
        }
        assert(str_before(entries[n].key@, first));
    }
    assert forall|a: int, b: int| 0 <= a < b < after.len() implies str_before(
        entries[#[trigger] after[a] as int].key@,
        entries[#[trigger] after[b] as int].key@,
    ) by {
        let x = if a < at {
            a
        } else {
            a - 1
        };
        let y = if b < at {
            b
        } else {
            b - 1
        };
        if a != at {
            assert(after[a] == order[x]);
        }
        if b != at {
            assert(after[b] == order[y]);
        }
        if a == at && y > at {
            lemma_bytes_lt_trans(
                mine,
                encode_utf8(entries[order[at] as int].key@),
                encode_utf8(entries[order[y] as int].key@),
            );
        }
    }
    assert forall|p: int| 0 <= p < n + 1 implies #[trigger] holds_place(after, p) by {
        if p == n {
            assert(after[at] == p);
        } else {
            assert(holds_place(order, p));
            let a = choose|a: int| 0 <= a < order.len() && #[trigger] order[a] == p;
            if a < at {
                assert(after[a] == p);
            } else {
                assert(after[a + 1] == p);
            }
        }
    }
    assert forall|a: int| 0 <= a < after.len() implies (#[trigger] after[a]) < n + 1 by {
        if a < at {
            assert(after[a] == order[a]);
        } else if a > at {
            assert(after[a] == order[a - 1]);
        }
    }
}

impl<V> View for StrMap<V> {
    type V = Map<Seq<char>, V>;

    closed spec fn view(&self) -> Map<Seq<char>, V> {
        map_of(self.entries@)
    }
}

impl<V> StrMap<V> {
    #[verifier::type_invariant]
    spec fn inv(self) -> bool {
        distinct_keys(self.entries@)
    }

    /// The entries, in insertion order.
    pub closed spec fn list(&self) -> Seq<Entry<V>> {
        self.entries@
    }

    /// The empty map.
    pub fn new() -> (r: Self)
        ensures
            r@ == Map::<Seq<char>, V>::empty(),
            r.list() == Seq::<Entry<V>>::empty(),
    {
        StrMap { entries: Vec::new() }
    }

    /// The position of `key` in the list of entries.
    pub fn position(&self, key: &str) -> (r: Option<usize>)
        ensures
            match r {
                Some(i) => i < self.list().len() && self.list()[i as int].key@ == key@
                    && self@.contains_key(key@) && self@[key@] == self.list()[i as int].value,
                None => !self@.contains_key(key@),
            },
    {
        proof {
            use_type_invariant(self);
            lemma_map_of(self.entries@);
        }
        let mut i: usize = 0;
        while i < self.entries.len()
            invariant
                i <= self.entries@.len(),
                distinct_keys(self.entries@),
                forall|j: int| 0 <= j < i ==> (#[trigger] self.entries@[j]).key@ != key@,
            decreases self.entries@.len() - i,
        {
            if str_eq(self.entries[i].key.as_str(), key) {
                proof {
                    lemma_map_of(self.entries@);
                }
                return Some(i);
            }
            i += 1;
        }
        proof {
            lemma_map_of(self.entries@);
        }
        None
    }

    /// The value of `key`, if it has one.
    pub fn get(&self, key: &str) -> (r: Option<&V>)
        ensures
            match r {
                Some(v) => self@.contains_key(key@) && *v == self@[key@],
                None => !self@.contains_key(key@),
            },
    {
        match self.position(key) {
            Some(i) => Some(&self.entries[i].value),
            None => None,
        }
    }

    /// True iff `key` has a value.
    pub fn contains_key(&self, key: &str) -> (r: bool)
        ensures
            r == self@.contains_key(key@),
    {
        self.position(key).is_some()
    }

    /// Sets the value of `key`. A key that was there keeps its place.
    pub fn insert(&mut self, key: String, value: V)
        ensures
            final(self)@ == old(self)@.insert(key@, value),
    {
        let at = self.position(key.as_str());
        proof {
            use_type_invariant(&*self);
            lemma_map_of(self.entries@);
        }
        let mut entries: Vec<Entry<V>> = Vec::new();
        core::mem::swap(&mut self.entries, &mut entries);
        match at {
            Some(i) => {
                let e = Entry { key, value };
                proof {
                    lemma_map_of_update(entries@, i as int, e);
                }
                entries.set(i, e);
            },
            None => {
                let e = Entry { key, value };
                let ghost before = entries@;
                proof {
                    assert(distinct_keys(before.push(e))) by {
                        assert forall|a: int, b: int| 0 <= a < b < before.push(e).len() implies (
                        #[trigger] before.push(e)[a]).key@ != (#[trigger] before.push(e)[b]).key@ by {
                            assert(before.push(e)[a] == before[a]);
                            assert(map_of(before).contains_key(before[a].key@));
                        }
                    }
                    assert(before.push(e).drop_last() =~= before);
                }
                entries.push(e);
            },
        }
        core::mem::swap(&mut self.entries, &mut entries);
    }

    /// Takes the value of `key` out.
    pub fn remove(&mut self, key: &str) -> (r: Option<V>)
        ensures
            match r {
                Some(v) => old(self)@.contains_key(key@) && v == old(self)@[key@] && final(self)@
                    == old(self)@.remove(key@),
                None => !old(self)@.contains_key(key@) && final(self)@ == old(self)@,
            },
    {
        match self.position(key) {
            Some(i) => {
                proof {
                    use_type_invariant(&*self);
                    lemma_map_of_remove(self.entries@, i as int);
                }
                let mut entries: Vec<Entry<V>> = Vec::new();
                core::mem::swap(&mut self.entries, &mut entries);
                let e = entries.remove(i);
                core::mem::swap(&mut self.entries, &mut entries);
                Some(e.value)
            },
            None => None,
        }
    }

    /// How many keys have a value.
    pub fn len(&self) -> (r: usize)
        ensures
            r == self@.dom().len(),
            r == self.list().len(),
            self@.dom().finite(),
    {
        proof {
            use_type_invariant(self);
            lemma_map_of(self.entries@);
        }
        self.entries.len()
    }

    /// The entry at position `i` of the list.
    pub fn entry_at(&self, i: usize) -> (r: &Entry<V>)
        requires
            i < self.list().len(),
        ensures
            *r == self.list()[i as int],
            self@.contains_key(r.key@),
            self@[r.key@] == r.value,
    {
        proof {
            use_type_invariant(self);
            lemma_map_of(self.entries@);
        }
        &self.entries[i]
    }

    /// The places of the entries, in the order of the keys.
    pub fn key_order(&self) -> (r: Vec<usize>)
        ensures
            in_key_order(self.list(), r@, self.list().len() as int),
            r@.len() == self.list().len(),
            forall|k: Seq<char>| #[trigger]
                self@.contains_key(k) ==> exists|i: int|
                    0 <= i < self.list().len() && (#[trigger] self.list()[i]).key@ == k
                        && self.list()[i].value == self@[k],
    {
        proof {
            use_type_invariant(self);
            lemma_map_of(self.entries@);
            assert forall|k: Seq<char>| #[trigger] self@.contains_key(k) implies exists|i: int|
                0 <= i < self.list().len() && (#[trigger] self.list()[i]).key@ == k
                    && self.list()[i].value == self@[k] by {
                let i = choose|i: int|
                    0 <= i < self.entries@.len() && (#[trigger] self.entries@[i]).key@ == k;
                assert(self.list()[i].key@ == k);
            }
        }
        let mut order: Vec<usize> = Vec::new();
        let mut i: usize = 0;
        while i < self.entries.len()
            invariant
                i <= self.entries@.len(),
                distinct_keys(self.entries@),
                order@.len() == i,
                in_key_order(self.entries@, order@, i as int),
            decreases self.entries@.len() - i,
        {
            let ghost before = order@;
            let key = &self.entries[i].key;
            let mut at: usize = 0;
            while at < order.len() && str_lt(self.entries[order[at]].key.as_str(), key.as_str())
                invariant
                    at <= order@.len(),
                    order@ == before,
                    i < self.entries@.len(),
                    key@ == self.entries@[i as int].key@,
                    in_key_order(self.entries@, before, i as int),
                    forall|k: int|
                        0 <= k < at ==> str_before(
                            self.entries@[#[trigger] before[k] as int].key@,
                            key@,
                        ),
                decreases order@.len() - at,
            {
                at += 1;
            }
            order.insert(at, i);
            proof {
                lemma_key_slot(self.entries@, before, i as int, at as int);
            }
            i += 1;
        }
        order
    }

    /// Every value, in insertion order of the keys.
    pub fn values(&self) -> (r: Vec<&V>)
        ensures
            r@.len() == self.list().len(),
            r@.len() == self@.dom().len(),
            forall|i: int| 0 <= i < r@.len() ==> *(#[trigger] r@[i]) == self.list()[i].value,
            forall|k: Seq<char>| #[trigger]
                self@.contains_key(k) ==> exists|i: int|
                    0 <= i < r@.len() && *(#[trigger] r@[i]) == self@[k],
            forall|i: int|
                0 <= i < r@.len() ==> self@.contains_key(self.list()[i].key@)
                    && self@[self.list()[i].key@] == *(#[trigger] r@[i]),
    {
        proof {
            use_type_invariant(self);
            lemma_map_of(self.entries@);
        }
        let mut r: Vec<&V> = Vec::new();
        let mut i: usize = 0;
        while i < self.entries.len()
            invariant
                i <= self.entries@.len(),
                r@.len() == i,
                forall|j: int| 0 <= j < i ==> *(#[trigger] r@[j]) == self.entries@[j].value,
            decreases self.entries@.len() - i,
        {
            r.push(&self.entries[i].value);
            i += 1;
        }
        proof {
            assert forall|k: Seq<char>| #[trigger] self@.contains_key(k) implies exists|i: int|
                0 <= i < r@.len() && *(#[trigger] r@[i]) == self@[k] by {
                let j = choose|j: int|
                    0 <= j < self.entries@.len() && (#[trigger] self.entries@[j]).key@ == k;
                assert(*r@[j] == self@[k]);
            }
        }
        r
    }
}

} // verus!
