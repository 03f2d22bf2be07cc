//! Who can be seen by whom, as computed lately.
use vstd::prelude::*;

use crate::components::NpcId;
use crate::float_bits::F32Bits;

verus! {

/// A computed exposure.
#[derive(Clone, Copy, Debug, PartialEq, Eq, Structural)]
pub struct LosEntry {
    /// From zero for fully blocked to one for fully visible.
    pub exposure: F32Bits,
    /// When it was computed.
    pub computed_tick: u64,
}

/// An entry and the direction it is for.
#[derive(Clone, Copy, Debug, PartialEq, Eq, Structural)]
pub struct LosRow {
    pub observer: NpcId,
    pub target: NpcId,
    pub entry: LosEntry,
}

/// Exposures by observer and target. Directions count: what one sees of the
/// other says nothing of what the other sees.
#[derive(Debug)]
pub struct LosCache {
    rows: Vec<LosRow>,
}

/// The direction of a row.
pub open spec fn direction(r: LosRow) -> (NpcId, NpcId) {
    (r.observer, r.target)
}

/// The map that rows stand for.
pub open spec fn row_map(rows: Seq<LosRow>) -> Map<(NpcId, NpcId), LosEntry>
    decreases rows.len(),
{
    if rows.len() == 0 {
        Map::empty()
    } else {
        row_map(rows.drop_last()).insert(direction(rows.last()), rows.last().entry)
    }
}

/// No direction has two rows.
spec fn distinct(rows: Seq<LosRow>) -> bool {
    forall|i: int, j: int|
        0 <= i < j < rows.len() ==> direction(#[trigger] rows[i]) != direction(#[trigger] rows[j])
}

/// What a map of rows holds.
proof fn lemma_row_map(rows: Seq<LosRow>)
    requires
        distinct(rows),
    ensures
        row_map(rows).dom().finite(),
        row_map(rows).dom().len() == rows.len(),
        forall|i: int|
            0 <= i < rows.len() ==> row_map(rows).contains_key(direction(#[trigger] rows[i]))
                && row_map(rows)[direction(rows[i])] == rows[i].entry,
        forall|k: (NpcId, NpcId)| #[trigger]
            row_map(rows).contains_key(k) ==> exists|i: int|
                0 <= i < rows.len() && direction(#[trigger] rows[i]) == k,
    decreases rows.len(),
{
    if rows.len() > 0 {
        let init = rows.drop_last();
        lemma_row_map(init);
        let k = direction(rows.last());
        assert(!row_map(init).contains_key(k)) by {
            if row_map(init).contains_key(k) {
                let i = choose|i: int| 0 <= i < init.len() && direction(#[trigger] init[i]) == k;
                assert(direction(rows[i]) != direction(rows[rows.len() - 1]));
            }
        }
        assert(row_map(rows).dom() =~= row_map(init).dom().insert(k));
        assert forall|i: int| 0 <= i < rows.len() implies row_map(rows).contains_key(
            direction(#[trigger] rows[i]),
        ) && row_map(rows)[direction(rows[i])] == rows[i].entry by {
            if i < rows.len() - 1 {
                assert(init[i] == rows[i]);
                assert(direction(rows[i]) != direction(rows[rows.len() - 1]));
            }
        }
        assert forall|q: (NpcId, NpcId)| #[trigger] row_map(rows).contains_key(q) implies exists|
            i: int,
        |
            0 <= i < rows.len() && direction(#[trigger] rows[i]) == q by {
            if q == k {
                assert(direction(rows[rows.len() - 1]) == q);
            } else {
                assert(row_map(init).contains_key(q));
                let i = choose|i: int| 0 <= i < init.len() && direction(#[trigger] init[i]) == q;
                assert(direction(rows[i]) == q);
            }
        }
    }
}

/// The entry is younger than `max_age` ticks.
pub open spec fn younger(e: LosEntry, now: u64, max_age: u64) -> bool {
    (if now > e.computed_tick {
        now - e.computed_tick
    } else {
        0
    }) < max_age
}

/// The map without the entries that are not as young as asked for.
pub open spec fn young_part(
    m: Map<(NpcId, NpcId), LosEntry>,
    now: u64,
    max_age: u64,
) -> Map<(NpcId, NpcId), LosEntry> {
    Map::new(
        |k: (NpcId, NpcId)| m.contains_key(k) && younger(m[k], now, max_age),
        |k: (NpcId, NpcId)| m[k],
    )
}

impl View for LosCache {
    type V = Map<(NpcId, NpcId), LosEntry>;

    closed spec fn view(&self) -> Map<(NpcId, NpcId), LosEntry> {
        row_map(self.rows@)
    }
}

impl Default for LosCache {
    /// An empty cache.
    fn default() -> (r: Self)
        ensures
            r@ == Map::<(NpcId, NpcId), LosEntry>::empty(),
    {
        LosCache { rows: Vec::new() }
    }
}

impl LosCache {
    #[verifier::type_invariant]
    spec fn inv(self) -> bool {
        distinct(self.rows@)
    }

    /// The place of a direction's row.
    fn find(&self, observer: NpcId, target: NpcId) -> (r: Option<usize>)
        ensures
            match r {
                Some(i) => i < self.rows@.len() && direction(self.rows@[i as int]) == (
                    observer,
                    target,
                ) && self@.contains_key((observer, target)) && self@[(observer, target)]
                    == self.rows@[i as int].entry,
                None => !self@.contains_key((observer, target)) && forall|i: int|
                    0 <= i < self.rows@.len() ==> direction(#[trigger] self.rows@[i]) != (
                        observer,
                        target,
                    ),
            },
    {
        proof {
            use_type_invariant(self);
            lemma_row_map(self.rows@);
        }
        let mut i: usize = 0;
        while i < self.rows.len()
            invariant
                i <= self.rows@.len(),
                forall|k: int|
                    0 <= k < i ==> direction(#[trigger] self.rows@[k]) != (observer, target),
            decreases self.rows@.len() - i,
        {
            if self.rows[i].observer == observer && self.rows[i].target == target {
                proof {
                    use_type_invariant(self);
                    lemma_row_map(self.rows@);
                    assert(direction(self.rows@[i as int]) == (observer, target));
                }
                return Some(i);
            }
            i += 1;
        }
        None
    }

    /// How much of the target the observer sees, where that was computed.
    pub fn get(&self, observer: NpcId, target: NpcId) -> (r: Option<F32Bits>)
        ensures
            match r {
                Some(x) => self@.contains_key((observer, target)) && x == self@[(
                    observer,
                    target,
                )].exposure,
                None => !self@.contains_key((observer, target)),
            },
    {
        match self.find(observer, target) {
            Some(i) => Some(self.rows[i].entry.exposure),
            None => None,
        }
    }

    /// The entry of a direction.
    pub fn entry(&self, observer: NpcId, target: NpcId) -> (r: Option<LosEntry>)
        ensures
            match r {
                Some(e) => self@.contains_key((observer, target)) && e == self@[(observer, target)],
                None => !self@.contains_key((observer, target)),
            },
    {
        match self.find(observer, target) {
            Some(i) => Some(self.rows[i].entry),
            None => None,
        }
    }

    /// Sets the entry of a direction.
    pub fn put(&mut self, observer: NpcId, target: NpcId, exposure: F32Bits, tick: u64)
        ensures
            final(self)@ == old(self)@.insert(
                (observer, target),
                (LosEntry { exposure, computed_tick: tick }),
            ),
    {
        let found = self.find(observer, target);
        proof {
            use_type_invariant(&*self);
            lemma_row_map(self.rows@);
        }
        let entry = LosEntry { exposure, computed_tick: tick };
        let row = LosRow { observer, target, entry };
        let mut rows: Vec<LosRow> = Vec::new();
        core::mem::swap(&mut self.rows, &mut rows);
        let ghost before = rows@;
        match found {
            Some(i) => {
                rows.set(i, row);
                proof {
                    lemma_row_set(before, i as int, row);
                }
            },
            None => {
                rows.push(row);
                proof {
                    assert(rows@.drop_last() =~= before);
                    assert forall|a: int, b: int| 0 <= a < b < rows@.len() implies direction(
                        #[trigger] rows@[a],
                    ) != direction(#[trigger] rows@[b]) by {
                        assert(rows@[a] == before[a]);
                        if b < before.len() {
                            assert(rows@[b] == before[b]);
                        }
                    }
                }
            },
        }
        self.rows = rows;
    }

    /// Keeps the entries computed at `current_tick` or later.
    pub fn clear_stale(&mut self, current_tick: u64)
        ensures
            forall|k: (NpcId, NpcId)| #[trigger]
                final(self)@.contains_key(k) <==> old(self)@.contains_key(k) && old(
                    self)@[k].computed_tick >= current_tick,
            forall|k: (NpcId, NpcId)| #[trigger]
                final(self)@.contains_key(k) ==> final(self)@[k] == old(self)@[k],
    {
        self.retain_newer_than(current_tick, 1);
    }

    /// Keeps the entries younger than `max_age` ticks.
    pub fn retain_newer_than(&mut self, current_tick: u64, max_age: u64)
        ensures
            final(self)@ == young_part(old(self)@, current_tick, max_age),
    {
        proof {
            use_type_invariant(&*self);
        }
        let mut rows: Vec<LosRow> = Vec::new();
        core::mem::swap(&mut self.rows, &mut rows);
        let ghost before = rows@;
        let mut kept: Vec<LosRow> = Vec::new();
        let mut i: usize = 0;
        let ghost mut from: Seq<int> = Seq::empty();
        while i < rows.len()
            invariant
                i <= rows@.len(),
                rows@ == before,
                from.len() == kept@.len(),
                forall|a: int|
                    0 <= a < from.len() ==> 0 <= #[trigger] from[a] < i && kept@[a]
                        == before[from[a]] && younger(before[from[a]].entry, current_tick, max_age),
                forall|a: int, b: int|
                    0 <= a < b < from.len() ==> #[trigger] from[a] < #[trigger] from[b],
                forall|k: int|
                    0 <= k < i && younger((#[trigger] before[k]).entry, current_tick, max_age)
                        ==> from.contains(k),
            decreases rows@.len() - i,
        {
            let e = rows[i].entry;
            let age: u64 = if current_tick > e.computed_tick {
                current_tick - e.computed_tick
            } else {
                0
            };
            let ghost was = from;
            if age < max_age {
                kept.push(rows[i]);
                proof {
                    from = from.push(i as int);
                }
            }
            proof {
                assert forall|k: int|
                    0 <= k < i + 1 && younger(
                        (#[trigger] before[k]).entry,
                        current_tick,
                        max_age,
                    ) implies from.contains(k) by {
                    if k < i {
                        let a = choose|a: int| 0 <= a < was.len() && was[a] == k;
                        assert(from[a] == k);
                    } else {
                        assert(from[from.len() - 1] == k);
                    }
                }
            }
            i += 1;
        }
        proof {
            lemma_kept(before, kept@, from, current_tick, max_age);
        }
        self.rows = kept;
    }

    /// How many entries there are.
    pub fn len(&self) -> (r: usize)
        ensures
            self@.dom().finite(),
            r == self@.dom().len(),
    {
        proof {
            use_type_invariant(self);
            lemma_row_map(self.rows@);
        }
        self.rows.len()
    }

    /// True iff there is no entry.
    pub fn is_empty(&self) -> (r: bool)
        ensures
            r == (self@ == Map::<(NpcId, NpcId), LosEntry>::empty()),
    {
        proof {
            use_type_invariant(self);
            lemma_row_map(self.rows@);
            if self.rows@.len() > 0 {
                assert(self@.contains_key(direction(self.rows@[0])));
            }
        }
        self.rows.len() == 0
    }
}

/// Overwriting a row sets its direction's entry.
proof fn lemma_row_set(rows: Seq<LosRow>, at: int, row: LosRow)
    requires
        distinct(rows),
        0 <= at < rows.len(),
        direction(rows[at]) == direction(row),
    ensures
        distinct(rows.update(at, row)),
        row_map(rows.update(at, row)) == row_map(rows).insert(direction(row), row.entry),
{
    let after = rows.update(at, row);
    assert forall|a: int, b: int| 0 <= a < b < after.len() implies direction(#[trigger] after[a])
        != direction(#[trigger] after[b]) by {
        assert(direction(after[a]) == direction(rows[a]));
        assert(direction(after[b]) == direction(rows[b]));
    }
    lemma_row_map(rows);
    lemma_row_map(after);
    let want = row_map(rows).insert(direction(row), row.entry);
    assert forall|k: (NpcId, NpcId)| row_map(after).contains_key(k) == want.contains_key(k) by {
        if row_map(after).contains_key(k) {
            let j = choose|j: int| 0 <= j < after.len() && direction(#[trigger] after[j]) == k;
            assert(direction(rows[j]) == k);
        }
        if want.contains_key(k) && k != direction(row) {
            let j = choose|j: int| 0 <= j < rows.len() && direction(#[trigger] rows[j]) == k;
            assert(direction(after[j]) == k);
        }
        assert(direction(after[at]) == direction(row));
    }
    assert forall|k: (NpcId, NpcId)| row_map(after).contains_key(k) implies row_map(after)[k]
        == want[k] by {
        let j = choose|j: int| 0 <= j < after.len() && direction(#[trigger] after[j]) == k;
        assert(direction(rows[j]) == k);
        if j != at {
            assert(direction(rows[j]) != direction(rows[at]));
        }
    }
    assert(row_map(after) =~= want);
}

/// Keeping the young rows keeps the young part of the map.
proof fn lemma_kept(
    rows: Seq<LosRow>,
    kept: Seq<LosRow>,
    from: Seq<int>,
    now: u64,
    max_age: u64,
)
    requires
        distinct(rows),
        from.len() == kept.len(),
        forall|a: int|
            0 <= a < from.len() ==> 0 <= #[trigger] from[a] < rows.len() && kept[a]
                == rows[from[a]] && younger(rows[from[a]].entry, now, max_age),
        forall|a: int, b: int| 0 <= a < b < from.len() ==> #[trigger] from[a] < #[trigger] from[b],
        forall|k: int|
            0 <= k < rows.len() && younger((#[trigger] rows[k]).entry, now, max_age)
                ==> from.contains(k),
    ensures
        distinct(kept),
        row_map(kept) == young_part(row_map(rows), now, max_age),
{
    assert forall|a: int, b: int| 0 <= a < b < kept.len() implies direction(#[trigger] kept[a])
        != direction(#[trigger] kept[b]) by {
        assert(from[a] < from[b]);
        assert(direction(rows[from[a]]) != direction(rows[from[b]]));
    }
    lemma_row_map(rows);
    lemma_row_map(kept);
    let want = young_part(row_map(rows), now, max_age);
    assert forall|k: (NpcId, NpcId)| row_map(kept).contains_key(k) == want.contains_key(k) by {
        if row_map(kept).contains_key(k) {
            let a = choose|a: int| 0 <= a < kept.len() && direction(#[trigger] kept[a]) == k;
            assert(rows[from[a]] == kept[a]);
        }
        if want.contains_key(k) {
            let j = choose|j: int| 0 <= j < rows.len() && direction(#[trigger] rows[j]) == k;
            assert(from.contains(j));
            let a = choose|a: int| 0 <= a < from.len() && from[a] == j;
            assert(direction(kept[a]) == k);
        }
    }
    assert forall|k: (NpcId, NpcId)| row_map(kept).contains_key(k) implies row_map(kept)[k]
        == want[k] by {
        let a = choose|a: int| 0 <= a < kept.len() && direction(#[trigger] kept[a]) == k;
        assert(rows[from[a]] == kept[a]);
    }
    assert(row_map(kept) =~= want);
}

/// Keeping what is younger than one tick is dropping what is older than now.
pub proof fn law_one_tick_is_stale(m: Map<(NpcId, NpcId), LosEntry>, now: u64, k: (NpcId, NpcId))
    ensures
        young_part(m, now, 1).contains_key(k) <==> m.contains_key(k) && m[k].computed_tick >= now,
{
}

/// An entry is kept for `max_age` ticks from when it was computed.
pub proof fn law_entries_live_max_age(e: LosEntry, now: u64, max_age: u64)
    requires
        max_age > 0,
    ensures
        younger(e, now, max_age) <==> now < e.computed_tick + max_age,
{
}

} // verus!
