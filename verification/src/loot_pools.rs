//! What may lie in a container, by faction, depth and family.
use vstd::prelude::*;

use crate::items::ItemId;
use crate::rng::{draw_between, moved_on, Generator, Trail};
use crate::text::str_eq;
use crate::weighted::{can_come_up, pick_weighted, picked, weight_sum};

verus! {

/// One item of a pool.
#[derive(Clone, Debug)]
pub struct PoolEntry {
    pub id: String,
    pub weight: u32,
    /// How many there are of it, at least and at most.
    pub count_min: u32,
    pub count_max: u32,
}

/// Count of an entry that does not say.
pub fn one() -> (r: u32)
    ensures
        r == 1,
{
    1
}

/// The items that a faction leaves at a depth, of one family.
#[derive(Debug)]
pub struct LootPool {
    pub faction: String,
    pub depth_tier: u8,
    pub family: String,
    pub entries: Vec<PoolEntry>,
}

/// An item and how many of it.
#[derive(Clone, Debug, PartialEq, Eq)]
pub struct RolledItem {
    pub id: ItemId,
    pub count: u32,
}

/// All pools.
#[derive(Debug)]
pub struct LootPoolRegistry {
    pools: Vec<LootPool>,
}

/// The pool is the one for the faction, depth and family.
pub open spec fn is_pool(p: LootPool, faction: Seq<char>, tier: u8, family: Seq<char>) -> bool {
    p.faction@ == faction && p.depth_tier == tier && p.family@ == family
}

/// The first such pool, from place `from` on.
pub open spec fn pool_index(
    pools: Seq<LootPool>,
    faction: Seq<char>,
    tier: u8,
    family: Seq<char>,
    from: int,
) -> Option<int>
    decreases pools.len() - from,
{
    if from < 0 || from >= pools.len() {
        None
    } else if is_pool(pools[from], faction, tier, family) {
        Some(from)
    } else {
        pool_index(pools, faction, tier, family, from + 1)
    }
}

/// The first of the two that is there.
pub open spec fn or_else(a: Option<int>, b: Option<int>) -> Option<int> {
    if a is Some {
        a
    } else {
        b
    }
}

/// The pool that serves for the faction, depth and family: its own, else the
/// faction's at depth one, else that of the nomads at the depth, else that of
/// the nomads at depth one.
pub open spec fn pool_for(
    pools: Seq<LootPool>,
    faction: Seq<char>,
    tier: u8,
    family: Seq<char>,
) -> Option<int> {
    or_else(
        pool_index(pools, faction, tier, family, 0),
        or_else(
            pool_index(pools, faction, 1, family, 0),
            or_else(
                pool_index(pools, "nomads"@, tier, family, 0),
                pool_index(pools, "nomads"@, 1, family, 0),
            ),
        ),
    )
}

/// The weights of a pool's entries.
pub open spec fn entry_weights(entries: Seq<PoolEntry>) -> Seq<u32> {
    Seq::new(entries.len(), |i: int| entries[i].weight)
}

/// So many of an entry are possible; the least and the most may stand either
/// way round.
pub open spec fn possible_count(e: PoolEntry, count: u32) -> bool {
    if e.count_min <= e.count_max {
        e.count_min <= count <= e.count_max
    } else {
        e.count_max <= count <= e.count_min
    }
}

/// The item is what the entry gives.
pub open spec fn given_by(e: PoolEntry, item: RolledItem) -> bool {
    item.id@ == e.id@ && possible_count(e, item.count)
}

/// The item is what the entry gives by a generator, and what is known of it
/// then.
pub open spec fn given_from(
    e: PoolEntry,
    before: Option<Trail>,
    item: RolledItem,
    after: Option<Trail>,
) -> bool {
    let (lo, hi) = if e.count_min <= e.count_max {
        (e.count_min as int, e.count_max as int)
    } else {
        (e.count_max as int, e.count_min as int)
    };
    &&& given_by(e, item)
    &&& before matches Some(t) ==> item.count == t.next(32, lo, hi)
    &&& moved_on(before, 32, lo, hi, after)
}

/// The candidates are what a generator picks one after the other, and what is
/// known of it then.
pub open spec fn lottery(
    entries: Seq<PoolEntry>,
    before: Option<Trail>,
    picks: Seq<usize>,
    after: Option<Trail>,
) -> bool
    decreases picks.len(),
{
    if picks.len() == 0 {
        after == before
    } else {
        exists|mid: Option<Trail>| #[trigger]
            picked(entry_weights(entries), mid, Some(picks.last()), after) && lottery(
                entries,
                before,
                picks.drop_last(),
                mid,
            )
    }
}

/// The place, among the first `n` candidates, of the rarest: the one with the
/// least weight, and of several the first.
pub open spec fn rarest_of(entries: Seq<PoolEntry>, picks: Seq<usize>, n: int) -> int
    decreases n,
{
    if n <= 1 {
        0
    } else {
        let best = rarest_of(entries, picks, n - 1);
        if entries[picks[n - 1] as int].weight < entries[picks[best] as int].weight {
            n - 1
        } else {
            best
        }
    }
}

/// Every candidate may come up.
pub open spec fn candidates(entries: Seq<PoolEntry>, picks: Seq<usize>, k: int) -> bool {
    &&& picks.len() == k
    &&& forall|j: int|
        0 <= j < picks.len() ==> can_come_up(entry_weights(entries), #[trigger] picks[j] as int)
}

/// How many tries a lottery has.
pub open spec fn tries(lottery_k: u32) -> int {
    if lottery_k > 1 {
        lottery_k as int
    } else {
        1
    }
}

/// The weights of a pool's entries.
fn weights_of(entries: &Vec<PoolEntry>) -> (r: Vec<u32>)
    ensures
        r@ == entry_weights(entries@),
{
    let mut ws: Vec<u32> = Vec::new();
    let mut i: usize = 0;
    while i < entries.len()
        invariant
            i <= entries@.len(),
            ws@ == entry_weights(entries@).take(i as int),
        decreases entries@.len() - i,
    {
        ws.push(entries[i].weight);
        i += 1;
        assert(entry_weights(entries@).take(i as int) =~= entry_weights(entries@).take(i - 1).push(
            entries@[i - 1].weight,
        ));
    }
    assert(entry_weights(entries@).take(i as int) =~= entry_weights(entries@));
    ws
}

/// What an entry gives.
fn roll_entry(rng: &mut Generator, e: &PoolEntry) -> (r: RolledItem)
    ensures
        given_from(*e, old(rng)@, r, final(rng)@),
{
    let count: u32 = if e.count_min <= e.count_max {
        draw_between(rng, e.count_min, e.count_max)
    } else {
        draw_between(rng, e.count_max, e.count_min)
    };
    RolledItem { id: ItemId(e.id.clone()), count }
}

/// The rarest of the candidates.
pub fn rarest(entries: &Vec<PoolEntry>, picks: &Vec<usize>) -> (r: usize)
    requires
        picks@.len() > 0,
        forall|j: int| 0 <= j < picks@.len() ==> #[trigger] picks@[j] < entries@.len(),
    ensures
        r < entries@.len(),
        r == picks@[rarest_of(entries@, picks@, picks@.len() as int)],
{
    let mut best: usize = 0;
    let mut n: usize = 1;
    while n < picks.len()
        invariant
            1 <= n <= picks@.len(),
            best < n,
            forall|j: int| 0 <= j < picks@.len() ==> #[trigger] picks@[j] < entries@.len(),
            best == rarest_of(entries@, picks@, n as int),
        decreases picks@.len() - n,
    {
        if entries[picks[n]].weight < entries[picks[best]].weight {
            best = n;
        }
        n += 1;
    }
    picks[best]
}

impl LootPoolRegistry {
    /// The pools, in order.
    pub closed spec fn list(self) -> Seq<LootPool> {
        self.pools@
    }

    /// A registry of the given pools.
    pub fn new(pools: Vec<LootPool>) -> (r: Self)
        ensures
            r.list() == pools@,
    {
        LootPoolRegistry { pools }
    }

    /// A registry of what a file was read as; an empty one where there is no
    /// file or it cannot be read.
    pub fn from_read(read: Option<Vec<LootPool>>) -> (r: Self)
        ensures
            match read {
                Some(pools) => r.list() == pools@,
                None => r.list().len() == 0,
            },
    {
        match read {
            Some(pools) => LootPoolRegistry::new(pools),
            None => LootPoolRegistry::new(Vec::new()),
        }
    }

    /// True iff there is no pool.
    pub fn is_empty(&self) -> (r: bool)
        ensures
            r == (self.list().len() == 0),
    {
        self.pools.len() == 0
    }

    /// How many pools there are.
    pub fn len(&self) -> (r: usize)
        ensures
            r == self.list().len(),
    {
        self.pools.len()
    }

    /// The pool that serves for the faction, depth and family.
    pub fn lookup(&self, faction: &str, depth_tier: u8, family: &str) -> (r: Option<&LootPool>)
        ensures
            match pool_for(self.list(), faction@, depth_tier, family@) {
                Some(i) => r == Some(&self.list()[i]),
                None => r is None,
            },
    {
        if let Some(p) = self.find_exact(faction, depth_tier, family) {
            return Some(p);
        }
        if depth_tier != 1 {
            if let Some(p) = self.find_exact(faction, 1, family) {
                return Some(p);
            }
        }
        if !str_eq(faction, "nomads") {
            if let Some(p) = self.find_exact("nomads", depth_tier, family) {
                return Some(p);
            }
            if depth_tier != 1 {
                if let Some(p) = self.find_exact("nomads", 1, family) {
                    return Some(p);
                }
            }
        }
        None
    }

    /// The first pool of the faction, depth and family.
    fn find_exact(&self, faction: &str, depth_tier: u8, family: &str) -> (r: Option<&LootPool>)
        ensures
            match pool_index(self.list(), faction@, depth_tier, family@, 0) {
                Some(i) => r == Some(&self.list()[i]),
                None => r is None,
            },
    {
        let mut i: usize = 0;
        while i < self.pools.len()
            invariant
                i <= self.pools@.len(),
                pool_index(self.pools@, faction@, depth_tier, family@, 0) == pool_index(
                    self.pools@,
                    faction@,
                    depth_tier,
                    family@,
                    i as int,
                ),
            decreases self.pools@.len() - i,
        {
            let p = &self.pools[i];
            if p.depth_tier == depth_tier && str_eq(p.faction.as_str(), faction) && str_eq(
                p.family.as_str(),
                family,
            ) {
                return Some(p);
            }
            i += 1;
        }
        None
    }

    /// No pool has more entries than numbers of 32 bits.
    pub open spec fn pools_fit(self) -> bool {
        forall|i: int|
            0 <= i < self.list().len() ==> (#[trigger] self.list()[i]).entries@.len() <= u32::MAX
    }

    /// Rolls one item of the pool that serves: an entry by weight, and how
    /// many of it. There is none where no pool serves or it has no entry.
    pub fn roll_one(
        &self,
        rng: &mut Generator,
        faction: &str,
        depth_tier: u8,
        family: &str,
    ) -> (r: Option<RolledItem>)
        requires
            self.pools_fit(),
        ensures
            match pool_for(self.list(), faction@, depth_tier, family@) {
                Some(p) => match r {
                    Some(item) => exists|i: usize, mid: Option<Trail>|
                        can_come_up(entry_weights(self.list()[p].entries@), i as int)
                            && #[trigger] picked(
                            entry_weights(self.list()[p].entries@),
                            old(rng)@,
                            Some(i),
                            mid,
                        ) && given_from(self.list()[p].entries@[i as int], mid, item, final(rng)@),
                    None => self.list()[p].entries@.len() == 0 && final(rng)@ == old(rng)@,
                },
                None => r is None && final(rng)@ == old(rng)@,
            },
    {
        proof {
            lemma_pool_for(self.list(), faction@, depth_tier, family@);
        }
        let pool = match self.lookup(faction, depth_tier, family) {
            Some(p) => p,
            None => {
                return None;
            },
        };
        let ws = weights_of(&pool.entries);
        match pick_weighted(rng, &ws) {
            Some(i) => {
                let ghost mid = rng@;
                assert(picked(entry_weights(pool.entries@), old(rng)@, Some(i), mid));
                Some(roll_entry(rng, &pool.entries[i]))
            },
            None => None,
        }
    }

    /// Rolls the reward of a quest: of as many candidates as the lottery has
    /// tries the rarest, and how many of it.
    pub fn roll_quest_reward(
        &self,
        rng: &mut Generator,
        faction: &str,
        depth_tier: u8,
        family: &str,
        lottery_k: u32,
    ) -> (r: Option<RolledItem>)
        requires
            self.pools_fit(),
        ensures
            match pool_for(self.list(), faction@, depth_tier, family@) {
                Some(p) => match r {
                    Some(item) => exists|picks: Seq<usize>, mid: Option<Trail>|
                        candidates(self.list()[p].entries@, picks, tries(lottery_k))
                            && #[trigger] lottery(self.list()[p].entries@, old(rng)@, picks, mid)
                            && given_from(
                            self.list()[p].entries@[picks[rarest_of(
                                self.list()[p].entries@,
                                picks,
                                picks.len() as int,
                            )] as int],
                            mid,
                            item,
                            final(rng)@,
                        ),
                    None => self.list()[p].entries@.len() == 0,
                },
                None => r is None,
            },
    {
        proof {
            lemma_pool_for(self.list(), faction@, depth_tier, family@);
        }
        let pool = match self.lookup(faction, depth_tier, family) {
            Some(p) => p,
            None => {
                return None;
            },
        };
        let ws = weights_of(&pool.entries);
        let k: u32 = if lottery_k > 1 {
            lottery_k
        } else {
            1
        };
        let mut picks: Vec<usize> = Vec::new();
        let mut n: u32 = 0;
        while n < k
            invariant
                n <= k,
                ws@ == entry_weights(pool.entries@),
                ws@.len() <= u32::MAX,
                candidates(pool.entries@, picks@, n as int),
                lottery(pool.entries@, old(rng)@, picks@, rng@),
                pool_for(self.list(), faction@, depth_tier, family@) matches Some(p) && *pool
                    == self.list()[p],
            decreases k - n,
        {
            let ghost mid = rng@;
            let ghost past = picks@;
            match pick_weighted(rng, &ws) {
                Some(i) => {
                    picks.push(i);
                    proof {
                        assert(picks@.drop_last() =~= past);
                        assert(picks@.last() == i);
                        assert(picked(entry_weights(pool.entries@), mid, Some(picks@.last()), rng@));
                    }
                },
                None => {
                    return None;
                },
            }
            n += 1;
        }
        assert forall|j: int| 0 <= j < picks@.len() implies #[trigger] picks@[j]
            < pool.entries@.len() by {
            assert(can_come_up(entry_weights(pool.entries@), picks@[j] as int));
        }
        let best = rarest(&pool.entries, &picks);
        assert(candidates(pool.entries@, picks@, tries(lottery_k)));
        assert(lottery(pool.entries@, old(rng)@, picks@, rng@));
        Some(roll_entry(rng, &pool.entries[best]))
    }
}

/// A pool that is found is the one asked for.
proof fn lemma_pool_index(
    pools: Seq<LootPool>,
    faction: Seq<char>,
    tier: u8,
    family: Seq<char>,
    from: int,
)
    ensures
        pool_index(pools, faction, tier, family, from) matches Some(i) ==> 0 <= i < pools.len()
            && is_pool(pools[i], faction, tier, family),
    decreases pools.len() - from,
{
    if 0 <= from < pools.len() {
        lemma_pool_index(pools, faction, tier, family, from + 1);
    }
}

/// A pool that serves is one of the pools.
proof fn lemma_pool_for(pools: Seq<LootPool>, faction: Seq<char>, tier: u8, family: Seq<char>)
    ensures
        pool_for(pools, faction, tier, family) matches Some(i) ==> 0 <= i < pools.len(),
{
    lemma_pool_index(pools, faction, tier, family, 0);
    lemma_pool_index(pools, faction, 1, family, 0);
    lemma_pool_index(pools, "nomads"@, tier, family, 0);
    lemma_pool_index(pools, "nomads"@, 1, family, 0);
}

/// The pool that serves is of the family asked for, of the faction or of the
/// nomads, and at the depth or at depth one.
pub proof fn law_pools_keep_family(
    pools: Seq<LootPool>,
    faction: Seq<char>,
    tier: u8,
    family: Seq<char>,
)
    ensures
        pool_for(pools, faction, tier, family) matches Some(i) ==> pools[i].family@ == family && (
        pools[i].faction@ == faction || pools[i].faction@ == "nomads"@) && (pools[i].depth_tier
            == tier || pools[i].depth_tier == 1),
{
    lemma_pool_index(pools, faction, tier, family, 0);
    lemma_pool_index(pools, faction, 1, family, 0);
    lemma_pool_index(pools, "nomads"@, tier, family, 0);
    lemma_pool_index(pools, "nomads"@, 1, family, 0);
}

/// The rarest candidate is no more common than any, and rarer than all before
/// it.
pub proof fn law_rarest_is_rarest(entries: Seq<PoolEntry>, picks: Seq<usize>, n: int, j: int)
    requires
        0 <= j < n <= picks.len(),
    ensures
        0 <= rarest_of(entries, picks, n) < n,
        entries[picks[rarest_of(entries, picks, n)] as int].weight
            <= entries[picks[j] as int].weight,
        j < rarest_of(entries, picks, n) ==> entries[picks[rarest_of(
            entries,
            picks,
            n,
        )] as int].weight < entries[picks[j] as int].weight,
    decreases n,
{
    if n > 1 {
        if j < n - 1 {
            law_rarest_is_rarest(entries, picks, n - 1, j);
        } else {
            law_rarest_is_rarest(entries, picks, n - 1, 0);
        }
    }
}

/// A lottery of one try is an ordinary roll.
pub proof fn law_one_try_is_ordinary(entries: Seq<PoolEntry>, picks: Seq<usize>)
    requires
        candidates(entries, picks, tries(1)),
    ensures
        picks.len() == 1,
        picks[rarest_of(entries, picks, 1)] == picks[0],
        can_come_up(entry_weights(entries), picks[0] as int),
{
}

/// Tries of the lottery for a quest's reward: one for an easy quest, more for
/// harder ones, and one for a difficulty out of range.
pub open spec fn lottery_tries(difficulty: u8) -> u32 {
    if difficulty == 3 {
        2
    } else if difficulty == 4 {
        3
    } else if difficulty == 5 {
        5
    } else {
        1
    }
}

/// Tries of the lottery for a quest's reward.
pub fn quest_lottery_k(difficulty: u8) -> (r: u32)
    ensures
        r == lottery_tries(difficulty),
{
    match difficulty {
        3 => 2,
        4 => 3,
        5 => 5,
        _ => 1,
    }
}

/// Among the difficulties of quests, harder ones have no fewer tries.
pub proof fn law_harder_quests_try_more(a: u8, b: u8)
    requires
        1 <= a <= b <= 5,
    ensures
        lottery_tries(a) <= lottery_tries(b),
        lottery_tries(1) == 1,
        lottery_tries(5) == 5,
{
}

/// A faction's own pool at the depth serves before its pool at depth one, that
/// before the nomads' at the depth, and that before the nomads' at depth one;
/// of several alike the first does.
pub proof fn law_own_pools_come_first(
    pools: Seq<LootPool>,
    faction: Seq<char>,
    tier: u8,
    family: Seq<char>,
    i: int,
)
    requires
        0 <= i < pools.len(),
        pools[i].family@ == family,
        pool_for(pools, faction, tier, family) is Some,
    ensures
        ({
            let p = pools[pool_for(pools, faction, tier, family)->0];
            &&& pools[i].faction@ == faction && pools[i].depth_tier == tier ==> p.faction@ == faction
                && p.depth_tier == tier && pool_for(pools, faction, tier, family)->0 <= i
            &&& pools[i].faction@ == faction && pools[i].depth_tier == 1 ==> p.faction@ == faction
            &&& pools[i].faction@ == "nomads"@ && pools[i].depth_tier == tier && p.faction@
                != faction ==> p.faction@ == "nomads"@ && p.depth_tier == tier
        }),
{
    lemma_pool_index(pools, faction, tier, family, 0);
    lemma_pool_index(pools, faction, 1, family, 0);
    lemma_pool_index(pools, "nomads"@, tier, family, 0);
    lemma_pool_index(pools, "nomads"@, 1, family, 0);
    lemma_pool_found(pools, faction, tier, family, 0, i);
    lemma_pool_found(pools, faction, 1, family, 0, i);
    lemma_pool_found(pools, "nomads"@, tier, family, 0, i);
}

/// A pool that is there is found, or one before it.
proof fn lemma_pool_found(
    pools: Seq<LootPool>,
    faction: Seq<char>,
    tier: u8,
    family: Seq<char>,
    from: int,
    i: int,
)
    requires
        0 <= from <= i < pools.len(),
    ensures
        is_pool(pools[i], faction, tier, family) ==> (pool_index(
            pools,
            faction,
            tier,
            family,
            from,
        ) matches Some(k) && k <= i),
    decreases i - from,
{
    if from < i {
        lemma_pool_found(pools, faction, tier, family, from + 1, i);
    }
}

/// Where nothing is in store for the faction and nothing for the nomads at the
/// depth or at depth one, nothing serves; else something does.
pub proof fn law_something_serves(
    pools: Seq<LootPool>,
    faction: Seq<char>,
    tier: u8,
    family: Seq<char>,
    i: int,
)
    requires
        0 <= i < pools.len(),
        pools[i].family@ == family,
        pools[i].faction@ == faction || pools[i].faction@ == "nomads"@,
        pools[i].depth_tier == tier || pools[i].depth_tier == 1,
    ensures
        pool_for(pools, faction, tier, family) is Some,
{
    lemma_pool_found(pools, faction, tier, family, 0, i);
    lemma_pool_found(pools, faction, 1, family, 0, i);
    lemma_pool_found(pools, "nomads"@, tier, family, 0, i);
    lemma_pool_found(pools, "nomads"@, 1, family, 0, i);
}

/// What is given is the entry's item, from the lesser of its two counts to the
/// greater, whichever stands first.
pub proof fn law_counts_lie_between(e: PoolEntry, f: PoolEntry, item: RolledItem)
    requires
        f.id@ == e.id@,
        f.count_min == e.count_max,
        f.count_max == e.count_min,
    ensures
        given_by(e, item) <==> given_by(f, item),
        given_by(e, item) ==> item.id@ == e.id@,
        given_by(e, item) && e.count_min <= e.count_max ==> e.count_min <= item.count
            <= e.count_max,
        item.id@ == e.id@ && (item.count == e.count_min || item.count == e.count_max) ==> given_by(
            e,
            item,
        ),
{
}

/// Quests of the third difficulty have two tries, of the fourth three and of
/// the fifth five; all others have one. So has a lottery of none.
pub proof fn law_tries_of_quests(difficulty: u8, k: u32)
    ensures
        difficulty < 3 || difficulty > 5 ==> lottery_tries(difficulty) == 1,
        lottery_tries(3) == 2 && lottery_tries(4) == lottery_tries(3) + 1 && lottery_tries(5)
            == lottery_tries(3) + lottery_tries(4),
        tries(0) == 1,
        k > 0 ==> tries(k) == k,
{
}

/// A lottery has as many candidates as tries, each of which can come up: it has
/// weight, or nothing has.
pub proof fn law_candidates_can_come_up(
    entries: Seq<PoolEntry>,
    picks: Seq<usize>,
    k: int,
    j: int,
)
    requires
        candidates(entries, picks, k),
        0 <= j < k,
    ensures
        picks.len() == k,
        picks[j] < entries.len(),
        weight_sum(entry_weights(entries)) > 0 ==> entries[picks[j] as int].weight > 0,
{
    assert(can_come_up(entry_weights(entries), picks[j] as int));
}

/// Candidates are picked one after the other, by one generator.
pub proof fn law_candidates_are_picked_in_turn(
    entries: Seq<PoolEntry>,
    before: Option<Trail>,
    picks: Seq<usize>,
    mid: Option<Trail>,
    next: usize,
    after: Option<Trail>,
)
    requires
        lottery(entries, before, picks, mid),
        picked(entry_weights(entries), mid, Some(next), after),
    ensures
        lottery(entries, before, picks.push(next), after),
        lottery(entries, before, Seq::empty(), before),
{
    assert(picks.push(next).drop_last() =~= picks);
    assert(picks.push(next).last() == next);
}

/// What is given comes with a count that one draw decides, between the lesser
/// and the greater of the two that the entry gives.
pub proof fn law_counts_are_drawn(e: PoolEntry, t: Trail, item: RolledItem, after: Option<Trail>)
    requires
        given_from(e, Some(t), item, after),
    ensures
        item.id@ == e.id@,
        e.count_min <= e.count_max ==> item.count == t.next(
            32,
            e.count_min as int,
            e.count_max as int,
        ),
        e.count_min > e.count_max ==> item.count == t.next(
            32,
            e.count_max as int,
            e.count_min as int,
        ),
{
}

} // verus!
