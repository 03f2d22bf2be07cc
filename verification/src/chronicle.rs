//! The permanent record of every NPC that ever lived.
use vstd::prelude::*;

use crate::components::NpcId;
use crate::float_bits::F32Bits;
use crate::idmap::{rising, IdMap};
use crate::region::RegionId;
use crate::strmap::StrMap;

verus! {

/// What ended an NPC's life.
#[derive(Clone, Debug)]
pub enum DeathCause {
    /// The NPC's time was up.
    NaturalCauses,
    /// Killed by a member of the named faction.
    Combat { killer_faction: String },
    Other,
}

/// The tag of a cause.
pub open spec fn cause_tag(c: DeathCause) -> Seq<char> {
    match c {
        DeathCause::NaturalCauses => "natural_causes"@,
        DeathCause::Combat { .. } => "combat"@,
        DeathCause::Other => "other"@,
    }
}

/// The tag of a cause.
pub fn death_cause_to_str(c: &DeathCause) -> (r: &'static str)
    ensures
        r@ == cause_tag(*c),
{
    match c {
        DeathCause::NaturalCauses => "natural_causes",
        DeathCause::Combat { .. } => "combat",
        DeathCause::Other => "other",
    }
}

/// What is known of one NPC, alive or dead.
#[derive(Clone, Debug)]
pub struct LifeRecord {
    pub id: NpcId,
    /// Name of the faction.
    pub faction: String,
    pub birth_tick: u64,
    pub birth_region: RegionId,
    pub birth_pos: [F32Bits; 3],
    pub death_tick: Option<u64>,
    pub death_region: Option<RegionId>,
    pub death_cause: Option<DeathCause>,
    /// Regions and when they were entered, that of the birth first.
    pub regions_visited: Vec<(RegionId, u64)>,
}

impl LifeRecord {
    /// The NPC has not died.
    pub open spec fn alive(self) -> bool {
        self.death_tick is None
    }

    /// True iff the NPC has not died.
    pub fn is_alive(&self) -> (r: bool)
        ensures
            r == self.alive(),
    {
        self.death_tick.is_none()
    }
}

/// How many of a faction live and how many died.
#[derive(Clone, Copy, Debug, PartialEq, Eq, Structural)]
pub struct FactionStats {
    pub alive: u32,
    pub dead: u32,
}

impl Default for FactionStats {
    fn default() -> (r: Self)
        ensures
            r == (FactionStats { alive: 0, dead: 0 }),
    {
        FactionStats { alive: 0, dead: 0 }
    }
}

/// Totals over all records.
#[derive(Debug)]
pub struct ChronicleSummary {
    pub total_ever_spawned: u64,
    pub currently_alive: u64,
    pub by_faction: StrMap<FactionStats>,
}

/// Totals over all records, as a mathematical value.
pub struct Totals {
    pub spawned: int,
    pub alive: int,
    pub by_faction: Map<Seq<char>, FactionStats>,
}

impl View for ChronicleSummary {
    type V = Totals;

    open spec fn view(&self) -> Totals {
        Totals {
            spawned: self.total_ever_spawned as int,
            alive: self.currently_alive as int,
            by_faction: self.by_faction@,
        }
    }
}

/// One more, unless the number is at its limit.
pub open spec fn up(n: u32) -> u32 {
    if n < u32::MAX {
        (n + 1) as u32
    } else {
        n
    }
}

/// One less, but not under zero.
pub open spec fn down(n: int) -> int {
    if n > 0 {
        n - 1
    } else {
        0
    }
}

impl Totals {
    /// No record.
    pub open spec fn none() -> Totals {
        Totals { spawned: 0, alive: 0, by_faction: Map::empty() }
    }

    /// The split of a faction, zero where it has no record.
    pub open spec fn of(self, faction: Seq<char>) -> FactionStats {
        if self.by_faction.contains_key(faction) {
            self.by_faction[faction]
        } else {
            FactionStats { alive: 0, dead: 0 }
        }
    }

    /// With one record more.
    pub open spec fn with(self, rec: LifeRecord) -> Totals {
        let s = self.of(rec.faction@);
        Totals {
            spawned: self.spawned + 1,
            alive: if rec.alive() {
                self.alive + 1
            } else {
                self.alive
            },
            by_faction: self.by_faction.insert(
                rec.faction@,
                (if rec.alive() {
                    FactionStats { alive: up(s.alive), ..s }
                } else {
                    FactionStats { dead: up(s.dead), ..s }
                }),
            ),
        }
    }

    /// With one record less.
    pub open spec fn without(self, rec: LifeRecord) -> Totals {
        let s = self.of(rec.faction@);
        Totals {
            spawned: down(self.spawned),
            alive: if rec.alive() {
                down(self.alive)
            } else {
                self.alive
            },
            by_faction: if self.by_faction.contains_key(rec.faction@) {
                self.by_faction.insert(
                    rec.faction@,
                    (if rec.alive() {
                        FactionStats { alive: down(s.alive as int) as u32, ..s }
                    } else {
                        FactionStats { dead: down(s.dead as int) as u32, ..s }
                    }),
                )
            } else {
                self.by_faction
            },
        }
    }

    /// With one of the living of a faction dead.
    pub open spec fn with_death(self, faction: Seq<char>) -> Totals {
        let s = self.of(faction);
        Totals {
            spawned: self.spawned,
            alive: down(self.alive),
            by_faction: if self.by_faction.contains_key(faction) {
                self.by_faction.insert(
                    faction,
                    FactionStats { alive: down(s.alive as int) as u32, dead: up(s.dead) },
                )
            } else {
                self.by_faction
            },
        }
    }
}

impl ChronicleSummary {
    /// No record.
    pub fn new() -> (r: Self)
        ensures
            r@ == Totals::none(),
    {
        ChronicleSummary { total_ever_spawned: 0, currently_alive: 0, by_faction: StrMap::new() }
    }

    /// The split of a faction.
    pub fn stats_of(&self, faction: &str) -> (r: FactionStats)
        ensures
            r == self@.of(faction@),
    {
        match self.by_faction.get(faction) {
            Some(s) => *s,
            None => FactionStats::default(),
        }
    }

    /// Counts one record more.
    fn count_in(&mut self, faction: &String, alive: bool, Ghost(rec): Ghost<LifeRecord>)
        requires
            faction@ == rec.faction@,
            alive == rec.alive(),
            old(self).total_ever_spawned < u64::MAX,
            old(self).currently_alive < u64::MAX,
        ensures
            final(self)@ == old(self)@.with(rec),
    {
        let mut s = self.stats_of(faction.as_str());
        self.total_ever_spawned = self.total_ever_spawned + 1;
        if alive {
            self.currently_alive = self.currently_alive + 1;
            s.alive = if s.alive < u32::MAX { s.alive + 1 } else { s.alive };
        } else {
            s.dead = if s.dead < u32::MAX { s.dead + 1 } else { s.dead };
        }
        self.by_faction.insert(faction.clone(), s);
    }
}

/// Everything that is known of NPCs, with running totals.
#[derive(Debug)]
pub struct LifeChronicle {
    pub records: IdMap<LifeRecord>,
    pub summary_cache: ChronicleSummary,
}

/// How many records of a chronicle are as asked for.
pub open spec fn count_where(
    records: Map<u64, LifeRecord>,
    wanted: spec_fn(LifeRecord) -> bool,
) -> nat {
    records.dom().filter(|k: u64| wanted(records[k])).len()
}

/// Living members of a faction.
pub open spec fn lives_in(faction: Seq<char>) -> spec_fn(LifeRecord) -> bool {
    |r: LifeRecord| r.alive() && r.faction@ == faction
}

/// Dead members of a faction.
pub open spec fn died_in(faction: Seq<char>) -> spec_fn(LifeRecord) -> bool {
    |r: LifeRecord| !r.alive() && r.faction@ == faction
}

/// The living.
pub open spec fn lives() -> spec_fn(LifeRecord) -> bool {
    |r: LifeRecord| r.alive()
}

/// The totals are what a count of the records gives.
pub open spec fn totals_of(records: Map<u64, LifeRecord>, t: Totals) -> bool {
    &&& t.spawned == records.dom().len()
    &&& t.alive == count_where(records, lives())
    &&& forall|f: Seq<char>| (#[trigger] t.of(f)).alive == count_where(records, lives_in(f))
    &&& forall|f: Seq<char>| (#[trigger] t.of(f)).dead == count_where(records, died_in(f))
}

/// `a` died after `b`, or at the same time and has the lower number.
pub open spec fn later_death(records: Map<u64, LifeRecord>, a: u64, b: u64) -> bool {
    let ta = records[a].death_tick->0;
    let tb = records[b].death_tick->0;
    ta > tb || (ta == tb && a < b)
}

/// The numbers of the dead, the latest first.
pub open spec fn latest_deaths(records: Map<u64, LifeRecord>, keys: Seq<u64>) -> bool {
    &&& forall|i: int|
        0 <= i < keys.len() ==> records.contains_key(#[trigger] keys[i])
            && !records[keys[i]].alive()
    &&& forall|i: int, j: int|
        0 <= i < j < keys.len() ==> later_death(records, #[trigger] keys[i], #[trigger] keys[j])
    &&& forall|k: u64| #[trigger]
        records.contains_key(k) && !records[k].alive() ==> keys.contains(k)
}

impl LifeChronicle {
    /// The totals are what a count of the records gives.
    pub open spec fn counted(self) -> bool {
        totals_of(self.records@, self.summary_cache@)
    }

    /// An empty chronicle.
    pub fn new() -> (r: Self)
        ensures
            r.records@ == Map::<u64, LifeRecord>::empty(),
            r.summary_cache@ == Totals::none(),
            r.counted(),
    {
        let r = LifeChronicle { records: IdMap::new(), summary_cache: ChronicleSummary::new() };
        proof {
            lemma_empty_counted();
        }
        r
    }

    /// Adds a record, in place of one with the same number. Running totals
    /// that were right stay right.
    pub fn insert(&mut self, record: LifeRecord)
        requires
            old(self).summary_cache.total_ever_spawned < u64::MAX,
            old(self).summary_cache.currently_alive < u64::MAX,
        ensures
            final(self).records@ == old(self).records@.insert(record.id.0, record),
            final(self).summary_cache@ == (if old(self).records@.contains_key(record.id.0) {
                old(self).summary_cache@.without(old(self).records@[record.id.0])
            } else {
                old(self).summary_cache@
            }).with(record),
            old(self).counted() && old(self).records@.dom().len() < u32::MAX ==> final(self).counted(),
    {
        let faction = record.faction.clone();
        let alive = record.is_alive();
        let ghost rec = record;
        let ghost before = self.records@;
        let ghost t0 = self.summary_cache@;
        let n = self.records.len();
        let prev = self.records.insert(record.id.0, record);
        if let Some(old_rec) = &prev {
            self.unapply(old_rec);
        }
        self.summary_cache.count_in(&faction, alive, Ghost(rec));
        proof {
            if totals_of(before, t0) && before.dom().len() < u32::MAX {
                lemma_insert_counted(before, t0, rec);
            }
        }
    }

    /// The record of an NPC.
    pub fn get(&self, id: NpcId) -> (r: Option<&LifeRecord>)
        ensures
            match r {
                Some(rec) => self.records@.contains_key(id.0) && *rec == self.records@[id.0],
                None => !self.records@.contains_key(id.0),
            },
    {
        self.records.get(id.0)
    }

    /// The record of an NPC, to change. Totals are not touched.
    pub fn get_mut(&mut self, id: NpcId) -> (r: Option<&mut LifeRecord>)
        ensures
            final(self).summary_cache == old(self).summary_cache,
            match r {
                Some(rec) => old(self).records@.contains_key(id.0) && *rec == old(self).records@[id.0] && final(self).records@ == old(self).records@.insert(
                    id.0,
                    *final(rec),
                ),
                None => !old(self).records@.contains_key(id.0) && final(self).records@ == old(self).records@,
            },
    {
        self.records.get_mut(id.0)
    }

    /// Notes a death, and says whether it was news: an NPC without a record,
    /// or one that is dead already, stays as it is.
    pub fn mark_dead(&mut self, id: NpcId, tick: u64, region: RegionId, cause: DeathCause) -> (r:
        bool)
        ensures
            r == (old(self).records@.contains_key(id.0) && old(self).records@[id.0].alive()),
            !r ==> final(self).records@ == old(self).records@ && final(self).summary_cache@ == old(self).summary_cache@,
            r ==> final(self).records@ == old(self).records@.insert(
                id.0,
                (LifeRecord {
                    death_tick: Some(tick),
                    death_region: Some(region),
                    death_cause: Some(cause),
                    ..old(self).records@[id.0]
                }),
            ),
            r ==> final(self).summary_cache@ == old(self).summary_cache@.with_death(
                old(self).records@[id.0].faction@,
            ),
            old(self).counted() && old(self).records@.dom().len() < u32::MAX ==> final(self).counted(),
    {
        let ghost before = self.records@;
        let ghost t0 = self.summary_cache@;
        let n = self.records.len();
        let faction = match self.records.get_mut(id.0) {
            Some(rec) => {
                if rec.death_tick.is_some() {
                    return false;
                }
                rec.death_tick = Some(tick);
                rec.death_region = Some(region);
                rec.death_cause = Some(cause);
                rec.faction.clone()
            },
            None => {
                return false;
            },
        };
        if let Some(s) = self.summary_cache.by_faction.get(faction.as_str()) {
            let alive: u32 = if s.alive > 0 { s.alive - 1 } else { s.alive };
            let dead: u32 = if s.dead < u32::MAX { s.dead + 1 } else { s.dead };
            self.summary_cache.by_faction.insert(faction.clone(), FactionStats { alive, dead });
        }
        if self.summary_cache.currently_alive > 0 {
            self.summary_cache.currently_alive = self.summary_cache.currently_alive - 1;
        }
        proof {
            if totals_of(before, t0) && before.dom().len() < u32::MAX {
                lemma_death_counted(before, t0, id.0, self.records@[id.0]);
            }
        }
        true
    }

    /// Takes a record that is gone out of the totals.
    fn unapply(&mut self, rec: &LifeRecord)
        ensures
            final(self).records == old(self).records,
            final(self).summary_cache@ == old(self).summary_cache@.without(*rec),
            final(self).summary_cache.total_ever_spawned <= old(self).summary_cache.total_ever_spawned,
            final(self).summary_cache.currently_alive <= old(self).summary_cache.currently_alive,
    {
        if self.summary_cache.total_ever_spawned > 0 {
            self.summary_cache.total_ever_spawned = self.summary_cache.total_ever_spawned - 1;
        }
        if let Some(s) = self.summary_cache.by_faction.get(rec.faction.as_str()) {
            let mut s: FactionStats = *s;
            if rec.is_alive() {
                if s.alive > 0 {
                    s.alive = s.alive - 1;
                }
            } else if s.dead > 0 {
                s.dead = s.dead - 1;
            }
            self.summary_cache.by_faction.insert(rec.faction.clone(), s);
        }
        if rec.is_alive() && self.summary_cache.currently_alive > 0 {
            self.summary_cache.currently_alive = self.summary_cache.currently_alive - 1;
        }
    }

    /// Counts all records anew.
    pub fn rebuild_summary_cache(&mut self)
        ensures
            final(self).records == old(self).records,
            old(self).records@.dom().len() <= u32::MAX ==> final(self).counted(),
            final(self).summary_cache@ == totals_over(
                final(self).records@,
                final(self).records.key_list(),
            ),
    {
        let mut cache = ChronicleSummary::new();
        let n = self.records.len();
        let ghost keys = self.records.key_list();
        let ghost recs = self.records@;
        let mut i: usize = 0;
        proof {
            lemma_empty_counted();
            assert(keys.take(0) =~= Seq::<u64>::empty());
            assert(recs.restrict(keys.take(0).to_set()) =~= Map::<u64, LifeRecord>::empty());
        }
        while i < n
            invariant
                i <= n,
                n == keys.len(),
                n == recs.dom().len(),
                recs.dom().finite(),
                keys == self.records.key_list(),
                recs == self.records@,
                rising(keys),
                forall|k: u64| #[trigger] recs.contains_key(k) <==> keys.contains(k),
                cache@ == totals_over(recs, keys.take(i as int)),
                cache.total_ever_spawned <= i,
                cache.currently_alive <= i,
                n <= u32::MAX ==> totals_of(recs.restrict(keys.take(i as int).to_set()), cache@),
            decreases n - i,
        {
            let r = self.records.value_at(i);
            let ghost k = keys[i as int];
            let ghost part = recs.restrict(keys.take(i as int).to_set());
            let ghost t0 = cache@;
            cache.count_in(&r.faction, r.is_alive(), Ghost(*r));
            proof {
                let longer = keys.take(i + 1);
                assert(longer.drop_last() =~= keys.take(i as int));
                assert(longer.last() == k);
                assert(recs.contains_key(k));
                assert(!keys.take(i as int).contains(k)) by {
                    if keys.take(i as int).contains(k) {
                        let j = choose|j: int| 0 <= j < i && keys.take(i as int)[j] == k;
                        assert(keys[j] < keys[i as int]);
                    }
                }
                assert forall|q: u64| longer.to_set().contains(q) == (q == k || keys.take(
                    i as int,
                ).to_set().contains(q)) by {
                    if longer.contains(q) {
                        let j = choose|j: int| 0 <= j < longer.len() && longer[j] == q;
                        if j < i {
                            assert(keys.take(i as int)[j] == q);
                        }
                    }
                    if keys.take(i as int).contains(q) {
                        let j = choose|j: int| 0 <= j < i && keys.take(i as int)[j] == q;
                        assert(longer[j] == q);
                    }
                    assert(longer[i as int] == k);
                }
                assert(recs.restrict(longer.to_set()) =~= part.insert(k, *r));
                if n <= u32::MAX {
                    assert(part.dom().subset_of(recs.dom()));
                    vstd::set_lib::lemma_len_subset(part.dom(), recs.dom());
                    assert(!part.dom().contains(k));
                    assert(part.insert(k, *r).dom().subset_of(recs.dom()));
                    assert(part.insert(k, *r).dom() =~= part.dom().insert(k));
                    vstd::set_lib::lemma_len_subset(part.insert(k, *r).dom(), recs.dom());
                    lemma_with_counted(part, t0, k, *r);
                }
            }
            i += 1;
        }
        proof {
            assert(keys.take(i as int) =~= keys);
            assert(recs.restrict(keys.to_set()) =~= recs);
        }
        self.summary_cache = cache;
    }

    /// The latest deaths, the latest first, `limit` at most. Of deaths at one
    /// time the lower number comes first.
    pub fn recent_deaths(&self, limit: usize) -> (r: Vec<&LifeRecord>)
        ensures
            exists|keys: Seq<u64>| #[trigger]
                latest_deaths(self.records@, keys) && r@.len() == (if limit < keys.len() {
                    limit as int
                } else {
                    keys.len() as int
                }) && forall|i: int|
                    0 <= i < r@.len() ==> *(#[trigger] r@[i]) == self.records@[keys[i]],
    {
        let order = self.death_order();
        let ghost keys = Seq::new(
            order@.len(),
            |i: int| self.records.key_list()[order@[i] as int],
        );
        let mut r: Vec<&LifeRecord> = Vec::new();
        let mut i: usize = 0;
        let n = self.records.len();
        while i < order.len() && i < limit
            invariant
                i <= order@.len(),
                i <= limit,
                r@.len() == i,
                forall|k: int| 0 <= k < order@.len() ==> #[trigger] order@[k] < self.records.key_list().len(),
                keys == Seq::new(
                    order@.len(),
                    |i: int| self.records.key_list()[order@[i] as int],
                ),
                forall|k: int| 0 <= k < i ==> *(#[trigger] r@[k]) == self.records@[keys[k]],
            decreases order@.len() - i,
        {
            r.push(self.records.value_at(order[i]));
            i += 1;
        }
        assert(latest_deaths(self.records@, keys));
        r
    }

    /// The places of the dead among the records, the latest first.
    fn death_order(&self) -> (order: Vec<usize>)
        ensures
            forall|k: int| 0 <= k < order@.len() ==> #[trigger] order@[k] < self.records.key_list().len(),
            latest_deaths(
                self.records@,
                Seq::new(order@.len(), |i: int| self.records.key_list()[order@[i] as int]),
            ),
    {
        let n = self.records.len();
        let ghost keys = self.records.key_list();
        let ghost recs = self.records@;
        let mut order: Vec<usize> = Vec::new();
        let mut i: usize = 0;
        while i < n
            invariant
                i <= n,
                n == keys.len(),
                keys == self.records.key_list(),
                recs == self.records@,
                rising(keys),
                forall|k: u64| #[trigger] recs.contains_key(k) <==> keys.contains(k),
                in_death_order(recs, keys, order@, i as int),
            decreases n - i,
        {
            let rec = self.records.value_at(i);
            if let Some(t) = rec.death_tick {
                let ghost before = order@;
                let mut at: usize = 0;
                while at < order.len() && self.died_at(order[at], Ghost(recs), Ghost(keys)) >= t
                    invariant
                        at <= order@.len(),
                        order@ == before,
                        keys == self.records.key_list(),
                        recs == self.records@,
                        in_death_order(recs, keys, before, i as int),
                        i < n,
                        n == keys.len(),
                        forall|k: int|
                            0 <= k < at ==> recs[keys[#[trigger] before[k] as int]].death_tick->0
                                >= t,
                    decreases order@.len() - at,
                {
                    at += 1;
                }
                order.insert(at, i);
                proof {
                    lemma_death_slot(recs, keys, before, i as int, at as int);
                }
            }
            proof {
                assert(recs[keys[i as int]] == *rec);
            }
            i += 1;
        }
        proof {
            let listed = Seq::new(order@.len(), |i: int| keys[order@[i] as int]);
            assert forall|a: int, b: int| 0 <= a < b < listed.len() implies later_death(
                recs,
                #[trigger] listed[a],
                #[trigger] listed[b],
            ) by {
                assert(death_before(recs, keys, order@[a] as int, order@[b] as int));
                if order@[a] < order@[b] {
                    assert(keys[order@[a] as int] < keys[order@[b] as int]);
                }
            }
            assert forall|k: u64| #[trigger]
                recs.contains_key(k) && !recs[k].alive() implies listed.contains(k) by {
                let j = choose|j: int| 0 <= j < keys.len() && keys[j] == k;
                assert(placed(order@, j));
                let a = choose|a: int| 0 <= a < order@.len() && #[trigger] order@[a] == j;
                assert(listed[a] == k);
            }
            assert forall|a: int| 0 <= a < listed.len() implies recs.contains_key(
                #[trigger] listed[a],
            ) && !recs[listed[a]].alive() by {
                let p = order@[a];
                assert(keys.contains(keys[p as int]));
            }
        }
        order
    }

    /// When the dead at the given place died.
    fn died_at(
        &self,
        place: usize,
        Ghost(recs): Ghost<Map<u64, LifeRecord>>,
        Ghost(keys): Ghost<Seq<u64>>,
    ) -> (r: u64)
        requires
            recs == self.records@,
            keys == self.records.key_list(),
            place < keys.len(),
            recs[keys[place as int]].death_tick is Some,
        ensures
            r == recs[keys[place as int]].death_tick->0,
    {
        match self.records.value_at(place).death_tick {
            Some(t) => t,
            None => 0,
        }
    }

    /// The running totals.
    pub fn summary(&self) -> (r: &ChronicleSummary)
        ensures
            *r == self.summary_cache,
            self.counted() ==> totals_of(self.records@, r@),
    {
        &self.summary_cache
    }
}

/// The totals over the records with the given numbers.
pub open spec fn totals_over(records: Map<u64, LifeRecord>, keys: Seq<u64>) -> Totals
    decreases keys.len(),
{
    if keys.len() == 0 {
        Totals::none()
    } else {
        totals_over(records, keys.drop_last()).with(records[keys.last()])
    }
}

/// The dead at place `a` comes before that at place `b`.
spec fn death_before(recs: Map<u64, LifeRecord>, keys: Seq<u64>, a: int, b: int) -> bool {
    let ta = recs[keys[a]].death_tick->0;
    let tb = recs[keys[b]].death_tick->0;
    ta > tb || (ta == tb && a < b)
}

/// Place `p` occurs in `order`.
spec fn placed(order: Seq<usize>, p: int) -> bool {
    exists|a: int| 0 <= a < order.len() && #[trigger] order[a] == p
}

/// `order` holds the places of the dead among the first `n` records, in order.
spec fn in_death_order(
    recs: Map<u64, LifeRecord>,
    keys: Seq<u64>,
    order: Seq<usize>,
    n: int,
) -> bool {
    &&& forall|a: int|
        0 <= a < order.len() ==> (#[trigger] order[a]) < n
            && recs[keys[order[a] as int]].death_tick is Some
    &&& forall|a: int, b: int|
        0 <= a < b < order.len() ==> death_before(
            recs,
            keys,
            #[trigger] order[a] as int,
            #[trigger] order[b] as int,
        )
    &&& forall|p: int|
        0 <= p < n && recs[keys[p]].death_tick is Some ==> #[trigger] placed(order, p)
}

/// A later place goes in before the first that died earlier.
proof fn lemma_death_slot(
    recs: Map<u64, LifeRecord>,
    keys: Seq<u64>,
    order: Seq<usize>,
    n: int,
    at: int,
)
    requires
        0 <= n < keys.len() <= usize::MAX,
        in_death_order(recs, keys, order, n),
        recs[keys[n]].death_tick is Some,
        0 <= at <= order.len(),
        forall|k: int|
            0 <= k < at ==> recs[keys[#[trigger] order[k] as int]].death_tick->0
                >= recs[keys[n]].death_tick->0,
        at < order.len() ==> recs[keys[order[at] as int]].death_tick->0
            < recs[keys[n]].death_tick->0,
    ensures
        in_death_order(recs, keys, order.insert(at, n as usize), n + 1),
{
    let after = order.insert(at, n as usize);
    assert forall|a: int, b: int| 0 <= a < b < after.len() implies death_before(
        recs,
        keys,
        #[trigger] after[a] as int,
        #[trigger] after[b] as int,
    ) by {
        let x = if a < at {
            a
        } else {
            a - 1
        };
        let y = if b < at {
            b
        } else {
            b - 1
        };
        if a != at {
            assert(after[a] == order[x]);
        }
        if b != at {
            assert(after[b] == order[y]);
        }
        if a == at && y > at {
            assert(death_before(recs, keys, order[at] as int, order[y] as int));
        }
    }
    assert forall|p: int|
        0 <= p < n + 1 && recs[keys[p]].death_tick is Some implies #[trigger] placed(after, p) by {
        if p == n {
            assert(after[at] == p);
        } else {
            assert(placed(order, p));
            let a = choose|a: int| 0 <= a < order.len() && #[trigger] order[a] == p;
            if a < at {
                assert(after[a] == p);
            } else {
                assert(after[a + 1] == p);
            }
        }
    }
    assert forall|a: int| 0 <= a < after.len() implies (#[trigger] after[a]) < n + 1
        && recs[keys[after[a] as int]].death_tick is Some by {
        if a < at {
            assert(after[a] == order[a]);
        } else if a > at {
            assert(after[a] == order[a - 1]);
        }
    }
}

/// A count takes one record at a time.
proof fn lemma_count_insert(
    records: Map<u64, LifeRecord>,
    k: u64,
    rec: LifeRecord,
    wanted: spec_fn(LifeRecord) -> bool,
)
    requires
        records.dom().finite(),
        !records.contains_key(k),
    ensures
        count_where(records.insert(k, rec), wanted) == count_where(records, wanted) + (if wanted(
            rec,
        ) {
            1int
        } else {
            0
        }),
        count_where(records, wanted) <= records.dom().len(),
{
    let before = records.dom().filter(|q: u64| wanted(records[q]));
    let more = records.insert(k, rec);
    let after = more.dom().filter(|q: u64| wanted(more[q]));
    vstd::set_lib::lemma_len_subset(before, records.dom());
    if wanted(rec) {
        assert(after =~= before.insert(k));
    } else {
        assert(after =~= before);
    }
}

/// An empty chronicle has the totals zero.
proof fn lemma_empty_counted()
    ensures
        totals_of(Map::<u64, LifeRecord>::empty(), Totals::none()),
{
    let m = Map::<u64, LifeRecord>::empty();
    assert forall|wanted: spec_fn(LifeRecord) -> bool| #[trigger] count_where(m, wanted) == 0 by {
        assert(m.dom().filter(|k: u64| wanted(m[k])) =~= Set::<u64>::empty());
    }
}

/// Totals follow a record that is new.
proof fn lemma_with_counted(records: Map<u64, LifeRecord>, t: Totals, k: u64, rec: LifeRecord)
    requires
        records.dom().finite(),
        records.dom().len() < u32::MAX,
        !records.contains_key(k),
        totals_of(records, t),
    ensures
        totals_of(records.insert(k, rec), t.with(rec)),
{
    let more = records.insert(k, rec);
    assert(more.dom() =~= records.dom().insert(k));
    lemma_count_insert(records, k, rec, lives());
    assert forall|f: Seq<char>|
        (#[trigger] t.with(rec).of(f)).alive == count_where(more, lives_in(f)) && t.with(rec).of(f).dead
            == count_where(more, died_in(f)) by {
        lemma_count_insert(records, k, rec, lives_in(f));
        lemma_count_insert(records, k, rec, died_in(f));
        assert(t.of(f).alive == count_where(records, lives_in(f)));
        assert(t.of(f).dead == count_where(records, died_in(f)));
    }
}

/// Totals follow a record that goes.
proof fn lemma_without_counted(records: Map<u64, LifeRecord>, t: Totals, k: u64)
    requires
        records.dom().finite(),
        records.contains_key(k),
        totals_of(records, t),
    ensures
        totals_of(records.remove(k), t.without(records[k])),
{
    let less = records.remove(k);
    let rec = records[k];
    assert(less.insert(k, rec) =~= records);
    assert(records.dom() =~= less.dom().insert(k));
    lemma_count_insert(less, k, rec, lives());
    assert forall|f: Seq<char>|
        (#[trigger] t.without(rec).of(f)).alive == count_where(less, lives_in(f)) && t.without(rec).of(f).dead
            == count_where(less, died_in(f)) by {
        lemma_count_insert(less, k, rec, lives_in(f));
        lemma_count_insert(less, k, rec, died_in(f));
        assert(t.of(f).alive == count_where(records, lives_in(f)));
        assert(t.of(f).dead == count_where(records, died_in(f)));
    }
}

/// Totals follow an insertion.
proof fn lemma_insert_counted(records: Map<u64, LifeRecord>, t: Totals, rec: LifeRecord)
    requires
        records.dom().finite(),
        records.dom().len() < u32::MAX,
        totals_of(records, t),
    ensures
        totals_of(
            records.insert(rec.id.0, rec),
            (if records.contains_key(rec.id.0) {
                t.without(records[rec.id.0])
            } else {
                t
            }).with(rec),
        ),
{
    let k = rec.id.0;
    if records.contains_key(k) {
        lemma_without_counted(records, t, k);
        assert(records.remove(k).insert(k, rec) =~= records.insert(k, rec));
        lemma_with_counted(records.remove(k), t.without(records[k]), k, rec);
    } else {
        lemma_with_counted(records, t, k, rec);
    }
}

/// Totals follow a death.
proof fn lemma_death_counted(records: Map<u64, LifeRecord>, t: Totals, k: u64, dead: LifeRecord)
    requires
        records.dom().finite(),
        records.dom().len() < u32::MAX,
        totals_of(records, t),
        records.contains_key(k),
        records[k].alive(),
        !dead.alive(),
        dead.faction == records[k].faction,
    ensures
        totals_of(records.insert(k, dead), t.with_death(dead.faction@)),
{
    let rec = records[k];
    let less = records.remove(k);
    let after = records.insert(k, dead);
    assert(less.insert(k, rec) =~= records);
    assert(less.insert(k, dead) =~= after);
    assert(after.dom() =~= records.dom());
    lemma_count_insert(less, k, rec, lives());
    lemma_count_insert(less, k, dead, lives());
    lemma_count_insert(less, k, rec, lives_in(rec.faction@));
    assert(t.of(rec.faction@).alive == count_where(records, lives_in(rec.faction@)));
    let now = t.with_death(dead.faction@);
    assert(records.dom() =~= less.dom().insert(k));
    assert forall|f: Seq<char>|
        (#[trigger] now.of(f)).alive == count_where(after, lives_in(f)) && now.of(f).dead == count_where(
            after,
            died_in(f),
        ) by {
        lemma_count_insert(less, k, rec, lives_in(f));
        lemma_count_insert(less, k, dead, lives_in(f));
        lemma_count_insert(less, k, rec, died_in(f));
        lemma_count_insert(less, k, dead, died_in(f));
        assert(t.of(f).alive == count_where(records, lives_in(f)));
        assert(t.of(f).dead == count_where(records, died_in(f)));
    }
}

/// Every NPC that ever lived is alive or dead, and totals say how many of
/// each: the dead are the rest.
pub proof fn law_totals_add_up(chronicle: LifeChronicle, faction: Seq<char>)
    requires
        chronicle.records@.dom().finite(),
        chronicle.counted(),
    ensures
        chronicle.summary_cache@.alive <= chronicle.summary_cache@.spawned,
        chronicle.summary_cache@.of(faction).alive + chronicle.summary_cache@.of(faction).dead
            == count_where(chronicle.records@, |r: LifeRecord| r.faction@ == faction),
{
    let m = chronicle.records@;
    let t = chronicle.summary_cache@;
    let members = |r: LifeRecord| r.faction@ == faction;
    let a = m.dom().filter(|k: u64| lives_in(faction)(m[k]));
    let b = m.dom().filter(|k: u64| died_in(faction)(m[k]));
    let c = m.dom().filter(|k: u64| members(m[k]));
    assert(a.union(b) =~= c);
    assert(a.disjoint(b));
    vstd::set_lib::lemma_set_disjoint_lens(a, b);
    assert(t.of(faction).alive == a.len() && t.of(faction).dead == b.len());
    vstd::set_lib::lemma_len_subset(m.dom().filter(|k: u64| lives()(m[k])), m.dom());
}

/// Who died later comes first, and of those who died at one tick the one with
/// the lower number.
pub proof fn law_latest_deaths_come_first(
    records: Map<u64, LifeRecord>,
    keys: Seq<u64>,
    i: int,
    j: int,
)
    requires
        latest_deaths(records, keys),
        0 <= i < j < keys.len(),
    ensures
        records[keys[i]].death_tick is Some && records[keys[j]].death_tick is Some,
        records[keys[i]].death_tick->0 >= records[keys[j]].death_tick->0,
        records[keys[i]].death_tick == records[keys[j]].death_tick ==> keys[i] < keys[j],
{
    assert(later_death(records, keys[i], keys[j]));
}

/// One lives as long as no death is noted, each cause has a tag of its own, and
/// whose hand it was does not matter to the tag.
pub proof fn law_causes_have_tags(a: DeathCause, b: DeathCause, r: LifeRecord)
    ensures
        cause_tag(a) == cause_tag(b) <==> (a is Combat <==> b is Combat) && (a is NaturalCauses
            <==> b is NaturalCauses),
        r.alive() <==> r.death_tick is None,
{
    reveal_strlit("natural_causes");
    reveal_strlit("combat");
    reveal_strlit("other");
    assert("natural_causes"@.len() == 14 && "combat"@.len() == 6 && "other"@.len() == 5);
}

/// A birth adds one to those that ever were and one to the living of its
/// faction; a death takes one of them to the dead; neither touches another
/// faction.
pub proof fn law_totals_move_one_at_a_time(t: Totals, rec: LifeRecord, other: Seq<char>)
    requires
        t.of(rec.faction@).alive < u32::MAX,
        t.of(rec.faction@).dead < u32::MAX,
        rec.death_tick is None,
        other != rec.faction@,
        t.alive >= 0,
    ensures
        ({
            let f = rec.faction@;
            let born = t.with(rec);
            let died = born.with_death(f);
            &&& born.spawned == t.spawned + 1 && born.alive == t.alive + 1
            &&& born.of(f).alive == t.of(f).alive + 1 && born.of(f).dead == t.of(f).dead
            &&& born.of(other) == t.of(other)
            &&& died.spawned == born.spawned && died.alive == t.alive
            &&& died.of(f).alive == t.of(f).alive && died.of(f).dead == t.of(f).dead + 1
            &&& died.of(other) == t.of(other)
            &&& t.spawned >= 0 ==> born.without(rec).spawned == t.spawned
                && born.without(rec).alive == t.alive && born.without(rec).of(f) == t.of(f)
        }),
{
}

/// Counts go up by one as far as 32 bits reach, and down by one as far as zero.
pub proof fn law_counts_stop_at_their_ends(n: u32)
    ensures
        n < 0xffff_ffff ==> up(n) == n + 1,
        up(0xffff_ffff) == 0xffff_ffff,
        n > 0 ==> down(n as int) == n - 1,
        down(0) == 0,
{
}

} // verus!
