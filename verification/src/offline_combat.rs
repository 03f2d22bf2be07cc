//! Fights that nobody watches.
use vstd::prelude::*;

use crate::chronicle::{DeathCause, LifeChronicle, LifeRecord};
use crate::components::NpcId;
use crate::faction::registry::{faction_relation, FactionId, FactionRegistry, RelationDeltas};
use crate::faction::Relation;
use crate::float_bits::F32Bits;
use crate::idmap::IdMap;
use crate::offline_pairs::{distinct_ids, hostile, Fighter};
use crate::offline_tier::{HealthClass, OfflineCombatState, OfflineNpc};
use crate::pda_log::{Feed, News, PdaEvent, PdaEventLog};
use crate::region::RegionId;

verus! {

/// How long an NPC stays engaged with an opponent that it does not meet.
pub const OFFLINE_ENGAGE_STALE_TICKS: u64 = 200;

/// How long after a report of shots no other is made.
pub const GUNFIRE_PDA_COOLDOWN_TICKS: u64 = 10;

/// How many of a faction it takes to hold a base.
pub const DOMINANCE_MIN: u32 = 2;

/// What chance and distance say of a pair.
#[derive(Clone, Copy, Debug)]
pub struct Exchange {
    /// The two are as near as shots carry.
    pub in_range: bool,
    /// The first hits the second.
    pub first_hits: bool,
    /// The second hits the first.
    pub second_hits: bool,
}

/// A death, and whose hand it was by, if any.
#[derive(Clone, Copy, Debug, PartialEq, Eq, Structural)]
pub struct Death {
    pub id: NpcId,
    pub faction: FactionId,
    /// Place of the dead among the fighters.
    pub place: usize,
    pub killer: Option<FactionId>,
}

/// What a round of fighting leads to.
#[derive(Debug)]
pub struct Melee {
    /// New health of those that were hit.
    pub classes: IdMap<HealthClass>,
    /// The dead, in the order of their deaths.
    pub deaths: Vec<Death>,
    /// The numbers of the dead.
    pub dead: IdMap<bool>,
    /// Whom each that fought fought last.
    pub opponents: IdMap<u64>,
    /// The pairs that shot, by their places.
    pub shots: Vec<usize>,
}

/// What a round of fighting leads to, as a mathematical value.
#[verifier::ext_equal]
pub struct Toll {
    pub classes: Map<u64, HealthClass>,
    pub deaths: Seq<Death>,
    pub dead: Set<u64>,
    pub opponents: Map<u64, u64>,
    pub shots: Seq<usize>,
}

impl View for Melee {
    type V = Toll;

    open spec fn view(&self) -> Toll {
        Toll {
            classes: self.classes@,
            deaths: self.deaths@,
            dead: self.dead@.dom(),
            opponents: self.opponents@,
            shots: self.shots@,
        }
    }
}

/// One step worse; beyond critical is death.
pub open spec fn worse(class: HealthClass) -> Option<HealthClass> {
    match class {
        HealthClass::Healthy => Some(HealthClass::Wounded),
        HealthClass::Wounded => Some(HealthClass::Critical),
        HealthClass::Critical => None,
    }
}

/// One step worse; beyond critical is death.
pub fn degrade_health_class(class: HealthClass) -> (r: Option<HealthClass>)
    ensures
        r == worse(class),
{
    match class {
        HealthClass::Healthy => Some(HealthClass::Wounded),
        HealthClass::Wounded => Some(HealthClass::Critical),
        HealthClass::Critical => None,
    }
}

impl Toll {
    /// Nothing has happened.
    pub open spec fn none() -> Toll {
        Toll {
            classes: Map::empty(),
            deaths: Seq::empty(),
            dead: Set::empty(),
            opponents: Map::empty(),
            shots: Seq::empty(),
        }
    }

    /// With one more death.
    pub open spec fn with_death(self, d: Death) -> Toll {
        Toll { deaths: self.deaths.push(d), dead: self.dead.insert(d.id.0), ..self }
    }

    /// The health of a fighter as it is by now.
    pub open spec fn health(self, f: Fighter) -> HealthClass {
        if self.classes.contains_key(f.id.0) {
            self.classes[f.id.0]
        } else {
            f.health_class
        }
    }

    /// After a hit on the fighter at the place.
    pub open spec fn hit(self, f: Fighter, place: usize, by_faction: FactionId) -> Toll {
        match worse(self.health(f)) {
            Some(next) => Toll { classes: self.classes.insert(f.id.0, next), ..self },
            None => self.with_death(
                Death { id: f.id, faction: f.faction, place, killer: Some(by_faction) },
            ),
        }
    }

    /// After the pair at place `k` met: nothing where one of them is dead or
    /// they are too far apart; else shots, and the hits of both.
    pub open spec fn met(
        self,
        fs: Seq<Fighter>,
        pair: (usize, usize),
        k: int,
        e: Exchange,
    ) -> Toll {
        let a = fs[pair.0 as int];
        let b = fs[pair.1 as int];
        if self.dead.contains(a.id.0) || self.dead.contains(b.id.0) || !e.in_range {
            self
        } else {
            let engaged = Toll {
                opponents: self.opponents.insert(a.id.0, b.id.0).insert(b.id.0, a.id.0),
                shots: self.shots.push(k as usize),
                ..self
            };
            let first = if e.first_hits {
                engaged.hit(b, pair.1, a.faction)
            } else {
                engaged
            };
            if e.second_hits {
                first.hit(a, pair.0, b.faction)
            } else {
                first
            }
        }
    }
}

/// After those among the first `n` whose time is up have died.
pub open spec fn aged_out(fs: Seq<Fighter>, now: u64, n: int) -> Toll
    decreases n,
{
    if n <= 0 {
        Toll::none()
    } else if now >= fs[n - 1].die_at_tick {
        aged_out(fs, now, n - 1).with_death(
            Death {
                id: fs[n - 1].id,
                faction: fs[n - 1].faction,
                place: (n - 1) as usize,
                killer: None,
            },
        )
    } else {
        aged_out(fs, now, n - 1)
    }
}

/// After the first `k` pairs have met: those whose time is up die first, then
/// the pairs meet one after the other.
pub open spec fn fought(
    fs: Seq<Fighter>,
    pairs: Seq<(usize, usize)>,
    rolls: Seq<Exchange>,
    now: u64,
    k: int,
) -> Toll
    decreases k,
{
    if k <= 0 {
        aged_out(fs, now, fs.len() as int)
    } else {
        fought(fs, pairs, rolls, now, k - 1).met(fs, pairs[k - 1], k - 1, rolls[k - 1])
    }
}

impl Melee {
    /// Notes a death.
    fn note_death(&mut self, d: Death)
        ensures
            final(self)@ == old(self)@.with_death(d),
    {
        self.deaths.push(d);
        let _ = self.dead.insert(d.id.0, true);
        assert(self@ =~= old(self)@.with_death(d));
    }

    /// Notes a hit.
    fn note_hit(&mut self, f: &Fighter, place: usize, by_faction: FactionId)
        ensures
            final(self)@ == old(self)@.hit(*f, place, by_faction),
    {
        let cur = match self.classes.get(f.id.0) {
            Some(c) => *c,
            None => f.health_class,
        };
        match degrade_health_class(cur) {
            Some(next) => {
                let _ = self.classes.insert(f.id.0, next);
                assert(self@ =~= old(self)@.hit(*f, place, by_faction));
            },
            None => {
                self.note_death(
                    Death { id: f.id, faction: f.faction, place, killer: Some(by_faction) },
                );
            },
        }
    }

    /// Lets a pair meet.
    fn meet(&mut self, fs: &Vec<Fighter>, pair: (usize, usize), k: usize, e: Exchange)
        requires
            pair.0 < fs@.len(),
            pair.1 < fs@.len(),
        ensures
            final(self)@ == old(self)@.met(fs@, pair, k as int, e),
    {
        let a = fs[pair.0];
        let b = fs[pair.1];
        if self.dead.contains_key(a.id.0) || self.dead.contains_key(b.id.0) || !e.in_range {
            return;
        }
        self.shots.push(k);
        let was_a = self.opponents.insert(a.id.0, b.id.0);
        let was_b = self.opponents.insert(b.id.0, a.id.0);
        assert(self@ =~= (Toll {
            opponents: old(self)@.opponents.insert(a.id.0, b.id.0).insert(b.id.0, a.id.0),
            shots: old(self)@.shots.push(k),
            ..old(self)@
        }));
        if e.first_hits {
            self.note_hit(&b, pair.1, a.faction);
        }
        if e.second_hits {
            self.note_hit(&a, pair.0, b.faction);
        }
    }
}

/// A round of fighting. The pairs meet in order; what chance and distance say
/// of each is given.
pub fn fight(
    fs: &Vec<Fighter>,
    pairs: &Vec<(usize, usize)>,
    rolls: &Vec<Exchange>,
    now_sim: u64,
) -> (r: Melee)
    requires
        pairs@.len() == rolls@.len(),
        forall|k: int|
            #![trigger pairs@[k]]
            0 <= k < pairs@.len() ==> pairs@[k].0 < fs@.len() && pairs@[k].1 < fs@.len(),
    ensures
        r@ == fought(fs@, pairs@, rolls@, now_sim, pairs@.len() as int),
{
    let mut m = Melee {
        classes: IdMap::new(),
        deaths: Vec::new(),
        dead: IdMap::new(),
        opponents: IdMap::new(),
        shots: Vec::new(),
    };
    assert(m@ =~= Toll::none());
    let mut i: usize = 0;
    while i < fs.len()
        invariant
            i <= fs@.len(),
            m@ == aged_out(fs@, now_sim, i as int),
        decreases fs@.len() - i,
    {
        if now_sim >= fs[i].die_at_tick {
            m.note_death(Death { id: fs[i].id, faction: fs[i].faction, place: i, killer: None });
        }
        i += 1;
    }
    let mut k: usize = 0;
    while k < pairs.len()
        invariant
            k <= pairs@.len(),
            pairs@.len() == rolls@.len(),
            forall|j: int|
                #![trigger pairs@[j]]
                0 <= j < pairs@.len() ==> pairs@[j].0 < fs@.len() && pairs@[j].1 < fs@.len(),
            m@ == fought(fs@, pairs@, rolls@, now_sim, k as int),
        decreases pairs@.len() - k,
    {
        m.meet(fs, pairs[k], k, rolls[k]);
        k += 1;
    }
    m
}

/// Every death is that of the fighter at its place, the dead are those of the
/// deaths, and nobody died twice.
pub open spec fn deaths_sound(fs: Seq<Fighter>, t: Toll) -> bool {
    &&& forall|i: int|
        #![trigger t.deaths[i]]
        0 <= i < t.deaths.len() ==> t.deaths[i].place < fs.len() && t.deaths[i].id
            == fs[t.deaths[i].place as int].id && t.deaths[i].faction
            == fs[t.deaths[i].place as int].faction && t.dead.contains(t.deaths[i].id.0)
    &&& forall|i: int, j: int|
        0 <= i < j < t.deaths.len() ==> (#[trigger] t.deaths[i]).id != (#[trigger] t.deaths[j]).id
    &&& forall|x: u64| #[trigger]
        t.dead.contains(x) ==> exists|i: int|
            0 <= i < t.deaths.len() && (#[trigger] t.deaths[i]).id.0 == x
}

/// A death of one that was alive keeps the deaths sound.
proof fn lemma_with_death(fs: Seq<Fighter>, t: Toll, d: Death)
    requires
        deaths_sound(fs, t),
        !t.dead.contains(d.id.0),
        d.place < fs.len(),
        d.id == fs[d.place as int].id,
        d.faction == fs[d.place as int].faction,
    ensures
        deaths_sound(fs, t.with_death(d)),
{
    let u = t.with_death(d);
    assert forall|i: int, j: int| 0 <= i < j < u.deaths.len() implies (#[trigger] u.deaths[i]).id
        != (#[trigger] u.deaths[j]).id by {
        assert(u.deaths[i] == t.deaths[i]);
        assert(t.dead.contains(t.deaths[i].id.0));
        if j < t.deaths.len() {
            assert(u.deaths[j] == t.deaths[j]);
        }
    }
    assert forall|x: u64| #[trigger] u.dead.contains(x) implies exists|i: int|
        0 <= i < u.deaths.len() && (#[trigger] u.deaths[i]).id.0 == x by {
        if x == d.id.0 {
            assert(u.deaths[u.deaths.len() - 1].id.0 == x);
        } else {
            let i = choose|i: int| 0 <= i < t.deaths.len() && (#[trigger] t.deaths[i]).id.0 == x;
            assert(u.deaths[i].id.0 == x);
        }
    }
    assert forall|i: int| #![trigger u.deaths[i]] 0 <= i < u.deaths.len() implies u.deaths[i].place
        < fs.len() && u.deaths[i].id == fs[u.deaths[i].place as int].id && u.deaths[i].faction
        == fs[u.deaths[i].place as int].faction && u.dead.contains(u.deaths[i].id.0) by {
        if i < t.deaths.len() {
            assert(u.deaths[i] == t.deaths[i]);
        }
    }
}

/// Those whose time is up die once.
proof fn lemma_aged_sound(fs: Seq<Fighter>, now: u64, n: int)
    requires
        distinct_ids(fs),
        0 <= n <= fs.len() <= usize::MAX,
    ensures
        deaths_sound(fs, aged_out(fs, now, n)),
        forall|x: u64| #[trigger]
            aged_out(fs, now, n).dead.contains(x) <==> exists|i: int|
                #![trigger fs[i]]
                0 <= i < n && fs[i].id.0 == x && now >= fs[i].die_at_tick,
    decreases n,
{
    if n > 0 {
        lemma_aged_sound(fs, now, n - 1);
        let t = aged_out(fs, now, n - 1);
        let f = fs[n - 1];
        assert(!t.dead.contains(f.id.0)) by {
            if t.dead.contains(f.id.0) {
                let i = choose|i: int|
                    #![trigger fs[i]]
                    0 <= i < n - 1 && fs[i].id.0 == f.id.0 && now >= fs[i].die_at_tick;
                assert(fs[i].id != fs[n - 1].id);
            }
        }
        let u = aged_out(fs, now, n);
        if now >= f.die_at_tick {
            lemma_with_death(
                fs,
                t,
                Death { id: f.id, faction: f.faction, place: (n - 1) as usize, killer: None },
            );
        }
        assert forall|x: u64| #[trigger] u.dead.contains(x) <==> exists|i: int|
            #![trigger fs[i]]
            0 <= i < n && fs[i].id.0 == x && now >= fs[i].die_at_tick by {
            if u.dead.contains(x) {
                if t.dead.contains(x) {
                    let i = choose|i: int|
                        #![trigger fs[i]]
                        0 <= i < n - 1 && fs[i].id.0 == x && now >= fs[i].die_at_tick;
                    assert(fs[i].id.0 == x);
                } else {
                    assert(fs[n - 1].id.0 == x);
                }
            }
        }
    }
}

/// In a round nobody dies twice, and who died of age neither shoots nor is
/// shot at.
pub proof fn law_nobody_dies_twice(
    fs: Seq<Fighter>,
    pairs: Seq<(usize, usize)>,
    rolls: Seq<Exchange>,
    now: u64,
    k: int,
)
    requires
        fs.len() <= usize::MAX,
        distinct_ids(fs),
        0 <= k <= pairs.len(),
        rolls.len() == pairs.len(),
        forall|j: int|
            #![trigger pairs[j]]
            0 <= j < pairs.len() ==> pairs[j].0 < fs.len() && pairs[j].1 < fs.len() && pairs[j].0
                != pairs[j].1,
    ensures
        deaths_sound(fs, fought(fs, pairs, rolls, now, k)),
        forall|i: int|
            #![trigger fs[i]]
            0 <= i < fs.len() && now >= fs[i].die_at_tick ==> !fought(
                fs,
                pairs,
                rolls,
                now,
                k,
            ).opponents.contains_key(fs[i].id.0) && fought(fs, pairs, rolls, now, k).dead.contains(
                fs[i].id.0,
            ),
    decreases k,
{
    if k == 0 {
        lemma_aged_sound(fs, now, fs.len() as int);
        lemma_aged_fight_nobody(fs, now, fs.len() as int);
        assert forall|i: int|
            #![trigger fs[i]]
            0 <= i < fs.len() && now >= fs[i].die_at_tick implies aged_out(
            fs,
            now,
            fs.len() as int,
        ).dead.contains(fs[i].id.0) by {}
    } else {
        law_nobody_dies_twice(fs, pairs, rolls, now, k - 1);
        let t = fought(fs, pairs, rolls, now, k - 1);
        let p = pairs[k - 1];
        let e = rolls[k - 1];
        let a = fs[p.0 as int];
        let b = fs[p.1 as int];
        assert(a.id != b.id) by {
            if p.0 < p.1 {
                assert(fs[p.0 as int].id != fs[p.1 as int].id);
            } else {
                assert(fs[p.1 as int].id != fs[p.0 as int].id);
            }
        }
        if !(t.dead.contains(a.id.0) || t.dead.contains(b.id.0) || !e.in_range) {
            let engaged = Toll {
                opponents: t.opponents.insert(a.id.0, b.id.0).insert(b.id.0, a.id.0),
                shots: t.shots.push((k - 1) as usize),
                ..t
            };
            assert(deaths_sound(fs, engaged)) by {
                assert(engaged.deaths == t.deaths && engaged.dead == t.dead);
            }
            let first = if e.first_hits {
                engaged.hit(b, p.1, a.faction)
            } else {
                engaged
            };
            if e.first_hits {
                lemma_hit_sound(fs, engaged, p.1, a.faction);
            }
            if e.second_hits {
                lemma_hit_sound(fs, first, p.0, b.faction);
            }
        }
    }
}

/// A hit on one that was alive keeps the deaths sound.
proof fn lemma_hit_sound(fs: Seq<Fighter>, t: Toll, place: usize, by_faction: FactionId)
    requires
        deaths_sound(fs, t),
        place < fs.len(),
        !t.dead.contains(fs[place as int].id.0),
    ensures
        deaths_sound(fs, t.hit(fs[place as int], place, by_faction)),
        t.hit(fs[place as int], place, by_faction).opponents == t.opponents,
        forall|x: u64|
            t.hit(fs[place as int], place, by_faction).dead.contains(x) ==> t.dead.contains(x) || x
                == fs[place as int].id.0,
        forall|x: u64| #[trigger]
            t.dead.contains(x) ==> t.hit(fs[place as int], place, by_faction).dead.contains(x),
{
    let f = fs[place as int];
    if worse(t.health(f)) is None {
        lemma_with_death(
            fs,
            t,
            Death { id: f.id, faction: f.faction, place, killer: Some(by_faction) },
        );
    } else {
        let u = t.hit(f, place, by_faction);
        assert(u.deaths == t.deaths && u.dead == t.dead);
    }
}

/// Who died of age fought nobody.
proof fn lemma_aged_fight_nobody(fs: Seq<Fighter>, now: u64, n: int)
    ensures
        aged_out(fs, now, n).opponents == Map::<u64, u64>::empty(),
        aged_out(fs, now, n).classes == Map::<u64, HealthClass>::empty(),
    decreases n,
{
    if n > 0 {
        lemma_aged_fight_nobody(fs, now, n - 1);
    }
}

/// What fighting makes of an NPC: it is engaged with whom it fought last; one
/// that has not met its opponent for long drops it; one that was hit and lives
/// is in worse health.
pub open spec fn after_round(npc: OfflineNpc, t: Toll, now: u64) -> OfflineNpc {
    let x = npc.id.0;
    let stale = npc.combat_state is Engaged && now > npc.combat_state->since_tick && now
        - npc.combat_state->since_tick > OFFLINE_ENGAGE_STALE_TICKS;
    OfflineNpc {
        combat_state: if t.opponents.contains_key(x) {
            OfflineCombatState::Engaged { opponent: NpcId(t.opponents[x]), since_tick: now }
        } else if stale {
            OfflineCombatState::Idle
        } else {
            npc.combat_state
        },
        aggro_target: if t.opponents.contains_key(x) {
            Some(NpcId(t.opponents[x]))
        } else if stale {
            None
        } else {
            npc.aggro_target
        },
        aggro_last_seen_tick: if t.opponents.contains_key(x) {
            now
        } else {
            npc.aggro_last_seen_tick
        },
        health_class: if !t.dead.contains(x) && t.classes.contains_key(x) {
            t.classes[x]
        } else {
            npc.health_class
        },
        ..npc
    }
}

/// What fighting makes of one NPC.
pub fn settle_npc(npc: &mut OfflineNpc, m: &Melee, now_sim: u64)
    ensures
        *final(npc) == after_round(*old(npc), m@, now_sim),
{
    if let Some(opponent) = m.opponents.get(npc.id.0) {
        let opponent = NpcId(*opponent);
        npc.combat_state = OfflineCombatState::Engaged { opponent, since_tick: now_sim };
        npc.aggro_target = Some(opponent);
        npc.aggro_last_seen_tick = now_sim;
    } else if let OfflineCombatState::Engaged { since_tick, .. } = npc.combat_state {
        if now_sim > since_tick && now_sim - since_tick > OFFLINE_ENGAGE_STALE_TICKS {
            npc.combat_state = OfflineCombatState::Idle;
            npc.aggro_target = None;
        }
    }
    if !m.dead.contains_key(npc.id.0) {
        if let Some(c) = m.classes.get(npc.id.0) {
            npc.health_class = *c;
        }
    }
}

/// What fighting makes of the NPCs of a region; others are not touched.
pub fn settle_round(npcs: &mut Vec<OfflineNpc>, region: RegionId, m: &Melee, now_sim: u64)
    ensures
        final(npcs)@.len() == old(npcs)@.len(),
        forall|i: int|
            0 <= i < old(npcs)@.len() ==> #[trigger] final(npcs)@[i] == (if old(npcs)@[i].region
                == region {
                after_round(old(npcs)@[i], m@, now_sim)
            } else {
                old(npcs)@[i]
            }),
{
    let ghost before = npcs@;
    let mut i: usize = 0;
    while i < npcs.len()
        invariant
            i <= npcs@.len(),
            npcs@.len() == before.len(),
            forall|k: int|
                0 <= k < i ==> #[trigger] npcs@[k] == (if before[k].region == region {
                    after_round(before[k], m@, now_sim)
                } else {
                    before[k]
                }),
            forall|k: int| i <= k < before.len() ==> #[trigger] npcs@[k] == before[k],
        decreases npcs@.len() - i,
    {
        if npcs[i].region == region {
            settle_npc(&mut npcs[i], m, now_sim);
        }
        i += 1;
    }
}

/// An NPC that fights stays with its opponent for as long as they meet, and
/// for two hundred ticks more.
pub proof fn law_engagement_goes_stale(npc: OfflineNpc, t: Toll, now: u64, since: u64, foe: NpcId)
    requires
        npc.combat_state == (OfflineCombatState::Engaged { opponent: foe, since_tick: since }),
        !t.opponents.contains_key(npc.id.0),
        since <= now,
    ensures
        after_round(npc, t, now).combat_state is Idle <==> now > since + 200,
        now <= since + 200 ==> after_round(npc, t, now).combat_state == npc.combat_state,
{
}

/// What others get to know of a round.
#[derive(Clone, Copy, Debug, PartialEq, Eq, Structural)]
pub enum BusEvent {
    /// A pair shot; `pair` is its place among the pairs.
    Gunshot { pair: usize },
    /// A fighter was killed; `place` is its place among the fighters.
    AllyDown { id: NpcId, faction: FactionId, place: usize },
    /// A base is held by a foe of its owner; `base` is its place among the
    /// bases.
    BaseFlip { new_owner: FactionId, old_owner: FactionId, base: usize },
}

/// How many ticks such an event lasts.
pub const BUS_EVENT_TTL_TICKS: u32 = 4;

/// The shots of a round.
pub open spec fn gunshots(t: Toll) -> Seq<BusEvent> {
    Seq::new(t.shots.len(), |i: int| BusEvent::Gunshot { pair: t.shots[i] })
}

/// The kills of a round; who died of age is not among them.
pub open spec fn kills(deaths: Seq<Death>, n: int) -> Seq<BusEvent>
    decreases n,
{
    if n <= 0 {
        Seq::empty()
    } else if deaths[n - 1].killer is Some {
        kills(deaths, n - 1).push(
            BusEvent::AllyDown {
                id: deaths[n - 1].id,
                faction: deaths[n - 1].faction,
                place: deaths[n - 1].place,
            },
        )
    } else {
        kills(deaths, n - 1)
    }
}

/// The feed with the kills of a round.
pub open spec fn told_kills(
    feed: Feed,
    reg: FactionRegistry,
    deaths: Seq<Death>,
    region: RegionId,
    now: u64,
    n: int,
) -> Feed
    decreases n,
{
    if n <= 0 {
        feed
    } else {
        let d = deaths[n - 1];
        let before = told_kills(feed, reg, deaths, region, now, n - 1);
        match d.killer {
            Some(k) => before.pushed(
                News::OfflineCombatDeath {
                    killed: reg.list()[d.faction.0 as int].name@,
                    killer: reg.list()[k.0 as int].name@,
                    region,
                },
                now,
            ),
            None => before,
        }
    }
}

/// The chronicle's cause of a death.
pub open spec fn cause_of(reg: FactionRegistry, d: Death, c: DeathCause) -> bool {
    match d.killer {
        Some(k) => c matches DeathCause::Combat { killer_faction } && killer_faction@
            == reg.list()[k.0 as int].name@,
        None => c is NaturalCauses,
    }
}

/// The first of the first `n` deaths with the number.
pub open spec fn first_death(deaths: Seq<Death>, x: u64, n: int) -> Option<Death>
    decreases n,
{
    if n <= 0 {
        None
    } else if first_death(deaths, x, n - 1) is Some {
        first_death(deaths, x, n - 1)
    } else if deaths[n - 1].id.0 == x {
        Some(deaths[n - 1])
    } else {
        None
    }
}

/// The record after the first `n` deaths: that of one that lived and died is
/// closed, all others are as they were.
pub open spec fn buried(
    before: LifeRecord,
    after: LifeRecord,
    reg: FactionRegistry,
    deaths: Seq<Death>,
    region: RegionId,
    now: u64,
    x: u64,
    n: int,
) -> bool {
    match first_death(deaths, x, n) {
        Some(d) => if before.alive() {
            after.death_tick == Some(now) && after.death_region == Some(region)
                && after.death_cause is Some && cause_of(reg, d, after.death_cause->0) && after
                == (LifeRecord {
                death_tick: after.death_tick,
                death_region: after.death_region,
                death_cause: after.death_cause,
                ..before
            })
        } else {
            after == before
        },
        None => after == before,
    }
}

/// Notes the deaths of a round: in the chronicle all, in the players' feed and
/// for others to know those that were killed.
pub fn report_deaths(
    m: &Melee,
    reg: &FactionRegistry,
    region: RegionId,
    now_sim: u64,
    chronicle: &mut LifeChronicle,
    pda_log: &mut PdaEventLog,
) -> (r: Vec<BusEvent>)
    requires
        forall|i: int|
            #![trigger m.deaths@[i]]
            0 <= i < m.deaths@.len() ==> m.deaths@[i].faction.0 < reg.list().len()
                && (m.deaths@[i].killer matches Some(k) ==> k.0 < reg.list().len()),
    ensures
        r@ == kills(m.deaths@, m.deaths@.len() as int),
        final(pda_log)@ == told_kills(
            old(pda_log)@,
            *reg,
            m.deaths@,
            region,
            now_sim,
            m.deaths@.len() as int,
        ),
        final(chronicle).records@.dom() == old(chronicle).records@.dom(),
        forall|x: u64|
            old(chronicle).records@.contains_key(x) ==> buried(
                old(chronicle).records@[x],
                #[trigger] final(chronicle).records@[x],
                *reg,
                m.deaths@,
                region,
                now_sim,
                x,
                m.deaths@.len() as int,
            ),
        old(chronicle).counted() && old(chronicle).records@.dom().len() < u32::MAX ==> final(
            chronicle).counted(),
{
    let ghost rec0 = chronicle.records@;
    let ghost ok = chronicle.counted() && rec0.dom().len() < u32::MAX;
    let ghost feed0 = pda_log@;
    let mut out: Vec<BusEvent> = Vec::new();
    let mut i: usize = 0;
    while i < m.deaths.len()
        invariant
            i <= m.deaths@.len(),
            forall|j: int|
                #![trigger m.deaths@[j]]
                0 <= j < m.deaths@.len() ==> m.deaths@[j].faction.0 < reg.list().len()
                    && (m.deaths@[j].killer matches Some(k) ==> k.0 < reg.list().len()),
            out@ == kills(m.deaths@, i as int),
            pda_log@ == told_kills(feed0, *reg, m.deaths@, region, now_sim, i as int),
            chronicle.records@.dom() == rec0.dom(),
            ok ==> chronicle.counted() && rec0.dom().len() < u32::MAX,
            forall|x: u64|
                rec0.contains_key(x) ==> buried(
                    rec0[x],
                    #[trigger] chronicle.records@[x],
                    *reg,
                    m.deaths@,
                    region,
                    now_sim,
                    x,
                    i as int,
                ),
        decreases m.deaths@.len() - i,
    {
        let d = m.deaths[i];
        let ghost recs = chronicle.records@;
        let cause = match d.killer {
            Some(k) => DeathCause::Combat { killer_faction: reg.name_of(k).to_owned() },
            None => DeathCause::NaturalCauses,
        };
        let ghost named = cause;
        let news = chronicle.mark_dead(d.id, now_sim, region, cause);
        proof {
            assert(cause_of(*reg, d, named));
            assert(chronicle.records@.dom() =~= rec0.dom());
            assert forall|x: u64| rec0.contains_key(x) implies buried(
                rec0[x],
                #[trigger] chronicle.records@[x],
                *reg,
                m.deaths@,
                region,
                now_sim,
                x,
                i + 1,
            ) by {
                assert(buried(rec0[x], recs[x], *reg, m.deaths@, region, now_sim, x, i as int));
                lemma_first_death_range(m.deaths@, x, i as int);
            }
        }
        if let Some(killer) = d.killer {
            out.push(BusEvent::AllyDown { id: d.id, faction: d.faction, place: d.place });
            let seq = pda_log.push(
                PdaEvent::OfflineCombatDeath {
                    killed_faction: reg.name_of(d.faction).to_owned(),
                    killer_faction: reg.name_of(killer).to_owned(),
                    region,
                },
                now_sim,
            );
        }
        i += 1;
    }
    out
}

/// A death that is found has the number.
proof fn lemma_first_death_range(deaths: Seq<Death>, x: u64, n: int)
    ensures
        first_death(deaths, x, n) matches Some(d) ==> d.id.0 == x,
    decreases n,
{
    if n > 0 {
        lemma_first_death_range(deaths, x, n - 1);
    }
}

/// The feed with a report of shots, unless the last from the region is recent.
pub open spec fn told_gunfire(feed: Feed, region: RegionId, now: u64, shots: bool) -> Feed {
    if !shots {
        feed
    } else {
        match feed.last_gunfire(region, feed.entries.len() as int) {
            Some(t) => if (if now > t {
                now - t
            } else {
                0
            }) < GUNFIRE_PDA_COOLDOWN_TICKS {
                feed
            } else {
                feed.pushed(News::OfflineGunfire { region }, now)
            },
            None => feed.pushed(News::OfflineGunfire { region }, now),
        }
    }
}

/// Reports the shots of a round: each to others, and to players once for all.
pub fn report_gunfire(m: &Melee, region: RegionId, now_sim: u64, pda_log: &mut PdaEventLog) -> (r:
    Vec<BusEvent>)
    ensures
        r@ == gunshots(m@),
        final(pda_log)@ == told_gunfire(old(pda_log)@, region, now_sim, m.shots@.len() > 0),
{
    let mut out: Vec<BusEvent> = Vec::new();
    let mut i: usize = 0;
    while i < m.shots.len()
        invariant
            i <= m.shots@.len(),
            out@ == gunshots(m@).take(i as int),
        decreases m.shots@.len() - i,
    {
        out.push(BusEvent::Gunshot { pair: m.shots[i] });
        i += 1;
        assert(gunshots(m@).take(i as int) =~= gunshots(m@).take(i - 1).push(
            gunshots(m@)[i - 1],
        ));
    }
    assert(gunshots(m@).take(i as int) =~= gunshots(m@));
    if m.shots.len() > 0 {
        let cooling = match pda_log.last_gunfire_tick(region) {
            Some(t) => {
                let age: u64 = if now_sim > t {
                    now_sim - t
                } else {
                    0
                };
                age < GUNFIRE_PDA_COOLDOWN_TICKS
            },
            None => false,
        };
        if !cooling {
            let seq = pda_log.push(PdaEvent::OfflineGunfire { region }, now_sim);
        }
    }
    out
}

/// A base and who is near it.
#[derive(Debug)]
pub struct BaseWatch {
    pub owner: FactionId,
    pub position_2d: [F32Bits; 2],
    /// For each fighter whether it is near.
    pub near: Vec<bool>,
}

/// How many of the first `n` fighters that live and are near are of the
/// faction.
pub open spec fn presence(
    fs: Seq<Fighter>,
    near: Seq<bool>,
    dead: Set<u64>,
    faction: FactionId,
    n: int,
) -> int
    decreases n,
{
    if n <= 0 {
        0
    } else {
        presence(fs, near, dead, faction, n - 1) + (if near[n - 1] && !dead.contains(
            fs[n - 1].id.0,
        ) && fs[n - 1].faction == faction {
            1int
        } else {
            0
        })
    }
}

/// The faction holds the base: no other has more there, and it has at least
/// two.
pub open spec fn dominates(
    fs: Seq<Fighter>,
    near: Seq<bool>,
    dead: Set<u64>,
    faction: FactionId,
) -> bool {
    &&& presence(fs, near, dead, faction, fs.len() as int) >= DOMINANCE_MIN
    &&& forall|g: FactionId| #[trigger]
        presence(fs, near, dead, g, fs.len() as int) <= presence(
            fs,
            near,
            dead,
            faction,
            fs.len() as int,
        )
}

/// A presence is no more than all.
proof fn lemma_presence_bounds(
    fs: Seq<Fighter>,
    near: Seq<bool>,
    dead: Set<u64>,
    faction: FactionId,
    n: int,
)
    requires
        0 <= n,
    ensures
        0 <= presence(fs, near, dead, faction, n) <= n,
    decreases n,
{
    if n > 0 {
        lemma_presence_bounds(fs, near, dead, faction, n - 1);
    }
}

/// A faction that holds the base, if any does. Of several with as many,
/// which one is not fixed.
pub fn dominant_faction(fs: &Vec<Fighter>, near: &Vec<bool>, m: &Melee) -> (r: Option<FactionId>)
    requires
        near@.len() == fs@.len(),
        fs@.len() <= u32::MAX,
    ensures
        match r {
            Some(f) => dominates(fs@, near@, m.dead@.dom(), f) && exists|i: int|
                0 <= i < fs@.len() && (#[trigger] fs@[i]).faction == f,
            None => forall|g: FactionId| #[trigger]
                presence(fs@, near@, m.dead@.dom(), g, fs@.len() as int) < DOMINANCE_MIN,
        },
{
    let ghost dead = m.dead@.dom();
    let mut counts: IdMap<u32> = IdMap::new();
    let mut i: usize = 0;
    while i < fs.len()
        invariant
            i <= fs@.len(),
            near@.len() == fs@.len(),
            fs@.len() <= u32::MAX,
            dead == m.dead@.dom(),
            forall|g: FactionId| #[trigger]
                presence(fs@, near@, dead, g, i as int) == (if counts@.contains_key(g.0 as u64) {
                    counts@[g.0 as u64] as int
                } else {
                    0
                }),
            forall|k: u64| #[trigger]
                counts@.contains_key(k) ==> k <= u32::MAX && exists|j: int|
                    0 <= j < i && (#[trigger] fs@[j]).faction.0 == k,
        decreases fs@.len() - i,
    {
        let ghost before = counts@;
        if near[i] && !m.dead.contains_key(fs[i].id.0) {
            let f = fs[i].faction;
            proof {
                lemma_presence_bounds(fs@, near@, dead, f, i as int);
            }
            let was: u32 = match counts.get(f.0 as u64) {
                Some(c) => *c,
                None => 0,
            };
            let prev = counts.insert(f.0 as u64, was + 1);
        }
        proof {
            assert forall|g: FactionId| #[trigger]
                presence(fs@, near@, dead, g, i + 1) == (if counts@.contains_key(g.0 as u64) {
                    counts@[g.0 as u64] as int
                } else {
                    0
                }) by {
                assert(presence(fs@, near@, dead, g, i as int) == (if before.contains_key(
                    g.0 as u64,
                ) {
                    before[g.0 as u64] as int
                } else {
                    0
                }));
            }
            assert forall|k: u64| #[trigger] counts@.contains_key(k) implies k <= u32::MAX
                && exists|j: int| 0 <= j < i + 1 && (#[trigger] fs@[j]).faction.0 == k by {
                if before.contains_key(k) {
                    let j = choose|j: int| 0 <= j < i && (#[trigger] fs@[j]).faction.0 == k;
                    assert(fs@[j].faction.0 == k);
                } else {
                    assert(fs@[i as int].faction.0 == k);
                }
            }
        }
        i += 1;
    }
    let n = counts.len();
    let ghost keys = counts.key_list();
    let mut best: Option<(u32, u32)> = None;
    let mut k: usize = 0;
    while k < n
        invariant
            k <= n,
            n == keys.len(),
            keys == counts.key_list(),
            forall|q: u64| #[trigger]
                counts@.contains_key(q) ==> q <= u32::MAX && exists|j: int|
                    0 <= j < fs@.len() && (#[trigger] fs@[j]).faction.0 == q,
            best matches Some(b) ==> b.1 >= DOMINANCE_MIN && counts@.contains_key(b.0 as u64)
                && counts@[b.0 as u64] == b.1,
            forall|j: int|
                0 <= j < k ==> match best {
                    Some(b) => counts@[#[trigger] keys[j]] <= b.1,
                    None => counts@[keys[j]] < DOMINANCE_MIN,
                },
        decreases n - k,
    {
        let f = counts.key_at(k) as u32;
        let c = *counts.value_at(k);
        if c >= DOMINANCE_MIN {
            match best {
                Some(b) => {
                    if c >= b.1 {
                        best = Some((f, c));
                    }
                },
                None => {
                    best = Some((f, c));
                },
            }
        }
        k += 1;
    }
    proof {
        assert forall|g: FactionId| #[trigger]
            presence(fs@, near@, dead, g, fs@.len() as int) <= (match best {
                Some(b) => b.1 as int,
                None => DOMINANCE_MIN - 1,
            }) by {
            if counts@.contains_key(g.0 as u64) {
                assert(keys.contains(g.0 as u64));
                let j = choose|j: int| 0 <= j < keys.len() && keys[j] == g.0 as u64;
                assert(counts@[keys[j]] == counts@[g.0 as u64]);
            }
        }
    }
    match best {
        Some(b) => {
            proof {
                let j = choose|j: int| 0 <= j < fs@.len() && (#[trigger] fs@[j]).faction.0 == b.0;
                assert(fs@[j].faction == FactionId(b.0));
                assert(presence(fs@, near@, dead, FactionId(b.0), fs@.len() as int) == b.1);
            }
            Some(FactionId(b.0))
        },
        None => None,
    }
}

/// The base is held by a foe of its owner: `flip` is a faction that holds it,
/// is not the owner, and is hostile to the owner. There is no flip where
/// nobody holds the base, or one that holds it is the owner or no foe.
pub open spec fn flips(
    fs: Seq<Fighter>,
    base: BaseWatch,
    dead: Set<u64>,
    reg: FactionRegistry,
    deltas: RelationDeltas,
    flip: Option<FactionId>,
) -> bool {
    match flip {
        Some(f) => dominates(fs, base.near@, dead, f) && f != base.owner && hostile(
            reg,
            deltas,
            f,
            base.owner,
        ),
        None => (forall|g: FactionId| #[trigger]
            presence(fs, base.near@, dead, g, fs.len() as int) < DOMINANCE_MIN) || (exists|
            g: FactionId,
        | #[trigger]
            dominates(fs, base.near@, dead, g) && (g == base.owner || !hostile(
                reg,
                deltas,
                g,
                base.owner,
            ))),
    }
}

/// Who takes a base, if anybody does.
pub fn base_flip(
    fs: &Vec<Fighter>,
    base: &BaseWatch,
    m: &Melee,
    reg: &FactionRegistry,
    deltas: &RelationDeltas,
) -> (r: Option<FactionId>)
    requires
        base.near@.len() == fs@.len(),
        fs@.len() <= u32::MAX,
        base.owner.0 < reg.list().len(),
        forall|i: int| 0 <= i < fs@.len() ==> (#[trigger] fs@[i]).faction.0 < reg.list().len(),
    ensures
        flips(fs@, *base, m.dead@.dom(), *reg, *deltas, r),
        r matches Some(f) ==> f.0 < reg.list().len(),
{
    match dominant_faction(fs, &base.near, m) {
        Some(f) => {
            if f == base.owner {
                return None;
            }
            match faction_relation(reg, deltas, f, base.owner) {
                Relation::Hostile => Some(f),
                _ => {
                    assert(dominates(fs@, base.near@, m.dead@.dom(), f));
                    None
                },
            }
        },
        None => None,
    }
}

/// The flips of the first `n` bases, for others to know.
pub open spec fn flip_events(
    bases: Seq<BaseWatch>,
    flipped: Seq<Option<FactionId>>,
    n: int,
) -> Seq<BusEvent>
    decreases n,
{
    if n <= 0 {
        Seq::empty()
    } else {
        match flipped[n - 1] {
            Some(f) => flip_events(bases, flipped, n - 1).push(
                BusEvent::BaseFlip {
                    new_owner: f,
                    old_owner: bases[n - 1].owner,
                    base: (n - 1) as usize,
                },
            ),
            None => flip_events(bases, flipped, n - 1),
        }
    }
}

/// The feed with the flips of the first `n` bases.
pub open spec fn told_flips(
    feed: Feed,
    reg: FactionRegistry,
    bases: Seq<BaseWatch>,
    flipped: Seq<Option<FactionId>>,
    region: RegionId,
    now: u64,
    n: int,
) -> Feed
    decreases n,
{
    if n <= 0 {
        feed
    } else {
        let before = told_flips(feed, reg, bases, flipped, region, now, n - 1);
        match flipped[n - 1] {
            Some(f) => before.pushed(
                News::BaseFlip {
                    new_owner: reg.list()[f.0 as int].name@,
                    old_owner: Some(reg.list()[bases[n - 1].owner.0 as int].name@),
                    region,
                },
                now,
            ),
            None => before,
        }
    }
}

/// Every base's flip is decided.
pub open spec fn flips_decided(
    fs: Seq<Fighter>,
    bases: Seq<BaseWatch>,
    dead: Set<u64>,
    reg: FactionRegistry,
    deltas: RelationDeltas,
    flipped: Seq<Option<FactionId>>,
) -> bool {
    &&& flipped.len() == bases.len()
    &&& forall|i: int|
        0 <= i < bases.len() ==> flips(fs, bases[i], dead, reg, deltas, #[trigger] flipped[i])
}

/// Reports the bases that are held by foes of their owners, and drops what is
/// outdated from the players' feed.
pub fn report_flips(
    fs: &Vec<Fighter>,
    bases: &Vec<BaseWatch>,
    m: &Melee,
    reg: &FactionRegistry,
    deltas: &RelationDeltas,
    region: RegionId,
    now_sim: u64,
    pda_log: &mut PdaEventLog,
) -> (r: Vec<BusEvent>)
    requires
        fs@.len() <= u32::MAX,
        forall|i: int| 0 <= i < fs@.len() ==> (#[trigger] fs@[i]).faction.0 < reg.list().len(),
        forall|i: int|
            #![trigger bases@[i]]
            0 <= i < bases@.len() ==> bases@[i].near@.len() == fs@.len() && bases@[i].owner.0
                < reg.list().len(),
    ensures
        exists|flipped: Seq<Option<FactionId>>| #[trigger]
            flips_decided(fs@, bases@, m.dead@.dom(), *reg, *deltas, flipped) && r@ == flip_events(
                bases@,
                flipped,
                bases@.len() as int,
            ) && final(pda_log)@ == told_flips(
                old(pda_log)@,
                *reg,
                bases@,
                flipped,
                region,
                now_sim,
                bases@.len() as int,
            ).evicted(now_sim),
{
    let ghost feed0 = pda_log@;
    let ghost dead = m.dead@.dom();
    let ghost mut flipped: Seq<Option<FactionId>> = Seq::empty();
    let mut out: Vec<BusEvent> = Vec::new();
    let mut i: usize = 0;
    while i < bases.len()
        invariant
            i <= bases@.len(),
            dead == m.dead@.dom(),
            fs@.len() <= u32::MAX,
            forall|j: int| 0 <= j < fs@.len() ==> (#[trigger] fs@[j]).faction.0 < reg.list().len(),
            forall|j: int|
                #![trigger bases@[j]]
                0 <= j < bases@.len() ==> bases@[j].near@.len() == fs@.len() && bases@[j].owner.0
                    < reg.list().len(),
            flipped.len() == i,
            forall|j: int|
                0 <= j < i ==> flips(fs@, bases@[j], dead, *reg, *deltas, #[trigger] flipped[j]),
            out@ == flip_events(bases@, flipped, i as int),
            pda_log@ == told_flips(feed0, *reg, bases@, flipped, region, now_sim, i as int),
        decreases bases@.len() - i,
    {
        let flip = base_flip(fs, &bases[i], m, reg, deltas);
        proof {
            lemma_flips_prefix(feed0, *reg, bases@, flipped, flip, region, now_sim, i as int);
            flipped = flipped.push(flip);
        }
        if let Some(f) = flip {
            out.push(
                BusEvent::BaseFlip { new_owner: f, old_owner: bases[i].owner, base: i },
            );
            let seq = pda_log.push(
                PdaEvent::BaseFlip {
                    new_owner: reg.name_of(f).to_owned(),
                    old_owner: Some(reg.name_of(bases[i].owner).to_owned()),
                    region,
                },
                now_sim,
            );
        }
        i += 1;
    }
    pda_log.evict_old(now_sim);
    assert(flips_decided(fs@, bases@, dead, *reg, *deltas, flipped));
    out
}

/// One more flip changes nothing of those before.
proof fn lemma_flips_prefix(
    feed: Feed,
    reg: FactionRegistry,
    bases: Seq<BaseWatch>,
    flipped: Seq<Option<FactionId>>,
    flip: Option<FactionId>,
    region: RegionId,
    now: u64,
    n: int,
)
    requires
        n <= flipped.len(),
    ensures
        flip_events(bases, flipped.push(flip), n) == flip_events(bases, flipped, n),
        told_flips(feed, reg, bases, flipped.push(flip), region, now, n) == told_flips(
            feed,
            reg,
            bases,
            flipped,
            region,
            now,
            n,
        ),
    decreases n,
{
    if n > 0 {
        lemma_flips_prefix(feed, reg, bases, flipped, flip, region, now, n - 1);
    }
}

/// The faction is known.
pub open spec fn known(reg: FactionRegistry, f: FactionId) -> bool {
    f.0 < reg.list().len()
}

/// Everybody that died, and every killer, is of a known faction.
pub open spec fn deaths_known(reg: FactionRegistry, deaths: Seq<Death>) -> bool {
    forall|i: int|
        #![trigger deaths[i]]
        0 <= i < deaths.len() ==> known(reg, deaths[i].faction) && (deaths[i].killer matches Some(
            k,
        ) ==> known(reg, k))
}

/// The dead and their killers are fighters.
proof fn lemma_deaths_known(
    fs: Seq<Fighter>,
    pairs: Seq<(usize, usize)>,
    rolls: Seq<Exchange>,
    now: u64,
    reg: FactionRegistry,
    k: int,
)
    requires
        0 <= k <= pairs.len(),
        forall|i: int| 0 <= i < fs.len() ==> known(reg, (#[trigger] fs[i]).faction),
        forall|j: int|
            #![trigger pairs[j]]
            0 <= j < pairs.len() ==> pairs[j].0 < fs.len() && pairs[j].1 < fs.len(),
    ensures
        deaths_known(reg, fought(fs, pairs, rolls, now, k).deaths),
    decreases k,
{
    if k == 0 {
        lemma_aged_known(fs, now, reg, fs.len() as int);
    } else {
        lemma_deaths_known(fs, pairs, rolls, now, reg, k - 1);
        let p = pairs[k - 1];
        assert(known(reg, fs[p.0 as int].faction) && known(reg, fs[p.1 as int].faction));
    }
}

/// Who died of age is a fighter.
proof fn lemma_aged_known(fs: Seq<Fighter>, now: u64, reg: FactionRegistry, n: int)
    requires
        0 <= n <= fs.len(),
        forall|i: int| 0 <= i < fs.len() ==> known(reg, (#[trigger] fs[i]).faction),
    ensures
        deaths_known(reg, aged_out(fs, now, n).deaths),
    decreases n,
{
    if n > 0 {
        lemma_aged_known(fs, now, reg, n - 1);
        assert(known(reg, fs[n - 1].faction));
    }
}

/// A round of fighting in a region: the fight itself, what it makes of the
/// NPCs, what the chronicle and the players' feed get to know, and what others
/// do: the shots first, then the kills, then the bases that are held by foes.
/// The dead are to be taken out of the world.
pub fn offline_combat(
    fs: &Vec<Fighter>,
    pairs: &Vec<(usize, usize)>,
    rolls: &Vec<Exchange>,
    bases: &Vec<BaseWatch>,
    reg: &FactionRegistry,
    deltas: &RelationDeltas,
    region: RegionId,
    now_sim: u64,
    npcs: &mut Vec<OfflineNpc>,
    chronicle: &mut LifeChronicle,
    pda_log: &mut PdaEventLog,
) -> (r: (Vec<Death>, Vec<BusEvent>))
    requires
        pairs@.len() == rolls@.len(),
        fs@.len() <= u32::MAX,
        forall|k: int|
            #![trigger pairs@[k]]
            0 <= k < pairs@.len() ==> pairs@[k].0 < fs@.len() && pairs@[k].1 < fs@.len(),
        forall|i: int| 0 <= i < fs@.len() ==> known(*reg, (#[trigger] fs@[i]).faction),
        forall|i: int|
            #![trigger bases@[i]]
            0 <= i < bases@.len() ==> bases@[i].near@.len() == fs@.len() && known(
                *reg,
                bases@[i].owner,
            ),
    ensures
        ({
            let t = fought(fs@, pairs@, rolls@, now_sim, pairs@.len() as int);
            let n = t.deaths.len() as int;
            let feed = told_gunfire(
                told_kills(old(pda_log)@, *reg, t.deaths, region, now_sim, n),
                region,
                now_sim,
                t.shots.len() > 0,
            );
            &&& r.0@ == t.deaths
            &&& final(npcs)@.len() == old(npcs)@.len()
            &&& forall|i: int|
                0 <= i < old(npcs)@.len() ==> #[trigger] final(npcs)@[i] == (if old(
                    npcs)@[i].region == region {
                    after_round(old(npcs)@[i], t, now_sim)
                } else {
                    old(npcs)@[i]
                })
            &&& final(chronicle).records@.dom() == old(chronicle).records@.dom()
            &&& forall|x: u64|
                old(chronicle).records@.contains_key(x) ==> buried(
                    old(chronicle).records@[x],
                    #[trigger] final(chronicle).records@[x],
                    *reg,
                    t.deaths,
                    region,
                    now_sim,
                    x,
                    n,
                )
            &&& exists|flipped: Seq<Option<FactionId>>| #[trigger]
                flips_decided(fs@, bases@, t.dead, *reg, *deltas, flipped) && r.1@ == gunshots(t)
                    + kills(t.deaths, n) + flip_events(bases@, flipped, bases@.len() as int)
                    && final(pda_log)@ == told_flips(
                    feed,
                    *reg,
                    bases@,
                    flipped,
                    region,
                    now_sim,
                    bases@.len() as int,
                ).evicted(now_sim)
        }),
        old(chronicle).counted() && old(chronicle).records@.dom().len() < u32::MAX ==> final(
            chronicle).counted(),
{
    let m = fight(fs, pairs, rolls, now_sim);
    proof {
        lemma_deaths_known(fs@, pairs@, rolls@, now_sim, *reg, pairs@.len() as int);
    }
    settle_round(npcs, region, &m, now_sim);
    let down = report_deaths(&m, reg, region, now_sim, chronicle, pda_log);
    let mut events = report_gunfire(&m, region, now_sim, pda_log);
    let flips = report_flips(fs, bases, &m, reg, deltas, region, now_sim, pda_log);
    let ghost shots = events@;
    append_events(&mut events, &down);
    append_events(&mut events, &flips);
    assert(events@ =~= shots + down@ + flips@);
    (m.deaths, events)
}

/// Adds events at the end.
fn append_events(out: &mut Vec<BusEvent>, more: &Vec<BusEvent>)
    ensures
        final(out)@ == old(out)@ + more@,
{
    let ghost start = out@;
    let mut i: usize = 0;
    assert(start + more@.take(0) =~= start);
    while i < more.len()
        invariant
            i <= more@.len(),
            out@ == start + more@.take(i as int),
        decreases more@.len() - i,
    {
        out.push(more[i]);
        i += 1;
        assert(more@.take(i as int) =~= more@.take(i - 1).push(more@[i - 1]));
    }
    assert(more@.take(i as int) =~= more@);
}

/// What a hit makes of one that was in the given health: a step worse, or dead
/// by the hand of the given faction where it was critical. Without a hit it is
/// as it was.
pub open spec fn shot_at(
    t: Toll,
    u: Toll,
    f: Fighter,
    place: usize,
    hit: bool,
    by_faction: FactionId,
) -> bool {
    &&& !hit ==> u.health(f) == t.health(f) && !u.dead.contains(f.id.0)
    &&& hit && t.health(f) == HealthClass::Healthy ==> u.health(f) == HealthClass::Wounded
        && !u.dead.contains(f.id.0)
    &&& hit && t.health(f) == HealthClass::Wounded ==> u.health(f) == HealthClass::Critical
        && !u.dead.contains(f.id.0)
    &&& hit && t.health(f) == HealthClass::Critical ==> u.dead.contains(f.id.0)
        && u.deaths.contains(
        Death { id: f.id, faction: f.faction, place, killer: Some(by_faction) },
    )
}

/// When two that live meet in range, the hit of each counts by itself: who is
/// hit is a step worse off, or dead by the other's hand where it was critical,
/// whether the other was hit or not. Nobody else is touched. Both are engaged
/// with each other, and the shots are noted.
pub proof fn law_each_hit_counts(
    t: Toll,
    fs: Seq<Fighter>,
    pair: (usize, usize),
    k: int,
    e: Exchange,
    x: u64,
    c: Fighter,
)
    requires
        pair.0 < fs.len(),
        pair.1 < fs.len(),
        0 <= k <= usize::MAX,
        fs[pair.0 as int].id != fs[pair.1 as int].id,
        !t.dead.contains(fs[pair.0 as int].id.0),
        !t.dead.contains(fs[pair.1 as int].id.0),
        e.in_range,
        x != fs[pair.0 as int].id.0 && x != fs[pair.1 as int].id.0,
        c.id.0 == x,
    ensures
        ({
            let a = fs[pair.0 as int];
            let b = fs[pair.1 as int];
            let u = t.met(fs, pair, k, e);
            let fallen = (if e.first_hits && t.health(b) == HealthClass::Critical {
                1int
            } else {
                0
            }) + (if e.second_hits && t.health(a) == HealthClass::Critical {
                1int
            } else {
                0
            });
            &&& shot_at(t, u, a, pair.0, e.second_hits, b.faction)
            &&& shot_at(t, u, b, pair.1, e.first_hits, a.faction)
            &&& u.health(c) == t.health(c)
            &&& u.dead.contains(x) == t.dead.contains(x)
            &&& u.opponents.contains_key(x) == t.opponents.contains_key(x)
            &&& t.opponents.contains_key(x) ==> u.opponents[x] == t.opponents[x]
            &&& u.opponents.contains_key(a.id.0) && u.opponents[a.id.0] == b.id.0
            &&& u.opponents.contains_key(b.id.0) && u.opponents[b.id.0] == a.id.0
            &&& u.shots == t.shots.push(k as usize)
            &&& u.deaths.len() == t.deaths.len() + fallen
            &&& u.deaths.take(t.deaths.len() as int) == t.deaths
        }),
{
    let a = fs[pair.0 as int];
    let b = fs[pair.1 as int];
    let u = t.met(fs, pair, k, e);
    let engaged = Toll {
        opponents: t.opponents.insert(a.id.0, b.id.0).insert(b.id.0, a.id.0),
        shots: t.shots.push(k as usize),
        ..t
    };
    let first = if e.first_hits {
        engaged.hit(b, pair.1, a.faction)
    } else {
        engaged
    };
    assert(u.deaths.take(t.deaths.len() as int) =~= t.deaths);
    let fall_b = Death { id: b.id, faction: b.faction, place: pair.1, killer: Some(a.faction) };
    let fall_a = Death { id: a.id, faction: a.faction, place: pair.0, killer: Some(b.faction) };
    if e.first_hits && t.health(b) == HealthClass::Critical {
        assert(first.deaths.last() == fall_b);
        assert(u.deaths[t.deaths.len() as int] == fall_b);
    }
    if e.second_hits && t.health(a) == HealthClass::Critical {
        assert(u.deaths.last() == fall_a);
    }
}

/// Where one of a pair is dead or the two are out of range, nothing happens.
pub proof fn law_the_dead_do_not_fight(
    t: Toll,
    fs: Seq<Fighter>,
    pair: (usize, usize),
    k: int,
    e: Exchange,
)
    requires
        t.dead.contains(fs[pair.0 as int].id.0) || t.dead.contains(fs[pair.1 as int].id.0)
            || !e.in_range,
    ensures
        t.met(fs, pair, k, e) == t,
{
}

/// Who is in no pair and whose time is not up comes out of a round unharmed and
/// has fought nobody.
pub proof fn law_bystanders_are_unharmed(
    fs: Seq<Fighter>,
    pairs: Seq<(usize, usize)>,
    rolls: Seq<Exchange>,
    now: u64,
    k: int,
    i: int,
)
    requires
        fs.len() <= usize::MAX,
        distinct_ids(fs),
        0 <= k <= pairs.len(),
        0 <= i < fs.len(),
        now < fs[i].die_at_tick,
        forall|j: int|
            #![trigger pairs[j]]
            0 <= j < pairs.len() ==> pairs[j].0 < fs.len() && pairs[j].1 < fs.len() && pairs[j].0
                != i && pairs[j].1 != i,
    ensures
        ({
            let t = fought(fs, pairs, rolls, now, k);
            &&& !t.dead.contains(fs[i].id.0)
            &&& t.health(fs[i]) == fs[i].health_class
            &&& !t.opponents.contains_key(fs[i].id.0)
        }),
    decreases k,
{
    if k == 0 {
        lemma_aged_sound(fs, now, fs.len() as int);
        lemma_aged_fight_nobody(fs, now, fs.len() as int);
        let t = aged_out(fs, now, fs.len() as int);
        if t.dead.contains(fs[i].id.0) {
            let j = choose|j: int|
                #![trigger fs[j]]
                0 <= j < fs.len() && fs[j].id.0 == fs[i].id.0 && now >= fs[j].die_at_tick;
            if i < j {
                assert(fs[i].id != fs[j].id);
            } else if j < i {
                assert(fs[j].id != fs[i].id);
            }
        }
    } else {
        law_bystanders_are_unharmed(fs, pairs, rolls, now, k - 1, i);
        let p = pairs[k - 1];
        assert(fs[p.0 as int].id != fs[i].id) by {
            if p.0 < i {
                assert(fs[p.0 as int].id != fs[i].id);
            } else {
                assert(fs[i].id != fs[p.0 as int].id);
            }
        }
        assert(fs[p.1 as int].id != fs[i].id) by {
            if p.1 < i {
                assert(fs[p.1 as int].id != fs[i].id);
            } else {
                assert(fs[i].id != fs[p.1 as int].id);
            }
        }
    }
}

/// Before any pair meets exactly those are dead whose time is up, and nobody
/// killed them.
pub proof fn law_the_old_die_first(fs: Seq<Fighter>, pairs: Seq<(usize, usize)>, rolls: Seq<
    Exchange,
>, now: u64, i: int)
    requires
        fs.len() <= usize::MAX,
        distinct_ids(fs),
        0 <= i < fs.len(),
    ensures
        ({
            let t = fought(fs, pairs, rolls, now, 0);
            &&& t.dead.contains(fs[i].id.0) <==> now >= fs[i].die_at_tick
            &&& t.shots.len() == 0
            &&& forall|d: int| 0 <= d < t.deaths.len() ==> (#[trigger] t.deaths[d]).killer is None
        }),
{
    lemma_aged_sound(fs, now, fs.len() as int);
    lemma_aged_unkilled(fs, now, fs.len() as int);
    let t = aged_out(fs, now, fs.len() as int);
    if t.dead.contains(fs[i].id.0) {
        let j = choose|j: int|
            #![trigger fs[j]]
            0 <= j < fs.len() && fs[j].id.0 == fs[i].id.0 && now >= fs[j].die_at_tick;
        if i < j {
            assert(fs[i].id != fs[j].id);
        } else if j < i {
            assert(fs[j].id != fs[i].id);
        }
    }
}

proof fn lemma_aged_unkilled(fs: Seq<Fighter>, now: u64, n: int)
    ensures
        aged_out(fs, now, n).shots.len() == 0,
        forall|d: int|
            0 <= d < aged_out(fs, now, n).deaths.len() ==> (#[trigger] aged_out(
                fs,
                now,
                n,
            ).deaths[d]).killer is None,
    decreases n,
{
    if n > 0 {
        lemma_aged_unkilled(fs, now, n - 1);
    }
}

/// Who fought is engaged with whom it fought last as of now and is after them;
/// who was hit and lives is in the health that the fight left; the health of
/// the dead, and of those that were not hit, stays. Nothing else changes.
pub proof fn law_rounds_settle(npc: OfflineNpc, t: Toll, now: u64)
    ensures
        ({
            let x = npc.id.0;
            let after = after_round(npc, t, now);
            &&& t.opponents.contains_key(x) ==> after.combat_state == (OfflineCombatState::Engaged {
                opponent: NpcId(t.opponents[x]),
                since_tick: now,
            }) && after.aggro_target == Some(NpcId(t.opponents[x])) && after.aggro_last_seen_tick
                == now
            &&& !t.opponents.contains_key(x) ==> after.aggro_last_seen_tick
                == npc.aggro_last_seen_tick
            &&& !t.opponents.contains_key(x) && npc.combat_state is Idle ==> after.combat_state
                == npc.combat_state && after.aggro_target == npc.aggro_target
            &&& !t.opponents.contains_key(x) && after.combat_state != npc.combat_state
                ==> after.aggro_target is None
            &&& !t.dead.contains(x) && t.classes.contains_key(x) ==> after.health_class
                == t.classes[x]
            &&& t.dead.contains(x) || !t.classes.contains_key(x) ==> after.health_class
                == npc.health_class
            &&& after == (OfflineNpc {
                combat_state: after.combat_state,
                aggro_target: after.aggro_target,
                aggro_last_seen_tick: after.aggro_last_seen_tick,
                health_class: after.health_class,
                ..npc
            })
        }),
{
}

/// How many of the first `n` deaths were by somebody's hand.
pub open spec fn killed(deaths: Seq<Death>, n: int) -> int
    decreases n,
{
    if n <= 0 {
        0
    } else {
        killed(deaths, n - 1) + (if deaths[n - 1].killer is Some {
            1int
        } else {
            0
        })
    }
}

/// Every kill, and no other death, is told once: to others with who fell, of
/// which faction and where, and to players with both factions' names.
pub proof fn law_kills_are_told(
    feed: Feed,
    reg: FactionRegistry,
    deaths: Seq<Death>,
    region: RegionId,
    now: u64,
    n: int,
    i: int,
)
    requires
        0 <= i < n <= deaths.len(),
    ensures
        kills(deaths, n).len() == killed(deaths, n),
        deaths[i].killer is Some ==> kills(deaths, n)[killed(deaths, i)] == (BusEvent::AllyDown {
            id: deaths[i].id,
            faction: deaths[i].faction,
            place: deaths[i].place,
        }),
        deaths[n - 1].killer matches Some(k) ==> {
            let e = told_kills(feed, reg, deaths, region, now, n).entries.last();
            &&& e.tick == now
            &&& e.seq == told_kills(feed, reg, deaths, region, now, n - 1).next
            &&& e.news == (News::OfflineCombatDeath {
                killed: reg.list()[deaths[n - 1].faction.0 as int].name@,
                killer: reg.list()[k.0 as int].name@,
                region,
            })
        },
        deaths[n - 1].killer is None ==> told_kills(feed, reg, deaths, region, now, n)
            == told_kills(feed, reg, deaths, region, now, n - 1),
        told_kills(feed, reg, deaths, region, now, 0) == feed,
    decreases n,
{
    lemma_kills_len(deaths, n);
    lemma_kills_len(deaths, n - 1);
    if i < n - 1 {
        law_kills_are_told(feed, reg, deaths, region, now, n - 1, i);
        lemma_kills_len(deaths, i);
        lemma_killed_grows(deaths, i + 1, n - 1);
    }
}

proof fn lemma_kills_len(deaths: Seq<Death>, n: int)
    ensures
        kills(deaths, n).len() == killed(deaths, n),
        killed(deaths, n) >= 0,
    decreases n,
{
    if n > 0 {
        lemma_kills_len(deaths, n - 1);
    }
}

proof fn lemma_killed_grows(deaths: Seq<Death>, a: int, b: int)
    requires
        a <= b,
    ensures
        killed(deaths, a) <= killed(deaths, b),
    decreases b - a,
{
    if a < b {
        lemma_killed_grows(deaths, a, b - 1);
    }
}

/// The death that a record is closed with is one of those that happened, with
/// none of the same NPC before it; who did not die has none.
pub proof fn law_first_death_is_first(deaths: Seq<Death>, x: u64, n: int, i: int)
    requires
        0 <= i < n <= deaths.len(),
        deaths[i].id.0 == x,
        forall|j: int| 0 <= j < i ==> (#[trigger] deaths[j]).id.0 != x,
    ensures
        first_death(deaths, x, n) == Some(deaths[i]),
        first_death(deaths, x, i) is None,
    decreases n,
{
    lemma_no_death(deaths, x, i);
    if i < n - 1 {
        law_first_death_is_first(deaths, x, n - 1, i);
    }
}

proof fn lemma_no_death(deaths: Seq<Death>, x: u64, n: int)
    requires
        n <= deaths.len(),
        forall|j: int| 0 <= j < n ==> (#[trigger] deaths[j]).id.0 != x,
    ensures
        first_death(deaths, x, n) is None,
    decreases n,
{
    if n > 0 {
        lemma_no_death(deaths, x, n - 1);
        assert(deaths[n - 1].id.0 != x);
    }
}

/// A record is closed once, with the tick, the region and the cause of the
/// first death: the killer's faction by name, or age. One that was closed, and
/// one whose NPC lives, stays as it was.
pub proof fn law_records_are_closed_once(
    before: LifeRecord,
    after: LifeRecord,
    reg: FactionRegistry,
    deaths: Seq<Death>,
    region: RegionId,
    now: u64,
    x: u64,
    i: int,
)
    requires
        0 <= i < deaths.len(),
        forall|j: int| 0 <= j < i ==> (#[trigger] deaths[j]).id.0 != x,
        buried(before, after, reg, deaths, region, now, x, deaths.len() as int),
    ensures
        deaths[i].id.0 == x && before.death_tick is None ==> {
            &&& after.death_tick == Some(now)
            &&& after.death_region == Some(region)
            &&& match deaths[i].killer {
                Some(k) => after.death_cause matches Some(DeathCause::Combat { killer_faction })
                    && killer_faction@ == reg.list()[k.0 as int].name@,
                None => after.death_cause == Some(DeathCause::NaturalCauses),
            }
        },
        before.death_tick is Some ==> after == before,
        (forall|j: int| 0 <= j < deaths.len() ==> (#[trigger] deaths[j]).id.0 != x) ==> after
            == before,
{
    if deaths[i].id.0 == x {
        law_first_death_is_first(deaths, x, deaths.len() as int, i);
    }
    if forall|j: int| 0 <= j < deaths.len() ==> (#[trigger] deaths[j]).id.0 != x {
        lemma_no_death(deaths, x, deaths.len() as int);
    }
}

/// Shots are reported to players where none were from the region so far, and
/// then not again for ten ticks; without shots nothing is.
pub proof fn law_gunfire_is_told_every_ten_ticks(
    feed: Feed,
    region: RegionId,
    at: u64,
    now: u64,
)
    requires
        forall|i: int|
            0 <= i < feed.entries.len() ==> (#[trigger] feed.entries[i]).news != (
            News::OfflineGunfire { region }),
        at <= now,
    ensures
        ({
            let once = told_gunfire(feed, region, at, true);
            let e = once.entries.last();
            &&& once.entries.len() > 0
            &&& e.news == (News::OfflineGunfire { region })
            &&& e.tick == at
            &&& e.seq == feed.next
            &&& now < at + 10 ==> told_gunfire(once, region, now, true) == once
            &&& now >= at + 10 ==> told_gunfire(once, region, now, true).entries.last().tick == now
                && told_gunfire(once, region, now, true).next != once.next
            &&& told_gunfire(feed, region, at, false) == feed
        }),
{
    lemma_no_gunfire(feed, region, feed.entries.len() as int);
    let once = feed.pushed(News::OfflineGunfire { region }, at);
    assert(once.entries.last().news == (News::OfflineGunfire { region }));
    assert(once.last_gunfire(region, once.entries.len() as int) == Some(at));
}

proof fn lemma_no_gunfire(feed: Feed, region: RegionId, n: int)
    requires
        n <= feed.entries.len(),
        forall|i: int|
            0 <= i < n ==> (#[trigger] feed.entries[i]).news != (News::OfflineGunfire { region }),
    ensures
        feed.last_gunfire(region, n) is None,
    decreases n,
{
    if n > 0 {
        lemma_no_gunfire(feed, region, n - 1);
        assert(feed.entries[n - 1].news != (News::OfflineGunfire { region }));
    }
}

/// Every fighter of the faction that is near and lives counts one, and nobody
/// else does: the count drops by one when such a one leaves, and stays when
/// another does.
pub proof fn law_presence_counts_the_living_near(
    fs: Seq<Fighter>,
    near: Seq<bool>,
    dead: Set<u64>,
    faction: FactionId,
    n: int,
    i: int,
)
    requires
        0 <= i < near.len(),
        0 <= n <= near.len(),
    ensures
        presence(fs, near.update(i, false), dead, faction, n) == presence(
            fs,
            near,
            dead,
            faction,
            n,
        ) - (if i < n && near[i] && !dead.contains(fs[i].id.0) && fs[i].faction == faction {
            1int
        } else {
            0
        }),
        (forall|j: int| 0 <= j < n ==> !#[trigger] near[j]) ==> presence(
            fs,
            near,
            dead,
            faction,
            n,
        ) == 0,
    decreases n,
{
    if n > 0 {
        law_presence_counts_the_living_near(fs, near, dead, faction, n - 1, i);
        if forall|j: int| 0 <= j < n ==> !#[trigger] near[j] {
            assert(!near[n - 1]);
        }
    }
}

/// A faction that has two or more at a base and more than every other holds it,
/// and no other does; one with less than two never does.
pub proof fn law_the_many_hold_a_base(
    fs: Seq<Fighter>,
    near: Seq<bool>,
    dead: Set<u64>,
    f: FactionId,
    g: FactionId,
)
    ensures
        ({
            let n = fs.len() as int;
            &&& dominates(fs, near, dead, g) ==> presence(fs, near, dead, g, n) >= 2
            &&& dominates(fs, near, dead, g) ==> presence(fs, near, dead, f, n) <= presence(
                fs,
                near,
                dead,
                g,
                n,
            )
            &&& presence(fs, near, dead, f, n) >= 2 && (forall|h: FactionId|
                h != f ==> #[trigger] presence(fs, near, dead, h, n) < presence(
                    fs,
                    near,
                    dead,
                    f,
                    n,
                )) ==> dominates(fs, near, dead, f) && (g != f ==> !dominates(fs, near, dead, g))
        }),
{
}

/// A base goes to whoever has two or more there and more than every other, if
/// that is a foe of the owner; it stays where that is the owner or no foe, and
/// where nobody has two.
pub proof fn law_bases_go_to_foes(
    fs: Seq<Fighter>,
    base: BaseWatch,
    dead: Set<u64>,
    reg: FactionRegistry,
    deltas: RelationDeltas,
    flip: Option<FactionId>,
    f: FactionId,
)
    requires
        flips(fs, base, dead, reg, deltas, flip),
    ensures
        ({
            let n = fs.len() as int;
            let most = presence(fs, base.near@, dead, f, n) >= 2 && forall|h: FactionId|
                h != f ==> #[trigger] presence(fs, base.near@, dead, h, n) < presence(
                    fs,
                    base.near@,
                    dead,
                    f,
                    n,
                );
            &&& most && f != base.owner && hostile(reg, deltas, f, base.owner) ==> flip == Some(f)
            &&& most && f == base.owner ==> flip is None
            &&& most && !hostile(reg, deltas, f, base.owner) ==> flip is None
            &&& (forall|h: FactionId| #[trigger] presence(fs, base.near@, dead, h, n) < 2)
                ==> flip is None
            &&& flip matches Some(g) ==> g != base.owner && hostile(reg, deltas, g, base.owner)
                && presence(fs, base.near@, dead, g, n) >= 2
        }),
{
    let n = fs.len() as int;
    if presence(fs, base.near@, dead, f, n) >= 2 && forall|h: FactionId|
        h != f ==> #[trigger] presence(fs, base.near@, dead, h, n) < presence(
            fs,
            base.near@,
            dead,
            f,
            n,
        ) {
        law_the_many_hold_a_base(fs, base.near@, dead, f, f);
        if let Some(g) = flip {
            law_the_many_hold_a_base(fs, base.near@, dead, f, g);
        } else if exists|g: FactionId| #[trigger]
            dominates(fs, base.near@, dead, g) && (g == base.owner || !hostile(
                reg,
                deltas,
                g,
                base.owner,
            )) {
            let g = choose|g: FactionId| #[trigger]
                dominates(fs, base.near@, dead, g) && (g == base.owner || !hostile(
                    reg,
                    deltas,
                    g,
                    base.owner,
                ));
            law_the_many_hold_a_base(fs, base.near@, dead, f, g);
        }
    }
}

/// Every base that changes hands is told once, to others and to players, with
/// both owners; one that does not is not.
pub proof fn law_flips_are_told(
    feed: Feed,
    reg: FactionRegistry,
    bases: Seq<BaseWatch>,
    flipped: Seq<Option<FactionId>>,
    region: RegionId,
    now: u64,
    n: int,
)
    requires
        0 < n <= bases.len() <= usize::MAX,
        flipped.len() == bases.len(),
    ensures
        flipped[n - 1] matches Some(f) ==> {
            let e = told_flips(feed, reg, bases, flipped, region, now, n).entries.last();
            &&& flip_events(bases, flipped, n).drop_last() == flip_events(bases, flipped, n - 1)
            &&& flip_events(bases, flipped, n).last() == (BusEvent::BaseFlip {
                new_owner: f,
                old_owner: bases[n - 1].owner,
                base: (n - 1) as usize,
            })
            &&& e.tick == now
            &&& e.news == (News::BaseFlip {
                new_owner: reg.list()[f.0 as int].name@,
                old_owner: Some(reg.list()[bases[n - 1].owner.0 as int].name@),
                region,
            })
        },
        flipped[n - 1] is None ==> flip_events(bases, flipped, n) == flip_events(
            bases,
            flipped,
            n - 1,
        ) && told_flips(feed, reg, bases, flipped, region, now, n) == told_flips(
            feed,
            reg,
            bases,
            flipped,
            region,
            now,
            n - 1,
        ),
        flip_events(bases, flipped, 0).len() == 0,
        told_flips(feed, reg, bases, flipped, region, now, 0) == feed,
{
    if let Some(f) = flipped[n - 1] {
        assert(flip_events(bases, flipped, n).drop_last() =~= flip_events(bases, flipped, n - 1));
    }
}

} // verus!
