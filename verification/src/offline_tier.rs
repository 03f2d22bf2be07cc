//! NPCs of regions that nobody watches: what is kept of them, the slow clock
//! they live by, and the way between the two tiers.
use vstd::prelude::*;

use crate::components::{
    derived_id, Aggro, BodyParts, CharacterId, NpcCharacter, NpcId, NpcStats,
};
use crate::faction::registry::{FactionId, FactionRegistry};
use crate::float_bits::{normalized, F32Bits};
use crate::idmap::{rising, IdMap};
use crate::region::RegionId;
use crate::rng::{seeded, Trail};
use crate::text::str_eq;

verus! {

/// Health in three steps.
#[derive(Clone, Copy, Debug, PartialEq, Eq, Hash, Structural)]
pub enum HealthClass {
    Healthy,
    Wounded,
    Critical,
}

/// What an NPC carries, in a word.
#[derive(Clone, Copy, Debug, PartialEq, Eq, Hash, Structural)]
pub enum LoadoutClass {
    /// The faction's usual kit of a tier.
    Standard { faction: FactionId, tier: u8 },
    /// The faction's best kit.
    Elite { faction: FactionId },
    /// Whatever lay around.
    Improvised,
}

/// Whether an NPC fights.
#[derive(Clone, Copy, Debug, PartialEq, Eq, Hash, Structural)]
pub enum OfflineCombatState {
    Idle,
    Engaged { opponent: NpcId, since_tick: u64 },
    /// Fleeing until the given tick of the slow clock.
    Routed { until_offline_tick: u64 },
}

/// What is kept of an NPC that nobody watches.
#[derive(Debug)]
pub struct OfflineNpc {
    pub id: NpcId,
    pub region: RegionId,
    /// Where it is, without the height.
    pub position_2d: [F32Bits; 2],
    pub faction: FactionId,
    pub group: Option<u64>,
    pub health_class: HealthClass,
    pub loadout_class: LoadoutClass,
    /// Keeps the NPC who it is.
    pub personality_seed: u64,
    pub stats: NpcStats,
    pub combat_state: OfflineCombatState,
    pub die_at_tick: u64,
    /// Where it is going, if anywhere.
    pub target_2d: Option<[F32Bits; 2]>,
    /// Slow tick at which it gets there.
    pub arrival_offline_tick: u64,
    /// Slow tick at which it set out.
    pub travel_start_offline_tick: u64,
    /// Where it set out from.
    pub travel_start_2d: [F32Bits; 2],
    /// Waypoints on the way; empty for a straight line.
    pub waypoint_chain: Vec<u32>,
    pub waypoint_chain_idx: u32,
    /// Whom it was after when its region went offline.
    pub aggro_target: Option<NpcId>,
    pub aggro_last_seen_tick: u64,
}

/// The slow clock.
#[derive(Clone, Copy, Debug, PartialEq, Eq, Structural)]
pub struct OfflineTierClock {
    pub tick: u64,
    /// Tick of the simulation at which the slow clock last advanced.
    pub last_sim_tick: u64,
}

impl Default for OfflineTierClock {
    fn default() -> (r: Self)
        ensures
            r == (OfflineTierClock { tick: 0, last_sim_tick: 0 }),
    {
        OfflineTierClock { tick: 0, last_sim_tick: 0 }
    }
}

/// Ticks of the simulation per tick of the slow clock.
pub const OFFLINE_TIER_TICK_DIVISOR: u64 = 10;

/// Ticks of the simulation between bursts of offline work.
pub const OFFLINE_PROCESS_INTERVAL_TICKS: u64 = 4;

/// `a - b`, wrapped around.
pub open spec fn wrapped_sub(a: u64, b: u64) -> int {
    if a >= b {
        a - b
    } else {
        a - b + 0x1_0000_0000_0000_0000
    }
}

/// The slow clock after a tick of the simulation.
pub open spec fn ticked(clock: OfflineTierClock, sim_tick: u64) -> OfflineTierClock {
    if wrapped_sub(sim_tick, clock.last_sim_tick) >= OFFLINE_TIER_TICK_DIVISOR {
        OfflineTierClock {
            tick: if clock.tick == u64::MAX {
                0
            } else {
                (clock.tick + 1) as u64
            },
            last_sim_tick: sim_tick,
        }
    } else {
        clock
    }
}

/// Advances the slow clock if it is time.
pub fn tick_offline_clock(sim_tick: u64, offline_clock: &mut OfflineTierClock)
    ensures
        *final(offline_clock) == ticked(*old(offline_clock), sim_tick),
{
    if sim_tick.wrapping_sub(offline_clock.last_sim_tick) >= OFFLINE_TIER_TICK_DIVISOR {
        offline_clock.tick = offline_clock.tick.wrapping_add(1);
        offline_clock.last_sim_tick = sim_tick;
    }
}

/// True iff the slow clock advanced at this tick of the simulation.
pub fn offline_tick_just_advanced(sim_tick: u64, offline_clock: &OfflineTierClock) -> (r: bool)
    ensures
        r == (sim_tick == offline_clock.last_sim_tick && offline_clock.tick > 0),
{
    sim_tick == offline_clock.last_sim_tick && offline_clock.tick > 0
}

/// A clock that stands still does not advance the slow clock twice.
pub proof fn law_paused_clock_ticks_once(clock: OfflineTierClock, sim_tick: u64)
    ensures
        ticked(ticked(clock, sim_tick), sim_tick) == ticked(clock, sim_tick),
{
}

/// The slow clock after the simulation ran from one tick to another.
pub open spec fn ran(clock: OfflineTierClock, from: int, to: int) -> OfflineTierClock
    decreases to - from,
{
    if to <= from {
        clock
    } else {
        ticked(ran(clock, from, to - 1), to as u64)
    }
}

/// While the simulation runs tick by tick, the slow clock advances once every
/// ten ticks.
pub proof fn law_slow_clock_divides(clock: OfflineTierClock, n: int)
    requires
        n >= 0,
        clock.last_sim_tick + n <= u64::MAX,
        clock.tick + n <= u64::MAX,
    ensures
        ran(clock, clock.last_sim_tick as int, clock.last_sim_tick + n) == (OfflineTierClock {
            tick: (clock.tick + n / 10) as u64,
            last_sim_tick: (clock.last_sim_tick + n / 10 * 10) as u64,
        }),
    decreases n,
{
    if n > 0 {
        law_slow_clock_divides(clock, n - 1);
        let last = clock.last_sim_tick as int;
        assert(ran(clock, last, last + n) == ticked(
            ran(clock, last, last + (n - 1)),
            (last + n) as u64,
        ));
        assert(n / 10 == (n - 1) / 10 || (n / 10 == (n - 1) / 10 + 1 && n % 10 == 0));
    }
}

/// True iff offline work is done at this tick of the simulation.
pub fn offline_work_due(now_sim: u64) -> (r: bool)
    ensures
        r == (now_sim != 0 && now_sim % OFFLINE_PROCESS_INTERVAL_TICKS == 0),
{
    now_sim != 0 && now_sim % OFFLINE_PROCESS_INTERVAL_TICKS == 0
}

/// The regions in order, each once.
pub open spec fn region_order(regions: Seq<RegionId>, keys: Seq<u64>) -> bool {
    &&& rising(keys)
    &&& forall|k: u64| #[trigger]
        keys.contains(k) <==> exists|i: int| 0 <= i < regions.len() && #[trigger] regions[i] == k
}

/// The place of the region whose turn it is among `n` regions.
pub open spec fn turn(now_sim: u64, n: int) -> int {
    (now_sim as int / OFFLINE_PROCESS_INTERVAL_TICKS as int) % n
}

/// The region whose turn it is: the regions of the NPCs take turns, in order,
/// from one burst of work to the next.
pub fn region_for_tick(regions: &Vec<RegionId>, now_sim: u64) -> (r: Option<RegionId>)
    ensures
        match r {
            Some(region) => exists|keys: Seq<u64>| #[trigger]
                region_order(regions@, keys) && keys.len() > 0 && region == keys[turn(
                    now_sim,
                    keys.len() as int,
                )],
            None => regions@.len() == 0,
        },
{
    if regions.len() == 0 {
        return None;
    }
    let mut seen: IdMap<bool> = IdMap::new();
    let mut i: usize = 0;
    while i < regions.len()
        invariant
            i <= regions@.len(),
            forall|k: u64| #[trigger]
                seen@.contains_key(k) <==> exists|j: int|
                    0 <= j < i && #[trigger] regions@[j] == k,
        decreases regions@.len() - i,
    {
        let ghost was = seen@;
        let prev = seen.insert(regions[i] as u64, true);
        proof {
            assert forall|k: u64| #[trigger] seen@.contains_key(k) <==> exists|j: int|
                0 <= j < i + 1 && #[trigger] regions@[j] == k by {
                if k == regions@[i as int] {
                    assert(regions@[i as int] == k);
                }
                if was.contains_key(k) {
                    let j = choose|j: int| 0 <= j < i && #[trigger] regions@[j] == k;
                    assert(regions@[j] == k);
                }
            }
        }
        i += 1;
    }
    let n = seen.len();
    let ghost keys = seen.key_list();
    proof {
        assert(seen@.contains_key(regions@[0] as u64));
        assert(keys.contains(regions@[0] as u64));
        assert(keys.len() > 0);
        assert forall|k: u64| #[trigger] keys.contains(k) <==> exists|j: int|
            0 <= j < regions@.len() && #[trigger] regions@[j] == k by {
            assert(seen@.contains_key(k) <==> keys.contains(k));
        }
        assert(region_order(regions@, keys));
    }
    let at: u64 = (now_sim / OFFLINE_PROCESS_INTERVAL_TICKS) % (n as u64);
    let key = seen.key_at(at as usize);
    proof {
        assert(keys.contains(key));
        let j = choose|j: int| 0 <= j < regions@.len() && #[trigger] regions@[j] == key;
        assert(key <= u32::MAX);
    }
    Some(key as u32)
}

/// Of `n` bursts of work in a row each of `n` regions gets exactly one.
pub proof fn law_every_region_gets_its_turn(now_sim: u64, n: int, place: int, burst: int)
    requires
        0 <= place < n,
        0 <= burst < n,
        now_sim + 4 * n <= u64::MAX,
    ensures
        turn((now_sim + 4 * burst) as u64, n) == place <==> burst == (place - turn(now_sim, n)) % n,
{
    let q = now_sim as int / 4;
    assert((now_sim + 4 * burst) / 4 == q + burst) by {
        vstd::arithmetic::div_mod::lemma_div_multiples_vanish_fancy(q + burst, now_sim as int % 4, 4);
    }
    let t = turn(now_sim, n);
    assert(t == q % n);
    vstd::arithmetic::div_mod::lemma_add_mod_noop(q, burst, n);
    assert(burst % n == burst) by {
        vstd::arithmetic::div_mod::lemma_small_mod(burst as nat, n as nat);
    }
    vstd::arithmetic::div_mod::lemma_mod_bound(q, n);
    // (q + burst) % n == (t + burst) % n
    assert((q + burst) % n == (t + burst) % n);
    if t + burst < n {
        vstd::arithmetic::div_mod::lemma_small_mod((t + burst) as nat, n as nat);
    } else {
        vstd::arithmetic::div_mod::lemma_mod_sub_multiples_vanish(t + burst, n);
        vstd::arithmetic::div_mod::lemma_small_mod((t + burst - n) as nat, n as nat);
    }
    let d = place - t;
    if d >= 0 {
        vstd::arithmetic::div_mod::lemma_small_mod(d as nat, n as nat);
    } else {
        vstd::arithmetic::div_mod::lemma_mod_add_multiples_vanish(d, n);
        vstd::arithmetic::div_mod::lemma_small_mod((d + n) as nat, n as nat);
    }
}

/// The bit pattern of `25.0`, a quarter of a part's full health.
pub const QUARTER_HEALTH: u32 = 0x41c8_0000;

/// The bit pattern of `75.0`, three quarters of a part's full health.
pub const THREE_QUARTER_HEALTH: u32 = 0x4296_0000;

/// Some part's health is under the bound.
pub open spec fn some_part_under(bp: BodyParts, bound: u32) -> bool {
    bp.head.less(F32Bits(bound)) || bp.torso.less(F32Bits(bound)) || bp.left_arm.less(
        F32Bits(bound),
    ) || bp.right_arm.less(F32Bits(bound)) || bp.left_leg.less(F32Bits(bound))
        || bp.right_leg.less(F32Bits(bound))
}

/// Critical with a part under a quarter, wounded with one under three
/// quarters.
pub open spec fn health_class_of(bp: BodyParts) -> HealthClass {
    if some_part_under(bp, QUARTER_HEALTH) {
        HealthClass::Critical
    } else if some_part_under(bp, THREE_QUARTER_HEALTH) {
        HealthClass::Wounded
    } else {
        HealthClass::Healthy
    }
}

/// Some part's health is under the bound.
fn any_part_under(bp: &BodyParts, bound: u32) -> (r: bool)
    ensures
        r == some_part_under(*bp, bound),
{
    let b = F32Bits(bound);
    bp.head.lt(b) || bp.torso.lt(b) || bp.left_arm.lt(b) || bp.right_arm.lt(b) || bp.left_leg.lt(b)
        || bp.right_leg.lt(b)
}

/// The health of a body in three steps.
pub fn body_parts_to_health_class(bp: &BodyParts) -> (r: HealthClass)
    ensures
        r == health_class_of(*bp),
{
    if any_part_under(bp, QUARTER_HEALTH) {
        HealthClass::Critical
    } else if any_part_under(bp, THREE_QUARTER_HEALTH) {
        HealthClass::Wounded
    } else {
        HealthClass::Healthy
    }
}

/// Distinguishes the wounds of the wounded from those of the critical.
pub const WOUNDED_SALT: u64 = 0x57A1_FE03_BA53_57A1;

/// Distinguishes the wounds of the critical from those of the wounded.
pub const CRITICAL_SALT: u64 = 0x77A1_FE03_C817_1CA1;

/// The seed of an NPC's wounds: the same NPC in the same class is always
/// wounded alike.
pub fn wound_seed(class: HealthClass, npc_id: NpcId) -> (r: u64)
    ensures
        r == (npc_id.0 + (match class {
            HealthClass::Healthy => 0int,
            HealthClass::Wounded => WOUNDED_SALT as int,
            HealthClass::Critical => CRITICAL_SALT as int,
        })) % 0x1_0000_0000_0000_0000,
{
    let salt: u64 = match class {
        HealthClass::Wounded => WOUNDED_SALT,
        HealthClass::Critical => CRITICAL_SALT,
        HealthClass::Healthy => 0,
    };
    npc_id.0.wrapping_add(salt)
}

/// The body with one limb's health changed: the left arm, the right arm, the
/// left leg, or for any other number the right leg.
pub open spec fn with_limb(bp: BodyParts, limb: u32, health: F32Bits) -> BodyParts {
    if limb == 0 {
        BodyParts { left_arm: health, ..bp }
    } else if limb == 1 {
        BodyParts { right_arm: health, ..bp }
    } else if limb == 2 {
        BodyParts { left_leg: health, ..bp }
    } else {
        BodyParts { right_leg: health, ..bp }
    }
}

/// A body of the given class: the wounded have a hurt limb, the critical a
/// hurt head or torso and a hurt limb.
pub open spec fn body_of(
    class: HealthClass,
    limb: u32,
    limb_health: F32Bits,
    torso: bool,
    vital_health: F32Bits,
) -> BodyParts {
    match class {
        HealthClass::Healthy => full_body(),
        HealthClass::Wounded => with_limb(full_body(), limb, limb_health),
        HealthClass::Critical => with_limb(
            if torso {
                BodyParts { torso: vital_health, ..full_body() }
            } else {
                BodyParts { head: vital_health, ..full_body() }
            },
            limb,
            limb_health,
        ),
    }
}

/// The bit pattern of `100.0`, a part's full health.
pub const FULL_HEALTH: u32 = 0x42c8_0000;

/// A body without a wound.
pub open spec fn full_body() -> BodyParts {
    BodyParts {
        head: F32Bits(FULL_HEALTH),
        torso: F32Bits(FULL_HEALTH),
        left_arm: F32Bits(FULL_HEALTH),
        right_arm: F32Bits(FULL_HEALTH),
        left_leg: F32Bits(FULL_HEALTH),
        right_leg: F32Bits(FULL_HEALTH),
    }
}

/// A body of the given class, from what was drawn for it.
pub fn health_class_to_body_parts(
    class: HealthClass,
    limb: u32,
    limb_health: F32Bits,
    torso: bool,
    vital_health: F32Bits,
) -> (r: BodyParts)
    ensures
        r == body_of(class, limb, limb_health, torso, vital_health),
{
    let mut bp = BodyParts::new_full();
    proof {
        reveal_with_fuel(normalized, 20);
    }
    assert(bp == full_body());
    match class {
        HealthClass::Healthy => {
            return bp;
        },
        HealthClass::Wounded => {},
        HealthClass::Critical => {
            if torso {
                bp.torso = vital_health;
            } else {
                bp.head = vital_health;
            }
        },
    }
    match limb {
        0 => {
            bp.left_arm = limb_health;
        },
        1 => {
            bp.right_arm = limb_health;
        },
        2 => {
            bp.left_leg = limb_health;
        },
        _ => {
            bp.right_leg = limb_health;
        },
    }
    bp
}

/// A body made of a class has that class, where what was drawn is what the
/// class means.
pub proof fn law_health_class_round_trip(
    class: HealthClass,
    limb: u32,
    limb_health: F32Bits,
    torso: bool,
    vital_health: F32Bits,
)
    requires
        class is Wounded ==> F32Bits(QUARTER_HEALTH).at_most(limb_health) && limb_health.less(
            F32Bits(THREE_QUARTER_HEALTH),
        ),
        class is Critical ==> vital_health.less(F32Bits(QUARTER_HEALTH)),
    ensures
        health_class_of(body_of(class, limb, limb_health, torso, vital_health)) == class,
{
}

/// What an NPC of the named faction carries.
pub open spec fn loadout_of(name: Seq<char>, faction: FactionId) -> LoadoutClass {
    if name == "wanderers"@ || name == "bandits"@ {
        LoadoutClass::Improvised
    } else if name == "ghost_teams"@ || name == "recovery_division"@ || name == "choir"@ || name
        == "registry"@ {
        LoadoutClass::Elite { faction }
    } else {
        LoadoutClass::Standard { faction, tier: 1 }
    }
}

/// What an NPC of a faction carries.
pub fn faction_to_loadout_class(faction: FactionId, registry: &FactionRegistry) -> (r: LoadoutClass)
    requires
        faction.0 < registry.list().len(),
    ensures
        r == loadout_of(registry.list()[faction.0 as int].name@, faction),
{
    let name = registry.name_of(faction);
    if str_eq(name, "wanderers") || str_eq(name, "bandits") {
        LoadoutClass::Improvised
    } else if str_eq(name, "ghost_teams") || str_eq(name, "recovery_division") || str_eq(
        name,
        "choir",
    ) || str_eq(name, "registry") {
        LoadoutClass::Elite { faction }
    } else {
        LoadoutClass::Standard { faction, tier: 1 }
    }
}

/// Who an NPC is and what it can do.
#[derive(Clone, Copy, Debug)]
pub struct Identity {
    pub character_id: CharacterId,
    pub stats: NpcStats,
}

/// What is known of an NPC that somebody watches, as far as it is kept.
#[derive(Clone, Copy, Debug)]
pub struct OnlineNpc {
    pub id: NpcId,
    pub region: RegionId,
    pub faction: FactionId,
    pub position: [F32Bits; 3],
    pub body: Option<BodyParts>,
    pub group: Option<u64>,
    pub character: Option<Identity>,
    pub die_at_tick: Option<u64>,
    pub aggro: Option<Aggro>,
}

/// What middling aggression adds to the aim of an NPC without a character.
pub const STAND_IN_NUDGE: i32 = 10;

/// `off` is what is kept of `on`. The stats of one without a character are
/// drawn from a generator seeded with its number.
pub open spec fn kept_of(on: OnlineNpc, registry: FactionRegistry, off: OfflineNpc) -> bool {
    &&& off.id == on.id
    &&& off.region == on.region
    &&& off.position_2d@ == seq![on.position@[0], on.position@[2]]
    &&& off.faction == on.faction
    &&& off.group == on.group
    &&& off.health_class == (match on.body {
        Some(bp) => health_class_of(bp),
        None => HealthClass::Healthy,
    })
    &&& off.loadout_class == loadout_of(
        registry.list()[on.faction.0 as int].name@,
        on.faction,
    )
    &&& match on.character {
        Some(c) => off.personality_seed == c.character_id.0 && off.stats == c.stats,
        None => off.personality_seed == derived_id(on.id.0, on.faction.0)
            && off.stats.is_rolled(STAND_IN_NUDGE as int) && off.stats.comes_from(
            Trail::start(on.id.0),
            STAND_IN_NUDGE as int,
        ),
    }
    &&& off.combat_state == (match on.aggro {
        Some(a) => OfflineCombatState::Engaged {
            opponent: a.target,
            since_tick: a.last_seen_tick,
        },
        None => OfflineCombatState::Idle,
    })
    &&& off.die_at_tick == (match on.die_at_tick {
        Some(t) => t,
        None => u64::MAX,
    })
    &&& off.target_2d is None
    &&& off.arrival_offline_tick == 0
    &&& off.travel_start_offline_tick == 0
    &&& off.travel_start_2d@ == off.position_2d@
    &&& off.waypoint_chain@.len() == 0
    &&& off.waypoint_chain_idx == 0
    &&& off.aggro_target == (match on.aggro {
        Some(a) => Some(a.target),
        None => None,
    })
    &&& off.aggro_last_seen_tick == (match on.aggro {
        Some(a) => a.last_seen_tick,
        None => 0,
    })
}

/// Keeps what is kept of an NPC.
pub fn keep_offline(on: &OnlineNpc, registry: &FactionRegistry) -> (r: OfflineNpc)
    requires
        on.faction.0 < registry.list().len(),
    ensures
        kept_of(*on, *registry, r),
{
    let health_class = match &on.body {
        Some(bp) => body_parts_to_health_class(bp),
        None => HealthClass::Healthy,
    };
    let (personality_seed, stats): (u64, NpcStats) = match on.character {
        Some(c) => (c.character_id.0, c.stats),
        None => {
            let mut rng = seeded(on.id.0);
            (NpcCharacter::derive_id(on.id, on.faction).0, NpcStats::roll(&mut rng, STAND_IN_NUDGE))
        },
    };
    let combat_state = match on.aggro {
        Some(a) => OfflineCombatState::Engaged { opponent: a.target, since_tick: a.last_seen_tick },
        None => OfflineCombatState::Idle,
    };
    let aggro_target: Option<NpcId> = match on.aggro {
        Some(a) => Some(a.target),
        None => None,
    };
    let aggro_last_seen_tick: u64 = match on.aggro {
        Some(a) => a.last_seen_tick,
        None => 0,
    };
    let die_at_tick: u64 = match on.die_at_tick {
        Some(t) => t,
        None => u64::MAX,
    };
    let position_2d: [F32Bits; 2] = [on.position[0], on.position[2]];
    assert(position_2d@ =~= seq![on.position@[0], on.position@[2]]);
    OfflineNpc {
        id: on.id,
        region: on.region,
        position_2d,
        faction: on.faction,
        group: on.group,
        health_class,
        loadout_class: faction_to_loadout_class(on.faction, registry),
        personality_seed,
        stats,
        combat_state,
        die_at_tick,
        target_2d: None,
        arrival_offline_tick: 0,
        travel_start_offline_tick: 0,
        travel_start_2d: position_2d,
        waypoint_chain: Vec::new(),
        waypoint_chain_idx: 0,
        aggro_target,
        aggro_last_seen_tick,
    }
}

/// The NPCs of a region.
pub open spec fn watched_in(npcs: Seq<OnlineNpc>, region: RegionId) -> Seq<OnlineNpc>
    decreases npcs.len(),
{
    if npcs.len() == 0 {
        Seq::empty()
    } else if npcs.last().region == region {
        watched_in(npcs.drop_last(), region).push(npcs.last())
    } else {
        watched_in(npcs.drop_last(), region)
    }
}

/// What is kept of the NPCs of a region that goes offline.
pub fn project_online_to_offline(
    npcs: &Vec<OnlineNpc>,
    region: RegionId,
    registry: &FactionRegistry,
) -> (r: Vec<OfflineNpc>)
    requires
        forall|i: int|
            0 <= i < npcs@.len() ==> (#[trigger] npcs@[i]).faction.0 < registry.list().len(),
    ensures
        r@.len() == watched_in(npcs@, region).len(),
        forall|i: int|
            0 <= i < r@.len() ==> kept_of(
                watched_in(npcs@, region)[i],
                *registry,
                #[trigger] r@[i],
            ),
{
    let mut r: Vec<OfflineNpc> = Vec::new();
    let mut i: usize = 0;
    assert(npcs@.take(0) =~= Seq::<OnlineNpc>::empty());
    while i < npcs.len()
        invariant
            i <= npcs@.len(),
            forall|k: int|
                0 <= k < npcs@.len() ==> (#[trigger] npcs@[k]).faction.0 < registry.list().len(),
            r@.len() == watched_in(npcs@.take(i as int), region).len(),
            forall|k: int|
                0 <= k < r@.len() ==> kept_of(
                    watched_in(npcs@.take(i as int), region)[k],
                    *registry,
                    #[trigger] r@[k],
                ),
        decreases npcs@.len() - i,
    {
        assert(npcs@.take(i + 1).drop_last() =~= npcs@.take(i as int));
        if npcs[i].region == region {
            r.push(keep_offline(&npcs[i], registry));
        }
        i += 1;
    }
    assert(npcs@.take(i as int) =~= npcs@);
    r
}

/// What an NPC that is watched again starts from.
#[derive(Clone, Copy, Debug)]
pub struct OnlineSpawn {
    pub id: NpcId,
    pub region: RegionId,
    pub faction: FactionId,
    /// Where it appears, before it is moved a little aside.
    pub position_2d: [F32Bits; 2],
    pub health_class: HealthClass,
    pub die_at_tick: u64,
    pub aggression: F32Bits,
    pub group: Option<u64>,
    /// Whom it is still after.
    pub aggro: Option<Aggro>,
    /// Seed of what it carries.
    pub kit_seed: u64,
    /// Seed of how far it is moved aside.
    pub jitter_seed: u64,
    /// Seed of its wounds.
    pub wound_seed: u64,
}

/// Spreads numbers over 64 bits.
pub const SPREAD: u64 = 0x9E37_79B9_7F4A_7C15;

/// `on` is what `off` starts from when it is watched again.
pub open spec fn spawned_of(off: OfflineNpc, registry: FactionRegistry, on: OnlineSpawn) -> bool {
    &&& on.id == off.id
    &&& on.region == off.region
    &&& on.faction == off.faction
    &&& on.position_2d == off.position_2d
    &&& on.health_class == off.health_class
    &&& on.die_at_tick == off.die_at_tick
    &&& on.aggression == registry.list()[off.faction.0 as int].base_aggression
    &&& on.group == off.group
    &&& on.aggro == (match off.aggro_target {
        Some(target) => Some(Aggro { target, last_seen_tick: off.aggro_last_seen_tick }),
        None => None,
    })
    &&& on.kit_seed == off.personality_seed
    &&& on.jitter_seed == (off.id.0 * SPREAD) % 0x1_0000_0000_0000_0000
    &&& on.wound_seed == (off.id.0 + (match off.health_class {
        HealthClass::Healthy => 0int,
        HealthClass::Wounded => WOUNDED_SALT as int,
        HealthClass::Critical => CRITICAL_SALT as int,
    })) % 0x1_0000_0000_0000_0000
}

/// What an NPC starts from when it is watched again.
pub fn spawn_online(off: &OfflineNpc, registry: &FactionRegistry) -> (r: OnlineSpawn)
    requires
        off.faction.0 < registry.list().len(),
    ensures
        spawned_of(*off, *registry, r),
{
    let aggro: Option<Aggro> = match off.aggro_target {
        Some(target) => Some(Aggro { target, last_seen_tick: off.aggro_last_seen_tick }),
        None => None,
    };
    OnlineSpawn {
        id: off.id,
        region: off.region,
        faction: off.faction,
        position_2d: off.position_2d,
        health_class: off.health_class,
        die_at_tick: off.die_at_tick,
        aggression: registry.def(off.faction).base_aggression,
        group: off.group,
        aggro,
        kit_seed: off.personality_seed,
        jitter_seed: off.id.0.wrapping_mul(SPREAD),
        wound_seed: wound_seed(off.health_class, off.id),
    }
}

/// The NPCs of a region.
pub open spec fn unwatched_in(npcs: Seq<OfflineNpc>, region: RegionId) -> Seq<OfflineNpc>
    decreases npcs.len(),
{
    if npcs.len() == 0 {
        Seq::empty()
    } else if npcs.last().region == region {
        unwatched_in(npcs.drop_last(), region).push(npcs.last())
    } else {
        unwatched_in(npcs.drop_last(), region)
    }
}

/// What the NPCs of a region that comes online start from.
pub fn project_offline_to_online(
    npcs: &Vec<OfflineNpc>,
    region: RegionId,
    registry: &FactionRegistry,
) -> (r: Vec<OnlineSpawn>)
    requires
        forall|i: int|
            0 <= i < npcs@.len() ==> (#[trigger] npcs@[i]).faction.0 < registry.list().len(),
    ensures
        r@.len() == unwatched_in(npcs@, region).len(),
        forall|i: int|
            0 <= i < r@.len() ==> spawned_of(
                unwatched_in(npcs@, region)[i],
                *registry,
                #[trigger] r@[i],
            ),
{
    let mut r: Vec<OnlineSpawn> = Vec::new();
    let mut i: usize = 0;
    assert(npcs@.take(0) =~= Seq::<OfflineNpc>::empty());
    while i < npcs.len()
        invariant
            i <= npcs@.len(),
            forall|k: int|
                0 <= k < npcs@.len() ==> (#[trigger] npcs@[k]).faction.0 < registry.list().len(),
            r@.len() == unwatched_in(npcs@.take(i as int), region).len(),
            forall|k: int|
                0 <= k < r@.len() ==> spawned_of(
                    unwatched_in(npcs@.take(i as int), region)[k],
                    *registry,
                    #[trigger] r@[k],
                ),
        decreases npcs@.len() - i,
    {
        assert(npcs@.take(i + 1).drop_last() =~= npcs@.take(i as int));
        if npcs[i].region == region {
            r.push(spawn_online(&npcs[i], registry));
        }
        i += 1;
    }
    assert(npcs@.take(i as int) =~= npcs@);
    r
}

/// An NPC that goes offline and comes back is the same: its number, faction,
/// region, squad, place, health, end and quarrel.
pub proof fn law_tiers_keep_identity(
    before: OnlineNpc,
    off: OfflineNpc,
    after: OnlineSpawn,
    registry: FactionRegistry,
)
    requires
        kept_of(before, registry, off),
        spawned_of(off, registry, after),
    ensures
        after.id == before.id,
        after.faction == before.faction,
        after.region == before.region,
        after.group == before.group,
        after.position_2d@ == seq![before.position@[0], before.position@[2]],
        after.aggro == before.aggro,
        before.die_at_tick is Some ==> before.die_at_tick == Some(after.die_at_tick),
        before.body is Some ==> after.health_class == health_class_of(before.body->0),
        before.character matches Some(c) ==> after.kit_seed == c.character_id.0,
{
}

/// A body is critical iff some part has less than 25 of its health, and wounded
/// iff some part has less than 75 and none less than 25. Part by part.
pub proof fn law_worst_part_decides(bp: BodyParts)
    ensures
        ({
            let under = |bound: u32|
                {
                    let b = F32Bits(bound);
                    bp.head.less(b) || bp.torso.less(b) || bp.left_arm.less(b) || bp.right_arm.less(
                        b,
                    ) || bp.left_leg.less(b) || bp.right_leg.less(b)
                };
            &&& health_class_of(bp) == HealthClass::Critical <==> under(0x41c8_0000)
            &&& health_class_of(bp) == HealthClass::Wounded <==> under(0x4296_0000) && !under(
                0x41c8_0000,
            )
        }),
{
}

/// A healthy body has no wound; a wounded one has one hurt limb, and a critical
/// one has besides a hurt head or torso. All other parts are at full health.
pub proof fn law_wounds_go_where_they_are_drawn(
    class: HealthClass,
    limb: u32,
    limb_health: F32Bits,
    torso: bool,
    vital_health: F32Bits,
)
    ensures
        ({
            let bp = body_of(class, limb, limb_health, torso, vital_health);
            let full = F32Bits(0x42c8_0000);
            let limbs = |n: u32|
                if n == 0 {
                    bp.left_arm
                } else if n == 1 {
                    bp.right_arm
                } else if n == 2 {
                    bp.left_leg
                } else {
                    bp.right_leg
                };
            &&& forall|n: u32|
                n < 4 && (class == HealthClass::Healthy || n != limb) && (n == 3 ==> limb < 3 || class
                    == HealthClass::Healthy) ==> #[trigger] limbs(n) == full
            &&& class != HealthClass::Healthy ==> limbs(limb) == limb_health
            &&& bp.head == (if class == HealthClass::Critical && !torso {
                vital_health
            } else {
                full
            })
            &&& bp.torso == (if class == HealthClass::Critical && torso {
                vital_health
            } else {
                full
            })
        }),
{
}

/// Wanderers and bandits carry what they find, four factions are of the elite,
/// and all others carry the standard kit of the first tier, each of its own
/// faction.
pub proof fn law_loadouts_go_by_name(name: Seq<char>, faction: FactionId)
    ensures
        name == "wanderers"@ || name == "bandits"@ <==> loadout_of(name, faction)
            == LoadoutClass::Improvised,
        name == "ghost_teams"@ || name == "recovery_division"@ || name == "choir"@ || name
            == "registry"@ <==> loadout_of(name, faction) == (LoadoutClass::Elite { faction }),
        !(loadout_of(name, faction) is Improvised) && !(loadout_of(name, faction) is Elite)
            ==> loadout_of(name, faction) == (LoadoutClass::Standard { faction, tier: 1 }),
{
    reveal_strlit("wanderers");
    reveal_strlit("bandits");
    reveal_strlit("ghost_teams");
    reveal_strlit("recovery_division");
    reveal_strlit("choir");
    reveal_strlit("registry");
    assert("wanderers"@.len() == 9 && "bandits"@.len() == 7);
    assert("ghost_teams"@.len() == 11 && "recovery_division"@.len() == 17 && "choir"@.len() == 5
        && "registry"@.len() == 8);
}

/// What is kept of an NPC that nobody watches: it is as healthy as its worst
/// part, or healthy without a body; it fights whom it was after; it does not
/// die of age unless it was to; it stands where it stood and is on no way. Its
/// stats are its character's.
pub proof fn law_what_is_kept(on: OnlineNpc, registry: FactionRegistry, off: OfflineNpc)
    requires
        kept_of(on, registry, off),
    ensures
        off.id == on.id && off.faction == on.faction && off.region == on.region,
        off.group == on.group,
        on.body is None ==> off.health_class == HealthClass::Healthy,
        on.body matches Some(bp) ==> off.health_class == health_class_of(bp),
        on.aggro is None ==> off.combat_state == OfflineCombatState::Idle && off.aggro_target
            is None,
        on.aggro matches Some(a) ==> off.combat_state == (OfflineCombatState::Engaged {
            opponent: a.target,
            since_tick: a.last_seen_tick,
        }) && off.aggro_target == Some(a.target) && off.aggro_last_seen_tick == a.last_seen_tick,
        on.die_at_tick is None ==> off.die_at_tick == u64::MAX,
        on.die_at_tick matches Some(t) ==> off.die_at_tick == t,
        off.position_2d@[0] == on.position@[0] && off.position_2d@[1] == on.position@[2],
        off.target_2d is None && off.waypoint_chain@.len() == 0 && off.waypoint_chain_idx == 0,
        off.arrival_offline_tick == 0 && off.travel_start_offline_tick == 0,
        off.travel_start_2d@ == off.position_2d@,
        on.aggro is None ==> off.aggro_last_seen_tick == 0,
        on.character is None ==> off.personality_seed == derived_id(on.id.0, on.faction.0)
            && off.stats.comes_from(Trail::start(on.id.0), 10),
        on.character matches Some(c) ==> off.stats == c.stats && off.personality_seed
            == c.character_id.0,
        off.loadout_class == loadout_of(registry.list()[on.faction.0 as int].name@, on.faction),
{
}

/// What an NPC that is watched again starts from is its own, and its seeds
/// differ with its number and with how it was wounded.
pub proof fn law_what_is_spawned(
    off: OfflineNpc,
    registry: FactionRegistry,
    on: OnlineSpawn,
)
    requires
        spawned_of(off, registry, on),
    ensures
        on.id == off.id && on.faction == off.faction && on.region == off.region,
        on.position_2d == off.position_2d,
        on.health_class == off.health_class,
        on.die_at_tick == off.die_at_tick,
        on.group == off.group,
        on.aggression == registry.list()[off.faction.0 as int].base_aggression,
        on.aggro is Some <==> off.aggro_target is Some,
        on.aggro matches Some(a) ==> Some(a.target) == off.aggro_target && a.last_seen_tick
            == off.aggro_last_seen_tick,
        on.kit_seed == off.personality_seed,
        off.health_class == HealthClass::Healthy ==> on.wound_seed == off.id.0,
        off.health_class != HealthClass::Healthy ==> on.wound_seed != off.id.0,
{
}

/// Those of a region are listed in the order in which they come, and nobody
/// else is.
pub proof fn law_projection_takes_the_region(
    watched: Seq<OnlineNpc>,
    w: OnlineNpc,
    unwatched: Seq<OfflineNpc>,
    u: OfflineNpc,
    region: RegionId,
)
    ensures
        watched_in(watched.push(w), region) == (if w.region == region {
            watched_in(watched, region).push(w)
        } else {
            watched_in(watched, region)
        }),
        unwatched_in(unwatched.push(u), region) == (if u.region == region {
            unwatched_in(unwatched, region).push(u)
        } else {
            unwatched_in(unwatched, region)
        }),
        watched_in(Seq::empty(), region).len() == 0,
        unwatched_in(Seq::empty(), region).len() == 0,
{
    assert(watched.push(w).drop_last() =~= watched);
    assert(unwatched.push(u).drop_last() =~= unwatched);
}

/// The slow clock goes on once ten ticks or more have passed, by one, and not
/// before.
pub proof fn law_slow_clock_waits(clock: OfflineTierClock, sim_tick: u64)
    requires
        clock.last_sim_tick <= sim_tick,
    ensures
        sim_tick - clock.last_sim_tick < 10 ==> ticked(clock, sim_tick) == clock,
        sim_tick - clock.last_sim_tick >= 10 ==> ticked(clock, sim_tick).last_sim_tick == sim_tick,
        sim_tick - clock.last_sim_tick >= 10 && clock.tick < u64::MAX ==> ticked(
            clock,
            sim_tick,
        ).tick == clock.tick + 1,
{
}

/// Work is done at every fourth tick, but not at the first.
pub proof fn law_work_is_due_every_fourth_tick(now: u64, k: u64, due: bool, later: bool)
    requires
        now > 0,
        1 <= k <= 4,
        now + k <= u64::MAX,
        call_ensures(offline_work_due, (now,), due),
        call_ensures(offline_work_due, ((now + k) as u64,), later),
    ensures
        due && k < 4 ==> !later,
        due && k == 4 ==> later,
{
}

} // verus!
