//! How NPCs that nobody watches get about: from base to base, leg by leg.
use vstd::prelude::*;

use crate::faction::registry::FactionId;
use crate::float_bits::{F32Bits, F32_ONE};
use crate::offline_tier::{OfflineCombatState, OfflineNpc, SPREAD};
use crate::region::RegionId;
use crate::rng::{choice_width, choose_one, seeded, Generator, Trail};
use crate::waypoints::WaypointGraph;

verus! {

/// A base that an NPC may go to.
#[derive(Clone, Copy, Debug)]
pub struct BaseSite {
    pub faction: FactionId,
    pub region: RegionId,
    pub position_2d: [F32Bits; 2],
    /// The waypoint nearest to it.
    pub node: Option<u32>,
    /// How far the NPC is from it, in metres.
    pub distance: F32Bits,
}

/// The base is in the region, belongs to the faction if one is asked for, and
/// can be reached from the waypoint if one is given.
pub open spec fn wanted(
    b: BaseSite,
    region: RegionId,
    faction: Option<FactionId>,
    from: Option<(WaypointGraph, u32)>,
) -> bool {
    &&& b.region == region
    &&& faction is Some ==> b.faction == faction->0
    &&& from matches Some(f) ==> b.node is Some && f.0.connected(f.1, b.node->0)
}

/// The places of the bases that are wanted.
pub open spec fn sites(
    bases: Seq<BaseSite>,
    region: RegionId,
    faction: Option<FactionId>,
    from: Option<(WaypointGraph, u32)>,
) -> Seq<usize>
    decreases bases.len(),
{
    if bases.len() == 0 {
        Seq::empty()
    } else if wanted(bases.last(), region, faction, from) {
        sites(bases.drop_last(), region, faction, from).push((bases.len() - 1) as usize)
    } else {
        sites(bases.drop_last(), region, faction, from)
    }
}

/// The bases that an NPC may choose from: those of its own faction in its
/// region, or where there is none all of the region; of these the ones that it
/// can reach, or where it can reach none all of them.
pub open spec fn target_pool_of(
    bases: Seq<BaseSite>,
    region: RegionId,
    faction: FactionId,
    from: Option<(WaypointGraph, u32)>,
) -> Seq<usize> {
    let of = if sites(bases, region, Some(faction), None).len() > 0 {
        Some(faction)
    } else {
        None
    };
    if from is Some && sites(bases, region, of, from).len() > 0 {
        sites(bases, region, of, from)
    } else {
        sites(bases, region, of, None)
    }
}

/// The graph and the waypoint to start from, where there are both.
pub open spec fn start_of(graph: Option<&WaypointGraph>, start: Option<u32>) -> Option<
    (WaypointGraph, u32),
> {
    if graph is Some && start is Some {
        Some((*(graph->0), start->0))
    } else {
        None
    }
}

/// The places of the bases that are wanted.
fn collect_sites(
    bases: &Vec<BaseSite>,
    region: RegionId,
    faction: Option<FactionId>,
    graph: Option<&WaypointGraph>,
    start: Option<u32>,
) -> (r: Vec<usize>)
    requires
        graph matches Some(g) ==> g.wf(),
    ensures
        r@ == sites(bases@, region, faction, start_of(graph, start)),
        forall|k: int| 0 <= k < r@.len() ==> #[trigger] r@[k] < bases@.len(),
{
    let mut r: Vec<usize> = Vec::new();
    let mut i: usize = 0;
    let ghost from = start_of(graph, start);
    assert(bases@.take(0) =~= Seq::<BaseSite>::empty());
    while i < bases.len()
        invariant
            i <= bases@.len(),
            graph matches Some(g) ==> g.wf(),
            from == start_of(graph, start),
            r@ == sites(bases@.take(i as int), region, faction, from),
            forall|k: int| 0 <= k < r@.len() ==> #[trigger] r@[k] < i,
        decreases bases@.len() - i,
    {
        assert(bases@.take(i + 1).drop_last() =~= bases@.take(i as int));
        let b = bases[i];
        let mut take = b.region == region;
        if let Some(f) = faction {
            take = take && b.faction == f;
        }
        if take {
            if let (Some(g), Some(s)) = (graph, start) {
                take = match b.node {
                    Some(goal) => g.reachable(s, goal),
                    None => false,
                };
            }
        }
        if take {
            r.push(i);
        }
        i += 1;
    }
    assert(bases@.take(i as int) =~= bases@);
    r
}

/// The bases that an NPC may choose from.
pub fn target_pool(
    bases: &Vec<BaseSite>,
    region: RegionId,
    faction: FactionId,
    graph: Option<&WaypointGraph>,
    start: Option<u32>,
) -> (r: Vec<usize>)
    requires
        graph matches Some(g) ==> g.wf(),
    ensures
        r@ == target_pool_of(bases@, region, faction, start_of(graph, start)),
        forall|k: int| 0 <= k < r@.len() ==> #[trigger] r@[k] < bases@.len(),
{
    let own = collect_sites(bases, region, Some(faction), None, None);
    let of: Option<FactionId> = if own.len() > 0 {
        Some(faction)
    } else {
        None
    };
    if graph.is_some() && start.is_some() {
        let reached = collect_sites(bases, region, of, graph, start);
        if reached.len() > 0 {
            return reached;
        }
    }
    collect_sites(bases, region, of, None, None)
}

/// True iff the NPC stands at the base that came up and there are others.
pub fn redraw_needed(pool: &Vec<usize>, bases: &Vec<BaseSite>, first: usize) -> (r: bool)
    requires
        first < bases@.len(),
    ensures
        r == (pool@.len() > 1 && bases@[first as int].distance.less(F32Bits(F32_ONE))),
{
    pool.len() > 1 && bases[first].distance.lt(F32Bits(F32_ONE))
}

/// The first draw, or the second where the NPC stands at the first and there
/// are others.
pub open spec fn settled(
    pool: Seq<usize>,
    bases: Seq<BaseSite>,
    first: usize,
    second: usize,
) -> usize {
    if pool.len() > 1 && bases[first as int].distance.less(F32Bits(F32_ONE)) {
        second
    } else {
        first
    }
}

/// The first draw, or the second where the NPC stands at the first and there
/// are others.
pub fn settle_target(
    pool: &Vec<usize>,
    bases: &Vec<BaseSite>,
    first: usize,
    second: usize,
) -> (r: usize)
    requires
        first < bases@.len(),
    ensures
        r == settled(pool@, bases@, first, second),
{
    if redraw_needed(pool, bases, first) {
        second
    } else {
        first
    }
}

/// Where a choice from the pool falls.
pub open spec fn choice(pool: Seq<usize>, t: Trail) -> usize {
    pool[t.next(choice_width(pool.len() as int), 0, pool.len() - 1)]
}

/// After a choice from the pool.
pub open spec fn after_choice(pool: Seq<usize>, t: Trail) -> Trail {
    t.after(choice_width(pool.len() as int), 0, pool.len() - 1)
}

/// What is chosen from a pool: nothing of nothing; what comes up first, or what
/// comes up second where the NPC stands at the first.
pub open spec fn target_chosen(pool: Seq<usize>, bases: Seq<BaseSite>, t: Trail) -> Option<usize> {
    if pool.len() == 0 {
        None
    } else {
        Some(settled(pool, bases, choice(pool, t), choice(pool, after_choice(pool, t))))
    }
}

/// Chooses one of the bases that an NPC may go to. Where the NPC stands at
/// the one that comes up, chance gets a second try.
pub fn pick_offline_target(
    rng: &mut Generator,
    npc_region: RegionId,
    npc_faction: FactionId,
    bases: &Vec<BaseSite>,
    waypoints: Option<&WaypointGraph>,
    start: Option<u32>,
) -> (r: Option<usize>)
    requires
        waypoints matches Some(g) ==> g.wf(),
    ensures
        ({
            let pool = target_pool_of(bases@, npc_region, npc_faction, start_of(waypoints, start));
            &&& match r {
                Some(i) => i < bases@.len() && pool.contains(i),
                None => pool.len() == 0,
            }
            &&& old(rng)@ matches Some(t) ==> r == target_chosen(pool, bases@, t)
        }),
{
    let pool = target_pool(bases, npc_region, npc_faction, waypoints, start);
    let first: usize = match choose_one(rng, &pool) {
        Some(i) => i,
        None => {
            return None;
        },
    };
    proof {
        let k = choose|k: int| 0 <= k < pool@.len() && pool@[k] == first;
        assert(pool@[k] < bases@.len());
    }
    let second: usize = if redraw_needed(&pool, bases, first) {
        match choose_one(rng, &pool) {
            Some(i) => i,
            None => first,
        }
    } else {
        first
    };
    proof {
        let k = choose|k: int| 0 <= k < pool@.len() && pool@[k] == second;
        assert(pool@[k] < bases@.len());
    }
    Some(settle_target(&pool, bases, first, second))
}

/// Chooses one of the bases that an NPC may go to, from a generator with the
/// given seed: that of [`MoveAction::Seek`].
pub fn seek_target(
    seed: u64,
    npc_region: RegionId,
    npc_faction: FactionId,
    bases: &Vec<BaseSite>,
    waypoints: Option<&WaypointGraph>,
    start: Option<u32>,
) -> (r: Option<usize>)
    requires
        waypoints matches Some(g) ==> g.wf(),
    ensures
        ({
            let pool = target_pool_of(bases@, npc_region, npc_faction, start_of(waypoints, start));
            &&& match r {
                Some(i) => i < bases@.len() && pool.contains(i),
                None => pool.len() == 0,
            }
            &&& r == target_chosen(pool, bases@, Trail::start(seed))
        }),
{
    let mut rng = seeded(seed);
    pick_offline_target(&mut rng, npc_region, npc_faction, bases, waypoints, start)
}

/// An NPC finds nowhere to go only in a region without bases.
pub proof fn law_some_base_is_target(
    bases: Seq<BaseSite>,
    region: RegionId,
    faction: FactionId,
    from: Option<(WaypointGraph, u32)>,
    i: int,
)
    requires
        0 <= i < bases.len(),
        bases[i].region == region,
    ensures
        target_pool_of(bases, region, faction, from).len() > 0,
{
    lemma_site_found(bases, region, None, i);
}

/// A base that is wanted is found.
proof fn lemma_site_found(
    bases: Seq<BaseSite>,
    region: RegionId,
    faction: Option<FactionId>,
    i: int,
)
    requires
        0 <= i < bases.len(),
        wanted(bases[i], region, faction, None),
    ensures
        sites(bases, region, faction, None).len() > 0,
    decreases bases.len(),
{
    if i < bases.len() - 1 {
        lemma_site_found(bases.drop_last(), region, faction, i);
    }
}

/// An NPC never leaves its region, and while its faction has a base there it
/// goes to none of another's.
pub proof fn law_targets_stay_home(
    bases: Seq<BaseSite>,
    region: RegionId,
    faction: FactionId,
    from: Option<(WaypointGraph, u32)>,
    k: int,
)
    requires
        bases.len() <= usize::MAX,
        0 <= k < target_pool_of(bases, region, faction, from).len(),
    ensures
        ({
            let pool = target_pool_of(bases, region, faction, from);
            &&& pool[k] < bases.len()
            &&& bases[pool[k] as int].region == region
            &&& sites(bases, region, Some(faction), None).len() > 0 ==> bases[pool[k] as int].faction
                == faction
        }),
{
    let of = if sites(bases, region, Some(faction), None).len() > 0 {
        Some(faction)
    } else {
        None
    };
    if from is Some && sites(bases, region, of, from).len() > 0 {
        lemma_sites_wanted(bases, region, of, from, k);
    } else {
        lemma_sites_wanted(bases, region, of, None, k);
    }
}

/// What is found is wanted.
proof fn lemma_sites_wanted(
    bases: Seq<BaseSite>,
    region: RegionId,
    faction: Option<FactionId>,
    from: Option<(WaypointGraph, u32)>,
    k: int,
)
    requires
        bases.len() <= usize::MAX,
        0 <= k < sites(bases, region, faction, from).len(),
    ensures
        sites(bases, region, faction, from)[k] < bases.len(),
        wanted(
            bases[sites(bases, region, faction, from)[k] as int],
            region,
            faction,
            from,
        ),
    decreases bases.len(),
{
    let rest = bases.drop_last();
    if k < sites(rest, region, faction, from).len() {
        lemma_sites_wanted(rest, region, faction, from, k);
    }
}

/// What an NPC does at a tick of the slow clock.
#[derive(Clone, Copy, Debug, PartialEq, Eq, Structural)]
pub enum MoveAction {
    /// It fights, and stays.
    Hold,
    /// It needs somewhere to go; chance is seeded with the number.
    Seek { seed: u64 },
    /// It gets to where it was going.
    Arrive,
    /// It is on its way, `elapsed` of `total` ticks along.
    Glide { elapsed: u64, total: u64 },
}

/// What an NPC does at a tick of the slow clock.
pub open spec fn action_for(npc: OfflineNpc, now: u64) -> MoveAction {
    if npc.combat_state is Engaged {
        MoveAction::Hold
    } else if npc.target_2d is None {
        MoveAction::Seek {
            seed: (((npc.id.0 * SPREAD) % 0x1_0000_0000_0000_0000 + now)
                % 0x1_0000_0000_0000_0000) as u64,
        }
    } else if now >= npc.arrival_offline_tick {
        MoveAction::Arrive
    } else {
        MoveAction::Glide {
            elapsed: if now > npc.travel_start_offline_tick {
                (now - npc.travel_start_offline_tick) as u64
            } else {
                0
            },
            total: if npc.arrival_offline_tick > npc.travel_start_offline_tick {
                (npc.arrival_offline_tick - npc.travel_start_offline_tick) as u64
            } else {
                1
            },
        }
    }
}

/// What an NPC does at a tick of the slow clock.
pub fn movement_for(npc: &OfflineNpc, now_offline: u64) -> (r: MoveAction)
    ensures
        r == action_for(*npc, now_offline),
{
    if let OfflineCombatState::Engaged { .. } = npc.combat_state {
        return MoveAction::Hold;
    }
    if npc.target_2d.is_none() {
        return MoveAction::Seek { seed: npc.id.0.wrapping_mul(SPREAD).wrapping_add(now_offline) };
    }
    if now_offline >= npc.arrival_offline_tick {
        return MoveAction::Arrive;
    }
    let total: u64 = if npc.arrival_offline_tick > npc.travel_start_offline_tick {
        npc.arrival_offline_tick - npc.travel_start_offline_tick
    } else {
        1
    };
    let elapsed: u64 = if now_offline > npc.travel_start_offline_tick {
        now_offline - npc.travel_start_offline_tick
    } else {
        0
    };
    MoveAction::Glide { elapsed, total }
}

/// The NPC without anywhere to go.
pub open spec fn stopped(was: OfflineNpc, now: OfflineNpc) -> bool {
    &&& now.target_2d is None
    &&& now.waypoint_chain@ == Seq::<u32>::empty()
    &&& now == (OfflineNpc {
        target_2d: now.target_2d,
        waypoint_chain: now.waypoint_chain,
        waypoint_chain_idx: 0,
        ..was
    })
}

/// An NPC that fights drops where it was going and stays where it is.
pub fn hold(npc: &mut OfflineNpc)
    ensures
        old(npc).target_2d is None ==> *final(npc) == *old(npc),
        old(npc).target_2d is Some ==> stopped(*old(npc), *final(npc)),
{
    if npc.target_2d.is_some() {
        npc.target_2d = None;
        npc.waypoint_chain = Vec::new();
        npc.waypoint_chain_idx = 0;
    }
}

/// An NPC gets to where it was going.
pub fn arrive(npc: &mut OfflineNpc)
    requires
        old(npc).target_2d is Some,
    ensures
        final(npc).position_2d == old(npc).target_2d->0,
        stopped((OfflineNpc { position_2d: old(npc).target_2d->0, ..*old(npc) }), *final(npc)),
{
    if let Some(target) = npc.target_2d {
        npc.position_2d = target;
    }
    npc.target_2d = None;
    npc.waypoint_chain = Vec::new();
    npc.waypoint_chain_idx = 0;
}

/// An NPC on its way is at `position`.
pub fn glide(npc: &mut OfflineNpc, position: [F32Bits; 2])
    ensures
        *final(npc) == (OfflineNpc { position_2d: position, ..*old(npc) }),
{
    npc.position_2d = position;
}

/// An NPC sets out: the leg takes the given number of ticks of the slow
/// clock, along the waypoints.
pub fn begin_leg(
    npc: &mut OfflineNpc,
    target: [F32Bits; 2],
    chain: Vec<u32>,
    leg_ticks: u64,
    now_offline: u64,
)
    ensures
        *final(npc) == (OfflineNpc {
            travel_start_2d: old(npc).position_2d,
            travel_start_offline_tick: now_offline,
            target_2d: Some(target),
            arrival_offline_tick: (if now_offline + leg_ticks > u64::MAX {
                u64::MAX
            } else {
                (now_offline + leg_ticks) as u64
            }),
            waypoint_chain: chain,
            waypoint_chain_idx: 0,
            ..*old(npc)
        }),
{
    npc.travel_start_2d = npc.position_2d;
    npc.travel_start_offline_tick = now_offline;
    npc.target_2d = Some(target);
    npc.arrival_offline_tick = now_offline.saturating_add(leg_ticks);
    npc.waypoint_chain = chain;
    npc.waypoint_chain_idx = 0;
}

/// True iff a leg goes along waypoints: both its ends have one, and not the
/// same. Else it is a straight line.
pub fn wants_chain(start: Option<u32>, goal: Option<u32>) -> (r: bool)
    ensures
        r == (start is Some && goal is Some && start->0 != goal->0),
{
    match (start, goal) {
        (Some(a), Some(b)) => a != b,
        _ => false,
    }
}

/// An NPC that sets out is on its way until it arrives, and at every tick in
/// between it is a part of the way along.
pub proof fn law_legs_progress(npc: OfflineNpc, set_out: u64, leg: u64, now: u64)
    requires
        !(npc.combat_state is Engaged),
        npc.target_2d is Some,
        npc.travel_start_offline_tick == set_out,
        npc.arrival_offline_tick == set_out + leg,
        set_out <= now,
        leg > 0,
    ensures
        action_for(npc, now) is Arrive <==> now >= set_out + leg,
        now < set_out + leg ==> action_for(npc, now) == (MoveAction::Glide {
            elapsed: (now - set_out) as u64,
            total: leg,
        }),
{
}

/// The NPC at place `a` comes before that at place `b`: by number, and then
/// by place.
pub open spec fn works_before(npcs: Seq<OfflineNpc>, a: int, b: int) -> bool {
    npcs[a].id.0 < npcs[b].id.0 || (npcs[a].id.0 == npcs[b].id.0 && a < b)
}

/// Place `p` occurs in `order`.
pub open spec fn listed_place(order: Seq<usize>, p: int) -> bool {
    exists|k: int| 0 <= k < order.len() && #[trigger] order[k] == p
}

/// The places of the first `n` NPCs that are in the region, by number.
pub open spec fn in_work_order(
    npcs: Seq<OfflineNpc>,
    region: RegionId,
    order: Seq<usize>,
    n: int,
) -> bool {
    &&& forall|k: int|
        0 <= k < order.len() ==> (#[trigger] order[k]) < n && npcs[order[k] as int].region == region
    &&& forall|j: int, k: int|
        0 <= j < k < order.len() ==> works_before(
            npcs,
            #[trigger] order[j] as int,
            #[trigger] order[k] as int,
        )
    &&& forall|p: int|
        0 <= p < n && (#[trigger] npcs[p]).region == region ==> listed_place(order, p)
}

/// The places of the NPCs of a region, by number.
pub fn work_order(npcs: &Vec<OfflineNpc>, region: RegionId) -> (r: Vec<usize>)
    ensures
        in_work_order(npcs@, region, r@, npcs@.len() as int),
{
    let mut order: Vec<usize> = Vec::new();
    let mut i: usize = 0;
    while i < npcs.len()
        invariant
            i <= npcs@.len(),
            in_work_order(npcs@, region, order@, i as int),
        decreases npcs@.len() - i,
    {
        if npcs[i].region == region {
            let ghost before = order@;
            let id: u64 = npcs[i].id.0;
            let mut at: usize = 0;
            while at < order.len() && npcs[order[at]].id.0 <= id
                invariant
                    at <= order@.len(),
                    order@ == before,
                    i < npcs@.len(),
                    id == npcs@[i as int].id.0,
                    in_work_order(npcs@, region, before, i as int),
                    forall|k: int| 0 <= k < at ==> npcs@[#[trigger] before[k] as int].id.0 <= id,
                decreases order@.len() - at,
            {
                at += 1;
            }
            order.insert(at, i);
            proof {
                lemma_work_slot(npcs@, region, before, i as int, at as int);
            }
        }
        i += 1;
    }
    order
}

/// A later place goes in before the first with a higher number.
proof fn lemma_work_slot(
    npcs: Seq<OfflineNpc>,
    region: RegionId,
    order: Seq<usize>,
    n: int,
    at: int,
)
    requires
        0 <= n < npcs.len() <= usize::MAX,
        in_work_order(npcs, region, order, n),
        npcs[n].region == region,
        0 <= at <= order.len(),
        forall|k: int| 0 <= k < at ==> npcs[#[trigger] order[k] as int].id.0 <= npcs[n].id.0,
        at < order.len() ==> npcs[order[at] as int].id.0 > npcs[n].id.0,
    ensures
        in_work_order(npcs, region, order.insert(at, n as usize), n + 1),
{
    let after = order.insert(at, n as usize);
    assert forall|j: int, k: int| 0 <= j < k < after.len() implies works_before(
        npcs,
        #[trigger] after[j] as int,
        #[trigger] after[k] as int,
    ) by {
        let x = if j < at {
            j
        } else {
            j - 1
        };
        let y = if k < at {
            k
        } else {
            k - 1
        };
        if j != at {
            assert(after[j] == order[x]);
        }
        if k != at {
            assert(after[k] == order[y]);
        }
        if j == at && y > at {
            assert(works_before(npcs, order[at] as int, order[y] as int));
        }
    }
    assert forall|p: int| 0 <= p < n + 1 && (#[trigger] npcs[p]).region == region implies listed_place(
        after,
        p,
    ) by {
        if p == n {
            assert(after[at] == p);
        } else {
            assert(listed_place(order, p));
            let k = choose|k: int| 0 <= k < order.len() && #[trigger] order[k] == p;
            if k < at {
                assert(after[k] == p);
            } else {
                assert(after[k + 1] == p);
            }
        }
    }
    assert forall|k: int| 0 <= k < after.len() implies (#[trigger] after[k]) < n + 1
        && npcs[after[k] as int].region == region by {
        if k < at {
            assert(after[k] == order[k]);
        } else if k > at {
            assert(after[k] == order[k - 1]);
        }
    }
}

/// The NPC after what it does at a tick of the slow clock, as far as that is
/// settled at once: one that fights stays, and one that gets to where it was
/// going is there.
pub open spec fn moved_at_once(was: OfflineNpc, now: OfflineNpc, tick: u64) -> bool {
    match action_for(was, tick) {
        MoveAction::Hold => if was.target_2d is Some {
            stopped(was, now)
        } else {
            now == was
        },
        MoveAction::Arrive => stopped(
            OfflineNpc { position_2d: was.target_2d->0, ..was },
            now,
        ),
        _ => now == was,
    }
}

/// What the NPCs at the places do.
pub open spec fn actions_of(npcs: Seq<OfflineNpc>, order: Seq<usize>, tick: u64, n: int) -> Seq<
    (usize, MoveAction),
>
    decreases n,
{
    if n <= 0 {
        Seq::empty()
    } else {
        actions_of(npcs, order, tick, n - 1).push(
            (order[n - 1], action_for(npcs[order[n - 1] as int], tick)),
        )
    }
}

/// Moves the NPCs of a region, by number: what can be settled at once is, and
/// for each NPC it is told what it does, so that who needs somewhere to go is
/// given it and who is on the way is moved along.
pub fn offline_movement(npcs: &mut Vec<OfflineNpc>, region: RegionId, now_offline: u64) -> (r: Vec<
    (usize, MoveAction),
>)
    ensures
        exists|order: Seq<usize>| #[trigger]
            in_work_order(old(npcs)@, region, order, old(npcs)@.len() as int) && r@ == actions_of(
                old(npcs)@,
                order,
                now_offline,
                order.len() as int,
            ),
        final(npcs)@.len() == old(npcs)@.len(),
        forall|i: int|
            #![trigger final(npcs)@[i]]
            0 <= i < old(npcs)@.len() ==> if old(npcs)@[i].region == region {
                moved_at_once(old(npcs)@[i], final(npcs)@[i], now_offline)
            } else {
                final(npcs)@[i] == old(npcs)@[i]
            },
{
    let ghost before = npcs@;
    let order = work_order(npcs, region);
    let mut out: Vec<(usize, MoveAction)> = Vec::new();
    let mut k: usize = 0;
    while k < order.len()
        invariant
            k <= order@.len(),
            npcs@.len() == before.len(),
            in_work_order(before, region, order@, before.len() as int),
            out@ == actions_of(before, order@, now_offline, k as int),
            forall|i: int|
                #![trigger npcs@[i]]
                0 <= i < before.len() ==> if exists|j: int| 0 <= j < k && #[trigger] order@[j] == i {
                    moved_at_once(before[i], npcs@[i], now_offline)
                } else {
                    npcs@[i] == before[i]
                },
        decreases order@.len() - k,
    {
        let at = order[k];
        proof {
            assert(order@[k as int] < before.len());
            assert(!(exists|j: int| 0 <= j < k && #[trigger] order@[j] == at)) by {
                if exists|j: int| 0 <= j < k && #[trigger] order@[j] == at {
                    let j = choose|j: int| 0 <= j < k && #[trigger] order@[j] == at;
                    assert(works_before(before, order@[j] as int, order@[k as int] as int));
                }
            }
            assert(npcs@[at as int] == before[at as int]);
        }
        let ghost was = npcs@;
        let action = movement_for(&npcs[at], now_offline);
        match action {
            MoveAction::Hold => {
                hold(&mut npcs[at]);
            },
            MoveAction::Arrive => {
                arrive(&mut npcs[at]);
            },
            _ => {},
        }
        out.push((at, action));
        proof {
            assert(moved_at_once(before[at as int], npcs@[at as int], now_offline));
            assert forall|i: int| #![trigger npcs@[i]] 0 <= i < before.len() implies if exists|
                j: int,
            |
                0 <= j < k + 1 && #[trigger] order@[j] == i {
                moved_at_once(before[i], npcs@[i], now_offline)
            } else {
                npcs@[i] == before[i]
            } by {
                if i == at {
                    assert(order@[k as int] == i);
                } else {
                    assert(npcs@[i] == was[i]);
                    if exists|j: int| 0 <= j < k && #[trigger] order@[j] == i {
                        let j = choose|j: int| 0 <= j < k && #[trigger] order@[j] == i;
                        assert(order@[j] == i);
                    }
                }
            }
        }
        k += 1;
    }
    proof {
        assert forall|i: int| #![trigger npcs@[i]] 0 <= i < before.len() implies if before[i].region
            == region {
            moved_at_once(before[i], npcs@[i], now_offline)
        } else {
            npcs@[i] == before[i]
        } by {
            let whole = before[i];
            if before[i].region == region {
                assert(listed_place(order@, i));
                let j = choose|j: int| 0 <= j < order@.len() && #[trigger] order@[j] == i;
                assert(order@[j] == i);
            } else if exists|j: int| 0 <= j < k && #[trigger] order@[j] == i {
                let j = choose|j: int| 0 <= j < k && #[trigger] order@[j] == i;
                assert(before[order@[j] as int].region == region);
            }
        }
        assert(in_work_order(before, region, order@, before.len() as int));
    }
    out
}

/// An NPC that fights does not move.
pub proof fn law_fighters_hold_still(was: OfflineNpc, now: OfflineNpc, tick: u64)
    requires
        was.combat_state is Engaged,
        moved_at_once(was, now, tick),
    ensures
        now.position_2d == was.position_2d,
        now.target_2d is None,
{
}

/// A base is in the list of sites iff it is wanted.
proof fn lemma_sites_complete(
    bases: Seq<BaseSite>,
    region: RegionId,
    faction: Option<FactionId>,
    from: Option<(WaypointGraph, u32)>,
    i: int,
)
    requires
        bases.len() <= usize::MAX,
        0 <= i < bases.len(),
    ensures
        sites(bases, region, faction, from).contains(i as usize) <==> wanted(
            bases[i],
            region,
            faction,
            from,
        ),
    decreases bases.len(),
{
    let all = sites(bases, region, faction, from);
    let init = bases.drop_last();
    let before = sites(init, region, faction, from);
    if all.contains(i as usize) {
        let k = choose|k: int| 0 <= k < all.len() && all[k] == i as usize;
        lemma_sites_wanted(bases, region, faction, from, k);
    }
    if wanted(bases[i], region, faction, from) {
        if i < bases.len() - 1 {
            lemma_sites_complete(init, region, faction, from, i);
            let k = choose|k: int| 0 <= k < before.len() && before[k] == i as usize;
            assert(all[k] == i as usize);
        } else {
            assert(all.last() == i as usize);
        }
    }
}

/// Which bases an NPC may choose from: only ones in its region; only its own
/// faction's where that has one there; and where the ways are known, only ones
/// that it can reach, as long as it can reach any of these. All that are so are
/// among them.
pub proof fn law_which_bases_are_targets(
    bases: Seq<BaseSite>,
    region: RegionId,
    faction: FactionId,
    graph: WaypointGraph,
    start: u32,
    i: int,
    own: int,
    near: int,
)
    requires
        bases.len() <= usize::MAX,
        0 <= i < bases.len(),
        0 <= own < bases.len(),
        0 <= near < bases.len(),
    ensures
        ({
            let reach = |k: int|
                bases[k].node is Some && graph.connected(start, bases[k].node->0);
            let home = |k: int| bases[k].region == region && bases[k].faction == faction;
            let blind = target_pool_of(bases, region, faction, None);
            let pool = target_pool_of(bases, region, faction, Some((graph, start)));
            &&& home(own) ==> (blind.contains(i as usize) <==> home(i))
            &&& (forall|k: int|
                0 <= k < bases.len() ==> !((#[trigger] bases[k]).region == region
                    && bases[k].faction == faction)) ==> (blind.contains(i as usize)
                <==> bases[i].region == region)
            &&& blind.contains(near as usize) && reach(near) ==> (pool.contains(i as usize)
                <==> blind.contains(i as usize) && reach(i))
            &&& (forall|k: int|
                0 <= k < bases.len() && (#[trigger] bases[k]).region == region ==> !(bases[k].node
                    is Some && graph.connected(start, bases[k].node->0))) ==> pool == blind
        }),
{
    let from = Some((graph, start));
    let mine = sites(bases, region, Some(faction), None);
    assert forall|k: int| 0 <= k < bases.len() implies (#[trigger] bases[k]).region == bases[k].region
        && (mine.contains(k as usize) <==> wanted(bases[k], region, Some(faction), None)) by {
        lemma_sites_complete(bases, region, Some(faction), None, k);
    }
    if mine.len() > 0 {
        lemma_sites_wanted(bases, region, Some(faction), None, 0);
        assert(bases[mine[0] as int].faction == faction);
    }
    let of = if mine.len() > 0 {
        Some(faction)
    } else {
        None
    };
    lemma_sites_complete(bases, region, of, None, i);
    lemma_sites_complete(bases, region, of, None, near);
    lemma_sites_complete(bases, region, of, from, i);
    lemma_sites_complete(bases, region, of, from, near);
    lemma_sites_complete(bases, region, Some(faction), None, own);
    let reached = sites(bases, region, of, from);
    if reached.len() > 0 {
        lemma_sites_wanted(bases, region, of, from, 0);
        assert(bases[reached[0] as int].region == region);
    }
}

/// Whoever stands less than a metre from what came up first goes to what came
/// up second, if there is more than one to choose from; all others go to the
/// first.
pub proof fn law_nobody_sets_out_for_where_they_are(
    pool: Seq<usize>,
    bases: Seq<BaseSite>,
    first: usize,
    second: usize,
)
    ensures
        pool.len() > 1 && bases[first as int].distance.less(F32Bits(0x3f80_0000)) ==> settled(
            pool,
            bases,
            first,
            second,
        ) == second,
        pool.len() <= 1 || !bases[first as int].distance.less(F32Bits(0x3f80_0000)) ==> settled(
            pool,
            bases,
            first,
            second,
        ) == first,
{
}

/// Whoever fights holds; whoever has nowhere to go seeks; and only those on
/// their way arrive, once the time has come.
pub proof fn law_what_an_npc_does(npc: OfflineNpc, now: u64)
    ensures
        npc.combat_state is Engaged <==> action_for(npc, now) is Hold,
        action_for(npc, now) is Seek <==> !(npc.combat_state is Engaged) && npc.target_2d is None,
        action_for(npc, now) is Arrive <==> !(npc.combat_state is Engaged) && npc.target_2d is Some && now
            >= npc.arrival_offline_tick,
        action_for(npc, now) matches MoveAction::Glide { elapsed, total } ==> {
            &&& total >= 1
            &&& npc.travel_start_offline_tick <= now ==> elapsed < total && elapsed
                == now - npc.travel_start_offline_tick
            &&& npc.travel_start_offline_tick > now ==> elapsed == 0
        },
        action_for(npc, now) matches MoveAction::Seek { seed } ==> seed == (npc.id.0
            * 0x9E37_79B9_7F4A_7C15 + now) % 0x1_0000_0000_0000_0000,
{
    vstd::arithmetic::div_mod::lemma_add_mod_noop_right(
        now as int,
        npc.id.0 * 0x9E37_79B9_7F4A_7C15,
        0x1_0000_0000_0000_0000,
    );
}

/// Whoever arrives is where they were going and has nowhere to go any more;
/// whoever neither arrives nor fights is not moved at once.
pub proof fn law_arrivals(was: OfflineNpc, now: OfflineNpc, tick: u64)
    requires
        moved_at_once(was, now, tick),
    ensures
        action_for(was, tick) is Arrive ==> Some(now.position_2d) == was.target_2d
            && now.target_2d is None && now.waypoint_chain@.len() == 0 && now.waypoint_chain_idx
            == 0,
        !(action_for(was, tick) is Arrive) ==> now.position_2d == was.position_2d,
        action_for(was, tick) is Glide || action_for(was, tick) is Seek ==> now == was,
        now.id == was.id && now.faction == was.faction && now.health_class == was.health_class
            && now.combat_state == was.combat_state && now.stats == was.stats,
{
}

/// What is done is listed in the order in which the NPCs take their turns.
pub proof fn law_actions_are_listed_in_order(
    npcs: Seq<OfflineNpc>,
    order: Seq<usize>,
    tick: u64,
    n: int,
    k: int,
)
    requires
        0 <= k < n <= order.len(),
    ensures
        actions_of(npcs, order, tick, n).len() == n,
        actions_of(npcs, order, tick, n)[k] == (
            order[k],
            action_for(npcs[order[k] as int], tick),
        ),
    decreases n,
{
    if n > 1 {
        law_actions_are_listed_in_order(npcs, order, tick, n - 1, if k < n - 1 { k } else { 0 });
    } else {
        assert(actions_of(npcs, order, tick, 0).len() == 0);
    }
}

/// NPCs take their turns by their numbers, and each of the region has one turn.
pub proof fn law_turns_go_by_number(
    npcs: Seq<OfflineNpc>,
    region: RegionId,
    order: Seq<usize>,
    j: int,
    k: int,
    p: int,
)
    requires
        in_work_order(npcs, region, order, npcs.len() as int),
        0 <= j < k < order.len(),
        0 <= p < npcs.len(),
    ensures
        npcs[order[j] as int].id.0 <= npcs[order[k] as int].id.0,
        order[j] != order[k],
        npcs[p].region == region <==> exists|q: int| 0 <= q < order.len() && #[trigger] order[q] == p,
{
    assert(works_before(npcs, order[j] as int, order[k] as int));
    if npcs[p].region == region {
        assert(listed_place(order, p));
    }
}

/// Nothing is chosen of nothing; what comes up first of a pool is what a draw
/// over its places gives, and what comes up second what the next draw gives.
pub proof fn law_targets_are_drawn(pool: Seq<usize>, bases: Seq<BaseSite>, t: Trail)
    requires
        pool.len() <= u32::MAX,
    ensures
        pool.len() == 0 <==> target_chosen(pool, bases, t) is None,
        pool.len() > 0 ==> {
            let most = pool.len() - 1;
            let first = pool[t.next(32, 0, most)];
            let second = pool[t.after(32, 0, most).next(32, 0, most)];
            target_chosen(pool, bases, t) == Some(settled(pool, bases, first, second))
        },
{
}

/// The ways count only where there is a graph and a waypoint to start from.
pub proof fn law_ways_need_a_start(graph: WaypointGraph, start: u32)
    ensures
        start_of(Some(&graph), Some(start)) == Some((graph, start)),
        start_of(None, Some(start)) is None,
        start_of(Some(&graph), None) is None,
{
}

} // verus!
