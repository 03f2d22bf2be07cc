//! Zones that squads are assigned to, so that they spread over a region.
use vstd::prelude::*;

use crate::idmap::{rising, IdMap};
use crate::region::RegionId;
use crate::rng::{draw_below_u32, Generator, Trail};

verus! {

/// Half the number of zones along a region's side.
pub const GRID_HALF: i32 = 4;

/// One zone of a region.
#[derive(Clone, Copy, Debug, PartialEq, Eq, Hash, Structural)]
pub struct ZoneId {
    pub region: RegionId,
    pub x: i32,
    pub z: i32,
}

/// Which zone each squad is assigned to.
#[derive(Debug)]
pub struct PatrolZones {
    assignments: IdMap<ZoneId>,
}

/// The squads in the zone.
pub open spec fn zone_squads(squads: Map<u64, ZoneId>, zone: ZoneId) -> Set<u64> {
    squads.dom().filter(|k: u64| squads[k] == zone)
}

/// How many squads are in the zone.
pub open spec fn squads_in(squads: Map<u64, ZoneId>, zone: ZoneId) -> nat {
    zone_squads(squads, zone).len()
}

/// The zone is one of the region's.
pub open spec fn zone_of_region(region: RegionId, zone: ZoneId) -> bool {
    zone.region == region && -GRID_HALF <= zone.x < GRID_HALF && -GRID_HALF <= zone.z < GRID_HALF
}

/// The best zone of those looked at so far.
#[derive(Clone, Copy, Debug, PartialEq, Eq, Structural)]
pub struct ZonePick {
    pub best: ZoneId,
    pub count: u32,
    /// How many zones have that count.
    pub candidates: u32,
}

impl ZonePick {
    /// The pick after one zone more: a zone with fewer squads replaces the
    /// best; one with as many does where the draw is zero.
    pub open spec fn offered(self, zone: ZoneId, count: u32, draw: u32) -> ZonePick {
        if count < self.count {
            ZonePick { best: zone, count, candidates: 1 }
        } else if count == self.count {
            ZonePick {
                best: if draw == 0 {
                    zone
                } else {
                    self.best
                },
                candidates: (self.candidates + 1) as u32,
                ..self
            }
        } else {
            self
        }
    }

    /// Looks at one zone more.
    pub fn offer(self, zone: ZoneId, count: u32, draw: u32) -> (r: Self)
        requires
            self.candidates < u32::MAX,
        ensures
            r == self.offered(zone, count, draw),
    {
        if count < self.count {
            ZonePick { best: zone, count, candidates: 1 }
        } else if count == self.count {
            let best = if draw == 0 {
                zone
            } else {
                self.best
            };
            ZonePick { best, count: self.count, candidates: self.candidates + 1 }
        } else {
            self
        }
    }
}

/// The `n`-th zone of a region, row by row.
pub open spec fn zone_numbered(region: RegionId, n: int) -> ZoneId {
    ZoneId { region, x: (n / 8 - GRID_HALF) as i32, z: (n % 8 - GRID_HALF) as i32 }
}

/// The best of the first `n` zones of a region, by a generator in the given
/// state, and its state then: it draws wherever a zone has as many squads as
/// the best.
pub open spec fn scanned(
    squads: Map<u64, ZoneId>,
    region: RegionId,
    t: Trail,
    n: int,
) -> (ZonePick, Trail)
    decreases n,
{
    if n <= 0 {
        (ZonePick { best: ZoneId { region, x: 0, z: 0 }, count: u32::MAX, candidates: 0 }, t)
    } else {
        let (pick, now) = scanned(squads, region, t, n - 1);
        let zone = zone_numbered(region, n - 1);
        let count = squads_in(squads, zone) as u32;
        if count == pick.count {
            let most = pick.candidates as int;
            (pick.offered(zone, count, now.next(32, 0, most) as u32), now.after(32, 0, most))
        } else {
            (pick.offered(zone, count, 0), now)
        }
    }
}

impl View for PatrolZones {
    type V = Map<u64, ZoneId>;

    closed spec fn view(&self) -> Map<u64, ZoneId> {
        self.assignments@
    }
}

impl Default for PatrolZones {
    /// No squad is assigned.
    fn default() -> (r: Self)
        ensures
            r@ == Map::<u64, ZoneId>::empty(),
    {
        PatrolZones { assignments: IdMap::new() }
    }
}

impl PatrolZones {
    /// Assigns a squad to a zone, and out of the one it was in.
    pub fn assign(&mut self, group_id: u64, zone: ZoneId)
        ensures
            final(self)@ == old(self)@.insert(group_id, zone),
    {
        let _ = self.assignments.insert(group_id, zone);
    }

    /// Takes a squad out of its zone.
    pub fn release(&mut self, group_id: u64)
        ensures
            final(self)@ == old(self)@.remove(group_id),
    {
        let _ = self.assignments.remove(group_id);
    }

    /// The zone of a squad.
    pub fn zone_for(&self, group_id: u64) -> (r: Option<ZoneId>)
        ensures
            match r {
                Some(z) => self@.contains_key(group_id) && self@[group_id] == z,
                None => !self@.contains_key(group_id),
            },
    {
        match self.assignments.get(group_id) {
            Some(z) => Some(*z),
            None => None,
        }
    }

    /// How many squads are in the zone.
    pub fn squad_count_in(&self, zone: &ZoneId) -> (r: u32)
        requires
            self@.dom().len() <= u32::MAX,
        ensures
            r == squads_in(self@, *zone),
    {
        let n = self.assignments.len();
        let ghost keys = self.assignments.key_list();
        let ghost m = self.assignments@;
        let mut count: u32 = 0;
        let mut i: usize = 0;
        let ghost mut found: Set<u64> = Set::empty();
        while i < n
            invariant
                i <= n <= u32::MAX,
                n == keys.len(),
                keys == self.assignments.key_list(),
                m == self.assignments@,
                rising(keys),
                count <= i,
                found.finite(),
                count == found.len(),
                forall|k: u64| #[trigger]
                    found.contains(k) <==> m[k] == *zone && keys.take(i as int).contains(k),
            decreases n - i,
        {
            let ghost k = keys[i as int];
            assert(!found.contains(k)) by {
                if keys.take(i as int).contains(k) {
                    let j = choose|j: int| 0 <= j < i && keys.take(i as int)[j] == k;
                    assert(keys[j] < keys[i as int]);
                }
            }
            let ghost was = found;
            if *self.assignments.value_at(i) == *zone {
                count += 1;
                proof {
                    found = found.insert(k);
                }
            }
            proof {
                let upto = keys.take(i as int);
                let longer = keys.take(i + 1);
                assert forall|q: u64| #[trigger] found.contains(q) <==> m[q] == *zone
                    && longer.contains(q) by {
                    if longer.contains(q) {
                        let j = choose|j: int| 0 <= j < longer.len() && longer[j] == q;
                        if j < i {
                            assert(upto[j] == q);
                        }
                    }
                    if upto.contains(q) {
                        let j = choose|j: int| 0 <= j < upto.len() && upto[j] == q;
                        assert(longer[j] == q);
                    }
                    assert(longer[i as int] == k);
                    assert(was.contains(q) <==> m[q] == *zone && upto.contains(q));
                }
            }
            i += 1;
        }
        proof {
            assert(keys.take(i as int) =~= keys);
            assert(zone_squads(m, *zone) =~= found);
        }
        count
    }

    /// One of the zones of the region with the fewest squads. Which one of
    /// them is left to chance.
    pub fn pick_zone(&self, region: RegionId, rng: &mut Generator) -> (r: ZoneId)
        requires
            self@.dom().len() < u32::MAX,
        ensures
            zone_of_region(region, r),
            forall|z: ZoneId| #[trigger]
                zone_of_region(region, z) ==> squads_in(self@, r) <= squads_in(self@, z),
            old(rng)@ matches Some(t) ==> r == scanned(self@, region, t, 64).0.best,
    {
        let ghost m = self@;
        let n = self.assignments.len();
        let mut pick = ZonePick {
            best: ZoneId { region, x: 0, z: 0 },
            count: u32::MAX,
            candidates: 0,
        };
        let mut x: i32 = -GRID_HALF;
        while x < GRID_HALF
            invariant
                -GRID_HALF <= x <= GRID_HALF,
                m == self@,
                m.dom().len() < u32::MAX,
                m.dom().finite(),
                pick.candidates <= 8 * (x + GRID_HALF),
                old(rng)@ matches Some(t) ==> rng@ is Some && scanned(
                    m,
                    region,
                    t,
                    8 * (x + GRID_HALF),
                ) == (pick, rng@->0),
                x == -GRID_HALF ==> pick.count == u32::MAX,
                x > -GRID_HALF ==> pick.count < u32::MAX && zone_of_region(region, pick.best)
                    && pick.count == squads_in(m, pick.best),
                forall|w: ZoneId| #[trigger]
                    zone_of_region(region, w) && w.x < x ==> pick.count <= squads_in(m, w),
            decreases GRID_HALF - x,
        {
            let mut z: i32 = -GRID_HALF;
            while z < GRID_HALF
                invariant
                    -GRID_HALF <= x < GRID_HALF,
                    -GRID_HALF <= z <= GRID_HALF,
                    m == self@,
                    m.dom().len() < u32::MAX,
                    m.dom().finite(),
                    pick.candidates <= 8 * (x + GRID_HALF) + (z + GRID_HALF),
                    old(rng)@ matches Some(t) ==> rng@ is Some && scanned(
                        m,
                        region,
                        t,
                        8 * (x + GRID_HALF) + (z + GRID_HALF),
                    ) == (pick, rng@->0),
                    x == -GRID_HALF && z == -GRID_HALF ==> pick.count == u32::MAX,
                    x > -GRID_HALF || z > -GRID_HALF ==> pick.count < u32::MAX && zone_of_region(
                        region,
                        pick.best,
                    ) && pick.count == squads_in(m, pick.best),
                    forall|w: ZoneId| #[trigger]
                        zone_of_region(region, w) && (w.x < x || (w.x == x && w.z < z))
                            ==> pick.count <= squads_in(m, w),
                decreases GRID_HALF - z,
            {
                let zone = ZoneId { region, x, z };
                let count = self.squad_count_in(&zone);
                proof {
                    vstd::set_lib::lemma_len_subset(zone_squads(m, zone), m.dom());
                    assert(zone_of_region(region, zone));
                    let k = 8 * (x + GRID_HALF) + (z + GRID_HALF);
                    assert(k / 8 == x + GRID_HALF && k % 8 == z + GRID_HALF);
                    assert(zone_numbered(region, k) == zone);
                }
                let ghost was = pick;
                let draw: u32 = if count == pick.count {
                    draw_below_u32(rng, pick.candidates + 1)
                } else {
                    0
                };
                pick = pick.offer(zone, count, draw);
                proof {
                    assert forall|w: ZoneId| #[trigger]
                        zone_of_region(region, w) && (w.x < x || (w.x == x && w.z < z + 1)) implies pick.count
                        <= squads_in(m, w) by {
                        if w.x == x && w.z == z {
                            assert(w == zone);
                        }
                    }
                }
                z += 1;
            }
            x += 1;
        }
        pick.best
    }
}

/// A squad counts in the zone it is assigned to, and nowhere else.
pub proof fn law_assigning_moves_one_squad(
    squads: Map<u64, ZoneId>,
    group: u64,
    zone: ZoneId,
    other: ZoneId,
)
    requires
        squads.dom().finite(),
        squads.contains_key(group),
        squads[group] == other,
        other != zone,
    ensures
        squads_in(squads.insert(group, zone), zone) == squads_in(squads, zone) + 1,
        squads_in(squads.insert(group, zone), other) + 1 == squads_in(squads, other),
{
    let after = squads.insert(group, zone);
    assert(zone_squads(after, zone) =~= zone_squads(squads, zone).insert(group));
    assert(zone_squads(after, other) =~= zone_squads(squads, other).remove(group));
}

/// A squad that is released counts no longer.
pub proof fn law_release_undoes_assign(squads: Map<u64, ZoneId>, group: u64, zone: ZoneId)
    requires
        !squads.contains_key(group),
    ensures
        squads.insert(group, zone).remove(group) == squads,
{
    assert(squads.insert(group, zone).remove(group) =~= squads);
}

/// A zone with fewer squads than the best so far takes its place; one with as
/// many does on a draw of zero; one with more never does.
pub proof fn law_emptier_zones_win(p: ZonePick, zone: ZoneId, count: u32, draw: u32)
    requires
        p.candidates < u32::MAX,
    ensures
        ({
            let q = p.offered(zone, count, draw);
            &&& count < p.count ==> q.best == zone && q.count == count && q.candidates == 1
            &&& count == p.count ==> q.count == count && q.candidates == p.candidates + 1
            &&& count == p.count && draw == 0 ==> q.best == zone
            &&& count == p.count && draw != 0 ==> q.best == p.best
            &&& count > p.count ==> q == p
        }),
{
}

/// A region has 64 zones, eight by eight around its middle; each has a number
/// under 64, and no two the same.
pub proof fn law_zones_are_numbered(region: RegionId, zone: ZoneId, n: int, m: int)
    requires
        0 <= n < 64,
        0 <= m < 64,
    ensures
        zone_of_region(region, zone) <==> zone.region == region && -4 <= zone.x <= 3 && -4
            <= zone.z <= 3,
        zone_of_region(region, zone) ==> zone_numbered(region, 8 * (zone.x + 4) + (zone.z + 4))
            == zone,
        zone_of_region(region, zone_numbered(region, n)),
        zone_numbered(region, n) == zone_numbered(region, m) ==> n == m,
{
}

/// A squad counts in the zone that it is in, and in no other.
pub proof fn law_squads_count_where_they_are(
    squads: Map<u64, ZoneId>,
    group: u64,
    zone: ZoneId,
    other: ZoneId,
)
    requires
        squads.dom().finite(),
        !squads.contains_key(group),
        other != zone,
    ensures
        squads_in(squads.insert(group, zone), zone) == squads_in(squads, zone) + 1,
        squads_in(squads.insert(group, zone), other) == squads_in(squads, other),
{
    let after = squads.insert(group, zone);
    assert(zone_squads(after, zone) =~= zone_squads(squads, zone).insert(group));
    assert(zone_squads(after, other) =~= zone_squads(squads, other));
}

} // verus!
