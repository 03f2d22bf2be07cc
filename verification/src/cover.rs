//! Cover: what it is made of, who uses it and what it stops.
use vstd::prelude::*;

use crate::components::NpcId;
use crate::float_bits::{F32Bits, F32_ZERO};
use crate::idmap::{rising, IdMap};
use crate::region::RegionId;

verus! {

/// What cover is made of.
#[derive(Clone, Copy, Debug, PartialEq, Eq, Hash, Structural)]
pub enum CoverMaterialId {
    Concrete,
    Brick,
    SteelThick,
    SteelThin,
    WoodThick,
    WoodThin,
    Sandbag,
    Earth,
    Glass,
    Vegetation,
    VehicleBody,
}

/// The materials, in order.
pub open spec fn materials() -> Seq<CoverMaterialId> {
    seq![
        CoverMaterialId::Concrete,
        CoverMaterialId::Brick,
        CoverMaterialId::SteelThick,
        CoverMaterialId::SteelThin,
        CoverMaterialId::WoodThick,
        CoverMaterialId::WoodThin,
        CoverMaterialId::Sandbag,
        CoverMaterialId::Earth,
        CoverMaterialId::Glass,
        CoverMaterialId::Vegetation,
        CoverMaterialId::VehicleBody,
    ]
}

impl CoverMaterialId {
    /// Every material, in order.
    pub fn all() -> (r: Vec<CoverMaterialId>)
        ensures
            r@ == materials(),
    {
        let r = vec![
            CoverMaterialId::Concrete,
            CoverMaterialId::Brick,
            CoverMaterialId::SteelThick,
            CoverMaterialId::SteelThin,
            CoverMaterialId::WoodThick,
            CoverMaterialId::WoodThin,
            CoverMaterialId::Sandbag,
            CoverMaterialId::Earth,
            CoverMaterialId::Glass,
            CoverMaterialId::Vegetation,
            CoverMaterialId::VehicleBody,
        ];
        assert(r@ =~= materials());
        r
    }
}

/// Every material is listed.
pub proof fn law_all_materials_listed(m: CoverMaterialId)
    ensures
        materials().contains(m),
{
    let all = materials();
    let i: int = match m {
        CoverMaterialId::Concrete => 0,
        CoverMaterialId::Brick => 1,
        CoverMaterialId::SteelThick => 2,
        CoverMaterialId::SteelThin => 3,
        CoverMaterialId::WoodThick => 4,
        CoverMaterialId::WoodThin => 5,
        CoverMaterialId::Sandbag => 6,
        CoverMaterialId::Earth => 7,
        CoverMaterialId::Glass => 8,
        CoverMaterialId::Vegetation => 9,
        CoverMaterialId::VehicleBody => 10,
    };
    assert(all[i] == m);
}

/// What is known of a material.
#[derive(Debug)]
pub struct CoverMaterialDef {
    pub name: String,
    pub id: CoverMaterialId,
    pub protection_class: u8,
    /// Stops shots.
    pub provides_cover: bool,
    /// Hides.
    pub provides_concealment: bool,
    pub ricochet_chance: F32Bits,
    pub spall_factor: F32Bits,
    pub durability_per_mm: F32Bits,
}

/// The last definition of the material among the first `n`.
pub open spec fn material_index(defs: Seq<CoverMaterialDef>, id: CoverMaterialId, n: int) -> Option<
    int,
>
    decreases n,
{
    if n <= 0 {
        None
    } else if defs[n - 1].id == id {
        Some(n - 1)
    } else {
        material_index(defs, id, n - 1)
    }
}

/// What is known of a material; of several definitions the last counts.
pub fn material_def(defs: &Vec<CoverMaterialDef>, id: CoverMaterialId) -> (r: Option<
    &CoverMaterialDef,
>)
    ensures
        match material_index(defs@, id, defs@.len() as int) {
            Some(i) => r == Some(&defs@[i]),
            None => r is None,
        },
{
    let mut i: usize = defs.len();
    while i > 0
        invariant
            i <= defs@.len(),
            material_index(defs@, id, defs@.len() as int) == material_index(defs@, id, i as int),
        decreases i,
    {
        i -= 1;
        if defs[i].id == id {
            return Some(&defs[i]);
        }
    }
    None
}

/// What cover does to a shot.
#[derive(Clone, Copy, Debug, PartialEq, Eq, Structural)]
pub enum PenetrationResult {
    Stopped,
    PartialPenetration { spall_damage_frac: F32Bits },
    FullPenetration { residual_class: u8 },
}

/// How a shot compares with what a material stops at a thickness and angle.
#[derive(Clone, Copy, Debug, PartialEq, Eq, Structural)]
pub struct Contest {
    /// The shot is a class or more above.
    pub clears: bool,
    /// The shot is no more than half a class below.
    pub grazes: bool,
}

/// What a material does to a shot.
pub open spec fn penetration(
    material: Option<CoverMaterialDef>,
    pen_class: u8,
    contest: Contest,
) -> PenetrationResult {
    match material {
        None => PenetrationResult::FullPenetration { residual_class: pen_class },
        Some(m) => if !m.provides_cover {
            PenetrationResult::FullPenetration { residual_class: pen_class }
        } else if contest.clears {
            PenetrationResult::FullPenetration {
                residual_class: if pen_class > m.protection_class {
                    (pen_class - m.protection_class) as u8
                } else {
                    0
                },
            }
        } else if contest.grazes {
            PenetrationResult::PartialPenetration { spall_damage_frac: m.spall_factor }
        } else {
            PenetrationResult::Stopped
        },
    }
}

/// What a material does to a shot: one that is not known, or stops nothing,
/// lets it through as it is.
pub fn can_penetrate(
    projectile_pen_class: u8,
    material: Option<&CoverMaterialDef>,
    contest: Contest,
) -> (r: PenetrationResult)
    ensures
        r == penetration(
            (match material {
                Some(m) => Some(*m),
                None => None,
            }),
            projectile_pen_class,
            contest,
        ),
{
    match material {
        None => PenetrationResult::FullPenetration { residual_class: projectile_pen_class },
        Some(m) => {
            if !m.provides_cover {
                PenetrationResult::FullPenetration { residual_class: projectile_pen_class }
            } else if contest.clears {
                PenetrationResult::FullPenetration {
                    residual_class: projectile_pen_class.saturating_sub(m.protection_class),
                }
            } else if contest.grazes {
                PenetrationResult::PartialPenetration { spall_damage_frac: m.spall_factor }
            } else {
                PenetrationResult::Stopped
            }
        },
    }
}

/// What only hides stops nothing.
pub proof fn law_concealment_stops_nothing(m: CoverMaterialDef, pen_class: u8, contest: Contest)
    requires
        !m.provides_cover,
    ensures
        penetration(Some(m), pen_class, contest) == (PenetrationResult::FullPenetration {
            residual_class: pen_class,
        }),
{
}

/// A shot never leaves cover with a higher class than it came with.
pub proof fn law_shots_do_not_gain(m: Option<CoverMaterialDef>, pen_class: u8, contest: Contest)
    ensures
        penetration(m, pen_class, contest) matches PenetrationResult::FullPenetration {
            residual_class,
        } ==> residual_class <= pen_class,
{
}

/// How high cover is.
#[derive(Clone, Copy, Debug, PartialEq, Eq, Hash, Structural)]
pub enum CoverHeight {
    Low,
    High,
    Full,
}

/// One piece of cover.
#[derive(Clone, Copy, Debug)]
pub struct CoverVolume {
    pub id: u64,
    pub region: RegionId,
    pub pos: [F32Bits; 3],
    pub half_extents: [F32Bits; 3],
    pub rotation: [F32Bits; 4],
    pub material_id: CoverMaterialId,
    pub height: CoverHeight,
    pub thickness_mm: F32Bits,
    pub destructible: bool,
    pub health: F32Bits,
    pub max_health: F32Bits,
}

impl CoverVolume {
    /// Nothing is left of it.
    pub open spec fn gone(self) -> bool {
        self.destructible && self.health.at_most(F32Bits(F32_ZERO))
    }

    /// True iff nothing is left of it.
    pub fn is_gone(&self) -> (r: bool)
        ensures
            r == self.gone(),
    {
        self.destructible && self.health.le(F32Bits(F32_ZERO))
    }
}

/// A piece of cover that a shot meets.
#[derive(Clone, Copy, Debug, PartialEq, Eq, Structural)]
pub struct CoverHit {
    pub volume_id: u64,
    pub material_id: CoverMaterialId,
    pub thickness_mm: F32Bits,
    pub angle: F32Bits,
}

/// What the shot meets among the first `n`: those that are left and that it
/// crosses, each at its angle.
pub open spec fn hits_of(
    volumes: Seq<CoverVolume>,
    angles: Seq<Option<F32Bits>>,
    n: int,
) -> Seq<CoverHit>
    decreases n,
{
    if n <= 0 {
        Seq::empty()
    } else {
        let v = volumes[n - 1];
        match angles[n - 1] {
            Some(angle) => if v.gone() {
                hits_of(volumes, angles, n - 1)
            } else {
                hits_of(volumes, angles, n - 1).push(
                    CoverHit {
                        volume_id: v.id,
                        material_id: v.material_id,
                        thickness_mm: v.thickness_mm,
                        angle,
                    },
                )
            },
            None => hits_of(volumes, angles, n - 1),
        }
    }
}

/// How a piece of cover lies from where an NPC stands.
#[derive(Clone, Copy, Debug, PartialEq, Eq, Structural)]
pub struct CoverSight {
    /// The square of how far it is.
    pub dist_sq: F32Bits,
    /// From one where it lies towards the threat to minus one where it lies
    /// away.
    pub dot: F32Bits,
}

/// The bit pattern of `-0.8`.
pub const BEHIND_DOT: u32 = 0xbf4c_cccd;

/// The NPC may use the piece of cover: something is left of it, nobody else
/// uses it, it is near enough and does not lie right behind.
pub open spec fn usable(
    v: CoverVolume,
    s: CoverSight,
    occupied: Map<u64, NpcId>,
    me: Option<NpcId>,
    max_dist_sq: F32Bits,
) -> bool {
    &&& !v.gone()
    &&& occupied.contains_key(v.id) ==> me == Some(occupied[v.id])
    &&& !max_dist_sq.less(s.dist_sq)
    &&& !s.dot.less(F32Bits(BEHIND_DOT))
}

/// The nearest usable piece among the first `n`; of several as near the first.
pub open spec fn nearest(
    volumes: Seq<CoverVolume>,
    sights: Seq<CoverSight>,
    occupied: Map<u64, NpcId>,
    me: Option<NpcId>,
    max_dist_sq: F32Bits,
    n: int,
) -> Option<int>
    decreases n,
{
    if n <= 0 {
        None
    } else {
        let best = nearest(volumes, sights, occupied, me, max_dist_sq, n - 1);
        if !usable(volumes[n - 1], sights[n - 1], occupied, me, max_dist_sq) {
            best
        } else {
            match best {
                None => Some(n - 1),
                Some(b) => if sights[n - 1].dist_sq.less(sights[b].dist_sq) {
                    Some(n - 1)
                } else {
                    best
                },
            }
        }
    }
}

/// All cover, and who uses it.
#[derive(Debug)]
pub struct CoverVolumes {
    pub by_region: IdMap<Vec<CoverVolume>>,
    pub next_free: u64,
    /// The NPC that uses each piece.
    pub occupied_by: IdMap<NpcId>,
}

impl Default for CoverVolumes {
    /// No cover.
    fn default() -> (r: Self)
        ensures
            r.by_region@ == Map::<u64, Vec<CoverVolume>>::empty(),
            r.next_free == 0,
            r.occupied_by@ == Map::<u64, NpcId>::empty(),
    {
        CoverVolumes { by_region: IdMap::new(), next_free: 0, occupied_by: IdMap::new() }
    }
}

/// The place of the first piece with the number that can be destroyed.
pub open spec fn target_index(volumes: Seq<CoverVolume>, id: u64, from: int) -> Option<int>
    decreases volumes.len() - from,
{
    if from < 0 || from >= volumes.len() {
        None
    } else if volumes[from].id == id && volumes[from].destructible {
        Some(from)
    } else {
        target_index(volumes, id, from + 1)
    }
}

impl CoverVolumes {
    /// The cover of a region.
    pub open spec fn in_region(self, region: RegionId) -> Seq<CoverVolume> {
        if self.by_region@.contains_key(region as u64) {
            self.by_region@[region as u64]@
        } else {
            Seq::empty()
        }
    }

    /// A number that no piece has had.
    pub fn next_id(&mut self) -> (r: u64)
        requires
            old(self).next_free < u64::MAX,
        ensures
            r == old(self).next_free,
            *final(self) == (CoverVolumes {
                next_free: (old(self).next_free + 1) as u64,
                ..*old(self)
            }),
    {
        let id = self.next_free;
        self.next_free = self.next_free + 1;
        id
    }

    /// Adds a piece to its region.
    pub fn push(&mut self, volume: CoverVolume)
        ensures
            final(self).next_free == old(self).next_free,
            final(self).occupied_by == old(self).occupied_by,
            final(self).in_region(volume.region) == old(self).in_region(volume.region).push(volume),
            forall|g: RegionId|
                g != volume.region ==> #[trigger] final(self).in_region(g) == old(self).in_region(
                    g,
                ),
    {
        let mut list: Vec<CoverVolume> = match self.by_region.remove(volume.region as u64) {
            Some(v) => v,
            None => Vec::new(),
        };
        assert(list@ =~= old(self).in_region(volume.region));
        list.push(volume);
        let _ = self.by_region.insert(volume.region as u64, list);
    }

    /// Removes the cover of a region.
    pub fn clear_region(&mut self, region: RegionId)
        ensures
            final(self).by_region@ == old(self).by_region@.remove(region as u64),
            final(self).next_free == old(self).next_free,
            final(self).occupied_by == old(self).occupied_by,
    {
        let _ = self.by_region.remove(region as u64);
    }

    /// The cover that a shot meets in a region. For each piece the angle is
    /// given at which the shot crosses it, or that it does not.
    pub fn check_cover_between(&self, region: RegionId, angles: &Vec<Option<F32Bits>>) -> (r: Vec<
        CoverHit,
    >)
        requires
            angles@.len() == self.in_region(region).len(),
        ensures
            r@ == hits_of(
                self.in_region(region),
                angles@,
                self.in_region(region).len() as int,
            ),
    {
        let mut hits: Vec<CoverHit> = Vec::new();
        let volumes = match self.by_region.get(region as u64) {
            Some(v) => v,
            None => {
                return hits;
            },
        };
        let mut i: usize = 0;
        while i < volumes.len()
            invariant
                i <= volumes@.len(),
                angles@.len() == volumes@.len(),
                hits@ == hits_of(volumes@, angles@, i as int),
            decreases volumes@.len() - i,
        {
            let v = &volumes[i];
            if let Some(angle) = angles[i] {
                if !v.is_gone() {
                    hits.push(
                        CoverHit {
                            volume_id: v.id,
                            material_id: v.material_id,
                            thickness_mm: v.thickness_mm,
                            angle,
                        },
                    );
                }
            }
            i += 1;
        }
        hits
    }

    /// The nearest cover that nobody uses.
    pub fn nearest_cover(
        &self,
        region: RegionId,
        sights: &Vec<CoverSight>,
        max_dist_sq: F32Bits,
    ) -> (r: Option<&CoverVolume>)
        requires
            sights@.len() == self.in_region(region).len(),
        ensures
            match nearest(
                self.in_region(region),
                sights@,
                self.occupied_by@,
                None,
                max_dist_sq,
                sights@.len() as int,
            ) {
                Some(i) => r == Some(&self.in_region(region)[i]),
                None => r is None,
            },
    {
        self.nearest_cover_for(region, sights, max_dist_sq, None)
    }

    /// The nearest cover that nobody else uses.
    pub fn nearest_cover_for(
        &self,
        region: RegionId,
        sights: &Vec<CoverSight>,
        max_dist_sq: F32Bits,
        self_id: Option<NpcId>,
    ) -> (r: Option<&CoverVolume>)
        requires
            sights@.len() == self.in_region(region).len(),
        ensures
            match nearest(
                self.in_region(region),
                sights@,
                self.occupied_by@,
                self_id,
                max_dist_sq,
                sights@.len() as int,
            ) {
                Some(i) => r == Some(&self.in_region(region)[i]),
                None => r is None,
            },
    {
        let volumes = match self.by_region.get(region as u64) {
            Some(v) => v,
            None => {
                return None;
            },
        };
        let mut best: Option<usize> = None;
        let mut i: usize = 0;
        while i < volumes.len()
            invariant
                i <= volumes@.len(),
                sights@.len() == volumes@.len(),
                match best {
                    Some(b) => b < i && nearest(
                        volumes@,
                        sights@,
                        self.occupied_by@,
                        self_id,
                        max_dist_sq,
                        i as int,
                    ) == Some(b as int),
                    None => nearest(
                        volumes@,
                        sights@,
                        self.occupied_by@,
                        self_id,
                        max_dist_sq,
                        i as int,
                    ) is None,
                },
            decreases volumes@.len() - i,
        {
            let v = &volumes[i];
            let free = match self.occupied_by.get(v.id) {
                Some(by_whom) => match self_id {
                    Some(me) => me == *by_whom,
                    None => false,
                },
                None => true,
            };
            let s = sights[i];
            if !v.is_gone() && free && !max_dist_sq.lt(s.dist_sq) && !s.dot.lt(
                F32Bits(BEHIND_DOT),
            ) {
                match best {
                    Some(b) => {
                        if s.dist_sq.lt(sights[b].dist_sq) {
                            best = Some(i);
                        }
                    },
                    None => {
                        best = Some(i);
                    },
                }
            }
            i += 1;
        }
        match best {
            Some(b) => Some(&volumes[b]),
            None => None,
        }
    }

    /// Lets an NPC use a piece of cover.
    pub fn claim_cover(&mut self, volume_id: u64, npc: NpcId)
        ensures
            final(self).by_region == old(self).by_region,
            final(self).next_free == old(self).next_free,
            final(self).occupied_by@ == old(self).occupied_by@.insert(volume_id, npc),
    {
        let _ = self.occupied_by.insert(volume_id, npc);
    }

    /// Frees a piece of cover, if the NPC is the one that uses it.
    pub fn release_cover(&mut self, volume_id: u64, npc: NpcId)
        ensures
            final(self).by_region == old(self).by_region,
            final(self).next_free == old(self).next_free,
            final(self).occupied_by@ == (if old(self).occupied_by@.contains_key(volume_id) && old(
                self).occupied_by@[volume_id] == npc {
                old(self).occupied_by@.remove(volume_id)
            } else {
                old(self).occupied_by@
            }),
    {
        let mine = match self.occupied_by.get(volume_id) {
            Some(n) => *n == npc,
            None => false,
        };
        if mine {
            let _ = self.occupied_by.remove(volume_id);
        }
    }

    /// Frees every piece of cover that the NPC uses.
    pub fn release_all_for_npc(&mut self, npc: NpcId)
        ensures
            final(self).by_region == old(self).by_region,
            final(self).next_free == old(self).next_free,
            final(self).occupied_by@ == without_npc(old(self).occupied_by@, npc),
    {
        let n = self.occupied_by.len();
        let ghost keys = self.occupied_by.key_list();
        let ghost before = self.occupied_by@;
        let mut kept: IdMap<NpcId> = IdMap::new();
        let mut i: usize = 0;
        while i < n
            invariant
                i <= n,
                n == keys.len(),
                keys == self.occupied_by.key_list(),
                before == self.occupied_by@,
                rising(keys),
                forall|k: u64| #[trigger]
                    kept@.contains_key(k) <==> before[k] != npc && keys.take(i as int).contains(k),
                forall|k: u64| #[trigger] kept@.contains_key(k) ==> kept@[k] == before[k],
                *self == *old(self),
            decreases n - i,
        {
            let k = self.occupied_by.key_at(i);
            let v = *self.occupied_by.value_at(i);
            let ghost was = kept@;
            if v != npc {
                let prev = kept.insert(k, v);
            }
            proof {
                let upto = keys.take(i as int);
                let longer = keys.take(i + 1);
                assert forall|q: u64| #[trigger] kept@.contains_key(q) <==> before[q] != npc
                    && longer.contains(q) by {
                    if longer.contains(q) {
                        let j = choose|j: int| 0 <= j < longer.len() && longer[j] == q;
                        if j < i {
                            assert(upto[j] == q);
                        }
                    }
                    if upto.contains(q) {
                        let j = choose|j: int| 0 <= j < upto.len() && upto[j] == q;
                        assert(longer[j] == q);
                    }
                    assert(longer[i as int] == k);
                    assert(was.contains_key(q) <==> before[q] != npc && upto.contains(q));
                }
            }
            i += 1;
        }
        proof {
            assert(keys.take(i as int) =~= keys);
            assert(kept@ =~= without_npc(before, npc));
        }
        self.occupied_by = kept;
    }

    /// Damages the first piece of cover with the number that can be destroyed,
    /// and says whether nothing is left of it. `less` takes the damage from
    /// the health, which does not fall under zero.
    pub fn damage_cover<F: Fn(F32Bits) -> F32Bits>(
        &mut self,
        region: RegionId,
        volume_id: u64,
        less: F,
    ) -> (r: bool)
        requires
            forall|h: F32Bits| #[trigger] less.requires((h,)),
        ensures
            final(self).next_free == old(self).next_free,
            final(self).occupied_by == old(self).occupied_by,
            forall|g: RegionId|
                g != region ==> #[trigger] final(self).in_region(g) == old(self).in_region(g),
            match target_index(old(self).in_region(region), volume_id, 0) {
                Some(i) => {
                    let was = old(self).in_region(region)[i];
                    let now = final(self).in_region(region)[i];
                    &&& final(self).in_region(region) == old(self).in_region(region).update(i, now)
                    &&& now == (CoverVolume { health: now.health, ..was })
                    &&& lessened(less, was.health, now.health)
                    &&& r == now.gone()
                },
                None => !r && final(self).in_region(region) == old(self).in_region(region),
            },
    {
        let ghost before = self.in_region(region);
        let mut list: Vec<CoverVolume> = match self.by_region.remove(region as u64) {
            Some(v) => v,
            None => {
                assert forall|g: RegionId| g != region implies #[trigger] self.in_region(g) == old(self).in_region(g) by {}
                return false;
            },
        };
        assert(list@ == before);
        let mut r = false;
        let mut i: usize = 0;
        let mut found: Option<usize> = None;
        while i < list.len() && found.is_none()
            invariant
                i <= list@.len(),
                list@ == before,
                match found {
                    Some(f) => f < list@.len() && target_index(before, volume_id, 0) == Some(
                        f as int,
                    ) && before[f as int].destructible,
                    None => target_index(before, volume_id, 0) == target_index(
                        before,
                        volume_id,
                        i as int,
                    ),
                },
            decreases list@.len() - i,
        {
            if list[i].id == volume_id && list[i].destructible {
                found = Some(i);
            }
            i += 1;
        }
        if let Some(f) = found {
            let mut v = list[f];
            let left = less(v.health);
            let ghost was = v.health;
            v.health = if F32Bits(F32_ZERO).le(left) {
                left
            } else {
                F32Bits(F32_ZERO)
            };
            proof {
                assert(less.ensures((was,), left) && v.health == no_less_than_zero(left));
            }
            r = v.is_gone();
            list.set(f, v);
        }
        let _ = self.by_region.insert(region as u64, list);
        r
    }
}

/// A number, or zero where it is less than that or none.
pub open spec fn no_less_than_zero(x: F32Bits) -> F32Bits {
    if F32Bits(F32_ZERO).at_most(x) {
        x
    } else {
        F32Bits(F32_ZERO)
    }
}

/// `now` is what `less` leaves of `was`, and no less than zero.
pub open spec fn lessened<F: Fn(F32Bits) -> F32Bits>(less: F, was: F32Bits, now: F32Bits) -> bool {
    exists|left: F32Bits| #[trigger]
        less.ensures((was,), left) && now == no_less_than_zero(left)
}

/// Damage leaves no cover with less than no health.
pub proof fn law_damaged_health_is_not_negative<F: Fn(F32Bits) -> F32Bits>(
    less: F,
    was: F32Bits,
    now: F32Bits,
)
    requires
        lessened(less, was, now),
    ensures
        F32Bits(F32_ZERO).at_most(now),
{
}

/// The users without one NPC.
pub open spec fn without_npc(m: Map<u64, NpcId>, npc: NpcId) -> Map<u64, NpcId> {
    Map::new(|k: u64| m.contains_key(k) && m[k] != npc, |k: u64| m[k])
}

/// Two NPCs that each take the nearest cover for them do not take the same:
/// what one has claimed is not offered to the other.
pub proof fn law_claimed_cover_is_not_offered(
    volumes: Seq<CoverVolume>,
    sights: Seq<CoverSight>,
    occupied: Map<u64, NpcId>,
    owner: NpcId,
    other: NpcId,
    max_dist_sq: F32Bits,
    n: int,
)
    requires
        owner != other,
        0 <= n <= volumes.len(),
        n <= sights.len(),
    ensures
        nearest(volumes, sights, occupied, Some(other), max_dist_sq, n) matches Some(i) ==> 0 <= i
            < n && usable(volumes[i], sights[i], occupied, Some(other), max_dist_sq) && !(
        occupied.contains_key(volumes[i].id) && occupied[volumes[i].id] == owner),
    decreases n,
{
    if n > 0 {
        law_claimed_cover_is_not_offered(
            volumes,
            sights,
            occupied,
            owner,
            other,
            max_dist_sq,
            n - 1,
        );
    }
}

/// No usable cover is nearer than the nearest, where every distance is a
/// number.
pub proof fn law_nearest_is_nearest(
    volumes: Seq<CoverVolume>,
    sights: Seq<CoverSight>,
    occupied: Map<u64, NpcId>,
    me: Option<NpcId>,
    max_dist_sq: F32Bits,
    n: int,
    j: int,
)
    requires
        0 <= j < n <= volumes.len(),
        n <= sights.len(),
        forall|k: int| 0 <= k < sights.len() ==> !(#[trigger] sights[k]).dist_sq.is_nan(),
        usable(volumes[j], sights[j], occupied, me, max_dist_sq),
    ensures
        nearest(volumes, sights, occupied, me, max_dist_sq, n) matches Some(i) && 0 <= i < n
            && sights[i].dist_sq.at_most(sights[j].dist_sq),
    decreases n,
{
    if j < n - 1 {
        law_nearest_is_nearest(volumes, sights, occupied, me, max_dist_sq, n - 1, j);
    } else {
        lemma_nearest_in_range(volumes, sights, occupied, me, max_dist_sq, n - 1);
    }
}

/// What is nearest is one of those looked at.
proof fn lemma_nearest_in_range(
    volumes: Seq<CoverVolume>,
    sights: Seq<CoverSight>,
    occupied: Map<u64, NpcId>,
    me: Option<NpcId>,
    max_dist_sq: F32Bits,
    n: int,
)
    ensures
        nearest(volumes, sights, occupied, me, max_dist_sq, n) matches Some(i) ==> 0 <= i < n,
    decreases n,
{
    if n > 0 {
        lemma_nearest_in_range(volumes, sights, occupied, me, max_dist_sq, n - 1);
    }
}

/// Releasing undoes claiming.
pub proof fn law_release_undoes_claim(occupied: Map<u64, NpcId>, volume: u64, npc: NpcId)
    requires
        !occupied.contains_key(volume),
    ensures
        occupied.insert(volume, npc).remove(volume) == occupied,
{
    assert(occupied.insert(volume, npc).remove(volume) =~= occupied);
}

/// What stops nothing, and nothing at all, lets a shot through as it is. A
/// material that stops shots lets through one that is above it, less its class,
/// lets chips fly where the shot comes near, and else stops it.
pub proof fn law_shots_lose_the_class_of_what_they_pass(
    m: CoverMaterialDef,
    pen_class: u8,
    contest: Contest,
)
    ensures
        penetration(None, pen_class, contest) == (PenetrationResult::FullPenetration {
            residual_class: pen_class,
        }),
        m.provides_cover ==> {
            let r = penetration(Some(m), pen_class, contest);
            &&& contest.clears ==> (r matches PenetrationResult::FullPenetration { residual_class }
                && (pen_class >= m.protection_class ==> residual_class + m.protection_class
                == pen_class) && (pen_class < m.protection_class ==> residual_class == 0))
            &&& !contest.clears && contest.grazes ==> r == (PenetrationResult::PartialPenetration {
                spall_damage_frac: m.spall_factor,
            })
            &&& !contest.clears && !contest.grazes ==> r == PenetrationResult::Stopped
        },
        !m.provides_cover ==> penetration(Some(m), pen_class, contest) == penetration(
            None,
            pen_class,
            contest,
        ),
{
}

/// Of several definitions of a material the last counts.
pub proof fn law_last_definition_counts(
    defs: Seq<CoverMaterialDef>,
    id: CoverMaterialId,
    n: int,
    i: int,
)
    requires
        0 <= i < n <= defs.len(),
        defs[i].id == id,
        forall|j: int| i < j < n ==> (#[trigger] defs[j]).id != id,
    ensures
        material_index(defs, id, n) == Some(i),
    decreases n,
{
    if i < n - 1 {
        assert(defs[n - 1].id != id);
        law_last_definition_counts(defs, id, n - 1, i);
    }
}

/// Of what can be destroyed the first piece with the number is damaged, and
/// what cannot be is passed over.
pub proof fn law_first_destructible_is_damaged(
    volumes: Seq<CoverVolume>,
    id: u64,
    from: int,
    i: int,
)
    requires
        0 <= from <= i < volumes.len(),
        volumes[i].id == id && volumes[i].destructible,
        forall|j: int|
            from <= j < i ==> !((#[trigger] volumes[j]).id == id && volumes[j].destructible),
    ensures
        target_index(volumes, id, from) == Some(i),
    decreases i - from,
{
    if from < i {
        assert(!(volumes[from].id == id && volumes[from].destructible));
        law_first_destructible_is_damaged(volumes, id, from + 1, i);
    }
}

/// A shot meets each piece that it crosses and of which something is left, at
/// its angle, and nothing else; in the order in which the pieces are listed.
pub proof fn law_shots_meet_what_is_left(
    volumes: Seq<CoverVolume>,
    angles: Seq<Option<F32Bits>>,
    n: int,
    v: CoverVolume,
    angle: Option<F32Bits>,
)
    requires
        volumes.len() == angles.len(),
        n == volumes.len(),
    ensures
        ({
            let hits = hits_of(volumes, angles, n);
            let more = hits_of(volumes.push(v), angles.push(angle), n + 1);
            let gone = v.destructible && v.health.at_most(F32Bits(0));
            &&& angle is Some && !gone ==> more.len() == hits.len() + 1 && more.drop_last() == hits
                && more.last() == (CoverHit {
                volume_id: v.id,
                material_id: v.material_id,
                thickness_mm: v.thickness_mm,
                angle: angle->0,
            })
            &&& angle is None || gone ==> more == hits
        }),
{
    lemma_hits_prefix(volumes, angles, n, v, angle);
    assert(hits_of(volumes, angles, n).push(
        CoverHit {
            volume_id: v.id,
            material_id: v.material_id,
            thickness_mm: v.thickness_mm,
            angle: angle->0,
        },
    ).drop_last() =~= hits_of(volumes, angles, n));
}

proof fn lemma_hits_prefix(
    volumes: Seq<CoverVolume>,
    angles: Seq<Option<F32Bits>>,
    n: int,
    v: CoverVolume,
    angle: Option<F32Bits>,
)
    requires
        n <= volumes.len(),
        volumes.len() == angles.len(),
    ensures
        hits_of(volumes.push(v), angles.push(angle), n) == hits_of(volumes, angles, n),
    decreases n,
{
    if n > 0 {
        lemma_hits_prefix(volumes, angles, n - 1, v, angle);
    }
}

/// Cover is of use where something is left of it, nobody else has it, it is no
/// further than asked for, and the angle to the threat is no worse than -0.8.
pub proof fn law_what_cover_is_of_use(
    v: CoverVolume,
    s: CoverSight,
    occupied: Map<u64, NpcId>,
    me: Option<NpcId>,
    max_dist_sq: F32Bits,
)
    ensures
        v.destructible && v.health.at_most(F32Bits(0)) ==> !usable(
            v,
            s,
            occupied,
            me,
            max_dist_sq,
        ),
        occupied.contains_key(v.id) && me != Some(occupied[v.id]) ==> !usable(
            v,
            s,
            occupied,
            me,
            max_dist_sq,
        ),
        max_dist_sq.less(s.dist_sq) || s.dot.less(F32Bits(0xbf4c_cccd)) ==> !usable(
            v,
            s,
            occupied,
            me,
            max_dist_sq,
        ),
        !(v.destructible && v.health.at_most(F32Bits(0))) && !max_dist_sq.less(s.dist_sq)
            && !s.dot.less(F32Bits(0xbf4c_cccd)) && (!occupied.contains_key(v.id) || me == Some(
            occupied[v.id],
        )) ==> usable(v, s, occupied, me, max_dist_sq),
{
}

/// Whoever finds no cover has none of use; and of cover that is as near the
/// first is taken.
pub proof fn law_first_of_the_nearest(
    volumes: Seq<CoverVolume>,
    sights: Seq<CoverSight>,
    occupied: Map<u64, NpcId>,
    me: Option<NpcId>,
    max_dist_sq: F32Bits,
    n: int,
    j: int,
)
    requires
        0 <= j < n <= volumes.len(),
        n <= sights.len(),
        forall|k: int| 0 <= k < sights.len() ==> !(#[trigger] sights[k]).dist_sq.is_nan(),
    ensures
        match nearest(volumes, sights, occupied, me, max_dist_sq, n) {
            Some(i) => 0 <= i < n && usable(volumes[i], sights[i], occupied, me, max_dist_sq) && (j
                < i && usable(volumes[j], sights[j], occupied, me, max_dist_sq)
                ==> sights[i].dist_sq.less(sights[j].dist_sq)),
            None => !usable(volumes[j], sights[j], occupied, me, max_dist_sq),
        },
    decreases n,
{
    lemma_nearest_usable(volumes, sights, occupied, me, max_dist_sq, n);
    lemma_nearest_usable(volumes, sights, occupied, me, max_dist_sq, n - 1);
    if j < n - 1 {
        law_first_of_the_nearest(volumes, sights, occupied, me, max_dist_sq, n - 1, j);
        if usable(volumes[j], sights[j], occupied, me, max_dist_sq) {
            law_nearest_is_nearest(volumes, sights, occupied, me, max_dist_sq, n - 1, j);
        }
    }
}

proof fn lemma_nearest_usable(
    volumes: Seq<CoverVolume>,
    sights: Seq<CoverSight>,
    occupied: Map<u64, NpcId>,
    me: Option<NpcId>,
    max_dist_sq: F32Bits,
    n: int,
)
    ensures
        nearest(volumes, sights, occupied, me, max_dist_sq, n) matches Some(i) ==> 0 <= i < n
            && usable(volumes[i], sights[i], occupied, me, max_dist_sq),
    decreases n,
{
    if n > 0 {
        lemma_nearest_usable(volumes, sights, occupied, me, max_dist_sq, n - 1);
    }
}

/// When an NPC gives up all its cover, everybody else keeps theirs.
pub proof fn law_only_ones_own_cover_is_given_up(m: Map<u64, NpcId>, npc: NpcId, k: u64)
    ensures
        m.contains_key(k) && m[k] == npc ==> !without_npc(m, npc).contains_key(k),
        m.contains_key(k) && m[k] != npc ==> without_npc(m, npc).contains_key(k) && without_npc(
            m,
            npc,
        )[k] == m[k],
        !m.contains_key(k) ==> !without_npc(m, npc).contains_key(k),
{
}

} // verus!
