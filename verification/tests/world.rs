use simn_sim::chronicle::{death_cause_to_str, DeathCause, LifeChronicle, LifeRecord};
use simn_sim::components::{
    BaseKind, BodyPart, BodyParts, CombatRole, CombatStance, DrugKind, DrugTolerance, LimbState,
    LimbStates, NpcCharacter, NpcId, NpcRank, NpcStats, PersonalityArchetype, PersonalityTraits,
    RecentAttackers, Wounds,
};
use simn_sim::content::{ContentError, ContentSource, DiskRead, PackRead};
use simn_sim::cover::{
    can_penetrate, material_def, Contest, CoverHeight, CoverMaterialDef, CoverMaterialId,
    CoverSight, CoverVolume, CoverVolumes, PenetrationResult,
};
use simn_sim::faction::registry::FactionId;
use simn_sim::float_bits::F32Bits;
use simn_sim::helpers::{
    base_kind_to_str, moon_phase_name, weather_from_str, weather_to_str, Weather,
};
use simn_sim::los_cache::LosCache;
use simn_sim::patrol_zone::{PatrolZones, ZoneId};
use simn_sim::pda_log::{PdaEvent, PdaEventLog};
use simn_sim::perception::{AlwaysVisibleLos, LosProvider, PerceptionConfig};
use simn_sim::poi::{
    activity_is_guard, activity_is_hunt_target, activity_is_rest, base_is_victory_target,
    base_nav_footprint, ActivityTypeEntry, BaseTypeEntry,
};
use simn_sim::region::RegionGraph;
use simn_sim::rng::Generator;
use simn_sim::strmap::StrMap;

fn id(n: u64) -> NpcId {
    NpcId(n)
}

fn bits(x: f32) -> F32Bits {
    F32Bits(x.to_bits())
}

fn num(b: F32Bits) -> f32 {
    f32::from_bits(b.0)
}

fn sum(a: F32Bits, b: F32Bits) -> F32Bits {
    bits(num(a) + num(b))
}

#[test]
fn recent_attackers_record_appends_new_entry() {
    let mut r = RecentAttackers::default();
    r.record(id(1), 100, bits(25.0), 8, sum);
    assert_eq!(r.events.len(), 1);
    assert_eq!(r.events[0].attacker_id, id(1));
    assert_eq!(num(r.events[0].damage), 25.0);
    assert_eq!(r.events[0].tick, 100);
}

#[test]
fn recent_attackers_record_merges_repeat_attacker() {
    let mut r = RecentAttackers::default();
    r.record(id(1), 100, bits(25.0), 8, sum);
    r.record(id(1), 110, bits(30.0), 8, sum);
    assert_eq!(r.events.len(), 1, "same attacker merges");
    assert_eq!(num(r.events[0].damage), 55.0, "damage accumulates");
    assert_eq!(r.events[0].tick, 110, "tick is most-recent");
}

#[test]
fn recent_attackers_record_evicts_oldest_at_cap() {
    let mut r = RecentAttackers::default();
    for i in 0..10u64 {
        r.record(id(i + 1), 100 + i, bits(5.0), 8, sum);
    }
    assert_eq!(r.events.len(), 8, "FIFO cap holds");
    assert_eq!(r.events[0].attacker_id, id(3));
    assert_eq!(r.events[7].attacker_id, id(10));
}

#[test]
fn recent_attackers_sweep_drops_expired() {
    let mut r = RecentAttackers::default();
    r.record(id(1), 100, bits(10.0), 8, sum);
    r.record(id(2), 200, bits(10.0), 8, sum);
    r.record(id(3), 300, bits(10.0), 8, sum);
    r.sweep(200);
    assert_eq!(r.events.len(), 2);
    assert_eq!(r.events[0].attacker_id, id(2));
    assert_eq!(r.events[1].attacker_id, id(3));
}

#[test]
fn base_kind_nav_footprint_scales_with_kind() {
    assert_eq!(BaseKind::CampSite.nav_footprint_xz_m(), None);
    let structured = [
        BaseKind::Checkpoint,
        BaseKind::Outpost,
        BaseKind::Safehouse,
        BaseKind::Headquarters,
        BaseKind::ResearchPost,
    ];
    for k in structured {
        let f = k.nav_footprint_xz_m().unwrap_or_else(|| panic!("{k:?} must have a nav footprint"));
        assert!(num(f[0]) > 0.0 && num(f[1]) > 0.0, "footprint must be positive");
        assert!(num(f[0]) >= 3.0 && num(f[1]) >= 3.0, "{k:?} footprint too small");
    }
    let outpost = BaseKind::Outpost.nav_footprint_xz_m().unwrap();
    let hq = BaseKind::Headquarters.nav_footprint_xz_m().unwrap();
    assert!(num(hq[0]) > num(outpost[0]), "HQ should be larger than Outpost");
    assert_eq!(num(hq[0]), 8.0);
}

#[test]
fn overlay_overrides_present_and_falls_back_for_missing() {
    let src = ContentSource::Overlay("/somewhere".to_string());
    let got = src.read_str("marker.txt", DiskRead::Text("OVERLAY".to_string()), PackRead::Missing);
    assert_eq!(got.unwrap(), "OVERLAY");
    let embedded = ContentSource::Embedded
        .read_str(
            "world/world_time.toml",
            DiskRead::Missing,
            PackRead::Text("day_length_seconds = 1".to_string()),
        )
        .unwrap();
    let got = src.read_str(
        "world/world_time.toml",
        DiskRead::Missing,
        PackRead::Text("day_length_seconds = 1".to_string()),
    );
    assert_eq!(got.unwrap(), embedded);
    assert!(matches!(
        src.read_str("does/not/exist.toml", DiskRead::Missing, PackRead::Missing),
        Err(ContentError::NotFound(_))
    ));
}

#[test]
fn content_errors_and_optional_files() {
    let dir = ContentSource::Dir("/pack".to_string());
    let failed = || DiskRead::Failed { path: "/pack/a".to_string(), message: "denied".to_string() };
    let e = dir.read_str("a", failed(), PackRead::Text("x".to_string())).unwrap_err();
    assert_eq!(e.message(), "content read failed for /pack/a: denied");
    let e = dir.read_str("a", DiskRead::Missing, PackRead::Text("x".to_string())).unwrap_err();
    assert_eq!(e.message(), "content file not found: a");
    let e = ContentSource::default().read_str("a", DiskRead::Missing, PackRead::NotText).unwrap_err();
    assert_eq!(e.message(), "content file a is not valid UTF-8");
    assert_eq!(dir.read_str_opt("a", DiskRead::Missing, PackRead::Missing).unwrap(), None);
    assert!(dir.read_str_opt("a", failed(), PackRead::Missing).is_err());
    assert_eq!(
        dir.read_str_opt("a", DiskRead::Text("t".to_string()), PackRead::Missing).unwrap(),
        Some("t".to_string())
    );
    assert!(dir.on_disk() && !ContentSource::Embedded.on_disk());
}

fn material(id: CoverMaterialId, class: u8, cover: bool, spall: f32) -> CoverMaterialDef {
    CoverMaterialDef {
        name: "material".to_string(),
        id,
        protection_class: class,
        provides_cover: cover,
        provides_concealment: true,
        ricochet_chance: bits(0.1),
        spall_factor: bits(spall),
        durability_per_mm: bits(1.0),
    }
}

fn table() -> Vec<CoverMaterialDef> {
    vec![
        material(CoverMaterialId::Concrete, 5, true, 0.2),
        material(CoverMaterialId::WoodThin, 0, true, 0.5),
        material(CoverMaterialId::Glass, 0, false, 0.0),
    ]
}

fn shoot(pen: u8, id: CoverMaterialId, thickness_mm: f32, angle: f32) -> PenetrationResult {
    let defs = table();
    let mat = material_def(&defs, id);
    let contest = match mat {
        Some(m) => {
            let thick = thickness_mm / angle.cos().abs().max(0.1);
            let effective = m.protection_class as f32 + (thick / 100.0).min(2.0);
            Contest {
                clears: pen as f32 >= effective + 1.0,
                grazes: pen as f32 >= effective - 0.5,
            }
        }
        None => Contest { clears: false, grazes: false },
    };
    can_penetrate(pen, mat, contest)
}

#[test]
fn concrete_stops_pistol() {
    assert_eq!(shoot(1, CoverMaterialId::Concrete, 300.0, 0.0), PenetrationResult::Stopped);
}

#[test]
fn rifle_penetrates_wood_thin() {
    let result = shoot(3, CoverMaterialId::WoodThin, 20.0, 0.0);
    assert!(matches!(result, PenetrationResult::FullPenetration { .. }));
}

#[test]
fn glass_is_concealment_only() {
    let result = shoot(0, CoverMaterialId::Glass, 10.0, 0.0);
    assert!(matches!(result, PenetrationResult::FullPenetration { .. }));
}

#[test]
fn penetration_in_between() {
    let defs = table();
    let concrete = material_def(&defs, CoverMaterialId::Concrete);
    let grazing = Contest { clears: false, grazes: true };
    assert_eq!(
        can_penetrate(6, concrete, grazing),
        PenetrationResult::PartialPenetration { spall_damage_frac: bits(0.2) }
    );
    let clearing = Contest { clears: true, grazes: true };
    assert_eq!(
        can_penetrate(9, concrete, clearing),
        PenetrationResult::FullPenetration { residual_class: 4 }
    );
    assert_eq!(
        shoot(3, CoverMaterialId::Brick, 10.0, 0.0),
        PenetrationResult::FullPenetration { residual_class: 3 }
    );
    assert_eq!(CoverMaterialId::all().len(), 11);
}

fn volume(id: u64, material_id: CoverMaterialId, destructible: bool, health: f32) -> CoverVolume {
    CoverVolume {
        id,
        region: 0,
        pos: [bits(5.0), bits(1.0), bits(0.0)],
        half_extents: [bits(1.0), bits(2.0), bits(2.0)],
        rotation: [bits(0.0), bits(0.0), bits(0.0), bits(1.0)],
        material_id,
        height: CoverHeight::High,
        thickness_mm: bits(300.0),
        destructible,
        health: bits(health),
        max_health: bits(health),
    }
}

#[test]
fn cover_between_finds_volume() {
    let mut cv = CoverVolumes::default();
    let id = cv.next_id();
    cv.push(volume(id, CoverMaterialId::Concrete, false, 100.0));
    let hits = cv.check_cover_between(0, &vec![Some(bits(0.0))]);
    assert_eq!(hits.len(), 1);
    assert_eq!(hits[0].material_id, CoverMaterialId::Concrete);
    assert!(cv.check_cover_between(0, &vec![None]).is_empty());
}

#[test]
fn destructible_cover_destroyed() {
    let mut cv = CoverVolumes::default();
    let id = cv.next_id();
    cv.push(volume(id, CoverMaterialId::Glass, true, 5.0));
    let destroyed = cv.damage_cover(0, id, |h| bits(num(h) - 10.0));
    assert!(destroyed);
    assert_eq!(num(cv.by_region.get(0).unwrap()[0].health), 0.0);
    let hits = cv.check_cover_between(0, &vec![Some(bits(0.0))]);
    assert!(hits.is_empty());
}

#[test]
fn cover_is_claimed_and_released() {
    let mut cv = CoverVolumes::default();
    let a = cv.next_id();
    let b = cv.next_id();
    assert_eq!((a, b), (0, 1));
    cv.push(volume(a, CoverMaterialId::Earth, false, 1.0));
    cv.push(volume(b, CoverMaterialId::Earth, false, 1.0));
    let sights = vec![
        CoverSight { dist_sq: bits(4.0), dot: bits(0.0) },
        CoverSight { dist_sq: bits(9.0), dot: bits(0.0) },
    ];
    assert_eq!(cv.nearest_cover(0, &sights, bits(100.0)).unwrap().id, a);
    cv.claim_cover(a, id(7));
    assert_eq!(cv.nearest_cover(0, &sights, bits(100.0)).unwrap().id, b);
    assert_eq!(cv.nearest_cover_for(0, &sights, bits(100.0), Some(id(7))).unwrap().id, a);
    cv.release_cover(a, id(8));
    assert_eq!(cv.nearest_cover(0, &sights, bits(100.0)).unwrap().id, b);
    cv.release_all_for_npc(id(7));
    assert_eq!(cv.nearest_cover(0, &sights, bits(100.0)).unwrap().id, a);
    assert!(cv.nearest_cover(0, &sights, bits(1.0)).is_none());
    let behind = vec![CoverSight { dist_sq: bits(4.0), dot: bits(-0.9) }; 2];
    assert!(cv.nearest_cover(0, &behind, bits(100.0)).is_none());
    cv.clear_region(0);
    assert!(cv.nearest_cover(0, &vec![], bits(100.0)).is_none());
}

#[test]
fn put_and_get_round_trip() {
    let mut c = LosCache::default();
    assert!(c.is_empty());
    c.put(id(1), id(2), bits(0.6), 100);
    assert_eq!(c.get(id(1), id(2)), Some(bits(0.6)));
    assert!(c.get(id(2), id(1)).is_none());
}

#[test]
fn entry_returns_full_record() {
    let mut c = LosCache::default();
    c.put(id(7), id(9), bits(0.42), 50);
    let e = c.entry(id(7), id(9)).expect("entry present");
    assert_eq!(e.exposure, bits(0.42));
    assert_eq!(e.computed_tick, 50);
}

#[test]
fn clear_stale_drops_old_entries_keeps_current() {
    let mut c = LosCache::default();
    c.put(id(1), id(2), bits(0.4), 10);
    c.put(id(3), id(4), bits(0.7), 11);
    c.clear_stale(11);
    assert!(c.get(id(1), id(2)).is_none());
    assert_eq!(c.get(id(3), id(4)), Some(bits(0.7)));
}

#[test]
fn clear_stale_empty_cache_is_noop() {
    let mut c = LosCache::default();
    c.clear_stale(42);
    assert!(c.is_empty());
}

#[test]
fn put_overwrites_existing_entry() {
    let mut c = LosCache::default();
    c.put(id(1), id(2), bits(0.3), 5);
    c.put(id(1), id(2), bits(0.9), 6);
    let e = c.entry(id(1), id(2)).unwrap();
    assert_eq!(e.exposure, bits(0.9));
    assert_eq!(e.computed_tick, 6);
}

#[test]
fn entries_live_for_their_age() {
    let mut c = LosCache::default();
    c.put(id(1), id(2), bits(0.3), 5);
    c.put(id(2), id(1), bits(0.3), 9);
    c.retain_newer_than(8, 4);
    assert_eq!(c.len(), 2);
    c.retain_newer_than(9, 4);
    assert_eq!(c.len(), 1);
}

fn record(n: u64, faction: &str, dead_at: Option<u64>) -> LifeRecord {
    LifeRecord {
        id: id(n),
        faction: faction.to_string(),
        birth_tick: 1,
        birth_region: 2,
        birth_pos: [bits(0.0); 3],
        death_tick: dead_at,
        death_region: None,
        death_cause: None,
        regions_visited: vec![(2, 1)],
    }
}

#[test]
fn chronicle_totals_follow_records() {
    let mut c = LifeChronicle::new();
    c.insert(record(1, "pwa", None));
    c.insert(record(2, "pwa", None));
    c.insert(record(3, "choir", Some(4)));
    assert_eq!(c.summary().total_ever_spawned, 3);
    assert_eq!(c.summary().currently_alive, 2);
    assert!(c.mark_dead(id(1), 10, 5, DeathCause::NaturalCauses));
    assert!(!c.mark_dead(id(1), 11, 5, DeathCause::Other));
    assert!(!c.mark_dead(id(9), 11, 5, DeathCause::Other));
    let s = c.summary();
    assert_eq!(s.currently_alive, 1);
    assert_eq!((s.stats_of("pwa").alive, s.stats_of("pwa").dead), (1, 1));
    assert_eq!((s.stats_of("choir").alive, s.stats_of("choir").dead), (0, 1));
    c.insert(record(2, "choir", None));
    assert_eq!(c.summary().total_ever_spawned, 3);
    assert_eq!(c.summary().stats_of("pwa").alive, 0);
    assert_eq!(c.summary().stats_of("choir").alive, 1);
    c.rebuild_summary_cache();
    assert_eq!(c.summary().currently_alive, 1);
    assert_eq!(c.summary().stats_of("choir").alive, 1);
    assert_eq!(c.get(id(1)).unwrap().death_tick, Some(10));
    assert_eq!(c.get(id(1)).unwrap().death_region, Some(5));
}

#[test]
fn recent_deaths_come_latest_first() {
    let mut c = LifeChronicle::new();
    for (n, t) in [(1, Some(5)), (2, Some(9)), (3, None), (4, Some(9)), (5, Some(1))] {
        c.insert(record(n, "x", t));
    }
    let order: Vec<u64> = c.recent_deaths(3).iter().map(|r| r.id.0).collect();
    assert_eq!(order, vec![2, 4, 1]);
    assert_eq!(c.recent_deaths(100).len(), 4);
    assert_eq!(death_cause_to_str(&DeathCause::NaturalCauses), "natural_causes");
    let c = DeathCause::Combat { killer_faction: "pwa".to_string() };
    assert_eq!(death_cause_to_str(&c), "combat");
    assert_eq!(death_cause_to_str(&DeathCause::Other), "other");
}

#[test]
fn feed_numbers_and_bookmarks() {
    let mut log = PdaEventLog::default();
    assert_eq!(log.high_water(), 0);
    assert_eq!(log.push(PdaEvent::OfflineGunfire { region: 3 }, 10), 1);
    assert_eq!(log.push(PdaEvent::OfflineGunfire { region: 4 }, 20), 2);
    assert_eq!(log.since(0).len(), 2);
    assert_eq!(log.since(1).len(), 1);
    assert!(log.since(log.high_water()).is_empty());
    assert_eq!(log.last_gunfire_tick(3), Some(10));
    assert_eq!(log.last_gunfire_tick(5), None);
    log.evict_old(1210);
    assert_eq!(log.len(), 2);
    log.evict_old(1211);
    assert_eq!(log.len(), 1);
    for i in 0..300 {
        log.push(PdaEvent::OfflineGunfire { region: i }, 2000);
    }
    assert_eq!(log.len(), 256);
    assert_eq!(log.all()[255].seq, 302);
    assert!(!log.is_empty());
}

#[test]
fn squads_spread_over_zones() {
    let mut z = PatrolZones::default();
    let mut rng = Generator::new(1);
    let mut seen = Vec::new();
    for g in 0..64u64 {
        let zone = z.pick_zone(7, &mut rng);
        assert!((-4..4).contains(&zone.x) && (-4..4).contains(&zone.z) && zone.region == 7);
        assert_eq!(z.squad_count_in(&zone), 0);
        z.assign(g, zone);
        assert!(!seen.contains(&(zone.x, zone.z)));
        seen.push((zone.x, zone.z));
    }
    let first = z.zone_for(0).unwrap();
    let other = ZoneId { region: 9, x: 0, z: 0 };
    z.assign(0, other);
    assert_eq!(z.squad_count_in(&first), 0);
    assert_eq!(z.squad_count_in(&other), 1);
    assert_eq!(z.pick_zone(7, &mut rng), first);
    z.release(0);
    assert_eq!(z.zone_for(0), None);
    assert_eq!(z.squad_count_in(&other), 0);
}

#[test]
fn weather_has_tags() {
    assert_eq!(weather_from_str("LightRain"), Some(Weather::LightRain));
    assert_eq!(weather_from_str("light rain"), Some(Weather::LightRain));
    assert_eq!(weather_from_str("SMOKE_HAZE"), Some(Weather::SmokeHaze));
    assert_eq!(weather_from_str("hail"), None);
    for w in [Weather::Clear, Weather::PartlyCloudy, Weather::Thunderstorm, Weather::Fog] {
        assert_eq!(weather_from_str(weather_to_str(w)), Some(w));
    }
    assert_eq!(base_kind_to_str(BaseKind::ResearchPost), "research_post");
    assert_eq!(moon_phase_name(0), "new");
    assert_eq!(moon_phase_name(4), "full");
    assert_eq!(moon_phase_name(7), "waning crescent");
}

#[test]
fn everything_is_visible_to_the_pass_through() {
    let cfg = PerceptionConfig::default();
    assert_eq!(num(cfg.fov_deg), 110.0);
    assert_eq!(num(cfg.sight_radius_m), 80.0);
    assert_eq!(num(cfg.exposure_required), 0.33);
    assert_eq!(num(cfg.eye_height_m), 1.6);
    let at = [bits(0.0); 3];
    assert_eq!(num(AlwaysVisibleLos.exposure(at, at, 0, &cfg)), 1.0);
    assert!(AlwaysVisibleLos.is_pass_through_on_current_thread());
}

#[test]
fn kinds_of_places_mean_what_tables_say() {
    let bases = vec![
        BaseTypeEntry { kind: BaseKind::Outpost, nav_footprint: None, is_victory_target: true },
        BaseTypeEntry {
            kind: BaseKind::Outpost,
            nav_footprint: Some([bits(5.0), bits(5.0)]),
            is_victory_target: false,
        },
    ];
    assert!(base_nav_footprint(&bases, BaseKind::Outpost).is_some());
    assert!(!base_is_victory_target(&bases, BaseKind::Outpost));
    assert!(!base_is_victory_target(&bases, BaseKind::CampSite));
    let mut acts = StrMap::new();
    acts.insert(
        "lookout".to_string(),
        ActivityTypeEntry { is_guard: true, is_rest: false, hunt_target: true },
    );
    assert!(activity_is_guard(&acts, "lookout"));
    assert!(!activity_is_rest(&acts, "lookout"));
    assert!(activity_is_hunt_target(&acts, "lookout"));
    assert!(!activity_is_guard(&acts, "bench"));
}

#[test]
fn standard_regions_connect() {
    let g = RegionGraph::default_test_graph();
    assert_eq!(g.len(), 23);
    for id in 1..=23u32 {
        let r = g.get(id).unwrap();
        assert_eq!(g.id_for_name(&r.name), Some(id));
        for n in &r.neighbors {
            assert!(g.get(*n).unwrap().neighbors.contains(&id));
            assert!(r.portal_to(*n).is_some());
        }
    }
    assert!(g.get(24).is_none());
}

#[test]
fn stats_are_rolled_and_ranked() {
    let mut rng = Generator::new(3);
    for nudge in [-10, 0, 10] {
        let s = NpcStats::roll(&mut rng, nudge);
        assert!((30..=80).contains(&s.luck) && (30..=80).contains(&s.stealth));
        assert!(s.accuracy <= 100);
        let sum = s.combat_competence();
        assert_eq!(NpcRank::from_stats(&s), NpcRank::from_competence(sum));
    }
    assert_eq!(NpcRank::from_competence(0), NpcRank::Rookie);
    assert_eq!(NpcRank::from_competence(460), NpcRank::Legend);
    assert_eq!(NpcRank::Veteran.label(), "Veteran");
}

#[test]
fn identities_depend_on_both_numbers() {
    let a = NpcCharacter::derive_id(id(1), FactionId(2));
    assert_eq!(a, NpcCharacter::derive_id(id(1), FactionId(2)));
    assert_ne!(a, NpcCharacter::derive_id(id(1), FactionId(3)));
    assert_ne!(a, NpcCharacter::derive_id(id(2), FactionId(2)));
    let ids: Vec<_> = (0..200).map(|f| NpcCharacter::derive_id(id(9), FactionId(f))).collect();
    for i in 0..ids.len() {
        assert!(!ids[..i].contains(&ids[i]));
    }
}

#[test]
fn severed_limbs_stay_severed() {
    let mut l = LimbStates::default();
    l.mark_severed(BodyPart::LeftArm);
    l.mark_wounded(BodyPart::LeftArm);
    assert_eq!(l.get(BodyPart::LeftArm), LimbState::Severed);
    l.mark_wounded(BodyPart::RightLeg);
    assert_eq!(l.get(BodyPart::RightLeg), LimbState::Wounded);
    assert!(l.is_severed(BodyPart::LeftArm));
}

#[test]
fn bodies_live_while_vitals_do() {
    let mut b = BodyParts::new_full();
    assert!(b.is_alive());
    assert_eq!(num(b.vital_min()), 100.0);
    *b.get_mut(BodyPart::LeftLeg) = bits(0.0);
    assert!(b.is_alive());
    assert!(b.limb_disabled(BodyPart::LeftLeg));
    b.head = bits(0.0);
    assert!(!b.is_alive());
}

#[test]
fn tolerance_is_kept_by_drug() {
    let mut t = DrugTolerance::default();
    let all = [DrugKind::Painkiller, DrugKind::AntiRad];
    assert_eq!(t.get(all[0]), bits(0.0));
    t.set(all[0], bits(0.5));
    assert_eq!(t.get(all[0]), bits(0.5));
    assert_eq!(t.get(all[1]), bits(0.0));
    t.add(all[0], |x| bits(num(x) + 30.0));
    assert_eq!(t.get(all[0]), bits(30.5));
    t.add(all[0], |x| bits(num(x) + 80.0));
    assert_eq!(t.get(all[0]), bits(100.0));
    t.add(all[1], |x| bits(num(x) - 5.0));
    assert_eq!(t.get(all[1]), bits(0.0));
    assert_eq!(t.0.len(), 2);
}

#[test]
fn healed_limbs_are_intact_again() {
    let mut limbs = LimbStates::default();
    limbs.mark_wounded(BodyPart::LeftArm);
    let once = limbs;
    limbs.mark_wounded(BodyPart::LeftArm);
    assert_eq!(limbs, once);
    limbs.mark_severed(BodyPart::RightLeg);
    limbs.mark_wounded(BodyPart::RightLeg);
    assert!(limbs.is_severed(BodyPart::RightLeg));
    assert_eq!(limbs.get(BodyPart::LeftArm), LimbState::Wounded);
    limbs.recompute_from_wounds(&Wounds::default());
    assert_eq!(limbs.get(BodyPart::LeftArm), LimbState::Intact);
    assert!(limbs.is_severed(BodyPart::RightLeg));
}

#[test]
fn drives_and_roles_follow_character() {
    let plain = PersonalityTraits::default();
    assert!(plain.introduces_drives().is_empty());
    let s = NpcStats::from_draws(&vec![50; 8], 0);
    let role = CombatRole::assign(&s, &plain);
    assert_eq!(role, CombatRole::Pointman);
    let careful = PersonalityTraits { cautious: true, ..PersonalityTraits::default() };
    assert_eq!(CombatRole::assign(&s, &careful), CombatRole::Medic);
    let curious = PersonalityTraits { curious: true, cautious: true, ..PersonalityTraits::default() };
    assert_eq!(CombatRole::assign(&s, &curious), CombatRole::Flanker);
    let drilled = PersonalityTraits { disciplined: true, ..PersonalityTraits::default() };
    assert_eq!(CombatRole::assign(&s, &drilled), CombatRole::Support);
    assert_eq!(
        PersonalityArchetype::from_faction_name("no such faction"),
        PersonalityArchetype::Default
    );
}

#[test]
fn stances_say_who_may_fire() {
    assert!(CombatStance::Approaching.is_peeking(5));
    assert!(!CombatStance::Retreating.is_peeking(5));
    let hidden = CombatStance::InCover { volume_id: 1, peek_until_tick: 5, next_peek_tick: 9 };
    assert!(hidden.is_peeking(4) && !hidden.is_peeking(5));
    assert!(!CombatStance::Suppressed { until_tick: 9 }.can_fire(5));
}
