use simn_sim::chronicle::{DeathCause, LifeChronicle, LifeRecord};
use simn_sim::components::{Aggro, BodyParts, CharacterId, NpcId, NpcStats};
use simn_sim::faction::config::{build_registry, ConfigFile, FactionEntry, RelationEntry};
use simn_sim::faction::registry::{FactionId, FactionRegistry, RelationDeltas};
use simn_sim::float_bits::F32Bits;
use simn_sim::offline_combat::{
    base_flip, degrade_health_class, dominant_faction, fight, offline_combat, BaseWatch, BusEvent,
    Exchange,
};
use simn_sim::offline_movement::{
    begin_leg, glide, movement_for, offline_movement, pick_offline_target, redraw_needed,
    seek_target, settle_target, target_pool, wants_chain, work_order, BaseSite, MoveAction,
};
use simn_sim::offline_pairs::{combat_pairs, fighters, pair_seed, Fighter};
use simn_sim::offline_tier::{
    body_parts_to_health_class, faction_to_loadout_class, health_class_to_body_parts,
    offline_tick_just_advanced, offline_work_due, project_offline_to_online,
    project_online_to_offline, region_for_tick, tick_offline_clock, wound_seed, HealthClass,
    Identity, LoadoutClass, OfflineCombatState, OfflineNpc, OfflineTierClock, OnlineNpc,
};
use simn_sim::rng::Generator;
use simn_sim::pda_log::{PdaEvent, PdaEventLog};
use simn_sim::strmap::StrMap;
use simn_sim::waypoints::WaypointGraph;

fn bits(x: f32) -> F32Bits {
    F32Bits(x.to_bits())
}

fn entry(name: &str) -> FactionEntry {
    FactionEntry {
        name: name.to_string(),
        display: name.to_string(),
        parent: None,
        road_friendly: false,
        base_aggression: bits(0.5),
        default_loadout: "x".to_string(),
        debug_color: [0, 0, 0],
        archetype: None,
        nationality_weights: StrMap::new(),
        male_name_weight: None,
        squad_size: None,
        combat: None,
        base_kinds: Vec::new(),
    }
}

/// Reds and blues are at war; greens are at peace with both.
fn registry() -> FactionRegistry {
    build_registry(ConfigFile {
        default_relation: "neutral".to_string(),
        default_self_relation: "warm".to_string(),
        player_baseline: None,
        factions: vec![entry("red"), entry("blue"), entry("green"), entry("bandits"), entry("choir")],
        relations: vec![RelationEntry {
            a: "red".to_string(),
            b: "blue".to_string(),
            value: "hostile".to_string(),
        }],
    })
    .unwrap()
}

fn faction(reg: &FactionRegistry, name: &str) -> FactionId {
    reg.id_of(name).unwrap()
}

fn stats() -> NpcStats {
    NpcStats::from_draws(&vec![50; 8], 0)
}

fn offline(id: u64, faction: FactionId, region: u32) -> OfflineNpc {
    OfflineNpc {
        id: NpcId(id),
        region,
        position_2d: [bits(1.0), bits(2.0)],
        faction,
        group: None,
        health_class: HealthClass::Healthy,
        loadout_class: LoadoutClass::Improvised,
        personality_seed: 9,
        stats: stats(),
        combat_state: OfflineCombatState::Idle,
        die_at_tick: u64::MAX,
        target_2d: None,
        arrival_offline_tick: 0,
        travel_start_offline_tick: 0,
        travel_start_2d: [bits(1.0), bits(2.0)],
        waypoint_chain: Vec::new(),
        waypoint_chain_idx: 0,
        aggro_target: None,
        aggro_last_seen_tick: 0,
    }
}

fn fighter(id: u64, faction: FactionId, cell: (i32, i32)) -> Fighter {
    Fighter {
        id: NpcId(id),
        faction,
        position_2d: [bits(0.0), bits(0.0)],
        health_class: HealthClass::Healthy,
        die_at_tick: u64::MAX,
        accuracy: 50,
        cell_x: cell.0,
        cell_z: cell.1,
    }
}

#[test]
fn heartbeat_advances_every_divisor_ticks() {
    let mut offline = OfflineTierClock::default();
    for sim_tick in 1u64..=25 {
        tick_offline_clock(sim_tick, &mut offline);
    }
    assert_eq!(offline.tick, 2);
    assert_eq!(offline.last_sim_tick, 20);
}

#[test]
fn heartbeat_no_op_when_sim_clock_paused() {
    let mut offline = OfflineTierClock::default();
    for _ in 0..5 {
        tick_offline_clock(10, &mut offline);
    }
    assert_eq!(offline.tick, 1);
    assert!(offline_tick_just_advanced(10, &offline));
    assert!(!offline_tick_just_advanced(11, &offline));
}

#[test]
fn every_region_gets_its_turn() {
    let regions = vec![9, 2, 2, 5, 7];
    let mut seen = Vec::new();
    let mut now = 0;
    while seen.len() < 4 {
        now += 1;
        if offline_work_due(now) {
            seen.push(region_for_tick(&regions, now).unwrap());
        }
    }
    seen.sort();
    assert_eq!(seen, vec![2, 5, 7, 9]);
    assert_eq!(region_for_tick(&vec![], 4), None);
    assert!(!offline_work_due(0));
}

#[test]
fn health_classes_and_bodies() {
    let full = BodyParts::new_full();
    assert_eq!(body_parts_to_health_class(&full), HealthClass::Healthy);
    let mut b = full;
    b.left_leg = bits(74.9);
    assert_eq!(body_parts_to_health_class(&b), HealthClass::Wounded);
    b.left_leg = bits(75.0);
    assert_eq!(body_parts_to_health_class(&b), HealthClass::Healthy);
    b.right_arm = bits(24.9);
    assert_eq!(body_parts_to_health_class(&b), HealthClass::Critical);
    for (class, limb, vital) in [
        (HealthClass::Healthy, 50.0, 15.0),
        (HealthClass::Wounded, 30.0, 15.0),
        (HealthClass::Critical, 39.0, 10.0),
    ] {
        for n in 0..4 {
            for torso in [false, true] {
                let b = health_class_to_body_parts(class, n, bits(limb), torso, bits(vital));
                assert_eq!(body_parts_to_health_class(&b), class);
            }
        }
    }
    assert_eq!(wound_seed(HealthClass::Wounded, NpcId(1)), 0x57A1_FE03_BA53_57A2);
    assert_eq!(degrade_health_class(HealthClass::Healthy), Some(HealthClass::Wounded));
    assert_eq!(degrade_health_class(HealthClass::Wounded), Some(HealthClass::Critical));
    assert_eq!(degrade_health_class(HealthClass::Critical), None);
}

#[test]
fn tiers_keep_identity() {
    let reg = registry();
    let red = faction(&reg, "red");
    let on = OnlineNpc {
        id: NpcId(4),
        region: 3,
        faction: red,
        position: [bits(1.0), bits(2.0), bits(3.0)],
        body: Some(BodyParts::new_full()),
        group: Some(8),
        character: Some(Identity { character_id: CharacterId(77), stats: stats() }),
        die_at_tick: Some(1000),
        aggro: Some(Aggro { target: NpcId(5), last_seen_tick: 60 }),
    };
    let elsewhere = OnlineNpc { region: 4, character: None, aggro: None, ..on };
    let kept = project_online_to_offline(&vec![on, elsewhere], 3, &reg);
    assert_eq!(kept.len(), 1);
    let k = &kept[0];
    assert_eq!(
        k.combat_state,
        OfflineCombatState::Engaged { opponent: NpcId(5), since_tick: 60 }
    );
    assert_eq!(k.personality_seed, 77);
    let back = project_offline_to_online(&kept, 3, &reg);
    assert_eq!(back.len(), 1);
    assert_eq!(back[0].id, NpcId(4));
    assert_eq!(back[0].position_2d, [bits(1.0), bits(3.0)]);
    assert_eq!(back[0].group, Some(8));
    assert_eq!(back[0].aggro, on.aggro);
    assert_eq!(back[0].die_at_tick, 1000);
    assert!(project_offline_to_online(&kept, 4, &reg).is_empty());
    let bare = project_online_to_offline(&vec![elsewhere], 4, &reg);
    assert_eq!(bare[0].combat_state, OfflineCombatState::Idle);
    assert_eq!(bare[0].stats, NpcStats::roll(&mut Generator::new(4), 10));
    assert!((40..=90).contains(&bare[0].stats.accuracy));
}

#[test]
fn loadouts_go_by_faction_name() {
    let reg = registry();
    let f = |n: &str| faction_to_loadout_class(faction(&reg, n), &reg);
    assert_eq!(f("bandits"), LoadoutClass::Improvised);
    assert_eq!(f("choir"), LoadoutClass::Elite { faction: faction(&reg, "choir") });
    assert_eq!(f("red"), LoadoutClass::Standard { faction: faction(&reg, "red"), tier: 1 });
}

fn site(faction: FactionId, region: u32, node: Option<u32>, distance: f32) -> BaseSite {
    BaseSite {
        faction,
        region,
        position_2d: [bits(distance), bits(0.0)],
        node,
        distance: bits(distance),
    }
}

#[test]
fn targets_prefer_home_and_what_can_be_reached() {
    let reg = registry();
    let red = faction(&reg, "red");
    let blue = faction(&reg, "blue");
    let graph = WaypointGraph {
        nodes: vec![(0, 0), (1, 0), (5, 5)],
        edges: vec![vec![(1, 10)], vec![(0, 10)], vec![]],
    };
    let bases = vec![
        site(blue, 1, Some(1), 5.0),
        site(red, 1, Some(2), 9.0),
        site(red, 1, Some(1), 7.0),
        site(red, 2, Some(1), 7.0),
    ];
    assert_eq!(target_pool(&bases, 1, red, None, None), vec![1, 2]);
    assert_eq!(target_pool(&bases, 1, red, Some(&graph), Some(0)), vec![2]);
    assert_eq!(target_pool(&bases, 1, red, Some(&graph), None), vec![1, 2]);
    let green = faction(&reg, "green");
    assert_eq!(target_pool(&bases, 1, green, Some(&graph), Some(0)), vec![0, 2]);
    assert_eq!(target_pool(&bases[1..2].to_vec(), 1, red, Some(&graph), Some(0)), vec![0]);
    assert!(target_pool(&bases, 9, red, None, None).is_empty());
    let mut rng = Generator::new(5);
    for _ in 0..20 {
        let t = pick_offline_target(&mut rng, 1, red, &bases, None, None).unwrap();
        assert!(t == 1 || t == 2);
    }
    assert_eq!(pick_offline_target(&mut rng, 9, red, &bases, None, None), None);
    for seed in 0..20 {
        let mut rng = Generator::new(seed);
        let t = seek_target(seed, 1, red, &bases, None, None);
        assert_eq!(t, pick_offline_target(&mut rng, 1, red, &bases, None, None));
        assert_eq!(seek_target(seed, 1, red, &bases, Some(&graph), Some(0)), Some(2));
    }
    assert_eq!(seek_target(3, 9, red, &bases, None, None), None);
    let near = vec![site(red, 1, None, 0.5), site(red, 1, None, 9.0)];
    assert_eq!(settle_target(&vec![0, 1], &near, 1, 0), 1);
    assert_eq!(settle_target(&vec![0, 1], &near, 0, 1), 1);
    assert_eq!(settle_target(&vec![0, 1], &near, 0, 0), 0);
    assert_eq!(settle_target(&vec![0], &near, 0, 1), 0);
    assert!(redraw_needed(&vec![0, 1], &vec![site(red, 1, None, 0.5)], 0));
    assert!(!redraw_needed(&vec![0], &vec![site(red, 1, None, 0.5)], 0));
    assert!(wants_chain(Some(1), Some(2)) && !wants_chain(Some(1), Some(1)));
}

#[test]
fn legs_begin_progress_and_end() {
    let reg = registry();
    let red = faction(&reg, "red");
    let mut npcs = vec![offline(7, red, 1), offline(3, red, 1), offline(5, red, 2)];
    assert_eq!(work_order(&npcs, 1), vec![1, 0]);
    let told = offline_movement(&mut npcs, 1, 10);
    assert_eq!(told.len(), 2);
    assert_eq!(told[0].0, 1);
    assert!(matches!(told[0].1, MoveAction::Seek { .. }));
    begin_leg(&mut npcs[1], [bits(9.0), bits(9.0)], vec![4], 20, 10);
    assert_eq!(
        movement_for(&npcs[1], 15),
        MoveAction::Glide { elapsed: 5, total: 20 }
    );
    glide(&mut npcs[1], [bits(2.0), bits(2.0)]);
    npcs[0].combat_state = OfflineCombatState::Engaged { opponent: NpcId(1), since_tick: 0 };
    npcs[0].target_2d = Some([bits(4.0), bits(4.0)]);
    let told = offline_movement(&mut npcs, 1, 30);
    assert_eq!(told, vec![(1, MoveAction::Arrive), (0, MoveAction::Hold)]);
    assert_eq!(npcs[1].position_2d, [bits(9.0), bits(9.0)]);
    assert!(npcs[1].target_2d.is_none() && npcs[1].waypoint_chain.is_empty());
    assert!(npcs[0].target_2d.is_none());
    assert_eq!(npcs[0].position_2d, [bits(1.0), bits(2.0)]);
}

#[test]
fn foes_close_by_meet_once() {
    let reg = registry();
    let deltas = RelationDeltas::new();
    let red = faction(&reg, "red");
    let blue = faction(&reg, "blue");
    let green = faction(&reg, "green");
    let fs = vec![
        fighter(1, red, (0, 0)),
        fighter(2, blue, (1, 1)),
        fighter(3, blue, (2, 0)),
        fighter(4, green, (0, 0)),
        fighter(5, red, (i32::MAX, i32::MIN)),
        fighter(6, blue, (i32::MAX, i32::MIN)),
    ];
    assert_eq!(combat_pairs(&fs, &reg, &deltas), vec![(0, 1), (4, 5)]);
    let fs = vec![
        fighter(8, blue, (1, 0)),
        fighter(3, blue, (0, 0)),
        fighter(2, red, (1, 0)),
        fighter(5, red, (0, 0)),
    ];
    assert_eq!(combat_pairs(&fs, &reg, &deltas), vec![(2, 1), (2, 0), (1, 3), (3, 0)]);
    let fs = vec![
        fighter(1, red, (1, 0)),
        fighter(2, blue, (1, 0)),
        fighter(3, blue, (0, 0)),
        fighter(4, red, (0, 0)),
    ];
    assert_eq!(combat_pairs(&fs, &reg, &deltas), vec![(0, 1), (0, 2), (1, 3), (2, 3)]);
    assert_eq!(pair_seed(NpcId(1), NpcId(2), 8), pair_seed(NpcId(2), NpcId(1), 8));
    assert_ne!(pair_seed(NpcId(1), NpcId(2), 8), pair_seed(NpcId(1), NpcId(2), 12));
    assert_eq!(pair_seed(NpcId(0), NpcId(0), 8), 8);
}

fn hit(first: bool, second: bool) -> Exchange {
    Exchange { in_range: true, first_hits: first, second_hits: second }
}

#[test]
fn fights_wound_and_kill() {
    let reg = registry();
    let red = faction(&reg, "red");
    let blue = faction(&reg, "blue");
    let mut dying = fighter(2, blue, (0, 0));
    dying.health_class = HealthClass::Critical;
    let mut old = fighter(3, blue, (0, 0));
    old.die_at_tick = 4;
    let fs = vec![fighter(1, red, (0, 0)), dying, old, fighter(4, blue, (0, 0))];
    let pairs = vec![(0, 2), (0, 1), (1, 0), (0, 3)];
    let rolls = vec![hit(true, true), hit(true, true), hit(true, true), hit(true, false)];
    let m = fight(&fs, &pairs, &rolls, 4);
    assert_eq!(m.deaths.len(), 2);
    assert_eq!((m.deaths[0].id, m.deaths[0].killer), (NpcId(3), None));
    assert_eq!((m.deaths[1].id, m.deaths[1].killer), (NpcId(2), Some(red)));
    assert_eq!(m.shots, vec![1, 3]);
    assert_eq!(m.classes.get(1), Some(&HealthClass::Wounded));
    assert_eq!(m.classes.get(4), Some(&HealthClass::Wounded));
    assert_eq!(m.opponents.get(1), Some(&4));
    assert_eq!(m.opponents.get(2), Some(&1));
    let far = vec![Exchange { in_range: false, first_hits: true, second_hits: true }; 4];
    assert!(fight(&fs, &pairs, &far, 3).shots.is_empty());
}

#[test]
fn bases_are_held_by_the_many() {
    let reg = registry();
    let deltas = RelationDeltas::new();
    let red = faction(&reg, "red");
    let blue = faction(&reg, "blue");
    let fs = vec![fighter(1, red, (0, 0)), fighter(2, red, (0, 0)), fighter(3, blue, (0, 0))];
    let none = fight(&fs, &vec![], &vec![], 4);
    assert_eq!(dominant_faction(&fs, &vec![true; 3], &none), Some(red));
    assert_eq!(dominant_faction(&fs, &vec![true, false, true], &none), None);
    let watch = |owner| BaseWatch {
        owner,
        position_2d: [bits(0.0), bits(0.0)],
        near: vec![true; 3],
    };
    assert_eq!(base_flip(&fs, &watch(blue), &none, &reg, &deltas), Some(red));
    assert_eq!(base_flip(&fs, &watch(red), &none, &reg, &deltas), None);
    let green = faction(&reg, "green");
    assert_eq!(base_flip(&fs, &watch(green), &none, &reg, &deltas), None);
}

fn life(id: u64) -> LifeRecord {
    LifeRecord {
        id: NpcId(id),
        faction: "blue".to_string(),
        birth_tick: 0,
        birth_region: 1,
        birth_pos: [bits(0.0); 3],
        death_tick: None,
        death_region: None,
        death_cause: None,
        regions_visited: vec![],
    }
}

#[test]
fn rounds_are_settled_and_reported() {
    let reg = registry();
    let deltas = RelationDeltas::new();
    let red = faction(&reg, "red");
    let blue = faction(&reg, "blue");
    let mut npcs = vec![offline(1, red, 1), offline(2, blue, 1), offline(3, red, 1), offline(9, red, 2)];
    npcs[1].health_class = HealthClass::Critical;
    npcs[2].combat_state = OfflineCombatState::Engaged { opponent: NpcId(99), since_tick: 4 };
    let mut fs = vec![fighter(1, red, (0, 0)), fighter(2, blue, (0, 0)), fighter(3, red, (9, 9))];
    fs[1].health_class = HealthClass::Critical;
    let pairs = combat_pairs(&fs, &reg, &deltas);
    assert_eq!(pairs, vec![(0, 1)]);
    let mut chronicle = LifeChronicle::new();
    chronicle.insert(life(2));
    let mut log = PdaEventLog::default();
    let bases = vec![BaseWatch {
        owner: blue,
        position_2d: [bits(0.0), bits(0.0)],
        near: vec![true, true, true],
    }];
    let (dead, events) = offline_combat(
        &fs,
        &pairs,
        &vec![hit(true, false)],
        &bases,
        &reg,
        &deltas,
        1,
        208,
        &mut npcs,
        &mut chronicle,
        &mut log,
    );
    assert_eq!(dead.len(), 1);
    assert_eq!(
        events,
        vec![
            BusEvent::Gunshot { pair: 0 },
            BusEvent::AllyDown { id: NpcId(2), faction: blue, place: 1 },
            BusEvent::BaseFlip { new_owner: red, old_owner: blue, base: 0 },
        ]
    );
    assert_eq!(
        npcs[0].combat_state,
        OfflineCombatState::Engaged { opponent: NpcId(2), since_tick: 208 }
    );
    assert_eq!(npcs[2].combat_state, OfflineCombatState::Idle);
    assert_eq!(npcs[3].combat_state, OfflineCombatState::Idle);
    let rec = chronicle.get(NpcId(2)).unwrap();
    assert_eq!(rec.death_tick, Some(208));
    assert!(matches!(
        rec.death_cause.as_ref().unwrap(),
        DeathCause::Combat { killer_faction } if killer_faction == "red"
    ));
    let told: Vec<&PdaEvent> = log.all().iter().map(|e| &e.event).collect();
    assert_eq!(told.len(), 3);
    assert!(matches!(
        told[0],
        PdaEvent::OfflineCombatDeath { killed_faction, killer_faction, region: 1 }
            if killed_faction == "blue" && killer_faction == "red"
    ));
    assert!(matches!(told[1], PdaEvent::OfflineGunfire { region: 1 }));
    assert!(matches!(
        told[2],
        PdaEvent::BaseFlip { new_owner, old_owner: Some(o), region: 1 }
            if new_owner == "red" && o == "blue"
    ));
}

#[test]
fn fighters_come_by_number() {
    let reg = registry();
    let red = faction(&reg, "red");
    let mut npcs = vec![offline(9, red, 2), offline(4, red, 1), offline(7, red, 2)];
    npcs[2].stats.accuracy = 71;
    npcs[2].health_class = HealthClass::Wounded;
    let fs = fighters(&npcs, 2, &vec![(0, 1), (5, 5), (-3, 2)]);
    let ids: Vec<u64> = fs.iter().map(|f| f.id.0).collect();
    assert_eq!(ids, vec![7, 9]);
    assert_eq!((fs[0].cell_x, fs[0].cell_z), (-3, 2));
    assert_eq!(fs[0].accuracy, 71);
    assert_eq!(fs[0].health_class, HealthClass::Wounded);
    assert_eq!((fs[1].cell_x, fs[1].cell_z), (0, 1));
}
