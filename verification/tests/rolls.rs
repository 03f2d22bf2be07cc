use rand::rngs::mock::StepRng;
use rand::seq::SliceRandom;
use rand::{Rng, SeedableRng};
use rand_chacha::ChaCha8Rng;
use simn_sim::components::{NpcCharacter, NpcId, NpcStats, PersonalityArchetype};
use simn_sim::faction::registry::FactionId;
use simn_sim::float_bits::F32Bits;
use simn_sim::goap::WorldState;
use simn_sim::items::GridSize;
use simn_sim::loot_containers::{LootContainerDef, LootContainerRegistry};
use simn_sim::loot_pools::{LootPool, LootPoolRegistry, PoolEntry};
use simn_sim::names::{draws_male, NameRegistry, NationalityBucket};
use simn_sim::offline_movement::{seek_target, BaseSite};
use simn_sim::patrol_zone::PatrolZones;
use simn_sim::rng::Generator;
use simn_sim::strmap::StrMap;
use simn_sim::waypoints::WaypointGraph;
use simn_sim::weighted::{choose_weighted, pick_weighted};

fn bits(x: f32) -> F32Bits {
    F32Bits(x.to_bits())
}

fn trait_draw(word: u32) -> F32Bits {
    bits(StepRng::new(u64::from(word), 0).gen::<f32>())
}

fn sex_draw(word: u32) -> F32Bits {
    bits(StepRng::new(u64::from(word), 0).gen_range(0.0..1.0))
}

fn names() -> NameRegistry {
    let first: Vec<String> =
        (0..8).map(|i| format!("M A{i}\nM B{i}\nM C{i}\nF D{i}\nF E{i}\n")).collect();
    let last: Vec<String> = (0..8).map(|i| format!("V{i}\nW{i}\nX{i}\nY{i}\nZ{i}\n")).collect();
    NameRegistry::from_texts(&first, &last)
}

#[test]
fn a_character_takes_the_draws_of_its_seed() {
    let names = names();
    for npc in 0..50u64 {
        let c = NpcCharacter::roll(
            NpcId(npc),
            FactionId(3),
            PersonalityArchetype::Aggressive,
            -7,
            &names,
            &StrMap::new(),
            Some(bits(0.6)),
            trait_draw,
            sex_draw,
        );
        let mut rng = ChaCha8Rng::seed_from_u64(c.character_id.0);
        let stats: Vec<u8> = (0..8).map(|_| rng.gen_range(30u8..=80)).collect();
        assert_eq!(c.stats, NpcStats::from_draws(&stats, -7));
        let traits: Vec<F32Bits> = (0..10).map(|_| bits(rng.gen::<f32>())).collect();
        let expected = PersonalityArchetype::Aggressive.traits_from_draws(&traits);
        assert_eq!(c.personality, expected);
        let bucket = NationalityBucket::numbered(rng.gen_range(0..8u32) as usize);
        assert_eq!(c.nationality, bucket);
        let male = draws_male(bits(rng.gen_range(0.0..1.0)), bits(0.6));
        let firsts = if male { 3 } else { 2 };
        let i = rng.gen_range(0..firsts);
        let j = rng.gen_range(0..5);
        assert_eq!(c.name, names.full_name(bucket, male, i, j));
    }
}

#[test]
fn a_generator_gives_what_is_underneath() {
    let mut g = Generator::new(21);
    let mut rng = ChaCha8Rng::seed_from_u64(21);
    assert_eq!(g.inner().gen::<u64>(), rng.gen::<u64>());
    let s = NpcStats::roll(&mut g, 0);
    let draws: Vec<u8> = (0..8).map(|_| rng.gen_range(30u8..=80)).collect();
    assert_eq!(s, NpcStats::from_draws(&draws, 0));
}

#[test]
fn picks_take_the_draws_of_their_seed() {
    for seed in 0..40 {
        let mut rng = ChaCha8Rng::seed_from_u64(seed);
        let mut g = Generator::new(seed);
        let ws = vec![3, 0, 5, 9];
        let roll = rng.gen_range(0..17u64);
        assert_eq!(pick_weighted(&mut g, &ws), choose_weighted(&ws, 0, roll));
        let even = vec![0; 6];
        let place = rng.gen_range(0..6usize);
        assert_eq!(pick_weighted(&mut g, &even), Some(place));
        assert_eq!(pick_weighted(&mut g, &vec![]), None);
        let roll = rng.gen_range(0..17u64);
        assert_eq!(pick_weighted(&mut g, &ws), choose_weighted(&ws, 0, roll));
    }
}

fn base(region: u32, distance: f32) -> BaseSite {
    BaseSite {
        faction: FactionId(1),
        region,
        position_2d: [bits(distance), bits(0.0)],
        node: None,
        distance: bits(distance),
    }
}

#[test]
fn targets_take_the_draws_of_their_seed() {
    let bases = vec![base(1, 0.5), base(2, 4.0), base(1, 9.0), base(1, 7.0)];
    let pool = vec![0usize, 2, 3];
    for seed in 0..40 {
        let mut rng = ChaCha8Rng::seed_from_u64(seed);
        let mut t = *pool.choose(&mut rng).unwrap();
        if t == 0 {
            t = *pool.choose(&mut rng).unwrap();
        }
        assert_eq!(seek_target(seed, 1, FactionId(1), &bases, None, None), Some(t));
    }
}

#[test]
fn zones_take_the_draws_of_their_seed() {
    for seed in 0..10 {
        let mut rng = ChaCha8Rng::seed_from_u64(seed);
        let mut best: u32 = 0;
        for n in 1..64u32 {
            if rng.gen_range(0..n + 1) == 0 {
                best = n;
            }
        }
        let zone = PatrolZones::default().pick_zone(7, &mut Generator::new(seed));
        assert_eq!((zone.x, zone.z), (best as i32 / 8 - 4, best as i32 % 8 - 4));
    }
}

fn item(name: &str, weight: u32) -> PoolEntry {
    PoolEntry { id: name.to_string(), weight, count_min: 9, count_max: 2 }
}

#[test]
fn loot_takes_the_draws_of_its_seed() {
    let pool = LootPool {
        faction: "red".to_string(),
        depth_tier: 1,
        family: "food".to_string(),
        entries: vec![item("soup", 6), item("bread", 3), item("cake", 1)],
    };
    let reg = LootPoolRegistry::from_read(Some(vec![pool]));
    let ws = vec![6, 3, 1];
    for seed in 0..40 {
        let mut rng = ChaCha8Rng::seed_from_u64(seed);
        let i = choose_weighted(&ws, 0, rng.gen_range(0..10u64)).unwrap();
        let n = rng.gen_range(2..=9u32);
        let got = reg.roll_one(&mut Generator::new(seed), "red", 1, "food").unwrap();
        assert_eq!((got.id.0.as_str(), got.count), (["soup", "bread", "cake"][i], n));
        let mut rng = ChaCha8Rng::seed_from_u64(seed);
        let mut rarest = 0;
        for _ in 0..3 {
            rarest = rarest.max(choose_weighted(&ws, 0, rng.gen_range(0..10u64)).unwrap());
        }
        let n = rng.gen_range(2..=9u32);
        let got = reg.roll_quest_reward(&mut Generator::new(seed), "red", 1, "food", 3).unwrap();
        assert_eq!((got.id.0.as_str(), got.count), (["soup", "bread", "cake"][rarest], n));
    }
}

#[test]
fn containers_take_the_draws_of_their_seed() {
    let kind = |id: &str, weight: u32| LootContainerDef {
        id: id.to_string(),
        name: id.to_string(),
        grid: GridSize { w: 4, h: 4 },
        spawn_weight: weight,
        is_public: false,
        items_per_roll: [7, 3],
        family_weights: [("tools", 4), ("food", 2), ("arms", 1)]
            .iter()
            .fold(StrMap::new(), |mut m, (k, w)| {
                m.insert(k.to_string(), *w);
                m
            }),
        difficulty_weights: vec![[2, weight + 1]],
    };
    let reg = LootContainerRegistry::from_read(Some(vec![kind("crate", 2), kind("box", 5)]));
    for seed in 0..40 {
        let mut rng = ChaCha8Rng::seed_from_u64(seed);
        let mut g = Generator::new(seed);
        let i = choose_weighted(&vec![2, 5], 0, rng.gen_range(0..7u64)).unwrap();
        let got = reg.weighted_pick(&mut g).unwrap();
        assert_eq!(got.id, ["crate", "box"][i]);
        let f = choose_weighted(&vec![1, 2, 4], 0, rng.gen_range(0..7u64)).unwrap();
        assert_eq!(got.pick_family(&mut g), Some(["arms", "food", "tools"][f]));
        assert_eq!(got.roll_items_per_roll(&mut g), rng.gen_range(3..=7u32));
    }
}

#[test]
fn nearest_waypoint_passes_over_what_is_no_number() {
    let g = WaypointGraph {
        nodes: vec![(0, 0), (1, 0), (2, 0)],
        edges: vec![vec![], vec![], vec![]],
    };
    let at = |d: [f32; 3]| g.nearest_node(&d.iter().map(|x| bits(*x)).collect());
    assert_eq!(at([1.0, f32::NAN, 5.0]), Some(2));
    assert_eq!(at([1.0, 5.0, f32::NAN]), Some(2));
    assert_eq!(at([f32::NAN, 1.0, 5.0]), Some(1));
    assert_eq!(at([4.0, 1.0, 1.0]), Some(1));
}

#[test]
fn states_are_as_far_both_ways() {
    let a = WorldState(0b1_0110);
    let b = WorldState(0b0_0011);
    assert_eq!(a.distance(b), 3);
    assert_eq!(b.distance(a), 3);
    assert_eq!(a.distance(a), 0);
    assert_eq!(WorldState(0).distance(WorldState(u32::MAX)), 32);
}
