use rand::rngs::mock::StepRng;
use rand::Rng;
use simn_sim::components::{
    GridInventory, ItemInstance, NpcCharacter, NpcId, NpcRank, PersonalityArchetype,
};
use simn_sim::faction::registry::FactionId;
use simn_sim::float_bits::F32Bits;
use simn_sim::inventory_grid::{count_of, grant_or_merge};
use simn_sim::items::{GridSize, ItemCategory, ItemDef, ItemId, ItemRegistry};
use simn_sim::loot_containers::{
    default_items_per_roll, default_weight, LootContainerDef, LootContainerRegistry,
};
use simn_sim::loot_pools::{one, quest_lottery_k, rarest, LootPool, LootPoolRegistry, PoolEntry};
use simn_sim::names::{
    bucket_for_roll, default_weights, draw_bucket, draws_male, first_path, last_path,
    weights_for_faction, NameRegistry, NationalityBucket,
};
use simn_sim::npc_loadouts::{
    flatten_grid, Loadout, LoadoutEntry, LoadoutError, LoadoutRoll, NpcLoadoutRegistry,
};
use simn_sim::rng::Generator;
use simn_sim::strmap::StrMap;
use simn_sim::weighted::{choose_weighted, entry_for_roll, pick_weighted};

fn rng() -> Generator {
    Generator::new(11)
}

fn bits(x: f32) -> F32Bits {
    F32Bits(x.to_bits())
}

fn weights(pairs: &[(&str, u32)]) -> StrMap<u32> {
    let mut m = StrMap::new();
    for (k, v) in pairs {
        m.insert(k.to_string(), *v);
    }
    m
}

fn kind(id: &str, weight: u32, difficulty: Vec<[u32; 2]>) -> LootContainerDef {
    LootContainerDef {
        id: id.to_string(),
        name: id.to_string(),
        grid: GridSize { w: 4, h: 4 },
        spawn_weight: weight,
        is_public: false,
        items_per_roll: default_items_per_roll(),
        family_weights: StrMap::new(),
        difficulty_weights: difficulty,
    }
}

#[test]
fn rolls_fall_on_weighted_entries() {
    let ws = vec![2, 0, 3];
    assert_eq!(entry_for_roll(&ws, 0), 0);
    assert_eq!(entry_for_roll(&ws, 1), 0);
    assert_eq!(entry_for_roll(&ws, 2), 2);
    assert_eq!(entry_for_roll(&ws, 4), 2);
    assert_eq!(choose_weighted(&vec![], 0, 0), None);
    assert_eq!(choose_weighted(&vec![0, 0], 1, 0), Some(1));
    assert_eq!(choose_weighted(&ws, 0, 99), Some(2));
    let mut r = rng();
    for _ in 0..50 {
        assert_ne!(pick_weighted(&mut r, &ws), Some(1));
    }
    assert_eq!(pick_weighted(&mut r, &vec![]), None);
}

#[test]
fn containers_are_picked_by_weight() {
    let reg = LootContainerRegistry::new(vec![
        kind("never", 0, vec![]),
        kind("often", 5, vec![]),
    ]);
    let mut r = rng();
    for _ in 0..50 {
        assert_eq!(reg.weighted_pick(&mut r).unwrap().id, "often");
    }
    assert_eq!(reg.kind_for(0, 4).unwrap().id, "often");
    assert_eq!(reg.get("never").unwrap().spawn_weight, 0);
    assert!(reg.get("ghost").is_none());
    assert_eq!(reg.len(), 2);
    assert_eq!(reg.iter()[1].id, "often");
    let empty = LootContainerRegistry::new(vec![]);
    assert!(empty.is_empty() && empty.weighted_pick(&mut r).is_none());
    let flat = LootContainerRegistry::new(vec![kind("a", 0, vec![])]);
    assert_eq!(flat.weighted_pick(&mut r).unwrap().id, "a");
    assert_eq!(default_weight(), 1);
}

#[test]
fn rewards_go_by_difficulty() {
    let reg = LootContainerRegistry::new(vec![
        kind("small", 1, vec![[1, 9], [2, 5]]),
        kind("large", 1, vec![[2, 0], [4, 7]]),
    ]);
    let mut r = rng();
    for _ in 0..20 {
        assert_eq!(reg.weighted_pick_for_difficulty(&mut r, 1).unwrap().id, "small");
        assert_eq!(reg.weighted_pick_for_difficulty(&mut r, 2).unwrap().id, "small");
        assert_eq!(reg.weighted_pick_for_difficulty(&mut r, 4).unwrap().id, "large");
        assert_eq!(reg.weighted_pick_for_difficulty(&mut r, 0).unwrap().id, "small");
        assert_eq!(reg.weighted_pick_for_difficulty(&mut r, 9).unwrap().id, "large");
    }
    assert!(reg.weighted_pick_for_difficulty(&mut r, 3).is_none());
    assert_eq!(reg.difficulty_tier(0), Some(1));
    assert_eq!(reg.difficulty_tier(6), Some(4));
    assert_eq!(reg.difficulty_tier(3), Some(3));
    let bare = LootContainerRegistry::new(vec![kind("bare", 1, vec![])]);
    assert_eq!(bare.difficulty_tier(0), None);
    assert!(bare.weighted_pick_for_difficulty(&mut r, 0).is_none());
}

#[test]
fn families_stand_in_order_of_name() {
    let mut k = kind("crate", 1, vec![]);
    assert_eq!(k.pick_family(&mut rng()), None);
    k.family_weights = weights(&[("tools", 2), ("ammo", 3), ("food", 0)]);
    assert_eq!(k.family_for(0, 0), Some("ammo"));
    assert_eq!(k.family_for(0, 2), Some("ammo"));
    assert_eq!(k.family_for(0, 3), Some("tools"));
    let mut r = rng();
    for _ in 0..30 {
        assert_ne!(k.pick_family(&mut r), Some("food"));
    }
    k.items_per_roll = [6, 2];
    for _ in 0..30 {
        assert!((2..=6).contains(&k.roll_items_per_roll(&mut r)));
    }
}

fn pool(faction: &str, tier: u8, family: &str, entries: Vec<PoolEntry>) -> LootPool {
    LootPool { faction: faction.to_string(), depth_tier: tier, family: family.to_string(), entries }
}

fn entry(id: &str, weight: u32, lo: u32, hi: u32) -> PoolEntry {
    PoolEntry { id: id.to_string(), weight, count_min: lo, count_max: hi }
}

#[test]
fn pools_fall_back() {
    let reg = LootPoolRegistry::new(vec![
        pool("red", 1, "ammo", vec![entry("a", 1, 1, 1)]),
        pool("nomads", 3, "ammo", vec![entry("b", 1, 1, 1)]),
        pool("nomads", 1, "food", vec![entry("c", 1, 1, 1)]),
        pool("red", 2, "food", vec![]),
    ]);
    let id = |f: &str, t: u8, fam: &str| reg.lookup(f, t, fam).map(|p| p.entries[0].id.clone());
    assert_eq!(id("red", 1, "ammo"), Some("a".to_string()));
    assert_eq!(id("red", 3, "ammo"), Some("a".to_string()));
    assert_eq!(id("blue", 3, "ammo"), Some("b".to_string()));
    assert_eq!(id("blue", 3, "food"), Some("c".to_string()));
    assert_eq!(id("blue", 3, "tools"), None);
    assert!(reg.roll_one(&mut rng(), "red", 2, "food").is_none());
    assert!(reg.roll_one(&mut rng(), "red", 2, "tools").is_none());
    assert_eq!((reg.len(), reg.is_empty()), (4, false));
}

#[test]
fn rolls_give_items_and_counts() {
    let reg = LootPoolRegistry::new(vec![pool(
        "red",
        1,
        "ammo",
        vec![entry("common", 90, 5, 2), entry("rare", 10, 1, 1), entry("never", 0, 1, 1)],
    )]);
    let mut r = rng();
    for _ in 0..40 {
        let item = reg.roll_one(&mut r, "red", 1, "ammo").unwrap();
        match item.id.0.as_str() {
            "common" => assert!((2..=5).contains(&item.count)),
            "rare" => assert_eq!(item.count, 1),
            other => panic!("rolled {other}"),
        }
    }
    let mut rare = 0;
    for _ in 0..40 {
        if reg.roll_quest_reward(&mut r, "red", 1, "ammo", 40).unwrap().id.0 == "rare" {
            rare += 1;
        }
    }
    assert!(rare > 30);
    assert_eq!(one(), 1);
}

#[test]
fn the_rarest_candidate_wins() {
    let entries = vec![entry("a", 5, 1, 1), entry("b", 2, 1, 1), entry("c", 2, 1, 1)];
    assert_eq!(rarest(&entries, &vec![0, 2, 1]), 2);
    assert_eq!(rarest(&entries, &vec![0]), 0);
    let k: Vec<u32> = (0..8).map(quest_lottery_k).collect();
    assert_eq!(k, vec![1, 1, 1, 2, 3, 5, 1, 1]);
}

fn item(id: &str) -> ItemDef {
    ItemDef {
        id: ItemId::new(id),
        name: id.to_string(),
        category: ItemCategory::Misc,
        weight: F32Bits(0),
        stack_size: 5,
        perishable_ticks: None,
        consume_action: None,
        salvage: None,
        tool: None,
        size: GridSize { w: 1, h: 1 },
        rotatable: false,
        inner_grid: None,
        equip_slots: Vec::new(),
        weapon_config: None,
        magazine_config: None,
        ammo_config: None,
        armor_config: None,
        attachment_config: None,
    }
}

fn items() -> ItemRegistry {
    ItemRegistry::build(vec![item("bandage"), item("ration"), item("coin")]).unwrap()
}

fn roll(id: &str, count: u32, chance: f32) -> LoadoutRoll {
    LoadoutRoll { id: ItemId::new(id), count, chance: bits(chance) }
}

fn loadouts() -> NpcLoadoutRegistry {
    NpcLoadoutRegistry::build(
        vec![
            LoadoutEntry {
                faction: "coalition".to_string(),
                rolls: vec![
                    roll("bandage", 2, 1.0),
                    roll("coin", 0, 0.5),
                    roll("coin", 3, 0.25),
                    roll("ration", 7, 1.0),
                ],
            },
            LoadoutEntry { faction: "looters".to_string(), rolls: vec![roll("coin", 1, 0.5)] },
        ],
        &items(),
    )
    .unwrap()
}

#[test]
fn loads_and_validates_from_toml() {
    let regs = loadouts();
    assert!(!regs.get("coalition").rolls.is_empty());
    assert!(!regs.get("looters").rolls.is_empty());
}

#[test]
fn guaranteed_rolls_always_grant() {
    let regs = loadouts();
    let stacks = regs.get("coalition").generate(&vec![bits(0.99)]);
    assert!(stacks.iter().any(|(id, _)| id.0 == "bandage"));
    assert_eq!(stacks.len(), 2);
    assert_eq!(regs.get("coalition").draws_needed(), 1);
    let stacks = regs.get("coalition").generate(&vec![bits(0.1)]);
    assert_eq!(stacks.len(), 3);
    assert_eq!(regs.guaranteed_stack_count("coalition"), 9);
}

#[test]
fn build_inventory_populates_grid() {
    let regs = loadouts();
    let grid = regs.build_inventory("coalition", &items(), &vec![bits(0.0)]);
    assert!(!grid.items.is_empty());
    assert_eq!(count_of(&grid, &ItemId::new("ration")), 7);
    assert_eq!(count_of(&grid, &ItemId::new("coin")), 3);
    assert_eq!((grid.width, grid.height), (4, 4));
    let flat = flatten_grid(&grid);
    assert_eq!(flat.len(), 3);
    let ration: Vec<&ItemInstance> = flat.iter().filter(|s| s.id.0 == "ration").collect();
    assert_eq!(ration.len(), 1);
    assert_eq!(ration[0].count, 7);
}

#[test]
fn unknown_faction_returns_empty_loadout() {
    let regs = loadouts();
    assert!(regs.get("nomads").rolls.is_empty());
    let nothing: &Loadout = regs.get("nomads");
    assert!(nothing.generate(&vec![]).is_empty());
}

#[test]
fn loadouts_are_checked() {
    let bad = |r: LoadoutRoll| {
        NpcLoadoutRegistry::build(
            vec![LoadoutEntry { faction: "x".to_string(), rolls: vec![r] }],
            &items(),
        )
    };
    assert!(matches!(bad(roll("ghost", 1, 1.0)), Err(LoadoutError::UnknownItem { .. })));
    assert!(matches!(bad(roll("coin", 1, 1.5)), Err(LoadoutError::ChanceOutOfRange { .. })));
    assert!(matches!(bad(roll("coin", 1, f32::NAN)), Err(LoadoutError::ChanceOutOfRange { .. })));
    assert!(bad(roll("coin", 1, 0.0)).is_ok());
}

#[test]
fn stacks_without_room_are_dropped() {
    let reg = items();
    let many = vec![(ItemId::new("coin"), 200), (ItemId::new("ghost"), 3)];
    let grid = NpcLoadoutRegistry::place_stacks(&reg, &many);
    assert_eq!(count_of(&grid, &ItemId::new("coin")), 80);
    let mut g = GridInventory::new(1, 1);
    grant_or_merge(&mut g, &reg, &ItemId::new("coin"), 2, 0).unwrap();
    assert_eq!(g.total_count(), 2);
}

#[test]
fn names_are_drawn_from_pools() {
    let mut first: Vec<String> = vec![String::new(); 8];
    let mut last: Vec<String> = vec![String::new(); 8];
    first[2] = "# slavic\nM Ivan\nf Olga\n".to_string();
    last[2] = "Petrov\n\n# x\n".to_string();
    let reg = NameRegistry::from_texts(&first, &last);
    let b = NationalityBucket::Slavic;
    let mut r = rng();
    assert_eq!(reg.draw_name(&mut r, b, true), "Ivan Petrov");
    assert_eq!(reg.draw_name(&mut r, b, false), "Olga Petrov");
    assert_eq!(reg.draw_name(&mut r, NationalityBucket::American, true), "Anon Doe");
    let slavic = weights(&[("slavic", 2)]);
    assert_eq!(
        reg.roll_for_faction(&mut r, &slavic, |_| bits(0.91)),
        (b, "Ivan Petrov".to_string())
    );
    assert_eq!(
        reg.roll_for_faction(&mut r, &slavic, |_| bits(0.93)),
        (b, "Olga Petrov".to_string())
    );
    assert_eq!(
        reg.roll_for_faction_gendered(&mut r, &slavic, bits(0.0), |_| bits(0.0)).1,
        "Olga Petrov"
    );
    let (drawn, name) = reg.roll(&mut r, |_| bits(0.0));
    assert_eq!(name == "Ivan Petrov", drawn == b);
    assert_eq!(reg.last_names(b).len(), 1);
    assert!(!reg.first_names(b).is_empty());
    assert_eq!(first_path(b), "names/first/slavic.txt");
    assert_eq!(last_path(b), "names/last/slavic.txt");
}

#[test]
fn buckets_are_drawn_by_weight() {
    let ws = weights_for_faction(&weights(&[("slavic", 3), ("nowhere", 9)]));
    let mut r = rng();
    for _ in 0..20 {
        assert_eq!(draw_bucket(&mut r, &ws), NationalityBucket::Slavic);
    }
    assert_eq!(default_weights().len(), 8);
    assert_eq!(bucket_for_roll(&default_weights(), 7), NationalityBucket::numbered(7));
    assert!(draws_male(bits(0.5), bits(0.92)) && !draws_male(bits(0.95), bits(0.92)));
    assert_eq!(NationalityBucket::from_name("slavic"), Some(NationalityBucket::Slavic));
    assert_eq!(NationalityBucket::Slavic.name(), "slavic");
}

#[test]
fn characters_are_rolled_from_their_identity() {
    let mut first: Vec<String> = vec![String::new(); 8];
    let mut last: Vec<String> = vec![String::new(); 8];
    first[0] = "M Ann\nM Bo\nF Cy\n".to_string();
    last[0] = "Day\nEve\n".to_string();
    let names = NameRegistry::from_texts(&first, &last);
    let american = weights(&[("american", 1)]);
    let roll = |npc: u64, archetype: PersonalityArchetype, x: f32| {
        NpcCharacter::roll(
            NpcId(npc),
            FactionId(3),
            archetype,
            10,
            &names,
            &american,
            Some(bits(0.5)),
            |_| bits(x),
            |w| bits(StepRng::new(u64::from(w), 0).gen_range(0.0..1.0)),
        )
    };
    let one = roll(7, PersonalityArchetype::Disciplined, 0.5);
    assert_eq!(one, roll(7, PersonalityArchetype::Disciplined, 0.5));
    assert_eq!(one.character_id, NpcCharacter::derive_id(NpcId(7), FactionId(3)));
    assert_eq!(one.kills, 0);
    assert_eq!(one.nationality, NationalityBucket::American);
    assert_eq!(one.rank, NpcRank::from_stats(&one.stats));
    assert!((40..=90).contains(&one.stats.accuracy) && (30..=80).contains(&one.stats.luck));
    assert!(one.personality.disciplined && one.personality.loyal && one.personality.cautious);
    assert!(!one.personality.aggressive && !one.personality.reckless && !one.personality.social);
    let calm = roll(7, PersonalityArchetype::Default, 0.5);
    assert!(!calm.personality.disciplined);
    assert_ne!(roll(8, PersonalityArchetype::Default, 0.5).character_id, one.character_id);
}

#[test]
fn registries_without_a_file_are_empty() {
    assert!(LootPoolRegistry::from_read(None).is_empty());
    assert!(LootContainerRegistry::from_read(None).is_empty());
    let kinds = LootContainerRegistry::from_read(Some(vec![kind("crate", 1, vec![])]));
    assert_eq!(kinds.len(), 1);
    assert!(kinds.get("crate").is_some());
    let pool = LootPool {
        faction: "nomads".to_string(),
        depth_tier: 1,
        family: "food".to_string(),
        entries: vec![],
    };
    let pools = LootPoolRegistry::from_read(Some(vec![pool]));
    assert!(pools.lookup("other", 1, "food").is_some());
}
