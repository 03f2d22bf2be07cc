use simn_sim::components::{
    default_depth_tier, ActiveEffects, CharacterId, Contamination, DrugKind, DwellPose, DwellState,
    EffectKind, GoapPlanComp, GridInventory, Inventory, ItemInstance, ItemRotation, JamState,
    MagazineState, NpcCharacter, NpcRank, NpcStats, Pain, PersonalityArchetype, PersonalityTraits,
    ProjectileId,
};
use simn_sim::float_bits::F32Bits;
use simn_sim::goap::{Action, WorldState, HAS_AMMO, IN_COVER, IN_RANGE};
use simn_sim::inventory_grid::{fits_at_with_registry, place_at_with_inner, PlacementError};
use simn_sim::items::{
    Caliber, ConsumeAction, GridSize, ItemCategory, ItemDef, ItemId, ItemRegistry, SlotId,
};
use simn_sim::names::{NameRegistry, NationalityBucket};
use simn_sim::rng::Generator;

fn bits(x: f32) -> F32Bits {
    F32Bits(x.to_bits())
}

fn character(draws: u8) -> NpcCharacter {
    let stats = NpcStats::from_draws(&vec![draws; 8], 0);
    NpcCharacter {
        character_id: CharacterId(1),
        stats,
        personality: PersonalityTraits::default(),
        rank: NpcRank::from_stats(&stats),
        name: "Ann Day".to_string(),
        nationality: NationalityBucket::American,
        kills: 0,
    }
}

#[test]
fn kills_raise_the_rank() {
    let mut c = character(54);
    assert_eq!(c.effective_competence(), 270);
    assert_eq!(c.rank, NpcRank::Rookie);
    for _ in 0..3 {
        c.record_kill();
    }
    assert_eq!((c.kills, c.effective_competence(), c.rank), (3, 279, NpcRank::Rookie));
    c.record_kill();
    assert_eq!((c.kills, c.effective_competence(), c.rank), (4, 282, NpcRank::Experienced));
    c.kills = u16::MAX;
    c.record_kill();
    assert_eq!((c.kills, c.effective_competence(), c.rank), (u16::MAX, 500, NpcRank::Legend));
}

#[test]
fn traits_go_by_their_likelihood() {
    let mut draws = vec![bits(0.99); 10];
    draws[0] = bits(0.84);
    draws[5] = bits(0.65);
    let t = PersonalityArchetype::Aggressive.traits_from_draws(&draws);
    assert!(t.aggressive && !t.bloodthirsty && !t.reckless);
    let mut rng = Generator::new(3);
    let draw = |_: u32| bits(0.0);
    let all = PersonalityArchetype::Default.roll_traits(&mut rng, &draw);
    assert!(all.aggressive && all.cautious && all.curious && all.greedy && all.loyal);
    assert!(all.bloodthirsty && all.social && all.solitary && all.disciplined && all.reckless);
}

#[test]
fn names_are_split_by_sex() {
    let mut first: Vec<String> = vec![String::new(); 8];
    first[0] = "  M Ann \nBo\r\nf Cy\n#no\n\nFred\n".to_string();
    let reg = NameRegistry::from_texts(&first, &vec![String::new(); 8]);
    let b = NationalityBucket::American;
    assert_eq!(reg.first_names_male(b), ["Ann", "Bo", "Fred"]);
    assert_eq!(reg.first_names_female(b), ["Cy"]);
    assert_eq!(reg.first_names(b), ["Ann", "Bo", "Fred", "Cy"]);
    let mut rng = Generator::new(3);
    let only = vec![(b, 0), (NationalityBucket::Slavic, 4)];
    let (drawn, name) = reg.roll_with_weights(&mut rng, &only, bits(0.5), |_| bits(0.4));
    assert_eq!((drawn, name.as_str()), (NationalityBucket::Slavic, "Anon Doe"));
}

#[test]
fn drugs_have_their_effect() {
    assert_eq!(DrugKind::Morphine.primary_effect(), EffectKind::Morphine);
    assert_eq!(DrugKind::AntiTox.primary_effect(), EffectKind::AntiTox);
    assert!(ConsumeAction::ApplyBandage.needs_body_part());
    assert!(ConsumeAction::ApplyWoundPack.needs_body_part());
    assert!(!ConsumeAction::ApplyAntibiotics.needs_body_part());
    assert!(!ConsumeAction::ApplyDrug { drug: DrugKind::Morphine }.needs_body_part());
}

#[test]
fn plans_go_step_by_step_and_age() {
    let mut p = GoapPlanComp::default();
    assert_eq!(p.current_action(), None);
    p.advance();
    p.actions = vec!["Reload", "Shoot"];
    p.planned_at_tick = 10;
    assert_eq!(p.current_action(), Some("Reload"));
    p.advance();
    assert_eq!(p.current_action(), Some("Shoot"));
    assert!(!p.is_stale(15, 5) && p.is_stale(16, 5) && !p.is_stale(3, 0));
}

#[test]
fn actions_need_and_change_bits() {
    let peek = Action {
        name: "Peek",
        preconditions: WorldState(IN_COVER),
        positive_effects: WorldState(IN_RANGE | HAS_AMMO),
        negative_effects: WorldState(IN_COVER | HAS_AMMO),
        cost: 1,
    };
    assert!(!peek.can_run(WorldState(IN_RANGE)));
    assert!(peek.can_run(WorldState(IN_COVER | HAS_AMMO)));
    assert_eq!(peek.apply(WorldState(IN_COVER)), WorldState(IN_RANGE));
}

#[test]
fn fresh_components_are_empty() {
    assert_eq!(Pain::default().0, bits(0.0));
    assert_eq!(Contamination::default().toxicity, bits(0.0));
    assert!(ActiveEffects::default().0.is_empty());
    assert_eq!(DwellState::default().pose, DwellPose::Standing);
    assert_eq!(Inventory::default().0.capacity_cells(), 16);
    assert_eq!(GridInventory::new(u32::MAX, 2).capacity_cells(), u32::MAX);
    assert_eq!(default_depth_tier(), 1);
    assert_eq!(ProjectileId::from(9), ProjectileId(9));
    assert_eq!(SlotId::from("head".to_string()).0, "head");
    assert_eq!(Caliber::from("9x19".to_string()).0, "9x19");
    assert!(!JamState::default().is_jammed() && JamState::Stovepipe.is_jammed());
}

fn stack(id: &str) -> ItemInstance {
    ItemInstance { id: ItemId::new(id), count: 1, spawned_tick: 0, magazine_state: None }
}

#[test]
fn magazines_know_their_rounds() {
    let mut mag = stack("mag");
    assert_eq!(mag.loaded_rounds(), 0);
    mag.magazine_state = Some(MagazineState { loaded_rounds: 17, variant: None });
    assert_eq!(mag.loaded_rounds(), 17);
}

fn pack() -> ItemDef {
    ItemDef {
        id: ItemId::new("pack"),
        name: "pack".to_string(),
        category: ItemCategory::Backpack,
        weight: bits(1.0),
        stack_size: 1,
        perishable_ticks: None,
        consume_action: None,
        salvage: None,
        tool: None,
        size: GridSize { w: 2, h: 3 },
        rotatable: true,
        inner_grid: Some(GridSize { w: 5, h: 5 }),
        equip_slots: Vec::new(),
        weapon_config: None,
        magazine_config: None,
        ammo_config: None,
        armor_config: None,
        attachment_config: None,
    }
}

#[test]
fn containers_keep_what_is_in_them() {
    let mut items = ItemRegistry::empty_for_test();
    items.insert_for_test(pack());
    let mut grid = GridInventory::new(4, 4);
    let mut inner = GridInventory::new(5, 5);
    let deg0 = ItemRotation::Deg0;
    assert_eq!(place_at_with_inner(&mut inner, &items, stack("pack"), None, 0, 0, deg0), Ok(0));
    let turned = ItemRotation::Deg90;
    let placed = place_at_with_inner(&mut grid, &items, stack("pack"), Some(inner), 1, 2, turned);
    assert_eq!(placed, Ok(0));
    assert_eq!(grid.items[0].inner_grid.as_ref().unwrap().items.len(), 1);
    assert_eq!(
        fits_at_with_registry(&grid, &items, 3, 3, 1, 1, None),
        Err(PlacementError::Overlap(0))
    );
    assert_eq!(fits_at_with_registry(&grid, &items, 3, 3, 1, 1, Some(0)), Ok(()));
    assert_eq!(fits_at_with_registry(&grid, &items, 0, 2, 1, 2, None), Ok(()));
    assert_eq!(
        place_at_with_inner(&mut grid, &items, stack("ghost"), None, 0, 0, deg0),
        Err(PlacementError::UnknownItem(ItemId::new("ghost")))
    );
}
