use simn_sim::float_bits::F32Bits;
use simn_sim::idmap::IdMap;
use simn_sim::items::{
    default_grid_size, default_slot_size, default_stack_size, jam_chance_at_condition,
    validate_attachment_chain, AttachmentConfig, AttachmentError, Caliber, CraftStation, EquipmentSlotDef,
    EquipmentSlotRegistry, GridSize, ItemCategory, ItemDef, ItemId, ItemRegistry, Recipe,
    RecipeRegistry, SlotId, SlotLayoutError, SlotPosition, WeaponConfig, WeaponSlot,
};
use simn_sim::strmap::StrMap;
use simn_sim::text::{str_eq, str_lt};

fn def(id: &str, category: ItemCategory) -> ItemDef {
    ItemDef {
        id: ItemId::new(id),
        name: id.to_string(),
        category,
        weight: F32Bits(0),
        stack_size: default_stack_size(),
        perishable_ticks: None,
        consume_action: None,
        salvage: None,
        tool: None,
        size: default_grid_size(),
        rotatable: false,
        inner_grid: None,
        equip_slots: Vec::new(),
        weapon_config: None,
        magazine_config: None,
        ammo_config: None,
        armor_config: None,
        attachment_config: None,
    }
}

fn slot(id: &str, accepts: Vec<ItemCategory>, hotbar: u8) -> EquipmentSlotDef {
    EquipmentSlotDef {
        id: SlotId(id.to_string()),
        label: id.to_string(),
        accepts,
        position: SlotPosition { x: 0, y: 0 },
        size: default_slot_size(),
        is_hotbar: hotbar != 0,
        hotbar_index: hotbar,
    }
}

#[test]
fn items_are_found_by_id() {
    let reg =
        ItemRegistry::build(vec![def("a", ItemCategory::Misc), def("b", ItemCategory::Food)])
            .unwrap();
    assert_eq!(reg.len(), 2);
    assert!(reg.contains(&ItemId::new("a")) && !reg.contains(&ItemId::new("c")));
    assert_eq!(reg.get(&ItemId::new("b")).unwrap().category, ItemCategory::Food);
    assert_eq!(reg.iter().len(), 2);
    let twice = ItemRegistry::build(vec![
        def("a", ItemCategory::Misc),
        def("b", ItemCategory::Misc),
        def("a", ItemCategory::Food),
    ]);
    assert_eq!(twice.unwrap_err(), ItemId::new("a"));
    let mut reg = reg;
    reg.set_perishable_for_test(&ItemId::new("b"), Some(9));
    assert_eq!(reg.get(&ItemId::new("b")).unwrap().perishable_ticks, Some(9));
    assert!(ItemRegistry::empty_for_test().is_empty());
}

#[test]
fn recipes_are_found_by_id() {
    let recipe = |id: &str| Recipe {
        id: id.to_string(),
        name: id.to_string(),
        required_tool: None,
        required_kit: None,
        required_context: None,
        time_ticks: 5,
        inputs: vec![],
        outputs: vec![],
    };
    let reg = RecipeRegistry::build(vec![recipe("x"), recipe("y")]).unwrap();
    assert_eq!(reg.len(), 2);
    assert!(!reg.is_empty());
    assert_eq!(reg.get("y").unwrap().time_ticks, 5);
    assert!(reg.get("z").is_none());
    assert_eq!(reg.iter().len(), 2);
    assert_eq!(RecipeRegistry::build(vec![recipe("x"), recipe("x")]).unwrap_err(), "x");
}

#[test]
fn slots_accept_categories_or_the_whitelist() {
    let reg = EquipmentSlotRegistry::build(vec![
        slot("head", vec![ItemCategory::HeadGear], 0),
        slot("hand", vec![ItemCategory::Tool], 1),
    ])
    .unwrap();
    let head = SlotId("head".to_string());
    let hand = SlotId("hand".to_string());
    let hat = def("hat", ItemCategory::HeadGear);
    assert!(reg.can_equip(&head, &hat) && !reg.can_equip(&hand, &hat));
    let mut odd = def("odd", ItemCategory::HeadGear);
    odd.equip_slots = vec![hand.clone()];
    assert!(!reg.can_equip(&head, &odd) && reg.can_equip(&hand, &odd));
    assert!(!reg.can_equip(&SlotId("tail".to_string()), &hat));
    assert_eq!(reg.by_hotbar_index(1).unwrap().id, hand);
    assert!(reg.by_hotbar_index(2).is_none());
    assert_eq!(reg.get(&head).unwrap().label, "head");
    assert_eq!(reg.len(), 2);
    assert_eq!(reg.iter().len(), 2);
}

#[test]
fn slot_layouts_are_checked() {
    let err = |slots| EquipmentSlotRegistry::build(slots).unwrap_err();
    assert_eq!(
        err(vec![slot("a", vec![], 0), slot("a", vec![], 0)]),
        SlotLayoutError::DuplicateId(SlotId("a".to_string()))
    );
    assert_eq!(
        err(vec![slot("a", vec![], 1), slot("b", vec![], 1)]),
        SlotLayoutError::DuplicateHotbarIndex(1, SlotId("b".to_string()))
    );
    let mut bare = slot("a", vec![], 0);
    bare.is_hotbar = true;
    assert_eq!(err(vec![bare]), SlotLayoutError::MissingHotbarIndex(SlotId("a".to_string())));
}

fn weapon(tags: &[&str]) -> ItemDef {
    let mut d = def("rifle", ItemCategory::WeaponPrimary);
    d.weapon_config = Some(WeaponConfig {
        caliber: Caliber("5.56".to_string()),
        damage: F32Bits(0),
        range_m: F32Bits(0),
        fire_interval_s: F32Bits(0),
        spread_deg: F32Bits(0),
        slots: vec![WeaponSlot {
            id: SlotId("rail".to_string()),
            tags: tags.iter().map(|t| t.to_string()).collect(),
        }],
        wear_per_shot: F32Bits(0),
        jam_threshold: F32Bits(0),
        jam_chance_floor: F32Bits(0),
    });
    d
}

fn attachment(id: &str, takes: &str, gives: &[&str]) -> ItemDef {
    let mut d = def(id, ItemCategory::Attachment);
    d.attachment_config = Some(AttachmentConfig {
        consumes_tag: takes.to_string(),
        provides_tags: gives.iter().map(|t| t.to_string()).collect(),
        effects: vec![],
    });
    d
}

#[test]
fn attachments_chain() {
    let reg = ItemRegistry::build(vec![
        weapon(&["rail", "muzzle"]),
        attachment("riser", "rail", &["high_rail"]),
        attachment("scope", "high_rail", &[]),
        attachment("light", "rail", &[]),
        attachment("bayonet", "lug", &[]),
        def("stone", ItemCategory::Misc),
    ])
    .unwrap();
    let id = |s: &str| ItemId::new(s);
    let try_chain = |list: &[&str]| {
        let ids: Vec<ItemId> = list.iter().map(|s| id(s)).collect();
        validate_attachment_chain(&reg, &id("rifle"), &ids)
    };
    assert_eq!(try_chain(&["riser", "scope"]).unwrap(), vec!["muzzle".to_string()]);
    assert!(matches!(
        try_chain(&["riser", "light"]),
        Err(AttachmentError::TagAlreadyConsumed { attached, .. }) if attached == id("riser")
    ));
    assert!(matches!(try_chain(&["scope"]), Err(AttachmentError::NoMatchingSlot { .. })));
    assert!(matches!(try_chain(&["bayonet"]), Err(AttachmentError::NoMatchingSlot { .. })));
    assert!(matches!(try_chain(&["stone"]), Err(AttachmentError::NotAnAttachment(_))));
    assert!(matches!(try_chain(&["ghost"]), Err(AttachmentError::UnknownItem(_))));
    assert!(matches!(
        validate_attachment_chain(&reg, &id("stone"), &[]),
        Err(AttachmentError::NotAWeapon(_))
    ));
}

#[test]
fn sizes_turn_and_multiply() {
    let s = GridSize::new(2, 3);
    assert_eq!(s.area(), 6);
    assert_eq!(s.rotated().rotated(), s);
    assert_eq!(GridSize::new(u32::MAX, 2).area(), u32::MAX);
    assert_eq!(CraftStation::Campfire.bench_rank(), None);
}

#[test]
fn bit_patterns_order_as_numbers() {
    let b = |x: f32| F32Bits(x.to_bits());
    let xs = [f32::NEG_INFINITY, -2.5, -0.0, 0.0, 1e-40, 0.75, 1.0, 3e9, f32::INFINITY, f32::NAN];
    for x in xs {
        for y in xs {
            assert_eq!(b(x).lt(b(y)), x < y, "{x} < {y}");
            assert_eq!(b(x).le(b(y)), x <= y, "{x} <= {y}");
        }
        assert_eq!(b(x).nan(), x.is_nan());
    }
    for n in [0, 1, -1, 3, 100, -16_777_215, 16_777_215] {
        assert_eq!(F32Bits::from_whole(n), b(n as f32));
    }
    assert_eq!(F32Bits::zero(), b(0.0));
}

#[test]
fn maps_keep_their_entries() {
    let mut m: IdMap<&str> = IdMap::new();
    assert_eq!(m.insert(5, "five"), None);
    assert_eq!(m.insert(2, "two"), None);
    assert_eq!(m.insert(5, "cinq"), Some("five"));
    assert_eq!((m.key_at(0), m.key_at(1)), (2, 5));
    *m.get_mut(2).unwrap() = "deux";
    assert_eq!(m.get(2), Some(&"deux"));
    assert_eq!(m.remove(5), Some("cinq"));
    assert_eq!(m.len(), 1);
    let mut s: StrMap<u8> = StrMap::new();
    s.insert("b".to_string(), 1);
    s.insert("a".to_string(), 2);
    s.insert("b".to_string(), 3);
    assert_eq!(s.get("b"), Some(&3));
    assert_eq!(s.key_order(), vec![1, 0]);
    assert_eq!(s.remove("b"), Some(3));
    assert!(!s.contains_key("b"));
    assert!(str_lt("ab", "b") && !str_lt("b", "ab") && str_lt("", "a"));
    assert!(str_eq("x", "x") && !str_eq("x", "xy"));
}

#[test]
fn weapons_jam_below_their_threshold() {
    let mut cfg = weapon(&[]).weapon_config.unwrap();
    cfg.jam_threshold = F32Bits(70.0f32.to_bits());
    cfg.jam_chance_floor = F32Bits(0.18f32.to_bits());
    let at = |condition: f32, between: f32| {
        f32::from_bits(
            jam_chance_at_condition(F32Bits(condition.to_bits()), &cfg, F32Bits(between.to_bits())).0,
        )
    };
    assert_eq!(at(100.0, 0.1), 0.0);
    assert_eq!(at(70.0, 0.1), 0.0);
    assert_eq!(at(35.0, 0.09), 0.09);
    assert_eq!(at(35.0, 0.5), 0.18);
    assert_eq!(at(35.0, -0.5), 0.0);
    assert_eq!(at(0.0, 0.0), 0.18);
    assert_eq!(at(-3.0, 0.0), 0.18);
}
