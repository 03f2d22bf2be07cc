use simn_sim::components::{GridInventory, ItemInstance, ItemRotation};
use simn_sim::float_bits::F32Bits;
use simn_sim::inventory_grid::{
    consume_from_grid, count_of, find_first_fit, find_first_fit_any_rotation, fits_at, footprint,
    grant_or_merge, in_bounds, move_within, place_at, rects_overlap, remove, PlaceOutcome,
    PlacementError,
};
use simn_sim::items::{GridSize, ItemCategory, ItemDef, ItemId, ItemRegistry};

fn def(id: &str, w: u32, h: u32, rotatable: bool, stack_size: u32) -> ItemDef {
    ItemDef {
        id: ItemId::new(id),
        name: id.to_string(),
        category: ItemCategory::Misc,
        weight: F32Bits(0),
        stack_size,
        perishable_ticks: None,
        consume_action: None,
        salvage: None,
        tool: None,
        size: GridSize { w, h },
        rotatable,
        inner_grid: None,
        equip_slots: Vec::new(),
        weapon_config: None,
        magazine_config: None,
        ammo_config: None,
        armor_config: None,
        attachment_config: None,
    }
}

fn registry_with(defs: Vec<ItemDef>) -> ItemRegistry {
    let mut r = ItemRegistry::empty_for_test();
    for d in defs {
        r.insert_for_test(d);
    }
    r
}

fn stack(id: &str, count: u32) -> ItemInstance {
    ItemInstance { id: ItemId::new(id), count, spawned_tick: 0, magazine_state: None }
}

#[test]
fn place_at_succeeds_in_bounds_no_overlap() {
    let mut g = GridInventory::new(4, 4);
    let r = registry_with(vec![def("bandage", 1, 1, false, 20)]);
    let idx = place_at(&mut g, &r, stack("bandage", 5), 0, 0, ItemRotation::Deg0).unwrap();
    assert_eq!(idx, 0);
    assert_eq!(g.items.len(), 1);
}

#[test]
fn place_at_rejects_out_of_bounds() {
    let mut g = GridInventory::new(4, 4);
    let r = registry_with(vec![def("rifle", 1, 4, false, 1)]);
    let err = place_at(&mut g, &r, stack("rifle", 1), 0, 2, ItemRotation::Deg0).unwrap_err();
    assert!(matches!(err, PlacementError::OutOfBounds { .. }));
}

#[test]
fn place_at_rejects_overlap() {
    let mut g = GridInventory::new(4, 4);
    let r = registry_with(vec![def("box_2x2", 2, 2, false, 1)]);
    place_at(&mut g, &r, stack("box_2x2", 1), 0, 0, ItemRotation::Deg0).unwrap();
    let err = place_at(&mut g, &r, stack("box_2x2", 1), 1, 1, ItemRotation::Deg0).unwrap_err();
    assert!(matches!(err, PlacementError::Overlap(0)));
}

#[test]
fn rotation_swaps_footprint() {
    let mut g = GridInventory::new(4, 1);
    let r = registry_with(vec![def("rifle", 1, 4, true, 1)]);
    let err = place_at(&mut g, &r, stack("rifle", 1), 0, 0, ItemRotation::Deg0).unwrap_err();
    assert!(matches!(err, PlacementError::OutOfBounds { .. }));
    let idx = place_at(&mut g, &r, stack("rifle", 1), 0, 0, ItemRotation::Deg90).unwrap();
    assert_eq!(idx, 0);
}

#[test]
fn rotation_rejected_when_item_not_rotatable() {
    let mut g = GridInventory::new(4, 1);
    let r = registry_with(vec![def("brick", 1, 4, false, 1)]);
    let err = place_at(&mut g, &r, stack("brick", 1), 0, 0, ItemRotation::Deg90).unwrap_err();
    assert!(matches!(err, PlacementError::NotRotatable));
}

#[test]
fn find_first_fit_walks_top_left_to_bottom_right() {
    let mut g = GridInventory::new(4, 4);
    let r = registry_with(vec![def("box", 2, 2, false, 1)]);
    place_at(&mut g, &r, stack("box", 1), 0, 0, ItemRotation::Deg0).unwrap();
    let pos = find_first_fit(&g, &r, 2, 2);
    assert_eq!(pos, Some((2, 0)));
}

#[test]
fn grant_or_merge_into_existing_stack() {
    let mut g = GridInventory::new(4, 4);
    let r = registry_with(vec![def("bandage", 1, 1, false, 20)]);
    place_at(&mut g, &r, stack("bandage", 5), 0, 0, ItemRotation::Deg0).unwrap();
    let outcome = grant_or_merge(&mut g, &r, &ItemId::new("bandage"), 10, 0).unwrap();
    assert!(matches!(outcome, PlaceOutcome::Placed { .. }));
    assert_eq!(g.items.len(), 1);
    assert_eq!(g.items[0].stack.count, 15);
}

#[test]
fn grant_or_merge_overflows_into_new_slot() {
    let mut g = GridInventory::new(4, 4);
    let r = registry_with(vec![def("bandage", 1, 1, false, 20)]);
    place_at(&mut g, &r, stack("bandage", 18), 0, 0, ItemRotation::Deg0).unwrap();
    let outcome = grant_or_merge(&mut g, &r, &ItemId::new("bandage"), 5, 0).unwrap();
    assert!(matches!(outcome, PlaceOutcome::Placed { .. }));
    assert_eq!(g.items.len(), 2);
    assert_eq!(g.items[0].stack.count, 20);
    assert_eq!(g.items[1].stack.count, 3);
}

#[test]
fn grant_or_merge_partial_when_grid_full() {
    let mut g = GridInventory::new(2, 2);
    let r = registry_with(vec![def("box", 2, 2, false, 1)]);
    place_at(&mut g, &r, stack("box", 1), 0, 0, ItemRotation::Deg0).unwrap();
    let outcome = grant_or_merge(&mut g, &r, &ItemId::new("box"), 1, 0).unwrap();
    match outcome {
        PlaceOutcome::PartialOrFull { placed, remaining, .. } => {
            assert_eq!(placed, 0);
            assert_eq!(remaining, 1);
        }
        _ => panic!("expected partial outcome, got {:?}", outcome),
    }
}

#[test]
fn perishable_stacks_dont_merge_across_ticks() {
    let mut g = GridInventory::new(4, 4);
    let mut d = def("raw_meat", 1, 1, false, 10);
    d.perishable_ticks = Some(100);
    let r = registry_with(vec![d]);
    let s_old = ItemInstance {
        id: ItemId::new("raw_meat"),
        count: 3,
        spawned_tick: 0,
        magazine_state: None,
    };
    place_at(&mut g, &r, s_old, 0, 0, ItemRotation::Deg0).unwrap();
    let outcome = grant_or_merge(&mut g, &r, &ItemId::new("raw_meat"), 4, 50).unwrap();
    assert!(matches!(outcome, PlaceOutcome::Placed { .. }));
    assert_eq!(g.items.len(), 2);
    assert_eq!(g.items[0].stack.count, 3);
    assert_eq!(g.items[1].stack.count, 4);
    assert_eq!(g.items[1].stack.spawned_tick, 50);
}

#[test]
fn consume_from_grid_drains_fifo_and_drops_empty() {
    let mut g = GridInventory::new(4, 4);
    let r = registry_with(vec![def("bandage", 1, 1, false, 20)]);
    place_at(&mut g, &r, stack("bandage", 4), 0, 0, ItemRotation::Deg0).unwrap();
    place_at(&mut g, &r, stack("bandage", 6), 1, 0, ItemRotation::Deg0).unwrap();
    let took = consume_from_grid(&mut g, &ItemId::new("bandage"), 7);
    assert_eq!(took, 7);
    assert_eq!(g.items.len(), 1);
    assert_eq!(g.items[0].stack.count, 3);
}

#[test]
fn move_within_validates_new_spot() {
    let mut g = GridInventory::new(4, 4);
    let r = registry_with(vec![def("box", 2, 2, false, 1)]);
    place_at(&mut g, &r, stack("box", 1), 0, 0, ItemRotation::Deg0).unwrap();
    place_at(&mut g, &r, stack("box", 1), 2, 0, ItemRotation::Deg0).unwrap();
    let err = move_within(&mut g, &r, 0, 1, 1, ItemRotation::Deg0).unwrap_err();
    assert!(matches!(err, PlacementError::Overlap(1)));
    move_within(&mut g, &r, 0, 0, 2, ItemRotation::Deg0).unwrap();
    assert_eq!(g.items[0].x, 0);
    assert_eq!(g.items[0].y, 2);
}

#[test]
fn overlap_is_sharing_a_cell() {
    assert!(rects_overlap(0, 0, 2, 2, 1, 1, 2, 2));
    assert!(!rects_overlap(0, 0, 2, 2, 2, 0, 2, 2));
    assert!(!rects_overlap(0, 0, 2, 2, 0, 2, 2, 2));
}

#[test]
fn footprint_and_bounds() {
    let d = def("rifle", 1, 4, true, 1);
    let f = footprint(&d, ItemRotation::Deg90);
    assert_eq!((f.w, f.h), (4, 1));
    let g = GridInventory::new(4, 2);
    assert!(in_bounds(&g, 0, 0, 4, 2));
    assert!(!in_bounds(&g, 1, 0, 4, 1));
    assert!(!in_bounds(&g, u32::MAX, 0, 2, 1));
}

#[test]
fn unknown_item_and_bad_index_are_refused() {
    let mut g = GridInventory::new(4, 4);
    let r = registry_with(vec![def("box", 2, 2, false, 1)]);
    let err = place_at(&mut g, &r, stack("ghost", 1), 0, 0, ItemRotation::Deg0).unwrap_err();
    assert!(matches!(err, PlacementError::UnknownItem(_)));
    let err = grant_or_merge(&mut g, &r, &ItemId::new("ghost"), 1, 0).unwrap_err();
    assert!(matches!(err, PlacementError::UnknownItem(_)));
    let err = remove(&mut g, 0).unwrap_err();
    assert!(matches!(err, PlacementError::BadIndex(0)));
    let err = move_within(&mut g, &r, 3, 0, 0, ItemRotation::Deg0).unwrap_err();
    assert!(matches!(err, PlacementError::BadIndex(3)));
}

#[test]
fn granting_nothing_changes_nothing() {
    let mut g = GridInventory::new(4, 4);
    let r = registry_with(vec![]);
    let outcome = grant_or_merge(&mut g, &r, &ItemId::new("ghost"), 0, 0).unwrap();
    assert_eq!(outcome, PlaceOutcome::Placed { touched_indices: vec![] });
    assert!(g.items.is_empty());
}

#[test]
fn granted_units_are_counted_and_consumed() {
    let mut g = GridInventory::new(2, 2);
    let r = registry_with(vec![def("nail", 1, 1, false, 3)]);
    let outcome = grant_or_merge(&mut g, &r, &ItemId::new("nail"), 14, 7).unwrap();
    match outcome {
        PlaceOutcome::PartialOrFull { placed, remaining, touched_indices } => {
            assert_eq!((placed, remaining), (12, 2));
            assert_eq!(touched_indices, vec![0, 1, 2, 3]);
        }
        _ => panic!("expected partial outcome"),
    }
    assert_eq!(count_of(&g, &ItemId::new("nail")), 12);
    assert_eq!(consume_from_grid(&mut g, &ItemId::new("nail"), 100), 12);
    assert_eq!(count_of(&g, &ItemId::new("nail")), 0);
}

#[test]
fn first_fit_turns_what_may_turn() {
    let g = GridInventory::new(4, 1);
    let r = registry_with(vec![def("rifle", 1, 4, true, 1)]);
    let d = def("rifle", 1, 4, true, 1);
    assert_eq!(find_first_fit_any_rotation(&g, &r, &d), Some((0, 0, ItemRotation::Deg90)));
    let stiff = def("brick", 1, 4, false, 1);
    assert_eq!(find_first_fit_any_rotation(&g, &r, &stiff), None);
    assert!(fits_at(&g, 3, 0, 1, 1, None).is_ok());
}
