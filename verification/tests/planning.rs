use simn_sim::components::CombatRole;
use simn_sim::float_bits::F32Bits;
use simn_sim::goap::{
    plan, Action, Goal, WorldState, AT_SAFE_POS, COVER_AVAILABLE, HAS_AMMO, HAS_LOS, HAS_TARGET,
    HEALTH_LOW, IN_COVER, IN_RANGE, IS_FLANKING, IS_RELOADING, TARGET_DEAD,
};
use simn_sim::goap_actions::{combat_actions, combat_goals, faction_costs, role_cost_modifier};

fn action(name: &'static str, pre: u32, pos: u32, neg: u32, cost: u32) -> Action {
    Action {
        name,
        preconditions: WorldState(pre),
        positive_effects: WorldState(pos),
        negative_effects: WorldState(neg),
        cost,
    }
}

fn test_actions() -> Vec<Action> {
    vec![
        action("MoveToCover", COVER_AVAILABLE, IN_COVER, 0, 200),
        action("Shoot", HAS_TARGET | IN_RANGE | HAS_LOS | HAS_AMMO, TARGET_DEAD, 0, 100),
        action("Advance", HAS_TARGET, IN_RANGE | HAS_LOS, IN_COVER, 300),
        action("PeekFromCover", IN_COVER | HAS_TARGET, HAS_LOS | IN_RANGE, 0, 150),
        action("Retreat", 0, AT_SAFE_POS, IN_RANGE | IN_COVER | HAS_LOS, 400),
        action("Reload", IN_COVER, HAS_AMMO, IS_RELOADING, 200),
        action(
            "Flank",
            HAS_TARGET | COVER_AVAILABLE,
            IN_RANGE | HAS_LOS | IS_FLANKING,
            IN_COVER,
            400,
        ),
    ]
}

fn goal(name: &'static str, desired: u32, priority: u8) -> Goal {
    Goal { name, desired_state: WorldState(desired), priority }
}

#[test]
fn finds_simple_kill_plan() {
    let state = WorldState(HAS_TARGET | IN_RANGE | HAS_LOS | HAS_AMMO);
    let goals = vec![goal("KillTarget", TARGET_DEAD, 10)];
    let actions = test_actions();
    let result = plan(state, &goals, &actions, 8).unwrap();
    assert_eq!(result.actions, vec!["Shoot"]);
    assert_eq!(result.total_cost, 100);
}

#[test]
fn prefers_cover_route_when_cheaper() {
    let state = WorldState(HAS_TARGET | COVER_AVAILABLE | HAS_AMMO);
    let goals = vec![goal("KillFromCover", TARGET_DEAD | IN_COVER, 10)];
    let actions = test_actions();
    let result = plan(state, &goals, &actions, 8).unwrap();
    assert!(result.actions.contains(&"MoveToCover"));
    assert!(result.actions.contains(&"Shoot"));
}

#[test]
fn retreat_when_health_low() {
    let state = WorldState(HAS_TARGET | HEALTH_LOW);
    let goals = vec![goal("StayAlive", AT_SAFE_POS, 20), goal("KillTarget", TARGET_DEAD, 10)];
    let actions = test_actions();
    let result = plan(state, &goals, &actions, 8).unwrap();
    assert_eq!(result.actions, vec!["Retreat"]);
}

#[test]
fn reload_behind_cover() {
    let state = WorldState(HAS_TARGET | IN_COVER);
    let goals = vec![goal("KillTarget", TARGET_DEAD, 10)];
    let actions = test_actions();
    let result = plan(state, &goals, &actions, 8).unwrap();
    assert!(result.actions.contains(&"Reload"));
    assert!(result.actions.contains(&"Shoot"));
}

#[test]
fn no_plan_returns_none() {
    let state = WorldState(0);
    let goals = vec![goal("KillTarget", TARGET_DEAD, 10)];
    let actions = vec![];
    let result = plan(state, &goals, &actions, 8);
    assert!(result.is_none());
}

#[test]
fn flank_when_available() {
    let state = WorldState(HAS_TARGET | COVER_AVAILABLE | HAS_AMMO);
    let goals = vec![goal("KillTarget", TARGET_DEAD | IS_FLANKING, 10)];
    let actions = test_actions();
    let result = plan(state, &goals, &actions, 8).unwrap();
    assert!(result.actions.contains(&"Flank"));
}

#[test]
fn world_state_operations() {
    let s = WorldState(0);
    let s = s.set(HAS_TARGET).set(IN_RANGE);
    assert!(s.has(HAS_TARGET));
    assert!(s.has(IN_RANGE));
    assert!(!s.has(IN_COVER));
    let s = s.clear(IN_RANGE);
    assert!(!s.has(IN_RANGE));
    assert!(s.satisfies(WorldState(HAS_TARGET)));
    assert!(!s.satisfies(WorldState(HAS_TARGET | IN_RANGE)));
}

fn cost_of(actions: &[Action], name: &str) -> u32 {
    actions.iter().find(|a| a.name == name).unwrap().cost
}

#[test]
fn military_prefers_cover_over_advance() {
    let actions = combat_actions("pwa", CombatRole::Support);
    let cover_cost = cost_of(&actions, "MoveToCover");
    let advance_cost = cost_of(&actions, "Advance");
    assert!(cover_cost < advance_cost);
}

#[test]
fn bandits_prefer_advance_over_cover() {
    let actions = combat_actions("bandits", CombatRole::Pointman);
    let cover_cost = cost_of(&actions, "MoveToCover");
    let advance_cost = cost_of(&actions, "Advance");
    assert!(advance_cost < cover_cost);
}

#[test]
fn medic_prioritizes_healing() {
    let actions = combat_actions("federal", CombatRole::Medic);
    let heal_cost = cost_of(&actions, "HealAlly");
    let shoot_cost = cost_of(&actions, "Shoot");
    assert!(heal_cost < shoot_cost);
}

#[test]
fn retreat_goal_outranks_kill_when_squad_retreating() {
    let goals = combat_goals(F32Bits(1.0f32.to_bits()), false, false, true);
    assert_eq!(goals[0].name, "SquadRetreat");
    assert!(goals[0].priority > goals.last().unwrap().priority);
}

#[test]
fn full_plan_with_faction_costs() {
    let state = WorldState(HAS_TARGET | COVER_AVAILABLE | HAS_AMMO);
    let goals = combat_goals(F32Bits(1.0f32.to_bits()), false, false, false);
    let actions = combat_actions("pwa", CombatRole::Support);
    let result = plan(state, &goals, &actions, 8);
    assert!(result.is_some(), "PWA support should find a plan");
    let p = result.unwrap();
    assert!(!p.actions.is_empty());
}

#[test]
fn cheapest_plan_wins_over_the_one_that_looks_near() {
    let actions = vec![action("Wide", 0, 0b1111, 0, 100), action("Narrow", 0, 0b0001, 0, 300)];
    let goals = vec![goal("Bit", 0b0001, 1)];
    let p = plan(WorldState(0), &goals, &actions, 4).unwrap();
    assert_eq!(p.actions, vec!["Wide"]);
    assert_eq!(p.total_cost, 100);
}

#[test]
fn plans_keep_to_the_depth_and_to_the_first_reachable_goal() {
    let actions = vec![action("A", 0, 1, 0, 1), action("B", 1, 2, 0, 1), action("C", 2, 4, 0, 1)];
    let far = vec![goal("Far", 4, 9), goal("Near", 1, 3)];
    let p = plan(WorldState(0), &far, &actions, 2).unwrap();
    assert_eq!(p.actions, vec!["A"]);
    let p = plan(WorldState(0), &far, &actions, 3).unwrap();
    assert_eq!(p.actions, vec!["A", "B", "C"]);
    assert_eq!(p.total_cost, 3);
}

#[test]
fn set_then_clear_gives_the_state_back() {
    let s = WorldState(HAS_AMMO);
    assert_eq!(s.set(IN_COVER).clear(IN_COVER), s);
    assert_eq!(WorldState(0b1011).distance(WorldState(0b0110)), 3);
}

#[test]
fn cost_tables_multiply() {
    let f = faction_costs("pwa");
    let r = role_cost_modifier(CombatRole::Support);
    let actions = combat_actions("pwa", CombatRole::Support);
    assert_eq!(actions.len(), 9);
    assert_eq!(cost_of(&actions, "Advance"), f.advance * r.advance);
    assert_eq!(cost_of(&actions, "Shoot"), f.shoot * r.shoot);
}

#[test]
fn the_badly_hurt_flee_first() {
    let goals = combat_goals(F32Bits(0.2f32.to_bits()), true, true, false);
    for w in goals.windows(2) {
        assert!(w[0].priority >= w[1].priority);
    }
    assert!(goals.len() > 1);
}
