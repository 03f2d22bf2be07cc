//! The actions and goals of a fight, and what the actions cost each faction
//! and each role.
use vstd::prelude::*;

use crate::components::CombatRole;
use crate::float_bits::F32Bits;
use crate::goap::{
    bit_set, run, Action, Goal, WorldState, ALLY_DOWN, AT_SAFE_POS, COVER_AVAILABLE, HAS_AMMO,
    HAS_LOS, HAS_TARGET, IN_COVER, IN_RANGE, IS_FLANKING, NEAR_ALLY, TARGET_DEAD,
};
use crate::text::str_eq;

verus! {

/// A number for every kind of action, in tenths.
#[derive(Clone, Copy, Debug, PartialEq, Eq, Structural)]
pub struct CostTable {
    pub shoot: u32,
    pub advance: u32,
    pub move_to_cover: u32,
    pub peek: u32,
    pub flank: u32,
    pub suppress: u32,
    pub retreat: u32,
    pub reload: u32,
    pub heal_ally: u32,
}

impl CostTable {
    /// No number is over ten.
    pub open spec fn small(self) -> bool {
        &&& self.shoot <= 100
        &&& self.advance <= 100
        &&& self.move_to_cover <= 100
        &&& self.peek <= 100
        &&& self.flank <= 100
        &&& self.suppress <= 100
        &&& self.retreat <= 100
        &&& self.reload <= 100
        &&& self.heal_ally <= 100
    }
}

/// What actions cost a faction: cover is cheap for disciplined ones, rushing
/// for bold ones, fleeing for timid ones.
pub open spec fn faction_table(faction: Seq<char>) -> CostTable {
    if faction == "pwa"@ || faction == "linemen"@ {
        CostTable {
            shoot: 15,
            advance: 45,
            move_to_cover: 8,
            peek: 8,
            flank: 25,
            suppress: 15,
            retreat: 50,
            reload: 15,
            heal_ally: 15,
        }
    } else if faction == "federal"@ || faction == "ghost_teams"@ || faction
        == "recovery_division"@ {
        CostTable {
            shoot: 15,
            advance: 40,
            move_to_cover: 8,
            peek: 8,
            flank: 20,
            suppress: 10,
            retreat: 40,
            reload: 15,
            heal_ally: 15,
        }
    } else if faction == "looters"@ || faction == "bandits"@ {
        CostTable {
            shoot: 12,
            advance: 25,
            move_to_cover: 20,
            peek: 20,
            flank: 15,
            suppress: 30,
            retreat: 20,
            reload: 20,
            heal_ally: 40,
        }
    } else if faction == "wanderers"@ {
        CostTable {
            shoot: 20,
            advance: 50,
            move_to_cover: 10,
            peek: 15,
            flank: 40,
            suppress: 50,
            retreat: 8,
            reload: 20,
            heal_ally: 30,
        }
    } else if faction == "merged"@ {
        CostTable {
            shoot: 5,
            advance: 10,
            move_to_cover: 50,
            peek: 40,
            flank: 15,
            suppress: 30,
            retreat: 100,
            reload: 10,
            heal_ally: 50,
        }
    } else {
        CostTable {
            shoot: 10,
            advance: 30,
            move_to_cover: 20,
            peek: 15,
            flank: 30,
            suppress: 25,
            retreat: 40,
            reload: 20,
            heal_ally: 25,
        }
    }
}

/// What actions cost a faction.
pub fn faction_costs(faction: &str) -> (r: CostTable)
    ensures
        r == faction_table(faction@),
        r.small(),
{
    if str_eq(faction, "pwa") || str_eq(faction, "linemen") {
        CostTable {
            shoot: 15,
            advance: 45,
            move_to_cover: 8,
            peek: 8,
            flank: 25,
            suppress: 15,
            retreat: 50,
            reload: 15,
            heal_ally: 15,
        }
    } else if str_eq(faction, "federal") || str_eq(faction, "ghost_teams") || str_eq(
        faction,
        "recovery_division",
    ) {
        CostTable {
            shoot: 15,
            advance: 40,
            move_to_cover: 8,
            peek: 8,
            flank: 20,
            suppress: 10,
            retreat: 40,
            reload: 15,
            heal_ally: 15,
        }
    } else if str_eq(faction, "looters") || str_eq(faction, "bandits") {
        CostTable {
            shoot: 12,
            advance: 25,
            move_to_cover: 20,
            peek: 20,
            flank: 15,
            suppress: 30,
            retreat: 20,
            reload: 20,
            heal_ally: 40,
        }
    } else if str_eq(faction, "wanderers") {
        CostTable {
            shoot: 20,
            advance: 50,
            move_to_cover: 10,
            peek: 15,
            flank: 40,
            suppress: 50,
            retreat: 8,
            reload: 20,
            heal_ally: 30,
        }
    } else if str_eq(faction, "merged") {
        CostTable {
            shoot: 5,
            advance: 10,
            move_to_cover: 50,
            peek: 40,
            flank: 15,
            suppress: 30,
            retreat: 100,
            reload: 10,
            heal_ally: 50,
        }
    } else {
        CostTable {
            shoot: 10,
            advance: 30,
            move_to_cover: 20,
            peek: 15,
            flank: 30,
            suppress: 25,
            retreat: 40,
            reload: 20,
            heal_ally: 25,
        }
    }
}

/// By what a role multiplies the costs of its faction.
pub open spec fn role_table(role: CombatRole) -> CostTable {
    match role {
        CombatRole::Pointman => CostTable {
            shoot: 8,
            advance: 6,
            move_to_cover: 15,
            peek: 12,
            flank: 8,
            suppress: 10,
            retreat: 20,
            reload: 10,
            heal_ally: 20,
        },
        CombatRole::Support => CostTable {
            shoot: 9,
            advance: 15,
            move_to_cover: 7,
            peek: 8,
            flank: 15,
            suppress: 6,
            retreat: 12,
            reload: 8,
            heal_ally: 15,
        },
        CombatRole::Flanker => CostTable {
            shoot: 10,
            advance: 8,
            move_to_cover: 10,
            peek: 10,
            flank: 5,
            suppress: 15,
            retreat: 10,
            reload: 10,
            heal_ally: 20,
        },
        CombatRole::Medic => CostTable {
            shoot: 15,
            advance: 15,
            move_to_cover: 8,
            peek: 12,
            flank: 20,
            suppress: 20,
            retreat: 7,
            reload: 10,
            heal_ally: 3,
        },
    }
}

/// By what a role multiplies the costs of its faction.
pub fn role_cost_modifier(role: CombatRole) -> (r: CostTable)
    ensures
        r == role_table(role),
        r.small(),
{
    match role {
        CombatRole::Pointman => CostTable {
            shoot: 8,
            advance: 6,
            move_to_cover: 15,
            peek: 12,
            flank: 8,
            suppress: 10,
            retreat: 20,
            reload: 10,
            heal_ally: 20,
        },
        CombatRole::Support => CostTable {
            shoot: 9,
            advance: 15,
            move_to_cover: 7,
            peek: 8,
            flank: 15,
            suppress: 6,
            retreat: 12,
            reload: 8,
            heal_ally: 15,
        },
        CombatRole::Flanker => CostTable {
            shoot: 10,
            advance: 8,
            move_to_cover: 10,
            peek: 10,
            flank: 5,
            suppress: 15,
            retreat: 10,
            reload: 10,
            heal_ally: 20,
        },
        CombatRole::Medic => CostTable {
            shoot: 15,
            advance: 15,
            move_to_cover: 8,
            peek: 12,
            flank: 20,
            suppress: 20,
            retreat: 7,
            reload: 10,
            heal_ally: 3,
        },
    }
}

/// The action has the given name, bits and cost.
pub open spec fn action_is(
    a: Action,
    name: Seq<char>,
    needs: u32,
    sets: u32,
    clears: u32,
    cost: int,
) -> bool {
    &&& a.name@ == name
    &&& a.preconditions == WorldState(needs)
    &&& a.positive_effects == WorldState(sets)
    &&& a.negative_effects == WorldState(clears)
    &&& a.cost == cost
}

/// What can be done in a fight. An action costs what it costs the faction
/// times what it costs the role; tenths times tenths are hundredths.
pub fn combat_actions(faction_name: &str, role: CombatRole) -> (r: Vec<Action>)
    ensures
        r@.len() == 9,
        action_is(
            r@[0],
            "Shoot"@,
            HAS_TARGET | IN_RANGE | HAS_LOS | HAS_AMMO,
            TARGET_DEAD,
            0,
            faction_table(faction_name@).shoot * role_table(role).shoot,
        ),
        action_is(
            r@[1],
            "Advance"@,
            HAS_TARGET,
            IN_RANGE | HAS_LOS,
            IN_COVER,
            faction_table(faction_name@).advance * role_table(role).advance,
        ),
        action_is(
            r@[2],
            "MoveToCover"@,
            COVER_AVAILABLE,
            IN_COVER,
            0,
            faction_table(faction_name@).move_to_cover * role_table(role).move_to_cover,
        ),
        action_is(
            r@[3],
            "PeekFromCover"@,
            IN_COVER | HAS_TARGET,
            HAS_LOS | IN_RANGE,
            0,
            faction_table(faction_name@).peek * role_table(role).peek,
        ),
        action_is(
            r@[4],
            "Flank"@,
            HAS_TARGET,
            IN_RANGE | HAS_LOS | IS_FLANKING,
            IN_COVER,
            faction_table(faction_name@).flank * role_table(role).flank,
        ),
        action_is(
            r@[5],
            "Suppress"@,
            HAS_TARGET | IN_RANGE | HAS_LOS | HAS_AMMO,
            0,
            0,
            faction_table(faction_name@).suppress * role_table(role).suppress,
        ),
        action_is(
            r@[6],
            "Retreat"@,
            0,
            AT_SAFE_POS,
            IN_RANGE | IN_COVER | HAS_LOS,
            faction_table(faction_name@).retreat * role_table(role).retreat,
        ),
        action_is(
            r@[7],
            "Reload"@,
            IN_COVER,
            HAS_AMMO,
            0,
            faction_table(faction_name@).reload * role_table(role).reload,
        ),
        action_is(
            r@[8],
            "HealAlly"@,
            ALLY_DOWN | NEAR_ALLY,
            0,
            ALLY_DOWN,
            faction_table(faction_name@).heal_ally * role_table(role).heal_ally,
        ),
{
    let costs = faction_costs(faction_name);
    let scale = role_cost_modifier(role);
    proof {
        assert(0 <= costs.shoot * scale.shoot <= 10_000) by (nonlinear_arith)
            requires
                0 <= costs.shoot <= 100,
                0 <= scale.shoot <= 100,
        ;
        assert(0 <= costs.advance * scale.advance <= 10_000) by (nonlinear_arith)
            requires
                0 <= costs.advance <= 100,
                0 <= scale.advance <= 100,
        ;
        assert(0 <= costs.move_to_cover * scale.move_to_cover <= 10_000) by (nonlinear_arith)
            requires
                0 <= costs.move_to_cover <= 100,
                0 <= scale.move_to_cover <= 100,
        ;
        assert(0 <= costs.peek * scale.peek <= 10_000) by (nonlinear_arith)
            requires
                0 <= costs.peek <= 100,
                0 <= scale.peek <= 100,
        ;
        assert(0 <= costs.flank * scale.flank <= 10_000) by (nonlinear_arith)
            requires
                0 <= costs.flank <= 100,
                0 <= scale.flank <= 100,
        ;
        assert(0 <= costs.suppress * scale.suppress <= 10_000) by (nonlinear_arith)
            requires
                0 <= costs.suppress <= 100,
                0 <= scale.suppress <= 100,
        ;
        assert(0 <= costs.retreat * scale.retreat <= 10_000) by (nonlinear_arith)
            requires
                0 <= costs.retreat <= 100,
                0 <= scale.retreat <= 100,
        ;
        assert(0 <= costs.reload * scale.reload <= 10_000) by (nonlinear_arith)
            requires
                0 <= costs.reload <= 100,
                0 <= scale.reload <= 100,
        ;
        assert(0 <= costs.heal_ally * scale.heal_ally <= 10_000) by (nonlinear_arith)
            requires
                0 <= costs.heal_ally <= 100,
                0 <= scale.heal_ally <= 100,
        ;
    }
    let mut r: Vec<Action> = Vec::new();
    r.push(
        Action {
            name: "Shoot",
            preconditions: WorldState(HAS_TARGET | IN_RANGE | HAS_LOS | HAS_AMMO),
            positive_effects: WorldState(TARGET_DEAD),
            negative_effects: WorldState(0),
            cost: costs.shoot * scale.shoot,
        },
    );
    r.push(
        Action {
            name: "Advance",
            preconditions: WorldState(HAS_TARGET),
            positive_effects: WorldState(IN_RANGE | HAS_LOS),
            negative_effects: WorldState(IN_COVER),
            cost: costs.advance * scale.advance,
        },
    );
    r.push(
        Action {
            name: "MoveToCover",
            preconditions: WorldState(COVER_AVAILABLE),
            positive_effects: WorldState(IN_COVER),
            negative_effects: WorldState(0),
            cost: costs.move_to_cover * scale.move_to_cover,
        },
    );
    r.push(
        Action {
            name: "PeekFromCover",
            preconditions: WorldState(IN_COVER | HAS_TARGET),
            positive_effects: WorldState(HAS_LOS | IN_RANGE),
            negative_effects: WorldState(0),
            cost: costs.peek * scale.peek,
        },
    );
    r.push(
        Action {
            name: "Flank",
            preconditions: WorldState(HAS_TARGET),
            positive_effects: WorldState(IN_RANGE | HAS_LOS | IS_FLANKING),
            negative_effects: WorldState(IN_COVER),
            cost: costs.flank * scale.flank,
        },
    );
    r.push(
        Action {
            name: "Suppress",
            preconditions: WorldState(HAS_TARGET | IN_RANGE | HAS_LOS | HAS_AMMO),
            positive_effects: WorldState(0),
            negative_effects: WorldState(0),
            cost: costs.suppress * scale.suppress,
        },
    );
    r.push(
        Action {
            name: "Retreat",
            preconditions: WorldState(0),
            positive_effects: WorldState(AT_SAFE_POS),
            negative_effects: WorldState(IN_RANGE | IN_COVER | HAS_LOS),
            cost: costs.retreat * scale.retreat,
        },
    );
    r.push(
        Action {
            name: "Reload",
            preconditions: WorldState(IN_COVER),
            positive_effects: WorldState(HAS_AMMO),
            negative_effects: WorldState(0),
            cost: costs.reload * scale.reload,
        },
    );
    r.push(
        Action {
            name: "HealAlly",
            preconditions: WorldState(ALLY_DOWN | NEAR_ALLY),
            positive_effects: WorldState(0),
            negative_effects: WorldState(ALLY_DOWN),
            cost: costs.heal_ally * scale.heal_ally,
        },
    );
    r
}

/// The bit pattern of `0.3`: below it one flees.
pub const FLEE_BELOW: u32 = 0x3e99_999a;

/// The bit pattern of `0.6`: below it one stays out of the way.
pub const HIDE_BELOW: u32 = 0x3f19_999a;

/// Name, bits and priority of a goal.
pub struct GoalView {
    pub name: Seq<char>,
    pub desired_state: u32,
    pub priority: u8,
}

/// The goal, its name taken as text.
pub open spec fn goal_view(g: Goal) -> GoalView {
    GoalView { name: g.name@, desired_state: g.desired_state.0, priority: g.priority }
}

/// The goals, their names taken as text.
pub open spec fn goal_views(goals: Seq<Goal>) -> Seq<GoalView> {
    Seq::new(goals.len(), |i: int| goal_view(goals[i]))
}

/// One goal where `wanted`, none otherwise.
pub open spec fn goal_if(wanted: bool, name: Seq<char>, desired_state: u32, priority: u8) -> Seq<
    GoalView,
> {
    if wanted {
        seq![GoalView { name, desired_state, priority }]
    } else {
        Seq::empty()
    }
}

/// What [`combat_goals`] lists.
pub open spec fn goals_for(
    health_frac: F32Bits,
    taking_fire: bool,
    ally_down: bool,
    squad_retreating: bool,
) -> Seq<GoalView> {
    goal_if(squad_retreating, "SquadRetreat"@, AT_SAFE_POS, 35) + goal_if(
        health_frac.less(F32Bits(FLEE_BELOW)),
        "Retreat"@,
        AT_SAFE_POS,
        30,
    ) + goal_if(
        health_frac.less(F32Bits(HIDE_BELOW)),
        "StayAlive"@,
        AT_SAFE_POS | IN_COVER,
        25,
    ) + goal_if(ally_down, "SaveAlly"@, NEAR_ALLY, 22) + goal_if(
        taking_fire,
        "GetToCover"@,
        IN_COVER,
        20,
    ) + goal_if(true, "EngageFromCover"@, TARGET_DEAD | IN_COVER, 15) + goal_if(
        true,
        "EngageDirect"@,
        TARGET_DEAD,
        8,
    )
}

/// Adds a goal where it is wanted.
fn add_goal(goals: &mut Vec<Goal>, wanted: bool, name: &'static str, desired: u32, priority: u8)
    ensures
        goal_views(final(goals)@) == goal_views(old(goals)@) + goal_if(
            wanted,
            name@,
            desired,
            priority,
        ),
{
    if wanted {
        goals.push(Goal { name, desired_state: WorldState(desired), priority });
    }
    assert(goal_views(goals@) =~= goal_views(old(goals)@) + goal_if(
        wanted,
        name@,
        desired,
        priority,
    ));
}

/// What one wants in a fight, most urgent first. `health_frac` is the part of
/// one's health that is left.
pub fn combat_goals(
    health_frac: F32Bits,
    taking_fire: bool,
    ally_down: bool,
    squad_retreating: bool,
) -> (r: Vec<Goal>)
    ensures
        goal_views(r@) == goals_for(health_frac, taking_fire, ally_down, squad_retreating),
{
    let mut goals: Vec<Goal> = Vec::new();
    assert(goal_views(goals@) =~= Seq::<GoalView>::empty());
    add_goal(&mut goals, squad_retreating, "SquadRetreat", AT_SAFE_POS, 35);
    let flee = health_frac.lt(F32Bits(FLEE_BELOW));
    add_goal(&mut goals, flee, "Retreat", AT_SAFE_POS, 30);
    let hide = health_frac.lt(F32Bits(HIDE_BELOW));
    add_goal(&mut goals, hide, "StayAlive", AT_SAFE_POS | IN_COVER, 25);
    add_goal(&mut goals, ally_down, "SaveAlly", NEAR_ALLY, 22);
    add_goal(&mut goals, taking_fire, "GetToCover", IN_COVER, 20);
    add_goal(&mut goals, true, "EngageFromCover", TARGET_DEAD | IN_COVER, 15);
    add_goal(&mut goals, true, "EngageDirect", TARGET_DEAD, 8);
    assert(goal_views(goals@) =~= goals_for(
        health_frac,
        taking_fire,
        ally_down,
        squad_retreating,
    ));
    goals
}

/// Goals come most urgent first, and a squad's retreat comes before all else.
pub proof fn law_goals_are_ordered_by_urgency(
    health_frac: F32Bits,
    taking_fire: bool,
    ally_down: bool,
    squad_retreating: bool,
)
    ensures
        ({
            let goals = goals_for(health_frac, taking_fire, ally_down, squad_retreating);
            &&& goals.len() >= 2
            &&& forall|i: int, j: int|
                0 <= i < j < goals.len() ==> (#[trigger] goals[i]).priority > (
                #[trigger] goals[j]).priority
            &&& squad_retreating ==> goals[0].name == "SquadRetreat"@
        }),
{
}

/// Soldiers use cover before all else and cross the open last but for running;
/// raiders go round their foes sooner than behind cover; those who wander run
/// before all else and fight last; the merged shoot and rush, and never run
/// where anything else will do. All who are none of these shoot first.
pub proof fn law_doctrines(f: Seq<char>)
    ensures
        ({
            let c = faction_table(f);
            &&& f == "pwa"@ || f == "linemen"@ ==> c.move_to_cover == c.peek < c.shoot == c.suppress
                == c.reload == c.heal_ally < c.flank < c.advance < c.retreat && c.retreat == 50
                && c.advance == 3 * c.shoot && c.shoot == 15 && c.move_to_cover == 8 && c.flank
                == 25
            &&& f == "federal"@ || f == "ghost_teams"@ || f == "recovery_division"@
                ==> c.move_to_cover == c.peek < c.suppress < c.shoot == c.reload == c.heal_ally
                < c.flank < c.advance == c.retreat && c.retreat == 2 * c.flank && c.flank == 2
                * c.suppress && c.suppress == 10 && c.shoot == 15 && c.peek == 8
            &&& f == "looters"@ || f == "bandits"@ ==> c.shoot < c.flank < c.move_to_cover == c.peek
                == c.retreat == c.reload < c.advance < c.suppress < c.heal_ally && c.heal_ally == 2
                * c.retreat && c.retreat == 20 && c.suppress == 2 * c.flank && c.flank == 15
                && c.advance == 25 && c.shoot == 12
            &&& f == "wanderers"@ ==> c.retreat < c.move_to_cover < c.peek < c.shoot == c.reload
                < c.heal_ally < c.flank < c.advance == c.suppress && c.advance == 50 && c.retreat
                == 8 && c.move_to_cover == 10 && c.peek == 15 && c.shoot == 20 && c.heal_ally == 2
                * c.peek && c.flank == 40
            &&& f == "merged"@ ==> c.shoot < c.advance == c.reload < c.flank < c.suppress < c.peek
                < c.move_to_cover == c.heal_ally < c.retreat && c.retreat == 20 * c.shoot
                && c.retreat == 2 * c.move_to_cover && c.advance == 2 * c.shoot && c.suppress == 2
                * c.flank && c.peek == 40 && c.shoot == 5 && c.flank == 15
            &&& f.len() > 17 || f.len() == 0 ==> c.shoot < c.peek < c.move_to_cover == c.reload
                < c.suppress == c.heal_ally < c.advance == c.flank < c.retreat && c.retreat == 4
                * c.shoot && c.advance == 3 * c.shoot && c.move_to_cover == 2 * c.shoot && c.shoot
                == 10 && c.peek == 15 && c.suppress == 25
        }),
{
    reveal_strlit("pwa");
    reveal_strlit("linemen");
    reveal_strlit("federal");
    reveal_strlit("ghost_teams");
    reveal_strlit("recovery_division");
    reveal_strlit("looters");
    reveal_strlit("bandits");
    reveal_strlit("wanderers");
    reveal_strlit("merged");
    assert("pwa"@[0] != "linemen"@[0]);
    assert("federal"@.len() == 7 && "federal"@[0] == 'f');
    assert("linemen"@.len() == 7 && "linemen"@[1] == 'i' && "linemen"@[0] == 'l');
    assert("looters"@.len() == 7 && "looters"@[1] == 'o' && "looters"@[0] == 'l');
    assert("bandits"@.len() == 7 && "bandits"@[0] == 'b');
    assert("wanderers"@.len() == 9 && "merged"@.len() == 6 && "ghost_teams"@.len() == 11
        && "recovery_division"@.len() == 17 && "pwa"@.len() == 3);
}

/// Whoever has no doctrine pays what the usual faction pays.
pub proof fn law_others_fight_alike(f: Seq<char>, g: Seq<char>)
    requires
        f != "pwa"@ && f != "linemen"@ && f != "federal"@ && f != "ghost_teams"@ && f
            != "recovery_division"@ && f != "looters"@ && f != "bandits"@ && f != "wanderers"@ && f
            != "merged"@,
        g.len() == 0,
    ensures
        faction_table(f) == faction_table(g),
{
    reveal_strlit("pwa");
    reveal_strlit("linemen");
    reveal_strlit("federal");
    reveal_strlit("ghost_teams");
    reveal_strlit("recovery_division");
    reveal_strlit("looters");
    reveal_strlit("bandits");
    reveal_strlit("wanderers");
    reveal_strlit("merged");
}

/// Each role does what it is for at less than any other role: the point man
/// advances and shoots, the support suppresses and takes cover, the flanker
/// goes round, and the medic heals and falls back.
pub proof fn law_roles_do_what_they_are_for(r: CombatRole)
    ensures
        ({
            let p = role_table(CombatRole::Pointman);
            let s = role_table(CombatRole::Support);
            let f = role_table(CombatRole::Flanker);
            let m = role_table(CombatRole::Medic);
            let t = role_table(r);
            &&& r != CombatRole::Pointman ==> p.advance < t.advance && p.shoot < t.shoot
            &&& r != CombatRole::Support ==> s.suppress < t.suppress && s.move_to_cover
                < t.move_to_cover && s.peek < t.peek && s.reload < t.reload
            &&& r != CombatRole::Flanker ==> f.flank < t.flank
            &&& r != CombatRole::Medic ==> m.heal_ally < t.heal_ally && m.retreat < t.retreat
            &&& p.shoot == 8 && s.shoot == 9 && f.shoot == 10 && m.shoot == 15
            &&& p.advance == 6 && f.advance == 8 && s.advance == 15 && m.advance == 15
            &&& s.move_to_cover == 7 && m.move_to_cover == 8 && f.move_to_cover == 10
                && p.move_to_cover == 15
            &&& s.peek == 8 && f.peek == 10 && p.peek == 12 && m.peek == 12
            &&& f.flank == 5 && p.flank == 8 && s.flank == 15 && m.flank == 20
            &&& s.suppress == 6 && p.suppress == 10 && f.suppress == 15 && m.suppress == 20
            &&& m.retreat == 7 && f.retreat == 10 && s.retreat == 12 && p.retreat == 20
            &&& s.reload == 8 && p.reload == 10 && f.reload == 10 && m.reload == 10
            &&& m.heal_ally == 3 && s.heal_ally == 15 && p.heal_ally == 20 && f.heal_ally == 20
        }),
{
}

/// One wants to be safe where the squad retreats or less than three tenths of
/// one's health is left, safe behind cover under six tenths, with an ally that
/// is down, behind cover under fire, and always to see the target dead, best
/// from behind cover. Nothing else is wanted.
pub proof fn law_goals_answer_the_situation(
    health_frac: F32Bits,
    taking_fire: bool,
    ally_down: bool,
    squad_retreating: bool,
)
    ensures
        ({
            let goals = goals_for(health_frac, taking_fire, ally_down, squad_retreating);
            let flee = health_frac.less(F32Bits(0x3e99_999a));
            let hide = health_frac.less(F32Bits(0x3f19_999a));
            let safe = 0x80u32;
            let covered = 0x04u32;
            let down = 0x10u32;
            let near = 0x800u32;
            let n = |b: bool| if b { 1int } else { 0int };
            &&& goals.len() == 2 + n(squad_retreating) + n(flee) + n(hide) + n(ally_down) + n(
                taking_fire,
            )
            &&& squad_retreating ==> goals[0].desired_state == safe
            &&& flee ==> goals[n(squad_retreating)].desired_state == safe
            &&& hide ==> goals[n(squad_retreating) + n(flee)].desired_state == safe + covered
            &&& ally_down ==> goals[n(squad_retreating) + n(flee) + n(hide)].desired_state == near
            &&& taking_fire ==> goals[goals.len() - 3].desired_state == covered
            &&& goals[goals.len() - 2].desired_state == down + covered
            &&& goals[goals.len() - 1].desired_state == down
            &&& flee ==> goals[n(squad_retreating)].priority == 30
            &&& taking_fire ==> goals[goals.len() - 3].priority == 20
            &&& goals[goals.len() - 2].priority == 15
            &&& goals[goals.len() - 1].priority == 8
        }),
{
    assert(0x80u32 | 0x04u32 == 0x84u32) by (bit_vector);
    assert(0x10u32 | 0x04u32 == 0x14u32) by (bit_vector);
}

/// What each action needs, sets and clears: one shoots with a target in range
/// and in sight and with ammunition, and has then killed it; and so on.
pub proof fn law_what_actions_do(faction: &str, role: CombatRole, r: Vec<Action>)
    requires
        call_ensures(combat_actions, (faction, role), r),
    ensures
        ({
            let does = |i: int, needs: u32, sets: u32, clears: u32|
                r@[i].preconditions.0 == needs && r@[i].positive_effects.0 == sets
                    && r@[i].negative_effects.0 == clears;
            let target = 0x1u32;
            let range = 0x2u32;
            let cover = 0x4u32;
            let sight = 0x8u32;
            let dead = 0x10u32;
            let safe = 0x80u32;
            let ammo = 0x200u32;
            let down = 0x400u32;
            let ally = 0x800u32;
            let flank = 0x2000u32;
            let near_cover = 0x4000u32;
            &&& does(0, (target + range + sight + ammo) as u32, dead, 0)
            &&& does(1, target, (range + sight) as u32, cover)
            &&& does(2, near_cover, cover, 0)
            &&& does(3, (target + cover) as u32, (range + sight) as u32, 0)
            &&& does(4, target, (range + sight + flank) as u32, cover)
            &&& does(5, (target + range + sight + ammo) as u32, 0, 0)
            &&& does(6, 0, safe, (range + cover + sight) as u32)
            &&& does(7, cover, ammo, 0)
            &&& does(8, (down + ally) as u32, 0, down)
        }),
{
    assert(0x1u32 | 0x2u32 | 0x8u32 | 0x200u32 == 0x20bu32) by (bit_vector);
    assert(0x2u32 | 0x8u32 == 0xau32 && 0x8u32 | 0x2u32 == 0xau32) by (bit_vector);
    assert(0x4u32 | 0x1u32 == 0x5u32 && 0x2u32 | 0x8u32 | 0x2000u32 == 0x200au32) by (bit_vector);
    assert(0x2u32 | 0x4u32 | 0x8u32 == 0xeu32 && 0x400u32 | 0x800u32 == 0xc00u32) by (bit_vector);
}

/// Whoever has a target and ammunition can advance and shoot it; whoever has
/// cover at hand can get there, and reload there; and anybody can retreat to
/// safety.
pub proof fn law_fights_can_be_won(
    faction: &str,
    role: CombatRole,
    r: Vec<Action>,
    state: WorldState,
)
    requires
        call_ensures(combat_actions, (faction, role), r),
    ensures
        bit_set(state.0, 0) && bit_set(state.0, 9) ==> (run(
            r@,
            state,
            seq![1usize, 0usize],
        ) matches Some(end) && bit_set(end.0, 4) && bit_set(end.0, 0)),
        bit_set(state.0, 14) ==> (run(r@, state, seq![2usize, 7usize]) matches Some(end) && bit_set(
            end.0,
            2,
        ) && bit_set(end.0, 9)),
        run(r@, state, seq![6usize]) matches Some(end) && bit_set(end.0, 7) && !bit_set(end.0, 2),
{
    law_what_actions_do(faction, role, r);
    reveal_with_fuel(run, 3);
    let s = state.0;
    assert(seq![1usize, 0usize].drop_last() =~= seq![1usize]);
    assert(seq![2usize, 7usize].drop_last() =~= seq![2usize]);
    assert(seq![1usize].drop_last() =~= Seq::<usize>::empty());
    assert(seq![2usize].drop_last() =~= Seq::<usize>::empty());
    assert(seq![6usize].drop_last() =~= Seq::<usize>::empty());
    let a = (s | 0xau32) & !0x4u32;
    assert((s >> 0u32) & 1 == 1 && (s >> 9u32) & 1 == 1 && a == (s | 0xau32) & !0x4u32 ==> s & 1
        == 1 && a & 0x20bu32 == 0x20bu32 && (((a | 0x10u32) & !0u32) >> 4u32) & 1 == 1 && (((a
        | 0x10u32) & !0u32) >> 0u32) & 1 == 1) by (bit_vector);
    let b = (s | 0x4u32) & !0u32;
    assert((s >> 14u32) & 1 == 1 && b == (s | 0x4u32) & !0u32 ==> s & 0x4000u32 == 0x4000u32 && b
        & 0x4u32 == 0x4u32 && (((b | 0x200u32) & !0u32) >> 2u32) & 1 == 1 && (((b | 0x200u32)
        & !0u32) >> 9u32) & 1 == 1) by (bit_vector);
    assert(s & 0u32 == 0u32 && (((s | 0x80u32) & !0xeu32) >> 7u32) & 1 == 1 && (((s | 0x80u32)
        & !0xeu32) >> 2u32) & 1 != 1) by (bit_vector);
}

} // verus!
