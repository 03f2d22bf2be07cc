use simn_sim::components::{BaseKind, PersonalityArchetype};
use simn_sim::faction::config::{
    build_registry, default_aggression, default_color, default_loadout, default_relation_default,
    default_self_relation_default, parse_relation_value, ConfigFile, FactionEntry, RegistryError,
    RelationEntry,
};
use simn_sim::faction::registry::{
    faction_relation, faction_relation_score, player_relation, player_relation_score,
    shift_faction_relation, shift_player_rep, BaseKindWeight, CombatCosts, FactionId,
    FactionRegistry, PlayerReputation, RelationDeltas, SquadSize,
};
use simn_sim::faction::{
    anchor_score, band_from_score, relation_from_str, relation_to_str, Relation,
};
use simn_sim::float_bits::F32Bits;
use simn_sim::strmap::StrMap;

/// Four factions, one a part of another.
const FIXTURE: &str = r#"
default_relation = "neutral"
player_baseline = "nomads"

[[faction]]
name = "parent"
display = "Parent"
road_friendly = true
base_aggression = 0.5
default_loadout = "parent_basic"
color = [10, 20, 30]

[[faction]]
name = "child"
display = "Child"
parent = "parent"
road_friendly = true
base_aggression = 0.7
default_loadout = "child_elite"
color = [40, 50, 60]

[[faction]]
name = "other"
display = "Other"
road_friendly = false
base_aggression = 0.4
default_loadout = "other_basic"
color = [70, 80, 90]

[[faction]]
name = "nomads"
display = "Nomads"
base_aggression = 0.2
default_loadout = "wanderer"
color = [200, 200, 200]

[[relation]]
a = "parent"
b = "other"
value = "hostile"

[[relation]]
a = "parent"
b = "child"
value = "friendly"
"#;

fn text(v: &toml::Value, key: &str) -> Option<String> {
    v.get(key).and_then(|x| x.as_str()).map(|s| s.to_string())
}

fn list(v: &toml::Table, key: &str) -> Vec<toml::Value> {
    v.get(key).and_then(|x| x.as_array()).cloned().unwrap_or_default()
}

fn config(src: &str) -> ConfigFile {
    let t: toml::Table = src.parse().expect("fixture should parse");
    let root = toml::Value::Table(t.clone());
    let factions = list(&t, "faction")
        .iter()
        .map(|f| FactionEntry {
            name: text(f, "name").unwrap(),
            display: text(f, "display").unwrap(),
            parent: text(f, "parent"),
            road_friendly: f.get("road_friendly").and_then(|x| x.as_bool()).unwrap_or(false),
            base_aggression: match f.get("base_aggression").and_then(|x| x.as_float()) {
                Some(x) => F32Bits((x as f32).to_bits()),
                None => default_aggression(),
            },
            default_loadout: text(f, "default_loadout").unwrap_or_else(default_loadout),
            debug_color: match f.get("color").and_then(|x| x.as_array()) {
                Some(c) => {
                    let at = |i: usize| c[i].as_integer().unwrap() as u8;
                    [at(0), at(1), at(2)]
                }
                None => default_color(),
            },
            archetype: None,
            nationality_weights: StrMap::new(),
            male_name_weight: None,
            squad_size: None,
            combat: None,
            base_kinds: Vec::new(),
        })
        .collect();
    let relations = list(&t, "relation")
        .iter()
        .map(|r| RelationEntry {
            a: text(r, "a").unwrap(),
            b: text(r, "b").unwrap(),
            value: text(r, "value").unwrap(),
        })
        .collect();
    ConfigFile {
        default_relation: text(&root, "default_relation")
            .unwrap_or_else(default_relation_default),
        default_self_relation: text(&root, "default_self_relation")
            .unwrap_or_else(default_self_relation_default),
        player_baseline: text(&root, "player_baseline"),
        factions,
        relations,
    }
}

fn load_from_str(src: &str) -> Result<FactionRegistry, RegistryError> {
    build_registry(config(src))
}

fn fixture_registry() -> FactionRegistry {
    load_from_str(FIXTURE).expect("fixture should parse")
}

#[test]
fn loads_and_assigns_stable_ids() {
    let reg = fixture_registry();
    assert_eq!(reg.count(), 4);
    assert_eq!(reg.name_of(FactionId(0)), "child");
    assert_eq!(reg.name_of(FactionId(1)), "nomads");
    assert_eq!(reg.name_of(FactionId(2)), "other");
    assert_eq!(reg.name_of(FactionId(3)), "parent");
    assert_eq!(reg.id_of("parent"), Some(FactionId(3)));
}

#[test]
fn parent_inheritance_falls_through() {
    let reg = fixture_registry();
    let deltas = RelationDeltas::new();
    let child = reg.id_of("child").unwrap();
    let other = reg.id_of("other").unwrap();
    assert_eq!(faction_relation(&reg, &deltas, child, other), Relation::Hostile);
}

#[test]
fn explicit_pair_overrides_inheritance() {
    let cfg = format!("{FIXTURE}\n[[relation]]\na = \"child\"\nb = \"other\"\nvalue = \"warm\"\n");
    let reg = load_from_str(&cfg).unwrap();
    let deltas = RelationDeltas::new();
    let child = reg.id_of("child").unwrap();
    let other = reg.id_of("other").unwrap();
    assert_eq!(faction_relation(&reg, &deltas, child, other), Relation::Warm);
}

#[test]
fn drift_clamps_to_score_range() {
    let reg = fixture_registry();
    let mut deltas = RelationDeltas::new();
    let parent = reg.id_of("parent").unwrap();
    let other = reg.id_of("other").unwrap();
    shift_faction_relation(&reg, &mut deltas, parent, other, 200);
    assert_eq!(faction_relation(&reg, &deltas, parent, other), Relation::Friendly);
    shift_faction_relation(&reg, &mut deltas, parent, other, -50);
    assert_eq!(faction_relation(&reg, &deltas, parent, other), Relation::Warm);
    assert_eq!(faction_relation_score(&reg, &deltas, parent, other), 50);
}

#[test]
fn self_relation_defaults_to_warm() {
    let reg = fixture_registry();
    let deltas = RelationDeltas::new();
    let parent = reg.id_of("parent").unwrap();
    assert_eq!(faction_relation(&reg, &deltas, parent, parent), Relation::Warm);
}

#[test]
fn self_relation_can_be_overridden() {
    let cfg = format!("default_self_relation = \"friendly\"\n{FIXTURE}");
    let reg = load_from_str(&cfg).unwrap();
    let deltas = RelationDeltas::new();
    let parent = reg.id_of("parent").unwrap();
    assert_eq!(faction_relation(&reg, &deltas, parent, parent), Relation::Friendly);
}

#[test]
fn missing_pair_uses_default() {
    let reg = fixture_registry();
    let deltas = RelationDeltas::new();
    let nomads = reg.id_of("nomads").unwrap();
    let other = reg.id_of("other").unwrap();
    assert_eq!(faction_relation(&reg, &deltas, nomads, other), Relation::Neutral);
}

#[test]
fn player_rep_isolates_per_player() {
    let reg = fixture_registry();
    let deltas = RelationDeltas::new();
    let mut rep = PlayerReputation::new();
    let parent = reg.id_of("parent").unwrap();
    shift_player_rep(&reg, &mut rep, 1, parent, -200);
    assert_eq!(player_relation(&reg, &rep, &deltas, 1, parent), Relation::Hostile);
    assert_eq!(player_relation(&reg, &rep, &deltas, 2, parent), Relation::Neutral);
}

#[test]
fn player_rep_first_contact_uses_baseline() {
    let reg = fixture_registry();
    let deltas = RelationDeltas::new();
    let rep = PlayerReputation::new();
    let other = reg.id_of("other").unwrap();
    assert_eq!(player_relation(&reg, &rep, &deltas, 7, other), Relation::Neutral);
}

#[test]
fn rejects_self_pair() {
    let bad = format!("{FIXTURE}\n[[relation]]\na = \"parent\"\nb = \"parent\"\nvalue = \"warm\"\n");
    let err = load_from_str(&bad).unwrap_err();
    assert!(matches!(err, RegistryError::SelfRelation(_)));
    assert_eq!(err.message(), "self-pair relation declared: parent");
}

#[test]
fn rejects_unknown_parent() {
    let bad = r#"
default_relation = "neutral"
[[faction]]
name = "kid"
display = "Kid"
parent = "ghost"
default_loadout = "x"
color = [0, 0, 0]
"#;
    let err = load_from_str(bad).unwrap_err();
    assert!(matches!(err, RegistryError::UnknownParent { .. }));
    assert_eq!(err.message(), "unknown parent for kid: ghost");
}

#[test]
fn relation_value_accepts_numeric_score() {
    let cfg = r#"
default_relation = "neutral"
[[faction]]
name = "a"
display = "A"
default_loadout = "x"
color = [0, 0, 0]
[[faction]]
name = "b"
display = "B"
default_loadout = "x"
color = [0, 0, 0]
[[relation]]
a = "a"
b = "b"
value = "-30"
"#;
    let reg = load_from_str(cfg).unwrap();
    let deltas = RelationDeltas::new();
    let a = reg.id_of("a").unwrap();
    let b = reg.id_of("b").unwrap();
    assert_eq!(faction_relation(&reg, &deltas, a, b), Relation::Cold);
    assert_eq!(faction_relation_score(&reg, &deltas, a, b), -30);
}

#[test]
fn band_thresholds() {
    assert_eq!(band_from_score(-100), Relation::Hostile);
    assert_eq!(band_from_score(-76), Relation::Hostile);
    assert_eq!(band_from_score(-75), Relation::Hostile);
    assert_eq!(band_from_score(-74), Relation::Cold);
    assert_eq!(band_from_score(-50), Relation::Cold);
    assert_eq!(band_from_score(-25), Relation::Cold);
    assert_eq!(band_from_score(-24), Relation::Neutral);
    assert_eq!(band_from_score(0), Relation::Neutral);
    assert_eq!(band_from_score(24), Relation::Neutral);
    assert_eq!(band_from_score(25), Relation::Warm);
    assert_eq!(band_from_score(50), Relation::Warm);
    assert_eq!(band_from_score(74), Relation::Warm);
    assert_eq!(band_from_score(75), Relation::Friendly);
    assert_eq!(band_from_score(100), Relation::Friendly);
}

/// A family of raiders, some of whom have relations of their own.
const RAIDERS: &str = r#"
default_relation = "neutral"
[[faction]]
name = "coalition"
display = "Coalition"
[[faction]]
name = "raiders"
display = "Raiders"
[[faction]]
name = "looters"
display = "Looters"
parent = "raiders"
[[faction]]
name = "smugglers"
display = "Smugglers"
parent = "raiders"
[[faction]]
name = "syndicate"
display = "Syndicate"
[[relation]]
a = "raiders"
b = "coalition"
value = "hostile"
[[relation]]
a = "raiders"
b = "syndicate"
value = "cold"
[[relation]]
a = "smugglers"
b = "syndicate"
value = "neutral"
"#;

#[test]
fn subfaction_inherits_parent_relations() {
    let reg = load_from_str(RAIDERS).unwrap();
    let deltas = RelationDeltas::new();
    let coalition = reg.id_of("coalition").unwrap();
    let looters = reg.id_of("looters").unwrap();
    let smugglers = reg.id_of("smugglers").unwrap();
    let compact = reg.id_of("syndicate").unwrap();
    assert_eq!(faction_relation(&reg, &deltas, looters, coalition), Relation::Hostile);
    assert_eq!(faction_relation(&reg, &deltas, smugglers, compact), Relation::Neutral);
    assert_eq!(faction_relation(&reg, &deltas, smugglers, coalition), Relation::Hostile);
    assert_eq!(faction_relation(&reg, &deltas, coalition, smugglers), Relation::Hostile);
}

#[test]
fn bands_and_names_go_both_ways() {
    for r in [
        Relation::Hostile,
        Relation::Cold,
        Relation::Neutral,
        Relation::Warm,
        Relation::Friendly,
    ] {
        assert_eq!(band_from_score(anchor_score(r)), r);
        assert_eq!(relation_from_str(relation_to_str(r)), Some(r));
    }
    assert_eq!(relation_from_str("Hostile"), None);
}

#[test]
fn relation_values_are_bands_or_numbers() {
    assert_eq!(parse_relation_value("cold").unwrap(), -50);
    assert_eq!(parse_relation_value("+7").unwrap(), 7);
    assert_eq!(parse_relation_value("-0").unwrap(), 0);
    assert_eq!(parse_relation_value("0012").unwrap(), 12);
    assert_eq!(parse_relation_value("32767").unwrap(), 100);
    assert_eq!(parse_relation_value("-32768").unwrap(), -100);
    for bad in ["", "-", "+", "32768", "-32769", "1x", " 1", "99999999999999999999"] {
        assert!(matches!(
            parse_relation_value(bad),
            Err(RegistryError::UnknownRelationValue(_))
        ));
    }
}

#[test]
fn faults_are_found_in_order() {
    let twice = format!("{FIXTURE}\n[[faction]]\nname = \"other\"\ndisplay = \"Again\"\n");
    assert!(matches!(
        load_from_str(&twice),
        Err(RegistryError::DuplicateFaction(n)) if n == "other"
    ));
    let pair = format!("{FIXTURE}\n[[relation]]\na = \"parent\"\nb = \"ghost\"\nvalue = \"warm\"\n");
    assert!(matches!(
        load_from_str(&pair),
        Err(RegistryError::UnknownFactionInPair(n)) if n == "ghost"
    ));
    let value = format!("{FIXTURE}\n[[relation]]\na = \"other\"\nb = \"child\"\nvalue = \"meh\"\n");
    assert!(matches!(
        load_from_str(&value),
        Err(RegistryError::UnknownRelationValue(v)) if v == "meh"
    ));
    let mut cfg = config(FIXTURE);
    cfg.player_baseline = Some("nobody".to_string());
    assert!(matches!(
        build_registry(cfg),
        Err(RegistryError::UnknownPlayerBaseline(n)) if n == "nobody"
    ));
    let mut cfg = config(FIXTURE);
    cfg.default_relation = "odd".to_string();
    assert!(matches!(
        build_registry(cfg),
        Err(RegistryError::UnknownRelationValue(v)) if v == "odd"
    ));
}

#[test]
fn families_give_what_a_part_does_not_say() {
    let mut cfg = config(FIXTURE);
    for f in cfg.factions.iter_mut() {
        if f.name == "parent" {
            f.squad_size = Some(SquadSize { min: 5, max: 6 });
            f.base_kinds = vec![BaseKindWeight { kind: BaseKind::CampSite, weight: 2 }];
            f.combat = Some(CombatCosts { shoot: F32Bits(7), ..CombatCosts::default() });
        }
    }
    let reg = build_registry(cfg).unwrap();
    let child = reg.id_of("child").unwrap();
    let other = reg.id_of("other").unwrap();
    let parent = reg.id_of("parent").unwrap();
    assert_eq!(reg.squad_size(child), SquadSize { min: 5, max: 6 });
    assert_eq!(reg.squad_size(other), SquadSize { min: 2, max: 4 });
    assert_eq!(reg.base_kind_weights(child).len(), 1);
    assert_eq!(
        reg.base_kind_weights(other),
        vec![
            BaseKindWeight { kind: BaseKind::Outpost, weight: 3 },
            BaseKindWeight { kind: BaseKind::Safehouse, weight: 1 },
        ]
    );
    assert_eq!(reg.combat_costs(child), CombatCosts::default());
    assert_eq!(reg.combat_costs(parent).shoot, F32Bits(7));
    assert_eq!(reg.top_level().len(), 3);
    assert_eq!(reg.def(child).parent, Some(parent));
    assert_eq!(reg.def(child).archetype, PersonalityArchetype::Default);
    assert_eq!(
        reg.resolve_with_parent_walk(child, |n: &str| if n == "parent" { Some(1) } else { None }),
        Some(1)
    );
    assert_eq!(reg.resolve_with_parent_walk(other, |_: &str| None::<u8>), None);
    assert_eq!(reg.defs().len(), 4);
    assert_eq!(reg.default_relation(), 0);
    assert_eq!(reg.player_baseline(), reg.id_of("nomads"));
}

#[test]
fn families_that_disagree_see_each_other_differently() {
    let src = r#"
[[faction]]
name = "p"
display = "P"
[[faction]]
name = "q"
display = "Q"
[[faction]]
name = "x"
display = "X"
parent = "p"
[[faction]]
name = "y"
display = "Y"
parent = "q"
[[relation]]
a = "p"
b = "y"
value = "10"
[[relation]]
a = "q"
b = "x"
value = "20"
"#;
    let reg = load_from_str(src).unwrap();
    let deltas = RelationDeltas::new();
    let x = reg.id_of("x").unwrap();
    let y = reg.id_of("y").unwrap();
    assert_eq!(faction_relation_score(&reg, &deltas, x, y), 10);
    assert_eq!(faction_relation_score(&reg, &deltas, y, x), 20);
}

#[test]
fn player_standing_is_clamped_on_reading() {
    let reg = fixture_registry();
    let deltas = RelationDeltas::new();
    let mut rep = PlayerReputation::new();
    let other = reg.id_of("other").unwrap();
    shift_player_rep(&reg, &mut rep, 3, other, i16::MAX);
    shift_player_rep(&reg, &mut rep, 3, other, i16::MAX);
    assert_eq!(player_relation_score(&reg, &rep, &deltas, 3, other), 100);
    shift_player_rep(&reg, &mut rep, 3, other, i16::MIN);
    assert_eq!(player_relation_score(&reg, &rep, &deltas, 3, other), -1);
}
