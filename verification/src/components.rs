//! What the entities of the world carry.
use vstd::arithmetic::div_mod::{
    lemma_add_mod_noop, lemma_mod_multiples_vanish, lemma_mul_mod_noop_left, lemma_small_mod,
};
use vstd::prelude::*;
use vstd::std_specs::convert::FromSpecImpl;

use crate::faction::registry::FactionId;
use crate::float_bits::{whole_bits, F32Bits, F32_ZERO};
use crate::items::{saturating_product, saturating_product_u32, ItemId, ToolTier};
use crate::names::{
    always_draws, bucket_weights, draws_alike, faction_draw_weights, is_roll, law_rolls_repeat,
    NameRegistry, NationalityBucket, PoolView, DEFAULT_MALE_NAME_WEIGHT,
};
use crate::region::RegionId;
use crate::rng::{draw_u8, draw_word, seeded, words_drawn, Generator, Trail};
use crate::strmap::StrMap;
use crate::text::str_eq;
use crate::weighted::weight_sum;

verus! {

/// Body part of a person.
#[derive(Clone, Copy, Debug, PartialEq, Eq, Hash, Structural)]
pub enum BodyPart {
    Head,
    Torso,
    LeftArm,
    RightArm,
    LeftLeg,
    RightLeg,
}

/// Kind of drug.
#[derive(Clone, Copy, Debug, PartialEq, Eq, Hash, Structural)]
pub enum DrugKind {
    Painkiller,
    Morphine,
    Adrenaline,
    StimCocktail,
    AntiRad,
    AntiTox,
}

/// Kind of food.
#[derive(Clone, Copy, Debug, PartialEq, Eq, Hash, Structural)]
pub enum FoodKind {
    PreservedRation,
    FreshFood,
    RawMeat,
    CookedMeat,
    ContaminatedFood,
    FieldRation,
    EnergyBar,
}

/// Kind of drink.
#[derive(Clone, Copy, Debug, PartialEq, Eq, Hash, Structural)]
pub enum WaterKind {
    DirtyWater,
    CleanWater,
    EnergyDrink,
    Vodka,
}

/// A stack of one item, independent of where it lies.
#[derive(Debug, Clone, PartialEq)]
pub struct ItemInstance {
    pub id: ItemId,
    pub count: u32,
    pub spawned_tick: u64,
    /// Set on magazines.
    pub magazine_state: Option<MagazineState>,
}

impl ItemInstance {
    /// How many rounds are in a magazine; nothing else holds any.
    pub open spec fn rounds(self) -> u32 {
        match self.magazine_state {
            Some(m) => m.loaded_rounds,
            None => 0,
        }
    }

    /// How many rounds are in a magazine; nothing else holds any.
    pub fn loaded_rounds(&self) -> (r: u32)
        ensures
            r == self.rounds(),
    {
        match &self.magazine_state {
            Some(m) => m.loaded_rounds,
            None => 0,
        }
    }
}

/// What is in a magazine.
#[derive(Debug, Clone, PartialEq, Eq, Hash)]
pub struct MagazineState {
    pub loaded_rounds: u32,
    /// The kind of round loaded; `None` when none was ever loaded.
    pub variant: Option<ItemId>,
}

impl Default for MagazineState {
    fn default() -> (r: Self)
        ensures
            r.loaded_rounds == 0,
            r.variant is None,
    {
        MagazineState { loaded_rounds: 0, variant: None }
    }
}

/// How an item lies in a grid.
#[derive(Clone, Copy, Debug, PartialEq, Eq, Hash, Structural)]
pub enum ItemRotation {
    Deg0,
    Deg90,
}

impl Default for ItemRotation {
    fn default() -> (r: Self)
        ensures
            r == ItemRotation::Deg0,
    {
        ItemRotation::Deg0
    }
}

/// A stack at a place in a grid. A container carries what is in it.
#[derive(Debug, PartialEq)]
pub struct PlacedItem {
    pub stack: ItemInstance,
    pub x: u32,
    pub y: u32,
    pub rotation: ItemRotation,
    pub inner_grid: Option<GridInventory>,
}

/// Grid of cells, origin at the top left, with the stacks that lie in it.
#[derive(Debug, PartialEq)]
pub struct GridInventory {
    pub width: u32,
    pub height: u32,
    pub items: Vec<PlacedItem>,
}

/// Width of a player's own grid.
pub const DEFAULT_PLAYER_WIDTH: u32 = 4;

/// Height of a player's own grid.
pub const DEFAULT_PLAYER_HEIGHT: u32 = 4;

/// Sum of the counts of all stacks.
pub open spec fn total_units(items: Seq<PlacedItem>) -> int
    decreases items.len(),
{
    if items.len() == 0 {
        0
    } else {
        total_units(items.drop_last()) + items.last().stack.count
    }
}

proof fn lemma_total_units_monotone(items: Seq<PlacedItem>, k: int)
    requires
        0 <= k <= items.len(),
    ensures
        0 <= total_units(items.take(k)) <= total_units(items),
    decreases items.len(),
{
    if k == items.len() {
        assert(items.take(k) =~= items);
        if k > 0 {
            lemma_total_units_monotone(items.drop_last(), k - 1);
            assert(items.drop_last().take(k - 1) =~= items.drop_last());
        }
    } else {
        lemma_total_units_monotone(items.drop_last(), k);
        assert(items.drop_last().take(k) =~= items.take(k));
    }
}

impl GridInventory {
    /// An empty grid.
    pub fn new(width: u32, height: u32) -> (r: Self)
        ensures
            r.width == width,
            r.height == height,
            r.items@ == Seq::<PlacedItem>::empty(),
    {
        GridInventory { width, height, items: Vec::new() }
    }

    /// The grid a player starts with.
    pub fn player_default() -> (r: Self)
        ensures
            r.width == 4,
            r.height == 4,
            r.items@ == Seq::<PlacedItem>::empty(),
    {
        GridInventory::new(DEFAULT_PLAYER_WIDTH, DEFAULT_PLAYER_HEIGHT)
    }

    /// How many cells the grid has, saturating.
    pub fn capacity_cells(&self) -> (r: u32)
        ensures
            r == saturating_product(self.width, self.height),
    {
        saturating_product_u32(self.width, self.height)
    }

    /// Sum of the counts of all stacks.
    pub fn total_count(&self) -> (r: u32)
        requires
            total_units(self.items@) <= u32::MAX,
        ensures
            r == total_units(self.items@),
    {
        let mut sum: u32 = 0;
        let mut i: usize = 0;
        proof {
            assert(self.items@.take(0) =~= Seq::<PlacedItem>::empty());
        }
        while i < self.items.len()
            invariant
                i <= self.items@.len(),
                sum == total_units(self.items@.take(i as int)),
                total_units(self.items@) <= u32::MAX,
            decreases self.items@.len() - i,
        {
            proof {
                assert(self.items@.take(i + 1).drop_last() =~= self.items@.take(i as int));
                lemma_total_units_monotone(self.items@, i + 1);
            }
            sum += self.items[i].stack.count;
            i += 1;
        }
        proof {
            assert(self.items@.take(i as int) =~= self.items@);
        }
        sum
    }
}

impl Default for GridInventory {
    fn default() -> (r: Self)
        ensures
            r.width == 4,
            r.height == 4,
            r.items@ == Seq::<PlacedItem>::empty(),
    {
        GridInventory::player_default()
    }
}

/// Part that a squad member plays in a fight.
#[derive(Clone, Copy, Debug, PartialEq, Eq, Hash, Structural)]
pub enum CombatRole {
    Pointman,
    Support,
    Flanker,
    Medic,
}

/// Place of an entity, in metres.
#[derive(Clone, Copy, Debug, PartialEq, Eq)]
pub struct Position(pub [F32Bits; 3]);

/// Which way an entity faces, in radians.
#[derive(Clone, Copy, Debug, PartialEq, Eq, Hash, Structural)]
pub struct Rotation(pub F32Bits);

/// The region an entity is in.
#[derive(Clone, Copy, Debug, PartialEq, Eq, Hash, Structural)]
pub struct InRegion(pub RegionId);

/// An entity that acts.
#[derive(Clone, Copy, Debug, PartialEq, Eq, Hash, Structural)]
pub struct Actor {
    pub kind: ActorKind,
}

/// Who decides what an actor does.
#[derive(Clone, Copy, Debug, PartialEq, Eq, Hash, Structural)]
pub enum ActorKind {
    Player,
    Npc,
}

/// An entity that belongs to a player.
#[derive(Clone, Copy, Debug, PartialEq, Eq, Hash, Structural)]
pub struct PlayerOwned {
    pub steam_id: u64,
}

/// Health of an entity without body parts.
#[derive(Clone, Copy, Debug, PartialEq, Eq, Hash, Structural)]
pub struct Health {
    pub current: F32Bits,
    pub max: F32Bits,
}

/// Most health there is.
pub const HEALTH_MAX: i32 = 100;

impl Health {
    /// Full health.
    pub fn new_full() -> (r: Self)
        ensures
            r.current.0 == whole_bits(100),
            r.max.0 == whole_bits(100),
    {
        let full = F32Bits::from_whole(HEALTH_MAX);
        Health { current: full, max: full }
    }
}

/// Stamina of a player.
#[derive(Clone, Copy, Debug, PartialEq, Eq, Hash, Structural)]
pub struct Stamina {
    pub current: F32Bits,
    pub max: F32Bits,
    pub regen_per_sec: F32Bits,
}

/// Most stamina there is.
pub const STAMINA_MAX: i32 = 100;

/// Stamina that comes back in a second.
pub const STAMINA_REGEN: i32 = 15;

impl Stamina {
    /// Full stamina.
    pub fn new_full() -> (r: Self)
        ensures
            r.current.0 == whole_bits(100),
            r.max.0 == whole_bits(100),
            r.regen_per_sec.0 == whole_bits(15),
    {
        let full = F32Bits::from_whole(STAMINA_MAX);
        Stamina { current: full, max: full, regen_per_sec: F32Bits::from_whole(STAMINA_REGEN) }
    }
}

/// Identity of a character.
#[derive(Clone, Copy, Debug, PartialEq, Eq, Hash, PartialOrd, Ord, Structural)]
pub struct CharacterId(pub u64);

/// What a character is good at, each from 0 to 100.
#[derive(Clone, Copy, Debug, PartialEq, Eq, Hash, Structural)]
pub struct NpcStats {
    pub accuracy: u8,
    pub perception: u8,
    pub stealth: u8,
    pub strength: u8,
    pub endurance: u8,
    pub marksmanship: u8,
    pub leadership: u8,
    pub luck: u8,
}

/// Least that a stat is rolled as.
pub const STAT_ROLL_MIN: u8 = 30;

/// Most that a stat is rolled as.
pub const STAT_ROLL_MAX: u8 = 80;

/// A rolled stat with a nudge, kept between 0 and 100.
pub open spec fn nudged(draw: int, nudge: int) -> int {
    if draw + nudge < 0 {
        0
    } else if draw + nudge > 100 {
        100
    } else {
        draw + nudge
    }
}

/// A stat can be rolled as `v`.
pub open spec fn rolled(v: u8) -> bool {
    STAT_ROLL_MIN <= v <= STAT_ROLL_MAX
}

/// A stat can be rolled as `v` with a nudge.
pub open spec fn rolled_nudged(v: u8, nudge: int) -> bool {
    exists|draw: u8| rolled(draw) && v == #[trigger] nudged(draw as int, nudge)
}

/// A generator's state once `n` stats were drawn.
pub open spec fn past_stats(t: Trail, n: nat) -> Trail
    decreases n,
{
    if n == 0 {
        t
    } else {
        past_stats(t, (n - 1) as nat).after(8, STAT_ROLL_MIN as int, STAT_ROLL_MAX as int)
    }
}

/// The `k`-th stat that is drawn.
pub open spec fn stat_draw(t: Trail, k: nat) -> int {
    past_stats(t, k).next(8, STAT_ROLL_MIN as int, STAT_ROLL_MAX as int)
}

impl NpcStats {
    /// Sum of the five stats that decide a fight.
    pub open spec fn competence(self) -> int {
        self.accuracy + self.perception + self.marksmanship + self.endurance + self.luck
    }

    /// Sum of the five stats that decide a fight.
    pub fn combat_competence(&self) -> (r: u32)
        ensures
            r == self.competence(),
    {
        self.accuracy as u32 + self.perception as u32 + self.marksmanship as u32
            + self.endurance as u32 + self.luck as u32
    }

    /// Stats from eight draws, in the order of the fields; the two that aim
    /// get a nudge.
    pub fn from_draws(draws: &Vec<u8>, nudge: i32) -> (r: Self)
        requires
            draws@.len() == 8,
            draws@[0] + nudge <= i32::MAX,
            draws@[5] + nudge <= i32::MAX,
        ensures
            r.accuracy == nudged(draws@[0] as int, nudge as int),
            r.perception == draws@[1],
            r.stealth == draws@[2],
            r.strength == draws@[3],
            r.endurance == draws@[4],
            r.marksmanship == nudged(draws@[5] as int, nudge as int),
            r.leadership == draws@[6],
            r.luck == draws@[7],
    {
        NpcStats {
            accuracy: nudge_stat(draws[0], nudge),
            perception: draws[1],
            stealth: draws[2],
            strength: draws[3],
            endurance: draws[4],
            marksmanship: nudge_stat(draws[5], nudge),
            leadership: draws[6],
            luck: draws[7],
        }
    }

    /// Each stat is as rolled; the two that aim got a nudge.
    pub open spec fn is_rolled(self, nudge: int) -> bool {
        &&& rolled_nudged(self.accuracy, nudge)
        &&& rolled(self.perception)
        &&& rolled(self.stealth)
        &&& rolled(self.strength)
        &&& rolled(self.endurance)
        &&& rolled_nudged(self.marksmanship, nudge)
        &&& rolled(self.leadership)
        &&& rolled(self.luck)
    }

    /// Each stat is what a generator gives in the given state, one after the
    /// other; the two that aim got a nudge.
    pub open spec fn comes_from(self, t: Trail, nudge: int) -> bool {
        &&& self.accuracy == nudged(stat_draw(t, 0), nudge)
        &&& self.perception == stat_draw(t, 1)
        &&& self.stealth == stat_draw(t, 2)
        &&& self.strength == stat_draw(t, 3)
        &&& self.endurance == stat_draw(t, 4)
        &&& self.marksmanship == nudged(stat_draw(t, 5), nudge)
        &&& self.leadership == stat_draw(t, 6)
        &&& self.luck == stat_draw(t, 7)
    }

    /// Rolls stats; the two that aim get a nudge.
    pub fn roll(rng: &mut Generator, nudge: i32) -> (r: Self)
        requires
            nudge <= i32::MAX - STAT_ROLL_MAX,
        ensures
            r.is_rolled(nudge as int),
            match old(rng)@ {
                Some(t) => r.comes_from(t, nudge as int) && final(rng)@ == Some(past_stats(t, 8)),
                None => final(rng)@ is None,
            },
    {
        let mut draws: Vec<u8> = Vec::new();
        let mut i: usize = 0;
        while i < 8
            invariant
                i <= 8,
                draws@.len() == i,
                forall|k: int| 0 <= k < i ==> rolled(#[trigger] draws@[k]),
                match old(rng)@ {
                    Some(t) => rng@ == Some(past_stats(t, i as nat)) && forall|k: int|
                        0 <= k < i ==> #[trigger] draws@[k] == stat_draw(t, k as nat),
                    None => rng@ is None,
                },
            decreases 8 - i,
        {
            draws.push(draw_u8(rng, STAT_ROLL_MIN, STAT_ROLL_MAX));
            i += 1;
        }
        assert(rolled(draws@[0]) && rolled(draws@[1]) && rolled(draws@[2]) && rolled(draws@[3])
            && rolled(draws@[4]) && rolled(draws@[5]) && rolled(draws@[6]) && rolled(draws@[7]));
        NpcStats::from_draws(&draws, nudge)
    }
}

/// A rolled stat with a nudge, kept between 0 and 100.
fn nudge_stat(draw: u8, nudge: i32) -> (r: u8)
    requires
        draw + nudge <= i32::MAX,
    ensures
        r == nudged(draw as int, nudge as int),
{
    let v: i32 = draw as i32 + nudge;
    if v < 0 {
        0
    } else if v > 100 {
        100
    } else {
        v as u8
    }
}

/// How dangerous a character is.
#[derive(Clone, Copy, Debug, PartialEq, Eq, Hash, PartialOrd, Ord, Structural)]
pub enum NpcRank {
    Rookie,
    Experienced,
    Veteran,
    Master,
    Legend,
}

pub const ROOKIE_FLOOR: u32 = 0;

pub const EXPERIENCED_FLOOR: u32 = 280;

pub const VETERAN_FLOOR: u32 = 350;

pub const MASTER_FLOOR: u32 = 410;

pub const LEGEND_FLOOR: u32 = 460;

impl NpcRank {
    /// The least score that has the rank.
    pub open spec fn floor(self) -> u32 {
        match self {
            NpcRank::Rookie => ROOKIE_FLOOR,
            NpcRank::Experienced => EXPERIENCED_FLOOR,
            NpcRank::Veteran => VETERAN_FLOOR,
            NpcRank::Master => MASTER_FLOOR,
            NpcRank::Legend => LEGEND_FLOOR,
        }
    }

    /// The rank of a score: the highest whose floor the score reaches.
    pub open spec fn of_score(self, score: int) -> bool {
        self.floor() <= score && forall|higher: NpcRank|
            #[trigger] higher.floor() > self.floor() ==> score < higher.floor()
    }

    /// The rank of stats without lived experience.
    pub fn from_stats(stats: &NpcStats) -> (r: Self)
        ensures
            r.of_score(stats.competence()),
    {
        NpcRank::from_competence(stats.combat_competence())
    }

    /// The rank of a score.
    pub fn from_competence(score: u32) -> (r: Self)
        ensures
            r.of_score(score as int),
    {
        if score >= LEGEND_FLOOR {
            NpcRank::Legend
        } else if score >= MASTER_FLOOR {
            NpcRank::Master
        } else if score >= VETERAN_FLOOR {
            NpcRank::Veteran
        } else if score >= EXPERIENCED_FLOOR {
            NpcRank::Experienced
        } else {
            NpcRank::Rookie
        }
    }

    /// Name of the rank.
    pub open spec fn title(self) -> Seq<char> {
        match self {
            NpcRank::Rookie => "Rookie"@,
            NpcRank::Experienced => "Experienced"@,
            NpcRank::Veteran => "Veteran"@,
            NpcRank::Master => "Master"@,
            NpcRank::Legend => "Legend"@,
        }
    }

    /// Name of the rank.
    pub fn label(self) -> (r: &'static str)
        ensures
            r@ == self.title(),
    {
        match self {
            NpcRank::Rookie => "Rookie",
            NpcRank::Experienced => "Experienced",
            NpcRank::Veteran => "Veteran",
            NpcRank::Master => "Master",
            NpcRank::Legend => "Legend",
        }
    }
}

/// A score has one rank, and a higher score no lower one.
pub proof fn law_rank_grows_with_score(a: NpcRank, b: NpcRank, low: int, high: int)
    requires
        a.of_score(low),
        b.of_score(high),
        low <= high,
    ensures
        a.floor() <= b.floor(),
        low == high ==> a == b,
{
    if a.floor() > b.floor() {
        assert(high < a.floor());
    }
    if low == high && b.floor() > a.floor() {
        assert(low < b.floor());
    }
}

/// Bents of a character.
#[derive(Clone, Copy, Debug, PartialEq, Eq, Hash, Structural)]
pub struct PersonalityTraits {
    pub aggressive: bool,
    pub cautious: bool,
    pub curious: bool,
    pub greedy: bool,
    pub loyal: bool,
    pub bloodthirsty: bool,
    pub social: bool,
    pub solitary: bool,
    pub disciplined: bool,
    pub reckless: bool,
}

impl Default for PersonalityTraits {
    fn default() -> (r: Self)
        ensures
            !r.aggressive,
            !r.cautious,
            !r.curious,
            !r.greedy,
            !r.loyal,
            !r.bloodthirsty,
            !r.social,
            !r.solitary,
            !r.disciplined,
            !r.reckless,
    {
        PersonalityTraits {
            aggressive: false,
            cautious: false,
            curious: false,
            greedy: false,
            loyal: false,
            bloodthirsty: false,
            social: false,
            solitary: false,
            disciplined: false,
            reckless: false,
        }
    }
}

/// One drive where `wanted`, none otherwise.
pub open spec fn drive_if(wanted: bool, drive: PersonalityDrive) -> Seq<PersonalityDrive> {
    if wanted {
        seq![drive]
    } else {
        Seq::empty()
    }
}

impl PersonalityTraits {
    /// What the character wants when nothing more urgent is at hand.
    pub open spec fn drives(self) -> Seq<PersonalityDrive> {
        drive_if(self.curious, PersonalityDrive::Hunt) + drive_if(
            self.greedy,
            PersonalityDrive::Loot,
        ) + drive_if(self.bloodthirsty, PersonalityDrive::Bloodsport) + drive_if(
            self.social,
            PersonalityDrive::Socialize,
        )
    }

    /// What the character wants when nothing more urgent is at hand.
    pub fn introduces_drives(&self) -> (r: Vec<PersonalityDrive>)
        ensures
            r@ == self.drives(),
    {
        let mut out: Vec<PersonalityDrive> = Vec::new();
        if self.curious {
            out.push(PersonalityDrive::Hunt);
        }
        if self.greedy {
            out.push(PersonalityDrive::Loot);
        }
        if self.bloodthirsty {
            out.push(PersonalityDrive::Bloodsport);
        }
        if self.social {
            out.push(PersonalityDrive::Socialize);
        }
        assert(out@ =~= self.drives());
        out
    }
}

/// No drive is listed twice.
pub proof fn law_drives_are_distinct(t: PersonalityTraits)
    ensures
        t.drives().no_duplicates(),
{
}

/// Something that a character may want of itself.
#[derive(Clone, Copy, Debug, PartialEq, Eq, Hash, Structural)]
pub enum PersonalityDrive {
    Hunt,
    Socialize,
    Loot,
    Bloodsport,
}

/// What kind of people a faction attracts.
#[derive(Clone, Copy, Debug, PartialEq, Eq, Hash, Structural)]
pub enum PersonalityArchetype {
    Disciplined,
    Aggressive,
    Greedy,
    Curious,
    Reverent,
    Default,
}

impl Default for PersonalityArchetype {
    fn default() -> (r: Self)
        ensures
            r == PersonalityArchetype::Default,
    {
        PersonalityArchetype::Default
    }
}

// Bit patterns of probabilities, named by their hundredths.

pub const P_10: u32 = 0x3dcc_cccd;

pub const P_15: u32 = 0x3e19_999a;

pub const P_20: u32 = 0x3e4c_cccd;

pub const P_25: u32 = 0x3e80_0000;

pub const P_30: u32 = 0x3e99_999a;

pub const P_35: u32 = 0x3eb3_3333;

pub const P_40: u32 = 0x3ecc_cccd;

pub const P_45: u32 = 0x3ee6_6666;

pub const P_50: u32 = 0x3f00_0000;

pub const P_55: u32 = 0x3f0c_cccd;

pub const P_60: u32 = 0x3f19_999a;

pub const P_65: u32 = 0x3f26_6666;

pub const P_70: u32 = 0x3f33_3333;

pub const P_75: u32 = 0x3f40_0000;

pub const P_80: u32 = 0x3f4c_cccd;

pub const P_85: u32 = 0x3f59_999a;

/// The archetype that a faction's name stands for.
pub open spec fn archetype_named(name: Seq<char>) -> PersonalityArchetype {
    if name == "pwa"@ || name == "federal"@ || name == "ghost_teams"@ || name == "aegis_pacific"@ || name == "recovery_division"@ || name == "revere_guard"@ {
        PersonalityArchetype::Disciplined
    } else if name == "linemen"@ || name == "cartel"@ || name == "merged"@ {
        PersonalityArchetype::Aggressive
    } else if name == "looters"@ || name == "bandits"@ || name == "gulf_compact"@ || name == "registry"@ {
        PersonalityArchetype::Greedy
    } else if name == "wanderers"@ {
        PersonalityArchetype::Curious
    } else if name == "attuned"@ || name == "choir"@ {
        PersonalityArchetype::Reverent
    } else {
        PersonalityArchetype::Default
    }
}

impl PersonalityArchetype {
    /// The archetype that a faction's name stands for.
    pub fn from_faction_name(name: &str) -> (r: Self)
        ensures
            r == archetype_named(name@),
    {
        if str_eq(name, "pwa") || str_eq(name, "federal") || str_eq(name, "ghost_teams") || str_eq(name, "aegis_pacific") || str_eq(name, "recovery_division") || str_eq(name, "revere_guard") {
            PersonalityArchetype::Disciplined
        } else if str_eq(name, "linemen") || str_eq(name, "cartel") || str_eq(name, "merged") {
            PersonalityArchetype::Aggressive
        } else if str_eq(name, "looters") || str_eq(name, "bandits") || str_eq(name, "gulf_compact") || str_eq(name, "registry") {
            PersonalityArchetype::Greedy
        } else if str_eq(name, "wanderers") {
            PersonalityArchetype::Curious
        } else if str_eq(name, "attuned") || str_eq(name, "choir") {
            PersonalityArchetype::Reverent
        } else {
            PersonalityArchetype::Default
        }
    }

    /// How likely each trait is, in the order of the fields.
    pub open spec fn likelihoods(self) -> Seq<u32> {
        match self {
            PersonalityArchetype::Disciplined => seq![P_45, P_55, P_20, P_10, P_70, P_15, P_50, P_20, P_85, P_10],
            PersonalityArchetype::Aggressive => seq![P_85, P_15, P_20, P_30, P_45, P_65, P_40, P_25, P_60, P_55],
            PersonalityArchetype::Greedy => seq![P_55, P_30, P_30, P_85, P_20, P_40, P_45, P_30, P_20, P_65],
            PersonalityArchetype::Curious => seq![P_25, P_55, P_80, P_20, P_30, P_10, P_30, P_70, P_25, P_20],
            PersonalityArchetype::Reverent => seq![P_35, P_45, P_45, P_10, P_85, P_20, P_75, P_15, P_65, P_10],
            PersonalityArchetype::Default => seq![P_50, P_50, P_50, P_50, P_50, P_50, P_50, P_50, P_50, P_50],
        }
    }

    /// How likely each trait is, in the order of the fields.
    fn trait_probabilities(self) -> (r: [u32; 10])
        ensures
            r@ == self.likelihoods(),
    {
        let r = match self {
            PersonalityArchetype::Disciplined => [P_45, P_55, P_20, P_10, P_70, P_15, P_50, P_20, P_85, P_10],
            PersonalityArchetype::Aggressive => [P_85, P_15, P_20, P_30, P_45, P_65, P_40, P_25, P_60, P_55],
            PersonalityArchetype::Greedy => [P_55, P_30, P_30, P_85, P_20, P_40, P_45, P_30, P_20, P_65],
            PersonalityArchetype::Curious => [P_25, P_55, P_80, P_20, P_30, P_10, P_30, P_70, P_25, P_20],
            PersonalityArchetype::Reverent => [P_35, P_45, P_45, P_10, P_85, P_20, P_75, P_15, P_65, P_10],
            PersonalityArchetype::Default => [P_50, P_50, P_50, P_50, P_50, P_50, P_50, P_50, P_50, P_50],
        };
        assert(r@ =~= self.likelihoods());
        r
    }

    /// The draw gives the `i`-th trait.
    pub open spec fn gives(self, i: int, draw: F32Bits) -> bool {
        draw.less(F32Bits(self.likelihoods()[i]))
    }

    /// The traits are what ten numbers give.
    pub open spec fn traits_of(self, draws: Seq<F32Bits>, t: PersonalityTraits) -> bool {
        &&& t.aggressive == self.gives(0, draws[0])
        &&& t.cautious == self.gives(1, draws[1])
        &&& t.curious == self.gives(2, draws[2])
        &&& t.greedy == self.gives(3, draws[3])
        &&& t.loyal == self.gives(4, draws[4])
        &&& t.bloodthirsty == self.gives(5, draws[5])
        &&& t.social == self.gives(6, draws[6])
        &&& t.solitary == self.gives(7, draws[7])
        &&& t.disciplined == self.gives(8, draws[8])
        &&& t.reckless == self.gives(9, draws[9])
    }

    /// Traits from ten draws from zero to one, in the order of the fields: a
    /// trait is given where its draw is under its likelihood.
    pub fn traits_from_draws(self, draws: &Vec<F32Bits>) -> (r: PersonalityTraits)
        requires
            draws@.len() == 10,
        ensures
            self.traits_of(draws@, r),
    {
        let p = self.trait_probabilities();
        PersonalityTraits {
            aggressive: draws[0].lt(F32Bits(p[0])),
            cautious: draws[1].lt(F32Bits(p[1])),
            curious: draws[2].lt(F32Bits(p[2])),
            greedy: draws[3].lt(F32Bits(p[3])),
            loyal: draws[4].lt(F32Bits(p[4])),
            bloodthirsty: draws[5].lt(F32Bits(p[5])),
            social: draws[6].lt(F32Bits(p[6])),
            solitary: draws[7].lt(F32Bits(p[7])),
            disciplined: draws[8].lt(F32Bits(p[8])),
            reckless: draws[9].lt(F32Bits(p[9])),
        }
    }

    /// The traits are what a generator gives, and what is known of it then:
    /// `draw` makes a number of each of ten words.
    pub open spec fn can_roll<D: Fn(u32) -> F32Bits>(
        self,
        draw: D,
        before: Option<Trail>,
        t: PersonalityTraits,
        after: Option<Trail>,
    ) -> bool {
        exists|words: Seq<u32>, draws: Seq<F32Bits>| #[trigger]
            words_drawn(before, words, after) && words.len() == 10 && #[trigger] self.traits_of(
                draws,
                t,
            ) && draws.len() == 10 && forall|i: int|
                0 <= i < 10 ==> draw.ensures((#[trigger] words[i],), draws[i])
    }

    /// Rolls traits. `draw` makes a number from zero to one of a word.
    pub fn roll_traits<D: Fn(u32) -> F32Bits>(self, rng: &mut Generator, draw: &D) -> (r:
        PersonalityTraits)
        requires
            always_draws(*draw),
        ensures
            self.can_roll(*draw, old(rng)@, r, final(rng)@),
    {
        let ghost mut words: Seq<u32> = Seq::empty();
        let mut draws: Vec<F32Bits> = Vec::new();
        while draws.len() < 10
            invariant
                always_draws(*draw),
                draws@.len() <= 10,
                words.len() == draws@.len(),
                words_drawn(old(rng)@, words, rng@),
                forall|i: int|
                    0 <= i < draws@.len() ==> draw.ensures((#[trigger] words[i],), draws@[i]),
            decreases 10 - draws@.len(),
        {
            let w = draw_word(rng);
            let x = draw(w);
            draws.push(x);
            proof {
                words = words.push(w);
            }
        }
        let t = self.traits_from_draws(&draws);
        assert(self.traits_of(draws@, t));
        t
    }
}

/// Generators in one state give one set of traits, and are in one state then.
pub proof fn law_traits_repeat<D: Fn(u32) -> F32Bits>(
    archetype: PersonalityArchetype,
    draw: D,
    t: Trail,
    a: (PersonalityTraits, Option<Trail>),
    b: (PersonalityTraits, Option<Trail>),
)
    requires
        draws_alike(draw),
        archetype.can_roll(draw, Some(t), a.0, a.1),
        archetype.can_roll(draw, Some(t), b.0, b.1),
    ensures
        a == b,
        a.1 is Some,
{
    let (v, x) = choose|words: Seq<u32>, draws: Seq<F32Bits>| #[trigger]
        words_drawn(Some(t), words, a.1) && words.len() == 10 && #[trigger] archetype.traits_of(
            draws,
            a.0,
        ) && draws.len() == 10 && forall|i: int|
            0 <= i < 10 ==> draw.ensures((#[trigger] words[i],), draws[i]);
    let (w, y) = choose|words: Seq<u32>, draws: Seq<F32Bits>| #[trigger]
        words_drawn(Some(t), words, b.1) && words.len() == 10 && #[trigger] archetype.traits_of(
            draws,
            b.0,
        ) && draws.len() == 10 && forall|i: int|
            0 <= i < 10 ==> draw.ensures((#[trigger] words[i],), draws[i]);
    assert(v =~= w);
    assert forall|i: int| 0 <= i < 10 implies x[i] == y[i] by {
        assert(draw.ensures((v[i],), x[i]));
        assert(draw.ensures((w[i],), y[i]));
    }
}

/// A character.
#[derive(Clone, Debug, PartialEq, Eq)]
pub struct NpcCharacter {
    pub character_id: CharacterId,
    pub stats: NpcStats,
    pub personality: PersonalityTraits,
    pub rank: NpcRank,
    pub name: String,
    pub nationality: NationalityBucket,
    pub kills: u16,
}

/// What each kill adds to a character's competence.
pub const KILL_COMPETENCE_BUFF: u32 = 3;

/// Most that competence can be.
pub const COMPETENCE_CAP: u32 = 500;

/// The number turned left by seventeen bits.
pub open spec fn turned_left_17(h: u64) -> u64 {
    (h << 17) | (h >> 47)
}

/// Half of the mixing of [`derived_id`].
pub open spec fn mixed_ids(npc: u64, faction: u32) -> u64 {
    let a = (npc * 0xA5A5_A5A5_A5A5_A5A5) % 0x1_0000_0000_0000_0000;
    let b = (faction * 0x9E37_79B9_7F4A_7C15) % 0x1_0000_0000_0000_0000;
    (a as u64) ^ (b as u64)
}

/// The identity of an NPC of a faction: a hash of both numbers.
pub open spec fn derived_id(npc: u64, faction: u32) -> u64 {
    mixed_ids(npc, faction) ^ turned_left_17(mixed_ids(npc, faction))
}

impl NpcCharacter {
    /// The identity of an NPC of a faction: a hash of both numbers.
    pub fn derive_id(npc_id: NpcId, faction_id: FactionId) -> (r: CharacterId)
        ensures
            r.0 == derived_id(npc_id.0, faction_id.0),
    {
        let a: u64 = npc_id.0.wrapping_mul(0xA5A5_A5A5_A5A5_A5A5);
        let b: u64 = (faction_id.0 as u64).wrapping_mul(0x9E37_79B9_7F4A_7C15);
        let h: u64 = a ^ b;
        assert(h == mixed_ids(npc_id.0, faction_id.0));
        CharacterId(h ^ ((h << 17) | (h >> 47)))
    }

    /// Rolls the character of an NPC of a faction, from a generator seeded
    /// with its identity. `nudge` is what the faction's aggression adds to the
    /// two stats that aim; `trait_draw` and `sex_draw` make numbers from zero
    /// to one of words.
    pub fn roll<T: Fn(u32) -> F32Bits, D: Fn(u32) -> F32Bits>(
        npc_id: NpcId,
        faction_id: FactionId,
        archetype: PersonalityArchetype,
        nudge: i32,
        names: &NameRegistry,
        faction_nationality_weights: &StrMap<u32>,
        male_name_weight: Option<F32Bits>,
        trait_draw: T,
        sex_draw: D,
    ) -> (r: Self)
        requires
            nudge <= i32::MAX - STAT_ROLL_MAX,
            weight_sum(bucket_weights(faction_draw_weights(faction_nationality_weights.list())))
                <= u32::MAX,
            always_draws(trait_draw),
            always_draws(sex_draw),
        ensures
            is_character(npc_id.0, faction_id.0, nudge as int, r),
            r.stats.is_rolled(nudge as int),
            has_person(
                archetype,
                names@,
                faction_draw_weights(faction_nationality_weights.list()),
                (match male_name_weight {
                    Some(w) => w,
                    None => F32Bits(DEFAULT_MALE_NAME_WEIGHT),
                }),
                trait_draw,
                sex_draw,
                r,
            ),
    {
        let character_id = NpcCharacter::derive_id(npc_id, faction_id);
        let mut rng = seeded(character_id.0);
        let stats = NpcStats::roll(&mut rng, nudge);
        let ghost before = rng@;
        let personality = archetype.roll_traits(&mut rng, &trait_draw);
        let ghost mid = rng@;
        assert(archetype.can_roll(trait_draw, before, personality, mid));
        let male_weight = match male_name_weight {
            Some(w) => w,
            None => F32Bits(DEFAULT_MALE_NAME_WEIGHT),
        };
        let (nationality, name) = names.roll_for_faction_gendered(
            &mut rng,
            faction_nationality_weights,
            male_weight,
            sex_draw,
        );
        let ghost after = rng@;
        let c = NpcCharacter {
            character_id,
            stats,
            personality,
            rank: NpcRank::from_stats(&stats),
            name,
            nationality,
            kills: 0,
        };
        assert(is_roll(
            names@,
            faction_draw_weights(faction_nationality_weights.list()),
            male_weight,
            sex_draw,
            mid,
            c.nationality,
            c.name@,
            after,
        ));
        c
    }

    /// Competence with lived experience: what each kill adds counts, up to the
    /// cap.
    pub open spec fn lived_competence(self) -> int {
        if self.stats.competence() + self.kills * KILL_COMPETENCE_BUFF > COMPETENCE_CAP {
            COMPETENCE_CAP as int
        } else {
            self.stats.competence() + self.kills * KILL_COMPETENCE_BUFF
        }
    }

    /// The rank goes with the lived competence.
    pub open spec fn rank_tracks(self) -> bool {
        self.rank.of_score(self.lived_competence())
    }

    /// Competence with lived experience.
    pub fn effective_competence(&self) -> (r: u32)
        ensures
            r == self.lived_competence(),
    {
        let base: u32 = self.stats.combat_competence();
        let bonus: u32 = self.kills as u32 * KILL_COMPETENCE_BUFF;
        let sum: u32 = base + bonus;
        if sum > COMPETENCE_CAP {
            COMPETENCE_CAP
        } else {
            sum
        }
    }

    /// Counts a kill and brings the rank up to date.
    pub fn record_kill(&mut self)
        ensures
            final(self).kills == (if old(self).kills < u16::MAX {
                (old(self).kills + 1) as u16
            } else {
                u16::MAX
            }),
            final(self).rank_tracks(),
            final(self).character_id == old(self).character_id,
            final(self).stats == old(self).stats,
            final(self).personality == old(self).personality,
            final(self).name == old(self).name,
            final(self).nationality == old(self).nationality,
    {
        self.kills = self.kills.saturating_add(1);
        let competence = self.effective_competence();
        self.rank = NpcRank::from_competence(competence);
    }
}

/// The inverse, among numbers of 64 bits, of what [`mixed_ids`] multiplies a
/// faction with.
pub const FACTION_FACTOR_INVERSE: u64 = 0xF1DE_83E1_9937_733D;

/// How often the product of a faction's factor and its inverse runs over.
pub const FACTION_FACTOR_CARRY: u64 = 10_771_413_168_148_108_919;

/// One NPC has another identity in every faction.
pub proof fn law_identities_differ_by_faction(npc: u64, f: u32, g: u32)
    requires
        f != g,
    ensures
        derived_id(npc, f) != derived_id(npc, g),
{
    let m = 0x1_0000_0000_0000_0000int;
    let c = 0x9E37_79B9_7F4A_7C15int;
    let a = ((npc * 0xA5A5_A5A5_A5A5_A5A5) % m) as u64;
    let b = ((f * c) % m) as u64;
    let d = ((g * c) % m) as u64;
    let x = mixed_ids(npc, f);
    let y = mixed_ids(npc, g);
    assert(x == a ^ b && y == a ^ d);
    if derived_id(npc, f) == derived_id(npc, g) {
        lemma_turn_undone(x, y);
        assert(x == a ^ b && y == a ^ d && x == y ==> b == d) by (bit_vector);
        assert(x == a ^ b && y == a ^ d && x == !y ==> b == 0xFFFF_FFFF_FFFF_FFFF - d)
            by (bit_vector);
        lemma_factor_undone(f as int);
        lemma_factor_undone(g as int);
        if x != y {
            lemma_no_opposites(f as int, g as int, b as int, d as int);
        }
    }
}

/// Numbers that mix alike with themselves turned are the same or opposites.
proof fn lemma_turn_undone(x: u64, y: u64)
    requires
        x ^ turned_left_17(x) == y ^ turned_left_17(y),
    ensures
        x == y || x == !y,
{
    assert(x ^ ((x << 17) | (x >> 47)) == y ^ ((y << 17) | (y >> 47)) ==> x == y || x == !y)
        by (bit_vector);
}

/// No two factions give opposite products.
proof fn lemma_no_opposites(f: int, g: int, b: int, d: int)
    requires
        0 <= f <= u32::MAX,
        0 <= g <= u32::MAX,
        b * FACTION_FACTOR_INVERSE % 0x1_0000_0000_0000_0000 == f,
        d * FACTION_FACTOR_INVERSE % 0x1_0000_0000_0000_0000 == g,
    ensures
        b + d != 0xFFFF_FFFF_FFFF_FFFF,
{
    let m = 0x1_0000_0000_0000_0000int;
    let k = FACTION_FACTOR_INVERSE as int;
    if b + d == m - 1 {
        lemma_add_mod_noop(b * k, d * k, m);
        assert(b * k + d * k == (b + d) * k) by (nonlinear_arith);
        assert((f + g) % m == ((m - 1) * k) % m);
        assert((m - 1) * k == m * (k - 1) + (m - k));
        lemma_mod_multiples_vanish(k - 1, m - k, m);
        lemma_small_mod((m - k) as nat, m as nat);
        lemma_small_mod((f + g) as nat, m as nat);
    }
}

/// The product with a faction's factor, times the inverse, is the faction up to
/// what runs over.
proof fn lemma_factor_undone(f: int)
    requires
        0 <= f <= u32::MAX,
    ensures
        ((f * 0x9E37_79B9_7F4A_7C15) % 0x1_0000_0000_0000_0000) * FACTION_FACTOR_INVERSE
            % 0x1_0000_0000_0000_0000 == f,
{
    let m = 0x1_0000_0000_0000_0000int;
    let c = 0x9E37_79B9_7F4A_7C15int;
    let k = FACTION_FACTOR_INVERSE as int;
    lemma_mul_mod_noop_left(f * c, k, m);
    assert((f * c) * k == f * (c * k)) by (nonlinear_arith);
    assert(c * k == 1 + m * FACTION_FACTOR_CARRY);
    assert(f * (1 + m * FACTION_FACTOR_CARRY) == m * (f * FACTION_FACTOR_CARRY) + f)
        by (nonlinear_arith);
    lemma_mod_multiples_vanish(f * FACTION_FACTOR_CARRY, f, m);
    lemma_small_mod(f as nat, m as nat);
}

/// The identity, the stats and the rank of a character are those that its
/// identity gives.
pub open spec fn is_character(npc: u64, faction: u32, nudge: int, c: NpcCharacter) -> bool {
    &&& c.character_id.0 == derived_id(npc, faction)
    &&& c.stats.comes_from(Trail::start(derived_id(npc, faction)), nudge)
    &&& c.rank.of_score(c.stats.competence())
    &&& c.kills == 0
}

/// The traits and the name of a character are those that its identity gives,
/// drawn after its stats.
pub open spec fn has_person<T: Fn(u32) -> F32Bits, D: Fn(u32) -> F32Bits>(
    archetype: PersonalityArchetype,
    pools: Seq<PoolView>,
    weights: Seq<(NationalityBucket, u32)>,
    male_weight: F32Bits,
    trait_draw: T,
    sex_draw: D,
    c: NpcCharacter,
) -> bool {
    let before = Some(past_stats(Trail::start(c.character_id.0), 8));
    exists|mid: Option<Trail>, after: Option<Trail>|
        #![trigger is_roll(
            pools, weights, male_weight, sex_draw, mid, c.nationality, c.name@, after)]
        archetype.can_roll(trait_draw, before, c.personality, mid) && is_roll(
            pools,
            weights,
            male_weight,
            sex_draw,
            mid,
            c.nationality,
            c.name@,
            after,
        )
}

/// Whenever the character of one NPC of one faction is rolled, it is the same.
pub proof fn law_characters_are_rolled_alike<T: Fn(u32) -> F32Bits, D: Fn(u32) -> F32Bits>(
    npc: u64,
    faction: u32,
    nudge: int,
    archetype: PersonalityArchetype,
    pools: Seq<PoolView>,
    weights: Seq<(NationalityBucket, u32)>,
    male_weight: F32Bits,
    trait_draw: T,
    sex_draw: D,
    a: NpcCharacter,
    b: NpcCharacter,
)
    requires
        draws_alike(trait_draw),
        draws_alike(sex_draw),
        is_character(npc, faction, nudge, a),
        is_character(npc, faction, nudge, b),
        has_person(archetype, pools, weights, male_weight, trait_draw, sex_draw, a),
        has_person(archetype, pools, weights, male_weight, trait_draw, sex_draw, b),
    ensures
        a.character_id == b.character_id,
        a.stats == b.stats,
        a.personality == b.personality,
        a.rank == b.rank,
        a.name@ == b.name@,
        a.nationality == b.nationality,
        a.kills == b.kills,
{
    law_rank_grows_with_score(a.rank, b.rank, a.stats.competence(), b.stats.competence());
    let t = past_stats(Trail::start(derived_id(npc, faction)), 8);
    let (m, x) = choose|mid: Option<Trail>, after: Option<Trail>|
        #![trigger is_roll(
            pools, weights, male_weight, sex_draw, mid, a.nationality, a.name@, after)]
        archetype.can_roll(trait_draw, Some(t), a.personality, mid) && is_roll(
            pools,
            weights,
            male_weight,
            sex_draw,
            mid,
            a.nationality,
            a.name@,
            after,
        );
    let (n, y) = choose|mid: Option<Trail>, after: Option<Trail>|
        #![trigger is_roll(
            pools, weights, male_weight, sex_draw, mid, b.nationality, b.name@, after)]
        archetype.can_roll(trait_draw, Some(t), b.personality, mid) && is_roll(
            pools,
            weights,
            male_weight,
            sex_draw,
            mid,
            b.nationality,
            b.name@,
            after,
        );
    law_traits_repeat(archetype, trait_draw, t, (a.personality, m), (b.personality, n));
    law_rolls_repeat(
        pools,
        weights,
        male_weight,
        sex_draw,
        m->0,
        (a.nationality, a.name@, x),
        (b.nationality, b.name@, y),
    );
}

/// A fresh character whose stats reach no more than 100 each has the rank that
/// its lived competence gives.
pub proof fn law_fresh_rank_tracks(c: NpcCharacter)
    requires
        c.kills == 0,
        c.rank.of_score(c.stats.competence()),
        c.stats.accuracy <= 100,
        c.stats.perception <= 100,
        c.stats.marksmanship <= 100,
        c.stats.endurance <= 100,
        c.stats.luck <= 100,
    ensures
        c.rank_tracks(),
{
}

/// A kill never lowers a rank that goes with the lived competence.
pub proof fn law_kills_never_demote(before: NpcCharacter, after: NpcCharacter)
    requires
        before.rank_tracks(),
        after.rank_tracks(),
        after.stats == before.stats,
        after.kills >= before.kills,
    ensures
        before.rank.floor() <= after.rank.floor(),
{
    law_rank_grows_with_score(
        before.rank,
        after.rank,
        before.lived_competence(),
        after.lived_competence(),
    );
}

/// Health of each body part.
#[derive(Clone, Copy, Debug, PartialEq, Eq, Hash, Structural)]
pub struct BodyParts {
    pub head: F32Bits,
    pub torso: F32Bits,
    pub left_arm: F32Bits,
    pub right_arm: F32Bits,
    pub left_leg: F32Bits,
    pub right_leg: F32Bits,
}

impl BodyParts {
    /// Every part at full health.
    pub fn new_full() -> (r: Self)
        ensures
            r.head.0 == whole_bits(100),
            r.torso.0 == whole_bits(100),
            r.left_arm.0 == whole_bits(100),
            r.right_arm.0 == whole_bits(100),
            r.left_leg.0 == whole_bits(100),
            r.right_leg.0 == whole_bits(100),
    {
        let full = F32Bits::from_whole(HEALTH_MAX);
        BodyParts {
            head: full,
            torso: full,
            left_arm: full,
            right_arm: full,
            left_leg: full,
            right_leg: full,
        }
    }

    /// Health of a part.
    pub open spec fn at(self, p: BodyPart) -> F32Bits {
        match p {
            BodyPart::Head => self.head,
            BodyPart::Torso => self.torso,
            BodyPart::LeftArm => self.left_arm,
            BodyPart::RightArm => self.right_arm,
            BodyPart::LeftLeg => self.left_leg,
            BodyPart::RightLeg => self.right_leg,
        }
    }

    /// The parts with one of them changed.
    pub open spec fn with(self, p: BodyPart, v: F32Bits) -> BodyParts {
        match p {
            BodyPart::Head => BodyParts { head: v, ..self },
            BodyPart::Torso => BodyParts { torso: v, ..self },
            BodyPart::LeftArm => BodyParts { left_arm: v, ..self },
            BodyPart::RightArm => BodyParts { right_arm: v, ..self },
            BodyPart::LeftLeg => BodyParts { left_leg: v, ..self },
            BodyPart::RightLeg => BodyParts { right_leg: v, ..self },
        }
    }

    /// Health of a part.
    pub fn get(&self, p: BodyPart) -> (r: F32Bits)
        ensures
            r == self.at(p),
    {
        match p {
            BodyPart::Head => self.head,
            BodyPart::Torso => self.torso,
            BodyPart::LeftArm => self.left_arm,
            BodyPart::RightArm => self.right_arm,
            BodyPart::LeftLeg => self.left_leg,
            BodyPart::RightLeg => self.right_leg,
        }
    }

    /// Health of a part, to be changed in place.
    pub fn get_mut(&mut self, p: BodyPart) -> (r: &mut F32Bits)
        ensures
            *r == old(self).at(p),
            *final(self) == old(self).with(p, *final(r)),
    {
        match p {
            BodyPart::Head => &mut self.head,
            BodyPart::Torso => &mut self.torso,
            BodyPart::LeftArm => &mut self.left_arm,
            BodyPart::RightArm => &mut self.right_arm,
            BodyPart::LeftLeg => &mut self.left_leg,
            BodyPart::RightLeg => &mut self.right_leg,
        }
    }

    /// Head and torso have health left.
    pub fn is_alive(&self) -> (r: bool)
        ensures
            r == (F32Bits(F32_ZERO).less(self.head) && F32Bits(F32_ZERO).less(self.torso)),
    {
        F32Bits(F32_ZERO).lt(self.head) && F32Bits(F32_ZERO).lt(self.torso)
    }

    /// The lesser health of head and torso.
    pub fn vital_min(&self) -> (r: F32Bits)
        ensures
            r == self.head || r == self.torso,
            !self.head.is_nan() ==> r.at_most(self.head),
            !self.torso.is_nan() ==> r.at_most(self.torso),
    {
        if self.head.nan() || self.torso.lt(self.head) {
            self.torso
        } else {
            self.head
        }
    }

    /// A limb without health; head and torso never count as disabled.
    pub fn limb_disabled(&self, p: BodyPart) -> (r: bool)
        ensures
            r == (p != BodyPart::Head && p != BodyPart::Torso && self.at(p).at_most(
                F32Bits(F32_ZERO),
            )),
    {
        match p {
            BodyPart::Head => false,
            BodyPart::Torso => false,
            _ => self.get(p).le(F32Bits(F32_ZERO)),
        }
    }
}

/// The body part with the given number.
pub open spec fn part_numbered(i: int) -> BodyPart {
    if i == 0 {
        BodyPart::Head
    } else if i == 1 {
        BodyPart::Torso
    } else if i == 2 {
        BodyPart::LeftArm
    } else if i == 3 {
        BodyPart::RightArm
    } else if i == 4 {
        BodyPart::LeftLeg
    } else {
        BodyPart::RightLeg
    }
}

/// How many body parts there are.
pub const BODY_PARTS: usize = 6;

impl BodyPart {
    /// The number of the part.
    pub open spec fn number(self) -> int {
        match self {
            BodyPart::Head => 0,
            BodyPart::Torso => 1,
            BodyPart::LeftArm => 2,
            BodyPart::RightArm => 3,
            BodyPart::LeftLeg => 4,
            BodyPart::RightLeg => 5,
        }
    }

    /// The body part with the given number.
    pub fn numbered(i: usize) -> (r: BodyPart)
        ensures
            r == part_numbered(i as int),
    {
        if i == 0 {
            BodyPart::Head
        } else if i == 1 {
            BodyPart::Torso
        } else if i == 2 {
            BodyPart::LeftArm
        } else if i == 3 {
            BodyPart::RightArm
        } else if i == 4 {
            BodyPart::LeftLeg
        } else {
            BodyPart::RightLeg
        }
    }

    /// Every part, in order.
    pub fn all() -> (r: Vec<BodyPart>)
        ensures
            r@.len() == BODY_PARTS,
            forall|i: int| 0 <= i < BODY_PARTS ==> #[trigger] r@[i] == part_numbered(i),
    {
        let mut r: Vec<BodyPart> = Vec::new();
        let mut i: usize = 0;
        while i < BODY_PARTS
            invariant
                i <= BODY_PARTS,
                r@.len() == i,
                forall|k: int| 0 <= k < i ==> #[trigger] r@[k] == part_numbered(k),
            decreases BODY_PARTS - i,
        {
            r.push(BodyPart::numbered(i));
            i += 1;
        }
        r
    }
}

/// State of a limb.
#[derive(Clone, Copy, Debug, PartialEq, Eq, Hash, Structural)]
pub enum LimbState {
    Intact,
    Wounded,
    Severed,
}

impl Default for LimbState {
    fn default() -> (r: Self)
        ensures
            r == LimbState::Intact,
    {
        LimbState::Intact
    }
}

/// State of every limb.
#[derive(Clone, Copy, Debug, PartialEq, Eq, Hash, Structural)]
pub struct LimbStates {
    pub head: LimbState,
    pub torso: LimbState,
    pub left_arm: LimbState,
    pub right_arm: LimbState,
    pub left_leg: LimbState,
    pub right_leg: LimbState,
}

impl Default for LimbStates {
    fn default() -> (r: Self)
        ensures
            forall|p: BodyPart| #[trigger] r.at(p) == LimbState::Intact,
    {
        LimbStates {
            head: LimbState::Intact,
            torso: LimbState::Intact,
            left_arm: LimbState::Intact,
            right_arm: LimbState::Intact,
            left_leg: LimbState::Intact,
            right_leg: LimbState::Intact,
        }
    }
}

impl LimbStates {
    /// State of a limb.
    pub open spec fn at(self, p: BodyPart) -> LimbState {
        match p {
            BodyPart::Head => self.head,
            BodyPart::Torso => self.torso,
            BodyPart::LeftArm => self.left_arm,
            BodyPart::RightArm => self.right_arm,
            BodyPart::LeftLeg => self.left_leg,
            BodyPart::RightLeg => self.right_leg,
        }
    }

    /// The limbs with one of them changed.
    pub open spec fn with(self, p: BodyPart, s: LimbState) -> LimbStates {
        match p {
            BodyPart::Head => LimbStates { head: s, ..self },
            BodyPart::Torso => LimbStates { torso: s, ..self },
            BodyPart::LeftArm => LimbStates { left_arm: s, ..self },
            BodyPart::RightArm => LimbStates { right_arm: s, ..self },
            BodyPart::LeftLeg => LimbStates { left_leg: s, ..self },
            BodyPart::RightLeg => LimbStates { right_leg: s, ..self },
        }
    }

    /// The limbs after a wound to one of them, which makes it wounded if it
    /// was intact.
    pub open spec fn hurt(self, p: BodyPart) -> LimbStates {
        if self.at(p) == LimbState::Intact {
            self.with(p, LimbState::Wounded)
        } else {
            self
        }
    }

    /// State of a limb once it is known which wounds there are: a wounded limb
    /// without one is intact again.
    pub open spec fn recovered(self, p: BodyPart, wounds: Wounds) -> LimbState {
        if self.at(p) == LimbState::Wounded && !wounds.on(p) {
            LimbState::Intact
        } else {
            self.at(p)
        }
    }

    /// State of a limb.
    pub fn get(&self, p: BodyPart) -> (r: LimbState)
        ensures
            r == self.at(p),
    {
        match p {
            BodyPart::Head => self.head,
            BodyPart::Torso => self.torso,
            BodyPart::LeftArm => self.left_arm,
            BodyPart::RightArm => self.right_arm,
            BodyPart::LeftLeg => self.left_leg,
            BodyPart::RightLeg => self.right_leg,
        }
    }

    /// State of a limb, to be changed in place.
    pub fn get_mut(&mut self, p: BodyPart) -> (r: &mut LimbState)
        ensures
            *r == old(self).at(p),
            *final(self) == old(self).with(p, *final(r)),
    {
        match p {
            BodyPart::Head => &mut self.head,
            BodyPart::Torso => &mut self.torso,
            BodyPart::LeftArm => &mut self.left_arm,
            BodyPart::RightArm => &mut self.right_arm,
            BodyPart::LeftLeg => &mut self.left_leg,
            BodyPart::RightLeg => &mut self.right_leg,
        }
    }

    /// The limb is severed.
    pub fn is_severed(&self, p: BodyPart) -> (r: bool)
        ensures
            r == (self.at(p) == LimbState::Severed),
    {
        self.get(p) == LimbState::Severed
    }

    /// Wounds an intact limb; any other stays as it is.
    pub fn mark_wounded(&mut self, p: BodyPart)
        ensures
            *final(self) == old(self).hurt(p),
    {
        if self.get(p) == LimbState::Intact {
            let slot = self.get_mut(p);
            *slot = LimbState::Wounded;
        }
    }

    /// Severs a limb.
    pub fn mark_severed(&mut self, p: BodyPart)
        ensures
            *final(self) == old(self).with(p, LimbState::Severed),
    {
        let slot = self.get_mut(p);
        *slot = LimbState::Severed;
    }

    /// Makes wounded limbs without a wound intact again; any other limb stays
    /// as it is.
    pub fn recompute_from_wounds(&mut self, wounds: &Wounds)
        ensures
            forall|p: BodyPart| #[trigger] final(self).at(p) == old(self).recovered(p, *wounds),
    {
        let mut i: usize = 0;
        while i < BODY_PARTS
            invariant
                i <= BODY_PARTS,
                forall|p: BodyPart| #[trigger]
                    self.at(p) == (if p.number() < i && old(self).at(p) == LimbState::Wounded
                        && !wounds.on(p) {
                        LimbState::Intact
                    } else {
                        old(self).at(p)
                    }),
            decreases BODY_PARTS - i,
        {
            let part = BodyPart::numbered(i);
            assert(part.number() == i);
            let ghost before = *self;
            if self.get(part) == LimbState::Wounded && !wounds.any_on(part) {
                let slot = self.get_mut(part);
                *slot = LimbState::Intact;
            }
            proof {
                assert forall|p: BodyPart| #[trigger] self.at(p) == (if p.number() < i + 1
                    && old(self).at(p) == LimbState::Wounded && !wounds.on(p) {
                    LimbState::Intact
                } else {
                    old(self).at(p)
                }) by {
                    assert(before.at(p) == (if p.number() < i && old(self).at(p)
                        == LimbState::Wounded && !wounds.on(p) {
                        LimbState::Intact
                    } else {
                        old(self).at(p)
                    }));
                    if p != part {
                        assert(self.at(p) == before.at(p));
                        assert(p.number() != i);
                    }
                }
            }
            i += 1;
        }
    }
}

/// A severed limb stays severed, whatever limbs are wounded or severed and
/// whatever wounds heal.
pub proof fn law_severing_is_permanent(before: LimbStates, p: BodyPart, q: BodyPart, wounds: Wounds)
    requires
        before.at(p) == LimbState::Severed,
    ensures
        before.hurt(q).at(p) == LimbState::Severed,
        before.with(q, LimbState::Severed).at(p) == LimbState::Severed,
        before.recovered(p, wounds) == LimbState::Severed,
{
}

/// Wounding a limb twice is wounding it once.
pub proof fn law_wounding_is_idempotent(before: LimbStates, p: BodyPart)
    ensures
        before.hurt(p).hurt(p) == before.hurt(p),
{
}

/// Needs of a body.
#[derive(Clone, Copy, Debug, PartialEq, Eq, Hash, Structural)]
pub struct SurvivalStats {
    pub hunger: F32Bits,
    pub thirst: F32Bits,
    pub fatigue: F32Bits,
}

impl SurvivalStats {
    /// Every need met.
    pub fn new_full() -> (r: Self)
        ensures
            forall|s: SurvivalStat| (#[trigger] r.at(s)).0 == whole_bits(100),
    {
        let full = F32Bits::from_whole(HEALTH_MAX);
        SurvivalStats { hunger: full, thirst: full, fatigue: full }
    }

    /// How far a need is met.
    pub open spec fn at(self, s: SurvivalStat) -> F32Bits {
        match s {
            SurvivalStat::Hunger => self.hunger,
            SurvivalStat::Thirst => self.thirst,
            SurvivalStat::Fatigue => self.fatigue,
        }
    }

    /// The needs with one of them changed.
    pub open spec fn with(self, s: SurvivalStat, v: F32Bits) -> SurvivalStats {
        match s {
            SurvivalStat::Hunger => SurvivalStats { hunger: v, ..self },
            SurvivalStat::Thirst => SurvivalStats { thirst: v, ..self },
            SurvivalStat::Fatigue => SurvivalStats { fatigue: v, ..self },
        }
    }

    /// How far a need is met.
    pub fn get(&self, s: SurvivalStat) -> (r: F32Bits)
        ensures
            r == self.at(s),
    {
        match s {
            SurvivalStat::Hunger => self.hunger,
            SurvivalStat::Thirst => self.thirst,
            SurvivalStat::Fatigue => self.fatigue,
        }
    }

    /// How far a need is met, to be changed in place.
    pub fn get_mut(&mut self, s: SurvivalStat) -> (r: &mut F32Bits)
        ensures
            *r == old(self).at(s),
            *final(self) == old(self).with(s, *final(r)),
    {
        match s {
            SurvivalStat::Hunger => &mut self.hunger,
            SurvivalStat::Thirst => &mut self.thirst,
            SurvivalStat::Fatigue => &mut self.fatigue,
        }
    }
}

/// A need of a body.
#[derive(Clone, Copy, Debug, PartialEq, Eq, Hash, Structural)]
pub enum SurvivalStat {
    Hunger,
    Thirst,
    Fatigue,
}

/// Number of a wound.
#[derive(Clone, Copy, Debug, PartialEq, Eq, Hash, PartialOrd, Ord, Structural)]
pub struct WoundId(pub u64);

/// A wound.
#[derive(Clone, Copy, Debug, PartialEq, Eq, Structural)]
pub struct Wound {
    pub body_part: BodyPart,
    pub kind: WoundKind,
    pub severity: u8,
    pub spawned_tick: u64,
    pub treatment: WoundTreatment,
    pub treatment_changed_tick: u64,
    pub infected: bool,
    pub infection_started_tick: Option<u64>,
    pub tourniquet_started_tick: Option<u64>,
}

/// Kind of a wound.
#[derive(Clone, Copy, Debug, PartialEq, Eq, Hash, Structural)]
pub enum WoundKind {
    Bleed,
}

/// How far a wound is treated.
#[derive(Clone, Copy, Debug, PartialEq, Eq, Hash, Structural)]
pub enum WoundTreatment {
    Untreated,
    Disinfected,
    Bandaged,
    Stitched,
    Tourniquet,
    WoundPacked,
    Healed,
}

/// The wounds of a body.
#[derive(Clone, Debug)]
pub struct Wounds(pub Vec<(WoundId, Wound)>);

impl Default for Wounds {
    fn default() -> (r: Self)
        ensures
            r.0@.len() == 0,
    {
        Wounds(Vec::new())
    }
}

impl Wounds {
    /// Some wound is on the part.
    pub open spec fn on(self, p: BodyPart) -> bool {
        exists|i: int| 0 <= i < self.0@.len() && (#[trigger] self.0@[i]).1.body_part == p
    }

    /// Some wound is on the part.
    pub fn any_on(&self, p: BodyPart) -> (r: bool)
        ensures
            r == self.on(p),
    {
        let mut i: usize = 0;
        while i < self.0.len()
            invariant
                i <= self.0@.len(),
                forall|k: int| 0 <= k < i ==> (#[trigger] self.0@[k]).1.body_part != p,
            decreases self.0@.len() - i,
        {
            if self.0[i].1.body_part == p {
                assert(self.0@[i as int].1.body_part == p);
                return true;
            }
            i += 1;
        }
        false
    }
}

/// How much pain a body is in.
#[derive(Clone, Copy, Debug, PartialEq, Eq, Hash, Structural)]
pub struct Pain(pub F32Bits);

impl Default for Pain {
    fn default() -> (r: Self)
        ensures
            r.0 == F32Bits(F32_ZERO),
    {
        Pain(F32Bits(F32_ZERO))
    }
}

/// What a body has taken in.
#[derive(Clone, Copy, Debug, PartialEq, Eq, Hash, Structural)]
pub struct Contamination {
    pub radiation: F32Bits,
    pub toxicity: F32Bits,
}

impl Default for Contamination {
    fn default() -> (r: Self)
        ensures
            r.radiation == F32Bits(F32_ZERO),
            r.toxicity == F32Bits(F32_ZERO),
    {
        Contamination { radiation: F32Bits(F32_ZERO), toxicity: F32Bits(F32_ZERO) }
    }
}

/// Number of an effect.
#[derive(Clone, Copy, Debug, PartialEq, Eq, Hash, PartialOrd, Ord, Structural)]
pub struct EffectId(pub u64);

/// An effect at work.
#[derive(Clone, Copy, Debug, PartialEq, Eq, Structural)]
pub struct ActiveEffect {
    pub id: EffectId,
    pub kind: EffectKind,
    pub applied_tick: u64,
    pub duration_ticks: u64,
    pub intensity: F32Bits,
}

/// The effects at work.
#[derive(Clone, Debug)]
pub struct ActiveEffects(pub Vec<ActiveEffect>);

impl Default for ActiveEffects {
    fn default() -> (r: Self)
        ensures
            r.0@.len() == 0,
    {
        ActiveEffects(Vec::new())
    }
}

/// Kind of an effect.
#[derive(Clone, Copy, Debug, PartialEq, Eq, Hash, Structural)]
pub enum EffectKind {
    Painkiller,
    Morphine,
    Adrenaline,
    StimCocktail,
    AntiRad,
    AntiTox,
    AntibioticsActive,
    Withdrawal,
    OverdoseDisorientation,
    AdrenalineCrash,
    FatigueRebound,
}

impl DrugKind {
    /// What the drug does while it works.
    pub open spec fn effect(self) -> EffectKind {
        match self {
            DrugKind::Painkiller => EffectKind::Painkiller,
            DrugKind::Morphine => EffectKind::Morphine,
            DrugKind::Adrenaline => EffectKind::Adrenaline,
            DrugKind::StimCocktail => EffectKind::StimCocktail,
            DrugKind::AntiRad => EffectKind::AntiRad,
            DrugKind::AntiTox => EffectKind::AntiTox,
        }
    }

    /// What the drug does while it works.
    pub fn primary_effect(self) -> (r: EffectKind)
        ensures
            r == self.effect(),
    {
        match self {
            DrugKind::Painkiller => EffectKind::Painkiller,
            DrugKind::Morphine => EffectKind::Morphine,
            DrugKind::Adrenaline => EffectKind::Adrenaline,
            DrugKind::StimCocktail => EffectKind::StimCocktail,
            DrugKind::AntiRad => EffectKind::AntiRad,
            DrugKind::AntiTox => EffectKind::AntiTox,
        }
    }
}

/// How used a body is to each drug.
#[derive(Clone, Debug)]
pub struct DrugTolerance(pub Vec<(DrugKind, F32Bits)>);

/// What a list of tolerances says of a drug from place `i` on: the first entry
/// counts, and zero where there is none.
pub open spec fn tolerance_from(list: Seq<(DrugKind, F32Bits)>, k: DrugKind, i: int) -> F32Bits
    decreases list.len() - i,
{
    if i < 0 || i >= list.len() {
        F32Bits(F32_ZERO)
    } else if list[i].0 == k {
        list[i].1
    } else {
        tolerance_from(list, k, i + 1)
    }
}

/// The first place of a drug in a list of tolerances from place `i` on.
pub open spec fn tolerance_place(list: Seq<(DrugKind, F32Bits)>, k: DrugKind, i: int) -> Option<int>
    decreases list.len() - i,
{
    if i < 0 || i >= list.len() {
        None
    } else if list[i].0 == k {
        Some(i)
    } else {
        tolerance_place(list, k, i + 1)
    }
}

/// A list of tolerances with that of one drug set: in its place, or last where
/// it has none.
pub open spec fn tolerance_with(
    list: Seq<(DrugKind, F32Bits)>,
    k: DrugKind,
    v: F32Bits,
) -> Seq<(DrugKind, F32Bits)> {
    match tolerance_place(list, k, 0) {
        Some(i) => list.update(i, (k, v)),
        None => list.push((k, v)),
    }
}

/// No drug is listed twice.
pub open spec fn one_tolerance_each(list: Seq<(DrugKind, F32Bits)>) -> bool {
    forall|i: int, j: int|
        0 <= i < j < list.len() ==> (#[trigger] list[i]).0 != (#[trigger] list[j]).0
}

/// The bit pattern of `100.0`, the most that a tolerance can be.
pub const TOLERANCE_MAX: u32 = 0x42c8_0000;

/// A tolerance kept from zero to the most that it can be.
pub open spec fn tolerance_kept(x: F32Bits) -> F32Bits {
    if x.less(F32Bits(F32_ZERO)) {
        F32Bits(F32_ZERO)
    } else if F32Bits(TOLERANCE_MAX).less(x) {
        F32Bits(TOLERANCE_MAX)
    } else {
        x
    }
}

impl Default for DrugTolerance {
    fn default() -> (r: Self)
        ensures
            r.0@.len() == 0,
    {
        DrugTolerance(Vec::new())
    }
}

impl DrugTolerance {
    /// How used the body is to a drug.
    pub fn get(&self, k: DrugKind) -> (r: F32Bits)
        ensures
            r == tolerance_from(self.0@, k, 0),
    {
        let mut i: usize = 0;
        while i < self.0.len()
            invariant
                i <= self.0@.len(),
                tolerance_from(self.0@, k, 0) == tolerance_from(self.0@, k, i as int),
            decreases self.0@.len() - i,
        {
            if self.0[i].0 == k {
                return self.0[i].1;
            }
            i += 1;
        }
        F32Bits(F32_ZERO)
    }

    /// Sets how used the body is to a drug; other drugs stay as they are.
    pub fn set(&mut self, k: DrugKind, v: F32Bits)
        ensures
            final(self).0@ == tolerance_with(old(self).0@, k, v),
    {
        let mut i: usize = 0;
        while i < self.0.len()
            invariant
                i <= self.0@.len(),
                self.0@ == old(self).0@,
                tolerance_place(old(self).0@, k, 0) == tolerance_place(old(self).0@, k, i as int),
            decreases self.0@.len() - i,
        {
            if self.0[i].0 == k {
                self.0.set(i, (k, v));
                return;
            }
            i += 1;
        }
        self.0.push((k, v));
    }

    /// Changes how used the body is to a drug, within bounds. `sum` adds the
    /// change to what it was.
    pub fn add<F: Fn(F32Bits) -> F32Bits>(&mut self, k: DrugKind, sum: F)
        requires
            forall|x: F32Bits| #[trigger] sum.requires((x,)),
        ensures
            exists|now: F32Bits| #[trigger]
                sum.ensures((tolerance_from(old(self).0@, k, 0),), now) && final(self).0@
                    == tolerance_with(old(self).0@, k, tolerance_kept(now)),
    {
        let now = sum(self.get(k));
        let kept = if now.lt(F32Bits(F32_ZERO)) {
            F32Bits(F32_ZERO)
        } else if F32Bits(TOLERANCE_MAX).lt(now) {
            F32Bits(TOLERANCE_MAX)
        } else {
            now
        };
        self.set(k, kept);
    }
}

/// Setting a drug's tolerance sets that of no other, and lists no drug twice.
pub proof fn law_tolerances_are_apart(
    list: Seq<(DrugKind, F32Bits)>,
    k: DrugKind,
    v: F32Bits,
    q: DrugKind,
)
    ensures
        tolerance_from(tolerance_with(list, k, v), q, 0) == (if q == k {
            v
        } else {
            tolerance_from(list, q, 0)
        }),
        one_tolerance_each(list) ==> one_tolerance_each(tolerance_with(list, k, v)),
{
    lemma_tolerance_place(list, k, 0);
    match tolerance_place(list, k, 0) {
        Some(i) => {
            lemma_tolerance_set(list, i, k, v, q, 0);
        },
        None => {
            lemma_tolerance_push(list, k, v, q, 0);
        },
    }
}

proof fn lemma_tolerance_place(list: Seq<(DrugKind, F32Bits)>, k: DrugKind, i: int)
    requires
        0 <= i,
    ensures
        match tolerance_place(list, k, i) {
            Some(p) => i <= p < list.len() && list[p].0 == k && forall|j: int|
                i <= j < p ==> (#[trigger] list[j]).0 != k,
            None => forall|j: int| i <= j < list.len() ==> (#[trigger] list[j]).0 != k,
        },
    decreases list.len() - i,
{
    if i < list.len() {
        lemma_tolerance_place(list, k, i + 1);
    }
}

proof fn lemma_tolerance_set(
    list: Seq<(DrugKind, F32Bits)>,
    i: int,
    k: DrugKind,
    v: F32Bits,
    q: DrugKind,
    from: int,
)
    requires
        0 <= from <= i < list.len(),
        list[i].0 == k,
        forall|j: int| 0 <= j < i ==> (#[trigger] list[j]).0 != k,
    ensures
        tolerance_from(list.update(i, (k, v)), q, from) == (if q == k {
            v
        } else {
            tolerance_from(list, q, from)
        }),
    decreases i - from,
{
    if from < i {
        lemma_tolerance_set(list, i, k, v, q, from + 1);
    } else if q != k {
        lemma_tolerance_tail(list, list.update(i, (k, v)), q, from + 1);
    }
}

proof fn lemma_tolerance_tail(
    a: Seq<(DrugKind, F32Bits)>,
    b: Seq<(DrugKind, F32Bits)>,
    q: DrugKind,
    from: int,
)
    requires
        0 <= from,
        a.len() == b.len(),
        forall|j: int| from <= j < a.len() ==> a[j] == b[j],
    ensures
        tolerance_from(a, q, from) == tolerance_from(b, q, from),
    decreases a.len() - from,
{
    if from < a.len() {
        lemma_tolerance_tail(a, b, q, from + 1);
    }
}

proof fn lemma_tolerance_push(
    list: Seq<(DrugKind, F32Bits)>,
    k: DrugKind,
    v: F32Bits,
    q: DrugKind,
    from: int,
)
    requires
        0 <= from <= list.len(),
        forall|j: int| 0 <= j < list.len() ==> (#[trigger] list[j]).0 != k,
    ensures
        tolerance_from(list.push((k, v)), q, from) == (if q == k {
            v
        } else {
            tolerance_from(list, q, from)
        }),
    decreases list.len() - from,
{
    let after = list.push((k, v));
    if from < list.len() {
        lemma_tolerance_push(list, k, v, q, from + 1);
        assert(after[from] == list[from]);
    } else {
        assert(after[from] == (k, v));
        assert(tolerance_from(after, q, from + 1) == F32Bits(F32_ZERO));
    }
}

/// The faction that an entity is of.
#[derive(Clone, Copy, Debug, PartialEq, Eq, Hash, Structural)]
pub struct InFaction(pub FactionId);

/// An entity that is a base.
#[derive(Clone, Copy, Debug, PartialEq, Eq, Hash, Structural)]
pub struct Base {
    pub kind: BaseKind,
}

/// Kind of a base.
#[derive(Clone, Copy, Debug, PartialEq, Eq, Hash, Structural)]
pub enum BaseKind {
    Checkpoint,
    Outpost,
    Safehouse,
    Headquarters,
    ResearchPost,
    CampSite,
}

impl BaseKind {
    /// How far a base's walls reach from its middle along each axis, in
    /// metres; a camp has none.
    pub open spec fn reach_m(self) -> Option<int> {
        match self {
            BaseKind::Checkpoint => Some(3),
            BaseKind::Outpost => Some(5),
            BaseKind::Safehouse => Some(4),
            BaseKind::Headquarters => Some(8),
            BaseKind::ResearchPost => Some(6),
            BaseKind::CampSite => None,
        }
    }

    /// Every kind, in order.
    pub fn all() -> (r: Vec<BaseKind>)
        ensures
            r@ == seq![
                BaseKind::Checkpoint,
                BaseKind::Outpost,
                BaseKind::Safehouse,
                BaseKind::Headquarters,
                BaseKind::ResearchPost,
                BaseKind::CampSite,
            ],
    {
        let r = vec![
            BaseKind::Checkpoint,
            BaseKind::Outpost,
            BaseKind::Safehouse,
            BaseKind::Headquarters,
            BaseKind::ResearchPost,
            BaseKind::CampSite,
        ];
        assert(r@ =~= seq![
            BaseKind::Checkpoint,
            BaseKind::Outpost,
            BaseKind::Safehouse,
            BaseKind::Headquarters,
            BaseKind::ResearchPost,
            BaseKind::CampSite,
        ]);
        r
    }

    /// How far a base's walls reach from its middle along x and z, in metres.
    pub fn nav_footprint_xz_m(self) -> (r: Option<[F32Bits; 2]>)
        ensures
            match self.reach_m() {
                Some(m) => r is Some && r->0@[0].0 == whole_bits(m) && r->0@[1].0 == whole_bits(m),
                None => r is None,
            },
    {
        let m: i32 = match self {
            BaseKind::Checkpoint => 3,
            BaseKind::Outpost => 5,
            BaseKind::Safehouse => 4,
            BaseKind::Headquarters => 8,
            BaseKind::ResearchPost => 6,
            BaseKind::CampSite => {
                return None;
            },
        };
        let reach = F32Bits::from_whole(m);
        Some([reach, reach])
    }
}

/// Number of an NPC.
#[derive(Clone, Copy, Debug, PartialEq, Eq, Hash, PartialOrd, Ord, Structural)]
pub struct NpcId(pub u64);

/// An entity that is an NPC.
#[derive(Clone, Copy, Debug, PartialEq, Eq, Hash, Structural)]
pub struct Npc {
    pub id: NpcId,
}

/// What an NPC is doing.
#[derive(Clone, Copy, Debug, PartialEq, Eq)]
pub enum NpcGoal {
    Idle { until_tick: u64 },
    MoveTo { target: [F32Bits; 3] },
    RestAt { until_tick: u64 },
}

/// How an NPC holds itself while it stays put.
#[derive(Clone, Copy, Debug, PartialEq, Eq, Hash, Structural)]
pub enum DwellPose {
    Standing,
    Sitting,
    Crouching,
}

impl Default for DwellPose {
    fn default() -> (r: Self)
        ensures
            r == DwellPose::Standing,
    {
        DwellPose::Standing
    }
}

/// Pose of an NPC and when it last changed.
#[derive(Clone, Copy, Debug, PartialEq, Eq, Hash, Structural)]
pub struct DwellState {
    pub pose: DwellPose,
    pub last_shift_tick: u64,
}

impl Default for DwellState {
    fn default() -> (r: Self)
        ensures
            r.pose == DwellPose::Standing,
            r.last_shift_tick == 0,
    {
        DwellState { pose: DwellPose::Standing, last_shift_tick: 0 }
    }
}

/// Who a corpse was.
#[derive(Clone, Copy, Debug, PartialEq, Eq, Hash, Structural)]
pub struct CorpseMarker {
    pub dead_npc_id: NpcId,
    pub dead_faction: FactionId,
}

/// A way that an NPC follows.
#[derive(Clone, Debug)]
pub struct Path {
    pub waypoints: Vec<[F32Bits; 3]>,
    pub current: u32,
    pub computed_tick: u64,
    pub target: [F32Bits; 3],
}

/// How long an entity lasts.
#[derive(Clone, Copy, Debug, PartialEq, Eq, Hash, Structural)]
pub struct Lifespan {
    pub spawned_tick: u64,
    pub die_at_tick: u64,
}

/// The squad an NPC is in.
#[derive(Clone, Copy, Debug, PartialEq, Eq, Hash, Structural)]
pub struct Group {
    pub id: u64,
}

/// Whom an NPC is after.
#[derive(Clone, Copy, Debug, PartialEq, Eq, Hash, Structural)]
pub struct Aggro {
    pub target: NpcId,
    pub last_seen_tick: u64,
}

/// Who hurt an entity last.
#[derive(Clone, Copy, Debug, PartialEq, Eq, Hash, Structural)]
pub struct LastDamager {
    pub attacker_id: Option<NpcId>,
    pub faction: FactionId,
    pub tick: u64,
}

/// What one attacker did lately.
#[derive(Clone, Copy, Debug, PartialEq, Eq, Structural)]
pub struct AttackerHit {
    pub attacker_id: NpcId,
    pub tick: u64,
    pub damage: F32Bits,
}

/// Who attacked lately, longest known first.
#[derive(Clone, Debug)]
pub struct RecentAttackers {
    pub events: Vec<AttackerHit>,
}

/// The place of an attacker from place `i` on.
pub open spec fn attacker_index(events: Seq<AttackerHit>, id: NpcId, i: int) -> Option<int>
    decreases events.len() - i,
{
    if i < 0 || i >= events.len() {
        None
    } else if events[i].attacker_id == id {
        Some(i)
    } else {
        attacker_index(events, id, i + 1)
    }
}

/// No attacker is listed twice.
pub open spec fn one_entry_each(events: Seq<AttackerHit>) -> bool {
    forall|i: int, j: int|
        0 <= i < j < events.len() ==> (#[trigger] events[i]).attacker_id != (
        #[trigger] events[j]).attacker_id
}

/// The entries no older than the cutoff.
pub open spec fn since_cutoff(events: Seq<AttackerHit>, cutoff: u64) -> Seq<AttackerHit>
    decreases events.len(),
{
    if events.len() == 0 {
        Seq::empty()
    } else if events.last().tick >= cutoff {
        since_cutoff(events.drop_last(), cutoff).push(events.last())
    } else {
        since_cutoff(events.drop_last(), cutoff)
    }
}

impl Default for RecentAttackers {
    fn default() -> (r: Self)
        ensures
            r.events@.len() == 0,
    {
        RecentAttackers { events: Vec::new() }
    }
}

proof fn lemma_attacker_index(events: Seq<AttackerHit>, id: NpcId, i: int)
    requires
        0 <= i,
    ensures
        match attacker_index(events, id, i) {
            Some(k) => i <= k < events.len() && events[k].attacker_id == id && forall|j: int|
                i <= j < k ==> (#[trigger] events[j]).attacker_id != id,
            None => forall|j: int|
                i <= j < events.len() ==> (#[trigger] events[j]).attacker_id != id,
        },
    decreases events.len() - i,
{
    if i < events.len() {
        lemma_attacker_index(events, id, i + 1);
    }
}

impl RecentAttackers {
    /// Notes a hit. One by an attacker that is listed is added to its entry,
    /// which takes the tick of the hit; `sum` adds up damage. A new attacker
    /// goes last, and where the list is full the first one goes.
    pub fn record<F: Fn(F32Bits, F32Bits) -> F32Bits>(
        &mut self,
        attacker_id: NpcId,
        tick: u64,
        damage: F32Bits,
        cap: usize,
        sum: F,
    )
        requires
            cap > 0 || old(self).events@.len() > 0,
            forall|a: F32Bits, b: F32Bits| #[trigger] sum.requires((a, b)),
        ensures
            match attacker_index(old(self).events@, attacker_id, 0) {
                Some(k) => {
                    let now = final(self).events@[k];
                    &&& final(self).events@ == old(self).events@.update(k, now)
                    &&& now.attacker_id == attacker_id
                    &&& now.tick == tick
                    &&& sum.ensures((old(self).events@[k].damage, damage), now.damage)
                },
                None => final(self).events@ == (if old(self).events@.len() >= cap {
                    old(self).events@.drop_first()
                } else {
                    old(self).events@
                }).push(AttackerHit { attacker_id, tick, damage }),
            },
            one_entry_each(old(self).events@) ==> one_entry_each(final(self).events@),
            old(self).events@.len() <= cap && cap > 0 ==> final(self).events@.len() <= cap,
    {
        let ghost before = self.events@;
        proof {
            lemma_attacker_index(before, attacker_id, 0);
        }
        let mut i: usize = 0;
        while i < self.events.len()
            invariant
                i <= self.events@.len(),
                self.events@ == before,
                forall|a: F32Bits, b: F32Bits| #[trigger] sum.requires((a, b)),
                attacker_index(before, attacker_id, 0) == attacker_index(
                    before,
                    attacker_id,
                    i as int,
                ),
                before == old(self).events@,
            decreases self.events@.len() - i,
        {
            if self.events[i].attacker_id == attacker_id {
                let was = self.events[i].damage;
                let now = AttackerHit { attacker_id, tick, damage: sum(was, damage) };
                self.events.set(i, now);
                return;
            }
            i += 1;
        }
        if self.events.len() >= cap {
            let _ = self.events.remove(0);
            assert(self.events@ =~= before.drop_first());
        }
        self.events.push(AttackerHit { attacker_id, tick, damage });
    }

    /// Drops entries older than the cutoff.
    pub fn sweep(&mut self, cutoff_tick: u64)
        ensures
            final(self).events@ == since_cutoff(old(self).events@, cutoff_tick),
    {
        let mut kept: Vec<AttackerHit> = Vec::new();
        let mut i: usize = 0;
        let ghost before = self.events@;
        assert(before.take(0) =~= Seq::<AttackerHit>::empty());
        while i < self.events.len()
            invariant
                i <= self.events@.len(),
                self.events@ == before,
                kept@ == since_cutoff(before.take(i as int), cutoff_tick),
            decreases self.events@.len() - i,
        {
            assert(before.take(i + 1).drop_last() =~= before.take(i as int));
            if self.events[i].tick >= cutoff_tick {
                kept.push(self.events[i]);
            }
            i += 1;
        }
        assert(before.take(i as int) =~= before);
        self.events = kept;
    }
}

/// What a bent adds to a score.
pub open spec fn bonus(has: bool, points: int) -> int {
    if has {
        points
    } else {
        0
    }
}

/// How well each role suits a member: point, support, flank, medic.
pub open spec fn role_scores(s: NpcStats, p: PersonalityTraits) -> (int, int, int, int) {
    (
        s.accuracy + s.marksmanship + bonus(p.aggressive, 30) + bonus(p.reckless, 20),
        s.leadership + s.endurance + bonus(p.disciplined, 30),
        s.perception + s.stealth + bonus(p.curious, 30) + bonus(p.reckless, 15),
        s.endurance + s.luck + bonus(p.cautious, 30) + bonus(p.loyal, 25),
    )
}

impl CombatRole {
    /// The role that suits a member best; of equals, point comes before flank,
    /// flank before medic, medic before support.
    pub open spec fn suited(s: NpcStats, p: PersonalityTraits) -> CombatRole {
        let (point, support, flank, medic) = role_scores(s, p);
        if point >= support && point >= flank && point >= medic {
            CombatRole::Pointman
        } else if flank >= support && flank >= medic {
            CombatRole::Flanker
        } else if medic >= support {
            CombatRole::Medic
        } else {
            CombatRole::Support
        }
    }

    /// The role that suits a member best.
    pub fn assign(stats: &NpcStats, personality: &PersonalityTraits) -> (r: Self)
        ensures
            r == CombatRole::suited(*stats, *personality),
    {
        let point: u32 = stats.accuracy as u32 + stats.marksmanship as u32 + points(
            personality.aggressive,
            30,
        ) + points(personality.reckless, 20);
        let support: u32 = stats.leadership as u32 + stats.endurance as u32 + points(
            personality.disciplined,
            30,
        );
        let flank: u32 = stats.perception as u32 + stats.stealth as u32 + points(
            personality.curious,
            30,
        ) + points(personality.reckless, 15);
        let medic: u32 = stats.endurance as u32 + stats.luck as u32 + points(
            personality.cautious,
            30,
        ) + points(personality.loyal, 25);
        if point >= support && point >= flank && point >= medic {
            CombatRole::Pointman
        } else if flank >= support && flank >= medic {
            CombatRole::Flanker
        } else if medic >= support {
            CombatRole::Medic
        } else {
            CombatRole::Support
        }
    }
}

/// What a bent adds to a score.
fn points(has: bool, n: u32) -> (r: u32)
    requires
        n <= 100,
    ensures
        r == bonus(has, n as int),
        r <= 100,
{
    if has {
        n
    } else {
        0
    }
}

/// The plan that an NPC carries out.
#[derive(Clone, Debug)]
pub struct GoapPlanComp {
    pub actions: Vec<&'static str>,
    pub planned_at_tick: u64,
    pub last_world_state: u32,
}

impl Default for GoapPlanComp {
    fn default() -> (r: Self)
        ensures
            r.actions@.len() == 0,
            r.planned_at_tick == 0,
            r.last_world_state == 0,
    {
        GoapPlanComp { actions: Vec::new(), planned_at_tick: 0, last_world_state: 0 }
    }
}

impl GoapPlanComp {
    /// The next action.
    pub fn current_action(&self) -> (r: Option<&'static str>)
        ensures
            r == (if self.actions@.len() > 0 {
                Some(self.actions@[0])
            } else {
                None
            }),
    {
        if self.actions.len() > 0 {
            Some(self.actions[0])
        } else {
            None
        }
    }

    /// Drops the next action.
    pub fn advance(&mut self)
        ensures
            final(self).planned_at_tick == old(self).planned_at_tick,
            final(self).last_world_state == old(self).last_world_state,
            final(self).actions@ == (if old(self).actions@.len() > 0 {
                old(self).actions@.drop_first()
            } else {
                old(self).actions@
            }),
    {
        if self.actions.len() > 0 {
            let _ = self.actions.remove(0);
            assert(self.actions@ =~= old(self).actions@.drop_first());
        }
    }

    /// The plan is older than `max_age_ticks`.
    pub fn is_stale(&self, now: u64, max_age_ticks: u64) -> (r: bool)
        ensures
            r == (now - self.planned_at_tick > max_age_ticks),
    {
        now.saturating_sub(self.planned_at_tick) > max_age_ticks
    }
}

/// What an NPC does in a fight.
#[derive(Clone, Copy, Debug, PartialEq, Eq, Structural)]
pub enum CombatStance {
    Approaching,
    InCover { volume_id: u64, peek_until_tick: u64, next_peek_tick: u64 },
    Firing { since_tick: u64 },
    Suppressed { until_tick: u64 },
    Flanking,
    Retreating,
}

impl CombatStance {
    /// The NPC shows itself.
    pub open spec fn exposed(self, now: u64) -> bool {
        match self {
            CombatStance::InCover { peek_until_tick, .. } => now < peek_until_tick,
            CombatStance::Firing { .. } => true,
            CombatStance::Flanking => true,
            CombatStance::Approaching => true,
            CombatStance::Suppressed { .. } => false,
            CombatStance::Retreating => false,
        }
    }

    /// The NPC shows itself.
    pub fn is_peeking(&self, now: u64) -> (r: bool)
        ensures
            r == self.exposed(now),
    {
        match self {
            CombatStance::InCover { peek_until_tick, .. } => now < *peek_until_tick,
            CombatStance::Firing { .. } => true,
            CombatStance::Flanking => true,
            CombatStance::Approaching => true,
            _ => false,
        }
    }

    /// The NPC is in a position to shoot.
    pub open spec fn shoots(self, now: u64) -> bool {
        match self {
            CombatStance::Suppressed { until_tick } => now >= until_tick,
            CombatStance::InCover { peek_until_tick, .. } => now < peek_until_tick,
            CombatStance::Retreating => false,
            CombatStance::Approaching => true,
            CombatStance::Firing { .. } => true,
            CombatStance::Flanking => true,
        }
    }

    /// The NPC is in a position to shoot.
    pub fn can_fire(&self, now: u64) -> (r: bool)
        ensures
            r == self.shoots(now),
    {
        match self {
            CombatStance::Suppressed { until_tick } => now >= *until_tick,
            CombatStance::InCover { peek_until_tick, .. } => now < *peek_until_tick,
            CombatStance::Retreating => false,
            _ => true,
        }
    }
}

/// How ready an NPC is to fight.
#[derive(Clone, Copy, Debug, PartialEq, Eq, Hash, Structural)]
pub struct Aggression(pub F32Bits);

/// Where a goal comes from.
#[derive(Clone, Copy, Debug, PartialEq, Eq, Hash, Structural)]
pub enum GoalSource {
    ScriptedClaim,
    IndividualSurvival,
    SquadAggro,
    IndividualAggro,
    BlackboardUrgency,
    SquadObjective,
    PersonalityBias,
    Idle,
}

/// What a goal asks for.
#[derive(Clone, Copy, Debug, PartialEq, Eq)]
pub enum GoalKind {
    PursueTarget { target: NpcId },
    SquadFollowObjective,
    SoloIdleFsm,
    Hunt { target_pos: [F32Bits; 3], activity_point_id: Option<u64> },
    Socialize { target_pos: [F32Bits; 3] },
    Loot { target_pos: [F32Bits; 3], target_container: Option<u64> },
    Bloodsport,
    InvestigateAt { pos: [F32Bits; 3] },
    RegroupOnAlly { id: NpcId, pos: [F32Bits; 3] },
    SeekMedical { target_pos: [F32Bits; 3] },
}

/// The goal that an NPC pursues.
#[derive(Clone, Copy, Debug, PartialEq, Eq)]
pub struct ActiveGoal {
    pub source: GoalSource,
    pub kind: GoalKind,
    pub priority: u8,
    pub created_tick: u64,
    pub expires_at: Option<u64>,
    pub pursue_progress: Option<PursueProgress>,
    pub committed_until_tick: u64,
}

/// Where a pursuer was, and when.
#[derive(Clone, Copy, Debug, PartialEq, Eq)]
pub struct PursueProgress {
    pub pos: [F32Bits; 3],
    pub tick: u64,
}

impl Default for ActiveGoal {
    fn default() -> (r: Self)
        ensures
            r.source == GoalSource::Idle,
            r.kind == GoalKind::SoloIdleFsm,
            r.priority == 0,
            r.created_tick == 0,
            r.expires_at is None,
            r.pursue_progress is None,
            r.committed_until_tick == 0,
    {
        ActiveGoal {
            source: GoalSource::Idle,
            kind: GoalKind::SoloIdleFsm,
            priority: 0,
            created_tick: 0,
            expires_at: None,
            pursue_progress: None,
            committed_until_tick: 0,
        }
    }
}

/// The grid that a player carries.
#[derive(Debug, PartialEq)]
pub struct Inventory(pub GridInventory);

impl Default for Inventory {
    fn default() -> (r: Self)
        ensures
            r.0.width == 4,
            r.0.height == 4,
            r.0.items@ == Seq::<PlacedItem>::empty(),
    {
        Inventory(GridInventory::player_default())
    }
}

/// An item in an equipment slot, with what is in it.
#[derive(Debug, PartialEq)]
pub struct EquippedItem {
    pub stack: ItemInstance,
    pub inner_grid: Option<GridInventory>,
    /// Set on weapons.
    pub weapon_state: Option<EquippedWeaponState>,
}

/// What is in the equipment slots, by the slots' names.
#[derive(Debug)]
pub struct Equipment(pub StrMap<EquippedItem>);

impl Default for Equipment {
    fn default() -> (r: Self)
        ensures
            r.0@ == Map::<Seq<char>, EquippedItem>::empty(),
    {
        Equipment(StrMap::new())
    }
}

/// State of a weapon in use.
#[derive(Clone, Debug, PartialEq)]
pub struct EquippedWeaponState {
    pub loaded_magazine: Option<ItemInstance>,
    /// From 100, as new, down to 0.
    pub condition: F32Bits,
    pub jam_state: JamState,
}

impl Default for EquippedWeaponState {
    fn default() -> (r: Self)
        ensures
            r.loaded_magazine is None,
            r.condition.0 == whole_bits(100),
            r.jam_state == JamState::Cleared,
    {
        EquippedWeaponState {
            loaded_magazine: None,
            condition: F32Bits::from_whole(100),
            jam_state: JamState::Cleared,
        }
    }
}

/// Whether and how a weapon is jammed.
#[derive(Clone, Copy, Debug, PartialEq, Eq, Hash, Structural)]
pub enum JamState {
    Cleared,
    FailureToFeed,
    FailureToExtract,
    Stovepipe,
}

impl Default for JamState {
    fn default() -> (r: Self)
        ensures
            r == JamState::Cleared,
    {
        JamState::Cleared
    }
}

impl JamState {
    /// The weapon is jammed.
    pub fn is_jammed(self) -> (r: bool)
        ensures
            r == (self != JamState::Cleared),
    {
        self != JamState::Cleared
    }
}

/// Number of a container in the world.
#[derive(Clone, Copy, Debug, PartialEq, Eq, Hash, PartialOrd, Ord, Structural)]
pub struct ContainerId(pub u32);

/// How one gets at what is in a container.
#[derive(Clone, Copy, Debug, PartialEq, Eq, Hash, Structural)]
pub enum ContainerInteractionMode {
    Openable,
    Breakable,
}

impl Default for ContainerInteractionMode {
    fn default() -> (r: Self)
        ensures
            r == ContainerInteractionMode::Openable,
    {
        ContainerInteractionMode::Openable
    }
}

/// A container in the world.
#[derive(Debug, PartialEq)]
pub struct WorldContainer {
    pub id: ContainerId,
    pub grid: GridInventory,
    /// Whether what is in it counts for anyone who crafts nearby.
    pub is_public: bool,
    pub faction: Option<String>,
    /// How deep in the world it lies, from 1 to 3.
    pub depth_tier: u8,
    pub last_restock_tick: u64,
    pub interaction_mode: ContainerInteractionMode,
}

/// Containers lie at the surface unless they say otherwise.
pub fn default_depth_tier() -> (r: u8)
    ensures
        r == 1,
{
    1
}

/// A player stands by a campfire.
#[derive(Clone, Copy, Debug, PartialEq, Eq, Hash, Structural)]
pub struct NearCampfire(pub bool);

impl Default for NearCampfire {
    fn default() -> (r: Self)
        ensures
            !r.0,
    {
        NearCampfire(false)
    }
}

/// Tier of the workbench that a player stands by.
#[derive(Clone, Copy, Debug, PartialEq, Eq, Hash, Structural)]
pub struct NearWorkbench(pub Option<ToolTier>);

impl Default for NearWorkbench {
    fn default() -> (r: Self)
        ensures
            r.0 is None,
    {
        NearWorkbench(None)
    }
}

/// One job of a crafting queue.
#[derive(Clone, Debug, PartialEq, Eq)]
pub struct CraftJob {
    pub id: u32,
    pub recipe_id: String,
    pub count_remaining: u32,
    pub ticks_remaining: u64,
    pub started_tick: u64,
}

/// The jobs of a player; the first is being worked on.
#[derive(Clone, Debug, PartialEq, Eq)]
pub struct CraftingQueue(pub Vec<CraftJob>);

impl Default for CraftingQueue {
    fn default() -> (r: Self)
        ensures
            r.0@.len() == 0,
    {
        CraftingQueue(Vec::new())
    }
}

/// Number of a projectile.
#[derive(Clone, Copy, Debug, PartialEq, Eq, Hash, Structural)]
pub struct ProjectileId(pub u64);

impl From<u64> for ProjectileId {
    fn from(v: u64) -> (r: Self) {
        ProjectileId(v)
    }
}

impl FromSpecImpl<u64> for ProjectileId {
    open spec fn obeys_from_spec() -> bool {
        true
    }

    open spec fn from_spec(v: u64) -> ProjectileId {
        ProjectileId(v)
    }
}

/// A round in flight.
#[derive(Clone, Debug, PartialEq)]
pub struct Projectile {
    pub id: ProjectileId,
    pub source_steam_id: u64,
    pub source_npc_id: Option<NpcId>,
    pub round_id: ItemId,
    pub pos: [F32Bits; 3],
    pub vel: [F32Bits; 3],
    pub distance_traveled_m: F32Bits,
    pub max_range_m: F32Bits,
    pub spawned_tick: u64,
}

/// Each body part has a value of its own: setting one changes that one and no
/// other.
pub proof fn law_parts_are_apart(bp: BodyParts, p: BodyPart, q: BodyPart, v: F32Bits)
    ensures
        bp.with(p, v).at(p) == v,
        p != q ==> bp.with(p, v).at(q) == bp.at(q),
        bp.at(BodyPart::Head) == bp.head && bp.at(BodyPart::Torso) == bp.torso,
        bp.at(BodyPart::LeftArm) == bp.left_arm && bp.at(BodyPart::RightArm) == bp.right_arm,
        bp.at(BodyPart::LeftLeg) == bp.left_leg && bp.at(BodyPart::RightLeg) == bp.right_leg,
{
}

/// Each part has a number under six of its own.
pub proof fn law_parts_are_numbered(p: BodyPart, i: int)
    requires
        0 <= i < 6,
    ensures
        0 <= p.number() < 6,
        part_numbered(p.number()) == p,
        part_numbered(i).number() == i,
{
}

/// A wound makes an intact limb wounded, and no limb any better or worse
/// besides; a wounded limb without a wound is intact again, and no other limb
/// changes.
pub proof fn law_limbs_are_wounded_and_heal(
    limbs: LimbStates,
    p: BodyPart,
    q: BodyPart,
    s: LimbState,
    wounds: Wounds,
)
    ensures
        limbs.with(p, s).at(p) == s,
        p != q ==> limbs.with(p, s).at(q) == limbs.at(q),
        limbs.at(p) == LimbState::Intact ==> limbs.hurt(p).at(p) == LimbState::Wounded,
        limbs.at(p) != LimbState::Intact ==> limbs.hurt(p).at(p) == limbs.at(p),
        p != q ==> limbs.hurt(p).at(q) == limbs.at(q),
        limbs.at(p) == LimbState::Wounded && (forall|i: int|
            0 <= i < wounds.0@.len() ==> (#[trigger] wounds.0@[i]).1.body_part != p)
            ==> limbs.recovered(p, wounds) == LimbState::Intact,
        (exists|i: int| 0 <= i < wounds.0@.len() && (#[trigger] wounds.0@[i]).1.body_part == p)
            ==> limbs.recovered(p, wounds) == limbs.at(p),
        limbs.at(p) != LimbState::Wounded ==> limbs.recovered(p, wounds) == limbs.at(p),
        limbs.at(BodyPart::Head) == limbs.head && limbs.at(BodyPart::Torso) == limbs.torso,
        limbs.at(BodyPart::LeftArm) == limbs.left_arm && limbs.at(BodyPart::RightArm)
            == limbs.right_arm,
        limbs.at(BodyPart::LeftLeg) == limbs.left_leg && limbs.at(BodyPart::RightLeg)
            == limbs.right_leg,
{
}

/// Each need is met by itself.
pub proof fn law_needs_are_apart(n: SurvivalStats, s: SurvivalStat, t: SurvivalStat, v: F32Bits)
    ensures
        n.with(s, v).at(s) == v,
        s != t ==> n.with(s, v).at(t) == n.at(t),
        n.at(SurvivalStat::Hunger) == n.hunger && n.at(SurvivalStat::Thirst) == n.thirst && n.at(
            SurvivalStat::Fatigue,
        ) == n.fatigue,
{
}

/// Five stats decide a fight, each by as much as it is; the other three do not
/// count.
pub proof fn law_what_counts_in_a_fight(a: NpcStats, b: NpcStats)
    ensures
        b.competence() - a.competence() == (b.accuracy - a.accuracy) + (b.perception - a.perception)
            + (b.marksmanship - a.marksmanship) + (b.endurance - a.endurance) + (b.luck - a.luck),
        a.accuracy == 0 && a.perception == 0 && a.marksmanship == 0 && a.endurance == 0 && a.luck
            == 0 ==> a.competence() == 0,
{
}

/// Ranks start at 0, 280, 350, 410 and 460.
pub proof fn law_ranks_go_by_score(r: NpcRank, score: int)
    ensures
        0 <= score ==> (r.of_score(score) <==> r == (if score < 280 {
            NpcRank::Rookie
        } else if score < 350 {
            NpcRank::Experienced
        } else if score < 410 {
            NpcRank::Veteran
        } else if score < 460 {
            NpcRank::Master
        } else {
            NpcRank::Legend
        })),
{
    assert(NpcRank::Rookie.floor() == 0 && NpcRank::Experienced.floor() == 280
        && NpcRank::Veteran.floor() == 350 && NpcRank::Master.floor() == 410
        && NpcRank::Legend.floor() == 460);
}

/// Each kill counts three, up to 500 in all.
pub proof fn law_kills_count_three(c: NpcCharacter, d: NpcCharacter)
    requires
        d.stats == c.stats,
        d.kills == c.kills + 1,
    ensures
        c.kills == 0 && c.stats.competence() <= 500 ==> c.lived_competence()
            == c.stats.competence(),
        c.lived_competence() + 3 <= 500 ==> d.lived_competence() == c.lived_competence() + 3,
        c.lived_competence() + 3 > 500 ==> d.lived_competence() == 500,
        c.lived_competence() <= 500,
{
}

/// Stats are rolled from 30 to 80; a nudge moves them as far as 0 and 100.
pub proof fn law_rolls_and_nudges(v: u8, draw: int, nudge: int)
    ensures
        rolled(v) <==> 30 <= v <= 80,
        0 <= draw + nudge <= 100 ==> nudged(draw, nudge) == draw + nudge,
        draw + nudge < 0 ==> nudged(draw, nudge) == 0,
        draw + nudge > 100 ==> nudged(draw, nudge) == 100,
{
}

/// The curious hunt, the greedy loot, the bloodthirsty kill for sport and the
/// social seek company, in this order; nobody wants anything else.
pub proof fn law_drives_follow_traits(t: PersonalityTraits)
    ensures
        ({
            let n = |b: bool| if b { 1int } else { 0int };
            let d = t.drives();
            &&& d.len() == n(t.curious) + n(t.greedy) + n(t.bloodthirsty) + n(t.social)
            &&& t.curious ==> d[0] == PersonalityDrive::Hunt
            &&& t.greedy ==> d[n(t.curious)] == PersonalityDrive::Loot
            &&& t.bloodthirsty ==> d[n(t.curious) + n(t.greedy)] == PersonalityDrive::Bloodsport
            &&& t.social ==> d.last() == PersonalityDrive::Socialize
        }),
{
}

/// What each kind of people is likely to be, against those of whom nothing is
/// known, for whom each trait is as likely as not; and what most and what least.
pub proof fn law_archetypes_lean(i: int)
    requires
        0 <= i < 10,
    ensures
        ({
            let half = PersonalityArchetype::Default.likelihoods()[i];
            let d = PersonalityArchetype::Disciplined.likelihoods();
            let a = PersonalityArchetype::Aggressive.likelihoods();
            let g = PersonalityArchetype::Greedy.likelihoods();
            let c = PersonalityArchetype::Curious.likelihoods();
            let r = PersonalityArchetype::Reverent.likelihoods();
            &&& half == 0x3f00_0000
            &&& d[i] > half <==> i == 1 || i == 4 || i == 8
            &&& d[i] == half <==> i == 6
            &&& a[i] > half <==> i == 0 || i == 5 || i == 8 || i == 9
            &&& g[i] > half <==> i == 0 || i == 3 || i == 9
            &&& c[i] > half <==> i == 1 || i == 2 || i == 7
            &&& r[i] > half <==> i == 4 || i == 6 || i == 8
            &&& d[i] <= d[8] && a[i] <= a[0] && g[i] <= g[3] && c[i] <= c[2] && r[i] <= r[4]
            &&& d[8] == a[0] && a[0] == g[3] && g[3] == r[4] && r[4] == 0x3f59_999a && c[2]
                == 0x3f4c_cccd
            &&& d[i] >= d[9] && d[3] == d[9] && a[i] >= a[1] && g[i] >= g[4] && g[8] == g[4] && c[i]
                >= c[5] && r[i] >= r[3] && r[9] == r[3]
            &&& d[0] < d[1] < d[4] && d[5] < d[2] && d[2] == d[7] && d[7] < d[0]
            &&& a[2] < a[7] < a[3] < a[6] < a[4] < a[9] < a[8] < a[5]
            &&& g[1] == g[2] && g[2] == g[7] && g[1] < g[5] < g[6] < g[0] < g[9]
            &&& c[3] == c[9] && c[9] < c[0] && c[0] == c[8] && c[8] < c[4] && c[4] == c[6] && c[6]
                < c[1] < c[7]
            &&& r[7] < r[5] < r[0] < r[1] && r[1] == r[2] && r[2] < r[8] < r[6]
        }),
{
}

/// A trait is given where its draw is under its likelihood, and not where it
/// is not.
pub proof fn law_traits_are_given_by_draw(
    k: PersonalityArchetype,
    draws: Seq<F32Bits>,
    t: PersonalityTraits,
)
    requires
        k.traits_of(draws, t),
    ensures
        ({
            let p = k.likelihoods();
            let g = |i: int| draws[i].less(F32Bits(p[i]));
            &&& t.aggressive == g(0) && t.cautious == g(1) && t.curious == g(2) && t.greedy == g(3)
            &&& t.loyal == g(4) && t.bloodthirsty == g(5) && t.social == g(6) && t.solitary == g(7)
            &&& t.disciplined == g(8) && t.reckless == g(9)
        }),
{
}

/// Which kind of people each faction attracts; whoever is not known attracts
/// all alike.
pub proof fn law_factions_attract(n: Seq<char>)
    ensures
        n == "pwa"@ || n == "federal"@ || n == "ghost_teams"@ || n == "aegis_pacific"@ || n
            == "recovery_division"@ || n == "revere_guard"@ <==> archetype_named(n)
            == PersonalityArchetype::Disciplined,
        n == "wanderers"@ ==> archetype_named(n) == PersonalityArchetype::Curious,
        n == "linemen"@ || n == "cartel"@ || n == "merged"@ ==> archetype_named(n)
            == PersonalityArchetype::Aggressive,
        n == "looters"@ || n == "bandits"@ || n == "gulf_compact"@ || n == "registry"@
            ==> archetype_named(n) == PersonalityArchetype::Greedy,
        n == "attuned"@ || n == "choir"@ ==> archetype_named(n) == PersonalityArchetype::Reverent,
        !(n == "pwa"@ || n == "federal"@ || n == "ghost_teams"@ || n == "aegis_pacific"@ || n
            == "recovery_division"@ || n == "revere_guard"@ || n == "wanderers"@ || n == "linemen"@
            || n == "cartel"@ || n == "merged"@ || n == "looters"@ || n == "bandits"@ || n
            == "gulf_compact"@ || n == "registry"@ || n == "attuned"@ || n == "choir"@)
            ==> archetype_named(n) == PersonalityArchetype::Default,
{
    reveal_strlit("pwa");
    reveal_strlit("federal");
    reveal_strlit("ghost_teams");
    reveal_strlit("aegis_pacific");
    reveal_strlit("recovery_division");
    reveal_strlit("revere_guard");
    reveal_strlit("wanderers");
    reveal_strlit("linemen");
    reveal_strlit("cartel");
    reveal_strlit("merged");
    reveal_strlit("looters");
    reveal_strlit("bandits");
    reveal_strlit("gulf_compact");
    reveal_strlit("registry");
    reveal_strlit("attuned");
    reveal_strlit("choir");
    assert("pwa"@.len() == 3);
    assert("federal"@.len() == 7 && "federal"@[0] == 'f');
    assert("ghost_teams"@.len() == 11 && "aegis_pacific"@.len() == 13);
    assert("recovery_division"@.len() == 17);
    assert("revere_guard"@.len() == 12 && "revere_guard"@[0] == 'r');
    assert("gulf_compact"@.len() == 12 && "gulf_compact"@[0] == 'g');
    assert("wanderers"@.len() == 9 && "registry"@.len() == 8 && "choir"@.len() == 5);
    assert("cartel"@.len() == 6 && "cartel"@[0] == 'c');
    assert("merged"@.len() == 6 && "merged"@[0] == 'm');
    assert("linemen"@.len() == 7 && "linemen"@[0] == 'l' && "linemen"@[1] == 'i');
    assert("looters"@.len() == 7 && "looters"@[0] == 'l' && "looters"@[1] == 'o');
    assert("bandits"@.len() == 7 && "bandits"@[0] == 'b');
    assert("attuned"@.len() == 7 && "attuned"@[0] == 'a');
}

/// What suits a member to a role: for the point accuracy and marksmanship, for
/// support leadership and endurance, for the flank perception and stealth, for
/// the medic endurance and luck; and what each bent adds.
pub proof fn law_what_suits_a_role(s: NpcStats, p: PersonalityTraits)
    ensures
        ({
            let (point, support, flank, medic) = role_scores(s, p);
            let plain = |x: int, y: int, z: int, w: int|
                point == s.accuracy + s.marksmanship + x && support == s.leadership + s.endurance + y
                    && flank == s.perception + s.stealth + z && medic == s.endurance + s.luck + w;
            &&& !p.aggressive && !p.reckless && !p.disciplined && !p.curious && !p.cautious
                && !p.loyal ==> plain(0, 0, 0, 0)
            &&& p.aggressive && !p.reckless && !p.disciplined && !p.curious && !p.cautious
                && !p.loyal ==> plain(30, 0, 0, 0)
            &&& !p.aggressive && p.reckless && !p.disciplined && !p.curious && !p.cautious
                && !p.loyal ==> plain(20, 0, 15, 0)
            &&& !p.aggressive && !p.reckless && p.disciplined && !p.curious && !p.cautious
                && !p.loyal ==> plain(0, 30, 0, 0)
            &&& !p.aggressive && !p.reckless && !p.disciplined && p.curious && !p.cautious
                && !p.loyal ==> plain(0, 0, 30, 0)
            &&& !p.aggressive && !p.reckless && !p.disciplined && !p.curious && p.cautious
                && !p.loyal ==> plain(0, 0, 0, 30)
            &&& !p.aggressive && !p.reckless && !p.disciplined && !p.curious && !p.cautious
                && p.loyal ==> plain(0, 0, 0, 25)
            &&& p.aggressive && p.reckless && p.disciplined && p.curious && p.cautious && p.loyal
                ==> plain(50, 30, 45, 55)
        }),
{
}

/// No role suits a member better than the one that is found; of roles that suit
/// as well the point comes before the flank, that before the medic, and that
/// before support.
pub proof fn law_best_role_is_taken(s: NpcStats, p: PersonalityTraits)
    ensures
        ({
            let (point, support, flank, medic) = role_scores(s, p);
            let best = match CombatRole::suited(s, p) {
                CombatRole::Pointman => point,
                CombatRole::Flanker => flank,
                CombatRole::Medic => medic,
                CombatRole::Support => support,
            };
            let found = CombatRole::suited(s, p);
            &&& best >= point && best >= flank && best >= medic && best >= support
            &&& best == point ==> found == CombatRole::Pointman
            &&& best == flank && best > point ==> found == CombatRole::Flanker
            &&& best == medic && best > point && best > flank ==> found == CombatRole::Medic
        }),
{
}

/// Who fires, flanks or approaches shows themselves and can shoot; who retreats
/// does neither; in cover one does both while one peeks; one under fire hides,
/// and shoots once it is over.
pub proof fn law_stances(st: CombatStance, now: u64)
    ensures
        st is Firing || st is Flanking || st is Approaching ==> st.exposed(now) && st.shoots(now),
        st is Retreating ==> !st.exposed(now) && !st.shoots(now),
        st matches CombatStance::InCover { peek_until_tick, .. } ==> st.exposed(now) == (now
            < peek_until_tick) && st.shoots(now) == (now < peek_until_tick),
        st matches CombatStance::Suppressed { until_tick } ==> !st.exposed(now) && st.shoots(now)
            == (now >= until_tick),
{
}

/// A tolerance is kept from zero to a hundred.
pub proof fn law_tolerances_are_kept_in_range(x: F32Bits)
    ensures
        x.less(F32Bits(0)) ==> tolerance_kept(x) == F32Bits(0),
        F32Bits(0x42c8_0000).less(x) ==> tolerance_kept(x) == F32Bits(0x42c8_0000),
        F32Bits(0).at_most(x) && x.at_most(F32Bits(0x42c8_0000)) ==> tolerance_kept(x) == x,
{
}

/// No two drugs do the same, and none does what only time or too much brings.
pub proof fn law_drugs_do_what_they_are_for(a: DrugKind, b: DrugKind)
    ensures
        a.effect() == b.effect() ==> a == b,
        a is Painkiller <==> a.effect() is Painkiller,
        a is Morphine <==> a.effect() is Morphine,
        a is Adrenaline <==> a.effect() is Adrenaline,
        a is StimCocktail <==> a.effect() is StimCocktail,
        a is AntiRad <==> a.effect() is AntiRad,
        a is AntiTox <==> a.effect() is AntiTox,
{
}

/// The greater a base the further its walls reach, from three metres at a
/// checkpoint to eight at a headquarters; a camp has none.
pub proof fn law_bases_reach(k: BaseKind)
    ensures
        k.reach_m() is None <==> k is CampSite,
        BaseKind::Checkpoint.reach_m() == Some(3int),
        BaseKind::Safehouse.reach_m() == Some(BaseKind::Checkpoint.reach_m()->0 + 1),
        BaseKind::Outpost.reach_m() == Some(BaseKind::Safehouse.reach_m()->0 + 1),
        BaseKind::ResearchPost.reach_m() == Some(BaseKind::Outpost.reach_m()->0 + 1),
        BaseKind::Headquarters.reach_m() == Some(BaseKind::ResearchPost.reach_m()->0 + 2),
{
}

/// An attack is forgotten once it is older than the cutoff, and not before; the
/// rest keep their order.
pub proof fn law_old_attacks_are_forgotten(events: Seq<AttackerHit>, e: AttackerHit, cutoff: u64)
    ensures
        e.tick >= cutoff ==> since_cutoff(events.push(e), cutoff) == since_cutoff(
            events,
            cutoff,
        ).push(e),
        e.tick < cutoff ==> since_cutoff(events.push(e), cutoff) == since_cutoff(events, cutoff),
        since_cutoff(Seq::empty(), cutoff).len() == 0,
{
    assert(events.push(e).drop_last() =~= events);
}

/// An attacker is found at the first place where they are listed.
pub proof fn law_attackers_are_found(events: Seq<AttackerHit>, id: NpcId, from: int, i: int)
    requires
        0 <= from <= i < events.len(),
        events[i].attacker_id == id,
        forall|j: int| from <= j < i ==> (#[trigger] events[j]).attacker_id != id,
    ensures
        attacker_index(events, id, from) == Some(i),
    decreases i - from,
{
    if from < i {
        assert(events[from].attacker_id != id);
        law_attackers_are_found(events, id, from + 1, i);
    }
}

/// Units of all items add up.
pub proof fn law_all_units_add_up(a: Seq<PlacedItem>, p: PlacedItem)
    ensures
        total_units(a.push(p)) == total_units(a) + p.stack.count,
        total_units(Seq::empty()) == 0,
{
    assert(a.push(p).drop_last() =~= a);
}

/// Only magazines hold rounds.
pub proof fn law_only_magazines_hold_rounds(i: ItemInstance)
    ensures
        i.magazine_state is None ==> i.rounds() == 0,
        i.magazine_state matches Some(m) ==> i.rounds() == m.loaded_rounds,
{
}

/// Each rank has a title of its own.
pub proof fn law_titles_differ(a: NpcRank, b: NpcRank)
    ensures
        a.title() == b.title() ==> a == b,
        NpcRank::Legend.title() == "Legend"@ && NpcRank::Rookie.title() == "Rookie"@,
{
    reveal_strlit("Rookie");
    reveal_strlit("Experienced");
    reveal_strlit("Veteran");
    reveal_strlit("Master");
    reveal_strlit("Legend");
    assert("Rookie"@[0] == 'R' && "Experienced"@[0] == 'E' && "Veteran"@[0] == 'V' && "Master"@[0]
        == 'M' && "Legend"@[0] == 'L');
}

/// A character starts without a kill, with the rank of its stats and the
/// identity of its NPC in its faction.
pub proof fn law_characters_start_fresh(npc: u64, faction: u32, nudge: int, c: NpcCharacter)
    requires
        is_character(npc, faction, nudge, c),
    ensures
        c.kills == 0,
        c.character_id.0 == derived_id(npc, faction),
        c.rank.of_score(c.stats.competence()),
        c.stats.perception == past_stats(Trail::start(derived_id(npc, faction)), 1).next(8, 30, 80),
        c.stats.luck == past_stats(Trail::start(derived_id(npc, faction)), 7).next(8, 30, 80),
{
}

/// Stats are drawn one after the other from 30 to 80, and only the two that aim
/// are nudged.
pub proof fn law_stats_are_drawn_in_order(s: NpcStats, t: Trail, nudge: int)
    requires
        s.comes_from(t, nudge),
    ensures
        ({
            let d = |k: nat| past_stats(t, k).next(8, 30, 80);
            &&& s.accuracy == nudged(d(0), nudge) && s.perception == d(1) && s.stealth == d(2)
            &&& s.strength == d(3) && s.endurance == d(4)
            &&& s.marksmanship == nudged(d(5), nudge) && s.leadership == d(6) && s.luck == d(7)
            &&& past_stats(t, 0) == t
            &&& past_stats(t, 1) == t.after(8, 30, 80)
            &&& past_stats(t, 2) == t.after(8, 30, 80).after(8, 30, 80)
        }),
{
    reveal_with_fuel(past_stats, 3);
}

} // verus!
