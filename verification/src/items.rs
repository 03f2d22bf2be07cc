//! Item, recipe and equipment-slot definitions, and the registries that hold
//! them.
use vstd::prelude::*;
use vstd::std_specs::convert::FromSpecImpl;

use crate::components::{BodyPart, DrugKind, FoodKind, WaterKind};
use crate::float_bits::{F32Bits, F32_ZERO};
use crate::strmap::StrMap;
use crate::text::{str_eq, views};

verus! {

/// Stable string identifier of an item.
#[derive(Debug, PartialEq, Eq, Hash)]
pub struct ItemId(pub String);

impl View for ItemId {
    type V = Seq<char>;

    open spec fn view(&self) -> Seq<char> {
        self.0@
    }
}

impl Clone for ItemId {
    fn clone(&self) -> (r: Self)
        ensures
            r == *self,
    {
        ItemId(self.0.clone())
    }
}

impl From<String> for ItemId {
    fn from(s: String) -> (r: Self) {
        ItemId(s)
    }
}

impl FromSpecImpl<String> for ItemId {
    open spec fn obeys_from_spec() -> bool {
        true
    }

    open spec fn from_spec(s: String) -> ItemId {
        ItemId(s)
    }
}

impl ItemId {
    /// The id with the given text.
    pub fn new(s: &str) -> (r: ItemId)
        ensures
            r@ == s@,
    {
        ItemId(s.to_owned())
    }

    /// True iff the two ids have the same text.
    pub fn same(&self, other: &ItemId) -> (r: bool)
        ensures
            r == (self@ == other@),
    {
        str_eq(self.0.as_str(), other.0.as_str())
    }
}

/// Caliber tag, matched between weapons, magazines and rounds.
#[derive(Clone, Debug, PartialEq, Eq, Hash)]
pub struct Caliber(pub String);

impl From<String> for Caliber {
    fn from(s: String) -> (r: Self) {
        Caliber(s)
    }
}

impl FromSpecImpl<String> for Caliber {
    open spec fn obeys_from_spec() -> bool {
        true
    }

    open spec fn from_spec(s: String) -> Caliber {
        Caliber(s)
    }
}

/// Stable identifier of an equipment slot.
#[derive(Debug, PartialEq, Eq, Hash, PartialOrd, Ord)]
pub struct SlotId(pub String);

impl From<String> for SlotId {
    fn from(s: String) -> (r: Self) {
        SlotId(s)
    }
}

impl FromSpecImpl<String> for SlotId {
    open spec fn obeys_from_spec() -> bool {
        true
    }

    open spec fn from_spec(s: String) -> SlotId {
        SlotId(s)
    }
}

impl View for SlotId {
    type V = Seq<char>;

    open spec fn view(&self) -> Seq<char> {
        self.0@
    }
}

impl Clone for SlotId {
    fn clone(&self) -> (r: Self)
        ensures
            r == *self,
    {
        SlotId(self.0.clone())
    }
}

/// Audibility bucket of a round, by name (`pistol`, `intermediate`, ...).
#[derive(Clone, Debug, PartialEq, Eq, Hash)]
pub struct CaliberClass(pub String);

/// One item definition.
#[derive(Clone, Debug)]
pub struct ItemDef {
    pub id: ItemId,
    pub name: String,
    pub category: ItemCategory,
    pub weight: F32Bits,
    /// How many units one stack holds; zero counts as one.
    pub stack_size: u32,
    /// How many ticks the item keeps; `None` for what does not perish.
    pub perishable_ticks: Option<u64>,
    pub consume_action: Option<ConsumeAction>,
    pub salvage: Option<SalvageRecipe>,
    /// Set on toolkits and specialty kits.
    pub tool: Option<ToolSpec>,
    /// How many cells wide and tall the item is when upright.
    pub size: GridSize,
    /// True iff the item may lie on its side.
    pub rotatable: bool,
    /// Dimensions of the grid inside, for containers.
    pub inner_grid: Option<GridSize>,
    /// Slots the item fits in; empty leaves the decision to the category.
    pub equip_slots: Vec<SlotId>,
    pub weapon_config: Option<WeaponConfig>,
    pub magazine_config: Option<MagazineConfig>,
    pub ammo_config: Option<AmmoConfig>,
    pub armor_config: Option<ArmorConfig>,
    pub attachment_config: Option<AttachmentConfig>,
}

/// Weapon tuning parameters.
#[derive(Clone, Debug, PartialEq)]
pub struct WeaponConfig {
    pub caliber: Caliber,
    /// Health lost per hit.
    pub damage: F32Bits,
    pub range_m: F32Bits,
    pub fire_interval_s: F32Bits,
    pub spread_deg: F32Bits,
    /// Where attachments can go.
    pub slots: Vec<WeaponSlot>,
    pub wear_per_shot: F32Bits,
    pub jam_threshold: F32Bits,
    pub jam_chance_floor: F32Bits,
}

/// A number kept from zero to a bound.
pub open spec fn kept_below(x: F32Bits, bound: F32Bits) -> F32Bits {
    if x.less(F32Bits(F32_ZERO)) {
        F32Bits(F32_ZERO)
    } else if bound.less(x) {
        bound
    } else {
        x
    }
}

/// How likely a weapon in the given condition jams: never at or above its
/// threshold, as much as can be when it is worn out, and in between as given,
/// kept in that range.
pub open spec fn jam_chance(condition: F32Bits, cfg: WeaponConfig, between: F32Bits) -> F32Bits {
    if cfg.jam_threshold.at_most(condition) {
        F32Bits(F32_ZERO)
    } else if condition.at_most(F32Bits(F32_ZERO)) {
        cfg.jam_chance_floor
    } else {
        kept_below(between, cfg.jam_chance_floor)
    }
}

/// How likely a weapon in the given condition jams. `between` is the part of
/// the most that goes with how far the condition is under the threshold.
pub fn jam_chance_at_condition(condition: F32Bits, cfg: &WeaponConfig, between: F32Bits) -> (r:
    F32Bits)
    requires
        cfg.jam_threshold.at_most(condition) || condition.at_most(F32Bits(F32_ZERO)) || F32Bits(
            F32_ZERO,
        ).at_most(cfg.jam_chance_floor),
    ensures
        r == jam_chance(condition, *cfg, between),
{
    let zero = F32Bits(F32_ZERO);
    if cfg.jam_threshold.le(condition) {
        return zero;
    }
    if condition.le(zero) {
        return cfg.jam_chance_floor;
    }
    if between.lt(zero) {
        zero
    } else if cfg.jam_chance_floor.lt(between) {
        cfg.jam_chance_floor
    } else {
        between
    }
}

/// A weapon never jams more often than when it is worn out.
pub proof fn law_jam_chance_is_bounded(condition: F32Bits, cfg: WeaponConfig, between: F32Bits)
    requires
        F32Bits(F32_ZERO).at_most(cfg.jam_chance_floor),
        !between.is_nan(),
    ensures
        F32Bits(F32_ZERO).at_most(jam_chance(condition, cfg, between)),
        jam_chance(condition, cfg, between).at_most(cfg.jam_chance_floor),
{
}

/// One attachment slot of a weapon, with the mount tags it exposes.
#[derive(Clone, Debug, PartialEq)]
pub struct WeaponSlot {
    pub id: SlotId,
    pub tags: Vec<String>,
}

/// What an attachment consumes and provides.
#[derive(Clone, Debug, PartialEq)]
pub struct AttachmentConfig {
    pub consumes_tag: String,
    pub provides_tags: Vec<String>,
    /// Named stat effects, each key once.
    pub effects: Vec<(String, F32Bits)>,
}

/// Why a chain of attachments is refused.
#[derive(Debug, Clone, PartialEq, Eq)]
pub enum AttachmentError {
    /// The registry has no such item.
    UnknownItem(ItemId),
    /// The item has no attachment block.
    NotAnAttachment(ItemId),
    /// The item has no weapon block.
    NotAWeapon(ItemId),
    /// Nothing exposes the tag that the attachment consumes.
    NoMatchingSlot { attachment: ItemId, needed_tag: String },
    /// An earlier attachment took the last occurrence of the tag.
    TagAlreadyConsumed { attachment: ItemId, attached: ItemId, tag: String },
}

/// Magazine tuning parameters.
#[derive(Clone, Debug, PartialEq)]
pub struct MagazineConfig {
    pub caliber: Caliber,
    pub capacity: u32,
}

/// Round tuning parameters.
#[derive(Clone, Debug, PartialEq)]
pub struct AmmoConfig {
    pub caliber: Caliber,
    pub mass_g: F32Bits,
    pub muzzle_velocity_mps: F32Bits,
    pub drag_k: F32Bits,
    pub penetration_class: u8,
    pub damage_soft: F32Bits,
    pub damage_blunt: F32Bits,
    pub reference_energy_j: F32Bits,
    pub caliber_class: CaliberClass,
    pub variant: AmmoVariant,
}

/// Family of a round.
#[derive(Clone, Copy, Debug, PartialEq, Eq, Hash, Structural)]
pub enum AmmoVariant {
    Fmj,
    Hp,
    Ap,
    Tracer,
    Overpressure,
}

impl AmmoVariant {
    /// Lower-case name of the family.
    pub open spec fn name(self) -> Seq<char> {
        match self {
            AmmoVariant::Fmj => "fmj"@,
            AmmoVariant::Hp => "hp"@,
            AmmoVariant::Ap => "ap"@,
            AmmoVariant::Tracer => "tracer"@,
            AmmoVariant::Overpressure => "overpressure"@,
        }
    }

    /// Lower-case name of the family.
    pub fn as_str(&self) -> (r: &'static str)
        ensures
            r@ == self.name(),
    {
        match self {
            AmmoVariant::Fmj => "fmj",
            AmmoVariant::Hp => "hp",
            AmmoVariant::Ap => "ap",
            AmmoVariant::Tracer => "tracer",
            AmmoVariant::Overpressure => "overpressure",
        }
    }
}

impl Default for AmmoVariant {
    fn default() -> (r: Self)
        ensures
            r == AmmoVariant::Fmj,
    {
        AmmoVariant::Fmj
    }
}

/// Armor tuning parameters.
#[derive(Clone, Debug, PartialEq)]
pub struct ArmorConfig {
    pub protection_class: u8,
    pub coverage: Vec<BodyPart>,
}

/// One slot of the paper doll.
#[derive(Clone, Debug)]
pub struct EquipmentSlotDef {
    pub id: SlotId,
    pub label: String,
    /// Categories that may go in the slot.
    pub accepts: Vec<ItemCategory>,
    pub position: SlotPosition,
    pub size: SlotSize,
    pub is_hotbar: bool,
    /// One-based hotbar index, meaningful when `is_hotbar`.
    pub hotbar_index: u8,
}

/// Cell of the paper-doll layout.
#[derive(Clone, Copy, Debug, PartialEq, Eq, Hash, Structural)]
pub struct SlotPosition {
    pub x: u32,
    pub y: u32,
}

impl Default for SlotPosition {
    fn default() -> (r: Self)
        ensures
            r.x == 0 && r.y == 0,
    {
        SlotPosition { x: 0, y: 0 }
    }
}

/// Cells a slot covers in the paper-doll layout.
#[derive(Clone, Copy, Debug, PartialEq, Eq, Hash, Structural)]
pub struct SlotSize {
    pub w: u32,
    pub h: u32,
}

/// A slot covers one cell unless it says otherwise.
pub fn default_slot_size() -> (r: SlotSize)
    ensures
        r.w == 1 && r.h == 1,
{
    SlotSize { w: 1, h: 1 }
}

impl Default for SlotSize {
    fn default() -> (r: Self)
        ensures
            r.w == 1 && r.h == 1,
    {
        default_slot_size()
    }
}

/// Footprint in cells.
#[derive(Clone, Copy, Debug, PartialEq, Eq, Hash, Structural)]
pub struct GridSize {
    pub w: u32,
    pub h: u32,
}

/// Product of two counts, or the largest `u32` where it is larger.
pub open spec fn saturating_product(a: u32, b: u32) -> int {
    if a * b > u32::MAX {
        u32::MAX as int
    } else {
        a * b
    }
}

/// Product of two counts, or the largest `u32` where it is larger.
pub fn saturating_product_u32(a: u32, b: u32) -> (r: u32)
    ensures
        r == saturating_product(a, b),
{
    match a.checked_mul(b) {
        Some(p) => p,
        None => u32::MAX,
    }
}

impl GridSize {
    pub fn new(w: u32, h: u32) -> (r: Self)
        ensures
            r.w == w && r.h == h,
    {
        GridSize { w, h }
    }

    /// How many cells the footprint covers, saturating.
    pub fn area(&self) -> (r: u32)
        ensures
            r == saturating_product(self.w, self.h),
    {
        saturating_product_u32(self.w, self.h)
    }

    /// The footprint on its side.
    pub open spec fn turned(self) -> GridSize {
        GridSize { w: self.h, h: self.w }
    }

    /// The footprint on its side.
    pub fn rotated(self) -> (r: Self)
        ensures
            r == self.turned(),
    {
        GridSize { w: self.h, h: self.w }
    }
}

/// Turning a footprint twice gives it back.
pub proof fn law_rotation_is_involutive(s: GridSize)
    ensures
        s.turned().turned() == s,
{
}

/// Items do not stack unless they say otherwise.
pub fn default_stack_size() -> (r: u32)
    ensures
        r == 1,
{
    1
}

/// Items cover one cell unless they say otherwise.
pub fn default_grid_size() -> (r: GridSize)
    ensures
        r.w == 1 && r.h == 1,
{
    GridSize { w: 1, h: 1 }
}

/// Broad category of an item.
#[derive(Clone, Copy, Debug, PartialEq, Eq, Hash, Structural)]
pub enum ItemCategory {
    Food,
    Drink,
    Medical,
    Drug,
    Junk,
    Component,
    Tool,
    Misc,
    HeadGear,
    Eyes,
    ArmorVest,
    ChestRig,
    Backpack,
    WeaponPrimary,
    WeaponSecondary,
    Sidearm,
    Melee,
    Magazine,
    Ammo,
    Attachment,
}

/// What using an item does.
#[derive(Clone, Copy, Debug, PartialEq, Eq, Structural)]
pub enum ConsumeAction {
    Eat { food_kind: FoodKind },
    Drink { water_kind: WaterKind },
    ApplyDrug { drug: DrugKind },
    ApplyBandage,
    ApplyTourniquet,
    ApplyDisinfectant,
    ApplyStitch,
    ApplyWoundPack,
    ApplyAntibiotics,
}

impl ConsumeAction {
    /// True iff the action is aimed at one body part.
    pub open spec fn targets_limb(self) -> bool {
        self is ApplyBandage || self is ApplyTourniquet || self is ApplyDisinfectant
            || self is ApplyStitch || self is ApplyWoundPack
    }

    /// True iff the action is aimed at one body part.
    pub fn needs_body_part(&self) -> (r: bool)
        ensures
            r == self.targets_limb(),
    {
        matches!(
            self,
            ConsumeAction::ApplyBandage
                | ConsumeAction::ApplyTourniquet
                | ConsumeAction::ApplyDisinfectant
                | ConsumeAction::ApplyStitch
                | ConsumeAction::ApplyWoundPack
        )
    }
}

/// What an item can be broken down into.
#[derive(Clone, Debug)]
pub struct SalvageRecipe {
    pub tool_required: Option<ItemId>,
    pub time_ticks: u64,
    pub outputs: Vec<SalvageOutput>,
}

/// One line of salvage output, rolled in `min..=max`.
#[derive(Clone, Debug)]
pub struct SalvageOutput {
    pub id: ItemId,
    pub min: u32,
    pub max: u32,
}

/// One crafting recipe.
#[derive(Clone, Debug)]
pub struct Recipe {
    pub id: String,
    pub name: String,
    pub required_tool: Option<ItemId>,
    pub required_kit: Option<KitRequirement>,
    pub required_context: Option<CraftStation>,
    pub time_ticks: u64,
    pub inputs: Vec<ItemStack>,
    pub outputs: Vec<ItemStack>,
}

/// The workspace a recipe needs.
pub type RecipeContext = CraftStation;

/// The workspace a recipe needs.
#[derive(Clone, Copy, Debug, PartialEq, Eq, Hash, Structural)]
pub enum CraftStation {
    Campfire,
    BasicBench,
    AdvancedBench,
    ExpertBench,
}

/// Tier of a tool; each covers those before it.
#[derive(Clone, Copy, Debug, PartialEq, Eq, Hash, PartialOrd, Ord, Structural)]
pub enum ToolTier {
    Basic,
    Advanced,
    Expert,
}

/// Axis of the crafting progression.
#[derive(Clone, Copy, Debug, PartialEq, Eq, Hash, Structural)]
pub enum Specialty {
    General,
    Gunsmith,
    ArmorRepair,
    WeaponRepair,
    DrugMaking,
    Shards,
}

/// Specialty and tier of a kit.
#[derive(Clone, Copy, Debug, PartialEq, Eq, Hash, Structural)]
pub struct ToolSpec {
    pub specialty: Specialty,
    pub tier: ToolTier,
}

/// The kit a recipe needs.
#[derive(Clone, Copy, Debug, PartialEq, Eq, Hash, Structural)]
pub struct KitRequirement {
    pub specialty: Specialty,
    pub min_tier: ToolTier,
}

impl CraftStation {
    /// Rank among benches; a campfire is no bench.
    pub open spec fn rank(self) -> Option<u8> {
        match self {
            CraftStation::Campfire => None,
            CraftStation::BasicBench => Some(1u8),
            CraftStation::AdvancedBench => Some(2u8),
            CraftStation::ExpertBench => Some(3u8),
        }
    }

    /// Rank among benches; a campfire is no bench.
    pub fn bench_rank(self) -> (r: Option<u8>)
        ensures
            r == self.rank(),
    {
        match self {
            CraftStation::BasicBench => Some(1),
            CraftStation::AdvancedBench => Some(2),
            CraftStation::ExpertBench => Some(3),
            CraftStation::Campfire => None,
        }
    }
}

/// A count of one item, as recipes name it.
#[derive(Clone, Debug, PartialEq, Eq)]
pub struct ItemStack {
    pub id: ItemId,
    pub count: u32,
}

/// The map from ids to definitions that a list stands for; of several with
/// one id the last counts.
pub open spec fn defs_map(defs: Seq<ItemDef>) -> Map<Seq<char>, ItemDef>
    decreases defs.len(),
{
    if defs.len() == 0 {
        Map::empty()
    } else {
        defs_map(defs.drop_last()).insert(defs.last().id@, defs.last())
    }
}

/// The `k`-th of `keys` occurs earlier too.
pub open spec fn repeats_at(keys: Seq<Seq<char>>, k: int) -> bool {
    0 <= k < keys.len() && exists|j: int| 0 <= j < k && keys[j] == #[trigger] keys[k]
}

/// `k` is the first position whose key occurs earlier too.
pub open spec fn first_repeat(keys: Seq<Seq<char>>, k: int) -> bool {
    repeats_at(keys, k) && forall|j: int| 0 <= j < k ==> !repeats_at(keys, j)
}

/// The ids of a list of definitions.
pub open spec fn def_ids(defs: Seq<ItemDef>) -> Seq<Seq<char>> {
    Seq::new(defs.len(), |i: int| defs[i].id@)
}

/// Every item definition, by id.
#[derive(Debug)]
pub struct ItemRegistry {
    by_id: StrMap<ItemDef>,
}

impl View for ItemRegistry {
    type V = Map<Seq<char>, ItemDef>;

    closed spec fn view(&self) -> Map<Seq<char>, ItemDef> {
        self.by_id@
    }
}

impl ItemRegistry {
    /// A registry of the given definitions, or the first id that is there
    /// twice.
    #[verifier::loop_isolation(false)]
    pub fn build(defs: Vec<ItemDef>) -> (r: Result<ItemRegistry, ItemId>)
        ensures
            match r {
                Ok(reg) => reg@ == defs_map(defs@) && forall|k: int|
                    !repeats_at(def_ids(defs@), k),
                Err(id) => exists|k: int|
                    #[trigger] first_repeat(def_ids(defs@), k) && id@ == defs@[k].id@,
            },
    {
        let ghost all = defs@;
        let ghost ids = def_ids(defs@);
        let mut by_id: StrMap<ItemDef> = StrMap::new();
        proof {
            assert(all.take(0) =~= Seq::<ItemDef>::empty());
        }
        for d in it: defs.into_iter()
            invariant
                it.seq() == all,
                ids == def_ids(all),
                by_id@ == defs_map(all.take(it.index())),
                forall|j: int| 0 <= j < it.index() ==> by_id@.contains_key(#[trigger] ids[j]),
                forall|k: Seq<char>| #[trigger]
                    by_id@.contains_key(k) ==> exists|j: int| 0 <= j < it.index() && ids[j] == k,
                forall|j: int| 0 <= j < it.index() ==> !repeats_at(ids, j),
        {
            let ghost done = it.index();
            assert(d == all[done]);
            assert(ids[done] == d.id@);
            if by_id.contains_key(d.id.0.as_str()) {
                proof {
                    let j = choose|j: int| 0 <= j < done && ids[j] == d.id@;
                    assert(ids[j] == ids[done]);
                    assert(first_repeat(ids, done));
                }
                return Err(d.id);
            }
            let key = d.id.clone();
            by_id.insert(key.0, d);
            proof {
                assert(!repeats_at(ids, done));
                assert(all.take(done + 1).drop_last() =~= all.take(done));
                assert forall|k: Seq<char>| #[trigger] by_id@.contains_key(k) implies exists|j: int|
                    0 <= j < done + 1 && ids[j] == k by {
                    if k == d.id@ {
                        assert(ids[done] == k);
                    } else {
                        let j = choose|j: int| 0 <= j < done && ids[j] == k;
                        assert(ids[j] == k);
                    }
                }
            }
        }
        proof {
            assert(all.take(all.len() as int) =~= all);
        }
        Ok(ItemRegistry { by_id })
    }

    /// The definition of `id`.
    pub fn get(&self, id: &ItemId) -> (r: Option<&ItemDef>)
        ensures
            match r {
                Some(def) => self@.contains_key(id@) && *def == self@[id@],
                None => !self@.contains_key(id@),
            },
    {
        self.by_id.get(id.0.as_str())
    }

    /// True iff `id` is defined.
    pub fn contains(&self, id: &ItemId) -> (r: bool)
        ensures
            r == self@.contains_key(id@),
    {
        self.by_id.contains_key(id.0.as_str())
    }

    /// Every item, each once.
    pub fn iter(&self) -> (r: Vec<&ItemDef>)
        ensures
            r@.len() == self@.dom().len(),
            forall|k: Seq<char>| #[trigger]
                self@.contains_key(k) ==> exists|i: int|
                    0 <= i < r@.len() && *(#[trigger] r@[i]) == self@[k],
            forall|i: int| 0 <= i < r@.len() ==> self@.contains_value(*(#[trigger] r@[i])),
    {
        let r = self.by_id.values();
        proof {
            assert forall|i: int| 0 <= i < r@.len() implies self@.contains_value(
                *(#[trigger] r@[i]),
            ) by {
                assert(*r@[i] == self.by_id.list()[i].value);
                assert(self@.dom().contains(self.by_id.list()[i].key@));
            }
        }
        r
    }

    /// How many items are defined.
    pub fn len(&self) -> (r: usize)
        ensures
            r == self@.dom().len(),
    {
        self.by_id.len()
    }

    /// True iff no item is defined.
    pub fn is_empty(&self) -> (r: bool)
        ensures
            r == (self@.dom().len() == 0),
    {
        self.by_id.len() == 0
    }

    /// Changes how long `id` keeps; nothing happens where `id` is not
    /// defined.
    pub fn set_perishable_for_test(&mut self, id: &ItemId, ticks: Option<u64>)
        ensures
            !old(self)@.contains_key(id@) ==> final(self)@ == old(self)@,
            old(self)@.contains_key(id@) ==> final(self)@ == old(self)@.insert(
                id@,
                (ItemDef { perishable_ticks: ticks, ..old(self)@[id@] }),
            ),
    {
        if let Some(def) = self.by_id.remove(id.0.as_str()) {
            let mut def = def;
            def.perishable_ticks = ticks;
            self.by_id.insert(id.0.clone(), def);
            proof {
                assert(self@ =~= old(self)@.insert(id@, def));
            }
        }
    }

    /// The registry without items.
    pub fn empty_for_test() -> (r: Self)
        ensures
            r@ == Map::<Seq<char>, ItemDef>::empty(),
    {
        ItemRegistry { by_id: StrMap::new() }
    }

    /// Defines an item, in place of one with the same id.
    pub fn insert_for_test(&mut self, def: ItemDef)
        ensures
            final(self)@ == old(self)@.insert(def.id@, def),
    {
        let key = def.id.clone();
        self.by_id.insert(key.0, def);
    }
}

/// The map from ids to recipes that a list stands for; of several with one
/// id the last counts.
pub open spec fn recipes_map(recipes: Seq<Recipe>) -> Map<Seq<char>, Recipe>
    decreases recipes.len(),
{
    if recipes.len() == 0 {
        Map::empty()
    } else {
        recipes_map(recipes.drop_last()).insert(recipes.last().id@, recipes.last())
    }
}

/// The ids of a list of recipes.
pub open spec fn recipe_ids(recipes: Seq<Recipe>) -> Seq<Seq<char>> {
    Seq::new(recipes.len(), |i: int| recipes[i].id@)
}

/// Every recipe, by id.
#[derive(Debug)]
pub struct RecipeRegistry {
    by_id: StrMap<Recipe>,
}

impl View for RecipeRegistry {
    type V = Map<Seq<char>, Recipe>;

    closed spec fn view(&self) -> Map<Seq<char>, Recipe> {
        self.by_id@
    }
}

impl RecipeRegistry {
    /// A registry of the given recipes, or the first id that is there twice.
    #[verifier::loop_isolation(false)]
    pub fn build(recipes: Vec<Recipe>) -> (r: Result<RecipeRegistry, String>)
        ensures
            match r {
                Ok(reg) => reg@ == recipes_map(recipes@) && forall|k: int|
                    !repeats_at(recipe_ids(recipes@), k),
                Err(id) => exists|k: int|
                    #[trigger] first_repeat(recipe_ids(recipes@), k) && id@ == recipes@[k].id@,
            },
    {
        let ghost all = recipes@;
        let ghost ids = recipe_ids(recipes@);
        let mut by_id: StrMap<Recipe> = StrMap::new();
        proof {
            assert(all.take(0) =~= Seq::<Recipe>::empty());
        }
        for d in it: recipes.into_iter()
            invariant
                it.seq() == all,
                ids == recipe_ids(all),
                by_id@ == recipes_map(all.take(it.index())),
                forall|j: int| 0 <= j < it.index() ==> by_id@.contains_key(#[trigger] ids[j]),
                forall|k: Seq<char>| #[trigger]
                    by_id@.contains_key(k) ==> exists|j: int| 0 <= j < it.index() && ids[j] == k,
                forall|j: int| 0 <= j < it.index() ==> !repeats_at(ids, j),
        {
            let ghost done = it.index();
            assert(d == all[done]);
            assert(ids[done] == d.id@);
            if by_id.contains_key(d.id.as_str()) {
                proof {
                    let j = choose|j: int| 0 <= j < done && ids[j] == d.id@;
                    assert(ids[j] == ids[done]);
                    assert(first_repeat(ids, done));
                }
                return Err(d.id);
            }
            by_id.insert(d.id.clone(), d);
            proof {
                assert(!repeats_at(ids, done));
                assert(all.take(done + 1).drop_last() =~= all.take(done));
                assert forall|k: Seq<char>| #[trigger] by_id@.contains_key(k) implies exists|j: int|
                    0 <= j < done + 1 && ids[j] == k by {
                    if k == d.id@ {
                        assert(ids[done] == k);
                    } else {
                        let j = choose|j: int| 0 <= j < done && ids[j] == k;
                        assert(ids[j] == k);
                    }
                }
            }
        }
        proof {
            assert(all.take(all.len() as int) =~= all);
        }
        Ok(RecipeRegistry { by_id })
    }

    /// The recipe with the given id.
    pub fn get(&self, id: &str) -> (r: Option<&Recipe>)
        ensures
            match r {
                Some(recipe) => self@.contains_key(id@) && *recipe == self@[id@],
                None => !self@.contains_key(id@),
            },
    {
        self.by_id.get(id)
    }

    /// Every recipe, each once.
    pub fn iter(&self) -> (r: Vec<&Recipe>)
        ensures
            r@.len() == self@.dom().len(),
            forall|k: Seq<char>| #[trigger]
                self@.contains_key(k) ==> exists|i: int|
                    0 <= i < r@.len() && *(#[trigger] r@[i]) == self@[k],
            forall|i: int| 0 <= i < r@.len() ==> self@.contains_value(*(#[trigger] r@[i])),
    {
        let r = self.by_id.values();
        proof {
            assert forall|i: int| 0 <= i < r@.len() implies self@.contains_value(
                *(#[trigger] r@[i]),
            ) by {
                assert(*r@[i] == self.by_id.list()[i].value);
                assert(self@.dom().contains(self.by_id.list()[i].key@));
            }
        }
        r
    }

    /// How many recipes there are.
    pub fn len(&self) -> (r: usize)
        ensures
            r == self@.dom().len(),
    {
        self.by_id.len()
    }

    /// True iff there is no recipe.
    pub fn is_empty(&self) -> (r: bool)
        ensures
            r == (self@.dom().len() == 0),
    {
        self.by_id.len() == 0
    }
}

/// The position of the last slot with the given id.
pub open spec fn slot_index(slots: Seq<EquipmentSlotDef>, id: Seq<char>) -> Option<int>
    decreases slots.len(),
{
    if slots.len() == 0 {
        None
    } else if slots.last().id@ == id {
        Some(slots.len() - 1)
    } else {
        slot_index(slots.drop_last(), id)
    }
}

/// The position of the last hotbar slot that claims the given index; nothing
/// claims index zero.
pub open spec fn hotbar_slot(slots: Seq<EquipmentSlotDef>, idx: u8) -> Option<int>
    decreases slots.len(),
{
    if slots.len() == 0 || idx == 0 {
        None
    } else if slots.last().is_hotbar && slots.last().hotbar_index == idx {
        Some(slots.len() - 1)
    } else {
        hotbar_slot(slots.drop_last(), idx)
    }
}

/// What is wrong with a list of slots.
#[derive(Debug, Clone, PartialEq, Eq)]
pub enum SlotLayoutError {
    /// Two slots have one id.
    DuplicateId(SlotId),
    /// A hotbar slot without a hotbar index.
    MissingHotbarIndex(SlotId),
    /// Two hotbar slots claim one index.
    DuplicateHotbarIndex(u8, SlotId),
}

/// What is wrong with the `k`-th slot, given those before it.
pub open spec fn slot_fault(slots: Seq<EquipmentSlotDef>, k: int) -> Option<SlotLayoutError> {
    let s = slots[k];
    if slot_index(slots.take(k), s.id@) is Some {
        Some(SlotLayoutError::DuplicateId(s.id))
    } else if s.is_hotbar && s.hotbar_index == 0 {
        Some(SlotLayoutError::MissingHotbarIndex(s.id))
    } else if s.is_hotbar && hotbar_slot(slots.take(k), s.hotbar_index) is Some {
        Some(SlotLayoutError::DuplicateHotbarIndex(s.hotbar_index, s.id))
    } else {
        None
    }
}

/// Every equipment slot, in the order of the paper doll.
#[derive(Debug)]
pub struct EquipmentSlotRegistry {
    slots: Vec<EquipmentSlotDef>,
}

impl View for EquipmentSlotRegistry {
    type V = Seq<EquipmentSlotDef>;

    closed spec fn view(&self) -> Seq<EquipmentSlotDef> {
        self.slots@
    }
}

/// Position of the last slot with the given id.
fn find_slot(slots: &Vec<EquipmentSlotDef>, id: &str) -> (r: Option<usize>)
    ensures
        match r {
            Some(i) => slot_index(slots@, id@) == Some(i as int) && i < slots@.len(),
            None => slot_index(slots@, id@) is None,
        },
{
    let mut n: usize = slots.len();
    proof {
        assert(slots@.take(n as int) =~= slots@);
    }
    while n > 0
        invariant
            n <= slots@.len(),
            slot_index(slots@, id@) == slot_index(slots@.take(n as int), id@),
        decreases n,
    {
        if str_eq(slots[n - 1].id.0.as_str(), id) {
            return Some(n - 1);
        }
        proof {
            assert(slots@.take(n as int).drop_last() =~= slots@.take(n - 1));
        }
        n -= 1;
    }
    None
}

/// Position of the last hotbar slot that claims the given index.
fn find_hotbar(slots: &Vec<EquipmentSlotDef>, idx: u8) -> (r: Option<usize>)
    ensures
        match r {
            Some(i) => hotbar_slot(slots@, idx) == Some(i as int) && i < slots@.len(),
            None => hotbar_slot(slots@, idx) is None,
        },
{
    if idx == 0 {
        return None;
    }
    let mut n: usize = slots.len();
    proof {
        assert(slots@.take(n as int) =~= slots@);
    }
    while n > 0
        invariant
            idx != 0,
            n <= slots@.len(),
            hotbar_slot(slots@, idx) == hotbar_slot(slots@.take(n as int), idx),
        decreases n,
    {
        if slots[n - 1].is_hotbar && slots[n - 1].hotbar_index == idx {
            return Some(n - 1);
        }
        proof {
            assert(slots@.take(n as int).drop_last() =~= slots@.take(n - 1));
        }
        n -= 1;
    }
    None
}

impl EquipmentSlotRegistry {
    /// A registry of the given slots, or the first thing that is wrong with
    /// them.
    #[verifier::loop_isolation(false)]
    pub fn build(slots: Vec<EquipmentSlotDef>) -> (r: Result<EquipmentSlotRegistry, SlotLayoutError>)
        ensures
            match r {
                Ok(reg) => reg@ == slots@ && forall|k: int|
                    0 <= k < slots@.len() ==> slot_fault(slots@, k) is None,
                Err(e) => exists|k: int|
                    0 <= k < slots@.len() && slot_fault(slots@, k) == Some(e) && forall|j: int|
                        0 <= j < k ==> slot_fault(slots@, j) is None,
            },
    {
        let ghost all = slots@;
        let mut seen: Vec<EquipmentSlotDef> = Vec::new();
        for s in it: slots.into_iter()
            invariant
                it.seq() == all,
                seen@ =~= all.take(it.index()),
                forall|j: int| 0 <= j < it.index() ==> slot_fault(all, j) is None,
        {
            let ghost k = it.index();
            assert(s == all[k]);
            if find_slot(&seen, s.id.0.as_str()).is_some() {
                assert(slot_fault(all, k) == Some(SlotLayoutError::DuplicateId(s.id)));
                return Err(SlotLayoutError::DuplicateId(s.id));
            }
            if s.is_hotbar {
                if s.hotbar_index == 0 {
                    assert(slot_fault(all, k) == Some(SlotLayoutError::MissingHotbarIndex(s.id)));
                    return Err(SlotLayoutError::MissingHotbarIndex(s.id));
                }
                if find_hotbar(&seen, s.hotbar_index).is_some() {
                    assert(slot_fault(all, k) == Some(
                        SlotLayoutError::DuplicateHotbarIndex(s.hotbar_index, s.id),
                    ));
                    return Err(SlotLayoutError::DuplicateHotbarIndex(s.hotbar_index, s.id));
                }
            }
            assert(slot_fault(all, k) is None);
            seen.push(s);
        }
        proof {
            assert(all.take(all.len() as int) =~= all);
        }
        Ok(EquipmentSlotRegistry { slots: seen })
    }

    /// The slot with the given id; of several the last.
    pub fn get(&self, id: &SlotId) -> (r: Option<&EquipmentSlotDef>)
        ensures
            match r {
                Some(s) => slot_index(self@, id@) is Some && *s == self@[slot_index(self@, id@)->0],
                None => slot_index(self@, id@) is None,
            },
    {
        match find_slot(&self.slots, id.0.as_str()) {
            Some(i) => Some(&self.slots[i]),
            None => None,
        }
    }

    /// Every slot, in order.
    pub fn iter(&self) -> (r: &[EquipmentSlotDef])
        ensures
            r@ == self@,
    {
        self.slots.as_slice()
    }

    /// How many slots there are.
    pub fn len(&self) -> (r: usize)
        ensures
            r == self@.len(),
    {
        self.slots.len()
    }

    /// True iff there is no slot.
    pub fn is_empty(&self) -> (r: bool)
        ensures
            r == (self@.len() == 0),
    {
        self.slots.len() == 0
    }

    /// The slot that claims the given one-based hotbar index; of several the
    /// last.
    pub fn by_hotbar_index(&self, idx: u8) -> (r: Option<&EquipmentSlotDef>)
        ensures
            match r {
                Some(s) => hotbar_slot(self@, idx) is Some && *s == self@[hotbar_slot(
                    self@,
                    idx,
                )->0],
                None => hotbar_slot(self@, idx) is None,
            },
    {
        match find_hotbar(&self.slots, idx) {
            Some(i) => Some(&self.slots[i]),
            None => None,
        }
    }

    /// What [`EquipmentSlotRegistry::can_equip`] decides.
    pub open spec fn equippable(self, slot_id: Seq<char>, def: ItemDef) -> bool {
        match slot_index(self@, slot_id) {
            None => false,
            Some(i) => if def.equip_slots@.len() > 0 {
                exists|k: int| 0 <= k < def.equip_slots@.len() && (#[trigger] def.equip_slots@[k])@
                    == slot_id
            } else {
                self@[i].accepts@.contains(def.category)
            },
        }
    }

    /// True iff the item may go in the slot. An item that lists slots goes in
    /// those alone; any other goes where its category is accepted. Nothing
    /// goes in a slot that does not exist.
    #[verifier::loop_isolation(false)]
    pub fn can_equip(&self, slot_id: &SlotId, def: &ItemDef) -> (r: bool)
        ensures
            r == self.equippable(slot_id@, *def),
    {
        let slot = match self.get(slot_id) {
            Some(s) => s,
            None => {
                return false;
            },
        };
        if def.equip_slots.len() > 0 {
            let mut k: usize = 0;
            while k < def.equip_slots.len()
                invariant
                    k <= def.equip_slots@.len(),
                    forall|j: int| 0 <= j < k ==> (#[trigger] def.equip_slots@[j])@ != slot_id@,
                decreases def.equip_slots@.len() - k,
            {
                if str_eq(def.equip_slots[k].0.as_str(), slot_id.0.as_str()) {
                    return true;
                }
                k += 1;
            }
            return false;
        }
        let mut k: usize = 0;
        while k < slot.accepts.len()
            invariant
                k <= slot.accepts@.len(),
                forall|j: int| 0 <= j < k ==> slot.accepts@[j] != def.category,
            decreases slot.accepts@.len() - k,
        {
            if slot.accepts[k] == def.category {
                assert(slot.accepts@[k as int] == def.category);
                return true;
            }
            k += 1;
        }
        false
    }

    /// The registry without slots.
    pub fn empty_for_test() -> (r: Self)
        ensures
            r@ == Seq::<EquipmentSlotDef>::empty(),
    {
        EquipmentSlotRegistry { slots: Vec::new() }
    }

    /// Adds a slot after the others. Look-ups by its id and hotbar index find
    /// it from then on.
    pub fn insert_for_test(&mut self, def: EquipmentSlotDef)
        ensures
            final(self)@ == old(self)@.push(def),
    {
        self.slots.push(def);
    }
}

/// A whitelist of slots overrides what the slot accepts.
pub proof fn law_whitelist_overrides_category(
    reg: EquipmentSlotRegistry,
    slot_id: Seq<char>,
    def: ItemDef,
)
    requires
        def.equip_slots@.len() > 0,
        slot_index(reg@, slot_id) is Some,
    ensures
        reg.equippable(slot_id, def) <==> exists|k: int|
            0 <= k < def.equip_slots@.len() && (#[trigger] def.equip_slots@[k])@ == slot_id,
{
}

/// In a registry without faults every slot is found by its id, and every
/// hotbar slot by its index.
pub proof fn law_sound_layout_lookups(slots: Seq<EquipmentSlotDef>, k: int)
    requires
        forall|j: int| 0 <= j < slots.len() ==> slot_fault(slots, j) is None,
        0 <= k < slots.len(),
    ensures
        slot_index(slots, slots[k].id@) == Some(k),
        slots[k].is_hotbar ==> hotbar_slot(slots, slots[k].hotbar_index) == Some(k),
    decreases slots.len(),
{
    let last = slots.len() - 1;
    assert(slots.take(last) =~= slots.drop_last());
    if k < last {
        let init = slots.drop_last();
        assert forall|j: int| 0 <= j < init.len() implies slot_fault(init, j) is None by {
            assert(init.take(j) =~= slots.take(j));
            assert(slot_fault(slots, j) is None);
        }
        law_sound_layout_lookups(init, k);
        assert(slot_fault(slots, last) is None);
        assert(init[k] == slots[k]);
    } else {
        assert(slot_fault(slots, last) is None);
    }
}

/// What [`AttachmentError`] says, over the text of ids and tags.
pub enum ChainError {
    UnknownItem(Seq<char>),
    NotAnAttachment(Seq<char>),
    NotAWeapon(Seq<char>),
    NoMatchingSlot { attachment: Seq<char>, needed_tag: Seq<char> },
    TagAlreadyConsumed { attachment: Seq<char>, attached: Seq<char>, tag: Seq<char> },
}

impl View for AttachmentError {
    type V = ChainError;

    open spec fn view(&self) -> ChainError {
        match *self {
            AttachmentError::UnknownItem(id) => ChainError::UnknownItem(id@),
            AttachmentError::NotAnAttachment(id) => ChainError::NotAnAttachment(id@),
            AttachmentError::NotAWeapon(id) => ChainError::NotAWeapon(id@),
            AttachmentError::NoMatchingSlot { attachment, needed_tag } => ChainError::NoMatchingSlot {
                attachment: attachment@,
                needed_tag: needed_tag@,
            },
            AttachmentError::TagAlreadyConsumed {
                attachment,
                attached,
                tag,
            } => ChainError::TagAlreadyConsumed {
                attachment: attachment@,
                attached: attached@,
                tag: tag@,
            },
        }
    }
}

/// The tags of all slots of a weapon, slot after slot.
pub open spec fn slot_tags(slots: Seq<WeaponSlot>) -> Seq<Seq<char>>
    decreases slots.len(),
{
    if slots.len() == 0 {
        Seq::empty()
    } else {
        slot_tags(slots.drop_last()) + views(slots.last().tags@)
    }
}

/// A pool of tags without the one at `p`, whose place the last one takes.
pub open spec fn swap_out(pool: Seq<Seq<char>>, p: int) -> Seq<Seq<char>> {
    pool.update(p, pool.last()).drop_last()
}

/// The ids of a list of attachments.
pub open spec fn id_views(ids: Seq<ItemId>) -> Seq<Seq<char>> {
    Seq::new(ids.len(), |i: int| ids[i]@)
}

/// What becomes of the pool of tags when the attachments are put on one after
/// the other. `claims` says which attachment took a tag last.
pub open spec fn attach_all(
    items: Map<Seq<char>, ItemDef>,
    pool: Seq<Seq<char>>,
    claims: Map<Seq<char>, Seq<char>>,
    attachments: Seq<Seq<char>>,
) -> Result<Seq<Seq<char>>, ChainError>
    decreases attachments.len(),
{
    if attachments.len() == 0 {
        Ok(pool)
    } else {
        let id = attachments[0];
        if !items.contains_key(id) {
            Err(ChainError::UnknownItem(id))
        } else {
            match items[id].attachment_config {
                None => Err(ChainError::NotAnAttachment(id)),
                Some(cfg) => {
                    let tag = cfg.consumes_tag@;
                    if pool.contains(tag) {
                        attach_all(
                            items,
                            swap_out(pool, pool.index_of_first(tag)->0) + views(
                                cfg.provides_tags@,
                            ),
                            claims.insert(tag, id),
                            attachments.drop_first(),
                        )
                    } else if claims.contains_key(tag) {
                        Err(
                            ChainError::TagAlreadyConsumed {
                                attachment: id,
                                attached: claims[tag],
                                tag,
                            },
                        )
                    } else {
                        Err(ChainError::NoMatchingSlot { attachment: id, needed_tag: tag })
                    }
                },
            }
        }
    }
}

/// What [`validate_attachment_chain`] returns.
pub open spec fn chain_result(
    items: Map<Seq<char>, ItemDef>,
    weapon: Seq<char>,
    attachments: Seq<Seq<char>>,
) -> Result<Seq<Seq<char>>, ChainError> {
    if !items.contains_key(weapon) {
        Err(ChainError::UnknownItem(weapon))
    } else {
        match items[weapon].weapon_config {
            None => Err(ChainError::NotAWeapon(weapon)),
            Some(cfg) => attach_all(items, slot_tags(cfg.slots@), Map::empty(), attachments),
        }
    }
}

/// Position of the first occurrence of a tag.
fn find_tag(pool: &Vec<String>, tag: &str) -> (r: Option<usize>)
    ensures
        match r {
            Some(p) => p < pool@.len() && pool@[p as int]@ == tag@ && views(pool@).contains(tag@)
                && views(pool@).index_of_first(tag@) == Some(p as int),
            None => !views(pool@).contains(tag@),
        },
{
    let mut p: usize = 0;
    while p < pool.len()
        invariant
            p <= pool@.len(),
            forall|j: int| 0 <= j < p ==> (#[trigger] pool@[j])@ != tag@,
        decreases pool@.len() - p,
    {
        if str_eq(pool[p].as_str(), tag) {
            proof {
                views(pool@).index_of_first_ensures(tag@);
                assert(views(pool@)[p as int] == tag@);
                let q = views(pool@).index_of_first(tag@)->0;
                assert(views(pool@)[q] == tag@);
                if q < p {
                    assert(pool@[q]@ != tag@);
                }
            }
            return Some(p);
        }
        p += 1;
    }
    None
}

/// Checks a chain of attachments against a weapon. The weapon's tags start
/// the pool; each attachment takes the first occurrence of the tag it
/// consumes and adds those it provides. Returns the tags left over, or the
/// first thing that is wrong.
#[verifier::loop_isolation(false)]
pub fn validate_attachment_chain(
    registry: &ItemRegistry,
    weapon_id: &ItemId,
    attachments: &[ItemId],
) -> (r: Result<Vec<String>, AttachmentError>)
    ensures
        match r {
            Ok(pool) => chain_result(registry@, weapon_id@, id_views(attachments@)) == Ok::<
                Seq<Seq<char>>,
                ChainError,
            >(views(pool@)),
            Err(e) => chain_result(registry@, weapon_id@, id_views(attachments@)) == Err::<
                Seq<Seq<char>>,
                ChainError,
            >(e@),
        },
{
    let weapon = match registry.get(weapon_id) {
        Some(def) => def,
        None => {
            return Err(AttachmentError::UnknownItem(weapon_id.clone()));
        },
    };
    let config = match &weapon.weapon_config {
        Some(config) => config,
        None => {
            return Err(AttachmentError::NotAWeapon(weapon_id.clone()));
        },
    };
    let mut pool: Vec<String> = Vec::new();
    let mut s: usize = 0;
    proof {
        assert(config.slots@.take(0) =~= Seq::<WeaponSlot>::empty());
        assert(views(pool@) =~= Seq::<Seq<char>>::empty());
    }
    while s < config.slots.len()
        invariant
            s <= config.slots@.len(),
            views(pool@) == slot_tags(config.slots@.take(s as int)),
        decreases config.slots@.len() - s,
    {
        let tags = &config.slots[s].tags;
        let ghost start = views(pool@);
        let mut t: usize = 0;
        proof {
            assert(start + views(tags@).take(0) =~= start);
        }
        while t < tags.len()
            invariant
                t <= tags@.len(),
                views(pool@) == start + views(tags@).take(t as int),
            decreases tags@.len() - t,
        {
            let ghost before = pool@;
            pool.push(tags[t].clone());
            proof {
                assert(views(pool@) =~= views(before).push(tags@[t as int]@));
                assert(views(tags@).take(t + 1) =~= views(tags@).take(t as int).push(
                    tags@[t as int]@,
                ));
                assert(views(pool@) =~= start + views(tags@).take(t + 1));
            }
            t += 1;
        }
        proof {
            assert(views(tags@).take(t as int) =~= views(tags@));
            let grown = config.slots@.take(s + 1);
            assert(grown.drop_last() =~= config.slots@.take(s as int));
            assert(grown.last() == config.slots@[s as int]);
        }
        s += 1;
    }
    proof {
        assert(config.slots@.take(s as int) =~= config.slots@);
    }
    let mut claims: StrMap<ItemId> = StrMap::new();
    let ghost mut claim_ids: Map<Seq<char>, Seq<char>> = Map::empty();
    let ghost ids = id_views(attachments@);
    let mut a: usize = 0;
    proof {
        assert(ids.skip(0) =~= ids);
    }
    while a < attachments.len()
        invariant
            a <= attachments@.len(),
            ids == id_views(attachments@),
            claims@.dom() == claim_ids.dom(),
            forall|k: Seq<char>| #[trigger]
                claims@.contains_key(k) ==> claims@[k]@ == claim_ids[k],
            chain_result(registry@, weapon_id@, ids) == attach_all(
                registry@,
                views(pool@),
                claim_ids,
                ids.skip(a as int),
            ),
        decreases attachments@.len() - a,
    {
        let attach_id = &attachments[a];
        proof {
            assert(ids.skip(a as int)[0] == attach_id@);
            assert(ids.skip(a as int).drop_first() =~= ids.skip(a + 1));
        }
        let def = match registry.get(attach_id) {
            Some(def) => def,
            None => {
                return Err(AttachmentError::UnknownItem(attach_id.clone()));
            },
        };
        let cfg = match &def.attachment_config {
            Some(cfg) => cfg,
            None => {
                return Err(AttachmentError::NotAnAttachment(attach_id.clone()));
            },
        };
        let p = match find_tag(&pool, cfg.consumes_tag.as_str()) {
            Some(p) => p,
            None => {
                return match claims.get(cfg.consumes_tag.as_str()) {
                    Some(earlier) => Err(
                        AttachmentError::TagAlreadyConsumed {
                            attachment: attach_id.clone(),
                            attached: earlier.clone(),
                            tag: cfg.consumes_tag.clone(),
                        },
                    ),
                    None => Err(
                        AttachmentError::NoMatchingSlot {
                            attachment: attach_id.clone(),
                            needed_tag: cfg.consumes_tag.clone(),
                        },
                    ),
                };
            },
        };
        let ghost before = pool@;
        let consumed = pool.swap_remove(p);
        proof {
            assert(views(pool@) =~= swap_out(views(before), p as int));
            assert(consumed@ == views(before)[p as int]);
        }
        claims.insert(consumed, attach_id.clone());
        proof {
            claim_ids = claim_ids.insert(cfg.consumes_tag@, attach_id@);
        }
        let ghost start = views(pool@);
        let mut t: usize = 0;
        proof {
            assert(start + views(cfg.provides_tags@).take(0) =~= start);
        }
        while t < cfg.provides_tags.len()
            invariant
                t <= cfg.provides_tags@.len(),
                views(pool@) == start + views(cfg.provides_tags@).take(t as int),
            decreases cfg.provides_tags@.len() - t,
        {
            let ghost before = pool@;
            pool.push(cfg.provides_tags[t].clone());
            proof {
                let tags = views(cfg.provides_tags@);
                assert(views(pool@) =~= views(before).push(tags[t as int]));
                assert(tags.take(t + 1) =~= tags.take(t as int).push(tags[t as int]));
                assert(views(pool@) =~= start + tags.take(t + 1));
            }
            t += 1;
        }
        proof {
            assert(views(cfg.provides_tags@).take(t as int) =~= views(cfg.provides_tags@));
        }
        a += 1;
    }
    Ok(pool)
}

/// How often a tag is consumed, less how often it is provided, by a list of
/// attachments.
pub open spec fn net_consumed(
    items: Map<Seq<char>, ItemDef>,
    attachments: Seq<Seq<char>>,
    tag: Seq<char>,
) -> int
    decreases attachments.len(),
{
    if attachments.len() == 0 {
        0
    } else {
        let cfg = items[attachments[0]].attachment_config->0;
        (if cfg.consumes_tag@ == tag {
            1int
        } else {
            0int
        }) - views(cfg.provides_tags@).to_multiset().count(tag) + net_consumed(
            items,
            attachments.drop_first(),
            tag,
        )
    }
}

/// Each attachment of an accepted chain takes one occurrence of the tag it
/// consumes and adds the tags it provides: of every tag the pool loses as
/// many as are consumed and gains as many as are provided.
pub proof fn law_chain_accounts_for_every_tag(
    items: Map<Seq<char>, ItemDef>,
    pool: Seq<Seq<char>>,
    claims: Map<Seq<char>, Seq<char>>,
    attachments: Seq<Seq<char>>,
    tag: Seq<char>,
)
    requires
        attach_all(items, pool, claims, attachments) is Ok,
    ensures
        attach_all(items, pool, claims, attachments)->Ok_0.to_multiset().count(tag)
            == pool.to_multiset().count(tag) - net_consumed(items, attachments, tag),
    decreases attachments.len(),
{
    broadcast use vstd::seq_lib::group_to_multiset_ensures;

    if attachments.len() > 0 {
        let id = attachments[0];
        let cfg = items[id].attachment_config->0;
        let t = cfg.consumes_tag@;
        pool.index_of_first_ensures(t);
        let p = pool.index_of_first(t)->0;
        let next = swap_out(pool, p) + views(cfg.provides_tags@);
        lemma_swap_out_multiset(pool, p);
        vstd::seq_lib::lemma_multiset_commutative(swap_out(pool, p), views(cfg.provides_tags@));
        law_chain_accounts_for_every_tag(
            items,
            next,
            claims.insert(t, id),
            attachments.drop_first(),
            tag,
        );
        assert(pool.to_multiset().count(t) > 0) by {
            assert(pool.contains(t));
        }
    }
}

proof fn lemma_swap_out_multiset(pool: Seq<Seq<char>>, p: int)
    requires
        0 <= p < pool.len(),
    ensures
        swap_out(pool, p).to_multiset() == pool.to_multiset().remove(pool[p]),
{
    broadcast use vstd::seq_lib::group_to_multiset_ensures;

    let init = pool.drop_last();
    assert(pool =~= init.push(pool.last()));
    assert(pool.to_multiset() =~= init.to_multiset().insert(pool.last()));
    if p == pool.len() - 1 {
        assert(swap_out(pool, p) =~= init);
        assert(swap_out(pool, p).to_multiset() =~= pool.to_multiset().remove(pool[p]));
    } else {
        assert(swap_out(pool, p) =~= init.update(p, pool.last()));
        assert(init[p] == pool[p]);
        assert(init.contains(init[p]));
        vstd::seq_lib::to_multiset_update(init, p, pool.last());
        assert(swap_out(pool, p).to_multiset() =~= pool.to_multiset().remove(pool[p]));
    }
}

/// A weapon at or above its threshold never jams, one that is worn out jams as
/// often as it can, and in between it is as given, from never to that.
pub proof fn law_worn_weapons_jam(condition: F32Bits, cfg: WeaponConfig, between: F32Bits)
    ensures
        cfg.jam_threshold.at_most(condition) ==> jam_chance(condition, cfg, between) == F32Bits(0),
        condition.less(cfg.jam_threshold) && condition.at_most(F32Bits(0)) ==> jam_chance(
            condition,
            cfg,
            between,
        ) == cfg.jam_chance_floor,
        condition.less(cfg.jam_threshold) && F32Bits(0).less(condition) ==> {
            let r = jam_chance(condition, cfg, between);
            &&& between.less(F32Bits(0)) ==> r == F32Bits(0)
            &&& F32Bits(0).at_most(between) && between.at_most(cfg.jam_chance_floor) ==> r
                == between
            &&& F32Bits(0).at_most(between) && cfg.jam_chance_floor.less(between) ==> r
                == cfg.jam_chance_floor
        },
{
}

/// Every kind of round has a name of its own.
pub proof fn law_rounds_have_names(a: AmmoVariant, b: AmmoVariant)
    ensures
        a.name() == b.name() ==> a == b,
        a is Ap ==> a.name() == "ap"@,
        a is Hp ==> a.name() == "hp"@,
        a is Fmj ==> a.name() == "fmj"@,
{
    reveal_strlit("fmj");
    reveal_strlit("hp");
    reveal_strlit("ap");
    reveal_strlit("tracer");
    reveal_strlit("overpressure");
    assert("fmj"@.len() == 3 && "tracer"@.len() == 6 && "overpressure"@.len() == 12);
    assert("hp"@[0] == 'h' && "ap"@[0] == 'a' && "hp"@.len() == 2 && "ap"@.len() == 2);
}

/// Counts multiply as far as 32 bits reach.
pub proof fn law_products_saturate(a: u32, b: u32)
    ensures
        a * b <= 0xffff_ffff ==> saturating_product(a, b) == a * b,
        a * b > 0xffff_ffff ==> saturating_product(a, b) == 0xffff_ffff,
{
}

/// On its side an item is as wide as it was high and as high as it was wide.
pub proof fn law_turning_swaps_sides(s: GridSize)
    ensures
        s.turned().w == s.h,
        s.turned().h == s.w,
{
}

/// What is put on a wound is put on a body part; what is eaten, drunk or taken
/// is not.
pub proof fn law_dressings_go_on_body_parts(a: ConsumeAction)
    ensures
        a is Eat || a is Drink || a is ApplyDrug || a is ApplyAntibiotics <==> !a.targets_limb(),
{
}

/// Benches rank one, two and three; a campfire is none.
pub proof fn law_benches_rank(a: CraftStation)
    ensures
        a is Campfire <==> a.rank() is None,
        CraftStation::BasicBench.rank() == Some(1u8),
        CraftStation::AdvancedBench.rank() == Some(2u8),
        CraftStation::ExpertBench.rank() == Some(3u8),
{
}

/// Of several definitions with one id, and of several recipes, the last counts.
pub proof fn law_last_of_an_id_counts(
    defs: Seq<ItemDef>,
    d: ItemDef,
    recipes: Seq<Recipe>,
    r: Recipe,
    id: Seq<char>,
)
    ensures
        defs_map(defs.push(d)).contains_key(d.id@) && defs_map(defs.push(d))[d.id@] == d,
        id != d.id@ ==> defs_map(defs.push(d)).contains_key(id) == defs_map(defs).contains_key(id),
        id != d.id@ && defs_map(defs).contains_key(id) ==> defs_map(defs.push(d))[id] == defs_map(
            defs,
        )[id],
        recipes_map(recipes.push(r)).contains_key(r.id@) && recipes_map(recipes.push(r))[r.id@] == r,
        id != r.id@ ==> recipes_map(recipes.push(r)).contains_key(id) == recipes_map(
            recipes,
        ).contains_key(id),
        id != r.id@ && recipes_map(recipes).contains_key(id) ==> recipes_map(recipes.push(r))[id]
            == recipes_map(recipes)[id],
        defs_map(Seq::empty()).dom() =~= Set::<Seq<char>>::empty(),
        recipes_map(Seq::empty()).dom() =~= Set::<Seq<char>>::empty(),
{
    assert(defs.push(d).drop_last() =~= defs);
    assert(recipes.push(r).drop_last() =~= recipes);
}

/// A slot is found where one has the id, at the last such; a hotbar slot where
/// one claims the index, which is never zero.
pub proof fn law_slots_are_found(
    slots: Seq<EquipmentSlotDef>,
    s: EquipmentSlotDef,
    id: Seq<char>,
    idx: u8,
)
    ensures
        s.id@ == id ==> slot_index(slots.push(s), id) == Some(slots.len() as int),
        s.id@ != id ==> slot_index(slots.push(s), id) == slot_index(slots, id),
        slot_index(Seq::empty(), id) is None,
        idx != 0 && s.is_hotbar && s.hotbar_index == idx ==> hotbar_slot(slots.push(s), idx) == Some(
            slots.len() as int,
        ),
        idx != 0 && !(s.is_hotbar && s.hotbar_index == idx) ==> hotbar_slot(slots.push(s), idx)
            == hotbar_slot(slots, idx),
        hotbar_slot(slots, 0) is None,
        hotbar_slot(Seq::empty(), idx) is None,
{
    assert(slots.push(s).drop_last() =~= slots);
}

/// A slot is at fault iff one before it has its id, or it is of the hotbar and
/// claims no index or one that is claimed; the id is looked at first.
pub proof fn law_slot_faults(slots: Seq<EquipmentSlotDef>, k: int, j: int)
    requires
        0 <= j < k < slots.len(),
    ensures
        ({
            let s = slots[k];
            let f = slot_fault(slots, k);
            &&& slots[j].id@ == s.id@ ==> f == Some(SlotLayoutError::DuplicateId(s.id))
            &&& s.is_hotbar && s.hotbar_index == 0 ==> f is Some
            &&& s.is_hotbar && slots[j].is_hotbar && slots[j].hotbar_index == s.hotbar_index ==> f
                is Some
            &&& f == Some(SlotLayoutError::DuplicateId(s.id)) ==> exists|i: int|
                0 <= i < k && (#[trigger] slots[i]).id@ == s.id@
            &&& !s.is_hotbar && f is Some ==> f == Some(SlotLayoutError::DuplicateId(s.id))
            &&& s.is_hotbar && s.hotbar_index == 0 && f != Some(
                SlotLayoutError::DuplicateId(s.id),
            ) ==> f == Some(SlotLayoutError::MissingHotbarIndex(s.id))
        }),
{
    let before = slots.take(k);
    lemma_slot_found(before, slots[k].id@, j);
    lemma_slot_real(before, slots[k].id@);
    lemma_hotbar_found(before, slots[k].hotbar_index, j);
    if slot_index(before, slots[k].id@) is Some {
        let i = slot_index(before, slots[k].id@)->0;
        assert(slots[i].id@ == slots[k].id@);
    }
}

proof fn lemma_slot_found(slots: Seq<EquipmentSlotDef>, id: Seq<char>, j: int)
    requires
        0 <= j < slots.len(),
    ensures
        slots[j].id@ == id ==> slot_index(slots, id) is Some,
    decreases slots.len(),
{
    if j < slots.len() - 1 {
        lemma_slot_found(slots.drop_last(), id, j);
    }
}

proof fn lemma_slot_real(slots: Seq<EquipmentSlotDef>, id: Seq<char>)
    ensures
        slot_index(slots, id) matches Some(i) ==> 0 <= i < slots.len() && slots[i].id@ == id,
    decreases slots.len(),
{
    if slots.len() > 0 {
        lemma_slot_real(slots.drop_last(), id);
    }
}

proof fn lemma_hotbar_found(slots: Seq<EquipmentSlotDef>, idx: u8, j: int)
    requires
        0 <= j < slots.len(),
    ensures
        idx != 0 && slots[j].is_hotbar && slots[j].hotbar_index == idx ==> hotbar_slot(slots, idx)
            is Some,
    decreases slots.len(),
{
    if j < slots.len() - 1 {
        lemma_hotbar_found(slots.drop_last(), idx, j);
    }
}

/// Nothing goes into a slot that is not there; an item without a list of slots
/// goes into those that accept its category.
pub proof fn law_categories_decide_without_a_list(
    reg: EquipmentSlotRegistry,
    slot_id: Seq<char>,
    def: ItemDef,
)
    ensures
        slot_index(reg@, slot_id) is None ==> !reg.equippable(slot_id, def),
        def.equip_slots@.len() == 0 ==> (slot_index(reg@, slot_id) matches Some(i) ==> (
        reg.equippable(slot_id, def) <==> reg@[i].accepts@.contains(def.category))),
{
}

/// An attachment is refused where it is not known, is none, or no slot for it
/// is free; then it is told whether another has taken the last one.
pub proof fn law_attachments_are_refused_for_cause(
    items: Map<Seq<char>, ItemDef>,
    pool: Seq<Seq<char>>,
    claims: Map<Seq<char>, Seq<char>>,
    attachments: Seq<Seq<char>>,
)
    requires
        attachments.len() > 0,
    ensures
        ({
            let id = attachments[0];
            let r = attach_all(items, pool, claims, attachments);
            &&& !items.contains_key(id) ==> r == Err::<Seq<Seq<char>>, ChainError>(
                ChainError::UnknownItem(id),
            )
            &&& items.contains_key(id) && items[id].attachment_config is None ==> r == Err::<
                Seq<Seq<char>>,
                ChainError,
            >(ChainError::NotAnAttachment(id))
            &&& items.contains_key(id) ==> (items[id].attachment_config matches Some(cfg) ==> {
                let tag = cfg.consumes_tag@;
                &&& !pool.contains(tag) && claims.contains_key(tag) ==> r == Err::<
                    Seq<Seq<char>>,
                    ChainError,
                >(
                    ChainError::TagAlreadyConsumed {
                        attachment: id,
                        attached: claims[tag],
                        tag,
                    },
                )
                &&& !pool.contains(tag) && !claims.contains_key(tag) ==> r == Err::<
                    Seq<Seq<char>>,
                    ChainError,
                >(ChainError::NoMatchingSlot { attachment: id, needed_tag: tag })
                &&& pool.contains(tag) && attachments.len() == 1 ==> r is Ok
            })
        }),
{
    reveal_with_fuel(attach_all, 2);
    if attachments.len() == 1 {
        assert(attachments.drop_first() =~= Seq::<Seq<char>>::empty());
    }
}

/// A chain starts from a weapon and the tags of all its slots.
pub proof fn law_chains_start_from_a_weapon(
    items: Map<Seq<char>, ItemDef>,
    weapon: Seq<char>,
    slots: Seq<WeaponSlot>,
    s: WeaponSlot,
)
    ensures
        !items.contains_key(weapon) ==> chain_result(items, weapon, Seq::empty()) == Err::<
            Seq<Seq<char>>,
            ChainError,
        >(ChainError::UnknownItem(weapon)),
        items.contains_key(weapon) && items[weapon].weapon_config is None ==> chain_result(
            items,
            weapon,
            Seq::empty(),
        ) == Err::<Seq<Seq<char>>, ChainError>(ChainError::NotAWeapon(weapon)),
        items.contains_key(weapon) ==> (items[weapon].weapon_config matches Some(cfg)
            ==> chain_result(items, weapon, Seq::empty()) == Ok::<Seq<Seq<char>>, ChainError>(
            slot_tags(cfg.slots@),
        )),
        slot_tags(slots.push(s)) == slot_tags(slots) + views(s.tags@),
        slot_tags(Seq::empty()).len() == 0,
{
    assert(slots.push(s).drop_last() =~= slots);
}

} // verus!
