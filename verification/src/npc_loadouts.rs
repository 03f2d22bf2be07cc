//! What NPCs carry when they come into the world.
use vstd::prelude::*;

use crate::components::{GridInventory, ItemInstance, PlacedItem};
use crate::float_bits::{F32Bits, F32_ONE, F32_ZERO};
use crate::inventory_grid::{
    edges_fit, grant_or_merge, granted_all, law_valid_edges_fit, units_of, valid,
};
use crate::items::{ItemDef, ItemId, ItemRegistry};
use crate::strmap::StrMap;

verus! {

/// One thing that an NPC may carry.
#[derive(Debug)]
pub struct LoadoutRoll {
    pub id: ItemId,
    pub count: u32,
    /// From zero to one, for certain.
    pub chance: F32Bits,
}

impl LoadoutRoll {
    /// The NPC carries it for certain.
    pub open spec fn certain(self) -> bool {
        F32Bits(F32_ONE).at_most(self.chance)
    }

    /// True iff the NPC carries it for certain.
    fn is_certain(&self) -> (r: bool)
        ensures
            r == self.certain(),
    {
        F32Bits(F32_ONE).le(self.chance)
    }
}

/// Everything that NPCs of a faction may carry.
#[derive(Debug)]
pub struct Loadout {
    pub rolls: Vec<LoadoutRoll>,
}

/// How many draws the first `n` rolls need: one for each that is of something
/// and not certain.
pub open spec fn draws_used(rolls: Seq<LoadoutRoll>, n: int) -> int
    decreases n,
{
    if n <= 0 {
        0
    } else if rolls[n - 1].count > 0 && !rolls[n - 1].certain() {
        draws_used(rolls, n - 1) + 1
    } else {
        draws_used(rolls, n - 1)
    }
}

/// The roll lands.
pub open spec fn lands(rolls: Seq<LoadoutRoll>, draws: Seq<F32Bits>, i: int) -> bool {
    rolls[i].count > 0 && (rolls[i].certain() || draws[draws_used(rolls, i)].less(rolls[i].chance))
}

/// What the first `n` rolls give.
pub open spec fn carried(rolls: Seq<LoadoutRoll>, draws: Seq<F32Bits>, n: int) -> Seq<
    (ItemId, u32),
>
    decreases n,
{
    if n <= 0 {
        Seq::empty()
    } else if lands(rolls, draws, n - 1) {
        carried(rolls, draws, n - 1).push((rolls[n - 1].id, rolls[n - 1].count))
    } else {
        carried(rolls, draws, n - 1)
    }
}

/// More rolls need no fewer draws.
proof fn lemma_draws_used(rolls: Seq<LoadoutRoll>, n: int, m: int)
    requires
        0 <= n <= m,
    ensures
        0 <= draws_used(rolls, n) <= draws_used(rolls, m) <= m,
    decreases m,
{
    if n < m {
        lemma_draws_used(rolls, n, m - 1);
    } else if n > 0 {
        lemma_draws_used(rolls, n - 1, m - 1);
    }
}

impl Loadout {
    /// How many draws between zero and one the loadout needs.
    pub fn draws_needed(&self) -> (r: usize)
        ensures
            r == draws_used(self.rolls@, self.rolls@.len() as int),
    {
        let mut used: usize = 0;
        let mut i: usize = 0;
        while i < self.rolls.len()
            invariant
                i <= self.rolls@.len(),
                used <= i,
                used == draws_used(self.rolls@, i as int),
            decreases self.rolls@.len() - i,
        {
            if self.rolls[i].count > 0 && !self.rolls[i].is_certain() {
                used += 1;
            }
            i += 1;
        }
        used
    }

    /// What an NPC carries, from what was drawn for it: what is certain, and
    /// what the draws fall short of the chance of.
    pub fn generate(&self, draws: &Vec<F32Bits>) -> (r: Vec<(ItemId, u32)>)
        requires
            draws@.len() >= draws_used(self.rolls@, self.rolls@.len() as int),
        ensures
            r@ == carried(self.rolls@, draws@, self.rolls@.len() as int),
    {
        let mut out: Vec<(ItemId, u32)> = Vec::new();
        let mut used: usize = 0;
        let mut i: usize = 0;
        while i < self.rolls.len()
            invariant
                i <= self.rolls@.len(),
                draws@.len() >= draws_used(self.rolls@, self.rolls@.len() as int),
                used == draws_used(self.rolls@, i as int),
                out@ == carried(self.rolls@, draws@, i as int),
            decreases self.rolls@.len() - i,
        {
            let roll = &self.rolls[i];
            proof {
                lemma_draws_used(self.rolls@, i + 1, self.rolls@.len() as int);
            }
            if roll.count > 0 {
                if roll.is_certain() {
                    out.push((roll.id.clone(), roll.count));
                } else {
                    let draw = draws[used];
                    used += 1;
                    if draw.lt(roll.chance) {
                        out.push((roll.id.clone(), roll.count));
                    }
                }
            }
            i += 1;
        }
        out
    }
}

/// What is certain is carried whatever is drawn.
pub proof fn law_certain_is_carried(rolls: Seq<LoadoutRoll>, draws: Seq<F32Bits>, n: int, i: int)
    requires
        0 <= i < n <= rolls.len(),
        rolls[i].certain(),
        rolls[i].count > 0,
    ensures
        carried(rolls, draws, n).contains((rolls[i].id, rolls[i].count)),
    decreases n,
{
    let all = carried(rolls, draws, n);
    if i == n - 1 {
        assert(all[all.len() - 1] == (rolls[i].id, rolls[i].count));
    } else {
        law_certain_is_carried(rolls, draws, n - 1, i);
        let fore = carried(rolls, draws, n - 1);
        let k = choose|k: int| 0 <= k < fore.len() && fore[k] == (rolls[i].id, rolls[i].count);
        assert(all[k] == fore[k]);
    }
}

/// What is wrong with the loadouts of a pack.
#[derive(Debug)]
pub enum LoadoutError {
    UnknownItem { faction: String, id: ItemId },
    ChanceOutOfRange { faction: String, chance: F32Bits },
}

/// The loadout of a faction, as a pack gives it.
#[derive(Debug)]
pub struct LoadoutEntry {
    pub faction: String,
    pub rolls: Vec<LoadoutRoll>,
}

/// A chance from zero to one.
pub open spec fn in_unit(c: F32Bits) -> bool {
    F32Bits(F32_ZERO).at_most(c) && c.at_most(F32Bits(F32_ONE))
}

/// Nothing is wrong with the roll.
pub open spec fn roll_sound(items: Map<Seq<char>, ItemDef>, r: LoadoutRoll) -> bool {
    items.contains_key(r.id@) && in_unit(r.chance)
}

/// Nothing is wrong with the rolls.
pub open spec fn rolls_sound(items: Map<Seq<char>, ItemDef>, rolls: Seq<LoadoutRoll>) -> bool {
    forall|i: int| 0 <= i < rolls.len() ==> roll_sound(items, #[trigger] rolls[i])
}

/// What is wrong with the first entry and roll that is wrong.
pub open spec fn loadout_fault(
    items: Map<Seq<char>, ItemDef>,
    entries: Seq<LoadoutEntry>,
    e: int,
    r: int,
    err: LoadoutError,
) -> bool {
    &&& 0 <= e < entries.len()
    &&& 0 <= r < entries[e].rolls@.len()
    &&& forall|k: int| 0 <= k < e ==> rolls_sound(items, (#[trigger] entries[k]).rolls@)
    &&& rolls_sound(items, entries[e].rolls@.take(r))
    &&& if !items.contains_key(entries[e].rolls@[r].id@) {
        err matches LoadoutError::UnknownItem { faction, id } && faction@ == entries[e].faction@
            && id@ == entries[e].rolls@[r].id@
    } else {
        &&& !in_unit(entries[e].rolls@[r].chance)
        &&& err matches LoadoutError::ChanceOutOfRange { faction, chance } && faction@
            == entries[e].faction@ && chance == entries[e].rolls@[r].chance
    }
}

/// The rolls of each faction in the first `n` entries, later ones in place of
/// earlier ones.
pub open spec fn rolls_by_faction(entries: Seq<LoadoutEntry>, n: int) -> Map<
    Seq<char>,
    Seq<LoadoutRoll>,
>
    decreases n,
{
    if n <= 0 {
        Map::empty()
    } else {
        rolls_by_faction(entries, n - 1).insert(
            entries[n - 1].faction@,
            entries[n - 1].rolls@,
        )
    }
}

/// The loadouts of all factions.
#[derive(Debug)]
pub struct NpcLoadoutRegistry {
    by_faction: StrMap<Loadout>,
    empty: Loadout,
}

/// What loadouts hold.
pub open spec fn rolls_in(m: Map<Seq<char>, Loadout>) -> Map<Seq<char>, Seq<LoadoutRoll>> {
    m.map_values(|l: Loadout| l.rolls@)
}

/// A grant of some of an item changes the grid from one to the other: nothing
/// for none or for an item that is not known; else as granting does, and what
/// has no room is dropped.
pub open spec fn grant_step(
    defs: Map<Seq<char>, ItemDef>,
    before: GridInventory,
    after: GridInventory,
    id: ItemId,
    count: u32,
) -> bool {
    &&& after.width == before.width
    &&& after.height == before.height
    &&& if count == 0 || !defs.contains_key(id@) {
        after.items@ == before.items@
    } else {
        exists|rest: int, list: Seq<usize>|
            0 <= rest <= count && #[trigger] granted_all(
                defs,
                before,
                after,
                id,
                count,
                0,
                rest,
                list,
            )
    }
}

/// The grid after the first `n` stacks were granted to an empty one of the
/// usual size.
pub open spec fn stocked(
    defs: Map<Seq<char>, ItemDef>,
    stacks: Seq<(ItemId, u32)>,
    grid: GridInventory,
    n: int,
) -> bool
    decreases n,
{
    if n <= 0 {
        grid.width == 4 && grid.height == 4 && grid.items@ == Seq::<PlacedItem>::empty()
    } else {
        exists|mid: GridInventory|
            stocked(defs, stacks, mid, n - 1) && #[trigger] grant_step(
                defs,
                mid,
                grid,
                stacks[n - 1].0,
                stacks[n - 1].1,
            )
    }
}

impl NpcLoadoutRegistry {
    /// The rolls of each faction.
    pub closed spec fn rolls(self) -> Map<Seq<char>, Seq<LoadoutRoll>> {
        rolls_in(self.by_faction@)
    }

    #[verifier::type_invariant]
    spec fn inv(self) -> bool {
        self.empty.rolls@.len() == 0
    }

    /// The rolls of a faction, none where it has no loadout.
    pub open spec fn rolls_of(self, faction: Seq<char>) -> Seq<LoadoutRoll> {
        if self.rolls().contains_key(faction) {
            self.rolls()[faction]
        } else {
            Seq::empty()
        }
    }

    /// Checks the loadouts of a pack and keeps them.
    pub fn build(entries: Vec<LoadoutEntry>, items: &ItemRegistry) -> (r: Result<
        Self,
        LoadoutError,
    >)
        ensures
            match r {
                Ok(reg) => (forall|k: int|
                    0 <= k < entries@.len() ==> rolls_sound(
                        items@,
                        (#[trigger] entries@[k]).rolls@,
                    )) && reg.rolls() == rolls_by_faction(entries@, entries@.len() as int),
                Err(err) => exists|e: int, r: int| #[trigger]
                    loadout_fault(items@, entries@, e, r, err),
            },
    {
        let ghost all = entries@;
        let mut by_faction: StrMap<Loadout> = StrMap::new();
        assert(rolls_in(by_faction@) =~= rolls_by_faction(all, 0));
        for entry in it: entries.into_iter()
            invariant
                it.seq() == all,
                all == entries@,
                forall|k: int|
                    0 <= k < it.index() ==> rolls_sound(items@, (#[trigger] all[k]).rolls@),
                rolls_in(by_faction@) == rolls_by_faction(all, it.index()),
        {
            let ghost e = it.index();
            let mut r: usize = 0;
            while r < entry.rolls.len()
                invariant
                    r <= entry.rolls@.len(),
                    all == entries@,
                    0 <= e < all.len(),
                    entry == all[e],
                    forall|k: int| 0 <= k < e ==> rolls_sound(items@, (#[trigger] all[k]).rolls@),
                    rolls_sound(items@, entry.rolls@.take(r as int)),
                decreases entry.rolls@.len() - r,
            {
                let roll = &entry.rolls[r];
                if items.get(&roll.id).is_none() {
                    let err = LoadoutError::UnknownItem {
                        faction: entry.faction.clone(),
                        id: roll.id.clone(),
                    };
                    assert(loadout_fault(items@, all, e, r as int, err));
                    return Err(err);
                }
                if !(F32Bits(F32_ZERO).le(roll.chance) && roll.chance.le(F32Bits(F32_ONE))) {
                    let err = LoadoutError::ChanceOutOfRange {
                        faction: entry.faction.clone(),
                        chance: roll.chance,
                    };
                    assert(loadout_fault(items@, all, e, r as int, err));
                    return Err(err);
                }
                assert forall|i: int| 0 <= i < r + 1 implies roll_sound(
                    items@,
                    #[trigger] entry.rolls@.take(r + 1)[i],
                ) by {
                    if i < r {
                        assert(entry.rolls@.take(r as int)[i] == entry.rolls@[i]);
                    }
                }
                r += 1;
            }
            proof {
                assert(entry.rolls@.take(r as int) =~= entry.rolls@);
            }
            let ghost before = by_faction@;
            let ghost name = entry.faction@;
            let loadout = Loadout { rolls: entry.rolls };
            by_faction.insert(entry.faction, loadout);
            assert(rolls_in(by_faction@) =~= rolls_in(before).insert(name, loadout.rolls@));
        }
        Ok(NpcLoadoutRegistry { by_faction, empty: Loadout { rolls: Vec::new() } })
    }

    /// The loadout of a faction, an empty one where it has none.
    pub fn get(&self, faction_name: &str) -> (r: &Loadout)
        ensures
            r.rolls@ == self.rolls_of(faction_name@),
    {
        proof {
            use_type_invariant(self);
            assert(self.empty.rolls@ =~= Seq::<LoadoutRoll>::empty());
        }
        match self.by_faction.get(faction_name) {
            Some(l) => l,
            None => &self.empty,
        }
    }

    /// What an NPC of the faction carries, from what was drawn for it, laid
    /// out in a fresh grid. What has no room is dropped.
    pub fn build_inventory(
        &self,
        faction_name: &str,
        registry: &ItemRegistry,
        draws: &Vec<F32Bits>,
    ) -> (r: GridInventory)
        requires
            draws@.len() >= draws_used(
                self.rolls_of(faction_name@),
                self.rolls_of(faction_name@).len() as int,
            ),
        ensures
            ({
                let rolls = self.rolls_of(faction_name@);
                let stacks = carried(rolls, draws@, rolls.len() as int);
                stocked(registry@, stacks, r, stacks.len() as int)
            }),
            valid(registry@, r.width, r.height, r.items@),
    {
        let stacks = self.get(faction_name).generate(draws);
        Self::place_stacks(registry, &stacks)
    }

    /// Lays stacks out in a fresh grid. What has no room is dropped.
    pub fn place_stacks(registry: &ItemRegistry, stacks: &Vec<(ItemId, u32)>) -> (r: GridInventory)
        ensures
            stocked(registry@, stacks@, r, stacks@.len() as int),
            valid(registry@, r.width, r.height, r.items@),
    {
        let mut grid = GridInventory::player_default();
        let mut i: usize = 0;
        while i < stacks.len()
            invariant
                i <= stacks@.len(),
                stocked(registry@, stacks@, grid, i as int),
                valid(registry@, grid.width, grid.height, grid.items@),
            decreases stacks@.len() - i,
        {
            let ghost mid = grid;
            proof {
                law_valid_edges_fit(registry@, grid.width, grid.height, grid.items@);
            }
            let outcome = grant_or_merge(&mut grid, registry, &stacks[i].0, stacks[i].1, 0);
            assert(grant_step(registry@, mid, grid, stacks@[i as int].0, stacks@[i as int].1));
            i += 1;
            assert(stocked(registry@, stacks@, mid, i - 1));
        }
        grid
    }

    /// How many units of what is certain an NPC of the faction carries.
    pub fn guaranteed_stack_count(&self, faction_name: &str) -> (r: u32)
        requires
            certain_units(
                self.rolls_of(faction_name@),
                self.rolls_of(faction_name@).len() as int,
            ) <= u32::MAX,
        ensures
            r == certain_units(
                self.rolls_of(faction_name@),
                self.rolls_of(faction_name@).len() as int,
            ),
    {
        let rolls = &self.get(faction_name).rolls;
        let mut sum: u32 = 0;
        let mut i: usize = 0;
        while i < rolls.len()
            invariant
                i <= rolls@.len(),
                certain_units(rolls@, rolls@.len() as int) <= u32::MAX,
                sum == certain_units(rolls@, i as int),
            decreases rolls@.len() - i,
        {
            proof {
                lemma_certain_units(rolls@, i + 1, rolls@.len() as int);
            }
            if rolls[i].is_certain() {
                sum += rolls[i].count;
            }
            i += 1;
        }
        sum
    }
}

/// Units of what is certain among the first `n` rolls.
pub open spec fn certain_units(rolls: Seq<LoadoutRoll>, n: int) -> int
    decreases n,
{
    if n <= 0 {
        0
    } else if rolls[n - 1].certain() {
        certain_units(rolls, n - 1) + rolls[n - 1].count
    } else {
        certain_units(rolls, n - 1)
    }
}

/// More rolls have no fewer units.
proof fn lemma_certain_units(rolls: Seq<LoadoutRoll>, n: int, m: int)
    requires
        0 <= n <= m,
    ensures
        0 <= certain_units(rolls, n) <= certain_units(rolls, m),
    decreases m,
{
    if n < m {
        lemma_certain_units(rolls, n, m - 1);
    } else if n > 0 {
        lemma_certain_units(rolls, n - 1, m - 1);
    }
}

/// Every item of the first `n` stacks has one sum, and it is of all its units
/// there.
pub open spec fn summed(items: Seq<PlacedItem>, sums: Seq<ItemInstance>, n: int) -> bool {
    &&& forall|i: int|
        #![trigger sums[i]]
        0 <= i < sums.len() ==> sums[i].count == units_of(items.take(n), sums[i].id@)
            && sums[i].spawned_tick == 0 && sums[i].magazine_state is None
    &&& forall|i: int, j: int|
        0 <= i < j < sums.len() ==> (#[trigger] sums[i]).id@ != (#[trigger] sums[j]).id@
    &&& forall|k: int|
        #![trigger items[k]]
        0 <= k < n ==> has_sum(sums, items[k].stack.id@)
    &&& forall|i: int| #![trigger sums[i]] 0 <= i < sums.len() ==> has_stack(items, n, sums[i].id@)
}

/// Some sum is of the item.
pub open spec fn has_sum(sums: Seq<ItemInstance>, id: Seq<char>) -> bool {
    exists|i: int| 0 <= i < sums.len() && (#[trigger] sums[i]).id@ == id
}

/// Some of the first `n` stacks is of the item.
pub open spec fn has_stack(items: Seq<PlacedItem>, n: int, id: Seq<char>) -> bool {
    exists|k: int| 0 <= k < n && (#[trigger] items[k]).stack.id@ == id
}

/// One stack for each item of a grid, of all its units.
pub fn flatten_grid(grid: &GridInventory) -> (r: Vec<ItemInstance>)
    requires
        forall|id: Seq<char>| #[trigger] units_of(grid.items@, id) <= u32::MAX,
    ensures
        summed(grid.items@, r@, grid.items@.len() as int),
{
    let ghost items = grid.items@;
    let mut out: Vec<ItemInstance> = Vec::new();
    let mut k: usize = 0;
    while k < grid.items.len()
        invariant
            k <= grid.items@.len(),
            items == grid.items@,
            forall|id: Seq<char>| #[trigger] units_of(items, id) <= u32::MAX,
            summed(items, out@, k as int),
        decreases grid.items@.len() - k,
    {
        let stack = &grid.items[k].stack;
        let ghost before = out@;
        let ghost n = k as int;
        proof {
            assert(items.take(n + 1).drop_last() =~= items.take(n));
            assert(items.take(n + 1).last() == items[n]);
            lemma_units_prefix(items, stack.id@, n + 1);
        }
        let mut i: usize = 0;
        while i < out.len() && !out[i].id.same(&stack.id)
            invariant
                i <= out@.len(),
                out@ == before,
                forall|j: int| 0 <= j < i ==> (#[trigger] before[j]).id@ != stack.id@,
            decreases out@.len() - i,
        {
            i += 1;
        }
        if i < out.len() {
            proof {
                assert(before[i as int].count == units_of(items.take(n), stack.id@));
            }
            let id = out[i].id.clone();
            let count: u32 = out[i].count + stack.count;
            out.set(i, ItemInstance { id, count, spawned_tick: 0, magazine_state: None });
        } else {
            proof {
                lemma_units_absent(items, stack.id@, n, before);
            }
            out.push(
                ItemInstance {
                    id: stack.id.clone(),
                    count: stack.count,
                    spawned_tick: 0,
                    magazine_state: None,
                },
            );
        }
        proof {
            lemma_summed_step(items, before, out@, n, i as int);
        }
        k += 1;
    }
    out
}

/// A part of a grid has no more units than the whole.
proof fn lemma_units_prefix(items: Seq<PlacedItem>, id: Seq<char>, n: int)
    requires
        0 <= n <= items.len(),
    ensures
        0 <= units_of(items.take(n), id) <= units_of(items, id),
    decreases items.len(),
{
    if n == items.len() {
        assert(items.take(n) =~= items);
        if n > 0 {
            lemma_units_prefix(items.drop_last(), id, n - 1);
            assert(items.drop_last().take(n - 1) =~= items.drop_last());
        }
    } else {
        lemma_units_prefix(items.drop_last(), id, n);
        assert(items.drop_last().take(n) =~= items.take(n));
    }
}

/// An item that no stack so far is of has no units so far.
proof fn lemma_units_absent(
    items: Seq<PlacedItem>,
    id: Seq<char>,
    n: int,
    sums: Seq<ItemInstance>,
)
    requires
        0 <= n <= items.len(),
        summed(items, sums, n),
        forall|j: int| 0 <= j < sums.len() ==> (#[trigger] sums[j]).id@ != id,
    ensures
        units_of(items.take(n), id) == 0,
{
    assert forall|k: int| 0 <= k < n implies (#[trigger] items[k]).stack.id@ != id by {
        assert(has_sum(sums, items[k].stack.id@));
    }
    lemma_no_units(items.take(n), id);
}

/// Where no stack is of the item, it has no units.
proof fn lemma_no_units(items: Seq<PlacedItem>, id: Seq<char>)
    requires
        forall|k: int| 0 <= k < items.len() ==> (#[trigger] items[k]).stack.id@ != id,
    ensures
        units_of(items, id) == 0,
    decreases items.len(),
{
    if items.len() > 0 {
        assert(items[items.len() - 1].stack.id@ != id);
        lemma_no_units(items.drop_last(), id);
    }
}

/// One stack more is counted where it belongs.
proof fn lemma_summed_step(
    items: Seq<PlacedItem>,
    before: Seq<ItemInstance>,
    after: Seq<ItemInstance>,
    n: int,
    at: int,
)
    requires
        0 <= n < items.len(),
        summed(items, before, n),
        0 <= at <= before.len(),
        forall|j: int| 0 <= j < at ==> (#[trigger] before[j]).id@ != items[n].stack.id@,
        at < before.len() ==> before[at].id@ == items[n].stack.id@,
        after.len() == (if at < before.len() {
            before.len()
        } else {
            before.len() + 1
        }),
        forall|j: int| 0 <= j < before.len() && j != at ==> #[trigger] after[j] == before[j],
        after[at].id@ == items[n].stack.id@,
        after[at].count == units_of(items.take(n), items[n].stack.id@) + items[n].stack.count,
        after[at].spawned_tick == 0,
        after[at].magazine_state is None,
    ensures
        summed(items, after, n + 1),
{
    let id = items[n].stack.id@;
    assert(items.take(n + 1).drop_last() =~= items.take(n));
    assert(items.take(n + 1).last() == items[n]);
    assert forall|i: int| #![trigger after[i]] 0 <= i < after.len() implies after[i].count
        == units_of(items.take(n + 1), after[i].id@) && after[i].spawned_tick == 0
        && after[i].magazine_state is None by {
        if i != at {
            assert(after[i] == before[i]);
            if i < at {
                assert(before[i].id@ != id);
            } else {
                assert(before[at].id@ != before[i].id@);
            }
        }
    }
    assert forall|i: int, j: int| 0 <= i < j < after.len() implies (#[trigger] after[i]).id@ != (
    #[trigger] after[j]).id@ by {
        if i == at {
            assert(after[j] == before[j]);
            assert(before[at].id@ != before[j].id@);
        } else if j == at {
            assert(after[i] == before[i]);
            assert(before[i].id@ != id);
        } else {
            assert(after[i] == before[i] && after[j] == before[j]);
            assert(before[i].id@ != before[j].id@);
        }
    }
    assert forall|k: int| #![trigger items[k]] 0 <= k < n + 1 implies has_sum(
        after,
        items[k].stack.id@,
    ) by {
        if k == n {
            assert(after[at].id@ == items[k].stack.id@);
        } else {
            assert(has_sum(before, items[k].stack.id@));
            let i = choose|i: int|
                0 <= i < before.len() && (#[trigger] before[i]).id@ == items[k].stack.id@;
            if i == at {
                assert(after[at].id@ == items[k].stack.id@);
            } else {
                assert(after[i] == before[i]);
            }
        }
    }
    assert forall|i: int| #![trigger after[i]] 0 <= i < after.len() implies has_stack(
        items,
        n + 1,
        after[i].id@,
    ) by {
        if i == at {
            assert(items[n].stack.id@ == after[i].id@);
        } else {
            assert(after[i] == before[i]);
            assert(has_stack(items, n, before[i].id@));
            let k = choose|k: int| 0 <= k < n && (#[trigger] items[k]).stack.id@ == before[i].id@;
            assert(items[k].stack.id@ == after[i].id@);
        }
    }
}

/// A roll of nothing never lands, a certain one always does, and any other does
/// where its draw is under its chance. Each of the latter takes one draw, the
/// others none.
pub proof fn law_rolls_land_by_chance(rolls: Seq<LoadoutRoll>, draws: Seq<F32Bits>, i: int)
    requires
        0 <= i < rolls.len(),
    ensures
        ({
            let r = rolls[i];
            let certain = F32Bits(0x3f80_0000).at_most(r.chance);
            let used = draws_used(rolls, i);
            &&& r.count == 0 ==> !lands(rolls, draws, i)
            &&& r.count > 0 && certain ==> lands(rolls, draws, i)
            &&& r.count > 0 && !certain ==> (lands(rolls, draws, i) <==> draws[used].less(r.chance))
            &&& draws_used(rolls, i + 1) == used + (if r.count > 0 && !certain {
                1int
            } else {
                0
            })
            &&& draws_used(rolls, 0) == 0
        }),
{
}

/// What an NPC carries is what lands, roll by roll, each in full.
pub proof fn law_what_lands_is_carried(rolls: Seq<LoadoutRoll>, draws: Seq<F32Bits>, n: int)
    requires
        0 < n <= rolls.len(),
    ensures
        lands(rolls, draws, n - 1) ==> carried(rolls, draws, n).drop_last() == carried(
            rolls,
            draws,
            n - 1,
        ) && carried(rolls, draws, n).last() == (rolls[n - 1].id, rolls[n - 1].count),
        !lands(rolls, draws, n - 1) ==> carried(rolls, draws, n) == carried(rolls, draws, n - 1),
        carried(rolls, draws, 0).len() == 0,
{
    if lands(rolls, draws, n - 1) {
        assert(carried(rolls, draws, n).drop_last() =~= carried(rolls, draws, n - 1));
    }
}

/// A chance is a number from zero to one, both included.
pub proof fn law_chances_lie_in_unit(c: F32Bits)
    ensures
        in_unit(c) <==> F32Bits(0).at_most(c) && c.at_most(F32Bits(0x3f80_0000)),
{
}

/// Of several entries for a faction the last counts.
pub proof fn law_last_loadout_counts(entries: Seq<LoadoutEntry>, n: int, i: int)
    requires
        0 <= i < n <= entries.len(),
        forall|j: int| i < j < n ==> (#[trigger] entries[j]).faction@ != entries[i].faction@,
    ensures
        rolls_by_faction(entries, n).contains_key(entries[i].faction@),
        rolls_by_faction(entries, n)[entries[i].faction@] == entries[i].rolls@,
    decreases n,
{
    if i < n - 1 {
        assert(entries[n - 1].faction@ != entries[i].faction@);
        law_last_loadout_counts(entries, n - 1, i);
    }
}

/// Nobody's kit starts with anything in it, in a grid of four by four; what is
/// not known or of which there is none adds nothing.
pub proof fn law_kits_start_empty(
    defs: Map<Seq<char>, ItemDef>,
    stacks: Seq<(ItemId, u32)>,
    grid: GridInventory,
    after: GridInventory,
    id: ItemId,
)
    ensures
        stocked(defs, stacks, grid, 0) ==> grid.items@.len() == 0 && grid.width == 4 && grid.height
            == 4,
        grant_step(defs, grid, after, id, 0) ==> after.items@ == grid.items@,
        grant_step(defs, grid, after, id, 1) && !defs.contains_key(id@) ==> after.items@
            == grid.items@,
{
}

/// What is wrong with loadouts is told by faction: an item that nobody knows
/// with its id, and a chance that is none with the chance; and nothing before
/// it is wrong.
pub proof fn law_loadout_faults_are_told(
    items: Map<Seq<char>, ItemDef>,
    entries: Seq<LoadoutEntry>,
    e: int,
    r: int,
    err: LoadoutError,
    k: int,
)
    requires
        loadout_fault(items, entries, e, r, err),
        0 <= k < r,
    ensures
        ({
            let roll = entries[e].rolls@[r];
            let before = entries[e].rolls@[k];
            &&& !items.contains_key(roll.id@) ==> (err matches LoadoutError::UnknownItem {
                faction,
                id,
            } && faction@ == entries[e].faction@ && id@ == roll.id@)
            &&& items.contains_key(roll.id@) ==> (err matches LoadoutError::ChanceOutOfRange {
                faction,
                chance,
            } && faction@ == entries[e].faction@ && chance == roll.chance && !in_unit(chance))
            &&& items.contains_key(before.id@) && in_unit(before.chance)
        }),
{
    assert(entries[e].rolls@.take(r)[k] == entries[e].rolls@[k]);
    assert(roll_sound(items, entries[e].rolls@.take(r)[k]));
}

} // verus!
