//! Kinds of containers that loot lies in.
use vstd::prelude::*;

use crate::items::GridSize;
use crate::rng::{draw_between, moved_on, Generator, Trail};
use crate::strmap::{holds_place, in_key_order, Entry, StrMap};
use crate::text::str_eq;
use crate::weighted::{
    can_come_up, choose_weighted, chosen, lemma_no_weight, pick_weighted, picked, weight_sum,
};

verus! {

/// One kind of container.
#[derive(Debug)]
pub struct LootContainerDef {
    pub id: String,
    pub name: String,
    pub grid: GridSize,
    pub spawn_weight: u32,
    /// Shared with everybody.
    pub is_public: bool,
    /// How many items it is filled with, least and most.
    pub items_per_roll: [u32; 2],
    /// How likely each family of items is; empty for no preference.
    pub family_weights: StrMap<u32>,
    /// Difficulties of quests that it rewards, each with a weight.
    pub difficulty_weights: Vec<[u32; 2]>,
}

/// Weight of a kind that does not say.
pub fn default_weight() -> (r: u32)
    ensures
        r == 1,
{
    1
}

/// Items per roll of a kind that does not say.
pub fn default_items_per_roll() -> (r: [u32; 2])
    ensures
        r@ == seq![1u32, 1u32],
{
    let r: [u32; 2] = [1, 1];
    assert(r@ =~= seq![1u32, 1u32]);
    r
}

/// All kinds of containers.
#[derive(Debug)]
pub struct LootContainerRegistry {
    defs: Vec<LootContainerDef>,
}

/// The weights of the kinds.
pub open spec fn spawn_weights(defs: Seq<LootContainerDef>) -> Seq<u32> {
    Seq::new(defs.len(), |i: int| defs[i].spawn_weight)
}

/// The first kind with the id, from place `from` on.
pub open spec fn kind_index(defs: Seq<LootContainerDef>, id: Seq<char>, from: int) -> Option<int>
    decreases defs.len() - from,
{
    if from < 0 || from >= defs.len() {
        None
    } else if defs[from].id@ == id {
        Some(from)
    } else {
        kind_index(defs, id, from + 1)
    }
}

/// The weight that the first entry for the difficulty gives.
pub open spec fn weight_at(pairs: Seq<[u32; 2]>, difficulty: u32, from: int) -> Option<u32>
    decreases pairs.len() - from,
{
    if from < 0 || from >= pairs.len() {
        None
    } else if pairs[from]@[0] == difficulty {
        Some(pairs[from]@[1])
    } else {
        weight_at(pairs, difficulty, from + 1)
    }
}

/// Some kind rewards quests of the difficulty.
pub open spec fn configured(defs: Seq<LootContainerDef>, difficulty: u32) -> bool {
    exists|i: int|
        0 <= i < defs.len() && weight_at(
            (#[trigger] defs[i]).difficulty_weights@,
            difficulty,
            0,
        ) is Some
}

/// The lowest difficulty of quests.
pub const DIFFICULTY_MIN: u32 = 1;

/// The highest difficulty of quests.
pub const DIFFICULTY_MAX: u32 = 5;

/// The difficulty that counts: the one asked for where it is a difficulty of
/// quests; below these the lowest, and above the highest, that some kind
/// rewards.
pub open spec fn tier_for(defs: Seq<LootContainerDef>, difficulty: u32, tier: Option<u32>) -> bool {
    if DIFFICULTY_MIN <= difficulty <= DIFFICULTY_MAX {
        tier == Some(difficulty)
    } else {
        match tier {
            Some(t) => {
                &&& DIFFICULTY_MIN <= t <= DIFFICULTY_MAX
                &&& configured(defs, t)
                &&& forall|u: u32|
                    DIFFICULTY_MIN <= u <= DIFFICULTY_MAX && #[trigger] configured(defs, u) ==> (
                    if difficulty < DIFFICULTY_MIN {
                        t <= u
                    } else {
                        u <= t
                    })
            },
            None => forall|u: u32|
                DIFFICULTY_MIN <= u <= DIFFICULTY_MAX ==> !#[trigger] configured(defs, u),
        }
    }
}

/// The places of the kinds among the first `n` that reward the difficulty.
pub open spec fn rewarding(defs: Seq<LootContainerDef>, tier: u32, n: int) -> Seq<usize>
    decreases n,
{
    if n <= 0 {
        Seq::empty()
    } else if weight_at(defs[n - 1].difficulty_weights@, tier, 0) is Some {
        rewarding(defs, tier, n - 1).push((n - 1) as usize)
    } else {
        rewarding(defs, tier, n - 1)
    }
}

/// The weights of these kinds.
pub open spec fn reward_weights(defs: Seq<LootContainerDef>, tier: u32, places: Seq<usize>) -> Seq<
    u32,
> {
    Seq::new(
        places.len(),
        |i: int| weight_at(defs[places[i] as int].difficulty_weights@, tier, 0)->0,
    )
}

impl LootContainerDef {
    /// The weight that the kind has as a reward for the difficulty.
    pub fn difficulty_weight(&self, difficulty: u32) -> (r: Option<u32>)
        ensures
            r == weight_at(self.difficulty_weights@, difficulty, 0),
    {
        let mut i: usize = 0;
        while i < self.difficulty_weights.len()
            invariant
                i <= self.difficulty_weights@.len(),
                weight_at(self.difficulty_weights@, difficulty, 0) == weight_at(
                    self.difficulty_weights@,
                    difficulty,
                    i as int,
                ),
            decreases self.difficulty_weights@.len() - i,
        {
            if self.difficulty_weights[i][0] == difficulty {
                return Some(self.difficulty_weights[i][1]);
            }
            i += 1;
        }
        None
    }

    /// The families in the order of their names, and their weights.
    fn family_list(&self) -> (r: (Vec<usize>, Vec<u32>))
        ensures
            in_key_order(
                self.family_weights.list(),
                r.0@,
                self.family_weights.list().len() as int,
            ),
            r.0@.len() == self.family_weights.list().len(),
            r.1@ == weights_in(self.family_weights.list(), r.0@),
            forall|k: Seq<char>| #[trigger]
                self.family_weights@.contains_key(k) ==> exists|i: int|
                    0 <= i < self.family_weights.list().len() && (
                    #[trigger] self.family_weights.list()[i]).key@ == k
                        && self.family_weights.list()[i].value == self.family_weights@[k],
    {
        let order = self.family_weights.key_order();
        let mut ws: Vec<u32> = Vec::new();
        let mut i: usize = 0;
        while i < order.len()
            invariant
                i <= order@.len(),
                in_key_order(
                    self.family_weights.list(),
                    order@,
                    self.family_weights.list().len() as int,
                ),
                ws@ == weights_in(self.family_weights.list(), order@).take(i as int),
            decreases order@.len() - i,
        {
            let ghost all = weights_in(self.family_weights.list(), order@);
            ws.push(self.family_weights.entry_at(order[i]).value);
            i += 1;
            assert(all.take(i as int) =~= all.take(i - 1).push(all[i - 1]));
        }
        assert(weights_in(self.family_weights.list(), order@).take(i as int) =~= weights_in(
            self.family_weights.list(),
            order@,
        ));
        (order, ws)
    }

    /// The family that two draws choose: families stand in the order of their
    /// names.
    pub fn family_for(&self, even: usize, roll: u64) -> (r: Option<&str>)
        requires
            self.family_weights.list().len() <= u32::MAX,
            even < self.family_weights.list().len() || self.family_weights.list().len() == 0,
        ensures
            exists|order: Seq<usize>, i: Option<usize>|
                #![trigger family_chosen(self.family_weights.list(), order, even as int, roll as int, i)]
                family_chosen(
                    self.family_weights.list(),
                    order,
                    even as int,
                    roll as int,
                    i,
                ) && (match r {
                    Some(f) => i is Some && f@ == self.family_weights.list()[order[i->0 as int]
                        as int].key@,
                    None => i is None,
                }),
    {
        let n = self.family_weights.len();
        let (order, ws) = self.family_list();
        let i = choose_weighted(&ws, even, roll);
        assert(family_chosen(self.family_weights.list(), order@, even as int, roll as int, i));
        match i {
            Some(i) => Some(self.family_weights.entry_at(order[i]).key.as_str()),
            None => None,
        }
    }

    /// Chooses a family by weight; evenly where none has weight, and nothing
    /// where the kind has no preference.
    pub fn pick_family(&self, rng: &mut Generator) -> (r: Option<&str>)
        requires
            self.family_weights.list().len() <= u32::MAX,
        ensures
            match r {
                Some(f) => self.family_weights@.contains_key(f@) && (self.family_weights@[f@] > 0
                    || forall|g: Seq<char>| #[trigger]
                    self.family_weights@.contains_key(g) ==> self.family_weights@[g] == 0),
                None => self.family_weights@.dom().len() == 0,
            },
            exists|order: Seq<usize>, i: Option<usize>|
                #![trigger family_picked(self.family_weights.list(), order, old(rng)@, i, final(rng)@)]
                family_picked(self.family_weights.list(), order, old(rng)@, i, final(rng)@) && (
                match r {
                    Some(f) => i is Some && f@ == self.family_weights.list()[order[i->0 as int]
                        as int].key@,
                    None => i is None,
                }),
    {
        let n = self.family_weights.len();
        let (order, ws) = self.family_list();
        let picked_at = pick_weighted(rng, &ws);
        assert(family_picked(self.family_weights.list(), order@, old(rng)@, picked_at, rng@));
        match picked_at {
            Some(i) => {
                let e = self.family_weights.entry_at(order[i]);
                proof {
                    if e.value == 0 {
                        assert(weight_sum(ws@) <= 0);
                        assert forall|g: Seq<char>| #[trigger]
                            self.family_weights@.contains_key(
                                g,
                            ) implies self.family_weights@[g] == 0 by {
                            let p = choose|p: int|
                                0 <= p < self.family_weights.list().len() && (
                                #[trigger] self.family_weights.list()[p]).key@ == g
                                    && self.family_weights.list()[p].value
                                    == self.family_weights@[g];
                            assert(holds_place(order@, p));
                            let a = choose|a: int|
                                0 <= a < order@.len() && #[trigger] order@[a] == p;
                            lemma_no_weight(ws@, a);
                        }
                    }
                }
                Some(e.key.as_str())
            },
            None => None,
        }
    }

    /// How many items the container is filled with: a number from the least to
    /// the most, whichever way round they stand.
    pub fn roll_items_per_roll(&self, rng: &mut Generator) -> (r: u32)
        ensures
            ({
                let a = self.items_per_roll@[0];
                let b = self.items_per_roll@[1];
                if a <= b {
                    a <= r <= b
                } else {
                    b <= r <= a
                }
            }),
            ({
                let a = self.items_per_roll@[0] as int;
                let b = self.items_per_roll@[1] as int;
                let (lo, hi) = if a <= b {
                    (a, b)
                } else {
                    (b, a)
                };
                &&& old(rng)@ matches Some(t) ==> r == t.next(32, lo, hi)
                &&& moved_on(old(rng)@, 32, lo, hi, final(rng)@)
            }),
    {
        let a = self.items_per_roll[0];
        let b = self.items_per_roll[1];
        if a <= b {
            draw_between(rng, a, b)
        } else {
            draw_between(rng, b, a)
        }
    }
}

impl LootContainerRegistry {
    /// The kinds, in order.
    pub closed spec fn list(self) -> Seq<LootContainerDef> {
        self.defs@
    }

    /// A registry of the given kinds.
    pub fn new(defs: Vec<LootContainerDef>) -> (r: Self)
        ensures
            r.list() == defs@,
    {
        LootContainerRegistry { defs }
    }

    /// A registry of what a file was read as; an empty one where there is no
    /// file or it cannot be read.
    pub fn from_read(read: Option<Vec<LootContainerDef>>) -> (r: Self)
        ensures
            match read {
                Some(defs) => r.list() == defs@,
                None => r.list().len() == 0,
            },
    {
        match read {
            Some(defs) => LootContainerRegistry::new(defs),
            None => LootContainerRegistry::new(Vec::new()),
        }
    }

    /// Every kind, in order.
    pub fn iter(&self) -> (r: &[LootContainerDef])
        ensures
            r@ == self.list(),
    {
        self.defs.as_slice()
    }

    /// How many kinds there are.
    pub fn len(&self) -> (r: usize)
        ensures
            r == self.list().len(),
    {
        self.defs.len()
    }

    /// True iff there is no kind.
    pub fn is_empty(&self) -> (r: bool)
        ensures
            r == (self.list().len() == 0),
    {
        self.defs.len() == 0
    }

    /// The first kind with the id.
    pub fn get(&self, id: &str) -> (r: Option<&LootContainerDef>)
        ensures
            match kind_index(self.list(), id@, 0) {
                Some(i) => r == Some(&self.list()[i]),
                None => r is None,
            },
    {
        let mut i: usize = 0;
        while i < self.defs.len()
            invariant
                i <= self.defs@.len(),
                kind_index(self.defs@, id@, 0) == kind_index(self.defs@, id@, i as int),
            decreases self.defs@.len() - i,
        {
            if str_eq(self.defs[i].id.as_str(), id) {
                return Some(&self.defs[i]);
            }
            i += 1;
        }
        None
    }

    /// The weights of the kinds.
    fn weights(&self) -> (r: Vec<u32>)
        ensures
            r@ == spawn_weights(self.list()),
    {
        let mut ws: Vec<u32> = Vec::new();
        let mut i: usize = 0;
        while i < self.defs.len()
            invariant
                i <= self.defs@.len(),
                ws@ == spawn_weights(self.defs@).take(i as int),
            decreases self.defs@.len() - i,
        {
            ws.push(self.defs[i].spawn_weight);
            i += 1;
            assert(spawn_weights(self.defs@).take(i as int) =~= spawn_weights(self.defs@).take(
                i - 1,
            ).push(spawn_weights(self.defs@)[i - 1]));
        }
        assert(spawn_weights(self.defs@).take(i as int) =~= spawn_weights(self.defs@));
        ws
    }

    /// The kind that two draws choose.
    pub fn kind_for(&self, even: usize, roll: u64) -> (r: Option<&LootContainerDef>)
        requires
            self.list().len() <= u32::MAX,
            even < self.list().len() || self.list().len() == 0,
        ensures
            exists|i: Option<usize>| #[trigger]
                chosen(spawn_weights(self.list()), even as int, roll as int, i) && (match i {
                    Some(i) => r == Some(&self.list()[i as int]),
                    None => r is None,
                }),
    {
        let ws = self.weights();
        let i = choose_weighted(&ws, even, roll);
        assert(chosen(spawn_weights(self.list()), even as int, roll as int, i));
        match i {
            Some(i) => Some(&self.defs[i]),
            None => None,
        }
    }

    /// Chooses a kind by weight; evenly where none has weight, and nothing
    /// only where there is no kind.
    pub fn weighted_pick(&self, rng: &mut Generator) -> (r: Option<&LootContainerDef>)
        requires
            self.list().len() <= u32::MAX,
        ensures
            exists|i: Option<usize>| #[trigger]
                picked(spawn_weights(self.list()), old(rng)@, i, final(rng)@) && match i {
                    Some(i) => can_come_up(spawn_weights(self.list()), i as int) && r == Some(
                        &self.list()[i as int],
                    ),
                    None => r is None && self.list().len() == 0,
                },
    {
        let ws = self.weights();
        let at = pick_weighted(rng, &ws);
        assert(picked(spawn_weights(self.list()), old(rng)@, at, rng@));
        match at {
            Some(i) => Some(&self.defs[i]),
            None => None,
        }
    }

    /// True iff some kind rewards quests of the difficulty.
    fn is_configured(&self, difficulty: u32) -> (r: bool)
        ensures
            r == configured(self.list(), difficulty),
    {
        let mut i: usize = 0;
        while i < self.defs.len()
            invariant
                i <= self.defs@.len(),
                forall|k: int|
                    0 <= k < i ==> weight_at(
                        (#[trigger] self.defs@[k]).difficulty_weights@,
                        difficulty,
                        0,
                    ) is None,
            decreases self.defs@.len() - i,
        {
            if self.defs[i].difficulty_weight(difficulty).is_some() {
                assert(weight_at(self.defs@[i as int].difficulty_weights@, difficulty, 0) is Some);
                return true;
            }
            i += 1;
        }
        false
    }

    /// The difficulty that counts for the one asked for.
    pub fn difficulty_tier(&self, difficulty: u32) -> (r: Option<u32>)
        ensures
            tier_for(self.list(), difficulty, r),
    {
        if difficulty >= DIFFICULTY_MIN && difficulty <= DIFFICULTY_MAX {
            return Some(difficulty);
        }
        if difficulty < DIFFICULTY_MIN {
            let mut t: u32 = DIFFICULTY_MIN;
            while t <= DIFFICULTY_MAX
                invariant
                    DIFFICULTY_MIN <= t <= DIFFICULTY_MAX + 1,
                    difficulty < DIFFICULTY_MIN,
                    forall|u: u32|
                        DIFFICULTY_MIN <= u < t ==> !#[trigger] configured(self.list(), u),
                decreases DIFFICULTY_MAX + 1 - t,
            {
                if self.is_configured(t) {
                    return Some(t);
                }
                t += 1;
            }
            None
        } else {
            let mut t: u32 = DIFFICULTY_MAX;
            while t >= DIFFICULTY_MIN
                invariant
                    DIFFICULTY_MIN - 1 <= t <= DIFFICULTY_MAX,
                    difficulty > DIFFICULTY_MAX,
                    forall|u: u32|
                        t < u <= DIFFICULTY_MAX ==> !#[trigger] configured(self.list(), u),
                decreases t,
            {
                if self.is_configured(t) {
                    return Some(t);
                }
                t -= 1;
            }
            None
        }
    }

    /// The kinds that reward the difficulty, and their weights.
    fn rewards(&self, tier: u32) -> (r: (Vec<usize>, Vec<u32>))
        ensures
            r.0@ == rewarding(self.list(), tier, self.list().len() as int),
            r.1@ == reward_weights(self.list(), tier, r.0@),
            r.0@.len() <= self.list().len(),
            forall|k: int| 0 <= k < r.0@.len() ==> #[trigger] r.0@[k] < self.list().len(),
    {
        let mut places: Vec<usize> = Vec::new();
        let mut ws: Vec<u32> = Vec::new();
        let mut i: usize = 0;
        while i < self.defs.len()
            invariant
                i <= self.defs@.len(),
                places@ == rewarding(self.defs@, tier, i as int),
                ws@ == reward_weights(self.defs@, tier, places@),
                places@.len() <= i,
                forall|k: int| 0 <= k < places@.len() ==> #[trigger] places@[k] < i,
            decreases self.defs@.len() - i,
        {
            if let Some(w) = self.defs[i].difficulty_weight(tier) {
                let ghost before = places@;
                places.push(i);
                ws.push(w);
                assert(reward_weights(self.defs@, tier, places@) =~= reward_weights(
                    self.defs@,
                    tier,
                    before,
                ).push(w));
            }
            i += 1;
        }
        (places, ws)
    }

    /// Chooses the kind that rewards a quest of the difficulty, by the weights
    /// that kinds have for it. A difficulty out of range counts as the nearest
    /// that some kind rewards. There is none only where no kind rewards it.
    pub fn weighted_pick_for_difficulty(&self, rng: &mut Generator, difficulty: u32) -> (r: Option<
        &LootContainerDef,
    >)
        requires
            self.list().len() <= u32::MAX,
        ensures
            exists|tier: Option<u32>| #[trigger]
                tier_for(self.list(), difficulty, tier) && (match tier {
                    Some(t) => {
                        let places = rewarding(self.list(), t, self.list().len() as int);
                        let ws = reward_weights(self.list(), t, places);
                        exists|i: Option<usize>| #[trigger]
                            picked(ws, old(rng)@, i, final(rng)@) && match i {
                                Some(i) => can_come_up(ws, i as int) && r == Some(
                                    &self.list()[places[i as int] as int],
                                ),
                                None => r is None && places.len() == 0,
                            }
                    },
                    None => r is None && final(rng)@ == old(rng)@,
                }),
    {
        let tier = self.difficulty_tier(difficulty);
        assert(tier_for(self.list(), difficulty, tier));
        match tier {
            Some(t) => {
                let (places, ws) = self.rewards(t);
                let at = pick_weighted(rng, &ws);
                assert(picked(reward_weights(self.list(), t, places@), old(rng)@, at, rng@));
                match at {
                    Some(i) => Some(&self.defs[places[i]]),
                    None => None,
                }
            },
            None => None,
        }
    }
}

/// A kind without weight is not chosen while another has weight.
pub proof fn law_weightless_never_picked(ws: Seq<u32>, i: int, other: int)
    requires
        can_come_up(ws, i),
        0 <= other < ws.len(),
        ws[other] > 0,
    ensures
        ws[i] > 0,
{
    if weight_sum(ws) <= 0 {
        lemma_no_weight(ws, other);
    }
}

/// A reward is found for every difficulty, in range or not, as long as some
/// kind rewards each difficulty in range.
pub proof fn law_every_difficulty_is_rewarded(
    defs: Seq<LootContainerDef>,
    difficulty: u32,
    tier: Option<u32>,
)
    requires
        forall|u: u32| DIFFICULTY_MIN <= u <= DIFFICULTY_MAX ==> #[trigger] configured(defs, u),
        tier_for(defs, difficulty, tier),
    ensures
        tier == Some(
            (if difficulty < DIFFICULTY_MIN {
                DIFFICULTY_MIN
            } else if difficulty > DIFFICULTY_MAX {
                DIFFICULTY_MAX
            } else {
                difficulty
            }),
        ),
        rewarding(defs, tier->0, defs.len() as int).len() > 0,
{
    assert(configured(defs, DIFFICULTY_MIN) && configured(defs, DIFFICULTY_MAX));
    let t = tier->0;
    assert(configured(defs, t));
    let i = choose|i: int|
        0 <= i < defs.len() && weight_at(
            (#[trigger] defs[i]).difficulty_weights@,
            t,
            0,
        ) is Some;
    lemma_rewarding_has(defs, t, defs.len() as int, i);
}

/// A kind that rewards the difficulty is found.
proof fn lemma_rewarding_has(defs: Seq<LootContainerDef>, tier: u32, n: int, i: int)
    requires
        0 <= i < n <= defs.len(),
        weight_at(defs[i].difficulty_weights@, tier, 0) is Some,
    ensures
        rewarding(defs, tier, n).len() > 0,
    decreases n,
{
    if i < n - 1 {
        lemma_rewarding_has(defs, tier, n - 1, i);
    }
}

/// The values of the entries at the places.
pub open spec fn weights_in(entries: Seq<Entry<u32>>, order: Seq<usize>) -> Seq<u32> {
    Seq::new(order.len(), |i: int| entries[order[i] as int].value)
}

/// What a generator picks among the families in the order of their names.
pub open spec fn family_picked(
    entries: Seq<Entry<u32>>,
    order: Seq<usize>,
    before: Option<Trail>,
    i: Option<usize>,
    after: Option<Trail>,
) -> bool {
    in_key_order(entries, order, entries.len() as int) && order.len() == entries.len() && picked(
        weights_in(entries, order),
        before,
        i,
        after,
    )
}

/// What two draws choose among the families in the order of their names.
pub open spec fn family_chosen(
    entries: Seq<Entry<u32>>,
    order: Seq<usize>,
    even: int,
    roll: int,
    i: Option<usize>,
) -> bool {
    in_key_order(entries, order, entries.len() as int) && order.len() == entries.len() && chosen(
        weights_in(entries, order),
        even,
        roll,
        i,
    )
}

/// Of several kinds with one id the first counts, and of several weights for a
/// difficulty the first.
pub proof fn law_first_entry_counts(
    defs: Seq<LootContainerDef>,
    id: Seq<char>,
    i: int,
    pairs: Seq<[u32; 2]>,
    difficulty: u32,
    k: int,
    from: int,
)
    requires
        0 <= from,
    ensures
        from <= i < defs.len() && defs[i].id@ == id && (forall|j: int|
            from <= j < i ==> (#[trigger] defs[j]).id@ != id) ==> kind_index(defs, id, from)
            == Some(i),
        from <= k < pairs.len() && pairs[k]@[0] == difficulty && (forall|j: int|
            from <= j < k ==> (#[trigger] pairs[j])@[0] != difficulty) ==> weight_at(
            pairs,
            difficulty,
            from,
        ) == Some(pairs[k]@[1]),
        (forall|j: int| from <= j < pairs.len() ==> (#[trigger] pairs[j])@[0] != difficulty)
            ==> weight_at(pairs, difficulty, from) is None,
    decreases defs.len() + pairs.len() - from,
{
    if from < defs.len() || from < pairs.len() {
        law_first_entry_counts(defs, id, i, pairs, difficulty, k, from + 1);
    }
}

/// Difficulties of quests go from one to five and stand for themselves. Below
/// them counts the lowest that any kind rewards, and above them the highest.
pub proof fn law_difficulties_are_one_to_five(
    defs: Seq<LootContainerDef>,
    difficulty: u32,
    tier: Option<u32>,
    u: u32,
)
    requires
        tier_for(defs, difficulty, tier),
        1 <= u <= 5,
        configured(defs, u),
    ensures
        1 <= difficulty <= 5 ==> tier == Some(difficulty),
        tier is Some && 1 <= tier->0 <= 5,
        difficulty < 1 ==> tier->0 <= u,
        difficulty > 5 ==> tier->0 >= u,
{
}

/// The kinds that reward a difficulty are those with a weight for it, in order,
/// each with its weight.
pub proof fn law_rewards_are_those_with_a_weight(
    defs: Seq<LootContainerDef>,
    tier: u32,
    n: int,
    i: int,
)
    requires
        0 <= i < n <= defs.len() <= usize::MAX,
    ensures
        ({
            let places = rewarding(defs, tier, n);
            let ws = reward_weights(defs, tier, places);
            &&& places.contains(i as usize) <==> weight_at(defs[i].difficulty_weights@, tier, 0)
                is Some
            &&& forall|a: int|
                0 <= a < places.len() ==> (#[trigger] places[a]) < n && Some(ws[a]) == weight_at(
                    defs[places[a] as int].difficulty_weights@,
                    tier,
                    0,
                )
        }),
    decreases n,
{
    let all = rewarding(defs, tier, n);
    let init = rewarding(defs, tier, n - 1);
    lemma_rewarding(defs, tier, n);
    if weight_at(defs[i].difficulty_weights@, tier, 0) is Some {
        if i < n - 1 {
            law_rewards_are_those_with_a_weight(defs, tier, n - 1, i);
            let a = choose|a: int| 0 <= a < init.len() && init[a] == i as usize;
            assert(all[a] == i as usize);
        } else {
            assert(all.last() == i as usize);
        }
    }
}

proof fn lemma_rewarding(defs: Seq<LootContainerDef>, tier: u32, n: int)
    requires
        n <= defs.len() <= usize::MAX,
    ensures
        forall|a: int|
            0 <= a < rewarding(defs, tier, n).len() ==> (#[trigger] rewarding(defs, tier, n)[a]) < n
                && weight_at(
                defs[rewarding(defs, tier, n)[a] as int].difficulty_weights@,
                tier,
                0,
            ) is Some,
    decreases n,
{
    if n > 0 {
        lemma_rewarding(defs, tier, n - 1);
        let all = rewarding(defs, tier, n);
        let init = rewarding(defs, tier, n - 1);
        assert forall|a: int| 0 <= a < all.len() implies (#[trigger] all[a]) < n && weight_at(
            defs[all[a] as int].difficulty_weights@,
            tier,
            0,
        ) is Some by {
            if a < init.len() {
                assert(all[a] == init[a]);
            }
        }
    }
}

} // verus!
