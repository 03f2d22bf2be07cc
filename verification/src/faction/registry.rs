//! The factions of a world, their families and their relations.
use vstd::prelude::*;

use crate::components::{BaseKind, PersonalityArchetype};
use crate::faction::{band, band_from_score, Relation, SCORE_MAX, SCORE_MIN};
use crate::float_bits::{F32Bits, F32_ONE};
use crate::idmap::IdMap;
use crate::strmap::StrMap;
use crate::text::{str_before, str_eq};

verus! {

/// Number of a faction.
#[derive(Clone, Copy, Debug, PartialEq, Eq, Hash, PartialOrd, Ord, Structural)]
pub struct FactionId(pub u32);

/// One faction.
#[derive(Debug)]
pub struct FactionDef {
    pub id: FactionId,
    /// Name by which saves and tables know the faction.
    pub name: String,
    pub display: String,
    /// The faction it is a part of.
    pub parent: Option<FactionId>,
    pub road_friendly: bool,
    pub base_aggression: F32Bits,
    pub default_loadout: String,
    pub debug_color: [u8; 3],
    pub archetype: PersonalityArchetype,
    /// How likely each nationality is; empty for all alike.
    pub nationality_weights: StrMap<u32>,
    pub male_name_weight: Option<F32Bits>,
    /// `None` takes the parent's.
    pub squad_size: Option<SquadSize>,
    pub combat: Option<CombatCosts>,
    /// Empty takes the parent's.
    pub base_kinds: Vec<BaseKindWeight>,
}

/// A kind of base and how likely it is.
#[derive(Clone, Copy, Debug, PartialEq, Eq, Structural)]
pub struct BaseKindWeight {
    pub kind: BaseKind,
    pub weight: u32,
}

/// How many members a squad has, both ends included.
#[derive(Clone, Copy, Debug, PartialEq, Eq, Structural)]
pub struct SquadSize {
    pub min: u32,
    pub max: u32,
}

/// The size of squads where no faction of the family says otherwise.
pub open spec fn usual_squad_size() -> SquadSize {
    SquadSize { min: 2, max: 4 }
}

impl Default for SquadSize {
    fn default() -> (r: Self)
        ensures
            r == usual_squad_size(),
    {
        SquadSize { min: 2, max: 4 }
    }
}

/// What each action costs a faction in a fight.
#[derive(Clone, Copy, Debug, PartialEq, Eq, Structural)]
pub struct CombatCosts {
    pub shoot: F32Bits,
    pub advance: F32Bits,
    pub move_to_cover: F32Bits,
    pub peek: F32Bits,
    pub flank: F32Bits,
    pub suppress: F32Bits,
    pub retreat: F32Bits,
    pub reload: F32Bits,
    pub heal_ally: F32Bits,
}

/// The bit pattern of `1.5`.
pub const F32_ONE_AND_HALF: u32 = 0x3fc0_0000;

/// The bit pattern of `2.0`.
pub const F32_TWO: u32 = 0x4000_0000;

/// The bit pattern of `2.5`.
pub const F32_TWO_AND_HALF: u32 = 0x4020_0000;

/// The bit pattern of `3.0`.
pub const F32_THREE: u32 = 0x4040_0000;

/// The bit pattern of `4.0`.
pub const F32_FOUR: u32 = 0x4080_0000;

/// What actions cost a faction that does not say.
pub open spec fn usual_costs() -> CombatCosts {
    CombatCosts {
        shoot: F32Bits(F32_ONE),
        advance: F32Bits(F32_THREE),
        move_to_cover: F32Bits(F32_TWO),
        peek: F32Bits(F32_ONE_AND_HALF),
        flank: F32Bits(F32_THREE),
        suppress: F32Bits(F32_TWO_AND_HALF),
        retreat: F32Bits(F32_FOUR),
        reload: F32Bits(F32_TWO),
        heal_ally: F32Bits(F32_TWO_AND_HALF),
    }
}

impl Default for CombatCosts {
    fn default() -> (r: Self)
        ensures
            r == usual_costs(),
    {
        CombatCosts {
            shoot: F32Bits(F32_ONE),
            advance: F32Bits(F32_THREE),
            move_to_cover: F32Bits(F32_TWO),
            peek: F32Bits(F32_ONE_AND_HALF),
            flank: F32Bits(F32_THREE),
            suppress: F32Bits(F32_TWO_AND_HALF),
            retreat: F32Bits(F32_FOUR),
            reload: F32Bits(F32_TWO),
            heal_ally: F32Bits(F32_TWO_AND_HALF),
        }
    }
}

/// All factions, in the order of their names.
#[derive(Debug)]
pub struct FactionRegistry {
    defs: Vec<FactionDef>,
    /// Scores set for pairs, by [`pair_key`].
    pair_overrides: IdMap<i16>,
    default_relation: i16,
    self_relation: i16,
    player_baseline: Option<FactionId>,
}

/// How far relations have drifted, by the names of a pair, that of the lower
/// number first.
#[derive(Debug)]
pub struct RelationDeltas {
    pub by_pair: StrMap<StrMap<i16>>,
}

/// How players stand with factions, by player and by name of faction.
#[derive(Debug)]
pub struct PlayerReputation {
    pub by_player: IdMap<StrMap<i16>>,
}

/// One number for two factions, whichever comes first.
pub open spec fn pair_key(a: FactionId, b: FactionId) -> u64 {
    if a.0 <= b.0 {
        (a.0 * 0x1_0000_0000 + b.0) as u64
    } else {
        (b.0 * 0x1_0000_0000 + a.0) as u64
    }
}

/// The two factions, the lower number first.
pub fn canonical_pair(a: FactionId, b: FactionId) -> (r: (FactionId, FactionId))
    ensures
        r == (if a.0 <= b.0 {
            (a, b)
        } else {
            (b, a)
        }),
{
    if a.0 <= b.0 {
        (a, b)
    } else {
        (b, a)
    }
}

/// One number for two factions.
pub(crate) fn key_of(a: FactionId, b: FactionId) -> (r: u64)
    ensures
        r == pair_key(a, b),
{
    let (lo, hi) = canonical_pair(a, b);
    (lo.0 as u64) * 0x1_0000_0000 + hi.0 as u64
}

/// Different pairs have different numbers.
pub proof fn law_pairs_have_keys_of_their_own(a: FactionId, b: FactionId, c: FactionId, d: FactionId)
    requires
        pair_key(a, b) == pair_key(c, d),
    ensures
        (a == c && b == d) || (a == d && b == c),
{
}

/// Keeps a score in range.
pub open spec fn clamped(score: int) -> int {
    if score < SCORE_MIN {
        SCORE_MIN as int
    } else if score > SCORE_MAX {
        SCORE_MAX as int
    } else {
        score
    }
}

/// Keeps a score in range.
pub fn clamp_score(score: i16) -> (r: i16)
    ensures
        r == clamped(score as int),
{
    if score < SCORE_MIN {
        SCORE_MIN
    } else if score > SCORE_MAX {
        SCORE_MAX
    } else {
        score
    }
}

/// Sum of two scores, kept within 16 bits.
pub open spec fn saturated(a: int, b: int) -> int {
    if a + b > i16::MAX {
        i16::MAX as int
    } else if a + b < i16::MIN {
        i16::MIN as int
    } else {
        a + b
    }
}

/// Sum of two scores, kept within 16 bits.
fn add_scores(a: i16, b: i16) -> (r: i16)
    ensures
        r == saturated(a as int, b as int),
{
    match a.checked_add(b) {
        Some(sum) => sum,
        None => if b > 0 {
            i16::MAX
        } else {
            i16::MIN
        },
    }
}

/// The families of factions: for each its parent.
pub open spec fn parents_of(defs: Seq<FactionDef>) -> Seq<Option<FactionId>> {
    Seq::new(defs.len(), |i: int| defs[i].parent)
}

/// The ancestors of a faction, nearest first, going up `steps` generations at
/// most.
pub open spec fn ancestors(
    parents: Seq<Option<FactionId>>,
    id: FactionId,
    steps: nat,
) -> Seq<FactionId>
    decreases steps,
{
    if steps == 0 || id.0 >= parents.len() {
        Seq::empty()
    } else {
        match parents[id.0 as int] {
            None => Seq::empty(),
            Some(p) => seq![p] + ancestors(parents, p, (steps - 1) as nat),
        }
    }
}

/// The score of the first pair made of one of `left` and `right` that has one.
pub open spec fn first_score(
    scores: Map<u64, i16>,
    left: Seq<FactionId>,
    right: FactionId,
) -> Option<i16>
    decreases left.len(),
{
    if left.len() == 0 {
        None
    } else if scores.contains_key(pair_key(left[0], right)) {
        Some(scores[pair_key(left[0], right)])
    } else {
        first_score(scores, left.drop_first(), right)
    }
}

/// The score set for two factions or for the nearest of their ancestors: that
/// of the pair itself, else that of an ancestor of `a` with `b`, else that of
/// `a` with an ancestor of `b`.
pub open spec fn family_score(
    scores: Map<u64, i16>,
    parents: Seq<Option<FactionId>>,
    a: FactionId,
    b: FactionId,
) -> Option<i16> {
    if scores.contains_key(pair_key(a, b)) {
        Some(scores[pair_key(a, b)])
    } else {
        let by_a = first_score(scores, ancestors(parents, a, parents.len()), b);
        if by_a is Some {
            by_a
        } else {
            first_score(scores, ancestors(parents, b, parents.len()), a)
        }
    }
}

impl RelationDeltas {
    /// How far the pair's relation has drifted.
    pub open spec fn drift(self, lo: Seq<char>, hi: Seq<char>) -> int {
        if self.by_pair@.contains_key(lo) && self.by_pair@[lo]@.contains_key(hi) {
            self.by_pair@[lo]@[hi] as int
        } else {
            0
        }
    }

    /// No drift.
    pub fn new() -> (r: Self)
        ensures
            forall|lo: Seq<char>, hi: Seq<char>| #[trigger] r.drift(lo, hi) == 0,
    {
        RelationDeltas { by_pair: StrMap::new() }
    }
}

impl PlayerReputation {
    /// How the player stands with the faction, where that was ever noted.
    pub open spec fn standing(self, player: u64, faction: Seq<char>) -> Option<i16> {
        if self.by_player@.contains_key(player) && self.by_player@[player]@.contains_key(faction) {
            Some(self.by_player@[player]@[faction])
        } else {
            None
        }
    }

    /// Nothing noted.
    pub fn new() -> (r: Self)
        ensures
            forall|p: u64, f: Seq<char>| #[trigger] r.standing(p, f) is None,
    {
        PlayerReputation { by_player: IdMap::new() }
    }
}

impl FactionRegistry {
    #[verifier::type_invariant]
    spec fn inv(self) -> bool {
        &&& self.defs@.len() <= u32::MAX
        &&& SCORE_MIN <= self.default_relation <= SCORE_MAX
        &&& SCORE_MIN <= self.self_relation <= SCORE_MAX
        &&& Self::parents_known(self.defs@)
        &&& Self::in_order(self.defs@)
        &&& self.player_baseline matches Some(baseline) ==> baseline.0 < self.defs@.len()
    }

    /// The factions, by number.
    pub closed spec fn list(self) -> Seq<FactionDef> {
        self.defs@
    }

    /// The scores set for pairs.
    pub closed spec fn scores(self) -> Map<u64, i16> {
        self.pair_overrides@
    }

    /// The score of pairs that nothing is set for.
    pub closed spec fn usual(self) -> int {
        self.default_relation as int
    }

    /// The score of a faction with itself.
    pub closed spec fn own(self) -> int {
        self.self_relation as int
    }

    /// The faction that strangers are taken for.
    pub closed spec fn stranger(self) -> Option<FactionId> {
        self.player_baseline
    }

    /// The factions are in the order of their names, which are all different.
    pub open spec fn in_order(defs: Seq<FactionDef>) -> bool {
        forall|i: int, j: int|
            0 <= i < j < defs.len() ==> str_before(
                (#[trigger] defs[i]).name@,
                (#[trigger] defs[j]).name@,
            )
    }

    /// Every parent is one of the factions.
    pub open spec fn parents_known(defs: Seq<FactionDef>) -> bool {
        forall|i: int, p: FactionId|
            0 <= i < defs.len() && (#[trigger] defs[i]).parent == Some(p) ==> (#[trigger] p.0)
                < defs.len()
    }

    /// A registry of the given factions and scores.
    pub(crate) fn assemble(
        defs: Vec<FactionDef>,
        pair_overrides: IdMap<i16>,
        default_relation: i16,
        self_relation: i16,
        player_baseline: Option<FactionId>,
    ) -> (r: Self)
        requires
            defs@.len() <= u32::MAX,
            SCORE_MIN <= default_relation <= SCORE_MAX,
            SCORE_MIN <= self_relation <= SCORE_MAX,
            Self::in_order(defs@),
            Self::parents_known(defs@),
            player_baseline matches Some(baseline) ==> baseline.0 < defs@.len(),
        ensures
            r.list() == defs@,
            r.scores() == pair_overrides@,
            r.usual() == default_relation,
            r.own() == self_relation,
            r.stranger() == player_baseline,
    {
        FactionRegistry { defs, pair_overrides, default_relation, self_relation, player_baseline }
    }

    /// Every faction, by number.
    pub fn defs(&self) -> (r: &[FactionDef])
        ensures
            r@ == self.list(),
    {
        self.defs.as_slice()
    }

    /// How many factions there are.
    pub fn count(&self) -> (r: usize)
        ensures
            r == self.list().len(),
    {
        self.defs.len()
    }

    /// The faction with the given number.
    pub fn def(&self, id: FactionId) -> (r: &FactionDef)
        requires
            id.0 < self.list().len(),
        ensures
            *r == self.list()[id.0 as int],
    {
        &self.defs[id.0 as usize]
    }

    /// The number of the faction with the given name.
    pub fn id_of(&self, name: &str) -> (r: Option<FactionId>)
        ensures
            match r {
                Some(id) => id.0 < self.list().len() && self.list()[id.0 as int].name@ == name@,
                None => forall|i: int|
                    0 <= i < self.list().len() ==> (#[trigger] self.list()[i]).name@ != name@,
            },
    {
        proof {
            use_type_invariant(self);
        }
        let mut i: usize = 0;
        while i < self.defs.len()
            invariant
                i <= self.defs@.len(),
                self.defs@.len() <= u32::MAX,
                forall|k: int| 0 <= k < i ==> (#[trigger] self.defs@[k]).name@ != name@,
            decreases self.defs@.len() - i,
        {
            if str_eq(self.defs[i].name.as_str(), name) {
                return Some(FactionId(i as u32));
            }
            i += 1;
        }
        None
    }

    /// The name of a faction.
    pub fn name_of(&self, id: FactionId) -> (r: &str)
        requires
            id.0 < self.list().len(),
        ensures
            r@ == self.list()[id.0 as int].name@,
    {
        self.defs[id.0 as usize].name.as_str()
    }

    /// The score of pairs that nothing is set for.
    pub fn default_relation(&self) -> (r: i16)
        ensures
            r == self.usual(),
            SCORE_MIN <= r <= SCORE_MAX,
    {
        proof {
            use_type_invariant(self);
        }
        self.default_relation
    }

    /// The faction that strangers are taken for.
    pub fn player_baseline(&self) -> (r: Option<FactionId>)
        ensures
            r == self.stranger(),
            r matches Some(baseline) ==> baseline.0 < self.list().len(),
    {
        proof {
            use_type_invariant(self);
        }
        self.player_baseline
    }

    /// A faction and its ancestors, nearest first.
    pub open spec fn family(self, id: FactionId) -> Seq<FactionId> {
        seq![id] + ancestors(parents_of(self.list()), id, self.list().len())
    }

    /// A faction and its ancestors, nearest first.
    pub fn family_of(&self, id: FactionId) -> (r: Vec<FactionId>)
        requires
            id.0 < self.list().len(),
        ensures
            r@ == self.family(id),
            forall|k: int| 0 <= k < r@.len() ==> (#[trigger] r@[k]).0 < self.list().len(),
    {
        proof {
            use_type_invariant(self);
        }
        let ghost parents = parents_of(self.list());
        let mut r: Vec<FactionId> = Vec::new();
        r.push(id);
        let mut cur: FactionId = id;
        let mut steps: usize = self.defs.len();
        proof {
            assert(seq![id] + ancestors(parents, id, steps as nat) =~= r@ + ancestors(
                parents,
                cur,
                steps as nat,
            ));
        }
        while steps > 0
            invariant
                parents == parents_of(self.defs@),
                cur.0 < self.defs@.len(),
                forall|i: int, p: FactionId|
                    0 <= i < self.defs@.len() && (#[trigger] self.defs@[i]).parent == Some(p)
                        ==> (#[trigger] p.0) < self.defs@.len(),
                seq![id] + ancestors(parents, id, self.defs@.len()) == r@ + ancestors(
                    parents,
                    cur,
                    steps as nat,
                ),
                forall|k: int| 0 <= k < r@.len() ==> (#[trigger] r@[k]).0 < self.defs@.len(),
            decreases steps,
        {
            match self.defs[cur.0 as usize].parent {
                None => {
                    assert(r@ + Seq::<FactionId>::empty() =~= r@);
                    return r;
                },
                Some(p) => {
                    proof {
                        assert(self.defs@[cur.0 as int].parent == Some(p));
                        let rest = ancestors(parents, p, (steps - 1) as nat);
                        assert(r@ + (seq![p] + rest) =~= r@.push(p) + rest);
                    }
                    r.push(p);
                    cur = p;
                    steps -= 1;
                },
            }
        }
        assert(r@ + Seq::<FactionId>::empty() =~= r@);
        r
    }

    /// What `pick` makes of the name of the faction, or else of that of its
    /// nearest ancestor that it makes anything of.
    pub fn resolve_with_parent_walk<T, F: Fn(&str) -> Option<T>>(
        &self,
        id: FactionId,
        pick: F,
    ) -> (r: Option<T>)
        requires
            id.0 < self.list().len(),
            forall|s: &str| #[trigger] pick.requires((s,)),
        ensures
            match r {
                Some(t) => exists|k: int, s: &str|
                    #![trigger self.family(id)[k], pick.ensures((s,), Some(t))]
                    0 <= k < self.family(id).len() && s@
                        == self.list()[self.family(id)[k].0 as int].name@ && pick.ensures(
                        (s,),
                        Some(t),
                    ) && self.all_refused(id, pick, k),
                None => self.all_refused(id, pick, self.family(id).len() as int),
            },
    {
        let family = self.family_of(id);
        let mut i: usize = 0;
        while i < family.len()
            invariant
                i <= family@.len(),
                family@ == self.family(id),
                forall|k: int| 0 <= k < family@.len() ==> (#[trigger] family@[k]).0 < self.list().len(),
                forall|s: &str| #[trigger] pick.requires((s,)),
                self.all_refused(id, pick, i as int),
            decreases family@.len() - i,
        {
            let name = self.name_of(family[i]);
            let ghost head = self.family(id)[i as int];
            match pick(name) {
                Some(t) => {
                    assert(pick.ensures((name,), Some(t)));
                    return Some(t);
                },
                None => {
                    assert(pick.ensures((name,), None::<T>));
                    assert(self.refused(pick, head));
                },
            }
            i += 1;
        }
        None
    }

    /// `pick` made nothing of the faction's name.
    pub open spec fn refused<T, F: Fn(&str) -> Option<T>>(self, pick: F, id: FactionId) -> bool {
        exists|s: &str|
            s@ == self.list()[id.0 as int].name@ && #[trigger] pick.ensures((s,), None::<T>)
    }

    /// `pick` made nothing of the names of the first `n` of the family.
    pub open spec fn all_refused<T, F: Fn(&str) -> Option<T>>(
        self,
        id: FactionId,
        pick: F,
        n: int,
    ) -> bool {
        forall|k: int| 0 <= k < n ==> self.refused(pick, #[trigger] self.family(id)[k])
    }

    /// The factions that are part of no other, in order.
    pub open spec fn heads(self, n: int) -> Seq<FactionId>
        decreases n,
    {
        if n <= 0 {
            Seq::empty()
        } else if self.list()[n - 1].parent is None {
            self.heads(n - 1).push(FactionId((n - 1) as u32))
        } else {
            self.heads(n - 1)
        }
    }

    /// The factions that are part of no other, in order.
    pub fn top_level(&self) -> (r: Vec<FactionId>)
        ensures
            r@ == self.heads(self.list().len() as int),
    {
        proof {
            use_type_invariant(self);
        }
        let mut r: Vec<FactionId> = Vec::new();
        let mut i: usize = 0;
        while i < self.defs.len()
            invariant
                i <= self.defs@.len(),
                self.defs@.len() <= u32::MAX,
                r@ == self.heads(i as int),
            decreases self.defs@.len() - i,
        {
            if self.defs[i].parent.is_none() {
                r.push(FactionId(i as u32));
            }
            i += 1;
        }
        r
    }

    /// The size of squads that the first of the family that has one gives.
    pub open spec fn squad_size_in(self, family: Seq<FactionId>) -> SquadSize
        decreases family.len(),
    {
        if family.len() == 0 {
            usual_squad_size()
        } else {
            match self.list()[family[0].0 as int].squad_size {
                Some(s) => s,
                None => self.squad_size_in(family.drop_first()),
            }
        }
    }

    /// How many members squads of the faction have: what it says, or what its
    /// nearest ancestor says, or the usual number.
    pub fn squad_size(&self, id: FactionId) -> (r: SquadSize)
        requires
            id.0 < self.list().len(),
        ensures
            r == self.squad_size_in(self.family(id)),
    {
        let family = self.family_of(id);
        let mut i: usize = 0;
        assert(family@.skip(0) =~= family@);
        while i < family.len()
            invariant
                i <= family@.len(),
                forall|k: int| 0 <= k < family@.len() ==> (#[trigger] family@[k]).0 < self.list().len(),
                family@ == self.family(id),
                self.squad_size_in(family@) == self.squad_size_in(family@.skip(i as int)),
            decreases family@.len() - i,
        {
            assert(family@.skip(i as int)[0] == family@[i as int]);
            assert(family@.skip(i as int).drop_first() =~= family@.skip(i + 1));
            if let Some(s) = self.def(family[i]).squad_size {
                return s;
            }
            i += 1;
        }
        SquadSize::default()
    }

    /// What actions cost the faction in a fight; ancestors do not count.
    pub fn combat_costs(&self, id: FactionId) -> (r: CombatCosts)
        requires
            id.0 < self.list().len(),
        ensures
            r == (match self.list()[id.0 as int].combat {
                Some(c) => c,
                None => usual_costs(),
            }),
    {
        match self.def(id).combat {
            Some(c) => c,
            None => CombatCosts::default(),
        }
    }

    /// The kinds of bases that the first of the family that has any gives.
    pub open spec fn base_kinds_in(self, family: Seq<FactionId>) -> Seq<BaseKindWeight>
        decreases family.len(),
    {
        if family.len() == 0 {
            seq![
                BaseKindWeight { kind: BaseKind::Outpost, weight: 3 },
                BaseKindWeight { kind: BaseKind::Safehouse, weight: 1 },
            ]
        } else if self.list()[family[0].0 as int].base_kinds@.len() > 0 {
            self.list()[family[0].0 as int].base_kinds@
        } else {
            self.base_kinds_in(family.drop_first())
        }
    }

    /// The kinds of bases that the faction builds: its own, or those of its
    /// nearest ancestor that has any, or outposts and a few safehouses.
    pub fn base_kind_weights(&self, id: FactionId) -> (r: Vec<BaseKindWeight>)
        requires
            id.0 < self.list().len(),
        ensures
            r@ == self.base_kinds_in(self.family(id)),
    {
        let family = self.family_of(id);
        let mut i: usize = 0;
        assert(family@.skip(0) =~= family@);
        while i < family.len()
            invariant
                i <= family@.len(),
                forall|k: int| 0 <= k < family@.len() ==> (#[trigger] family@[k]).0 < self.list().len(),
                family@ == self.family(id),
                self.base_kinds_in(family@) == self.base_kinds_in(family@.skip(i as int)),
            decreases family@.len() - i,
        {
            assert(family@.skip(i as int)[0] == family@[i as int]);
            assert(family@.skip(i as int).drop_first() =~= family@.skip(i + 1));
            let def = self.def(family[i]);
            if def.base_kinds.len() > 0 {
                let mut r: Vec<BaseKindWeight> = Vec::new();
                let mut k: usize = 0;
                while k < def.base_kinds.len()
                    invariant
                        k <= def.base_kinds@.len(),
                        r@ == def.base_kinds@.take(k as int),
                    decreases def.base_kinds@.len() - k,
                {
                    r.push(def.base_kinds[k]);
                    k += 1;
                    assert(def.base_kinds@.take(k as int) =~= def.base_kinds@.take(k - 1).push(
                        def.base_kinds@[k - 1],
                    ));
                }
                assert(def.base_kinds@.take(k as int) =~= def.base_kinds@);
                return r;
            }
            i += 1;
        }
        let r = vec![
            BaseKindWeight { kind: BaseKind::Outpost, weight: 3 },
            BaseKindWeight { kind: BaseKind::Safehouse, weight: 1 },
        ];
        assert(r@ =~= self.base_kinds_in(Seq::empty()));
        assert(family@.skip(i as int) =~= Seq::<FactionId>::empty());
        r
    }

    /// The score of two factions: a faction's own with itself; else what is
    /// set for the pair or its family, or the usual score, with the drift
    /// added, in range.
    pub open spec fn score(self, deltas: RelationDeltas, a: FactionId, b: FactionId) -> int {
        if a == b {
            self.own()
        } else {
            let base = match family_score(self.scores(), parents_of(self.list()), a, b) {
                Some(s) => s as int,
                None => self.usual(),
            };
            clamped(saturated(base, self.pair_drift(deltas, a, b)))
        }
    }

    /// How far the relation of two factions has drifted.
    pub open spec fn pair_drift(self, deltas: RelationDeltas, a: FactionId, b: FactionId) -> int {
        let lo = if a.0 <= b.0 { a } else { b };
        let hi = if a.0 <= b.0 { b } else { a };
        deltas.drift(self.list()[lo.0 as int].name@, self.list()[hi.0 as int].name@)
    }

    /// How a player stands with a faction: what was noted, in range; else as
    /// the faction that strangers are taken for; else the usual score.
    pub open spec fn player_score(
        self,
        rep: PlayerReputation,
        deltas: RelationDeltas,
        player: u64,
        f: FactionId,
    ) -> int {
        match rep.standing(player, self.list()[f.0 as int].name@) {
            Some(s) => clamped(s as int),
            None => match self.stranger() {
                Some(baseline) => self.score(deltas, baseline, f),
                None => self.usual(),
            },
        }
    }
}

/// The score of the first pair made of one of `left` from place `from` on and
/// `right` that has one.
fn find_score(scores: &IdMap<i16>, left: &Vec<FactionId>, from: usize, right: FactionId) -> (r:
    Option<i16>)
    requires
        from <= left@.len(),
    ensures
        r == first_score(scores@, left@.skip(from as int), right),
{
    let mut i: usize = from;
    while i < left.len()
        invariant
            from <= i <= left@.len(),
            first_score(scores@, left@.skip(from as int), right) == first_score(
                scores@,
                left@.skip(i as int),
                right,
            ),
        decreases left@.len() - i,
    {
        assert(left@.skip(i as int)[0] == left@[i as int]);
        assert(left@.skip(i as int).drop_first() =~= left@.skip(i + 1));
        if let Some(s) = scores.get(key_of(left[i], right)) {
            return Some(*s);
        }
        i += 1;
    }
    None
}

/// The score set for two factions or for the nearest of their ancestors.
pub fn base_score_with_inheritance(reg: &FactionRegistry, a: FactionId, b: FactionId) -> (r:
    Option<i16>)
    requires
        a.0 < reg.list().len(),
        b.0 < reg.list().len(),
    ensures
        r == family_score(reg.scores(), parents_of(reg.list()), a, b),
{
    if let Some(s) = reg.pair_overrides.get(key_of(a, b)) {
        return Some(*s);
    }
    let ghost parents = parents_of(reg.list());
    let up_a = reg.family_of(a);
    proof {
        assert(up_a@.skip(1) =~= ancestors(parents, a, parents.len()));
    }
    if let Some(s) = find_score(&reg.pair_overrides, &up_a, 1, b) {
        return Some(s);
    }
    let up_b = reg.family_of(b);
    proof {
        assert(up_b@.skip(1) =~= ancestors(parents, b, parents.len()));
    }
    find_score(&reg.pair_overrides, &up_b, 1, a)
}

/// How far the relation of two factions has drifted.
fn drift_of(reg: &FactionRegistry, deltas: &RelationDeltas, a: FactionId, b: FactionId) -> (r: i16)
    requires
        a.0 < reg.list().len(),
        b.0 < reg.list().len(),
    ensures
        r == reg.pair_drift(*deltas, a, b),
{
    let (lo, hi) = canonical_pair(a, b);
    match deltas.by_pair.get(reg.name_of(lo)) {
        Some(row) => match row.get(reg.name_of(hi)) {
            Some(d) => *d,
            None => 0,
        },
        None => 0,
    }
}

/// The score of two factions.
pub fn faction_relation_score(
    reg: &FactionRegistry,
    deltas: &RelationDeltas,
    a: FactionId,
    b: FactionId,
) -> (r: i16)
    requires
        a.0 < reg.list().len(),
        b.0 < reg.list().len(),
    ensures
        r == reg.score(*deltas, a, b),
        SCORE_MIN <= r <= SCORE_MAX,
{
    proof {
        use_type_invariant(reg);
    }
    if a == b {
        return reg.self_relation;
    }
    let base: i16 = match base_score_with_inheritance(reg, a, b) {
        Some(s) => s,
        None => reg.default_relation,
    };
    clamp_score(add_scores(base, drift_of(reg, deltas, a, b)))
}

/// The band of the score of two factions.
pub fn faction_relation(
    reg: &FactionRegistry,
    deltas: &RelationDeltas,
    a: FactionId,
    b: FactionId,
) -> (r: Relation)
    requires
        a.0 < reg.list().len(),
        b.0 < reg.list().len(),
    ensures
        r == band(reg.score(*deltas, a, b)),
{
    band_from_score(faction_relation_score(reg, deltas, a, b))
}

/// How a player stands with a faction, as a score.
pub fn player_relation_score(
    reg: &FactionRegistry,
    rep: &PlayerReputation,
    deltas: &RelationDeltas,
    player: u64,
    f: FactionId,
) -> (r: i16)
    requires
        f.0 < reg.list().len(),
    ensures
        r == reg.player_score(*rep, *deltas, player, f),
        SCORE_MIN <= r <= SCORE_MAX,
{
    proof {
        use_type_invariant(reg);
    }
    let name = reg.name_of(f);
    if let Some(row) = rep.by_player.get(player) {
        if let Some(score) = row.get(name) {
            return clamp_score(*score);
        }
    }
    match reg.player_baseline {
        Some(baseline) => faction_relation_score(reg, deltas, baseline, f),
        None => reg.default_relation,
    }
}

/// How a player stands with a faction, as a band.
pub fn player_relation(
    reg: &FactionRegistry,
    rep: &PlayerReputation,
    deltas: &RelationDeltas,
    player: u64,
    f: FactionId,
) -> (r: Relation)
    requires
        f.0 < reg.list().len(),
    ensures
        r == band(reg.player_score(*rep, *deltas, player, f)),
{
    band_from_score(player_relation_score(reg, rep, deltas, player, f))
}

/// `after` is `before` with the relation of two factions shifted.
pub open spec fn shifted(
    reg: FactionRegistry,
    before: RelationDeltas,
    after: RelationDeltas,
    a: FactionId,
    b: FactionId,
    delta: int,
) -> bool {
    let lo = reg.list()[(if a.0 <= b.0 { a } else { b }).0 as int].name@;
    let hi = reg.list()[(if a.0 <= b.0 { b } else { a }).0 as int].name@;
    forall|x: Seq<char>, y: Seq<char>| #[trigger]
        after.drift(x, y) == (if x == lo && y == hi {
            saturated(before.drift(x, y), delta)
        } else {
            before.drift(x, y)
        })
}

/// Lets the relation of two factions drift. Drift adds up without limit but
/// that of 16 bits; only the score is kept in range.
pub fn shift_faction_relation(
    reg: &FactionRegistry,
    deltas: &mut RelationDeltas,
    a: FactionId,
    b: FactionId,
    delta: i16,
)
    requires
        a.0 < reg.list().len(),
        b.0 < reg.list().len(),
    ensures
        shifted(*reg, *old(deltas), *final(deltas), a, b, delta as int),
{
    let (lo, hi) = canonical_pair(a, b);
    let lo_name = reg.name_of(lo);
    let hi_name = reg.name_of(hi);
    let mut row: StrMap<i16> = match deltas.by_pair.remove(lo_name) {
        Some(row) => row,
        None => StrMap::new(),
    };
    let was: i16 = match row.get(hi_name) {
        Some(d) => *d,
        None => 0,
    };
    row.insert(hi_name.to_owned(), add_scores(was, delta));
    deltas.by_pair.insert(lo_name.to_owned(), row);
}

/// `after` is `before` with one player's standing with one faction shifted,
/// from zero where nothing was noted.
pub open spec fn rep_shifted(
    reg: FactionRegistry,
    before: PlayerReputation,
    after: PlayerReputation,
    player: u64,
    f: FactionId,
    delta: int,
) -> bool {
    forall|p: u64, x: Seq<char>| #[trigger]
        after.standing(p, x) == (if p == player && x == reg.list()[f.0 as int].name@ {
            Some(
                saturated(
                    (match before.standing(p, x) {
                        Some(s) => s as int,
                        None => 0,
                    }),
                    delta,
                ) as i16,
            )
        } else {
            before.standing(p, x)
        })
}

/// Lets a player's standing with a faction drift, from zero where nothing was
/// noted.
pub fn shift_player_rep(
    reg: &FactionRegistry,
    rep: &mut PlayerReputation,
    player: u64,
    f: FactionId,
    delta: i16,
)
    requires
        f.0 < reg.list().len(),
    ensures
        rep_shifted(*reg, *old(rep), *final(rep), player, f, delta as int),
{
    let name = reg.name_of(f);
    let mut row: StrMap<i16> = match rep.by_player.remove(player) {
        Some(row) => row,
        None => StrMap::new(),
    };
    let was: i16 = match row.get(name) {
        Some(d) => *d,
        None => 0,
    };
    row.insert(name.to_owned(), add_scores(was, delta));
    let _ = rep.by_player.insert(player, row);
}

/// What one player does changes no other player's standing anywhere.
pub proof fn law_reputation_is_per_player(
    reg: FactionRegistry,
    before: PlayerReputation,
    after: PlayerReputation,
    deltas: RelationDeltas,
    player: u64,
    other: u64,
    f: FactionId,
    g: FactionId,
)
    requires
        other != player,
        forall|p: u64, x: Seq<char>|
            !(p == player && x == reg.list()[f.0 as int].name@) ==> #[trigger] after.standing(p, x)
                == before.standing(p, x),
    ensures
        reg.player_score(after, deltas, other, g) == reg.player_score(before, deltas, other, g),
{
}

/// Two factions see each other alike, unless nothing is set for the pair and
/// what their families lead to differs with who asks.
pub proof fn law_relation_is_mutual(
    reg: FactionRegistry,
    deltas: RelationDeltas,
    a: FactionId,
    b: FactionId,
)
    requires
        ({
            let parents = parents_of(reg.list());
            let by_a = first_score(reg.scores(), ancestors(parents, a, parents.len()), b);
            let by_b = first_score(reg.scores(), ancestors(parents, b, parents.len()), a);
            reg.scores().contains_key(pair_key(a, b)) || by_a is None || by_b is None || by_a
                == by_b
        }),
    ensures
        reg.score(deltas, a, b) == reg.score(deltas, b, a),
{
}

/// A part of a faction is seen as the faction is, where nothing is set for the
/// part itself.
pub proof fn law_parts_inherit_relations(
    reg: FactionRegistry,
    child: FactionId,
    parent: FactionId,
    other: FactionId,
)
    requires
        child.0 < reg.list().len(),
        reg.list()[child.0 as int].parent == Some(parent),
        !reg.scores().contains_key(pair_key(child, other)),
        reg.scores().contains_key(pair_key(parent, other)),
    ensures
        family_score(reg.scores(), parents_of(reg.list()), child, other) == Some(
            reg.scores()[pair_key(parent, other)],
        ),
{
    let parents = parents_of(reg.list());
    let up = ancestors(parents, child, parents.len());
    assert(up[0] == parent);
}

/// Drift back undoes drift, as long as neither meets the limit of 16 bits.
pub proof fn law_drift_back_undoes_drift(drift: int, delta: int)
    requires
        i16::MIN <= drift <= i16::MAX,
        i16::MIN <= drift + delta <= i16::MAX,
    ensures
        saturated(saturated(drift, delta), -delta) == drift,
{
}

/// A score in range stays, one out of range goes to the nearer end, and the
/// range reaches from -100 to 100.
pub proof fn law_scores_are_kept_in_range(score: int)
    ensures
        -100 <= score <= 100 ==> clamped(score) == score,
        score < -100 ==> clamped(score) == -100,
        score > 100 ==> clamped(score) == 100,
{
}

/// Scores add up as far as 16 bits reach, and no further.
pub proof fn law_scores_add_up(a: int, b: int)
    ensures
        -0x8000 <= a + b <= 0x7fff ==> saturated(a, b) == a + b,
        a + b < -0x8000 ==> saturated(a, b) == -0x8000,
        a + b > 0x7fff ==> saturated(a, b) == 0x7fff,
{
}

/// The registry's scores lie in range, and its factions have names of their
/// own.
pub open spec fn sound(reg: FactionRegistry) -> bool {
    &&& -100 <= reg.usual() <= 100
    &&& forall|k: u64| #[trigger]
        reg.scores().contains_key(k) ==> -100 <= reg.scores()[k] <= 100
    &&& forall|i: int, j: int|
        0 <= i < j < reg.list().len() ==> (#[trigger] reg.list()[i]).name@ != (
        #[trigger] reg.list()[j]).name@
}

/// The score that was found is one that was set.
proof fn lemma_first_score_set(scores: Map<u64, i16>, left: Seq<FactionId>, right: FactionId)
    ensures
        first_score(scores, left, right) matches Some(s) ==> exists|k: u64| #[trigger]
            scores.contains_key(k) && scores[k] == s,
    decreases left.len(),
{
    if left.len() > 0 {
        lemma_first_score_set(scores, left.drop_first(), right);
    }
}

/// Drift counts for every two factions, whether their score is set, inherited
/// or the usual one: it is added to the score that they have without any drift,
/// and the sum is kept from -100 to 100. A faction's score with itself never
/// drifts.
pub proof fn law_drift_counts_for_all(
    reg: FactionRegistry,
    calm: RelationDeltas,
    deltas: RelationDeltas,
    a: FactionId,
    b: FactionId,
)
    requires
        sound(reg),
        reg.pair_drift(calm, a, b) == 0,
    ensures
        a != b ==> {
            let sum = reg.score(calm, a, b) + reg.pair_drift(deltas, a, b);
            reg.score(deltas, a, b) == if sum < -100 {
                -100
            } else if sum > 100 {
                100
            } else {
                sum
            }
        },
        a == b ==> reg.score(deltas, a, b) == reg.score(calm, a, b),
{
    let parents = parents_of(reg.list());
    lemma_first_score_set(reg.scores(), ancestors(parents, a, parents.len()), b);
    lemma_first_score_set(reg.scores(), ancestors(parents, b, parents.len()), a);
}

/// Shifting the relation of two factions adds to their drift, whoever is named
/// first, and changes that of no other two. From no drift a shift by 200 or
/// more makes any two friends, and one by -200 or less makes them foes.
pub proof fn law_shifts_move_relations(
    reg: FactionRegistry,
    before: RelationDeltas,
    after: RelationDeltas,
    a: FactionId,
    b: FactionId,
    delta: i16,
    c: FactionId,
    d: FactionId,
)
    requires
        sound(reg),
        a.0 < reg.list().len() && b.0 < reg.list().len(),
        c.0 < reg.list().len() && d.0 < reg.list().len(),
        shifted(reg, before, after, a, b, delta as int),
    ensures
        ({
            let sum = reg.pair_drift(before, a, b) + delta;
            &&& -0x8000 <= sum <= 0x7fff ==> reg.pair_drift(after, a, b) == sum
            &&& reg.pair_drift(after, a, b) == reg.pair_drift(after, b, a)
        }),
        shifted(reg, before, after, b, a, delta as int),
        !(c == a && d == b) && !(c == b && d == a) ==> reg.pair_drift(after, c, d)
            == reg.pair_drift(before, c, d) && reg.score(after, c, d) == reg.score(before, c, d),
        a != b && reg.pair_drift(before, a, b) == 0 && delta <= -200 ==> reg.score(after, a, b)
            == -100 && band(reg.score(after, a, b)) == Relation::Hostile,
        a != b && reg.pair_drift(before, a, b) == 0 && delta >= 200 ==> reg.score(after, a, b)
            == 100 && band(reg.score(after, a, b)) == Relation::Friendly,
        a == b ==> reg.score(after, a, b) == reg.score(before, a, b),
{
    assert forall|f: FactionId, g: FactionId|
        f.0 < reg.list().len() && g.0 < reg.list().len() && #[trigger] reg.list()[f.0 as int].name@
            == #[trigger] reg.list()[g.0 as int].name@ implies f == g by {
        if f.0 < g.0 {
            assert(reg.list()[f.0 as int].name@ != reg.list()[g.0 as int].name@);
        } else if g.0 < f.0 {
            assert(reg.list()[g.0 as int].name@ != reg.list()[f.0 as int].name@);
        }
    }
    if reg.pair_drift(before, a, b) == 0 {
        law_drift_counts_for_all(reg, before, after, a, b);
        assert(-100 <= reg.score(before, a, b) <= 100 || a == b);
    }
}

/// What was noted of a player with a faction counts, kept in range, whatever
/// drifts; else the player is taken for the faction that strangers are taken
/// for, and where there is none has the usual score.
pub proof fn law_players_stand_as_noted(
    reg: FactionRegistry,
    rep: PlayerReputation,
    deltas: RelationDeltas,
    other: RelationDeltas,
    player: u64,
    f: FactionId,
)
    ensures
        ({
            let noted = rep.standing(player, reg.list()[f.0 as int].name@);
            let score = reg.player_score(rep, deltas, player, f);
            &&& noted matches Some(s) ==> score == (if s < -100 {
                -100int
            } else if s > 100 {
                100int
            } else {
                s as int
            }) && reg.player_score(rep, other, player, f) == score
            &&& noted is None && reg.stranger() is None ==> score == reg.usual()
            &&& noted is None ==> (reg.stranger() matches Some(b) ==> score == reg.score(
                deltas,
                b,
                f,
            ))
        }),
{
}

/// The score of the pair itself counts before any that is inherited; of the
/// ancestors of the first the nearest with a score counts; those of the second
/// count where none of the first's has one.
pub proof fn law_nearest_relative_counts(
    scores: Map<u64, i16>,
    parents: Seq<Option<FactionId>>,
    a: FactionId,
    b: FactionId,
    k: int,
)
    requires
        0 <= k,
    ensures
        ({
            let up_a = ancestors(parents, a, parents.len());
            let up_b = ancestors(parents, b, parents.len());
            let own = scores.contains_key(pair_key(a, b));
            let none_a = forall|j: int|
                0 <= j < up_a.len() ==> !scores.contains_key(pair_key(#[trigger] up_a[j], b));
            &&& own ==> family_score(scores, parents, a, b) == Some(scores[pair_key(a, b)])
            &&& !own && k < up_a.len() && scores.contains_key(pair_key(up_a[k], b)) && (forall|
                j: int,
            | 0 <= j < k ==> !scores.contains_key(pair_key(#[trigger] up_a[j], b)))
                ==> family_score(scores, parents, a, b) == Some(scores[pair_key(up_a[k], b)])
            &&& !own && none_a && k < up_b.len() && scores.contains_key(pair_key(up_b[k], a)) && (
            forall|j: int| 0 <= j < k ==> !scores.contains_key(pair_key(#[trigger] up_b[j], a)))
                ==> family_score(scores, parents, a, b) == Some(scores[pair_key(up_b[k], a)])
            &&& !own && none_a && (forall|j: int|
                0 <= j < up_b.len() ==> !scores.contains_key(pair_key(#[trigger] up_b[j], a)))
                ==> family_score(scores, parents, a, b) is None
        }),
{
    let up_a = ancestors(parents, a, parents.len());
    let up_b = ancestors(parents, b, parents.len());
    lemma_first_score_at(scores, up_a, b, k);
    lemma_first_score_at(scores, up_b, a, k);
}

proof fn lemma_first_score_at(
    scores: Map<u64, i16>,
    left: Seq<FactionId>,
    right: FactionId,
    k: int,
)
    requires
        0 <= k,
    ensures
        k < left.len() && scores.contains_key(pair_key(left[k], right)) && (forall|j: int|
            0 <= j < k ==> !scores.contains_key(pair_key(#[trigger] left[j], right)))
            ==> first_score(scores, left, right) == Some(scores[pair_key(left[k], right)]),
        (forall|j: int|
            0 <= j < left.len() ==> !scores.contains_key(pair_key(#[trigger] left[j], right)))
            ==> first_score(scores, left, right) is None,
    decreases left.len(),
{
    if left.len() > 0 {
        let rest = left.drop_first();
        lemma_first_score_at(scores, rest, right, if k > 0 { k - 1 } else { 0 });
        if forall|j: int|
            0 <= j < left.len() ==> !scores.contains_key(pair_key(#[trigger] left[j], right)) {
            assert(!scores.contains_key(pair_key(left[0], right)));
            assert forall|j: int| 0 <= j < rest.len() implies !scores.contains_key(
                pair_key(#[trigger] rest[j], right),
            ) by {
                assert(rest[j] == left[j + 1]);
            }
        }
        if 0 < k < left.len() && scores.contains_key(pair_key(left[k], right)) && (forall|j: int|
            0 <= j < k ==> !scores.contains_key(pair_key(#[trigger] left[j], right))) {
            assert(!scores.contains_key(pair_key(left[0], right)));
            assert(rest[k - 1] == left[k]);
            assert forall|j: int| 0 <= j < k - 1 implies !scores.contains_key(
                pair_key(#[trigger] rest[j], right),
            ) by {
                assert(rest[j] == left[j + 1]);
            }
        }
    }
}

/// The ancestors of a faction are its parent, the parent's parent and so on, up
/// to one that has none.
pub proof fn law_ancestors_go_up(
    parents: Seq<Option<FactionId>>,
    id: FactionId,
    steps: nat,
    k: int,
)
    requires
        steps > 0,
        id.0 < parents.len(),
        0 <= k < ancestors(parents, id, steps).len(),
    ensures
        ({
            let up = ancestors(parents, id, steps);
            let below = if k == 0 {
                id
            } else {
                up[k - 1]
            };
            &&& up.len() <= steps
            &&& below.0 < parents.len()
            &&& parents[below.0 as int] == Some(up[k])
            &&& up.len() < steps && up.last().0 < parents.len() ==> parents[up.last().0 as int]
                is None
        }),
    decreases steps,
{
    let p = parents[id.0 as int]->0;
    let rest = ancestors(parents, p, (steps - 1) as nat);
    let up = ancestors(parents, id, steps);
    assert(up == seq![p] + rest);
    if rest.len() > 0 {
        law_ancestors_go_up(parents, p, (steps - 1) as nat, if k > 0 { k - 1 } else { 0 });
        assert(up.last() == rest.last());
        if k > 0 {
            assert(up[k] == rest[k - 1]);
            if k > 1 {
                assert(up[k - 1] == rest[k - 2]);
            }
        }
    } else {
        assert(up.last() == p);
    }
}

/// What a faction says of its squads and its bases counts; one that says
/// nothing takes what its parent has; where none of a family says anything
/// squads have two to four members, and of four bases three are outposts and
/// one is a safehouse.
pub proof fn law_families_share_customs(reg: FactionRegistry, family: Seq<FactionId>)
    ensures
        family.len() > 0 ==> (reg.list()[family[0].0 as int].squad_size matches Some(s)
            ==> reg.squad_size_in(family) == s),
        family.len() > 0 && reg.list()[family[0].0 as int].squad_size is None
            ==> reg.squad_size_in(family) == reg.squad_size_in(family.skip(1)),
        family.len() == 0 ==> reg.squad_size_in(family).min == 2 && reg.squad_size_in(family).max
            == 4,
        family.len() > 0 && reg.list()[family[0].0 as int].base_kinds@.len() > 0
            ==> reg.base_kinds_in(family) == reg.list()[family[0].0 as int].base_kinds@,
        family.len() > 0 && reg.list()[family[0].0 as int].base_kinds@.len() == 0
            ==> reg.base_kinds_in(family) == reg.base_kinds_in(family.skip(1)),
        family.len() == 0 ==> {
            let usual = reg.base_kinds_in(family);
            &&& usual.len() == 2
            &&& usual[0].kind == BaseKind::Outpost && usual[0].weight == 3
            &&& usual[1].kind == BaseKind::Safehouse && usual[1].weight == 1
        },
{
    if family.len() > 0 {
        assert(family.skip(1) =~= family.drop_first());
    }
}

/// The factions at the top are those without a parent, all of them, by number.
pub proof fn law_heads_have_no_parent(reg: FactionRegistry, n: int, i: int)
    requires
        0 <= n <= reg.list().len(),
        reg.list().len() <= u32::MAX,
        0 <= i < n,
    ensures
        reg.heads(n).contains(FactionId(i as u32)) <==> reg.list()[i].parent is None,
        forall|a: int, b: int|
            0 <= a < b < reg.heads(n).len() ==> (#[trigger] reg.heads(n)[a]).0 < (
            #[trigger] reg.heads(n)[b]).0,
        forall|a: int| 0 <= a < reg.heads(n).len() ==> (#[trigger] reg.heads(n)[a]).0 < n,
    decreases n,
{
    let all = reg.heads(n);
    let init = reg.heads(n - 1);
    let last = FactionId((n - 1) as u32);
    lemma_heads_under(reg, n);
    lemma_heads_under(reg, n - 1);
    if i < n - 1 {
        law_heads_have_no_parent(reg, n - 1, i);
        if init.contains(FactionId(i as u32)) {
            let k = choose|k: int| 0 <= k < init.len() && init[k] == FactionId(i as u32);
            assert(all[k] == init[k]);
        } else if all.contains(FactionId(i as u32)) {
            let k = choose|k: int| 0 <= k < all.len() && all[k] == FactionId(i as u32);
            assert(k < init.len() ==> init[k] == all[k]);
        }
    } else {
        if reg.list()[i].parent is None {
            assert(all.last() == last);
        } else if all.contains(last) {
            let k = choose|k: int| 0 <= k < all.len() && all[k] == last;
            assert(all[k].0 < n - 1);
        }
    }
}

proof fn lemma_heads_under(reg: FactionRegistry, n: int)
    requires
        n <= reg.list().len(),
        reg.list().len() <= u32::MAX,
    ensures
        forall|a: int| 0 <= a < reg.heads(n).len() ==> (#[trigger] reg.heads(n)[a]).0 < n,
        forall|a: int, b: int|
            0 <= a < b < reg.heads(n).len() ==> (#[trigger] reg.heads(n)[a]).0 < (
            #[trigger] reg.heads(n)[b]).0,
    decreases n,
{
    if n > 0 {
        lemma_heads_under(reg, n - 1);
        let all = reg.heads(n);
        let init = reg.heads(n - 1);
        assert forall|a: int| 0 <= a < all.len() implies (#[trigger] all[a]).0 < n by {
            if a < init.len() {
                assert(all[a] == init[a]);
            }
        }
        assert forall|a: int, b: int| 0 <= a < b < all.len() implies (#[trigger] all[a]).0 < (
        #[trigger] all[b]).0 by {
            assert(all[a] == init[a]);
            if b < init.len() {
                assert(all[b] == init[b]);
            }
        }
    }
}

/// Two factions make one pair, whichever comes first, the lower number first.
pub proof fn law_pairs_have_one_order(
    a: FactionId,
    b: FactionId,
    p: (FactionId, FactionId),
    q: (FactionId, FactionId),
)
    requires
        call_ensures(canonical_pair, (a, b), p),
        call_ensures(canonical_pair, (b, a), q),
    ensures
        p == q,
        (p.0).0 <= (p.1).0,
        p == (a, b) || p == (b, a),
        pair_key(a, b) == pair_key(b, a),
{
}

/// What a player does with one faction adds to their standing with it, from
/// zero where nothing was noted, and changes no other standing of theirs or of
/// anybody else.
pub proof fn law_deeds_add_up(
    reg: FactionRegistry,
    before: PlayerReputation,
    after: PlayerReputation,
    deltas: RelationDeltas,
    player: u64,
    f: FactionId,
    delta: i16,
    other: u64,
    g: FactionId,
)
    requires
        rep_shifted(reg, before, after, player, f, delta as int),
        reg.list()[g.0 as int].name@ != reg.list()[f.0 as int].name@,
        other != player,
    ensures
        ({
            let name = reg.list()[f.0 as int].name@;
            let was = match before.standing(player, name) {
                Some(s) => s as int,
                None => 0,
            };
            let sum = was + delta;
            &&& after.standing(player, name) is Some
            &&& -0x8000 <= sum <= 0x7fff ==> after.standing(player, name) == Some(sum as i16)
            &&& reg.player_score(after, deltas, player, f) == (if sum < -100 {
                -100
            } else if sum > 100 {
                100
            } else {
                sum
            })
        }),
        reg.player_score(after, deltas, player, g) == reg.player_score(before, deltas, player, g),
        reg.player_score(after, deltas, other, f) == reg.player_score(before, deltas, other, f),
        after.standing(other, reg.list()[f.0 as int].name@) == before.standing(
            other,
            reg.list()[f.0 as int].name@,
        ),
{
}

} // verus!
