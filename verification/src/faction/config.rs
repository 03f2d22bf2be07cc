//! Building the registry of factions from what a content pack says.
use vstd::prelude::*;
use vstd::utf8::encode_utf8;

use crate::components::PersonalityArchetype;
use crate::faction::registry::{
    clamp_score, clamped, key_of, pair_key, sound, BaseKindWeight, CombatCosts, FactionDef,
    FactionId, FactionRegistry, SquadSize,
};
use crate::faction::{
    anchor_score, law_relation_names_round_trip, relation_from_str, relation_named, Relation,
    SCORE_MAX, SCORE_MIN,
};
use crate::float_bits::F32Bits;
use crate::idmap::IdMap;
use crate::strmap::StrMap;
use crate::text::{
    chars_of, lemma_bytes_lt_irreflexive, lemma_bytes_lt_total, lemma_bytes_lt_trans,
    lemma_utf8_injective, str_before, str_eq, str_lt,
};

verus! {

/// What a content pack says of its factions.
#[derive(Debug)]
pub struct ConfigFile {
    pub default_relation: String,
    pub default_self_relation: String,
    pub player_baseline: Option<String>,
    pub factions: Vec<FactionEntry>,
    pub relations: Vec<RelationEntry>,
}

/// What a content pack says of one faction.
#[derive(Debug)]
pub struct FactionEntry {
    pub name: String,
    pub display: String,
    pub parent: Option<String>,
    pub road_friendly: bool,
    pub base_aggression: F32Bits,
    pub default_loadout: String,
    pub debug_color: [u8; 3],
    pub archetype: Option<PersonalityArchetype>,
    pub nationality_weights: StrMap<u32>,
    pub male_name_weight: Option<F32Bits>,
    pub squad_size: Option<SquadSize>,
    pub combat: Option<CombatCosts>,
    pub base_kinds: Vec<BaseKindWeight>,
}

/// What a content pack says of two factions.
#[derive(Debug)]
pub struct RelationEntry {
    pub a: String,
    pub b: String,
    /// The name of a band, or a score.
    pub value: String,
}

/// Relation of pairs where the pack does not say.
pub fn default_relation_default() -> (r: String)
    ensures
        r@ == "neutral"@,
{
    "neutral".to_owned()
}

/// Relation of a faction with itself where the pack does not say.
pub fn default_self_relation_default() -> (r: String)
    ensures
        r@ == "warm"@,
{
    "warm".to_owned()
}

/// The bit pattern of `0.5`.
pub const F32_HALF: u32 = 0x3f00_0000;

/// Aggression of a faction that does not say.
pub fn default_aggression() -> (r: F32Bits)
    ensures
        r == F32Bits(F32_HALF),
{
    F32Bits(F32_HALF)
}

/// Loadout of a faction that does not say.
pub fn default_loadout() -> (r: String)
    ensures
        r@ == "default"@,
{
    "default".to_owned()
}

/// Colour of a faction that does not say.
pub fn default_color() -> (r: [u8; 3])
    ensures
        r@ == seq![0x88u8, 0x88u8, 0x88u8],
{
    let r: [u8; 3] = [0x88, 0x88, 0x88];
    assert(r@ =~= seq![0x88u8, 0x88u8, 0x88u8]);
    r
}

/// What is wrong with a pack's factions.
#[derive(Debug)]
pub enum RegistryError {
    DuplicateFaction(String),
    UnknownParent { child: String, parent: String },
    UnknownFactionInPair(String),
    UnknownRelationValue(String),
    UnknownPlayerBaseline(String),
    SelfRelation(String),
}

/// What is wrong with a pack's factions, as a mathematical value.
pub enum Fault {
    DuplicateFaction(Seq<char>),
    UnknownParent { child: Seq<char>, parent: Seq<char> },
    UnknownFactionInPair(Seq<char>),
    UnknownRelationValue(Seq<char>),
    UnknownPlayerBaseline(Seq<char>),
    SelfRelation(Seq<char>),
}

impl View for RegistryError {
    type V = Fault;

    open spec fn view(&self) -> Fault {
        match self {
            RegistryError::DuplicateFaction(n) => Fault::DuplicateFaction(n@),
            RegistryError::UnknownParent { child, parent } => Fault::UnknownParent {
                child: child@,
                parent: parent@,
            },
            RegistryError::UnknownFactionInPair(n) => Fault::UnknownFactionInPair(n@),
            RegistryError::UnknownRelationValue(n) => Fault::UnknownRelationValue(n@),
            RegistryError::UnknownPlayerBaseline(n) => Fault::UnknownPlayerBaseline(n@),
            RegistryError::SelfRelation(n) => Fault::SelfRelation(n@),
        }
    }
}

impl RegistryError {
    /// The fault in words.
    pub fn message(&self) -> (r: String)
        ensures
            r@ == (match self@ {
                Fault::DuplicateFaction(n) => "duplicate faction name: "@ + n,
                Fault::UnknownParent { child, parent } => "unknown parent for "@ + child + ": "@
                    + parent,
                Fault::UnknownFactionInPair(n) => "unknown faction in relation pair: "@ + n,
                Fault::UnknownRelationValue(n) => "unknown relation value: "@ + n,
                Fault::UnknownPlayerBaseline(n) => "unknown player_baseline: "@ + n,
                Fault::SelfRelation(n) => "self-pair relation declared: "@ + n,
            }),
    {
        match self {
            RegistryError::DuplicateFaction(n) => {
                let mut s = "duplicate faction name: ".to_owned();
                s.append(n.as_str());
                s
            },
            RegistryError::UnknownParent { child, parent } => {
                let mut s = "unknown parent for ".to_owned();
                s.append(child.as_str());
                s.append(": ");
                s.append(parent.as_str());
                s
            },
            RegistryError::UnknownFactionInPair(n) => {
                let mut s = "unknown faction in relation pair: ".to_owned();
                s.append(n.as_str());
                s
            },
            RegistryError::UnknownRelationValue(n) => {
                let mut s = "unknown relation value: ".to_owned();
                s.append(n.as_str());
                s
            },
            RegistryError::UnknownPlayerBaseline(n) => {
                let mut s = "unknown player_baseline: ".to_owned();
                s.append(n.as_str());
                s
            },
            RegistryError::SelfRelation(n) => {
                let mut s = "self-pair relation declared: ".to_owned();
                s.append(n.as_str());
                s
            },
        }
    }
}

/// All characters are decimal digits.
pub open spec fn all_digits(s: Seq<char>) -> bool {
    forall|i: int| 0 <= i < s.len() ==> '0' <= #[trigger] s[i] <= '9'
}

/// The number that decimal digits stand for.
pub open spec fn digits_value(s: Seq<char>) -> int
    decreases s.len(),
{
    if s.len() == 0 {
        0
    } else {
        10 * digits_value(s.drop_last()) + (s.last() as int - '0' as int)
    }
}

/// What a signed decimal number stands for, in the range of 16 bits.
pub open spec fn decimal(s: Seq<char>) -> Option<int> {
    let signed = s.len() > 0 && (s[0] == '-' || s[0] == '+');
    let digits = if signed {
        s.skip(1)
    } else {
        s
    };
    let value = if s.len() > 0 && s[0] == '-' {
        -digits_value(digits)
    } else {
        digits_value(digits)
    };
    if digits.len() > 0 && all_digits(digits) && i16::MIN <= value <= i16::MAX {
        Some(value)
    } else {
        None
    }
}

/// The value of the digits from place `from` on, or `None` where something
/// else stands there, or nothing, or more than 40000.
fn parse_digits(cs: &Vec<char>, from: usize) -> (r: Option<u32>)
    requires
        from <= cs@.len(),
    ensures
        ({
            let digits = cs@.skip(from as int);
            match r {
                Some(n) => digits.len() > 0 && all_digits(digits) && n == digits_value(digits) && n
                    <= 40_000,
                None => digits.len() == 0 || !all_digits(digits) || digits_value(digits) > 40_000,
            }
        }),
{
    let ghost digits = cs@.skip(from as int);
    let mut n: u32 = 0;
    let mut big = false;
    let mut i: usize = from;
    while i < cs.len()
        invariant
            from <= i <= cs@.len(),
            digits == cs@.skip(from as int),
            all_digits(digits.take(i - from)),
            !big ==> n <= 40_000 && n == digits_value(digits.take(i - from)),
            big ==> digits_value(digits.take(i - from)) > 40_000,
        decreases cs@.len() - i,
    {
        let c = cs[i];
        proof {
            assert(digits[i - from] == c);
            assert(digits.take(i - from + 1).drop_last() =~= digits.take(i - from));
        }
        if c < '0' || c > '9' {
            return None;
        }
        let d: u32 = c as u32 - '0' as u32;
        if !big {
            n = 10 * n + d;
            big = n > 40_000;
        }
        proof {
            assert forall|k: int| 0 <= k < i - from + 1 implies '0' <= #[trigger] digits.take(
                i - from + 1,
            )[k] <= '9' by {
                if k < i - from {
                    assert(digits.take(i - from)[k] == digits[k]);
                }
            }
        }
        i += 1;
    }
    assert(digits.take(i - from) =~= digits);
    if big || from == cs.len() {
        None
    } else {
        Some(n)
    }
}

/// What a signed decimal number stands for.
pub fn parse_decimal(s: &str) -> (r: Option<i16>)
    ensures
        match r {
            Some(n) => decimal(s@) == Some(n as int),
            None => decimal(s@) is None,
        },
{
    let cs = chars_of(s);
    assert(cs@.skip(0) =~= cs@);
    if cs.len() == 0 {
        return None;
    }
    let minus = cs[0] == '-';
    let from: usize = if minus || cs[0] == '+' {
        1
    } else {
        0
    };
    match parse_digits(&cs, from) {
        Some(n) => if minus {
            if n <= 32_768 {
                Some((-(n as i32)) as i16)
            } else {
                None
            }
        } else {
            if n <= 32_767 {
                Some(n as i16)
            } else {
                None
            }
        },
        None => None,
    }
}

/// The score that a relation's value stands for: the middle of the band it
/// names, or the number it is, in range.
pub open spec fn relation_value(s: Seq<char>) -> Option<int> {
    match relation_named(s) {
        Some(r) => Some(r.anchor()),
        None => match decimal(s) {
            Some(n) => Some(clamped(n)),
            None => None,
        },
    }
}

/// The score that a relation's value stands for.
pub fn parse_relation_value(s: &str) -> (r: Result<i16, RegistryError>)
    ensures
        match r {
            Ok(n) => relation_value(s@) == Some(n as int) && SCORE_MIN <= n <= SCORE_MAX,
            Err(e) => relation_value(s@) is None && e@ == Fault::UnknownRelationValue(s@),
        },
{
    if let Some(r) = relation_from_str(s) {
        return Ok(anchor_score(r));
    }
    match parse_decimal(s) {
        Some(n) => Ok(clamp_score(n)),
        None => Err(RegistryError::UnknownRelationValue(s.to_owned())),
    }
}

/// The `i`-th faction's name.
pub open spec fn name_at(f: Seq<FactionEntry>, i: int) -> Seq<char> {
    f[i].name@
}

/// A faction of the pack has the given name.
pub open spec fn named(f: Seq<FactionEntry>, name: Seq<char>) -> bool {
    exists|i: int| 0 <= i < f.len() && #[trigger] name_at(f, i) == name
}

/// Two factions of the pack have the given name.
pub open spec fn named_twice(f: Seq<FactionEntry>, name: Seq<char>) -> bool {
    exists|i: int, j: int|
        0 <= i < j < f.len() && #[trigger] name_at(f, i) == name && #[trigger] name_at(f, j) == name
}

/// No two factions of the pack have one name.
pub open spec fn names_distinct(f: Seq<FactionEntry>) -> bool {
    forall|name: Seq<char>| !#[trigger] named_twice(f, name)
}

/// The faction's parent is none of the pack.
pub open spec fn orphan(f: Seq<FactionEntry>, e: FactionEntry) -> bool {
    e.parent is Some && !named(f, e.parent->0@)
}

/// What is wrong with one relation, if anything.
pub open spec fn relation_fault(f: Seq<FactionEntry>, r: RelationEntry) -> Option<Fault> {
    if r.a@ == r.b@ {
        Some(Fault::SelfRelation(r.a@))
    } else if !named(f, r.a@) {
        Some(Fault::UnknownFactionInPair(r.a@))
    } else if !named(f, r.b@) {
        Some(Fault::UnknownFactionInPair(r.b@))
    } else if relation_value(r.value@) is None {
        Some(Fault::UnknownRelationValue(r.value@))
    } else {
        None
    }
}

/// The first thing that is wrong with the relations from place `from` on.
pub open spec fn first_relation_fault(
    f: Seq<FactionEntry>,
    rs: Seq<RelationEntry>,
    from: int,
) -> Option<Fault>
    decreases rs.len() - from,
{
    if from < 0 || from >= rs.len() {
        None
    } else if relation_fault(f, rs[from]) is Some {
        relation_fault(f, rs[from])
    } else {
        first_relation_fault(f, rs, from + 1)
    }
}

/// `fault` is what is wrong with the pack: the relations that hold by default
/// are looked at first, then the names (of those that occur twice, the first
/// in order), the parents (in the order of the children), the relations (as
/// they stand), and at last the faction that strangers are taken for.
pub open spec fn is_fault(cfg: ConfigFile, fault: Fault) -> bool {
    let f = cfg.factions@;
    if relation_value(cfg.default_relation@) is None {
        fault == Fault::UnknownRelationValue(cfg.default_relation@)
    } else if relation_value(cfg.default_self_relation@) is None {
        fault == Fault::UnknownRelationValue(cfg.default_self_relation@)
    } else if !names_distinct(f) {
        &&& fault is DuplicateFaction
        &&& named_twice(f, fault->DuplicateFaction_0)
        &&& forall|name: Seq<char>| #[trigger]
            named_twice(f, name) ==> !str_before(name, fault->DuplicateFaction_0)
    } else if exists|i: int| 0 <= i < f.len() && orphan(f, #[trigger] f[i]) {
        exists|i: int|
            #![trigger f[i]]
            0 <= i < f.len() && orphan(f, f[i]) && fault == (Fault::UnknownParent {
                child: f[i].name@,
                parent: f[i].parent->0@,
            }) && forall|k: int|
                0 <= k < f.len() && orphan(f, #[trigger] f[k]) ==> !str_before(
                    f[k].name@,
                    f[i].name@,
                )
    } else if first_relation_fault(f, cfg.relations@, 0) is Some {
        Some(fault) == first_relation_fault(f, cfg.relations@, 0)
    } else {
        cfg.player_baseline is Some && fault == Fault::UnknownPlayerBaseline(
            cfg.player_baseline->0@,
        )
    }
}

/// Nothing is wrong with the pack.
pub open spec fn faultless(cfg: ConfigFile) -> bool {
    let f = cfg.factions@;
    &&& relation_value(cfg.default_relation@) is Some
    &&& relation_value(cfg.default_self_relation@) is Some
    &&& names_distinct(f)
    &&& forall|i: int| 0 <= i < f.len() ==> !orphan(f, #[trigger] f[i])
    &&& first_relation_fault(f, cfg.relations@, 0) is None
    &&& cfg.player_baseline is Some ==> named(f, cfg.player_baseline->0@)
}

/// The faction is what the pack says, its parent found by name.
pub open spec fn def_of(defs: Seq<FactionDef>, d: FactionDef, e: FactionEntry) -> bool {
    &&& d.name@ == e.name@
    &&& d.display@ == e.display@
    &&& d.road_friendly == e.road_friendly
    &&& d.base_aggression == e.base_aggression
    &&& d.default_loadout@ == e.default_loadout@
    &&& d.debug_color == e.debug_color
    &&& d.archetype == (match e.archetype {
        Some(a) => a,
        None => PersonalityArchetype::Default,
    })
    &&& d.nationality_weights@ == e.nationality_weights@
    &&& d.male_name_weight == e.male_name_weight
    &&& d.squad_size == e.squad_size
    &&& d.combat == e.combat
    &&& d.base_kinds@ == e.base_kinds@
    &&& match e.parent {
        Some(p) => d.parent matches Some(id) && id.0 < defs.len() && defs[id.0 as int].name@ == p@,
        None => d.parent is None,
    }
}

/// The faction's number is its place, and the pack has it.
pub open spec fn def_listed(defs: Seq<FactionDef>, f: Seq<FactionEntry>, i: int) -> bool {
    &&& defs[i].id == FactionId(i as u32)
    &&& exists|k: int| 0 <= k < f.len() && def_of(defs, defs[i], #[trigger] f[k])
}

/// The place of the faction with the given name.
pub open spec fn index_named(defs: Seq<FactionDef>, name: Seq<char>) -> int {
    choose|i: int| 0 <= i < defs.len() && (#[trigger] defs[i]).name@ == name
}

/// The number of the faction with the given name.
pub open spec fn id_named(defs: Seq<FactionDef>, name: Seq<char>) -> FactionId {
    FactionId(index_named(defs, name) as u32)
}

/// The scores that the first `n` relations set, later ones over earlier ones.
pub open spec fn scores_set(
    defs: Seq<FactionDef>,
    rs: Seq<RelationEntry>,
    n: int,
) -> Map<u64, i16>
    decreases n,
{
    if n <= 0 {
        Map::empty()
    } else {
        let r = rs[n - 1];
        scores_set(defs, rs, n - 1).insert(
            pair_key(id_named(defs, r.a@), id_named(defs, r.b@)),
            relation_value(r.value@)->0 as i16,
        )
    }
}

/// The registry holds what the pack says.
pub open spec fn registry_of(cfg: ConfigFile, reg: FactionRegistry) -> bool {
    &&& reg.list().len() == cfg.factions@.len()
    &&& FactionRegistry::in_order(reg.list())
    &&& forall|i: int|
        #![trigger reg.list()[i]]
        0 <= i < reg.list().len() ==> def_listed(reg.list(), cfg.factions@, i)
    &&& reg.scores() == scores_set(reg.list(), cfg.relations@, cfg.relations@.len() as int)
    &&& Some(reg.usual()) == relation_value(cfg.default_relation@)
    &&& Some(reg.own()) == relation_value(cfg.default_self_relation@)
    &&& match cfg.player_baseline {
        Some(name) => reg.stranger() matches Some(id) && id.0 < reg.list().len()
            && reg.list()[id.0 as int].name@ == name@,
        None => reg.stranger() is None,
    }
}

/// No name comes before one that stands earlier.
spec fn sorted(f: Seq<FactionEntry>) -> bool {
    forall|i: int, j: int|
        0 <= i < j < f.len() ==> !str_before(#[trigger] name_at(f, j), #[trigger] name_at(f, i))
}

/// `order` gives each place of `g` the place in `f` that it was filled from,
/// each place of `f` once.
spec fn rearranged(f: Seq<FactionEntry>, g: Seq<FactionEntry>, order: Seq<int>) -> bool {
    &&& g.len() == f.len()
    &&& order.len() == f.len()
    &&& forall|i: int|
        0 <= i < g.len() ==> 0 <= #[trigger] order[i] < f.len() && g[i] == f[order[i]]
    &&& forall|i: int, j: int|
        0 <= i < j < g.len() ==> #[trigger] order[i] != #[trigger] order[j]
    &&& forall|k: int| 0 <= k < f.len() ==> #[trigger] filled_from(order, k)
}

/// Some place was filled from place `k`.
spec fn filled_from(order: Seq<int>, k: int) -> bool {
    exists|i: int| 0 <= i < order.len() && #[trigger] order[i] == k
}

/// Where an entry goes among sorted ones: before the first with a later name.
fn slot_for(sorted_entries: &Vec<FactionEntry>, name: &str) -> (r: usize)
    requires
        sorted(sorted_entries@),
    ensures
        r <= sorted_entries@.len(),
        forall|i: int|
            0 <= i < r ==> !str_before(name@, #[trigger] name_at(sorted_entries@, i)),
        r < sorted_entries@.len() ==> str_before(name@, name_at(sorted_entries@, r as int)),
{
    let mut i: usize = 0;
    while i < sorted_entries.len() && !str_lt(name, sorted_entries[i].name.as_str())
        invariant
            i <= sorted_entries@.len(),
            forall|k: int|
                0 <= k < i ==> !str_before(name@, #[trigger] name_at(sorted_entries@, k)),
        decreases sorted_entries@.len() - i,
    {
        assert(!str_before(name@, name_at(sorted_entries@, i as int)));
        i += 1;
    }
    i
}

/// Putting an entry in its slot keeps the order.
proof fn lemma_insert_sorted(g: Seq<FactionEntry>, e: FactionEntry, at: int)
    requires
        sorted(g),
        0 <= at <= g.len(),
        forall|i: int| 0 <= i < at ==> !str_before(e.name@, #[trigger] name_at(g, i)),
        at < g.len() ==> str_before(e.name@, name_at(g, at)),
    ensures
        sorted(g.insert(at, e)),
{
    let h = g.insert(at, e);
    assert forall|i: int, j: int| 0 <= i < j < h.len() implies !str_before(
        #[trigger] name_at(h, j),
        #[trigger] name_at(h, i),
    ) by {
        let a = if i < at {
            i
        } else {
            i - 1
        };
        let b = if j < at {
            j
        } else {
            j - 1
        };
        if i != at {
            assert(name_at(h, i) == name_at(g, a));
        }
        if j != at {
            assert(name_at(h, j) == name_at(g, b));
        }
        if i == at {
            let x = encode_utf8(name_at(g, b));
            let y = encode_utf8(e.name@);
            let z = encode_utf8(name_at(g, at));
            lemma_bytes_lt_total(y, z);
            if str_before(name_at(g, b), e.name@) {
                lemma_bytes_lt_trans(x, y, z);
                if b == at {
                    lemma_bytes_lt_irreflexive(z);
                }
                assert(false);
            }
        }
    }
}

/// Putting an entry in place keeps the entries rearranged.
proof fn lemma_insert_rearranged(
    f: Seq<FactionEntry>,
    g: Seq<FactionEntry>,
    order: Seq<int>,
    n: int,
    at: int,
)
    requires
        0 <= n < f.len(),
        rearranged(f.take(n), g, order),
        0 <= at <= g.len(),
    ensures
        rearranged(f.take(n + 1), g.insert(at, f[n]), order.insert(at, n)),
{
    let after = order.insert(at, n);
    let h = g.insert(at, f[n]);
    let longer = f.take(n + 1);
    assert forall|i: int| 0 <= i < h.len() implies 0 <= #[trigger] after[i] < longer.len() && h[i]
        == longer[after[i]] by {
        if i < at {
            assert(after[i] == order[i]);
        } else if i > at {
            assert(after[i] == order[i - 1]);
        }
    }
    assert forall|i: int, j: int| 0 <= i < j < h.len() implies #[trigger] after[i]
        != #[trigger] after[j] by {
        let a = if i < at {
            i
        } else {
            i - 1
        };
        let b = if j < at {
            j
        } else {
            j - 1
        };
        if i != at {
            assert(after[i] == order[a]);
        }
        if j != at {
            assert(after[j] == order[b]);
        }
    }
    assert forall|k: int| 0 <= k < longer.len() implies #[trigger] filled_from(after, k) by {
        if k == n {
            assert(after[at] == n);
        } else {
            assert(filled_from(order, k));
            let i = choose|i: int| 0 <= i < order.len() && #[trigger] order[i] == k;
            if i < at {
                assert(after[i] == k);
            } else {
                assert(after[i + 1] == k);
            }
        }
    }
}

/// The entries in the order of their names.
fn sort_entries(entries: Vec<FactionEntry>) -> (r: Vec<FactionEntry>)
    ensures
        sorted(r@),
        exists|order: Seq<int>| rearranged(entries@, r@, order),
{
    let ghost f = entries@;
    let ghost mut order: Seq<int> = Seq::empty();
    let mut out: Vec<FactionEntry> = Vec::new();
    assert(rearranged(f.take(0), out@, order));
    for entry in it: entries.into_iter()
        invariant
            it.seq() == f,
            sorted(out@),
            rearranged(f.take(it.index()), out@, order),
    {
        let at = slot_for(&out, entry.name.as_str());
        proof {
            lemma_insert_sorted(out@, entry, at as int);
            lemma_insert_rearranged(f, out@, order, it.index(), at as int);
            order = order.insert(at as int, it.index());
        }
        out.insert(at, entry);
    }
    assert(f.take(f.len() as int) =~= f);
    out
}

/// A rearranged pack has the same names.
proof fn lemma_same_names(f: Seq<FactionEntry>, g: Seq<FactionEntry>, order: Seq<int>)
    requires
        rearranged(f, g, order),
    ensures
        forall|name: Seq<char>| #[trigger] named(f, name) == named(g, name),
        forall|name: Seq<char>| #[trigger] named_twice(f, name) == named_twice(g, name),
{
    assert forall|name: Seq<char>| #[trigger] named(f, name) == named(g, name) by {
        if named(f, name) {
            let k = choose|k: int| 0 <= k < f.len() && #[trigger] name_at(f, k) == name;
            assert(filled_from(order, k));
            let i = choose|i: int| 0 <= i < order.len() && #[trigger] order[i] == k;
            assert(name_at(g, i) == name);
        }
        if named(g, name) {
            let i = choose|i: int| 0 <= i < g.len() && #[trigger] name_at(g, i) == name;
            assert(name_at(f, order[i]) == name);
        }
    }
    assert forall|name: Seq<char>| #[trigger] named_twice(f, name) == named_twice(g, name) by {
        if named_twice(f, name) {
            let (k, l) = choose|k: int, l: int|
                0 <= k < l < f.len() && #[trigger] name_at(f, k) == name && #[trigger] name_at(f, l)
                    == name;
            assert(filled_from(order, k) && filled_from(order, l));
            let i = choose|i: int| 0 <= i < order.len() && #[trigger] order[i] == k;
            let j = choose|j: int| 0 <= j < order.len() && #[trigger] order[j] == l;
            assert(name_at(g, i) == name && name_at(g, j) == name);
            assert(i != j);
        }
        if named_twice(g, name) {
            let (i, j) = choose|i: int, j: int|
                0 <= i < j < g.len() && #[trigger] name_at(g, i) == name && #[trigger] name_at(g, j)
                    == name;
            assert(order[i] != order[j]);
            assert(name_at(f, order[i]) == name && name_at(f, order[j]) == name);
        }
    }
}

/// The first name that occurs twice among sorted entries.
fn find_duplicate(g: &Vec<FactionEntry>) -> (r: Option<usize>)
    requires
        sorted(g@),
    ensures
        match r {
            Some(i) => i < g@.len() && named_twice(g@, name_at(g@, i as int)) && forall|
                name: Seq<char>,
            | #[trigger]
                named_twice(g@, name) ==> !str_before(name, name_at(g@, i as int)),
            None => names_distinct(g@) && forall|i: int, j: int|
                0 <= i < j < g@.len() ==> str_before(
                    #[trigger] name_at(g@, i),
                    #[trigger] name_at(g@, j),
                ),
        },
{
    if g.len() == 0 {
        return None;
    }
    let mut i: usize = 1;
    while i < g.len()
        invariant
            1 <= i <= g@.len(),
            sorted(g@),
            forall|a: int, b: int|
                0 <= a < b < i ==> str_before(#[trigger] name_at(g@, a), #[trigger] name_at(g@, b)),
        decreases g@.len() - i,
    {
        let ghost x = name_at(g@, i - 1);
        let ghost y = name_at(g@, i as int);
        if str_eq(g[i - 1].name.as_str(), g[i].name.as_str()) {
            proof {
                assert(named_twice(g@, y));
                assert forall|name: Seq<char>| #[trigger]
                    named_twice(g@, name) implies !str_before(name, y) by {
                    let (a, b) = choose|a: int, b: int|
                        0 <= a < b < g@.len() && #[trigger] name_at(g@, a) == name
                            && #[trigger] name_at(g@, b) == name;
                    if b < i {
                        assert(str_before(name_at(g@, a), name_at(g@, b)));
                        lemma_bytes_lt_irreflexive(encode_utf8(name));
                    } else if b == i {
                        lemma_bytes_lt_irreflexive(encode_utf8(name));
                    } else {
                        assert(!str_before(name_at(g@, b), name_at(g@, i as int)));
                    }
                }
            }
            return Some(i);
        }
        proof {
            assert(!str_before(y, x));
            lemma_bytes_lt_total(encode_utf8(x), encode_utf8(y));
            if encode_utf8(x) == encode_utf8(y) {
                lemma_utf8_injective(x, y);
            }
            assert(str_before(x, y));
            assert forall|a: int, b: int| 0 <= a < b < i + 1 implies str_before(
                #[trigger] name_at(g@, a),
                #[trigger] name_at(g@, b),
            ) by {
                if b == i && a < i - 1 {
                    assert(str_before(name_at(g@, a), x));
                    lemma_bytes_lt_trans(encode_utf8(name_at(g@, a)), encode_utf8(x), encode_utf8(y));
                }
            }
        }
        i += 1;
    }
    proof {
        assert forall|name: Seq<char>| !#[trigger] named_twice(g@, name) by {
            if named_twice(g@, name) {
                let (a, b) = choose|a: int, b: int|
                    0 <= a < b < g@.len() && #[trigger] name_at(g@, a) == name
                        && #[trigger] name_at(g@, b) == name;
                assert(str_before(name_at(g@, a), name_at(g@, b)));
                lemma_bytes_lt_irreflexive(encode_utf8(name));
            }
        }
    }
    None
}

/// The place of the faction with the given name.
fn place_of(g: &Vec<FactionEntry>, name: &str) -> (r: Option<usize>)
    ensures
        match r {
            Some(i) => i < g@.len() && name_at(g@, i as int) == name@,
            None => !named(g@, name@),
        },
{
    let mut i: usize = 0;
    while i < g.len()
        invariant
            i <= g@.len(),
            forall|k: int| 0 <= k < i ==> #[trigger] name_at(g@, k) != name@,
        decreases g@.len() - i,
    {
        if str_eq(g[i].name.as_str(), name) {
            return Some(i);
        }
        assert(name_at(g@, i as int) != name@);
        i += 1;
    }
    None
}

/// The places of the parents, or the first entry whose parent is none of them.
fn find_parents(g: &Vec<FactionEntry>) -> (r: Result<Vec<Option<FactionId>>, usize>)
    requires
        g@.len() <= u32::MAX,
    ensures
        match r {
            Ok(ps) => ps@.len() == g@.len() && forall|i: int|
                #![trigger g@[i]]
                0 <= i < g@.len() ==> !orphan(g@, g@[i]) && parent_at(g@, g@[i], ps@[i]),
            Err(i) => i < g@.len() && orphan(g@, g@[i as int]) && forall|k: int|
                0 <= k < i ==> !orphan(g@, #[trigger] g@[k]),
        },
{
    let mut ps: Vec<Option<FactionId>> = Vec::new();
    let mut i: usize = 0;
    while i < g.len()
        invariant
            i <= g@.len(),
            g@.len() <= u32::MAX,
            ps@.len() == i,
            forall|k: int|
                #![trigger g@[k]]
                0 <= k < i ==> !orphan(g@, g@[k]) && parent_at(g@, g@[k], ps@[k]),
        decreases g@.len() - i,
    {
        match &g[i].parent {
            Some(p) => match place_of(g, p.as_str()) {
                Some(at) => {
                    assert(name_at(g@, at as int) == p@);
                    ps.push(Some(FactionId(at as u32)));
                },
                None => {
                    return Err(i);
                },
            },
            None => {
                ps.push(None);
            },
        }
        i += 1;
    }
    Ok(ps)
}

/// `id` is the place of the entry's parent.
spec fn parent_at(g: Seq<FactionEntry>, e: FactionEntry, id: Option<FactionId>) -> bool {
    match e.parent {
        Some(p) => id matches Some(at) && at.0 < g.len() && name_at(g, at.0 as int) == p@,
        None => id is None,
    }
}

/// The scores that relations set, over the places of sorted entries.
spec fn scores_over(g: Seq<FactionEntry>, rs: Seq<RelationEntry>, n: int) -> Map<u64, i16>
    decreases n,
{
    if n <= 0 {
        Map::empty()
    } else {
        let r = rs[n - 1];
        scores_over(g, rs, n - 1).insert(
            pair_key(place_named(g, r.a@), place_named(g, r.b@)),
            relation_value(r.value@)->0 as i16,
        )
    }
}

/// The place of the entry with the given name.
spec fn place_named(g: Seq<FactionEntry>, name: Seq<char>) -> FactionId {
    FactionId((choose|i: int| 0 <= i < g.len() && #[trigger] name_at(g, i) == name) as u32)
}

/// Where names differ, a name has one place.
proof fn lemma_place_named(g: Seq<FactionEntry>, at: int)
    requires
        names_distinct(g),
        0 <= at < g.len() <= u32::MAX,
    ensures
        place_named(g, name_at(g, at)) == FactionId(at as u32),
{
    let name = name_at(g, at);
    let i = choose|i: int| 0 <= i < g.len() && #[trigger] name_at(g, i) == name;
    if i != at {
        assert(named_twice(g, name));
    }
}

/// The scores that the relations set, or what is wrong with the first that is
/// wrong.
fn set_scores(g: &Vec<FactionEntry>, rs: &Vec<RelationEntry>) -> (r: Result<
    IdMap<i16>,
    RegistryError,
>)
    requires
        g@.len() <= u32::MAX,
        names_distinct(g@),
    ensures
        match r {
            Ok(scores) => first_relation_fault(g@, rs@, 0) is None && scores@ == scores_over(
                g@,
                rs@,
                rs@.len() as int,
            ),
            Err(e) => first_relation_fault(g@, rs@, 0) == Some(e@),
        },
{
    let mut scores: IdMap<i16> = IdMap::new();
    let mut i: usize = 0;
    while i < rs.len()
        invariant
            i <= rs@.len(),
            g@.len() <= u32::MAX,
            names_distinct(g@),
            first_relation_fault(g@, rs@, 0) == first_relation_fault(g@, rs@, i as int),
            scores@ == scores_over(g@, rs@, i as int),
        decreases rs@.len() - i,
    {
        let r = &rs[i];
        if str_eq(r.a.as_str(), r.b.as_str()) {
            return Err(RegistryError::SelfRelation(r.a.clone()));
        }
        let a: usize = match place_of(g, r.a.as_str()) {
            Some(at) => at,
            None => {
                return Err(RegistryError::UnknownFactionInPair(r.a.clone()));
            },
        };
        let b: usize = match place_of(g, r.b.as_str()) {
            Some(at) => at,
            None => {
                return Err(RegistryError::UnknownFactionInPair(r.b.clone()));
            },
        };
        match parse_relation_value(r.value.as_str()) {
            Ok(score) => {
                proof {
                    lemma_place_named(g@, a as int);
                    lemma_place_named(g@, b as int);
                }
                let _ = scores.insert(key_of(FactionId(a as u32), FactionId(b as u32)), score);
            },
            Err(e) => {
                return Err(e);
            },
        }
        i += 1;
    }
    Ok(scores)
}

/// The factions as the entries say.
fn make_defs(entries: Vec<FactionEntry>, parents: Vec<Option<FactionId>>) -> (r: Vec<FactionDef>)
    requires
        entries@.len() == parents@.len(),
        entries@.len() <= u32::MAX,
        forall|i: int|
            #![trigger entries@[i]]
            0 <= i < entries@.len() ==> parent_at(entries@, entries@[i], parents@[i]),
    ensures
        r@.len() == entries@.len(),
        forall|i: int|
            #![trigger r@[i]]
            0 <= i < r@.len() ==> r@[i].id == FactionId(i as u32) && r@[i].name@ == name_at(
                entries@,
                i,
            ) && def_of(r@, r@[i], entries@[i]),
{
    let ghost g = entries@;
    let mut defs: Vec<FactionDef> = Vec::new();
    for e in it: entries.into_iter()
        invariant
            it.seq() == g,
            g.len() <= u32::MAX,
            parents@.len() == g.len(),
            defs@.len() == it.index(),
            forall|i: int|
                #![trigger defs@[i]]
                0 <= i < defs@.len() ==> defs@[i].id == FactionId(i as u32) && defs@[i].parent
                    == parents@[i] && same_but_parent(defs@[i], g[i]),
    {
        let i: usize = defs.len();
        let archetype = match e.archetype {
            Some(a) => a,
            None => PersonalityArchetype::Default,
        };
        let def = FactionDef {
            id: FactionId(i as u32),
            name: e.name,
            display: e.display,
            parent: parents[i],
            road_friendly: e.road_friendly,
            base_aggression: e.base_aggression,
            default_loadout: e.default_loadout,
            debug_color: e.debug_color,
            archetype,
            nationality_weights: e.nationality_weights,
            male_name_weight: e.male_name_weight,
            squad_size: e.squad_size,
            combat: e.combat,
            base_kinds: e.base_kinds,
        };
        defs.push(def);
    }
    proof {
        assert forall|i: int|
            #![trigger defs@[i]]
            0 <= i < defs@.len() implies def_of(defs@, defs@[i], g[i]) by {
            assert(parent_at(g, g[i], parents@[i]));
            if let Some(id) = parents@[i] {
                if g[i].parent is Some {
                    assert(same_but_parent(defs@[id.0 as int], g[id.0 as int]));
                }
            }
        }
    }
    defs
}

/// The faction is what the entry says, but for the parent.
spec fn same_but_parent(d: FactionDef, e: FactionEntry) -> bool {
    &&& d.name@ == e.name@
    &&& d.display@ == e.display@
    &&& d.road_friendly == e.road_friendly
    &&& d.base_aggression == e.base_aggression
    &&& d.default_loadout@ == e.default_loadout@
    &&& d.debug_color == e.debug_color
    &&& d.archetype == (match e.archetype {
        Some(a) => a,
        None => PersonalityArchetype::Default,
    })
    &&& d.nationality_weights@ == e.nationality_weights@
    &&& d.male_name_weight == e.male_name_weight
    &&& d.squad_size == e.squad_size
    &&& d.combat == e.combat
    &&& d.base_kinds@ == e.base_kinds@
}

/// What is wrong with the relations is the same for a rearranged pack.
proof fn lemma_same_relation_fault(
    f: Seq<FactionEntry>,
    g: Seq<FactionEntry>,
    rs: Seq<RelationEntry>,
    from: int,
)
    requires
        0 <= from,
        forall|name: Seq<char>| #[trigger] named(f, name) == named(g, name),
    ensures
        first_relation_fault(f, rs, from) == first_relation_fault(g, rs, from),
    decreases rs.len() - from,
{
    if from < rs.len() {
        lemma_same_relation_fault(f, g, rs, from + 1);
    }
}

/// The scores over the sorted entries are those over the factions made of
/// them.
proof fn lemma_scores_over(
    g: Seq<FactionEntry>,
    defs: Seq<FactionDef>,
    rs: Seq<RelationEntry>,
    n: int,
)
    requires
        n <= rs.len(),
        g.len() == defs.len() <= u32::MAX,
        names_distinct(g),
        forall|i: int|
            #![trigger defs[i]]
            0 <= i < defs.len() ==> defs[i].name@ == name_at(g, i),
        first_relation_fault(g, rs, 0) is None,
    ensures
        scores_over(g, rs, n) == scores_set(defs, rs, n),
    decreases n,
{
    if n > 0 {
        lemma_scores_over(g, defs, rs, n - 1);
        lemma_relation_sound(g, rs, 0, n - 1);
        lemma_id_named(g, defs, rs[n - 1].a@);
        lemma_id_named(g, defs, rs[n - 1].b@);
    }
}

/// Where nothing is wrong with the relations, nothing is wrong with any one.
proof fn lemma_relation_sound(g: Seq<FactionEntry>, rs: Seq<RelationEntry>, from: int, at: int)
    requires
        0 <= from <= at < rs.len(),
        first_relation_fault(g, rs, from) is None,
    ensures
        relation_fault(g, rs[at]) is None,
    decreases at - from,
{
    if from < at {
        lemma_relation_sound(g, rs, from + 1, at);
    }
}

/// A name has the same place among the entries and the factions.
proof fn lemma_id_named(g: Seq<FactionEntry>, defs: Seq<FactionDef>, name: Seq<char>)
    requires
        g.len() == defs.len() <= u32::MAX,
        names_distinct(g),
        named(g, name),
        forall|i: int|
            #![trigger defs[i]]
            0 <= i < defs.len() ==> defs[i].name@ == name_at(g, i),
    ensures
        id_named(defs, name) == place_named(g, name),
{
    let at = choose|i: int| 0 <= i < g.len() && #[trigger] name_at(g, i) == name;
    assert(defs[at].name@ == name);
    let i = index_named(defs, name);
    assert(defs[i].name@ == name);
    assert(name_at(g, i) == name);
    lemma_place_named(g, at);
    if i != at {
        assert(named_twice(g, name));
    }
}

/// Builds the registry of a pack's factions. Numbers follow the order of the
/// names, so that one pack always gives the same numbers.
#[verifier::loop_isolation(false)]
pub fn build_registry(cfg: ConfigFile) -> (r: Result<FactionRegistry, RegistryError>)
    requires
        cfg.factions@.len() <= u32::MAX,
    ensures
        r is Ok <==> faultless(cfg),
        match r {
            Ok(reg) => registry_of(cfg, reg),
            Err(e) => is_fault(cfg, e@),
        },
{
    let ghost f = cfg.factions@;
    let default_relation: i16 = match parse_relation_value(cfg.default_relation.as_str()) {
        Ok(n) => n,
        Err(e) => {
            return Err(e);
        },
    };
    let self_relation: i16 = match parse_relation_value(cfg.default_self_relation.as_str()) {
        Ok(n) => n,
        Err(e) => {
            return Err(e);
        },
    };
    let entries = sort_entries(cfg.factions);
    let ghost g = entries@;
    let ghost order = choose|order: Seq<int>| rearranged(f, g, order);
    proof {
        lemma_same_names(f, g, order);
    }
    if let Some(i) = find_duplicate(&entries) {
        proof {
            assert(named_twice(f, name_at(g, i as int)));
        }
        return Err(RegistryError::DuplicateFaction(entries[i].name.clone()));
    }
    assert(names_distinct(f));
    let parents = match find_parents(&entries) {
        Ok(ps) => ps,
        Err(i) => {
            proof {
                lemma_first_orphan(f, g, order, i as int);
            }
            let child = entries[i].name.clone();
            let parent = match &entries[i].parent {
                Some(p) => p.clone(),
                None => String::new(),
            };
            return Err(RegistryError::UnknownParent { child, parent });
        },
    };
    proof {
        lemma_no_orphan(f, g, order);
        lemma_same_relation_fault(f, g, cfg.relations@, 0);
    }
    let scores = match set_scores(&entries, &cfg.relations) {
        Ok(scores) => scores,
        Err(e) => {
            return Err(e);
        },
    };
    let player_baseline: Option<FactionId> = match cfg.player_baseline {
        Some(name) => match place_of(&entries, name.as_str()) {
            Some(at) => Some(FactionId(at as u32)),
            None => {
                return Err(RegistryError::UnknownPlayerBaseline(name));
            },
        },
        None => None,
    };
    let defs = make_defs(entries, parents);
    proof {
        assert forall|i: int, j: int| 0 <= i < j < defs@.len() implies str_before(
            (#[trigger] defs@[i]).name@,
            (#[trigger] defs@[j]).name@,
        ) by {
            assert(str_before(name_at(g, i), name_at(g, j)));
        }
        assert forall|i: int| #![trigger defs@[i]] 0 <= i < defs@.len() implies def_listed(
            defs@,
            f,
            i,
        ) by {
            assert(g[i] == f[order[i]]);
            assert(def_of(defs@, defs@[i], f[order[i]]));
        }
        lemma_scores_over(g, defs@, cfg.relations@, cfg.relations@.len() as int);
    }
    Ok(FactionRegistry::assemble(defs, scores, default_relation, self_relation, player_baseline))
}

/// The first sorted entry without its parent is the one with the first name.
proof fn lemma_first_orphan(f: Seq<FactionEntry>, g: Seq<FactionEntry>, order: Seq<int>, at: int)
    requires
        rearranged(f, g, order),
        forall|name: Seq<char>| #[trigger] named(f, name) == named(g, name),
        forall|i: int, j: int|
            0 <= i < j < g.len() ==> str_before(#[trigger] name_at(g, i), #[trigger] name_at(g, j)),
        0 <= at < g.len(),
        orphan(g, g[at]),
        forall|k: int| 0 <= k < at ==> !orphan(g, #[trigger] g[k]),
    ensures
        0 <= order[at] < f.len(),
        f[order[at]] == g[at],
        orphan(f, f[order[at]]),
        forall|k: int|
            0 <= k < f.len() && orphan(f, #[trigger] f[k]) ==> !str_before(f[k].name@, g[at].name@),
{
    assert forall|k: int| 0 <= k < f.len() && orphan(f, #[trigger] f[k]) implies !str_before(
        f[k].name@,
        g[at].name@,
    ) by {
        assert(filled_from(order, k));
        let i = choose|i: int| 0 <= i < order.len() && #[trigger] order[i] == k;
        assert(g[i] == f[k]);
        assert(orphan(g, g[i]));
        if i == at {
            lemma_bytes_lt_irreflexive(encode_utf8(g[at].name@));
        } else {
            assert(str_before(name_at(g, at), name_at(g, i)));
            lemma_bytes_lt_total(encode_utf8(name_at(g, at)), encode_utf8(name_at(g, i)));
        }
    }
}

/// Where no sorted entry lacks its parent, none of the pack does.
proof fn lemma_no_orphan(f: Seq<FactionEntry>, g: Seq<FactionEntry>, order: Seq<int>)
    requires
        rearranged(f, g, order),
        forall|name: Seq<char>| #[trigger] named(f, name) == named(g, name),
        forall|i: int| 0 <= i < g.len() ==> !orphan(g, #[trigger] g[i]),
    ensures
        forall|k: int| 0 <= k < f.len() ==> !orphan(f, #[trigger] f[k]),
{
    assert forall|k: int| 0 <= k < f.len() implies !orphan(f, #[trigger] f[k]) by {
        assert(filled_from(order, k));
        let i = choose|i: int| 0 <= i < order.len() && #[trigger] order[i] == k;
        assert(g[i] == f[k]);
    }
}

/// Decimal digits count by place.
pub proof fn law_digits_count_by_place(s: Seq<char>, d: char)
    ensures
        digits_value(s.push(d)) == 10 * digits_value(s) + (d as int - '0' as int),
        digits_value(Seq::empty()) == 0,
        digits_value(seq!['0'] + s) == digits_value(s),
    decreases s.len(),
{
    assert(s.push(d).drop_last() =~= s);
    if s.len() > 0 {
        law_digits_count_by_place(s.drop_last(), d);
        assert((seq!['0'] + s).drop_last() =~= seq!['0'] + s.drop_last());
        assert((seq!['0'] + s).last() == s.last());
    } else {
        assert(seq!['0'] + s =~= seq!['0']);
        assert(seq!['0'].drop_last() =~= Seq::<char>::empty());
        assert(digits_value(seq!['0'].drop_last()) == 0);
    }
}

/// A sign in front gives the number or its negative; without digits, and beyond
/// 16 bits, there is none.
pub proof fn law_signs(digits: Seq<char>)
    requires
        digits.len() > 0,
        all_digits(digits),
        0 <= digits_value(digits) <= 0x7fff,
    ensures
        decimal(digits) == Some(digits_value(digits)),
        decimal(seq!['+'] + digits) == Some(digits_value(digits)),
        decimal(seq!['-'] + digits) == Some(-digits_value(digits)),
        decimal(seq!['-']) is None && decimal(Seq::empty()) is None,
{
    assert('0' <= digits[0] <= '9');
    assert((seq!['+'] + digits).skip(1) =~= digits);
    assert((seq!['-'] + digits).skip(1) =~= digits);
    assert(seq!['-'].skip(1) =~= Seq::<char>::empty());
}

/// A relation's value is the middle of the band that it names, or the number
/// that it is, kept from -100 to 100.
pub proof fn law_relation_values_lie_in_range(s: Seq<char>)
    ensures
        relation_value(s) matches Some(v) ==> -100 <= v <= 100,
        s == "hostile"@ ==> relation_value(s) == Some(-100int),
        s == "cold"@ ==> relation_value(s) == Some(-50int),
        s == "neutral"@ ==> relation_value(s) == Some(0int),
        s == "warm"@ ==> relation_value(s) == Some(50int),
        s == "friendly"@ ==> relation_value(s) == Some(100int),
        relation_named(s) is None ==> (decimal(s) matches Some(n) ==> relation_value(s) == Some(
            if n < -100 {
                -100
            } else if n > 100 {
                100
            } else {
                n
            },
        )),
        relation_named(s) is None && decimal(s) is None ==> relation_value(s) is None,
{
    law_relation_names_round_trip(Relation::Hostile, s);
    law_relation_names_round_trip(Relation::Cold, s);
    law_relation_names_round_trip(Relation::Neutral, s);
    law_relation_names_round_trip(Relation::Warm, s);
    law_relation_names_round_trip(Relation::Friendly, s);
}

/// A relation is at fault where it is of a faction with itself, of one that is
/// not there, or has no value; in this order.
pub proof fn law_relations_at_fault(f: Seq<FactionEntry>, r: RelationEntry)
    ensures
        r.a@ == r.b@ ==> relation_fault(f, r) == Some(Fault::SelfRelation(r.a@)),
        r.a@ != r.b@ && (forall|i: int| 0 <= i < f.len() ==> (#[trigger] f[i]).name@ != r.a@)
            ==> relation_fault(f, r) == Some(Fault::UnknownFactionInPair(r.a@)),
        relation_fault(f, r) is None ==> {
            &&& r.a@ != r.b@
            &&& exists|i: int| 0 <= i < f.len() && (#[trigger] f[i]).name@ == r.a@
            &&& exists|i: int| 0 <= i < f.len() && (#[trigger] f[i]).name@ == r.b@
            &&& relation_value(r.value@) is Some
        },
{
    if forall|i: int| 0 <= i < f.len() ==> (#[trigger] f[i]).name@ != r.a@ {
        assert forall|i: int| 0 <= i < f.len() implies #[trigger] name_at(f, i) != r.a@ by {
            assert(f[i].name@ != r.a@);
        }
    }
    if relation_fault(f, r) is None {
        let i = choose|i: int| 0 <= i < f.len() && #[trigger] name_at(f, i) == r.a@;
        assert(f[i].name@ == r.a@);
        let j = choose|j: int| 0 <= j < f.len() && #[trigger] name_at(f, j) == r.b@;
        assert(f[j].name@ == r.b@);
    }
}

/// A faction is what the pack says of it, word for word; one without an
/// archetype attracts all alike.
pub proof fn law_factions_are_as_written(defs: Seq<FactionDef>, d: FactionDef, e: FactionEntry)
    requires
        def_of(defs, d, e),
    ensures
        d.name@ == e.name@ && d.display@ == e.display@,
        d.road_friendly == e.road_friendly && d.base_aggression == e.base_aggression,
        d.default_loadout@ == e.default_loadout@ && d.debug_color == e.debug_color,
        d.nationality_weights@ == e.nationality_weights@,
        d.male_name_weight == e.male_name_weight && d.squad_size == e.squad_size,
        d.combat == e.combat && d.base_kinds@ == e.base_kinds@,
        e.archetype matches Some(a) ==> d.archetype == a,
        e.archetype is None ==> d.archetype == PersonalityArchetype::Default,
        e.parent is None <==> d.parent is None,
        e.parent matches Some(p) ==> defs[(d.parent->0).0 as int].name@ == p@,
{
}

/// Of several relations of two factions the last counts, whichever of the two
/// it names first.
pub proof fn law_last_relation_counts(defs: Seq<FactionDef>, rs: Seq<RelationEntry>, n: int)
    requires
        0 < n <= rs.len(),
        relation_value(rs[n - 1].value@) is Some,
    ensures
        ({
            let a = id_named(defs, rs[n - 1].a@);
            let b = id_named(defs, rs[n - 1].b@);
            let scores = scores_set(defs, rs, n);
            &&& scores.contains_key(pair_key(a, b)) && scores.contains_key(pair_key(b, a))
            &&& Some(scores[pair_key(a, b)] as int) == relation_value(rs[n - 1].value@)
            &&& scores[pair_key(b, a)] == scores[pair_key(a, b)]
            &&& forall|k: u64|
                k != pair_key(a, b) ==> #[trigger] scores.contains_key(k) == scores_set(
                    defs,
                    rs,
                    n - 1,
                ).contains_key(k) && (scores.contains_key(k) ==> scores[k] == scores_set(
                    defs,
                    rs,
                    n - 1,
                )[k])
        }),
{
    law_relation_values_lie_in_range(rs[n - 1].value@);
}

/// A registry that was made of a pack without fault has its scores in range,
/// and names of their own for its factions.
pub proof fn law_registries_are_sound(cfg: ConfigFile, reg: FactionRegistry)
    requires
        faultless(cfg),
        registry_of(cfg, reg),
    ensures
        sound(reg),
        -100 <= reg.own() <= 100,
{
    law_relation_values_lie_in_range(cfg.default_relation@);
    law_relation_values_lie_in_range(cfg.default_self_relation@);
    lemma_scores_in_range(cfg.factions@, reg.list(), cfg.relations@, cfg.relations@.len() as int);
    assert forall|i: int, j: int| 0 <= i < j < reg.list().len() implies (
    #[trigger] reg.list()[i]).name@ != (#[trigger] reg.list()[j]).name@ by {
        assert(str_before(reg.list()[i].name@, reg.list()[j].name@));
        lemma_bytes_lt_irreflexive(encode_utf8(reg.list()[i].name@));
    }
}

proof fn lemma_scores_in_range(
    f: Seq<FactionEntry>,
    defs: Seq<FactionDef>,
    rs: Seq<RelationEntry>,
    n: int,
)
    requires
        0 <= n <= rs.len(),
        first_relation_fault(f, rs, 0) is None,
    ensures
        forall|k: u64| #[trigger]
            scores_set(defs, rs, n).contains_key(k) ==> -100 <= scores_set(defs, rs, n)[k] <= 100,
    decreases n,
{
    if n > 0 {
        lemma_scores_in_range(f, defs, rs, n - 1);
        lemma_no_fault_at(f, rs, 0, n - 1);
        law_relation_values_lie_in_range(rs[n - 1].value@);
        let all = scores_set(defs, rs, n);
        let init = scores_set(defs, rs, n - 1);
        let r = rs[n - 1];
        let key = pair_key(id_named(defs, r.a@), id_named(defs, r.b@));
        assert forall|k: u64| #[trigger] all.contains_key(k) implies -100 <= all[k] <= 100 by {
            if k != key {
                assert(init.contains_key(k));
            }
        }
    }
}

proof fn lemma_no_fault_at(f: Seq<FactionEntry>, rs: Seq<RelationEntry>, from: int, at: int)
    requires
        0 <= from <= at < rs.len(),
        first_relation_fault(f, rs, from) is None,
    ensures
        relation_fault(f, rs[at]) is None,
    decreases at - from,
{
    if from < at {
        lemma_no_fault_at(f, rs, from + 1, at);
    }
}

/// Of several faults the relations that hold by default are told first, then
/// names that occur twice, parents that are not there, relations, and last the
/// faction that strangers are taken for.
pub proof fn law_faults_are_told_in_order(cfg: ConfigFile, fault: Fault)
    requires
        is_fault(cfg, fault),
    ensures
        ({
            let f = cfg.factions@;
            let usual = relation_value(cfg.default_relation@) is Some;
            let own = relation_value(cfg.default_self_relation@) is Some;
            let twice = exists|n: Seq<char>| #[trigger] named_twice(f, n);
            let orphans = exists|i: int| 0 <= i < f.len() && orphan(f, #[trigger] f[i]);
            &&& !usual ==> fault == Fault::UnknownRelationValue(cfg.default_relation@)
            &&& usual && !own ==> fault == Fault::UnknownRelationValue(cfg.default_self_relation@)
            &&& usual && own ==> (fault is DuplicateFaction <==> twice)
            &&& usual && own && !twice ==> (fault is UnknownParent <==> orphans)
            &&& fault is UnknownPlayerBaseline ==> usual && own && !twice && !orphans
                && first_relation_fault(f, cfg.relations@, 0) is None
            &&& fault matches Fault::DuplicateFaction(n) ==> named_twice(f, n)
        }),
{
    let f = cfg.factions@;
    lemma_relation_fault_kind(f, cfg.relations@, 0);
}

proof fn lemma_relation_fault_kind(f: Seq<FactionEntry>, rs: Seq<RelationEntry>, from: int)
    requires
        0 <= from,
    ensures
        first_relation_fault(f, rs, from) matches Some(x) ==> x is SelfRelation
            || x is UnknownFactionInPair || x is UnknownRelationValue,
    decreases rs.len() - from,
{
    if from < rs.len() {
        lemma_relation_fault_kind(f, rs, from + 1);
    }
}

/// Two factions have one name where two places of the pack hold it; a faction
/// is an orphan where it has a parent that no place holds.
pub proof fn law_doubles_and_orphans(f: Seq<FactionEntry>, i: int, j: int, k: int)
    requires
        0 <= i < j < f.len(),
        0 <= k < f.len(),
    ensures
        f[i].name@ == f[j].name@ ==> named_twice(f, f[i].name@),
        names_distinct(f) ==> f[i].name@ != f[j].name@,
        named(f, f[i].name@),
        f[k].parent is None ==> !orphan(f, f[k]),
        f[k].parent matches Some(p) && p@ == f[i].name@ ==> !orphan(f, f[k]),
        f[k].parent matches Some(p) && (forall|m: int|
            0 <= m < f.len() ==> (#[trigger] f[m]).name@ != p@) ==> orphan(f, f[k]),
{
    assert(name_at(f, i) == f[i].name@ && name_at(f, j) == f[j].name@);
    assert(named_twice(f, f[i].name@) || f[i].name@ != f[j].name@);
    if f[k].parent is Some && named(f, (f[k].parent->0)@) {
        let m = choose|m: int| 0 <= m < f.len() && #[trigger] name_at(f, m) == (f[k].parent->0)@;
        assert(f[m].name@ == (f[k].parent->0)@);
    }
}

} // verus!
