//! What kinds of bases and of activities mean.
use vstd::prelude::*;

use crate::components::BaseKind;
use crate::float_bits::F32Bits;
use crate::strmap::StrMap;

verus! {

/// What a kind of base means.
#[derive(Clone, Copy, Debug)]
pub struct BaseTypeEntry {
    pub kind: BaseKind,
    /// How far it blocks the ground along x and z, in metres.
    pub nav_footprint: Option<[F32Bits; 2]>,
    /// Taking it ends the contest.
    pub is_victory_target: bool,
}

/// The last entry for the kind among the first `n`.
pub open spec fn base_type(entries: Seq<BaseTypeEntry>, kind: BaseKind, n: int) -> Option<
    BaseTypeEntry,
>
    decreases n,
{
    if n <= 0 {
        None
    } else if entries[n - 1].kind == kind {
        Some(entries[n - 1])
    } else {
        base_type(entries, kind, n - 1)
    }
}

/// The last entry for the kind.
fn find_base_type(entries: &Vec<BaseTypeEntry>, kind: BaseKind) -> (r: Option<BaseTypeEntry>)
    ensures
        r == base_type(entries@, kind, entries@.len() as int),
{
    let mut i: usize = entries.len();
    while i > 0
        invariant
            i <= entries@.len(),
            base_type(entries@, kind, entries@.len() as int) == base_type(
                entries@,
                kind,
                i as int,
            ),
        decreases i,
    {
        i -= 1;
        if entries[i].kind == kind {
            return Some(entries[i]);
        }
    }
    None
}

/// How far a base of the kind blocks the ground, if it does.
pub fn base_nav_footprint(entries: &Vec<BaseTypeEntry>, kind: BaseKind) -> (r: Option<
    [F32Bits; 2],
>)
    ensures
        r == (match base_type(entries@, kind, entries@.len() as int) {
            Some(e) => e.nav_footprint,
            None => None,
        }),
{
    match find_base_type(entries, kind) {
        Some(e) => e.nav_footprint,
        None => None,
    }
}

/// True iff taking a base of the kind ends the contest.
pub fn base_is_victory_target(entries: &Vec<BaseTypeEntry>, kind: BaseKind) -> (r: bool)
    ensures
        r == (match base_type(entries@, kind, entries@.len() as int) {
            Some(e) => e.is_victory_target,
            None => false,
        }),
{
    match find_base_type(entries, kind) {
        Some(e) => e.is_victory_target,
        None => false,
    }
}

/// What an activity means.
#[derive(Clone, Copy, Debug, PartialEq, Eq, Structural)]
pub struct ActivityTypeEntry {
    /// Guards stand there.
    pub is_guard: bool,
    /// One rests there.
    pub is_rest: bool,
    /// The curious go there.
    pub hunt_target: bool,
}

/// True iff guards stand at the activity.
pub fn activity_is_guard(table: &StrMap<ActivityTypeEntry>, kind: &str) -> (r: bool)
    ensures
        r == (table@.contains_key(kind@) && table@[kind@].is_guard),
{
    match table.get(kind) {
        Some(e) => e.is_guard,
        None => false,
    }
}

/// True iff one rests at the activity.
pub fn activity_is_rest(table: &StrMap<ActivityTypeEntry>, kind: &str) -> (r: bool)
    ensures
        r == (table@.contains_key(kind@) && table@[kind@].is_rest),
{
    match table.get(kind) {
        Some(e) => e.is_rest,
        None => false,
    }
}

/// True iff the curious go to the activity.
pub fn activity_is_hunt_target(table: &StrMap<ActivityTypeEntry>, kind: &str) -> (r: bool)
    ensures
        r == (table@.contains_key(kind@) && table@[kind@].hunt_target),
{
    match table.get(kind) {
        Some(e) => e.hunt_target,
        None => false,
    }
}

/// Of several entries for a kind of base the last counts.
pub proof fn law_last_entry_counts(entries: Seq<BaseTypeEntry>, kind: BaseKind, n: int, i: int)
    requires
        0 <= i < n <= entries.len(),
        entries[i].kind == kind,
        forall|j: int| i < j < n ==> (#[trigger] entries[j]).kind != kind,
    ensures
        base_type(entries, kind, n) == Some(entries[i]),
    decreases n,
{
    if i < n - 1 {
        assert(entries[n - 1].kind != kind);
        law_last_entry_counts(entries, kind, n - 1, i);
    }
}

} // verus!
