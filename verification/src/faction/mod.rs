//! Factions and how they stand to each other.
//!
//! A relation is a score from -100 to 100. Five named bands lie along it, each
//! around an anchor.
use vstd::prelude::*;

use crate::text::str_eq;

pub mod config;
pub mod registry;

verus! {

/// Band of relations, from shooting on sight to coming to one's aid.
#[derive(Clone, Copy, Debug, PartialEq, Eq, Hash, Structural)]
pub enum Relation {
    Hostile,
    Cold,
    Neutral,
    Warm,
    Friendly,
}

/// The least score.
pub const SCORE_MIN: i16 = -100;

/// The greatest score.
pub const SCORE_MAX: i16 = 100;

impl Relation {
    /// The score in the middle of the band.
    pub open spec fn anchor(self) -> int {
        match self {
            Relation::Hostile => -100,
            Relation::Cold => -50,
            Relation::Neutral => 0,
            Relation::Warm => 50,
            Relation::Friendly => 100,
        }
    }

    /// Name of the band.
    pub open spec fn word(self) -> Seq<char> {
        match self {
            Relation::Hostile => "hostile"@,
            Relation::Cold => "cold"@,
            Relation::Neutral => "neutral"@,
            Relation::Warm => "warm"@,
            Relation::Friendly => "friendly"@,
        }
    }
}

/// The score in the middle of a band.
pub fn anchor_score(r: Relation) -> (s: i16)
    ensures
        s == r.anchor(),
{
    match r {
        Relation::Hostile => -100,
        Relation::Cold => -50,
        Relation::Neutral => 0,
        Relation::Warm => 50,
        Relation::Friendly => 100,
    }
}

/// The band of a score. Bands meet midway between anchors; there the outer
/// band counts.
pub open spec fn band(score: int) -> Relation {
    if score <= -75 {
        Relation::Hostile
    } else if score <= -25 {
        Relation::Cold
    } else if score < 25 {
        Relation::Neutral
    } else if score < 75 {
        Relation::Warm
    } else {
        Relation::Friendly
    }
}

/// The band of a score.
pub fn band_from_score(score: i16) -> (r: Relation)
    ensures
        r == band(score as int),
{
    if score <= -75 {
        Relation::Hostile
    } else if score <= -25 {
        Relation::Cold
    } else if score < 25 {
        Relation::Neutral
    } else if score < 75 {
        Relation::Warm
    } else {
        Relation::Friendly
    }
}

/// No anchor is nearer to a score than that of its band.
pub proof fn law_band_is_nearest(score: int, other: Relation)
    ensures
        ({
            let a = band(score).anchor();
            let b = other.anchor();
            (if score < a { a - score } else { score - a }) <= (if score < b {
                b - score
            } else {
                score - b
            })
        }),
{
}

/// The band of an anchor is its own.
pub proof fn law_anchor_lies_in_its_band(r: Relation)
    ensures
        band(r.anchor()) == r,
        SCORE_MIN <= r.anchor() <= SCORE_MAX,
{
}

/// Between two anchors that are as near the outer one counts. Bands mirror each
/// other, and their anchors lie fifty apart from foe to friend.
pub proof fn law_outer_band_counts(score: int, other: Relation)
    ensures
        ({
            let a = band(score).anchor();
            let b = other.anchor();
            (if score < a { a - score } else { score - a }) == (if score < b {
                b - score
            } else {
                score - b
            }) ==> (if a < 0 { -a } else { a }) >= (if b < 0 { -b } else { b })
        }),
        band(-score).anchor() == -band(score).anchor(),
        Relation::Hostile.anchor() == -100,
        Relation::Cold.anchor() == Relation::Hostile.anchor() + 50,
        Relation::Neutral.anchor() == Relation::Cold.anchor() + 50,
        Relation::Warm.anchor() == Relation::Neutral.anchor() + 50,
        Relation::Friendly.anchor() == Relation::Warm.anchor() + 50,
{
}

/// A higher score is never in a lower band.
pub proof fn law_bands_follow_scores(a: int, b: int)
    requires
        a <= b,
    ensures
        band(a).anchor() <= band(b).anchor(),
{
}

/// Name of a band.
pub fn relation_to_str(r: Relation) -> (s: &'static str)
    ensures
        s@ == r.word(),
{
    match r {
        Relation::Hostile => "hostile",
        Relation::Cold => "cold",
        Relation::Neutral => "neutral",
        Relation::Warm => "warm",
        Relation::Friendly => "friendly",
    }
}

/// The band with the given name.
pub open spec fn relation_named(s: Seq<char>) -> Option<Relation> {
    if s == "hostile"@ {
        Some(Relation::Hostile)
    } else if s == "cold"@ {
        Some(Relation::Cold)
    } else if s == "neutral"@ {
        Some(Relation::Neutral)
    } else if s == "warm"@ {
        Some(Relation::Warm)
    } else if s == "friendly"@ {
        Some(Relation::Friendly)
    } else {
        None
    }
}

/// The band with the given name.
pub fn relation_from_str(s: &str) -> (r: Option<Relation>)
    ensures
        r == relation_named(s@),
{
    if str_eq(s, "hostile") {
        Some(Relation::Hostile)
    } else if str_eq(s, "cold") {
        Some(Relation::Cold)
    } else if str_eq(s, "neutral") {
        Some(Relation::Neutral)
    } else if str_eq(s, "warm") {
        Some(Relation::Warm)
    } else if str_eq(s, "friendly") {
        Some(Relation::Friendly)
    } else {
        None
    }
}

/// A band's name gives back the band, and nothing else gives it.
pub proof fn law_relation_names_round_trip(r: Relation, s: Seq<char>)
    ensures
        relation_named(r.word()) == Some(r),
        relation_named(s) == Some(r) ==> s == r.word(),
{
    reveal_strlit("hostile");
    reveal_strlit("cold");
    reveal_strlit("neutral");
    reveal_strlit("warm");
    reveal_strlit("friendly");
    assert(r.word()[0] == r.word()[0]);
    assert("hostile"@[0] != "cold"@[0]);
    assert("hostile"@[0] != "neutral"@[0]);
    assert("hostile"@[0] != "warm"@[0]);
    assert("hostile"@[0] != "friendly"@[0]);
    assert("cold"@[0] != "neutral"@[0]);
    assert("cold"@[0] != "warm"@[0]);
    assert("cold"@[0] != "friendly"@[0]);
    assert("neutral"@[0] != "warm"@[0]);
    assert("neutral"@[0] != "friendly"@[0]);
    assert("warm"@[0] != "friendly"@[0]);
}

} // verus!
