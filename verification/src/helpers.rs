//! Names of things.
use vstd::prelude::*;

use crate::components::BaseKind;
use crate::text::{ascii_lower, chars_of, lower_char, to_lower};

verus! {

/// The weather.
#[derive(Clone, Copy, Debug, PartialEq, Eq, Hash, Structural)]
pub enum Weather {
    Clear,
    PartlyCloudy,
    Overcast,
    MarineLayer,
    Fog,
    Drizzle,
    LightRain,
    HeavyRain,
    Windstorm,
    Thunderstorm,
    SmokeHaze,
}

/// The tag of a kind of base.
pub open spec fn base_kind_tag(k: BaseKind) -> Seq<char> {
    match k {
        BaseKind::Checkpoint => "checkpoint"@,
        BaseKind::Outpost => "outpost"@,
        BaseKind::Safehouse => "safehouse"@,
        BaseKind::Headquarters => "headquarters"@,
        BaseKind::ResearchPost => "research_post"@,
        BaseKind::CampSite => "campsite"@,
    }
}

/// The tag of a kind of base.
pub fn base_kind_to_str(k: BaseKind) -> (r: &'static str)
    ensures
        r@ == base_kind_tag(k),
{
    match k {
        BaseKind::Checkpoint => "checkpoint",
        BaseKind::Outpost => "outpost",
        BaseKind::Safehouse => "safehouse",
        BaseKind::Headquarters => "headquarters",
        BaseKind::ResearchPost => "research_post",
        BaseKind::CampSite => "campsite",
    }
}

/// The name of an eighth of the moon's cycle; beyond the seventh eighth it is
/// the last one's.
pub open spec fn moon_name(eighth: int) -> Seq<char> {
    if eighth == 0 {
        "new"@
    } else if eighth == 1 {
        "waxing crescent"@
    } else if eighth == 2 {
        "first quarter"@
    } else if eighth == 3 {
        "waxing gibbous"@
    } else if eighth == 4 {
        "full"@
    } else if eighth == 5 {
        "waning gibbous"@
    } else if eighth == 6 {
        "last quarter"@
    } else {
        "waning crescent"@
    }
}

/// The name of an eighth of the moon's cycle.
pub fn moon_phase_name(eighth: i32) -> (r: &'static str)
    ensures
        r@ == moon_name(eighth as int),
{
    match eighth {
        0 => "new",
        1 => "waxing crescent",
        2 => "first quarter",
        3 => "waxing gibbous",
        4 => "full",
        5 => "waning gibbous",
        6 => "last quarter",
        _ => "waning crescent",
    }
}

/// The tag of a weather.
pub open spec fn weather_tag(w: Weather) -> Seq<char> {
    match w {
        Weather::Clear => "clear"@,
        Weather::PartlyCloudy => "partly_cloudy"@,
        Weather::Overcast => "overcast"@,
        Weather::MarineLayer => "marine_layer"@,
        Weather::Fog => "fog"@,
        Weather::Drizzle => "drizzle"@,
        Weather::LightRain => "light_rain"@,
        Weather::HeavyRain => "heavy_rain"@,
        Weather::Windstorm => "windstorm"@,
        Weather::Thunderstorm => "thunderstorm"@,
        Weather::SmokeHaze => "smoke_haze"@,
    }
}

/// The tag of a weather.
pub fn weather_to_str(w: Weather) -> (r: &'static str)
    ensures
        r@ == weather_tag(w),
{
    match w {
        Weather::Clear => "clear",
        Weather::PartlyCloudy => "partly_cloudy",
        Weather::Overcast => "overcast",
        Weather::MarineLayer => "marine_layer",
        Weather::Fog => "fog",
        Weather::Drizzle => "drizzle",
        Weather::LightRain => "light_rain",
        Weather::HeavyRain => "heavy_rain",
        Weather::Windstorm => "windstorm",
        Weather::Thunderstorm => "thunderstorm",
        Weather::SmokeHaze => "smoke_haze",
    }
}

/// A character of a tag: in lower case, a space as an underscore.
pub open spec fn tag_char(c: char) -> char {
    if lower_char(c) == ' ' {
        '_'
    } else {
        lower_char(c)
    }
}

/// A text as a tag.
pub open spec fn as_tag(s: Seq<char>) -> Seq<char> {
    s.map_values(|c: char| tag_char(c))
}

/// The weather that a text names: its tag, or the tag without underscores,
/// in any case and with spaces for underscores.
pub open spec fn weather_named(s: Seq<char>) -> Option<Weather> {
    let t = as_tag(s);
    if t == "clear"@ {
        Some(Weather::Clear)
    } else if t == "partly_cloudy"@ || t == "partlycloudy"@ {
        Some(Weather::PartlyCloudy)
    } else if t == "overcast"@ {
        Some(Weather::Overcast)
    } else if t == "marine_layer"@ || t == "marinelayer"@ {
        Some(Weather::MarineLayer)
    } else if t == "fog"@ {
        Some(Weather::Fog)
    } else if t == "drizzle"@ {
        Some(Weather::Drizzle)
    } else if t == "light_rain"@ || t == "lightrain"@ {
        Some(Weather::LightRain)
    } else if t == "heavy_rain"@ || t == "heavyrain"@ {
        Some(Weather::HeavyRain)
    } else if t == "windstorm"@ {
        Some(Weather::Windstorm)
    } else if t == "thunderstorm"@ {
        Some(Weather::Thunderstorm)
    } else if t == "smoke_haze"@ || t == "smokehaze"@ {
        Some(Weather::SmokeHaze)
    } else {
        None
    }
}

/// True iff the characters as a tag are the word.
fn is_tag(cs: &Vec<char>, word: &str) -> (r: bool)
    ensures
        r == (as_tag(cs@) == word@),
{
    let w = chars_of(word);
    if w.len() != cs.len() {
        return false;
    }
    let mut i: usize = 0;
    while i < cs.len()
        invariant
            i <= cs@.len(),
            w@ == word@,
            w@.len() == cs@.len(),
            forall|k: int| 0 <= k < i ==> tag_char(#[trigger] cs@[k]) == w@[k],
        decreases cs@.len() - i,
    {
        let c = to_lower(cs[i]);
        let c = if c == ' ' {
            '_'
        } else {
            c
        };
        if c != w[i] {
            assert(as_tag(cs@)[i as int] != w@[i as int]);
            return false;
        }
        i += 1;
    }
    assert(as_tag(cs@) =~= word@);
    true
}

/// The weather that a text names.
pub fn weather_from_str(s: &str) -> (r: Option<Weather>)
    ensures
        r == weather_named(s@),
{
    let cs = chars_of(s);
    if is_tag(&cs, "clear") {
        Some(Weather::Clear)
    } else if is_tag(&cs, "partly_cloudy") || is_tag(&cs, "partlycloudy") {
        Some(Weather::PartlyCloudy)
    } else if is_tag(&cs, "overcast") {
        Some(Weather::Overcast)
    } else if is_tag(&cs, "marine_layer") || is_tag(&cs, "marinelayer") {
        Some(Weather::MarineLayer)
    } else if is_tag(&cs, "fog") {
        Some(Weather::Fog)
    } else if is_tag(&cs, "drizzle") {
        Some(Weather::Drizzle)
    } else if is_tag(&cs, "light_rain") || is_tag(&cs, "lightrain") {
        Some(Weather::LightRain)
    } else if is_tag(&cs, "heavy_rain") || is_tag(&cs, "heavyrain") {
        Some(Weather::HeavyRain)
    } else if is_tag(&cs, "windstorm") {
        Some(Weather::Windstorm)
    } else if is_tag(&cs, "thunderstorm") {
        Some(Weather::Thunderstorm)
    } else if is_tag(&cs, "smoke_haze") || is_tag(&cs, "smokehaze") {
        Some(Weather::SmokeHaze)
    } else {
        None
    }
}

/// Every weather is found by its tag, however the tag's letters are cased.
pub proof fn law_weather_tags_round_trip(w: Weather, s: Seq<char>)
    requires
        ascii_lower(s) == weather_tag(w),
    ensures
        weather_named(s) == Some(w),
{
    lemma_first_letters();
    assert(as_tag(s) =~= weather_tag(w)) by {
        assert forall|i: int| 0 <= i < s.len() implies #[trigger] as_tag(s)[i] == weather_tag(
            w,
        )[i] by {
            assert(ascii_lower(s)[i] == lower_char(s[i]));
            lemma_no_space(w, i);
        }
    }
}

/// Every weather is found by its tag without the underscore, however the
/// letters are cased.
pub proof fn law_weather_tags_do_without_underscore(w: Weather, k: int, s: Seq<char>)
    requires
        0 <= k < weather_tag(w).len(),
        weather_tag(w)[k] == '_',
        ascii_lower(s) == weather_tag(w).remove(k),
    ensures
        weather_named(s) == Some(w),
{
    let t = weather_tag(w).remove(k);
    weather_tag(w).remove_ensures(k);
    assert(as_tag(s) =~= t) by {
        assert(s.len() == ascii_lower(s).len());
        assert forall|i: int| 0 <= i < s.len() implies #[trigger] as_tag(s)[i] == t[i] by {
            assert(ascii_lower(s)[i] == lower_char(s[i]));
            if i < k {
                lemma_no_space(w, i);
            } else {
                lemma_no_space(w, i + 1);
            }
        }
    }
    lemma_without_underscore(w, k);
    lemma_first_letters();
}

/// The tags with an underscore, and what is left without it.
proof fn lemma_without_underscore(w: Weather, k: int)
    requires
        0 <= k < weather_tag(w).len(),
        weather_tag(w)[k] == '_',
    ensures
        match w {
            Weather::PartlyCloudy => weather_tag(w).remove(k) == "partlycloudy"@,
            Weather::MarineLayer => weather_tag(w).remove(k) == "marinelayer"@,
            Weather::LightRain => weather_tag(w).remove(k) == "lightrain"@,
            Weather::HeavyRain => weather_tag(w).remove(k) == "heavyrain"@,
            Weather::SmokeHaze => weather_tag(w).remove(k) == "smokehaze"@,
            _ => false,
        },
{
    reveal_strlit("clear");
    reveal_strlit("partly_cloudy");
    reveal_strlit("partlycloudy");
    reveal_strlit("overcast");
    reveal_strlit("marine_layer");
    reveal_strlit("marinelayer");
    reveal_strlit("fog");
    reveal_strlit("drizzle");
    reveal_strlit("light_rain");
    reveal_strlit("lightrain");
    reveal_strlit("heavy_rain");
    reveal_strlit("heavyrain");
    reveal_strlit("windstorm");
    reveal_strlit("thunderstorm");
    reveal_strlit("smoke_haze");
    reveal_strlit("smokehaze");
    match w {
        Weather::PartlyCloudy => {
            assert(k == 6);
            assert(weather_tag(w).remove(k) =~= "partlycloudy"@);
        },
        Weather::MarineLayer => {
            assert(k == 6);
            assert(weather_tag(w).remove(k) =~= "marinelayer"@);
        },
        Weather::LightRain => {
            assert(k == 5);
            assert(weather_tag(w).remove(k) =~= "lightrain"@);
        },
        Weather::HeavyRain => {
            assert(k == 5);
            assert(weather_tag(w).remove(k) =~= "heavyrain"@);
        },
        Weather::SmokeHaze => {
            assert(k == 5);
            assert(weather_tag(w).remove(k) =~= "smokehaze"@);
        },
        _ => {},
    }
}

/// The first letters of the names, which tell them apart.
proof fn lemma_first_letters()
    ensures
        "clear"@.len() == 5 && "clear"@[0] == 'c',
        "partly_cloudy"@.len() == 13 && "partly_cloudy"@[0] == 'p',
        "partlycloudy"@.len() == 12 && "partlycloudy"@[0] == 'p',
        "overcast"@.len() == 8 && "overcast"@[0] == 'o',
        "marine_layer"@.len() == 12 && "marine_layer"@[0] == 'm',
        "marinelayer"@.len() == 11 && "marinelayer"@[0] == 'm',
        "fog"@.len() == 3 && "fog"@[0] == 'f',
        "drizzle"@.len() == 7 && "drizzle"@[0] == 'd',
        "light_rain"@.len() == 10 && "light_rain"@[0] == 'l',
        "lightrain"@.len() == 9 && "lightrain"@[0] == 'l',
        "heavy_rain"@.len() == 10 && "heavy_rain"@[0] == 'h',
        "heavyrain"@.len() == 9 && "heavyrain"@[0] == 'h',
        "windstorm"@.len() == 9 && "windstorm"@[0] == 'w',
        "thunderstorm"@.len() == 12 && "thunderstorm"@[0] == 't',
        "smoke_haze"@.len() == 10 && "smoke_haze"@[0] == 's',
        "smokehaze"@.len() == 9 && "smokehaze"@[0] == 's',
{
    reveal_strlit("clear");
    reveal_strlit("partly_cloudy");
    reveal_strlit("partlycloudy");
    reveal_strlit("overcast");
    reveal_strlit("marine_layer");
    reveal_strlit("marinelayer");
    reveal_strlit("fog");
    reveal_strlit("drizzle");
    reveal_strlit("light_rain");
    reveal_strlit("lightrain");
    reveal_strlit("heavy_rain");
    reveal_strlit("heavyrain");
    reveal_strlit("windstorm");
    reveal_strlit("thunderstorm");
    reveal_strlit("smoke_haze");
    reveal_strlit("smokehaze");
}

/// No tag holds a space.
proof fn lemma_no_space(w: Weather, i: int)
    requires
        0 <= i < weather_tag(w).len(),
    ensures
        weather_tag(w)[i] != ' ',
{
    reveal_strlit("clear");
    reveal_strlit("partly_cloudy");
    reveal_strlit("partlycloudy");
    reveal_strlit("overcast");
    reveal_strlit("marine_layer");
    reveal_strlit("marinelayer");
    reveal_strlit("fog");
    reveal_strlit("drizzle");
    reveal_strlit("light_rain");
    reveal_strlit("lightrain");
    reveal_strlit("heavy_rain");
    reveal_strlit("heavyrain");
    reveal_strlit("windstorm");
    reveal_strlit("thunderstorm");
    reveal_strlit("smoke_haze");
    reveal_strlit("smokehaze");
}

/// Every kind of base has a tag of its own.
pub proof fn law_base_tags_differ(a: BaseKind, b: BaseKind)
    ensures
        base_kind_tag(a) == base_kind_tag(b) ==> a == b,
        base_kind_tag(BaseKind::Headquarters) == "headquarters"@,
        base_kind_tag(BaseKind::CampSite) == "campsite"@,
        base_kind_tag(BaseKind::ResearchPost) == "research_post"@,
{
    reveal_strlit("checkpoint");
    reveal_strlit("outpost");
    reveal_strlit("safehouse");
    reveal_strlit("headquarters");
    reveal_strlit("research_post");
    reveal_strlit("campsite");
    assert("checkpoint"@.len() == 10 && "outpost"@.len() == 7 && "safehouse"@.len() == 9
        && "headquarters"@.len() == 12 && "research_post"@.len() == 13 && "campsite"@.len() == 8);
}

/// The moon waxes from new to full and wanes back: each eighth of its cycle has
/// a name of its own, and an eighth and the one that mirrors it differ in their
/// first word alone.
pub proof fn law_moon_waxes_and_wanes(a: int, b: int)
    requires
        0 <= a <= 7,
        0 <= b <= 7,
    ensures
        moon_name(a) == moon_name(b) ==> a == b,
        moon_name(0) == "new"@ && moon_name(4) == "full"@,
        moon_name(1).skip(6) == moon_name(7).skip(6),
        moon_name(3).skip(6) == moon_name(5).skip(6),
        moon_name(1).take(6) == "waxing"@ && moon_name(3).take(6) == "waxing"@,
        moon_name(5).take(6) == "waning"@ && moon_name(7).take(6) == "waning"@,
        moon_name(2).take(5) == "first"@ && moon_name(6).take(4) == "last"@,
{
    reveal_strlit("new");
    reveal_strlit("waxing crescent");
    reveal_strlit("first quarter");
    reveal_strlit("waxing gibbous");
    reveal_strlit("full");
    reveal_strlit("waning gibbous");
    reveal_strlit("last quarter");
    reveal_strlit("waning crescent");
    reveal_strlit("waxing");
    reveal_strlit("waning");
    reveal_strlit("first");
    reveal_strlit("last");
    assert(moon_name(1).skip(6) =~= moon_name(7).skip(6));
    assert(moon_name(3).skip(6) =~= moon_name(5).skip(6));
    assert(moon_name(1).take(6) =~= "waxing"@ && moon_name(3).take(6) =~= "waxing"@);
    assert(moon_name(5).take(6) =~= "waning"@ && moon_name(7).take(6) =~= "waning"@);
    assert(moon_name(2).take(5) =~= "first"@ && moon_name(6).take(4) =~= "last"@);
    assert("waxing crescent"@[2] != "waning crescent"@[2]);
    assert("waxing gibbous"@[2] != "waning gibbous"@[2]);
    assert("waxing crescent"@.len() == 15 && "waxing gibbous"@.len() == 14
        && "waning crescent"@.len() == 15 && "waning gibbous"@.len() == 14);
    assert("new"@.len() == 3 && "full"@.len() == 4 && "first quarter"@.len() == 13
        && "last quarter"@.len() == 12);
}

} // verus!
