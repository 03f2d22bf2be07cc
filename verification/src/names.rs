//! Names for people, by where they come from.
use vstd::prelude::*;

use crate::float_bits::{F32Bits, F32_ONE, F32_ZERO};
use crate::rng::{
    draw_below, draw_below_u32, draw_word, moved_on, word_drawn, Generator, Trail,
};
use crate::strmap::{Entry, StrMap};
use crate::text::{chars_of, str_eq, views};
use crate::weighted::{
    entry_for_roll, falls_on, law_roll_falls_on_one_entry, sum_weights, weight_sum,
};

verus! {

/// Where a person's name comes from.
#[derive(Clone, Copy, Debug, PartialEq, Eq, Hash, PartialOrd, Ord, Structural)]
pub enum NationalityBucket {
    American,
    LatinAmerican,
    Slavic,
    EastAsian,
    SouthAsian,
    WestAfrican,
    WesternEuropean,
    MiddleEastern,
}

/// How many buckets there are.
pub const BUCKETS: usize = 8;

/// The bit pattern of `0.92`, the part of male first names unless a faction
/// says otherwise.
pub const DEFAULT_MALE_NAME_WEIGHT: u32 = 0x3f6b_851f;

/// The bucket with the given number.
pub open spec fn bucket_numbered(i: int) -> NationalityBucket {
    if i == 0 {
        NationalityBucket::American
    } else if i == 1 {
        NationalityBucket::LatinAmerican
    } else if i == 2 {
        NationalityBucket::Slavic
    } else if i == 3 {
        NationalityBucket::EastAsian
    } else if i == 4 {
        NationalityBucket::SouthAsian
    } else if i == 5 {
        NationalityBucket::WestAfrican
    } else if i == 6 {
        NationalityBucket::WesternEuropean
    } else {
        NationalityBucket::MiddleEastern
    }
}

impl NationalityBucket {
    /// The number of the bucket.
    pub open spec fn number(self) -> int {
        match self {
            NationalityBucket::American => 0,
            NationalityBucket::LatinAmerican => 1,
            NationalityBucket::Slavic => 2,
            NationalityBucket::EastAsian => 3,
            NationalityBucket::SouthAsian => 4,
            NationalityBucket::WestAfrican => 5,
            NationalityBucket::WesternEuropean => 6,
            NationalityBucket::MiddleEastern => 7,
        }
    }

    /// The bucket with the given number.
    pub fn numbered(i: usize) -> (r: Self)
        ensures
            r == bucket_numbered(i as int),
    {
        if i == 0 {
            NationalityBucket::American
        } else if i == 1 {
            NationalityBucket::LatinAmerican
        } else if i == 2 {
            NationalityBucket::Slavic
        } else if i == 3 {
            NationalityBucket::EastAsian
        } else if i == 4 {
            NationalityBucket::SouthAsian
        } else if i == 5 {
            NationalityBucket::WestAfrican
        } else if i == 6 {
            NationalityBucket::WesternEuropean
        } else {
            NationalityBucket::MiddleEastern
        }
    }

    /// Every bucket, in order.
    pub fn all() -> (r: Vec<NationalityBucket>)
        ensures
            r@.len() == BUCKETS,
            forall|i: int| 0 <= i < BUCKETS ==> #[trigger] r@[i] == bucket_numbered(i),
    {
        let mut r: Vec<NationalityBucket> = Vec::new();
        let mut i: usize = 0;
        while i < BUCKETS
            invariant
                i <= BUCKETS,
                r@.len() == i,
                forall|k: int| 0 <= k < i ==> #[trigger] r@[k] == bucket_numbered(k),
            decreases BUCKETS - i,
        {
            r.push(NationalityBucket::numbered(i));
            i += 1;
        }
        r
    }

    /// The number of the bucket.
    fn number_of(self) -> (r: usize)
        ensures
            r == self.number(),
            r < BUCKETS,
            bucket_numbered(r as int) == self,
    {
        match self {
            NationalityBucket::American => 0,
            NationalityBucket::LatinAmerican => 1,
            NationalityBucket::Slavic => 2,
            NationalityBucket::EastAsian => 3,
            NationalityBucket::SouthAsian => 4,
            NationalityBucket::WestAfrican => 5,
            NationalityBucket::WesternEuropean => 6,
            NationalityBucket::MiddleEastern => 7,
        }
    }

    /// Name of the bucket, also that of its files.
    pub open spec fn tag(self) -> Seq<char> {
        match self {
            NationalityBucket::American => "american"@,
            NationalityBucket::LatinAmerican => "latin_american"@,
            NationalityBucket::Slavic => "slavic"@,
            NationalityBucket::EastAsian => "east_asian"@,
            NationalityBucket::SouthAsian => "south_asian"@,
            NationalityBucket::WestAfrican => "west_african"@,
            NationalityBucket::WesternEuropean => "western_european"@,
            NationalityBucket::MiddleEastern => "middle_eastern"@,
        }
    }

    /// Name of the bucket.
    pub fn name(self) -> (r: &'static str)
        ensures
            r@ == self.tag(),
    {
        match self {
            NationalityBucket::American => "american",
            NationalityBucket::LatinAmerican => "latin_american",
            NationalityBucket::Slavic => "slavic",
            NationalityBucket::EastAsian => "east_asian",
            NationalityBucket::SouthAsian => "south_asian",
            NationalityBucket::WestAfrican => "west_african",
            NationalityBucket::WesternEuropean => "western_european",
            NationalityBucket::MiddleEastern => "middle_eastern",
        }
    }

    /// The bucket with the given name.
    pub fn from_name(s: &str) -> (r: Option<Self>)
        ensures
            match r {
                Some(b) => b.tag() == s@,
                None => forall|b: NationalityBucket| #[trigger] b.tag() != s@,
            },
    {
        let mut i: usize = 0;
        while i < BUCKETS
            invariant
                i <= BUCKETS,
                forall|k: int| 0 <= k < i ==> #[trigger] bucket_numbered(k).tag() != s@,
            decreases BUCKETS - i,
        {
            let b = NationalityBucket::numbered(i);
            if str_eq(b.name(), s) {
                return Some(b);
            }
            i += 1;
        }
        proof {
            assert forall|b: NationalityBucket| #[trigger] b.tag() != s@ by {
                assert(bucket_numbered(b.number()) == b);
                assert(bucket_numbered(b.number()).tag() != s@);
            }
        }
        None
    }

    /// How likely the bucket is unless a faction says otherwise.
    pub fn default_weight(self) -> (r: u32)
        ensures
            r == 1,
    {
        1
    }
}

/// No two buckets have one name, so a name gives back its bucket.
pub proof fn law_bucket_names_differ(a: NationalityBucket, b: NationalityBucket)
    ensures
        a.tag() == b.tag() ==> a == b,
{
    reveal_strlit("american");
    reveal_strlit("latin_american");
    reveal_strlit("slavic");
    reveal_strlit("east_asian");
    reveal_strlit("south_asian");
    reveal_strlit("west_african");
    reveal_strlit("western_european");
    reveal_strlit("middle_eastern");
    if a.tag() == b.tag() {
        assert(a.tag()[0] == b.tag()[0]);
        assert(a.tag().len() == b.tag().len());
        assert(a.tag()[1] == b.tag()[1]);
    }
}

/// The character counts as white space.
pub open spec fn is_white(c: char) -> bool {
    let u = c as u32;
    (9 <= u && u <= 13) || u == 32 || u == 0x85 || u == 0xa0 || u == 0x1680 || (0x2000 <= u && u
        <= 0x200a) || u == 0x2028 || u == 0x2029 || u == 0x202f || u == 0x205f || u == 0x3000
}

/// The character counts as white space.
pub fn white(c: char) -> (r: bool)
    ensures
        r == is_white(c),
{
    let u: u32 = c as u32;
    (9 <= u && u <= 13) || u == 32 || u == 0x85 || u == 0xa0 || u == 0x1680 || (0x2000 <= u && u
        <= 0x200a) || u == 0x2028 || u == 0x2029 || u == 0x202f || u == 0x205f || u == 0x3000
}

/// The text without white space at its ends.
pub open spec fn trimmed(s: Seq<char>) -> Seq<char>
    decreases s.len(),
{
    if s.len() > 0 && is_white(s[0]) {
        trimmed(s.drop_first())
    } else if s.len() > 0 && is_white(s.last()) {
        trimmed(s.drop_last())
    } else {
        s
    }
}

/// Narrows a stretch of text to what is left without white space at its ends.
fn trim_range(cs: &Vec<char>, from: usize, to: usize) -> (r: (usize, usize))
    requires
        from <= to <= cs@.len(),
    ensures
        from <= r.0 <= r.1 <= to,
        cs@.subrange(r.0 as int, r.1 as int) == trimmed(cs@.subrange(from as int, to as int)),
{
    let mut a: usize = from;
    let mut b: usize = to;
    while a < b && white(cs[a])
        invariant
            from <= a <= b,
            b == to,
            to <= cs@.len(),
            trimmed(cs@.subrange(from as int, to as int)) == trimmed(
                cs@.subrange(a as int, b as int),
            ),
        decreases b - a,
    {
        assert(cs@.subrange(a as int, b as int).drop_first() =~= cs@.subrange(a + 1, b as int));
        a += 1;
    }
    while a < b && white(cs[b - 1])
        invariant
            from <= a <= b <= to,
            to <= cs@.len(),
            a < b ==> !is_white(cs@[a as int]),
            trimmed(cs@.subrange(from as int, to as int)) == trimmed(
                cs@.subrange(a as int, b as int),
            ),
        decreases b - a,
    {
        assert(cs@.subrange(a as int, b as int).drop_last() =~= cs@.subrange(a as int, b - 1));
        b -= 1;
    }
    (a, b)
}

/// Where the line that starts at `from` ends.
pub open spec fn line_end(s: Seq<char>, from: int) -> int
    decreases s.len() - from,
{
    if from < 0 || from >= s.len() || s[from] == '\n' {
        from
    } else {
        line_end(s, from + 1)
    }
}

/// A line that says something: it is neither empty nor a remark.
pub open spec fn says_something(line: Seq<char>) -> bool {
    line.len() > 0 && line[0] != '#'
}

/// The lines from `from` on that say something, without the white space around
/// them.
pub open spec fn lines_from(s: Seq<char>, from: int) -> Seq<Seq<char>>
    decreases s.len() + 1 - from,
{
    if from < 0 || from > s.len() {
        Seq::empty()
    } else {
        proof {
            lemma_line_end(s, from);
        }
        let e = line_end(s, from);
        let line = trimmed(s.subrange(from, e));
        let rest = lines_from(s, e + 1);
        if says_something(line) {
            seq![line] + rest
        } else {
            rest
        }
    }
}

/// A line ends no sooner than it starts and no later than the text.
pub proof fn lemma_line_end(s: Seq<char>, from: int)
    requires
        0 <= from <= s.len(),
    ensures
        from <= line_end(s, from) <= s.len(),
        line_end(s, from) < s.len() ==> s[line_end(s, from)] == '\n',
    decreases s.len() - from,
{
    if from < s.len() && s[from] != '\n' {
        lemma_line_end(s, from + 1);
    }
}

/// The line is a name with a mark for men or women in front.
pub open spec fn marked(line: Seq<char>, upper: char, lower: char) -> bool {
    line.len() >= 2 && (line[0] == upper || line[0] == lower) && line[1] == ' '
}

/// The name in a line of first names.
pub open spec fn first_name_of(line: Seq<char>) -> Seq<char> {
    if marked(line, 'M', 'm') || marked(line, 'F', 'f') {
        trimmed(line.skip(2))
    } else {
        line
    }
}

/// The names of one sex among lines of first names; what is not marked counts
/// as male.
pub open spec fn of_sex(lines: Seq<Seq<char>>, female: bool) -> Seq<Seq<char>>
    decreases lines.len(),
{
    if lines.len() == 0 {
        Seq::empty()
    } else {
        let before = of_sex(lines.drop_last(), female);
        if marked(lines.last(), 'F', 'f') == female {
            before.push(first_name_of(lines.last()))
        } else {
            before
        }
    }
}

/// The lines of a text that say something, as stretches of its characters.
fn stretches(cs: &Vec<char>) -> (r: Vec<(usize, usize)>)
    ensures
        r@.len() == lines_from(cs@, 0).len(),
        forall|i: int|
            0 <= i < r@.len() ==> (#[trigger] r@[i]).0 <= r@[i].1 <= cs@.len() && cs@.subrange(
                r@[i].0 as int,
                r@[i].1 as int,
            ) == lines_from(cs@, 0)[i],
{
    let mut r: Vec<(usize, usize)> = Vec::new();
    let mut from: usize = 0;
    let ghost all = lines_from(cs@, 0);
    loop
        invariant
            from <= cs@.len(),
            all == lines_from(cs@, 0),
            r@.len() + lines_from(cs@, from as int).len() == all.len(),
            lines_from(cs@, from as int) == all.skip(r@.len() as int),
            forall|i: int|
                0 <= i < r@.len() ==> (#[trigger] r@[i]).0 <= r@[i].1 <= cs@.len() && cs@.subrange(
                    r@[i].0 as int,
                    r@[i].1 as int,
                ) == all[i],
        decreases cs@.len() + 1 - from,
    {
        let mut e: usize = from;
        while e < cs.len() && cs[e] != '\n'
            invariant
                from <= e <= cs@.len(),
                line_end(cs@, from as int) == line_end(cs@, e as int),
            decreases cs@.len() - e,
        {
            e += 1;
        }
        assert(e == line_end(cs@, from as int));
        let (a, b) = trim_range(cs, from, e);
        let ghost line = trimmed(cs@.subrange(from as int, e as int));
        let ghost rest = lines_from(cs@, e + 1);
        if a < b && cs[a] != '#' {
            proof {
                assert(line[0] == cs@[a as int]);
                assert(says_something(line));
                assert(all.skip(r@.len() as int)[0] == line);
                assert(all.skip(r@.len() as int) == seq![line] + rest);
                assert((seq![line] + rest).drop_first() =~= rest);
                assert(all.skip(r@.len() as int + 1) =~= all.skip(r@.len() as int).drop_first());
            }
            r.push((a, b));
        } else {
            proof {
                assert(!says_something(line));
            }
        }
        if e >= cs.len() {
            proof {
                assert(rest =~= Seq::<Seq<char>>::empty());
            }
            return r;
        }
        from = e + 1;
    }
}

/// The names in a text, one per line; empty lines and remarks do not count.
pub fn parse_names(raw: &str) -> (r: Vec<String>)
    ensures
        views(r@) == lines_from(raw@, 0),
{
    let cs = chars_of(raw);
    let list = stretches(&cs);
    let mut r: Vec<String> = Vec::new();
    let mut i: usize = 0;
    while i < list.len()
        invariant
            cs@ == raw@,
            i <= list@.len(),
            r@.len() == i,
            list@.len() == lines_from(cs@, 0).len(),
            forall|k: int|
                0 <= k < list@.len() ==> (#[trigger] list@[k]).0 <= list@[k].1 <= cs@.len()
                    && cs@.subrange(list@[k].0 as int, list@[k].1 as int) == lines_from(cs@, 0)[k],
            forall|k: int| 0 <= k < i ==> (#[trigger] r@[k])@ == lines_from(cs@, 0)[k],
        decreases list@.len() - i,
    {
        r.push(raw.substring_char(list[i].0, list[i].1).to_owned());
        i += 1;
    }
    assert(views(r@) =~= lines_from(raw@, 0));
    r
}

/// The first names in a text, men's and women's. A line may start with `M ` or
/// `F `; one that does not counts as a man's name.
pub fn parse_first_names(raw: &str) -> (r: (Vec<String>, Vec<String>))
    ensures
        views(r.0@) == of_sex(lines_from(raw@, 0), false),
        views(r.1@) == of_sex(lines_from(raw@, 0), true),
{
    let cs = chars_of(raw);
    let list = stretches(&cs);
    let ghost lines = lines_from(raw@, 0);
    let mut male: Vec<String> = Vec::new();
    let mut female: Vec<String> = Vec::new();
    let mut i: usize = 0;
    proof {
        assert(lines.take(0) =~= Seq::<Seq<char>>::empty());
        assert(views(male@) =~= Seq::<Seq<char>>::empty());
        assert(views(female@) =~= Seq::<Seq<char>>::empty());
    }
    while i < list.len()
        invariant
            cs@ == raw@,
            lines == lines_from(raw@, 0),
            i <= list@.len(),
            list@.len() == lines.len(),
            forall|k: int|
                0 <= k < list@.len() ==> (#[trigger] list@[k]).0 <= list@[k].1 <= cs@.len()
                    && cs@.subrange(list@[k].0 as int, list@[k].1 as int) == lines[k],
            views(male@) == of_sex(lines.take(i as int), false),
            views(female@) == of_sex(lines.take(i as int), true),
        decreases list@.len() - i,
    {
        let (a, b) = list[i];
        let ghost line = lines[i as int];
        let ghost m0 = male@;
        let ghost f0 = female@;
        proof {
            assert(line == cs@.subrange(a as int, b as int));
            assert(lines.take(i + 1).drop_last() =~= lines.take(i as int));
            assert(lines.take(i + 1).last() == line);
        }
        let tagged = b - a >= 2 && cs[a + 1] == ' ';
        let is_male = tagged && (cs[a] == 'M' || cs[a] == 'm');
        let is_female = tagged && (cs[a] == 'F' || cs[a] == 'f');
        assert(is_male == marked(line, 'M', 'm'));
        assert(is_female == marked(line, 'F', 'f'));
        let (x, y) = if is_male || is_female {
            assert(line.skip(2) =~= cs@.subrange(a + 2, b as int));
            trim_range(&cs, a + 2, b)
        } else {
            (a, b)
        };
        let name = raw.substring_char(x, y).to_owned();
        assert(name@ == first_name_of(line));
        if is_female {
            female.push(name);
            assert(views(female@) =~= views(f0).push(first_name_of(line)));
        } else {
            male.push(name);
            assert(views(male@) =~= views(m0).push(first_name_of(line)));
        }
        i += 1;
    }
    assert(lines.take(i as int) =~= lines);
    (male, female)
}

/// Stem of a bucket's files.
pub fn bucket_file(b: NationalityBucket) -> (r: &'static str)
    ensures
        r@ == b.tag(),
{
    b.name()
}

/// Path of a bucket's first names.
pub fn first_path(b: NationalityBucket) -> (r: String)
    ensures
        r@ == "names/first/"@ + b.tag() + ".txt"@,
{
    let mut s = "names/first/".to_owned();
    s.append(bucket_file(b));
    s.append(".txt");
    s
}

/// Path of a bucket's last names.
pub fn last_path(b: NationalityBucket) -> (r: String)
    ensures
        r@ == "names/last/"@ + b.tag() + ".txt"@,
{
    let mut s = "names/last/".to_owned();
    s.append(bucket_file(b));
    s.append(".txt");
    s
}

/// One bucket's names.
#[derive(Clone, Debug)]
pub struct BucketPool {
    pub first_male: Vec<String>,
    pub first_female: Vec<String>,
    pub last: Vec<String>,
}

/// One bucket's names, as text.
pub struct PoolView {
    pub male: Seq<Seq<char>>,
    pub female: Seq<Seq<char>>,
    pub last: Seq<Seq<char>>,
}

impl View for BucketPool {
    type V = PoolView;

    open spec fn view(&self) -> PoolView {
        PoolView {
            male: views(self.first_male@),
            female: views(self.first_female@),
            last: views(self.last@),
        }
    }
}

/// The pool that a bucket's two texts hold.
pub open spec fn pool_of(first: Seq<char>, last: Seq<char>) -> PoolView {
    PoolView {
        male: of_sex(lines_from(first, 0), false),
        female: of_sex(lines_from(first, 0), true),
        last: lines_from(last, 0),
    }
}

/// The names of every bucket.
#[derive(Debug)]
pub struct NameRegistry {
    pools: Vec<BucketPool>,
}

/// The first names to draw from: those of the sex drawn, or of the other where
/// that has none.
pub open spec fn first_pool(p: PoolView, male: bool) -> Seq<Seq<char>> {
    if male {
        if p.male.len() == 0 {
            p.female
        } else {
            p.male
        }
    } else {
        if p.female.len() == 0 {
            p.male
        } else {
            p.female
        }
    }
}

/// The `i`-th name of a list, or a stand-in where there is none.
pub open spec fn name_or(list: Seq<Seq<char>>, i: int, stand_in: Seq<char>) -> Seq<char> {
    if 0 <= i < list.len() {
        list[i]
    } else {
        stand_in
    }
}

/// First and last name, with a space between.
pub open spec fn full_name_of(p: PoolView, male: bool, i: int, j: int) -> Seq<char> {
    name_or(first_pool(p, male), i, "Anon"@) + " "@ + name_or(p.last, j, "Doe"@)
}

/// A name drawn from the pool: each of its two parts is one of the lists', or
/// a stand-in where a list is empty.
pub open spec fn is_drawn_name(p: PoolView, male: bool, name: Seq<char>) -> bool {
    exists|i: int, j: int|
        (0 <= i < first_pool(p, male).len() || first_pool(p, male).len() == 0) && (0 <= j
            < p.last.len() || p.last.len() == 0) && name == #[trigger] full_name_of(p, male, i, j)
}

/// `draw` makes a number of every word.
pub open spec fn always_draws<D: Fn(u32) -> F32Bits>(draw: D) -> bool {
    forall|w: u32| #[trigger] draw.requires((w,))
}

/// `draw` makes one number of one word.
pub open spec fn draws_alike<D: Fn(u32) -> F32Bits>(draw: D) -> bool {
    forall|w: u32, x: F32Bits, y: F32Bits|
        #[trigger] draw.ensures((w,), x) && #[trigger] draw.ensures((w,), y) ==> x == y
}

/// What a weighted draw gives by a generator, and what is known of it then:
/// the bucket that a roll falls on, or any where nothing has weight.
pub open spec fn bucket_drawn(
    ws: Seq<(NationalityBucket, u32)>,
    before: Option<Trail>,
    b: NationalityBucket,
    after: Option<Trail>,
) -> bool {
    let total = weight_sum(bucket_weights(ws));
    &&& can_draw(ws, b)
    &&& if total == 0 {
        &&& moved_on(before, usize::BITS as nat, 0, BUCKETS - 1, after)
        &&& before matches Some(t) ==> b == bucket_numbered(
            t.next(usize::BITS as nat, 0, BUCKETS - 1),
        )
    } else {
        &&& moved_on(before, 32, 0, total - 1, after)
        &&& before matches Some(t) ==> exists|i: int| #[trigger]
            falls_on(bucket_weights(ws), t.next(32, 0, total - 1), i) && b == ws[i].0
    }
}

/// The highest place of a list with so many entries; an empty list counts as
/// one with one.
pub open spec fn last_place(len: int) -> int {
    if len > 1 {
        len - 1
    } else {
        0
    }
}

/// The name that a generator draws from the pool, and what is known of it
/// then: one draw goes for the first name, and one for the last.
pub open spec fn name_drawn(
    p: PoolView,
    male: bool,
    before: Option<Trail>,
    name: Seq<char>,
    after: Option<Trail>,
) -> bool {
    let bits = usize::BITS as nat;
    let n = last_place(first_pool(p, male).len() as int);
    let m = last_place(p.last.len() as int);
    &&& is_drawn_name(p, male, name)
    &&& match before {
        Some(t) => after == Some(t.after(bits, 0, n).after(bits, 0, m)) && name == full_name_of(
            p,
            male,
            t.next(bits, 0, n),
            t.after(bits, 0, n).next(bits, 0, m),
        ),
        None => after is None,
    }
}

/// A bucket that a generator draws by the weights, and a name of it, and what
/// is known of the generator then. Which sex the first name is of goes by what
/// `draw` makes of a word, against the part of men.
pub open spec fn is_roll<D: Fn(u32) -> F32Bits>(
    pools: Seq<PoolView>,
    weights: Seq<(NationalityBucket, u32)>,
    male_weight: F32Bits,
    draw: D,
    before: Option<Trail>,
    bucket: NationalityBucket,
    name: Seq<char>,
    after: Option<Trail>,
) -> bool {
    exists|w: u32, x: F32Bits, mid: Option<Trail>, then: Option<Trail>|
        #![trigger draw.ensures((w,), x), word_drawn(mid, w, then)]
        draw.ensures((w,), x) && bucket_drawn(weights, before, bucket, mid) && word_drawn(mid, w, then) && name_drawn(
            pools[bucket.number()],
            x.less(clamped_unit(male_weight)),
            then,
            name,
            after,
        )
}

/// Generators in one state give one bucket and one name, and are in one state
/// then.
pub proof fn law_rolls_repeat<D: Fn(u32) -> F32Bits>(
    pools: Seq<PoolView>,
    weights: Seq<(NationalityBucket, u32)>,
    male_weight: F32Bits,
    draw: D,
    t: Trail,
    a: (NationalityBucket, Seq<char>, Option<Trail>),
    b: (NationalityBucket, Seq<char>, Option<Trail>),
)
    requires
        draws_alike(draw),
        is_roll(pools, weights, male_weight, draw, Some(t), a.0, a.1, a.2),
        is_roll(pools, weights, male_weight, draw, Some(t), b.0, b.1, b.2),
    ensures
        a == b,
        a.2 is Some,
{
    let (w, x, mid, then) = choose|w: u32, x: F32Bits, mid: Option<Trail>, then: Option<Trail>|
        #![trigger draw.ensures((w,), x), word_drawn(mid, w, then)]
        draw.ensures((w,), x) && bucket_drawn(weights, Some(t), a.0, mid) && word_drawn(mid, w, then) && name_drawn(
            pools[a.0.number()],
            x.less(clamped_unit(male_weight)),
            then,
            a.1,
            a.2,
        );
    let (v, y, mib, theb) = choose|w: u32, x: F32Bits, mid: Option<Trail>, then: Option<Trail>|
        #![trigger draw.ensures((w,), x), word_drawn(mid, w, then)]
        draw.ensures((w,), x) && bucket_drawn(weights, Some(t), b.0, mid) && word_drawn(mid, w, then) && name_drawn(
            pools[b.0.number()],
            x.less(clamped_unit(male_weight)),
            then,
            b.1,
            b.2,
        );
    let ws = bucket_weights(weights);
    if weight_sum(ws) != 0 {
        let roll = t.next(32, 0, weight_sum(ws) - 1);
        let i = choose|i: int| #[trigger] falls_on(ws, roll, i) && a.0 == weights[i].0;
        let j = choose|j: int| #[trigger] falls_on(ws, roll, j) && b.0 == weights[j].0;
        law_roll_falls_on_one_entry(ws, roll, i, j);
    }
    assert(mid == mib && w == v && then == theb);
}

/// The weights in a list of weighted buckets.
pub open spec fn bucket_weights(ws: Seq<(NationalityBucket, u32)>) -> Seq<u32> {
    Seq::new(ws.len(), |i: int| ws[i].1)
}

/// A weighted draw can give the bucket: it has weight, or nothing has.
pub open spec fn can_draw(ws: Seq<(NationalityBucket, u32)>, b: NationalityBucket) -> bool {
    weight_sum(bucket_weights(ws)) == 0 || exists|i: int|
        0 <= i < ws.len() && (#[trigger] ws[i]).0 == b && ws[i].1 > 0
}

/// The entries of a faction's weights whose key names a bucket, in order.
pub open spec fn named_buckets(entries: Seq<Entry<u32>>) -> Seq<(NationalityBucket, u32)>
    decreases entries.len(),
{
    if entries.len() == 0 {
        Seq::empty()
    } else {
        let before = named_buckets(entries.drop_last());
        if exists|b: NationalityBucket| #[trigger] b.tag() == entries.last().key@ {
            before.push(
                (
                    choose|b: NationalityBucket| #[trigger] b.tag() == entries.last().key@,
                    entries.last().value,
                ),
            )
        } else {
            before
        }
    }
}

/// Every bucket with weight one.
pub open spec fn even_weights() -> Seq<(NationalityBucket, u32)> {
    Seq::new(BUCKETS as nat, |i: int| (bucket_numbered(i), 1u32))
}

/// The weights that a faction draws by: its own, or even ones where none of
/// its keys names a bucket.
pub open spec fn faction_draw_weights(entries: Seq<Entry<u32>>) -> Seq<(NationalityBucket, u32)> {
    if named_buckets(entries).len() == 0 {
        even_weights()
    } else {
        named_buckets(entries)
    }
}

/// Keeps a number between zero and one.
pub open spec fn clamped_unit(x: F32Bits) -> F32Bits {
    if x.less(F32Bits(F32_ZERO)) {
        F32Bits(F32_ZERO)
    } else if F32Bits(F32_ONE).less(x) {
        F32Bits(F32_ONE)
    } else {
        x
    }
}

/// Whether a draw from zero to one gives a man's name.
pub fn draws_male(draw: F32Bits, male_weight: F32Bits) -> (r: bool)
    ensures
        r == draw.less(clamped_unit(male_weight)),
{
    let w = if male_weight.lt(F32Bits(F32_ZERO)) {
        F32Bits(F32_ZERO)
    } else if F32Bits(F32_ONE).lt(male_weight) {
        F32Bits(F32_ONE)
    } else {
        male_weight
    };
    draw.lt(w)
}

/// The bucket that a roll falls on.
pub fn bucket_for_roll(weights: &Vec<(NationalityBucket, u32)>, roll: u32) -> (r: NationalityBucket)
    requires
        weight_sum(bucket_weights(weights@)) <= u32::MAX,
        roll < weight_sum(bucket_weights(weights@)),
    ensures
        exists|i: int| #[trigger]
            falls_on(bucket_weights(weights@), roll as int, i) && r == weights@[i].0,
{
    let ws = weights_of(weights);
    let i = entry_for_roll(&ws, roll as u64);
    weights[i].0
}

/// The weights in a list of weighted buckets.
fn weights_of(weights: &Vec<(NationalityBucket, u32)>) -> (r: Vec<u32>)
    ensures
        r@ == bucket_weights(weights@),
{
    let mut r: Vec<u32> = Vec::new();
    let mut i: usize = 0;
    while i < weights.len()
        invariant
            i <= weights@.len(),
            r@ == bucket_weights(weights@).take(i as int),
        decreases weights@.len() - i,
    {
        r.push(weights[i].1);
        i += 1;
        assert(bucket_weights(weights@).take(i as int) =~= bucket_weights(weights@).take(
            i - 1,
        ).push(weights@[i - 1].1));
    }
    assert(bucket_weights(weights@).take(i as int) =~= bucket_weights(weights@));
    r
}

/// Draws a bucket by weight; evenly where nothing has weight.
pub fn draw_bucket(rng: &mut Generator, weights: &Vec<(NationalityBucket, u32)>) -> (r:
    NationalityBucket)
    requires
        weight_sum(bucket_weights(weights@)) <= u32::MAX,
    ensures
        bucket_drawn(weights@, old(rng)@, r, final(rng)@),
{
    let ws = weights_of(weights);
    let total = sum_weights(&ws);
    if total == 0 {
        return NationalityBucket::numbered(draw_below(rng, BUCKETS));
    }
    let roll = draw_below_u32(rng, total);
    let b = bucket_for_roll(weights, roll);
    proof {
        let i = choose|i: int| #[trigger]
            falls_on(bucket_weights(weights@), roll as int, i) && b == weights@[i].0;
        law_roll_falls_on_one_entry(bucket_weights(weights@), roll as int, i, i);
        assert(weights@[i].0 == b);
        assert(can_draw(weights@, b));
        if let Some(t) = old(rng)@ {
            assert(roll == t.next(32, 0, weight_sum(bucket_weights(weights@)) - 1));
            assert(falls_on(
                bucket_weights(weights@),
                t.next(32, 0, weight_sum(bucket_weights(weights@)) - 1),
                i,
            ));
        }
    }
    b
}

/// Every bucket with weight one.
pub fn default_weights() -> (r: Vec<(NationalityBucket, u32)>)
    ensures
        r@ == even_weights(),
{
    let mut r: Vec<(NationalityBucket, u32)> = Vec::new();
    let mut i: usize = 0;
    while i < BUCKETS
        invariant
            i <= BUCKETS,
            r@ == even_weights().take(i as int),
        decreases BUCKETS - i,
    {
        let b = NationalityBucket::numbered(i);
        r.push((b, b.default_weight()));
        i += 1;
        assert(even_weights().take(i as int) =~= even_weights().take(i - 1).push(
            even_weights()[i - 1],
        ));
    }
    assert(even_weights().take(i as int) =~= even_weights());
    r
}

/// The weights that a faction draws by: its own, without the keys that name no
/// bucket, or even ones where no key does.
pub fn weights_for_faction(faction_weights: &StrMap<u32>) -> (r: Vec<(NationalityBucket, u32)>)
    ensures
        r@ == faction_draw_weights(faction_weights.list()),
{
    let mut r: Vec<(NationalityBucket, u32)> = Vec::new();
    let n: usize = faction_weights.len();
    let ghost all = faction_weights.list();
    let mut i: usize = 0;
    assert(all.take(0) =~= Seq::<Entry<u32>>::empty());
    while i < n
        invariant
            n == all.len(),
            all == faction_weights.list(),
            i <= n,
            r@ == named_buckets(all.take(i as int)),
        decreases n - i,
    {
        let e = faction_weights.entry_at(i);
        proof {
            assert(all.take(i + 1).drop_last() =~= all.take(i as int));
            assert(all.take(i + 1).last() == *e);
        }
        if let Some(b) = NationalityBucket::from_name(e.key.as_str()) {
            proof {
                let c = choose|c: NationalityBucket| #[trigger] c.tag() == e.key@;
                law_bucket_names_differ(b, c);
            }
            r.push((b, e.value));
        }
        i += 1;
    }
    assert(all.take(i as int) =~= all);
    if r.len() == 0 {
        default_weights()
    } else {
        r
    }
}

impl View for NameRegistry {
    type V = Seq<PoolView>;

    closed spec fn view(&self) -> Seq<PoolView> {
        Seq::new(self.pools@.len(), |i: int| self.pools@[i]@)
    }
}

impl NameRegistry {
    #[verifier::type_invariant]
    spec fn inv(self) -> bool {
        self.pools@.len() == BUCKETS
    }

    /// The names in the texts of the buckets, in the order of the buckets:
    /// first names and last names.
    pub fn from_texts(first: &Vec<String>, last: &Vec<String>) -> (r: NameRegistry)
        requires
            first@.len() == BUCKETS,
            last@.len() == BUCKETS,
        ensures
            r@.len() == BUCKETS,
            forall|i: int|
                0 <= i < BUCKETS ==> #[trigger] r@[i] == pool_of(first@[i]@, last@[i]@),
    {
        let mut pools: Vec<BucketPool> = Vec::new();
        let mut i: usize = 0;
        while i < BUCKETS
            invariant
                first@.len() == BUCKETS,
                last@.len() == BUCKETS,
                i <= BUCKETS,
                pools@.len() == i,
                forall|k: int|
                    0 <= k < i ==> (#[trigger] pools@[k])@ == pool_of(first@[k]@, last@[k]@),
            decreases BUCKETS - i,
        {
            let (first_male, first_female) = parse_first_names(first[i].as_str());
            let last_names = parse_names(last[i].as_str());
            pools.push(BucketPool { first_male, first_female, last: last_names });
            i += 1;
        }
        NameRegistry { pools }
    }

    /// The pool of a bucket.
    fn pool(&self, bucket: NationalityBucket) -> (r: &BucketPool)
        ensures
            r@ == self@[bucket.number()],
    {
        proof {
            use_type_invariant(self);
        }
        &self.pools[bucket.number_of()]
    }

    /// The name at the given places of a bucket's lists, with stand-ins where
    /// a list has no such place.
    pub fn full_name(&self, bucket: NationalityBucket, male: bool, i: usize, j: usize) -> (r: String)
        ensures
            r@ == full_name_of(self@[bucket.number()], male, i as int, j as int),
    {
        let pool = self.pool(bucket);
        let firsts = self.firsts(bucket, male);
        let mut name = if i < firsts.len() {
            firsts[i].clone()
        } else {
            "Anon".to_owned()
        };
        proof {
            if i < firsts@.len() {
                assert(views(firsts@)[i as int] == firsts@[i as int]@);
            }
            if j < pool.last@.len() {
                assert(views(pool.last@)[j as int] == pool.last@[j as int]@);
            }
        }
        name.append(" ");
        if j < pool.last.len() {
            name.append(pool.last[j].as_str());
        } else {
            name.append("Doe");
        }
        name
    }

    /// The first names to draw from.
    fn firsts(&self, bucket: NationalityBucket, male: bool) -> (r: &Vec<String>)
        ensures
            views(r@) == first_pool(self@[bucket.number()], male),
    {
        let pool = self.pool(bucket);
        if male {
            if pool.first_male.len() == 0 {
                &pool.first_female
            } else {
                &pool.first_male
            }
        } else {
            if pool.first_female.len() == 0 {
                &pool.first_male
            } else {
                &pool.first_female
            }
        }
    }

    /// Draws a name of a bucket: each of its two parts is one of the lists',
    /// or a stand-in where a list is empty.
    pub fn draw_name(&self, rng: &mut Generator, bucket: NationalityBucket, male: bool) -> (r:
        String)
        ensures
            name_drawn(self@[bucket.number()], male, old(rng)@, r@, final(rng)@),
    {
        let firsts = self.firsts(bucket, male);
        let n: usize = firsts.len();
        let i = draw_below(rng, if n > 1 { n } else { 1 });
        let m: usize = self.pool(bucket).last.len();
        let j = draw_below(rng, if m > 1 { m } else { 1 });
        proof {
            assert(views(firsts@).len() == n);
            assert(self@[bucket.number()].last.len() == m);
        }
        self.full_name(bucket, male, i, j)
    }

    /// Rolls a bucket by the given weights and a name of it. `draw` makes a
    /// number from zero to one of a word, and `male_weight` is the part of men.
    pub fn roll_with_weights<D: Fn(u32) -> F32Bits>(
        &self,
        rng: &mut Generator,
        weights: &Vec<(NationalityBucket, u32)>,
        male_weight: F32Bits,
        draw: D,
    ) -> (r: (NationalityBucket, String))
        requires
            weight_sum(bucket_weights(weights@)) <= u32::MAX,
            always_draws(draw),
        ensures
            is_roll(
                self@,
                weights@,
                male_weight,
                draw,
                old(rng)@,
                r.0,
                r.1@,
                final(rng)@,
            ),
    {
        let bucket = draw_bucket(rng, weights);
        let ghost mid = rng@;
        let w = draw_word(rng);
        let ghost then = rng@;
        let x = draw(w);
        let male = draws_male(x, male_weight);
        let name = self.draw_name(rng, bucket, male);
        assert(word_drawn(mid, w, then));
        (bucket, name)
    }

    /// Rolls a bucket, all alike, and a name of it, with the usual part of
    /// men.
    pub fn roll<D: Fn(u32) -> F32Bits>(&self, rng: &mut Generator, draw: D) -> (r: (
        NationalityBucket,
        String,
    ))
        requires
            always_draws(draw),
        ensures
            is_roll(
                self@,
                even_weights(),
                F32Bits(DEFAULT_MALE_NAME_WEIGHT),
                draw,
                old(rng)@,
                r.0,
                r.1@,
                final(rng)@,
            ),
    {
        let weights = default_weights();
        proof {
            lemma_even_weights_sum(BUCKETS as int);
            assert(bucket_weights(even_weights()).take(BUCKETS as int) =~= bucket_weights(
                even_weights(),
            ));
        }
        self.roll_with_weights(rng, &weights, F32Bits(DEFAULT_MALE_NAME_WEIGHT), draw)
    }

    /// Rolls a bucket by a faction's weights and a name of it, with the usual
    /// part of men.
    pub fn roll_for_faction<D: Fn(u32) -> F32Bits>(
        &self,
        rng: &mut Generator,
        faction_weights: &StrMap<u32>,
        draw: D,
    ) -> (r: (NationalityBucket, String))
        requires
            weight_sum(bucket_weights(faction_draw_weights(faction_weights.list()))) <= u32::MAX,
            always_draws(draw),
        ensures
            is_roll(
                self@,
                faction_draw_weights(faction_weights.list()),
                F32Bits(DEFAULT_MALE_NAME_WEIGHT),
                draw,
                old(rng)@,
                r.0,
                r.1@,
                final(rng)@,
            ),
    {
        self.roll_for_faction_gendered(
            rng,
            faction_weights,
            F32Bits(DEFAULT_MALE_NAME_WEIGHT),
            draw,
        )
    }

    /// Rolls a bucket by a faction's weights and a name of it, with the given
    /// part of men.
    pub fn roll_for_faction_gendered<D: Fn(u32) -> F32Bits>(
        &self,
        rng: &mut Generator,
        faction_weights: &StrMap<u32>,
        male_weight: F32Bits,
        draw: D,
    ) -> (r: (NationalityBucket, String))
        requires
            weight_sum(bucket_weights(faction_draw_weights(faction_weights.list()))) <= u32::MAX,
            always_draws(draw),
        ensures
            is_roll(
                self@,
                faction_draw_weights(faction_weights.list()),
                male_weight,
                draw,
                old(rng)@,
                r.0,
                r.1@,
                final(rng)@,
            ),
    {
        let weights = weights_for_faction(faction_weights);
        self.roll_with_weights(rng, &weights, male_weight, draw)
    }

    /// The first names of a bucket, men's first.
    pub fn first_names(&self, bucket: NationalityBucket) -> (r: Vec<&str>)
        ensures
            r@.len() == self@[bucket.number()].male.len() + self@[bucket.number()].female.len(),
            forall|i: int|
                0 <= i < r@.len() ==> (#[trigger] r@[i])@ == (self@[bucket.number()].male
                    + self@[bucket.number()].female)[i],
    {
        let pool = self.pool(bucket);
        let ghost want = self@[bucket.number()].male + self@[bucket.number()].female;
        let mut r: Vec<&str> = Vec::new();
        let mut i: usize = 0;
        while i < pool.first_male.len()
            invariant
                pool@ == self@[bucket.number()],
                want == pool@.male + pool@.female,
                i <= pool.first_male@.len(),
                r@.len() == i,
                forall|k: int| 0 <= k < i ==> (#[trigger] r@[k])@ == want[k],
            decreases pool.first_male@.len() - i,
        {
            assert(want[i as int] == pool.first_male@[i as int]@);
            r.push(pool.first_male[i].as_str());
            i += 1;
        }
        let n: usize = pool.first_male.len();
        let mut j: usize = 0;
        while j < pool.first_female.len()
            invariant
                pool@ == self@[bucket.number()],
                want == pool@.male + pool@.female,
                n == pool.first_male@.len(),
                j <= pool.first_female@.len(),
                r@.len() == n + j,
                forall|k: int| 0 <= k < n + j ==> (#[trigger] r@[k])@ == want[k],
            decreases pool.first_female@.len() - j,
        {
            assert(want[n + j] == pool.first_female@[j as int]@);
            r.push(pool.first_female[j].as_str());
            j += 1;
        }
        r
    }

    /// Men's first names of a bucket.
    pub fn first_names_male(&self, bucket: NationalityBucket) -> (r: &[String])
        ensures
            views(r@) == self@[bucket.number()].male,
    {
        self.pool(bucket).first_male.as_slice()
    }

    /// Women's first names of a bucket.
    pub fn first_names_female(&self, bucket: NationalityBucket) -> (r: &[String])
        ensures
            views(r@) == self@[bucket.number()].female,
    {
        self.pool(bucket).first_female.as_slice()
    }

    /// Last names of a bucket.
    pub fn last_names(&self, bucket: NationalityBucket) -> (r: &[String])
        ensures
            views(r@) == self@[bucket.number()].last,
    {
        self.pool(bucket).last.as_slice()
    }
}

/// A faction whose keys all name no bucket draws every bucket evenly.
pub proof fn law_unknown_buckets_draw_evenly(entries: Seq<Entry<u32>>, b: NationalityBucket)
    requires
        forall|i: int, b: NationalityBucket|
            0 <= i < entries.len() ==> #[trigger] b.tag() != (#[trigger] entries[i]).key@,
    ensures
        faction_draw_weights(entries) == even_weights(),
        can_draw(even_weights(), b),
{
    lemma_no_named_buckets(entries);
    assert(even_weights()[b.number()].0 == b);
}

/// The first `n` of the even weights add up to `n`.
proof fn lemma_even_weights_sum(n: int)
    requires
        0 <= n <= BUCKETS,
    ensures
        weight_sum(bucket_weights(even_weights()).take(n)) == n,
    decreases n,
{
    let ws = bucket_weights(even_weights());
    if n > 0 {
        lemma_even_weights_sum(n - 1);
        assert(ws.take(n).drop_last() =~= ws.take(n - 1));
        assert(ws.take(n).last() == 1);
    }
}

proof fn lemma_no_named_buckets(entries: Seq<Entry<u32>>)
    requires
        forall|i: int, b: NationalityBucket|
            0 <= i < entries.len() ==> #[trigger] b.tag() != (#[trigger] entries[i]).key@,
    ensures
        named_buckets(entries).len() == 0,
    decreases entries.len(),
{
    if entries.len() > 0 {
        let init = entries.drop_last();
        assert forall|i: int, b: NationalityBucket| 0 <= i < init.len() implies #[trigger] b.tag()
            != (#[trigger] init[i]).key@ by {
            assert(init[i] == entries[i]);
        }
        lemma_no_named_buckets(init);
        assert(entries.last() == entries[entries.len() - 1]);
    }
}

/// Trimming takes white space from both ends and nothing else: what is left
/// begins and ends with something, and around it there is only white space.
pub proof fn law_trimming(s: Seq<char>) -> (r: (int, int))
    ensures
        0 <= r.0 <= r.1 <= s.len(),
        trimmed(s) == s.subrange(r.0, r.1),
        forall|i: int| 0 <= i < r.0 || r.1 <= i < s.len() ==> is_white(#[trigger] s[i]),
        r.0 < r.1 ==> !is_white(s[r.0]) && !is_white(s[r.1 - 1]),
    decreases s.len(),
{
    if s.len() > 0 && is_white(s[0]) {
        let rest = s.drop_first();
        let (a, b) = law_trimming(rest);
        assert(rest.subrange(a, b) =~= s.subrange(a + 1, b + 1));
        assert forall|i: int| 0 <= i < a + 1 || b + 1 <= i < s.len() implies is_white(
            #[trigger] s[i],
        ) by {
            if i > 0 {
                assert(rest[i - 1] == s[i]);
            }
        }
        assert(a < b ==> rest[a] == s[a + 1] && rest[b - 1] == s[b]);
        (a + 1, b + 1)
    } else if s.len() > 0 && is_white(s.last()) {
        let rest = s.drop_last();
        let (a, b) = law_trimming(rest);
        assert(rest.subrange(a, b) =~= s.subrange(a, b));
        assert forall|i: int| 0 <= i < a || b <= i < s.len() implies is_white(#[trigger] s[i]) by {
            if i < rest.len() {
                assert(rest[i] == s[i]);
            }
        }
        assert(a < b ==> rest[a] == s[a] && rest[b - 1] == s[b - 1]);
        (a, b)
    } else {
        assert(s.subrange(0, s.len() as int) =~= s);
        (0, s.len() as int)
    }
}

/// Blanks, tabs and ends of lines are white space; letters, digits and other
/// signs are not.
pub proof fn law_white_space(c: char)
    ensures
        c == ' ' || c == '\t' || c == '\n' || c == '\r' ==> is_white(c),
        '!' <= c && c <= '~' ==> !is_white(c),
        is_white(c) && c <= '~' ==> c == ' ' || ('\t' <= c && c <= '\r'),
{
}

/// A text is read line by line: an empty line and one that begins with `#`
/// give nothing, and any other gives what trimming leaves of it.
pub proof fn law_lines_are_read_one_by_one(line: Seq<char>, rest: Seq<char>)
    requires
        forall|i: int| 0 <= i < line.len() ==> #[trigger] line[i] != '\n',
    ensures
        ({
            let t = trimmed(line);
            let all = line + seq!['\n'] + rest;
            &&& t.len() == 0 || t[0] == '#' ==> lines_from(all, 0) == lines_from(rest, 0)
            &&& t.len() > 0 && t[0] != '#' ==> lines_from(all, 0) == seq![t] + lines_from(rest, 0)
            &&& t.len() > 0 && t[0] != '#' ==> lines_from(line, 0) == seq![t]
            &&& t.len() == 0 || t[0] == '#' ==> lines_from(line, 0).len() == 0
        }),
{
    let head = line + seq!['\n'];
    let all = head + rest;
    assert(all =~= line + seq!['\n'] + rest);
    lemma_line_runs(all, 0, line.len() as int);
    lemma_line_runs(line, 0, line.len() as int);
    assert(all.subrange(0, line.len() as int) =~= line);
    assert(line.subrange(0, line.len() as int) =~= line);
    lemma_lines_shift(head, rest, 0);
    assert(lines_from(line, line.len() as int + 1) =~= Seq::<Seq<char>>::empty());
    assert(seq![trimmed(line)] + Seq::<Seq<char>>::empty() =~= seq![trimmed(line)]);
}

/// A line runs up to the first end of line.
proof fn lemma_line_runs(s: Seq<char>, from: int, to: int)
    requires
        0 <= from <= to <= s.len(),
        forall|i: int| from <= i < to ==> #[trigger] s[i] != '\n',
        to == s.len() || s[to] == '\n',
    ensures
        line_end(s, from) == to,
    decreases to - from,
{
    if from < to {
        lemma_line_runs(s, from + 1, to);
    }
}

/// What comes before does not matter to the lines that come after.
proof fn lemma_lines_shift(head: Seq<char>, rest: Seq<char>, k: int)
    requires
        0 <= k <= rest.len() + 1,
    ensures
        lines_from(head + rest, head.len() + k) == lines_from(rest, k),
    decreases rest.len() + 1 - k,
{
    let all = head + rest;
    if k <= rest.len() {
        lemma_line_end(rest, k);
        let e = line_end(rest, k);
        lemma_line_stops(rest, k);
        assert forall|i: int| head.len() + k <= i < head.len() + e implies #[trigger] all[i]
            != '\n' by {
            assert(all[i] == rest[i - head.len()]);
        }
        assert(e < rest.len() ==> all[head.len() + e] == rest[e]);
        lemma_line_runs(all, head.len() + k, head.len() + e);
        assert(all.subrange(head.len() + k, head.len() + e) =~= rest.subrange(k, e));
        lemma_lines_shift(head, rest, e + 1);
    }
}

/// A line holds no end of line.
proof fn lemma_line_stops(s: Seq<char>, from: int)
    requires
        0 <= from <= s.len(),
    ensures
        forall|i: int| from <= i < line_end(s, from) ==> #[trigger] s[i] != '\n',
    decreases s.len() - from,
{
    if from < s.len() && s[from] != '\n' {
        lemma_line_stops(s, from + 1);
    }
}

/// A line with `F ` in front, in either case, gives a woman's name, and any
/// other a man's; the mark of either sex is left out.
pub proof fn law_first_names_by_sex(lines: Seq<Seq<char>>, line: Seq<char>)
    ensures
        ({
            let men = of_sex(lines, false);
            let women = of_sex(lines, true);
            let m = line.len() >= 2 && (line[0] == 'M' || line[0] == 'm') && line[1] == ' ';
            let f = line.len() >= 2 && (line[0] == 'F' || line[0] == 'f') && line[1] == ' ';
            let all = lines.push(line);
            &&& f ==> of_sex(all, true) == women.push(trimmed(line.skip(2))) && of_sex(all, false)
                == men
            &&& m ==> of_sex(all, false) == men.push(trimmed(line.skip(2))) && of_sex(all, true)
                == women
            &&& !m && !f ==> of_sex(all, false) == men.push(line) && of_sex(all, true) == women
            &&& of_sex(Seq::empty(), true).len() == 0 && of_sex(Seq::empty(), false).len() == 0
        }),
{
    assert(lines.push(line).drop_last() =~= lines);
}

/// A first name is of the sex drawn as long as there is one, and else of the
/// other; between the names stands a blank, and a name that is not there has a
/// stand-in.
pub proof fn law_full_names(p: PoolView, i: int, j: int)
    requires
        0 <= j < p.last.len(),
    ensures
        0 <= i < p.male.len() ==> full_name_of(p, true, i, j) == p.male[i] + seq![' '] + p.last[j],
        0 <= i < p.female.len() ==> full_name_of(p, false, i, j) == p.female[i] + seq![' ']
            + p.last[j],
        p.male.len() == 0 && 0 <= i < p.female.len() ==> full_name_of(p, true, i, j) == full_name_of(
            p,
            false,
            i,
            j,
        ),
        p.female.len() == 0 && 0 <= i < p.male.len() ==> full_name_of(p, false, i, j)
            == full_name_of(p, true, i, j),
        p.male.len() == 0 && p.female.len() == 0 ==> full_name_of(p, true, i, j) == "Anon"@ + seq![
            ' ',
        ] + p.last[j],
{
    reveal_strlit(" ");
    assert(" "@ =~= seq![' ']);
}

/// Nobody is without a last name: where there is none, it is Doe.
pub proof fn law_nameless_are_doe(p: PoolView, male: bool, i: int, j: int)
    requires
        p.last.len() == 0,
    ensures
        full_name_of(p, male, i, j) == name_or(first_pool(p, male), i, "Anon"@) + " "@ + "Doe"@,
{
}

/// Each bucket has a number under eight of its own.
pub proof fn law_buckets_are_numbered(b: NationalityBucket, i: int)
    requires
        0 <= i < 8,
    ensures
        0 <= b.number() < 8,
        bucket_numbered(b.number()) == b,
        bucket_numbered(i).number() == i,
{
}

/// Of a faction's weights those count whose key is the name of a bucket, with
/// that bucket; others are left out.
pub proof fn law_weights_are_by_bucket(entries: Seq<Entry<u32>>, e: Entry<u32>, b: NationalityBucket)
    ensures
        b.tag() == e.key@ ==> named_buckets(entries.push(e)) == named_buckets(entries).push(
            (b, e.value),
        ),
        (forall|c: NationalityBucket| #[trigger] c.tag() != e.key@) ==> named_buckets(
            entries.push(e),
        ) == named_buckets(entries),
        named_buckets(Seq::empty()).len() == 0,
        even_weights().len() == 8,
        even_weights()[b.number()] == (b, 1u32),
{
    assert(entries.push(e).drop_last() =~= entries);
    if b.tag() == e.key@ {
        let c = choose|c: NationalityBucket| #[trigger] c.tag() == entries.push(e).last().key@;
        law_bucket_names_differ(b, c);
    }
}

/// The part of men is kept from none to all.
pub proof fn law_part_of_men(x: F32Bits, draw: F32Bits)
    ensures
        x.less(F32Bits(0)) ==> clamped_unit(x) == F32Bits(0),
        F32Bits(0x3f80_0000).less(x) ==> clamped_unit(x) == F32Bits(0x3f80_0000),
        F32Bits(0).at_most(x) && x.at_most(F32Bits(0x3f80_0000)) ==> clamped_unit(x) == x,
        x.is_nan() ==> !draw.less(clamped_unit(x)),
{
}

/// Where nothing has weight any of the eight buckets comes up, by one draw;
/// else the one that a draw under the sum of all weights falls on, which has
/// weight.
pub proof fn law_buckets_are_drawn(
    ws: Seq<(NationalityBucket, u32)>,
    t: Trail,
    b: NationalityBucket,
    after: Option<Trail>,
) -> (i: int)
    requires
        bucket_drawn(ws, Some(t), b, after),
    ensures
        ({
            let all = bucket_weights(ws);
            let total = weight_sum(all);
            &&& total == 0 ==> b == bucket_numbered(t.next(usize::BITS as nat, 0, 7))
            &&& total != 0 ==> {
                let roll = t.next(32, 0, total - 1);
                &&& 0 <= i < ws.len() && b == ws[i].0 && ws[i].1 > 0
                &&& weight_sum(all.take(i)) <= roll < weight_sum(all.take(i)) + ws[i].1
            }
        }),
{
    let all = bucket_weights(ws);
    let total = weight_sum(all);
    if total == 0 {
        0
    } else {
        let roll = t.next(32, 0, total - 1);
        let i = choose|i: int| #[trigger] falls_on(all, roll, i) && b == ws[i].0;
        law_roll_falls_on_one_entry(all, roll, i, i);
        assert(all.take(i + 1).drop_last() =~= all.take(i));
        i
    }
}

/// A name takes two draws: one for the place of the first name in its list, and
/// then one for that of the last.
pub proof fn law_names_are_drawn(
    p: PoolView,
    male: bool,
    t: Trail,
    name: Seq<char>,
    after: Option<Trail>,
)
    requires
        name_drawn(p, male, Some(t), name, after),
        p.male.len() > 0,
        p.female.len() > 0,
        p.last.len() > 0,
    ensures
        ({
            let bits = usize::BITS as nat;
            let firsts = if male {
                p.male
            } else {
                p.female
            };
            let then = t.after(bits, 0, firsts.len() - 1);
            &&& name == full_name_of(
                p,
                male,
                t.next(bits, 0, firsts.len() - 1),
                then.next(bits, 0, p.last.len() - 1),
            )
            &&& after == Some(then.after(bits, 0, p.last.len() - 1))
        }),
{
}

/// A bucket's first text holds its first names, men's and women's, and its
/// second its last names.
pub proof fn law_pools_hold_what_is_written(first: Seq<char>, last: Seq<char>)
    ensures
        pool_of(first, last).male == of_sex(lines_from(first, 0), false),
        pool_of(first, last).female == of_sex(lines_from(first, 0), true),
        pool_of(first, last).last == lines_from(last, 0),
        pool_of(first, last).male.len() + pool_of(first, last).female.len() == lines_from(
            first,
            0,
        ).len(),
{
    lemma_sexes_add_up(lines_from(first, 0));
}

/// Every line of first names is of one sex.
proof fn lemma_sexes_add_up(lines: Seq<Seq<char>>)
    ensures
        of_sex(lines, false).len() + of_sex(lines, true).len() == lines.len(),
    decreases lines.len(),
{
    if lines.len() > 0 {
        lemma_sexes_add_up(lines.drop_last());
    }
}

} // verus!
