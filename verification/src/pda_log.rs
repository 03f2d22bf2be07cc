//! The feed of events that players see.
use std::collections::VecDeque;
use vstd::prelude::*;

use crate::region::RegionId;

verus! {

/// What happened. Factions are given by name, so that entries outlive changes
/// of the faction list.
#[derive(Clone, Debug)]
pub enum PdaEvent {
    /// A member of one faction was killed by one of another.
    OfflineCombatDeath { killed_faction: String, killer_faction: String, region: RegionId },
    /// Shots were heard.
    OfflineGunfire { region: RegionId },
    /// A base changed hands.
    BaseFlip { new_owner: String, old_owner: Option<String>, region: RegionId },
}

/// What happened, as a mathematical value.
pub enum News {
    OfflineCombatDeath { killed: Seq<char>, killer: Seq<char>, region: RegionId },
    OfflineGunfire { region: RegionId },
    BaseFlip { new_owner: Seq<char>, old_owner: Option<Seq<char>>, region: RegionId },
}

impl View for PdaEvent {
    type V = News;

    open spec fn view(&self) -> News {
        match self {
            PdaEvent::OfflineCombatDeath { killed_faction, killer_faction, region } => {
                News::OfflineCombatDeath {
                    killed: killed_faction@,
                    killer: killer_faction@,
                    region: *region,
                }
            },
            PdaEvent::OfflineGunfire { region } => News::OfflineGunfire { region: *region },
            PdaEvent::BaseFlip { new_owner, old_owner, region } => News::BaseFlip {
                new_owner: new_owner@,
                old_owner: match old_owner {
                    Some(o) => Some(o@),
                    None => None,
                },
                region: *region,
            },
        }
    }
}

/// An entry, as a mathematical value.
pub struct NewsEntry {
    pub seq: u64,
    pub tick: u64,
    pub news: News,
}

/// A feed, as a mathematical value: what it holds and the next number.
pub struct Feed {
    pub entries: Seq<NewsEntry>,
    pub next: u64,
}

impl Feed {
    /// The feed with one event more. Of more entries than are kept the oldest
    /// goes.
    pub open spec fn pushed(self, news: News, tick: u64) -> Feed {
        let all = self.entries.push(NewsEntry { seq: self.next, tick, news });
        Feed {
            entries: if all.len() > PDA_LOG_CAP {
                all.drop_first()
            } else {
                all
            },
            next: next_number(self.next),
        }
    }

    /// The numbers of the entries follow each other up to the next one.
    pub open spec fn numbered(self) -> bool {
        forall|i: int|
            0 <= i < self.entries.len() ==> (#[trigger] self.entries[i]).seq + self.entries.len()
                - i == self.next
    }

    /// When shots were last reported from the region.
    pub open spec fn last_gunfire(self, region: RegionId, n: int) -> Option<u64>
        decreases n,
    {
        if n <= 0 {
            None
        } else if self.entries[n - 1].news == (News::OfflineGunfire { region }) {
            Some(self.entries[n - 1].tick)
        } else {
            self.last_gunfire(region, n - 1)
        }
    }

    /// The feed without the outdated entries at its front.
    pub open spec fn evicted(self, now: u64) -> Feed {
        Feed { entries: self.entries.skip(old_front(self.entries, now)), next: self.next }
    }
}

/// How many entries at the front are outdated, up to the first that is not.
pub open spec fn old_front(s: Seq<NewsEntry>, now: u64) -> int
    decreases s.len(),
{
    if s.len() > 0 && now > s[0].tick && now - s[0].tick > PDA_LOG_MAX_AGE_TICKS {
        1 + old_front(s.drop_first(), now)
    } else {
        0
    }
}

/// An event, when it happened and its place in the feed.
#[derive(Clone, Debug)]
pub struct PdaLogEntry {
    pub seq: u64,
    pub tick: u64,
    pub event: PdaEvent,
}

/// How many entries are kept.
pub const PDA_LOG_CAP: usize = 256;

/// How many ticks an entry is kept.
pub const PDA_LOG_MAX_AGE_TICKS: u64 = 1200;

/// The latest entries, oldest first.
#[derive(Debug)]
pub struct PdaEventLog {
    entries: VecDeque<PdaLogEntry>,
    next_seq: u64,
    cap: usize,
}

/// The entries after the given place in the feed.
pub open spec fn entries_after(s: Seq<PdaLogEntry>, seq: u64) -> Seq<PdaLogEntry>
    decreases s.len(),
{
    if s.len() == 0 {
        Seq::empty()
    } else if s.last().seq > seq {
        entries_after(s.drop_last(), seq).push(s.last())
    } else {
        entries_after(s.drop_last(), seq)
    }
}

/// The wrapped successor of a number.
pub open spec fn next_number(n: u64) -> u64 {
    if n == u64::MAX {
        0
    } else {
        (n + 1) as u64
    }
}

impl View for PdaLogEntry {
    type V = NewsEntry;

    open spec fn view(&self) -> NewsEntry {
        NewsEntry { seq: self.seq, tick: self.tick, news: self.event@ }
    }
}

/// What a list of entries tells.
pub open spec fn told(s: Seq<PdaLogEntry>) -> Seq<NewsEntry> {
    Seq::new(s.len(), |i: int| s[i]@)
}

impl View for PdaEventLog {
    type V = Feed;

    open spec fn view(&self) -> Feed {
        Feed { entries: told(self.kept()), next: self.next() }
    }
}

impl Default for PdaEventLog {
    /// An empty feed. Numbers start at one, so that everything comes after
    /// zero.
    fn default() -> (r: Self)
        ensures
            r.kept() == Seq::<PdaLogEntry>::empty(),
            r.next() == 1,
            r.in_order(),
    {
        PdaEventLog { entries: VecDeque::new(), next_seq: 1, cap: PDA_LOG_CAP }
    }
}

impl PdaEventLog {
    #[verifier::type_invariant]
    spec fn inv(self) -> bool {
        self.cap == PDA_LOG_CAP && self.entries@.len() <= PDA_LOG_CAP
    }

    /// The entries, oldest first.
    pub closed spec fn kept(self) -> Seq<PdaLogEntry> {
        self.entries@
    }

    /// The number of the next entry.
    pub closed spec fn next(self) -> u64 {
        self.next_seq
    }

    /// Numbers grow, and all are under the next one. So it is until numbers
    /// run out.
    pub open spec fn in_order(self) -> bool {
        &&& forall|i: int, j: int|
            0 <= i < j < self.kept().len() ==> (#[trigger] self.kept()[i]).seq < (
            #[trigger] self.kept()[j]).seq
        &&& forall|i: int|
            0 <= i < self.kept().len() ==> 0 < (#[trigger] self.kept()[i]).seq < self.next()
        &&& self.next() > 0
    }

    /// Adds an event and returns its number. Of more entries than are kept
    /// the oldest goes.
    pub fn push(&mut self, event: PdaEvent, tick: u64) -> (r: u64)
        ensures
            r == old(self).next(),
            final(self).next() == next_number(old(self).next()),
            ({
                let all = old(self).kept().push(PdaLogEntry { seq: r, tick, event });
                final(self).kept() == (if all.len() > PDA_LOG_CAP {
                    all.drop_first()
                } else {
                    all
                })
            }),
            final(self)@ == old(self)@.pushed(event@, tick),
            old(self).in_order() && old(self).next() < u64::MAX ==> final(self).in_order(),
    {
        proof {
            use_type_invariant(&*self);
        }
        let seq = self.next_seq;
        let entry = PdaLogEntry { seq, tick, event };
        let mut entries: VecDeque<PdaLogEntry> = VecDeque::new();
        core::mem::swap(&mut self.entries, &mut entries);
        let ghost before = entries@;
        let ghost all = before.push(entry);
        entries.push_back(entry);
        if entries.len() > self.cap {
            let _ = entries.pop_front();
            assert(entries@ =~= all.drop_first());
        }
        self.next_seq = self.next_seq.wrapping_add(1);
        self.entries = entries;
        proof {
            assert(told(all) =~= told(before).push(entry@));
            assert(told(all).drop_first() =~= told(all.drop_first()));
            if old(self).in_order() && old(self).next() < u64::MAX {
                let shift: int = if all.len() > PDA_LOG_CAP {
                    1
                } else {
                    0
                };
                assert forall|i: int| 0 <= i < self.kept().len() implies #[trigger] self.kept()[i]
                    == all[i + shift] by {}
                assert forall|i: int, j: int| 0 <= i < j < self.kept().len() implies (
                #[trigger] self.kept()[i]).seq < (#[trigger] self.kept()[j]).seq by {
                    assert(all[i + shift] == before[i + shift]);
                    assert(old(self).kept()[i + shift].seq < seq);
                    if j + shift < before.len() {
                        assert(all[j + shift] == before[j + shift]);
                        assert(old(self).kept()[i + shift].seq < old(self).kept()[j + shift].seq);
                    }
                }
                assert forall|i: int| 0 <= i < self.kept().len() implies 0 < (
                #[trigger] self.kept()[i]).seq < self.next() by {
                    if i + shift < before.len() {
                        assert(all[i + shift] == before[i + shift]);
                        assert(old(self).kept()[i + shift].seq < seq);
                    }
                }
            }
        }
        seq
    }

    /// Drops outdated entries from the front.
    pub fn evict_old(&mut self, now: u64)
        ensures
            final(self).next() == old(self).next(),
            final(self).kept() == old(self).kept().skip(old_front(old(self)@.entries, now)),
            final(self)@ == old(self)@.evicted(now),
            old(self).in_order() ==> final(self).in_order(),
    {
        proof {
            use_type_invariant(&*self);
            lemma_old_front_bound(told(self.entries@), now);
        }
        let mut entries: VecDeque<PdaLogEntry> = VecDeque::new();
        core::mem::swap(&mut self.entries, &mut entries);
        let ghost before = entries@;
        let ghost mut gone: int = 0;
        assert(before.skip(0) =~= before);
        while entries.len() > 0 && now > entries[0].tick && now - entries[0].tick
            > PDA_LOG_MAX_AGE_TICKS
            invariant
                0 <= gone <= before.len(),
                entries@ == before.skip(gone),
                old_front(told(before), now) == gone + old_front(told(entries@), now),
                before.len() <= PDA_LOG_CAP,
            decreases entries@.len(),
        {
            assert(entries@.drop_first() =~= before.skip(gone + 1));
            assert(told(entries@).drop_first() =~= told(entries@.drop_first()));
            assert(told(entries@)[0].tick == entries@[0].tick);
            let _ = entries.pop_front();
            assert(entries@ =~= before.skip(gone + 1));
            proof {
                gone = gone + 1;
            }
        }
        self.entries = entries;
        proof {
            assert(told(before.skip(gone)) =~= told(before).skip(gone));
            if old(self).in_order() {
                assert forall|i: int| 0 <= i < self.kept().len() implies #[trigger] self.kept()[i]
                    == old(self).kept()[i + gone] by {}
            }
        }
    }

    /// The entries after the given number, oldest first.
    pub fn since(&self, since_seq: u64) -> (r: Vec<&PdaLogEntry>)
        ensures
            listed(r@) == entries_after(self.kept(), since_seq),
    {
        let mut r: Vec<&PdaLogEntry> = Vec::new();
        let mut i: usize = 0;
        assert(self.kept().take(0) =~= Seq::<PdaLogEntry>::empty());
        assert(listed(r@) =~= Seq::<PdaLogEntry>::empty());
        while i < self.entries.len()
            invariant
                i <= self.entries@.len(),
                listed(r@) == entries_after(self.entries@.take(i as int), since_seq),
            decreases self.entries@.len() - i,
        {
            let ghost before = r@;
            assert(self.entries@.take(i + 1).drop_last() =~= self.entries@.take(i as int));
            let e = &self.entries[i];
            if e.seq > since_seq {
                r.push(e);
                assert(listed(r@) =~= listed(before).push(*e));
            }
            i += 1;
        }
        assert(self.entries@.take(i as int) =~= self.entries@);
        r
    }

    /// All entries, oldest first.
    pub fn all(&self) -> (r: Vec<&PdaLogEntry>)
        ensures
            listed(r@) == self.kept(),
    {
        let mut r: Vec<&PdaLogEntry> = Vec::new();
        let mut i: usize = 0;
        while i < self.entries.len()
            invariant
                i <= self.entries@.len(),
                r@.len() == i,
                forall|k: int| 0 <= k < i ==> *(#[trigger] r@[k]) == self.entries@[k],
            decreases self.entries@.len() - i,
        {
            r.push(&self.entries[i]);
            i += 1;
        }
        assert(listed(r@) =~= self.kept());
        r
    }

    /// How many entries are kept.
    pub fn len(&self) -> (r: usize)
        ensures
            r == self.kept().len(),
            r <= PDA_LOG_CAP,
    {
        proof {
            use_type_invariant(self);
        }
        self.entries.len()
    }

    /// True iff no entry is kept.
    pub fn is_empty(&self) -> (r: bool)
        ensures
            r == (self.kept().len() == 0),
    {
        self.entries.len() == 0
    }

    /// The highest number given so far, zero for none.
    pub fn high_water(&self) -> (r: u64)
        ensures
            r == (if self.next() == 0 {
                0
            } else {
                self.next() - 1
            }),
    {
        if self.next_seq == 0 {
            0
        } else {
            self.next_seq - 1
        }
    }

    /// When shots were last reported from the region.
    pub fn last_gunfire_tick(&self, region: RegionId) -> (r: Option<u64>)
        ensures
            r == self@.last_gunfire(region, self@.entries.len() as int),
    {
        let mut i: usize = self.entries.len();
        let ghost feed = self@;
        while i > 0
            invariant
                i <= self.entries@.len(),
                feed == self@,
                feed.last_gunfire(region, feed.entries.len() as int) == feed.last_gunfire(
                    region,
                    i as int,
                ),
            decreases i,
        {
            i -= 1;
            let e = &self.entries[i];
            assert(feed.entries[i as int] == e@);
            if let PdaEvent::OfflineGunfire { region: at } = &e.event {
                if *at == region {
                    return Some(e.tick);
                }
            }
        }
        None
    }
}

/// What a list of references points to.
pub open spec fn listed(r: Seq<&PdaLogEntry>) -> Seq<PdaLogEntry> {
    Seq::new(r.len(), |i: int| *r[i])
}

/// Nothing comes after a number that no entry exceeds.
proof fn lemma_nothing_after(s: Seq<PdaLogEntry>, seq: u64)
    requires
        forall|i: int| 0 <= i < s.len() ==> (#[trigger] s[i]).seq <= seq,
    ensures
        entries_after(s, seq) == Seq::<PdaLogEntry>::empty(),
    decreases s.len(),
{
    if s.len() > 0 {
        assert(s[s.len() - 1].seq <= seq);
        lemma_nothing_after(s.drop_last(), seq);
    }
}

/// Where time goes forward along the feed, eviction leaves nothing outdated
/// and takes nothing that is not.
pub proof fn law_eviction_drops_the_outdated(feed: Feed, now: u64, i: int)
    requires
        forall|a: int, b: int|
            0 <= a < b < feed.entries.len() ==> (#[trigger] feed.entries[a]).tick <= (
            #[trigger] feed.entries[b]).tick,
        0 <= i < feed.entries.len(),
    ensures
        i < old_front(feed.entries, now) <==> now - feed.entries[i].tick > PDA_LOG_MAX_AGE_TICKS,
        feed.evicted(now).entries == feed.entries.skip(old_front(feed.entries, now)),
    decreases feed.entries.len(),
{
    let s = feed.entries;
    if now > s[0].tick && now - s[0].tick > PDA_LOG_MAX_AGE_TICKS {
        if i > 0 {
            let rest = Feed { entries: s.drop_first(), next: feed.next };
            assert forall|a: int, b: int| 0 <= a < b < rest.entries.len() implies (
            #[trigger] rest.entries[a]).tick <= (#[trigger] rest.entries[b]).tick by {
                assert(s[a + 1].tick <= s[b + 1].tick);
            }
            law_eviction_drops_the_outdated(rest, now, i - 1);
        } else {
            lemma_old_front_bound(s.drop_first(), now);
        }
    } else if i > 0 {
        assert(s[0].tick <= s[i].tick);
    }
}

/// The numbers of the entries follow each other whatever comes and goes, until
/// numbers run out.
pub proof fn law_numbers_follow_each_other(feed: Feed, news: News, tick: u64, now: u64)
    requires
        feed.numbered(),
    ensures
        feed.next < u64::MAX ==> feed.pushed(news, tick).numbered(),
        feed.evicted(now).numbered(),
{
    lemma_old_front_bound(feed.entries, now);
    if feed.next < u64::MAX {
        let all = feed.entries.push(NewsEntry { seq: feed.next, tick, news });
        let after = feed.pushed(news, tick);
        let shift: int = if all.len() > PDA_LOG_CAP {
            1
        } else {
            0
        };
        assert forall|i: int| 0 <= i < after.entries.len() implies (
        #[trigger] after.entries[i]).seq + after.entries.len() - i == after.next by {
            assert(after.entries[i] == all[i + shift]);
            if i + shift < feed.entries.len() {
                assert(all[i + shift] == feed.entries[i + shift]);
            }
        }
    }
    let n = old_front(feed.entries, now);
    let left = feed.evicted(now);
    assert forall|i: int| 0 <= i < left.entries.len() implies (#[trigger] left.entries[i]).seq
        + left.entries.len() - i == left.next by {
        assert(left.entries[i] == feed.entries[i + n]);
    }
}

/// No more entries are outdated than there are.
proof fn lemma_old_front_bound(s: Seq<NewsEntry>, now: u64)
    ensures
        0 <= old_front(s, now) <= s.len(),
    decreases s.len(),
{
    if s.len() > 0 {
        lemma_old_front_bound(s.drop_first(), now);
    }
}

/// A reader that has seen the highest number gets nothing.
pub proof fn law_nothing_since_high_water(log: PdaEventLog, high: u64)
    requires
        log.in_order(),
        high == log.next() - 1,
    ensures
        entries_after(log.kept(), high) == Seq::<PdaLogEntry>::empty(),
{
    lemma_nothing_after(log.kept(), high);
}

/// A reader that has seen nothing gets everything.
pub proof fn law_everything_since_zero(log: PdaEventLog)
    requires
        log.in_order(),
    ensures
        entries_after(log.kept(), 0) == log.kept(),
{
    lemma_everything_after(log.kept(), 0);
}

/// Everything comes after a number that all entries exceed.
proof fn lemma_everything_after(s: Seq<PdaLogEntry>, seq: u64)
    requires
        forall|i: int| 0 <= i < s.len() ==> (#[trigger] s[i]).seq > seq,
    ensures
        entries_after(s, seq) == s,
    decreases s.len(),
{
    if s.len() > 0 {
        assert(s[s.len() - 1].seq > seq);
        lemma_everything_after(s.drop_last(), seq);
        assert(s.drop_last().push(s.last()) =~= s);
    }
}

/// What is pushed comes last, with the next number; all else stays, but for the
/// oldest once there are 256.
pub proof fn law_feed_keeps_the_latest(feed: Feed, news: News, tick: u64)
    requires
        feed.entries.len() <= 256,
    ensures
        ({
            let after = feed.pushed(news, tick);
            &&& 0 < after.entries.len() <= 256
            &&& after.entries.last() == (NewsEntry { seq: feed.next, tick, news })
            &&& feed.entries.len() < 256 ==> after.entries.drop_last() == feed.entries
            &&& feed.entries.len() == 256 ==> after.entries.drop_last() == feed.entries.skip(1)
            &&& feed.next < u64::MAX ==> after.next == feed.next + 1
        }),
{
    let all = feed.entries.push(NewsEntry { seq: feed.next, tick, news });
    assert(all.drop_last() =~= feed.entries);
    if feed.entries.len() > 0 {
        assert(all.drop_first().drop_last() =~= feed.entries.skip(1));
    }
}

/// News goes from the front once it is older than 1200 ticks, and not before.
pub proof fn law_news_lasts_1200_ticks(feed: Feed, now: u64)
    requires
        feed.entries.len() > 0,
    ensures
        now > feed.entries[0].tick + 1200 ==> feed.evicted(now).entries == (Feed {
            entries: feed.entries.skip(1),
            next: feed.next,
        }).evicted(now).entries,
        now <= feed.entries[0].tick + 1200 ==> feed.evicted(now).entries == feed.entries,
        feed.evicted(now).next == feed.next,
{
    let s = feed.entries;
    assert(s.skip(1) =~= s.drop_first());
    lemma_old_front_bound(s.drop_first(), now);
    if now > s[0].tick + 1200 {
        assert(s.skip(old_front(s, now)) =~= s.skip(1).skip(old_front(s.skip(1), now)));
    } else {
        assert(s.skip(0) =~= s);
    }
}

/// A reader gets each entry past the number that it knows, in order, and none
/// that it knows.
pub proof fn law_readers_get_what_is_new(s: Seq<PdaLogEntry>, e: PdaLogEntry, seq: u64)
    ensures
        e.seq > seq ==> entries_after(s.push(e), seq) == entries_after(s, seq).push(e),
        e.seq <= seq ==> entries_after(s.push(e), seq) == entries_after(s, seq),
        entries_after(Seq::empty(), seq).len() == 0,
{
    assert(s.push(e).drop_last() =~= s);
}

/// The last report of shots is the one nearest the end that is from the region.
pub proof fn law_last_report_counts(feed: Feed, region: RegionId, n: int, i: int)
    requires
        0 <= i < n <= feed.entries.len(),
        feed.entries[i].news == (News::OfflineGunfire { region }),
        forall|j: int|
            i < j < n ==> (#[trigger] feed.entries[j]).news != (News::OfflineGunfire { region }),
    ensures
        feed.last_gunfire(region, n) == Some(feed.entries[i].tick),
    decreases n,
{
    if i < n - 1 {
        assert(feed.entries[n - 1].news != (News::OfflineGunfire { region }));
        law_last_report_counts(feed, region, n - 1, i);
    }
}

} // verus!
