//! Choosing among weighted entries.
use vstd::prelude::*;

use crate::rng::{draw_below, draw_below_u64, moved_on, Generator, Trail};

verus! {

/// Sum of weights.
pub open spec fn weight_sum(ws: Seq<u32>) -> int
    decreases ws.len(),
{
    if ws.len() == 0 {
        0
    } else {
        weight_sum(ws.drop_last()) + ws.last()
    }
}

/// The roll falls on the `i`-th entry: the weights before it do not exceed the
/// roll, and with its own weight they do.
pub open spec fn falls_on(ws: Seq<u32>, roll: int, i: int) -> bool {
    0 <= i < ws.len() && weight_sum(ws.take(i)) <= roll < weight_sum(ws.take(i + 1))
}

/// Sums of more weights are no smaller.
proof fn lemma_weight_sum_monotone(ws: Seq<u32>, k: int)
    requires
        0 <= k <= ws.len(),
    ensures
        0 <= weight_sum(ws.take(k)) <= weight_sum(ws),
        k < ws.len() ==> weight_sum(ws.take(k + 1)) == weight_sum(ws.take(k)) + ws[k],
    decreases ws.len(),
{
    if k < ws.len() {
        assert(ws.take(k + 1).drop_last() =~= ws.take(k));
    }
    if k == ws.len() {
        assert(ws.take(k) =~= ws);
        if k > 0 {
            lemma_weight_sum_monotone(ws.drop_last(), k - 1);
            assert(ws.drop_last().take(k - 1) =~= ws.drop_last());
        }
    } else {
        lemma_weight_sum_monotone(ws.drop_last(), k);
        assert(ws.drop_last().take(k) =~= ws.take(k));
    }
}

/// A roll falls on one entry at most, and never on one without weight.
pub proof fn law_roll_falls_on_one_entry(ws: Seq<u32>, roll: int, i: int, j: int)
    requires
        falls_on(ws, roll, i),
        falls_on(ws, roll, j),
    ensures
        i == j,
        ws[i] > 0,
{
    lemma_weight_sum_monotone(ws, i);
    lemma_weight_sum_monotone(ws, j);
    if i < j {
        lemma_weight_sum_monotone(ws.take(j), i + 1);
        assert(ws.take(j).take(i + 1) =~= ws.take(i + 1));
    } else if j < i {
        lemma_weight_sum_monotone(ws.take(i), j + 1);
        assert(ws.take(i).take(j + 1) =~= ws.take(j + 1));
    }
}

/// Sum of weights, where it fits 32 bits.
pub fn sum_weights(ws: &Vec<u32>) -> (r: u32)
    requires
        weight_sum(ws@) <= u32::MAX,
    ensures
        r == weight_sum(ws@),
{
    let mut sum: u32 = 0;
    let mut i: usize = 0;
    assert(ws@.take(0) =~= Seq::<u32>::empty());
    while i < ws.len()
        invariant
            i <= ws@.len(),
            weight_sum(ws@) <= u32::MAX,
            sum == weight_sum(ws@.take(i as int)),
        decreases ws@.len() - i,
    {
        proof {
            lemma_weight_sum_monotone(ws@, i as int);
            lemma_weight_sum_monotone(ws@, i + 1);
        }
        sum += ws[i];
        i += 1;
    }
    assert(ws@.take(i as int) =~= ws@);
    sum
}

/// The entry that the roll falls on.
pub fn entry_for_roll(ws: &Vec<u32>, roll: u64) -> (r: usize)
    requires
        roll < weight_sum(ws@),
    ensures
        falls_on(ws@, roll as int, r as int),
{
    let mut left: u64 = roll;
    let mut i: usize = 0;
    assert(ws@.take(0) =~= Seq::<u32>::empty());
    while i < ws.len()
        invariant
            i <= ws@.len(),
            roll < weight_sum(ws@),
            left == roll - weight_sum(ws@.take(i as int)),
        decreases ws@.len() - i,
    {
        proof {
            lemma_weight_sum_monotone(ws@, i as int);
        }
        if left < ws[i] as u64 {
            return i;
        }
        left -= ws[i] as u64;
        i += 1;
    }
    assert(ws@.take(i as int) =~= ws@);
    0
}

/// Sums of `n` weights are under `n` times the largest.
proof fn lemma_weight_sum_bound(ws: Seq<u32>)
    ensures
        0 <= weight_sum(ws) <= ws.len() * u32::MAX,
    decreases ws.len(),
{
    if ws.len() > 0 {
        lemma_weight_sum_bound(ws.drop_last());
        assert(ws.len() * u32::MAX == ws.drop_last().len() * u32::MAX + u32::MAX)
            by (nonlinear_arith)
            requires
                ws.len() == ws.drop_last().len() + 1,
        ;
    }
}

/// Sum of weights.
pub fn total_weight(ws: &Vec<u32>) -> (r: u64)
    requires
        ws@.len() <= u32::MAX,
    ensures
        r == weight_sum(ws@),
{
    let mut sum: u64 = 0;
    let mut i: usize = 0;
    assert(ws@.take(0) =~= Seq::<u32>::empty());
    while i < ws.len()
        invariant
            i <= ws@.len() <= u32::MAX,
            sum == weight_sum(ws@.take(i as int)),
        decreases ws@.len() - i,
    {
        proof {
            lemma_weight_sum_monotone(ws@, i as int);
            lemma_weight_sum_bound(ws@.take(i + 1));
            assert((i + 1) * u32::MAX <= u32::MAX * u32::MAX) by (nonlinear_arith)
                requires
                    i + 1 <= u32::MAX,
            ;
        }
        sum += ws[i] as u64;
        i += 1;
    }
    assert(ws@.take(i as int) =~= ws@);
    sum
}

/// What two draws choose: nothing of nothing; where nothing has weight the
/// entry drawn evenly; else the one that the roll falls on, and for a roll
/// beyond all weights the last.
pub open spec fn chosen(ws: Seq<u32>, even: int, roll: int, r: Option<usize>) -> bool {
    if ws.len() == 0 {
        r is None
    } else if weight_sum(ws) == 0 {
        r matches Some(i) && i == even
    } else if roll >= weight_sum(ws) {
        r matches Some(i) && i == ws.len() - 1
    } else {
        r matches Some(i) && falls_on(ws, roll, i as int)
    }
}

/// Chooses an entry from an even draw and a roll.
pub fn choose_weighted(ws: &Vec<u32>, even: usize, roll: u64) -> (r: Option<usize>)
    requires
        ws@.len() <= u32::MAX,
    ensures
        chosen(ws@, even as int, roll as int, r),
{
    if ws.len() == 0 {
        return None;
    }
    let total = total_weight(ws);
    if total == 0 {
        return Some(even);
    }
    if roll >= total {
        return Some(ws.len() - 1);
    }
    Some(entry_for_roll(ws, roll))
}

/// Where all weights together are nothing, each is.
pub proof fn lemma_no_weight(ws: Seq<u32>, i: int)
    requires
        0 <= i < ws.len(),
        weight_sum(ws) <= 0,
    ensures
        ws[i] == 0,
{
    lemma_weight_sum_monotone(ws, i);
    lemma_weight_sum_monotone(ws, i + 1);
}

/// The entry may come up: one with weight, or any where nothing has weight.
pub open spec fn can_come_up(ws: Seq<u32>, i: int) -> bool {
    0 <= i < ws.len() && (weight_sum(ws) > 0 ==> ws[i] > 0)
}

/// What is picked by a generator, and what is known of it then: nothing of
/// nothing; else what one draw chooses, evenly where nothing has weight.
pub open spec fn picked(
    ws: Seq<u32>,
    before: Option<Trail>,
    r: Option<usize>,
    after: Option<Trail>,
) -> bool {
    if ws.len() == 0 {
        r is None && after == before
    } else if weight_sum(ws) == 0 {
        let most = ws.len() - 1;
        &&& moved_on(before, usize::BITS as nat, 0, most, after)
        &&& before matches Some(t) ==> chosen(ws, t.next(usize::BITS as nat, 0, most), 0, r)
    } else {
        let most = weight_sum(ws) - 1;
        &&& moved_on(before, 64, 0, most, after)
        &&& before matches Some(t) ==> chosen(ws, 0, t.next(64, 0, most), r)
    }
}

/// Generators in one state pick the same, and are in one state then.
pub proof fn law_picks_repeat(
    ws: Seq<u32>,
    t: Trail,
    r: Option<usize>,
    s: Option<usize>,
    after: Option<Trail>,
    then: Option<Trail>,
)
    requires
        picked(ws, Some(t), r, after),
        picked(ws, Some(t), s, then),
    ensures
        r == s,
        after == then,
{
    if ws.len() > 0 && weight_sum(ws) != 0 {
        let roll = t.next(64, 0, weight_sum(ws) - 1);
        if roll < weight_sum(ws) {
            law_roll_falls_on_one_entry(ws, roll, r->0 as int, s->0 as int);
        }
    }
}

/// Chooses an entry by weight; evenly where nothing has weight.
pub fn pick_weighted(rng: &mut Generator, ws: &Vec<u32>) -> (r: Option<usize>)
    requires
        ws@.len() <= u32::MAX,
    ensures
        match r {
            Some(i) => can_come_up(ws@, i as int),
            None => ws@.len() == 0,
        },
        picked(ws@, old(rng)@, r, final(rng)@),
{
    if ws.len() == 0 {
        return None;
    }
    let total = total_weight(ws);
    let (even, roll): (usize, u64) = if total == 0 {
        (draw_below(rng, ws.len()), 0)
    } else {
        (0, draw_below_u64(rng, total))
    };
    let r = choose_weighted(ws, even, roll);
    proof {
        lemma_weight_sum_bound(ws@);
        if total > 0 {
            law_roll_falls_on_one_entry(ws@, roll as int, r->0 as int, r->0 as int);
        }
    }
    r
}

/// Weights add up.
pub proof fn law_weights_add_up(a: Seq<u32>, b: Seq<u32>, w: u32)
    ensures
        weight_sum(a + b) == weight_sum(a) + weight_sum(b),
        weight_sum(seq![w]) == w,
    decreases b.len(),
{
    assert(seq![w].drop_last() =~= Seq::<u32>::empty());
    assert(weight_sum(Seq::<u32>::empty()) == 0);
    if b.len() == 0 {
        assert(a + b =~= a);
    } else {
        law_weights_add_up(a, b.drop_last(), w);
        assert((a + b).drop_last() =~= a + b.drop_last());
    }
}

/// As many rolls fall on an entry as its weight, and those of earlier entries
/// are lower.
pub proof fn law_rolls_are_shared_by_weight(ws: Seq<u32>, i: int, d: int)
    requires
        0 <= i < ws.len(),
    ensures
        falls_on(ws, weight_sum(ws.take(i)) + d, i) <==> 0 <= d < ws[i],
{
    assert(ws.take(i + 1).drop_last() =~= ws.take(i));
}

/// A roll under the sum of all weights falls on some entry with weight.
pub proof fn law_every_roll_falls(ws: Seq<u32>, roll: int) -> (i: int)
    requires
        0 <= roll < weight_sum(ws),
    ensures
        falls_on(ws, roll, i),
        ws[i] > 0,
    decreases ws.len(),
{
    let init = ws.drop_last();
    let n = ws.len() - 1;
    if roll < weight_sum(init) {
        let i = law_every_roll_falls(init, roll);
        assert(init.take(i) =~= ws.take(i));
        assert(init.take(i + 1) =~= ws.take(i + 1));
        i
    } else {
        assert(ws.take(n) =~= init);
        assert(ws.take(n + 1) =~= ws);
        n
    }
}

/// Of nothing nothing is chosen. Where nothing has weight the even draw
/// decides; else the roll does, and beyond all weights it is the last.
pub proof fn law_choices_go_by_weight(ws: Seq<u32>, even: int, roll: int, r: Option<usize>)
    requires
        chosen(ws, even, roll, r),
        ws.len() > 0 && weight_sum(ws) == 0 ==> 0 <= even < ws.len(),
        roll >= 0,
        weight_sum(ws) >= 0,
    ensures
        ws.len() == 0 <==> r is None,
        r matches Some(i) ==> {
            &&& i < ws.len()
            &&& weight_sum(ws) == 0 ==> i == even
            &&& weight_sum(ws) > 0 && roll < weight_sum(ws) ==> ws[i as int] > 0 && weight_sum(
                ws.take(i as int),
            ) <= roll < weight_sum(ws.take(i as int)) + ws[i as int]
            &&& weight_sum(ws) > 0 && roll >= weight_sum(ws) ==> i == ws.len() - 1
        },
{
    if let Some(i) = r {
        if weight_sum(ws) > 0 && roll < weight_sum(ws) {
            assert(ws.take(i + 1).drop_last() =~= ws.take(i as int));
        }
    }
}

} // verus!
