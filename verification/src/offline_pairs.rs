//! Which NPCs that nobody watches meet each other.
use std::collections::HashSet;
use vstd::arithmetic::div_mod::{
    lemma_add_mod_noop_right, lemma_mod_bound, lemma_mod_sub_multiples_vanish, lemma_small_mod,
};
use vstd::prelude::*;

use crate::components::NpcId;
use crate::faction::registry::{faction_relation, FactionId, FactionRegistry, RelationDeltas};
use crate::faction::{band, Relation};
use crate::float_bits::F32Bits;
use crate::idmap::{rising, IdMap};
use crate::offline_movement::{in_work_order, work_order};
use crate::offline_tier::{HealthClass, OfflineNpc};
use crate::region::RegionId;

verus! {

/// What counts of an NPC in a fight.
#[derive(Clone, Copy, Debug)]
pub struct Fighter {
    pub id: NpcId,
    pub faction: FactionId,
    pub position_2d: [F32Bits; 2],
    pub health_class: HealthClass,
    pub die_at_tick: u64,
    pub accuracy: u8,
    /// The square of the ground that it stands in; squares are as wide as
    /// shots carry.
    pub cell_x: i32,
    pub cell_z: i32,
}

/// What counts of an NPC in a fight, with the square that it stands in.
pub open spec fn fighter_of(npc: OfflineNpc, cell: (i32, i32)) -> Fighter {
    Fighter {
        id: npc.id,
        faction: npc.faction,
        position_2d: npc.position_2d,
        health_class: npc.health_class,
        die_at_tick: npc.die_at_tick,
        accuracy: npc.stats.accuracy,
        cell_x: cell.0,
        cell_z: cell.1,
    }
}

/// Those of a region's NPCs that a fight is about, by number. `cells` holds
/// the square that each NPC stands in.
pub fn fighters(npcs: &Vec<OfflineNpc>, region: RegionId, cells: &Vec<(i32, i32)>) -> (r: Vec<
    Fighter,
>)
    requires
        cells@.len() == npcs@.len(),
    ensures
        exists|order: Seq<usize>| #[trigger]
            in_work_order(npcs@, region, order, npcs@.len() as int) && r@ == Seq::new(
                order.len(),
                |k: int| fighter_of(npcs@[order[k] as int], cells@[order[k] as int]),
            ),
{
    let order = work_order(npcs, region);
    let mut r: Vec<Fighter> = Vec::new();
    let mut k: usize = 0;
    while k < order.len()
        invariant
            cells@.len() == npcs@.len(),
            in_work_order(npcs@, region, order@, npcs@.len() as int),
            k <= order@.len(),
            r@.len() == k,
            forall|j: int|
                0 <= j < k ==> #[trigger] r@[j] == fighter_of(
                    npcs@[order@[j] as int],
                    cells@[order@[j] as int],
                ),
        decreases order@.len() - k,
    {
        let npc = &npcs[order[k]];
        let cell = cells[order[k]];
        r.push(
            Fighter {
                id: npc.id,
                faction: npc.faction,
                position_2d: npc.position_2d,
                health_class: npc.health_class,
                die_at_tick: npc.die_at_tick,
                accuracy: npc.stats.accuracy,
                cell_x: cell.0,
                cell_z: cell.1,
            },
        );
        k += 1;
    }
    assert(r@ =~= Seq::new(
        order@.len(),
        |k: int| fighter_of(npcs@[order@[k] as int], cells@[order@[k] as int]),
    ));
    r
}

/// One number for a square, in the order of squares.
pub open spec fn cell_key(x: int, z: int) -> int {
    (x + 0x8000_0000) * 0x1_0000_0000 + (z + 0x8000_0000)
}

/// The first coordinate of the square with the given number.
pub open spec fn key_x(key: u64) -> int {
    key as int / 0x1_0000_0000 - 0x8000_0000
}

/// The second coordinate of the square with the given number.
pub open spec fn key_z(key: u64) -> int {
    key as int % 0x1_0000_0000 - 0x8000_0000
}

/// The places of the fighters in a square.
pub open spec fn members(fs: Seq<Fighter>, x: int, z: int) -> Seq<usize>
    decreases fs.len(),
{
    if fs.len() == 0 {
        Seq::empty()
    } else if fs.last().cell_x == x && fs.last().cell_z == z {
        members(fs.drop_last(), x, z).push((fs.len() - 1) as usize)
    } else {
        members(fs.drop_last(), x, z)
    }
}

/// One with each of the others.
pub open spec fn row(a: usize, others: Seq<usize>) -> Seq<(usize, usize)> {
    Seq::new(others.len(), |i: int| (a, others[i]))
}

/// Each of the ones with each of the others.
pub open spec fn product(own: Seq<usize>, others: Seq<usize>) -> Seq<(usize, usize)>
    decreases own.len(),
{
    if own.len() == 0 {
        Seq::empty()
    } else {
        product(own.drop_last(), others) + row(own.last(), others)
    }
}

/// The members of a square with those of the first `n` of the nine squares
/// around it, row by row.
pub open spec fn around(fs: Seq<Fighter>, x: int, z: int, n: int) -> Seq<(usize, usize)>
    decreases n,
{
    if n <= 0 {
        Seq::empty()
    } else {
        around(fs, x, z, n - 1) + product(
            members(fs, x, z),
            members(fs, x + (n - 1) % 3 - 1, z + (n - 1) / 3 - 1),
        )
    }
}

/// All pairs in neighbouring squares, square by square.
pub open spec fn walk(fs: Seq<Fighter>, keys: Seq<u64>, k: int) -> Seq<(usize, usize)>
    decreases k,
{
    if k <= 0 {
        Seq::empty()
    } else {
        walk(fs, keys, k - 1) + around(fs, key_x(keys[k - 1]), key_z(keys[k - 1]), 9)
    }
}

/// The numbers of the squares that anybody stands in, in order.
pub open spec fn squares(fs: Seq<Fighter>, keys: Seq<u64>) -> bool {
    &&& rising(keys)
    &&& forall|k: u64| #[trigger]
        keys.contains(k) <==> exists|i: int|
            #![trigger fs[i]]
            0 <= i < fs.len() && cell_key(fs[i].cell_x as int, fs[i].cell_z as int) == k
}

/// The pair was come by before: the same two, in either order.
pub open spec fn met_before(
    fs: Seq<Fighter>,
    visits: Seq<(usize, usize)>,
    n: int,
    a: usize,
    b: usize,
) -> bool {
    exists|j: int|
        #![trigger visits[j]]
        0 <= j < n && visits[j].0 != visits[j].1 && same_two(
            fs[visits[j].0 as int].id,
            fs[visits[j].1 as int].id,
            fs[a as int].id,
            fs[b as int].id,
        )
}

/// The same two NPCs, in either order.
pub open spec fn same_two(a: NpcId, b: NpcId, c: NpcId, d: NpcId) -> bool {
    (a == c && b == d) || (a == d && b == c)
}

/// The first is hostile to the second.
pub open spec fn hostile(
    reg: FactionRegistry,
    deltas: RelationDeltas,
    a: FactionId,
    b: FactionId,
) -> bool {
    band(reg.score(deltas, a, b)) is Hostile
}

/// The pair with the lower number first.
pub open spec fn lower_first(fs: Seq<Fighter>, p: (usize, usize)) -> (usize, usize) {
    if fs[p.0 as int].id.0 <= fs[p.1 as int].id.0 {
        p
    } else {
        (p.1, p.0)
    }
}

/// Of the first `n` pairs those that may fight, each with the lower number
/// first: two of different factions the first of which is hostile to the
/// second, when they are first come by.
pub open spec fn foes(
    fs: Seq<Fighter>,
    reg: FactionRegistry,
    deltas: RelationDeltas,
    visits: Seq<(usize, usize)>,
    n: int,
) -> Seq<(usize, usize)>
    decreases n,
{
    if n <= 0 {
        Seq::empty()
    } else {
        let (a, b) = lower_first(fs, visits[n - 1]);
        let rest = foes(fs, reg, deltas, visits, n - 1);
        if a != b && !met_before(fs, visits, n - 1, a, b) && fs[a as int].faction
            != fs[b as int].faction && hostile(
            reg,
            deltas,
            fs[a as int].faction,
            fs[b as int].faction,
        ) {
            rest.push((a, b))
        } else {
            rest
        }
    }
}

/// The pair `p` comes before the pair `q`: by the lower number, and then by
/// the higher one.
pub open spec fn pair_before(fs: Seq<Fighter>, p: (usize, usize), q: (usize, usize)) -> bool {
    fs[p.0 as int].id.0 < fs[q.0 as int].id.0 || (fs[p.0 as int].id.0 == fs[q.0 as int].id.0
        && fs[p.1 as int].id.0 < fs[q.1 as int].id.0)
}

/// Pairs with the lower number first, in order, none of them twice.
pub open spec fn in_number_order(fs: Seq<Fighter>, pairs: Seq<(usize, usize)>) -> bool {
    &&& forall|i: int|
        #![trigger pairs[i]]
        0 <= i < pairs.len() ==> fs[pairs[i].0 as int].id.0 <= fs[pairs[i].1 as int].id.0
    &&& forall|i: int, j: int|
        0 <= i < j < pairs.len() ==> pair_before(fs, #[trigger] pairs[i], #[trigger] pairs[j])
}

/// One number for a square.
fn key_for(x: i32, z: i32) -> (r: u64)
    ensures
        r == cell_key(x as int, z as int),
        key_x(r) == x,
        key_z(r) == z,
{
    let a: u64 = (x as i64 + 0x8000_0000) as u64;
    let b: u64 = (z as i64 + 0x8000_0000) as u64;
    let r: u64 = a * 0x1_0000_0000 + b;
    proof {
        lemma_key_parts(a as int, b as int);
    }
    r
}

/// A number of two halves gives the halves back.
proof fn lemma_key_parts(a: int, b: int)
    requires
        0 <= a < 0x1_0000_0000,
        0 <= b < 0x1_0000_0000,
    ensures
        (a * 0x1_0000_0000 + b) / 0x1_0000_0000 == a,
        (a * 0x1_0000_0000 + b) % 0x1_0000_0000 == b,
{
}

/// The grid holds the places of the first `n` fighters by square.
spec fn gridded(fs: Seq<Fighter>, grid: Map<u64, Vec<usize>>, n: int) -> bool {
    &&& forall|x: i32, z: i32|
        #![trigger members(fs.take(n), x as int, z as int)]
        grid.contains_key(cell_key(x as int, z as int) as u64) ==> grid[cell_key(
            x as int,
            z as int,
        ) as u64]@ == members(fs.take(n), x as int, z as int)
    &&& forall|x: i32, z: i32|
        #![trigger members(fs.take(n), x as int, z as int)]
        !grid.contains_key(cell_key(x as int, z as int) as u64) ==> members(
            fs.take(n),
            x as int,
            z as int,
        ).len() == 0
    &&& forall|k: u64| #[trigger]
        grid.contains_key(k) <==> exists|i: int|
            #![trigger fs[i]]
            0 <= i < n && cell_key(fs[i].cell_x as int, fs[i].cell_z as int) == k
}

/// Two squares with one number are one.
proof fn lemma_cell_key_injective(x: i32, z: i32, v: i32, w: i32)
    requires
        cell_key(x as int, z as int) == cell_key(v as int, w as int),
    ensures
        x == v,
        z == w,
{
}

/// Puts the fighters into squares.
fn build_grid(fs: &Vec<Fighter>) -> (grid: IdMap<Vec<usize>>)
    ensures
        gridded(fs@, grid@, fs@.len() as int),
{
    let mut grid: IdMap<Vec<usize>> = IdMap::new();
    let mut i: usize = 0;
    assert(fs@.take(0) =~= Seq::<Fighter>::empty());
    while i < fs.len()
        invariant
            i <= fs@.len(),
            gridded(fs@, grid@, i as int),
        decreases fs@.len() - i,
    {
        let f = fs[i];
        let key = key_for(f.cell_x, f.cell_z);
        let ghost before = grid@;
        proof {
            assert(fs@.take(i + 1).drop_last() =~= fs@.take(i as int));
            // names the square's members before and after
            let was = members(fs@.take(i as int), f.cell_x as int, f.cell_z as int);
            assert(members(fs@.take(i + 1), f.cell_x as int, f.cell_z as int) == was.push(i));
        }
        let mut here: Vec<usize> = match grid.remove(key) {
            Some(v) => v,
            None => Vec::new(),
        };
        assert(here@ == members(fs@.take(i as int), f.cell_x as int, f.cell_z as int));
        here.push(i);
        let _ = grid.insert(key, here);
        proof {
            assert(grid@ =~= before.insert(key, here));
            assert forall|x: i32, z: i32|
                #![trigger members(fs@.take(i + 1), x as int, z as int)]
                grid@.contains_key(cell_key(x as int, z as int) as u64) implies grid@[cell_key(
                x as int,
                z as int,
            ) as u64]@ == members(fs@.take(i + 1), x as int, z as int) by {
                let old_members = members(fs@.take(i as int), x as int, z as int);
                if cell_key(x as int, z as int) == key {
                    lemma_cell_key_injective(x, z, f.cell_x, f.cell_z);
                }
            }
            assert forall|x: i32, z: i32|
                #![trigger members(fs@.take(i + 1), x as int, z as int)]
                !grid@.contains_key(cell_key(x as int, z as int) as u64) implies members(
                fs@.take(i + 1),
                x as int,
                z as int,
            ).len() == 0 by {
                let old_members = members(fs@.take(i as int), x as int, z as int);
            }
            assert forall|k: u64| #[trigger] grid@.contains_key(k) <==> exists|j: int|
                #![trigger fs@[j]]
                0 <= j < i + 1 && cell_key(fs@[j].cell_x as int, fs@[j].cell_z as int) == k by {
                if k == key {
                    assert(cell_key(fs@[i as int].cell_x as int, fs@[i as int].cell_z as int) == k);
                }
                if before.contains_key(k) {
                    let j = choose|j: int|
                        #![trigger fs@[j]]
                        0 <= j < i && cell_key(fs@[j].cell_x as int, fs@[j].cell_z as int) == k;
                    assert(cell_key(fs@[j].cell_x as int, fs@[j].cell_z as int) == k);
                }
            }
        }
        i += 1;
    }
    assert(fs@.take(i as int) =~= fs@);
    grid
}

/// Adds each of the ones with each of the others.
fn push_product(out: &mut Vec<(usize, usize)>, own: &Vec<usize>, others: &Vec<usize>)
    ensures
        final(out)@ == old(out)@ + product(own@, others@),
{
    let ghost start = out@;
    let mut i: usize = 0;
    assert(own@.take(0) =~= Seq::<usize>::empty());
    assert(start + Seq::<(usize, usize)>::empty() =~= start);
    while i < own.len()
        invariant
            i <= own@.len(),
            out@ == start + product(own@.take(i as int), others@),
        decreases own@.len() - i,
    {
        let a = own[i];
        let ghost base = out@;
        let mut j: usize = 0;
        while j < others.len()
            invariant
                j <= others@.len(),
                out@ == base + row(a, others@).take(j as int),
            decreases others@.len() - j,
        {
            out.push((a, others[j]));
            j += 1;
            assert(row(a, others@).take(j as int) =~= row(a, others@).take(j - 1).push(
                (a, others@[j - 1]),
            ));
        }
        proof {
            assert(row(a, others@).take(j as int) =~= row(a, others@));
            assert(own@.take(i + 1).drop_last() =~= own@.take(i as int));
            assert(out@ =~= start + product(own@.take(i + 1), others@));
        }
        i += 1;
    }
    assert(own@.take(i as int) =~= own@);
}

/// No fighter stands in a square beyond the ground's edge.
proof fn lemma_no_members_outside(fs: Seq<Fighter>, x: int, z: int)
    requires
        x < i32::MIN || x > i32::MAX || z < i32::MIN || z > i32::MAX,
    ensures
        members(fs, x, z).len() == 0,
    decreases fs.len(),
{
    if fs.len() > 0 {
        lemma_no_members_outside(fs.drop_last(), x, z);
    }
}

/// All pairs in neighbouring squares, square by square.
fn visit_pairs(fs: &Vec<Fighter>) -> (r: Vec<(usize, usize)>)
    ensures
        exists|keys: Seq<u64>| #[trigger]
            squares(fs@, keys) && r@ == walk(fs@, keys, keys.len() as int),
{
    let grid = build_grid(fs);
    assert(fs@.take(fs@.len() as int) =~= fs@);
    let n = grid.len();
    let ghost keys = grid.key_list();
    let mut out: Vec<(usize, usize)> = Vec::new();
    let mut k: usize = 0;
    proof {
        assert forall|q: u64| #[trigger] keys.contains(q) <==> exists|i: int|
            #![trigger fs@[i]]
            0 <= i < fs@.len() && cell_key(fs@[i].cell_x as int, fs@[i].cell_z as int) == q by {
            assert(grid@.contains_key(q) <==> keys.contains(q));
        }
    }
    while k < n
        invariant
            k <= n,
            n == keys.len(),
            keys == grid.key_list(),
            squares(fs@, keys),
            fs@.take(fs@.len() as int) == fs@,
            gridded(fs@, grid@, fs@.len() as int),
            out@ == walk(fs@, keys, k as int),
        decreases n - k,
    {
        let key = grid.key_at(k);
        let x: i64 = (key / 0x1_0000_0000) as i64 - 0x8000_0000;
        let z: i64 = (key % 0x1_0000_0000) as i64 - 0x8000_0000;
        let own = grid.value_at(k);
        let ghost base = out@;
        let mut m: i64 = 0;
        proof {
            assert(x == key_x(key) && z == key_z(key));
            assert(cell_key(x as int, z as int) == key);
            assert(own@ == members(fs@.take(fs@.len() as int), (x as i32) as int, (z as i32) as int));
            assert(base + around(fs@, x as int, z as int, 0) =~= base);
        }
        while m < 9
            invariant
                0 <= m <= 9,
                i32::MIN <= x <= i32::MAX,
                i32::MIN <= z <= i32::MAX,
                fs@.take(fs@.len() as int) == fs@,
                gridded(fs@, grid@, fs@.len() as int),
                own@ == members(fs@, x as int, z as int),
                out@ == base + around(fs@, x as int, z as int, m as int),
            decreases 9 - m,
        {
            let nx: i64 = x + m % 3 - 1;
            let nz: i64 = z + m / 3 - 1;
            let ghost others = members(fs@, nx as int, nz as int);
            let ghost so_far = out@;
            if nx >= i32::MIN as i64 && nx <= i32::MAX as i64 && nz >= i32::MIN as i64 && nz
                <= i32::MAX as i64 {
                let there = key_for(nx as i32, nz as i32);
                proof {
                    let named = members(
                        fs@.take(fs@.len() as int),
                        (nx as i32) as int,
                        (nz as i32) as int,
                    );
                }
                match grid.get(there) {
                    Some(v) => {
                        push_product(&mut out, own, v);
                    },
                    None => {
                        proof {
                            lemma_product_empty(own@, others);
                        }
                    },
                }
            } else {
                proof {
                    lemma_no_members_outside(fs@, nx as int, nz as int);
                    lemma_product_empty(own@, others);
                }
            }
            proof {
                assert(out@ =~= so_far + product(own@, others));
                assert(out@ =~= base + around(fs@, x as int, z as int, m + 1));
            }
            m += 1;
        }
        assert(out@ == walk(fs@, keys, k + 1));
        k += 1;
    }
    out
}

/// With nobody there is no pair.
proof fn lemma_product_empty(own: Seq<usize>, others: Seq<usize>)
    requires
        others.len() == 0,
    ensures
        product(own, others) == Seq::<(usize, usize)>::empty(),
    decreases own.len(),
{
    if own.len() > 0 {
        lemma_product_empty(own.drop_last(), others);
        assert(product(own, others) =~= Seq::<(usize, usize)>::empty());
    }
}

/// Every place in a square is that of a fighter.
proof fn lemma_members_in_range(fs: Seq<Fighter>, x: int, z: int, k: int)
    requires
        fs.len() <= usize::MAX,
        0 <= k < members(fs, x, z).len(),
    ensures
        members(fs, x, z)[k] < fs.len(),
        fs[members(fs, x, z)[k] as int].cell_x == x,
        fs[members(fs, x, z)[k] as int].cell_z == z,
    decreases fs.len(),
{
    let rest = fs.drop_last();
    if k < members(rest, x, z).len() {
        lemma_members_in_range(rest, x, z, k);
    }
}

/// Every pair of a product is one of the ones with one of the others.
proof fn lemma_product_parts(own: Seq<usize>, others: Seq<usize>, i: int)
    requires
        0 <= i < product(own, others).len(),
    ensures
        own.contains(product(own, others)[i].0),
        others.contains(product(own, others)[i].1),
    decreases own.len(),
{
    let rest = own.drop_last();
    let n = product(rest, others).len();
    if i < n {
        lemma_product_parts(rest, others, i);
        let a = product(own, others)[i].0;
        let j = choose|j: int| 0 <= j < rest.len() && rest[j] == a;
        assert(own[j] == a);
    } else {
        assert(product(own, others)[i] == row(own.last(), others)[i - n]);
        assert(own[own.len() - 1] == own.last());
    }
}

/// Two places next to each other, or in one square.
pub open spec fn close_by(a: Fighter, b: Fighter) -> bool {
    -1 <= b.cell_x - a.cell_x <= 1 && -1 <= b.cell_z - a.cell_z <= 1
}

/// Every pair around a square is close by.
proof fn lemma_around_close(fs: Seq<Fighter>, x: int, z: int, n: int, i: int)
    requires
        fs.len() <= usize::MAX,
        0 <= n <= 9,
        0 <= i < around(fs, x, z, n).len(),
    ensures
        around(fs, x, z, n)[i].0 < fs.len(),
        around(fs, x, z, n)[i].1 < fs.len(),
        close_by(
            fs[around(fs, x, z, n)[i].0 as int],
            fs[around(fs, x, z, n)[i].1 as int],
        ),
    decreases n,
{
    let m = around(fs, x, z, n - 1).len();
    if i < m {
        lemma_around_close(fs, x, z, n - 1, i);
    } else {
        let own = members(fs, x, z);
        let nx = x + (n - 1) % 3 - 1;
        let nz = z + (n - 1) / 3 - 1;
        let others = members(fs, nx, nz);
        lemma_product_parts(own, others, i - m);
        let p = product(own, others)[i - m];
        let j = choose|j: int| 0 <= j < own.len() && own[j] == p.0;
        let l = choose|l: int| 0 <= l < others.len() && others[l] == p.1;
        lemma_members_in_range(fs, x, z, j);
        lemma_members_in_range(fs, nx, nz, l);
    }
}

/// Every pair that is come by is close by.
proof fn lemma_walk_close(fs: Seq<Fighter>, keys: Seq<u64>, k: int, i: int)
    requires
        fs.len() <= usize::MAX,
        0 <= k <= keys.len(),
        0 <= i < walk(fs, keys, k).len(),
    ensures
        walk(fs, keys, k)[i].0 < fs.len(),
        walk(fs, keys, k)[i].1 < fs.len(),
        close_by(fs[walk(fs, keys, k)[i].0 as int], fs[walk(fs, keys, k)[i].1 as int]),
    decreases k,
{
    let m = walk(fs, keys, k - 1).len();
    if i < m {
        lemma_walk_close(fs, keys, k - 1, i);
    } else {
        lemma_around_close(fs, key_x(keys[k - 1]), key_z(keys[k - 1]), 9, i - m);
    }
}

/// One number for two NPCs, whichever comes first.
spec fn two_key(a: NpcId, b: NpcId) -> u128 {
    if a.0 <= b.0 {
        (a.0 * 0x1_0000_0000_0000_0000 + b.0) as u128
    } else {
        (b.0 * 0x1_0000_0000_0000_0000 + a.0) as u128
    }
}

/// One number for two NPCs.
fn two_key_of(a: NpcId, b: NpcId) -> (r: u128)
    ensures
        r == two_key(a, b),
{
    if a.0 <= b.0 {
        (a.0 as u128) * 0x1_0000_0000_0000_0000 + b.0 as u128
    } else {
        (b.0 as u128) * 0x1_0000_0000_0000_0000 + a.0 as u128
    }
}

/// The number tells the two.
proof fn lemma_two_key(a: NpcId, b: NpcId, c: NpcId, d: NpcId)
    ensures
        two_key(a, b) == two_key(c, d) <==> same_two(a, b, c, d),
{
}

/// The pairs of foes that may fight are those of the fighters that are come by
/// when the squares are walked, in the order of their numbers.
pub open spec fn foe_pairs(
    fs: Seq<Fighter>,
    reg: FactionRegistry,
    deltas: RelationDeltas,
    keys: Seq<u64>,
    pairs: Seq<(usize, usize)>,
) -> bool {
    let visits = walk(fs, keys, keys.len() as int);
    let found = foes(fs, reg, deltas, visits, visits.len() as int);
    &&& squares(fs, keys)
    &&& in_number_order(fs, pairs)
    &&& forall|p: (usize, usize)| #[trigger] pairs.contains(p) <==> found.contains(p)
}

/// Where a pair goes among sorted ones.
fn slot_of(fs: &Vec<Fighter>, sorted: &Vec<(usize, usize)>, p: (usize, usize)) -> (r: usize)
    requires
        p.0 < fs@.len(),
        p.1 < fs@.len(),
        in_number_order(fs@, sorted@),
        forall|k: int|
            #![trigger sorted@[k]]
            0 <= k < sorted@.len() ==> sorted@[k].0 < fs@.len() && sorted@[k].1 < fs@.len()
                && !(fs@[sorted@[k].0 as int].id == fs@[p.0 as int].id && fs@[sorted@[k].1 as int].id
                == fs@[p.1 as int].id),
    ensures
        r <= sorted@.len(),
        forall|k: int| 0 <= k < r ==> pair_before(fs@, #[trigger] sorted@[k], p),
        forall|k: int| r <= k < sorted@.len() ==> pair_before(fs@, p, #[trigger] sorted@[k]),
{
    let lo: u64 = fs[p.0].id.0;
    let hi: u64 = fs[p.1].id.0;
    let mut at: usize = 0;
    while at < sorted.len()
        invariant_except_break
            at <= sorted@.len(),
            forall|k: int| 0 <= k < at ==> pair_before(fs@, #[trigger] sorted@[k], p),
        invariant
            p.0 < fs@.len(),
            p.1 < fs@.len(),
            lo == fs@[p.0 as int].id.0,
            hi == fs@[p.1 as int].id.0,
            in_number_order(fs@, sorted@),
            forall|k: int|
                #![trigger sorted@[k]]
                0 <= k < sorted@.len() ==> sorted@[k].0 < fs@.len() && sorted@[k].1 < fs@.len()
                    && !(fs@[sorted@[k].0 as int].id == fs@[p.0 as int].id
                    && fs@[sorted@[k].1 as int].id == fs@[p.1 as int].id),
        ensures
            at <= sorted@.len(),
            forall|k: int| 0 <= k < at ==> pair_before(fs@, #[trigger] sorted@[k], p),
            forall|k: int| at <= k < sorted@.len() ==> pair_before(fs@, p, #[trigger] sorted@[k]),
        decreases sorted@.len() - at,
    {
        let q = sorted[at];
        let a: u64 = fs[q.0].id.0;
        let b: u64 = fs[q.1].id.0;
        if a > lo || (a == lo && b > hi) {
            proof {
                assert(pair_before(fs@, p, sorted@[at as int]));
                assert forall|k: int| at <= k < sorted@.len() implies pair_before(
                    fs@,
                    p,
                    #[trigger] sorted@[k],
                ) by {
                    if k > at {
                        assert(pair_before(fs@, sorted@[at as int], sorted@[k]));
                    }
                }
            }
            break;
        }
        assert(pair_before(fs@, sorted@[at as int], p));
        at += 1;
    }
    at
}

/// The two of a pair are not those of another.
spec fn other_two(fs: Seq<Fighter>, p: (usize, usize), q: (usize, usize)) -> bool {
    !same_two(fs[p.0 as int].id, fs[p.1 as int].id, fs[q.0 as int].id, fs[q.1 as int].id)
}

/// The pairs in the order of their numbers.
fn number_order(fs: &Vec<Fighter>, found: &Vec<(usize, usize)>) -> (r: Vec<(usize, usize)>)
    requires
        forall|k: int|
            #![trigger found@[k]]
            0 <= k < found@.len() ==> found@[k].0 < fs@.len() && found@[k].1 < fs@.len()
                && found@[k].0 != found@[k].1 && fs@[found@[k].0 as int].id.0
                <= fs@[found@[k].1 as int].id.0,
        forall|i: int, k: int|
            0 <= i < k < found@.len() ==> other_two(fs@, #[trigger] found@[i], #[trigger] found@[k]),
    ensures
        in_number_order(fs@, r@),
        forall|p: (usize, usize)| #[trigger] r@.contains(p) <==> found@.contains(p),
        forall|k: int|
            #![trigger r@[k]]
            0 <= k < r@.len() ==> r@[k].0 < fs@.len() && r@[k].1 < fs@.len() && r@[k].0 != r@[k].1,
{
    let mut r: Vec<(usize, usize)> = Vec::new();
    let mut i: usize = 0;
    while i < found.len()
        invariant
            i <= found@.len(),
            forall|k: int|
                #![trigger found@[k]]
                0 <= k < found@.len() ==> found@[k].0 < fs@.len() && found@[k].1 < fs@.len()
                    && found@[k].0 != found@[k].1 && fs@[found@[k].0 as int].id.0
                    <= fs@[found@[k].1 as int].id.0,
            forall|k: int, l: int|
                0 <= k < l < found@.len() ==> other_two(
                    fs@,
                    #[trigger] found@[k],
                    #[trigger] found@[l],
                ),
            in_number_order(fs@, r@),
            forall|p: (usize, usize)| #[trigger]
                r@.contains(p) <==> found@.take(i as int).contains(p),
            forall|k: int|
                #![trigger r@[k]]
                0 <= k < r@.len() ==> r@[k].0 < fs@.len() && r@[k].1 < fs@.len() && r@[k].0
                    != r@[k].1,
        decreases found@.len() - i,
    {
        let p = found[i];
        let ghost before = r@;
        let ghost past = found@.take(i as int);
        proof {
            assert forall|k: int|
                #![trigger r@[k]]
                0 <= k < r@.len() implies !(fs@[r@[k].0 as int].id == fs@[p.0 as int].id
                && fs@[r@[k].1 as int].id == fs@[p.1 as int].id) by {
                assert(r@.contains(r@[k]));
                let l = choose|l: int| 0 <= l < past.len() && past[l] == r@[k];
                assert(other_two(fs@, found@[l], found@[i as int]));
            }
        }
        let at = slot_of(fs, &r, p);
        r.insert(at, p);
        proof {
            lemma_inserted(fs@, before, at as int, p);
            let now = found@.take(i + 1);
            assert forall|q: (usize, usize)| #[trigger] r@.contains(q) <==> now.contains(q) by {
                if r@.contains(q) {
                    let k = choose|k: int| 0 <= k < r@.len() && r@[k] == q;
                    if k == at {
                        assert(now[i as int] == q);
                    } else {
                        let was = if k < at {
                            k
                        } else {
                            k - 1
                        };
                        assert(before[was] == q);
                        assert(before.contains(q));
                        let l = choose|l: int| 0 <= l < past.len() && past[l] == q;
                        assert(now[l] == q);
                    }
                }
                if now.contains(q) {
                    let l = choose|l: int| 0 <= l < now.len() && now[l] == q;
                    if l == i {
                        assert(r@[at as int] == q);
                    } else {
                        assert(past[l] == q);
                        assert(before.contains(q));
                        let k = choose|k: int| 0 <= k < before.len() && before[k] == q;
                        assert(r@[if k < at {
                            k
                        } else {
                            k + 1
                        }] == q);
                    }
                }
            }
        }
        i += 1;
    }
    assert(found@.take(i as int) =~= found@);
    r
}

/// A pair put in its place keeps the order.
proof fn lemma_inserted(fs: Seq<Fighter>, sorted: Seq<(usize, usize)>, at: int, p: (usize, usize))
    requires
        in_number_order(fs, sorted),
        0 <= at <= sorted.len(),
        fs[p.0 as int].id.0 <= fs[p.1 as int].id.0,
        forall|k: int| 0 <= k < at ==> pair_before(fs, #[trigger] sorted[k], p),
        forall|k: int| at <= k < sorted.len() ==> pair_before(fs, p, #[trigger] sorted[k]),
    ensures
        in_number_order(fs, sorted.insert(at, p)),
{
    let r = sorted.insert(at, p);
    assert forall|i: int, j: int| 0 <= i < j < r.len() implies pair_before(
        fs,
        #[trigger] r[i],
        #[trigger] r[j],
    ) by {
        let a = if i < at {
            i
        } else {
            i - 1
        };
        let b = if j < at {
            j
        } else {
            j - 1
        };
        if i != at {
            assert(r[i] == sorted[a]);
        }
        if j != at {
            assert(r[j] == sorted[b]);
        }
    }
}

/// The pairs of foes that may fight, in order.
pub fn combat_pairs(
    fs: &Vec<Fighter>,
    reg: &FactionRegistry,
    deltas: &RelationDeltas,
) -> (r: Vec<(usize, usize)>)
    requires
        forall|i: int| 0 <= i < fs@.len() ==> (#[trigger] fs@[i]).faction.0 < reg.list().len(),
    ensures
        exists|keys: Seq<u64>| #[trigger] foe_pairs(fs@, *reg, *deltas, keys, r@),
        forall|i: int|
            #![trigger r@[i]]
            0 <= i < r@.len() ==> r@[i].0 < fs@.len() && r@[i].1 < fs@.len() && r@[i].0 != r@[i].1,
{
    broadcast use vstd::std_specs::hash::group_hash_axioms;

    let n = fs.len();
    let visits = visit_pairs(fs);
    let ghost keys = choose|keys: Seq<u64>| #[trigger]
        squares(fs@, keys) && visits@ == walk(fs@, keys, keys.len() as int);
    let mut seen: HashSet<u128> = HashSet::new();
    let mut out: Vec<(usize, usize)> = Vec::new();
    let mut i: usize = 0;
    while i < visits.len()
        invariant
            i <= visits@.len(),
            n == fs@.len(),
            visits@ == walk(fs@, keys, keys.len() as int),
            forall|k: int| 0 <= k < fs@.len() ==> (#[trigger] fs@[k]).faction.0 < reg.list().len(),
            out@ == foes(fs@, *reg, *deltas, visits@, i as int),
            forall|k: u128| #[trigger]
                seen@.contains(k) <==> exists|j: int|
                    #![trigger visits@[j]]
                    0 <= j < i && visits@[j].0 != visits@[j].1 && two_key(
                        fs@[visits@[j].0 as int].id,
                        fs@[visits@[j].1 as int].id,
                    ) == k,
            forall|k: int|
                #![trigger out@[k]]
                0 <= k < out@.len() ==> out@[k].0 < fs@.len() && out@[k].1 < fs@.len() && out@[k].0
                    != out@[k].1 && fs@[out@[k].0 as int].id.0 <= fs@[out@[k].1 as int].id.0,
        decreases visits@.len() - i,
    {
        let (c, d) = visits[i];
        proof {
            lemma_walk_close(fs@, keys, keys.len() as int, i as int);
        }
        let (a, b) = if fs[c].id.0 <= fs[d].id.0 {
            (c, d)
        } else {
            (d, c)
        };
        if a != b {
            let key = two_key_of(fs[a].id, fs[b].id);
            let ghost was = seen@;
            proof {
                assert(seen@.contains(key) <==> met_before(fs@, visits@, i as int, a, b)) by {
                    if seen@.contains(key) {
                        let j = choose|j: int|
                            #![trigger visits@[j]]
                            0 <= j < i && visits@[j].0 != visits@[j].1 && two_key(
                                fs@[visits@[j].0 as int].id,
                                fs@[visits@[j].1 as int].id,
                            ) == key;
                        lemma_two_key(
                            fs@[visits@[j].0 as int].id,
                            fs@[visits@[j].1 as int].id,
                            fs@[a as int].id,
                            fs@[b as int].id,
                        );
                    }
                    if met_before(fs@, visits@, i as int, a, b) {
                        let j = choose|j: int|
                            #![trigger visits@[j]]
                            0 <= j < i && visits@[j].0 != visits@[j].1 && same_two(
                                fs@[visits@[j].0 as int].id,
                                fs@[visits@[j].1 as int].id,
                                fs@[a as int].id,
                                fs@[b as int].id,
                            );
                        lemma_two_key(
                            fs@[visits@[j].0 as int].id,
                            fs@[visits@[j].1 as int].id,
                            fs@[a as int].id,
                            fs@[b as int].id,
                        );
                    }
                }
            }
            let new = seen.insert(key);
            proof {
                assert forall|k: u128| #[trigger] seen@.contains(k) <==> exists|j: int|
                    #![trigger visits@[j]]
                    0 <= j < i + 1 && visits@[j].0 != visits@[j].1 && two_key(
                        fs@[visits@[j].0 as int].id,
                        fs@[visits@[j].1 as int].id,
                    ) == k by {
                    if k == key {
                        assert(visits@[i as int].0 != visits@[i as int].1);
                    }
                    if was.contains(k) {
                        let j = choose|j: int|
                            #![trigger visits@[j]]
                            0 <= j < i && visits@[j].0 != visits@[j].1 && two_key(
                                fs@[visits@[j].0 as int].id,
                                fs@[visits@[j].1 as int].id,
                            ) == k;
                        assert(visits@[j].0 != visits@[j].1);
                    }
                }
            }
            if new && fs[a].faction != fs[b].faction {
                match faction_relation(reg, deltas, fs[a].faction, fs[b].faction) {
                    Relation::Hostile => {
                        out.push((a, b));
                    },
                    _ => {},
                }
            }
        }
        i += 1;
    }
    proof {
        assert forall|k: int, l: int| 0 <= k < l < out@.len() implies other_two(
            fs@,
            #[trigger] out@[k],
            #[trigger] out@[l],
        ) by {
            lemma_foes_differ(fs@, *reg, *deltas, visits@, visits@.len() as int, k, l);
        }
    }
    let r = number_order(fs, &out);
    assert(foe_pairs(fs@, *reg, *deltas, keys, r@));
    r
}

/// No two fighters have one number.
pub open spec fn distinct_ids(fs: Seq<Fighter>) -> bool {
    forall|i: int, j: int|
        0 <= i < j < fs.len() ==> (#[trigger] fs[i]).id != (#[trigger] fs[j]).id
}

/// A foe pair was come by.
proof fn lemma_foe_visited(
    fs: Seq<Fighter>,
    reg: FactionRegistry,
    deltas: RelationDeltas,
    visits: Seq<(usize, usize)>,
    n: int,
    i: int,
) -> (m: int)
    requires
        n <= visits.len(),
        0 <= i < foes(fs, reg, deltas, visits, n).len(),
    ensures
        0 <= m < n,
        lower_first(fs, visits[m]) == foes(fs, reg, deltas, visits, n)[i],
        visits[m].0 != visits[m].1,
        ({
            let (a, b) = foes(fs, reg, deltas, visits, n)[i];
            fs[a as int].faction != fs[b as int].faction && hostile(
                reg,
                deltas,
                fs[a as int].faction,
                fs[b as int].faction,
            )
        }),
    decreases n,
{
    let rest = foes(fs, reg, deltas, visits, n - 1);
    if i < rest.len() {
        lemma_foe_visited(fs, reg, deltas, visits, n - 1, i)
    } else {
        n - 1
    }
}

/// No two NPCs are found twice.
proof fn lemma_foes_differ(
    fs: Seq<Fighter>,
    reg: FactionRegistry,
    deltas: RelationDeltas,
    visits: Seq<(usize, usize)>,
    n: int,
    i: int,
    k: int,
)
    requires
        n <= visits.len(),
        0 <= i < k < foes(fs, reg, deltas, visits, n).len(),
    ensures
        other_two(
            fs,
            foes(fs, reg, deltas, visits, n)[i],
            foes(fs, reg, deltas, visits, n)[k],
        ),
    decreases n,
{
    let rest = foes(fs, reg, deltas, visits, n - 1);
    if k < rest.len() {
        lemma_foes_differ(fs, reg, deltas, visits, n - 1, i, k);
    } else {
        let m = lemma_foe_visited(fs, reg, deltas, visits, n - 1, i);
        assert(visits[m].0 != visits[m].1);
    }
}

/// Two NPCs meet once in a round.
pub proof fn law_foes_meet_once(fs: Seq<Fighter>, pairs: Seq<(usize, usize)>, i: int, k: int)
    requires
        in_number_order(fs, pairs),
        0 <= i < k < pairs.len(),
    ensures
        !same_two(
            fs[pairs[i].0 as int].id,
            fs[pairs[i].1 as int].id,
            fs[pairs[k].0 as int].id,
            fs[pairs[k].1 as int].id,
        ),
{
    assert(pair_before(fs, pairs[i], pairs[k]));
    assert(fs[pairs[i].0 as int].id.0 <= fs[pairs[i].1 as int].id.0);
    assert(fs[pairs[k].0 as int].id.0 <= fs[pairs[k].1 as int].id.0);
}

/// A fighter is a member of its square.
proof fn lemma_member_listed(fs: Seq<Fighter>, i: int)
    requires
        0 <= i < fs.len() <= usize::MAX,
    ensures
        members(fs, fs[i].cell_x as int, fs[i].cell_z as int).contains(i as usize),
    decreases fs.len(),
{
    let rest = fs.drop_last();
    let x = fs[i].cell_x as int;
    let z = fs[i].cell_z as int;
    let all = members(fs, x, z);
    if i < rest.len() {
        lemma_member_listed(rest, i);
        let was = members(rest, x, z);
        let k = choose|k: int| 0 <= k < was.len() && was[k] == i as usize;
        assert(all[k] == i as usize);
    } else {
        assert(all[all.len() - 1] == i as usize);
    }
}

/// A product has every pair.
proof fn lemma_product_has(own: Seq<usize>, others: Seq<usize>, a: usize, b: usize)
    requires
        own.contains(a),
        others.contains(b),
    ensures
        product(own, others).contains((a, b)),
    decreases own.len(),
{
    let rest = own.drop_last();
    let all = product(own, others);
    let fore = product(rest, others);
    if own.last() == a {
        let l = choose|l: int| 0 <= l < others.len() && others[l] == b;
        assert(row(a, others)[l] == (a, b));
        assert(all[fore.len() + l] == (a, b));
    } else {
        let j = choose|j: int| 0 <= j < own.len() && own[j] == a;
        assert(rest[j] == a);
        lemma_product_has(rest, others, a, b);
        let k = choose|k: int| 0 <= k < fore.len() && fore[k] == (a, b);
        assert(all[k] == (a, b));
    }
}

/// The squares around a square are all looked at.
proof fn lemma_around_has(fs: Seq<Fighter>, x: int, z: int, n: int, step: int, p: (usize, usize))
    requires
        0 <= step < n <= 9,
        product(members(fs, x, z), members(fs, x + step % 3 - 1, z + step / 3 - 1)).contains(p),
    ensures
        around(fs, x, z, n).contains(p),
    decreases n,
{
    let all = around(fs, x, z, n);
    let fore = around(fs, x, z, n - 1);
    if step == n - 1 {
        let part = product(members(fs, x, z), members(fs, x + step % 3 - 1, z + step / 3 - 1));
        let k = choose|k: int| 0 <= k < part.len() && part[k] == p;
        assert(all[fore.len() + k] == p);
    } else {
        lemma_around_has(fs, x, z, n - 1, step, p);
        let k = choose|k: int| 0 <= k < fore.len() && fore[k] == p;
        assert(all[k] == p);
    }
}

/// Every square is looked at.
proof fn lemma_walk_has(fs: Seq<Fighter>, keys: Seq<u64>, k: int, at: int, p: (usize, usize))
    requires
        0 <= at < k <= keys.len(),
        around(fs, key_x(keys[at]), key_z(keys[at]), 9).contains(p),
    ensures
        walk(fs, keys, k).contains(p),
    decreases k,
{
    let all = walk(fs, keys, k);
    let fore = walk(fs, keys, k - 1);
    if at == k - 1 {
        let part = around(fs, key_x(keys[at]), key_z(keys[at]), 9);
        let j = choose|j: int| 0 <= j < part.len() && part[j] == p;
        assert(all[fore.len() + j] == p);
    } else {
        lemma_walk_has(fs, keys, k - 1, at, p);
        let j = choose|j: int| 0 <= j < fore.len() && fore[j] == p;
        assert(all[j] == p);
    }
}

/// Two that are close by come by each other.
proof fn lemma_close_visited(fs: Seq<Fighter>, keys: Seq<u64>, i: int, j: int)
    requires
        fs.len() <= usize::MAX,
        squares(fs, keys),
        0 <= i < fs.len(),
        0 <= j < fs.len(),
        close_by(fs[i], fs[j]),
    ensures
        walk(fs, keys, keys.len() as int).contains((i as usize, j as usize)),
{
    let x = fs[i].cell_x as int;
    let z = fs[i].cell_z as int;
    let step = (fs[j].cell_z - z + 1) * 3 + (fs[j].cell_x - x + 1);
    assert(step % 3 == fs[j].cell_x - x + 1);
    assert(step / 3 == fs[j].cell_z - z + 1);
    lemma_member_listed(fs, i);
    lemma_member_listed(fs, j);
    lemma_product_has(
        members(fs, x, z),
        members(fs, fs[j].cell_x as int, fs[j].cell_z as int),
        i as usize,
        j as usize,
    );
    lemma_around_has(fs, x, z, 9, step, (i as usize, j as usize));
    let key = cell_key(x, z) as u64;
    lemma_key_parts(x + 0x8000_0000, z + 0x8000_0000);
    assert(cell_key(fs[i].cell_x as int, fs[i].cell_z as int) == key);
    assert(keys.contains(key));
    let at = choose|at: int| 0 <= at < keys.len() && keys[at] == key;
    assert(key_x(key) == x && key_z(key) == z);
    lemma_walk_has(fs, keys, keys.len() as int, at, (i as usize, j as usize));
}

/// The first has the lower number, the two stand in one square or in two that
/// touch, and the faction of the first is hostile to that of the second.
pub open spec fn may_fight(
    a: Fighter,
    b: Fighter,
    reg: FactionRegistry,
    deltas: RelationDeltas,
) -> bool {
    a.id.0 < b.id.0 && close_by(a, b) && a.faction != b.faction && hostile(
        reg,
        deltas,
        a.faction,
        b.faction,
    )
}

/// Two foes that are come by are found.
proof fn lemma_visited_foes(
    fs: Seq<Fighter>,
    reg: FactionRegistry,
    deltas: RelationDeltas,
    visits: Seq<(usize, usize)>,
    n: int,
    m: int,
    i: int,
    j: int,
)
    requires
        fs.len() <= usize::MAX,
        distinct_ids(fs),
        0 <= i < fs.len(),
        0 <= j < fs.len(),
        fs[i].id.0 < fs[j].id.0,
        fs[i].faction != fs[j].faction,
        hostile(reg, deltas, fs[i].faction, fs[j].faction),
        0 <= m < n <= visits.len(),
        lower_first(fs, visits[m]) == (i as usize, j as usize),
        forall|k: int|
            #![trigger visits[k]]
            0 <= k < visits.len() ==> visits[k].0 < fs.len() && visits[k].1 < fs.len(),
    ensures
        foes(fs, reg, deltas, visits, n).contains((i as usize, j as usize)),
    decreases n,
{
    let all = foes(fs, reg, deltas, visits, n);
    let rest = foes(fs, reg, deltas, visits, n - 1);
    let (a, b) = lower_first(fs, visits[n - 1]);
    let p = (i as usize, j as usize);
    if m < n - 1 {
        lemma_visited_foes(fs, reg, deltas, visits, n - 1, m, i, j);
        let k = choose|k: int| 0 <= k < rest.len() && rest[k] == p;
        assert(all[k] == p);
    } else if met_before(fs, visits, n - 1, a, b) {
        let l = choose|l: int|
            #![trigger visits[l]]
            0 <= l < n - 1 && visits[l].0 != visits[l].1 && same_two(
                fs[visits[l].0 as int].id,
                fs[visits[l].1 as int].id,
                fs[a as int].id,
                fs[b as int].id,
            );
        let c = visits[l].0 as int;
        let d = visits[l].1 as int;
        lemma_same_id(fs, c, i);
        lemma_same_id(fs, c, j);
        lemma_same_id(fs, d, i);
        lemma_same_id(fs, d, j);
        assert(lower_first(fs, visits[l]) == p);
        lemma_visited_foes(fs, reg, deltas, visits, n - 1, l, i, j);
        let k = choose|k: int| 0 <= k < rest.len() && rest[k] == p;
        assert(all[k] == p);
    } else {
        assert(all[all.len() - 1] == p);
    }
}

/// A number tells the fighter.
proof fn lemma_same_id(fs: Seq<Fighter>, a: int, b: int)
    requires
        distinct_ids(fs),
        0 <= a < fs.len(),
        0 <= b < fs.len(),
    ensures
        fs[a].id == fs[b].id <==> a == b,
{
    if a < b {
        assert(fs[a].id != fs[b].id);
    } else if b < a {
        assert(fs[b].id != fs[a].id);
    }
}

/// Two fighters get to fight iff they are close by, of different factions, and
/// the faction of the one with the lower number is hostile to that of the
/// other.
pub proof fn law_close_foes_meet(
    fs: Seq<Fighter>,
    reg: FactionRegistry,
    deltas: RelationDeltas,
    keys: Seq<u64>,
    pairs: Seq<(usize, usize)>,
    i: int,
    j: int,
)
    requires
        fs.len() <= usize::MAX,
        distinct_ids(fs),
        foe_pairs(fs, reg, deltas, keys, pairs),
        0 <= i < fs.len(),
        0 <= j < fs.len(),
    ensures
        pairs.contains((i as usize, j as usize)) <==> may_fight(fs[i], fs[j], reg, deltas),
{
    let visits = walk(fs, keys, keys.len() as int);
    let found = foes(fs, reg, deltas, visits, visits.len() as int);
    let p = (i as usize, j as usize);
    if may_fight(fs[i], fs[j], reg, deltas) {
        lemma_close_visited(fs, keys, i, j);
        let m = choose|m: int| 0 <= m < visits.len() && visits[m] == p;
        assert forall|k: int| #![trigger visits[k]] 0 <= k < visits.len() implies visits[k].0
            < fs.len() && visits[k].1 < fs.len() by {
            lemma_walk_close(fs, keys, keys.len() as int, k);
        }
        lemma_visited_foes(fs, reg, deltas, visits, visits.len() as int, m, i, j);
        assert(found.contains(p));
    }
    if pairs.contains(p) {
        assert(found.contains(p));
        let k = choose|k: int| 0 <= k < found.len() && found[k] == p;
        let m = lemma_foe_visited(fs, reg, deltas, visits, visits.len() as int, k);
        lemma_walk_close(fs, keys, keys.len() as int, m);
        lemma_same_id(fs, i, j);
    }
}

/// Multiplies the lower number of a pair.
pub const LOW_MIX: u64 = 0x9E37_79B9_7F4A_7C15;

/// Multiplies the higher number of a pair.
pub const HIGH_MIX: u64 = 0xBF58_476D_1CE4_E5B9;

/// The seed of the dice of two NPCs at a tick, whichever comes first.
pub open spec fn dice_seed(a: u64, b: u64, now: u64) -> int {
    let lo = if a <= b {
        a
    } else {
        b
    };
    let hi = if a <= b {
        b
    } else {
        a
    };
    (lo * LOW_MIX + hi * HIGH_MIX + now) % 0x1_0000_0000_0000_0000
}

/// The seed of the dice of two NPCs at a tick.
pub fn pair_seed(a: NpcId, b: NpcId, now_sim: u64) -> (r: u64)
    ensures
        r == dice_seed(a.0, b.0, now_sim),
{
    let lo: u64 = if a.0 <= b.0 {
        a.0
    } else {
        b.0
    };
    let hi: u64 = if a.0 <= b.0 {
        b.0
    } else {
        a.0
    };
    let x: u64 = lo.wrapping_mul(LOW_MIX);
    let y: u64 = hi.wrapping_mul(HIGH_MIX);
    proof {
        lemma_wrapped_sum(lo * LOW_MIX, hi * HIGH_MIX, now_sim as int);
    }
    x.wrapping_add(y).wrapping_add(now_sim)
}

/// Wrapping at every step wraps the sum.
proof fn lemma_wrapped_sum(p: int, q: int, t: int)
    ensures
        ((p % 0x1_0000_0000_0000_0000 + q % 0x1_0000_0000_0000_0000) % 0x1_0000_0000_0000_0000 + t)
            % 0x1_0000_0000_0000_0000 == (p + q + t) % 0x1_0000_0000_0000_0000,
{
}

/// The order of two NPCs does not matter to their dice.
pub proof fn law_dice_are_shared(a: u64, b: u64, now: u64)
    ensures
        dice_seed(a, b, now) == dice_seed(b, a, now),
{
}

/// Two fighters get to fight iff neither stands more than a square away from
/// the other along either axis, their factions differ, and the score of the
/// faction of the one with the lower number towards the other's is -75 or less.
pub proof fn law_who_fights_whom(
    fs: Seq<Fighter>,
    reg: FactionRegistry,
    deltas: RelationDeltas,
    keys: Seq<u64>,
    pairs: Seq<(usize, usize)>,
    i: int,
    j: int,
)
    requires
        fs.len() <= usize::MAX,
        distinct_ids(fs),
        foe_pairs(fs, reg, deltas, keys, pairs),
        0 <= i < fs.len(),
        0 <= j < fs.len(),
    ensures
        pairs.contains((i as usize, j as usize)) <==> {
            &&& fs[i].id.0 < fs[j].id.0
            &&& fs[i].cell_x - 1 <= fs[j].cell_x <= fs[i].cell_x + 1
            &&& fs[i].cell_z - 1 <= fs[j].cell_z <= fs[i].cell_z + 1
            &&& fs[i].faction != fs[j].faction
            &&& reg.score(deltas, fs[i].faction, fs[j].faction) <= -75
        },
{
    law_close_foes_meet(fs, reg, deltas, keys, pairs, i, j);
}

/// Fights are in the order of the lower number of each pair, and of the higher
/// one where that is the same.
pub proof fn law_fights_are_in_order(fs: Seq<Fighter>, pairs: Seq<(usize, usize)>, i: int, k: int)
    requires
        in_number_order(fs, pairs),
        0 <= i < k < pairs.len(),
    ensures
        ({
            let (a, b) = (fs[pairs[i].0 as int].id.0, fs[pairs[i].1 as int].id.0);
            let (c, d) = (fs[pairs[k].0 as int].id.0, fs[pairs[k].1 as int].id.0);
            &&& a <= b && c <= d
            &&& a <= c
            &&& a == c ==> b < d
        }),
{
    assert(pair_before(fs, pairs[i], pairs[k]));
    assert(fs[pairs[i].0 as int].id.0 <= fs[pairs[i].1 as int].id.0);
    assert(fs[pairs[k].0 as int].id.0 <= fs[pairs[k].1 as int].id.0);
}

/// What counts of an NPC in a fight is its own.
pub proof fn law_fighters_are_themselves(npc: OfflineNpc, cell: (i32, i32))
    ensures
        ({
            let f = fighter_of(npc, cell);
            &&& f.id == npc.id && f.faction == npc.faction
            &&& f.position_2d == npc.position_2d
            &&& f.health_class == npc.health_class
            &&& f.die_at_tick == npc.die_at_tick
            &&& f.accuracy == npc.stats.accuracy
            &&& f.cell_x == cell.0 && f.cell_z == cell.1
        }),
{
}

/// Two NPCs throw other dice at every tick: the seed goes up with the tick, by
/// as much.
pub proof fn law_dice_change_with_the_tick(a: u64, b: u64, now: u64, later: u64)
    requires
        now <= later,
    ensures
        dice_seed(a, b, later) == (dice_seed(a, b, now) + (later - now))
            % 0x1_0000_0000_0000_0000,
        dice_seed(a, b, now) == dice_seed(a, b, later) ==> now == later,
        0 <= dice_seed(a, b, now) < 0x1_0000_0000_0000_0000,
{
    let m = 0x1_0000_0000_0000_0000int;
    let lo = if a <= b { a } else { b };
    let hi = if a <= b { b } else { a };
    let sum = lo * LOW_MIX + hi * HIGH_MIX + now;
    assert(dice_seed(a, b, now) == sum % m);
    lemma_add_mod_noop_right(later - now, sum, m);
    assert((later - now) + sum == lo * LOW_MIX + hi * HIGH_MIX + later);
    lemma_mod_bound(sum, m);
    let r = sum % m;
    let d = later - now;
    if r + d < m {
        lemma_small_mod((r + d) as nat, m as nat);
    } else {
        lemma_mod_sub_multiples_vanish(r + d, m);
        lemma_small_mod((r + d - m) as nat, m as nat);
    }
}

/// The dice go up by one amount with the lower number of a pair, and by another
/// with the higher one.
pub proof fn law_dice_differ_by_pair(a: u64, b: u64, now: u64)
    requires
        a < b < u64::MAX,
    ensures
        dice_seed((a + 1) as u64, b, now) == (dice_seed(a, b, now) + 0x9E37_79B9_7F4A_7C15)
            % 0x1_0000_0000_0000_0000,
        dice_seed(a, (b + 1) as u64, now) == (dice_seed(a, b, now) + 0xBF58_476D_1CE4_E5B9)
            % 0x1_0000_0000_0000_0000,
        dice_seed(0, 0, now) == now,
{
    let m = 0x1_0000_0000_0000_0000int;
    let sum = a * LOW_MIX + b * HIGH_MIX + now;
    lemma_add_mod_noop_right(LOW_MIX as int, sum, m);
    lemma_add_mod_noop_right(HIGH_MIX as int, sum, m);
    assert((a + 1) * LOW_MIX == a * LOW_MIX + LOW_MIX) by (nonlinear_arith);
    assert((b + 1) * HIGH_MIX == b * HIGH_MIX + HIGH_MIX) by (nonlinear_arith);
    assert(dice_seed(a, b, now) == sum % m);
    lemma_small_mod(now as nat, m as nat);
}

} // verus!
