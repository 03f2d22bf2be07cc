//! Routes through a grid of cells.
use vstd::prelude::*;
use vstd::set_lib::{lemma_int_range, lemma_len_subset, set_int_range};

use crate::astar::{
    all_nodes, astar_of, astar_route, guess_map, guesses_consistent, guesses_within, is_route,
    lemma_route_tail, lemma_total_first, nearly_cheapest, nodes_within, step_map, total, Space,
};
use crate::nav::{
    cell_place, law_styles_weigh_ground, lemma_place_in_range, lemma_place_injective,
    lemma_wf_bounds, GridNavQuery, TravelStyle, DIAG_COST, DIAG_EXTRA, MAX_GRID_SIDE, MAX_NODES_EXPANDED, MIN_CELL_MULT,
    ORTHO_COST, SNAP_RADIUS_CELLS,
};

verus! {

/// Distance between two numbers.
pub open spec fn apart(a: int, b: int) -> int {
    if a < b {
        b - a
    } else {
        a - b
    }
}

/// How many rings of cells lie between two cells, counting the outer one.
pub open spec fn ring(ax: int, az: int, bx: int, bz: int) -> int {
    if apart(ax, bx) < apart(az, bz) {
        apart(az, bz)
    } else {
        apart(ax, bx)
    }
}

/// Seen from `(cx, cz)`, the cell `a` comes before the cell `b`: it is nearer,
/// or as near and further north, or in the same row and further west.
pub open spec fn seen_before(cx: int, cz: int, ax: int, az: int, bx: int, bz: int) -> bool {
    let ra = ring(cx, cz, ax, az);
    let rb = ring(cx, cz, bx, bz);
    ra < rb || (ra == rb && (az < bz || (az == bz && ax < bx)))
}

/// The cell is open and near enough to stand in for `(cx, cz)`.
pub open spec fn stands_in(grid: GridNavQuery, cx: int, cz: int, nx: int, nz: int) -> bool {
    grid.open_at(nx, nz) && ring(cx, cz, nx, nz) <= SNAP_RADIUS_CELLS
}

/// The cell is the first of those that can stand in for `(cx, cz)`.
pub open spec fn snaps_to(grid: GridNavQuery, cx: int, cz: int, nx: int, nz: int) -> bool {
    stands_in(grid, cx, cz, nx, nz) && forall|mx: int, mz: int| #[trigger]
        stands_in(grid, cx, cz, mx, mz) ==> !seen_before(cx, cz, mx, mz, nx, nz)
}

/// A cell has at most one that stands in for it.
pub proof fn law_snap_is_unique(
    grid: GridNavQuery,
    cx: int,
    cz: int,
    ax: int,
    az: int,
    bx: int,
    bz: int,
)
    requires
        snaps_to(grid, cx, cz, ax, az),
        snaps_to(grid, cx, cz, bx, bz),
    ensures
        ax == bx && az == bz,
{
    assert(stands_in(grid, cx, cz, ax, az) && stands_in(grid, cx, cz, bx, bz));
}

/// An open cell stands for itself.
pub proof fn law_open_cell_snaps_to_itself(grid: GridNavQuery, cx: int, cz: int)
    requires
        grid.open_at(cx, cz),
    ensures
        snaps_to(grid, cx, cz, cx, cz),
{
}

/// What stands in for a cell is open and at most three cells away along each
/// axis; no open cell is nearer, and of those as near none lies further north,
/// or in the same row further west.
pub proof fn law_nearest_open_cell_stands_in(
    grid: GridNavQuery,
    cx: int,
    cz: int,
    nx: int,
    nz: int,
    mx: int,
    mz: int,
    r: int,
)
    requires
        snaps_to(grid, cx, cz, nx, nz),
        grid.open_at(mx, mz),
        -r <= mx - cx <= r,
        -r <= mz - cz <= r,
        r <= 3,
    ensures
        grid.open_at(nx, nz),
        -r <= nx - cx <= r,
        -r <= nz - cz <= r,
        -3 <= nx - cx <= 3,
        -3 <= nz - cz <= 3,
        (nx - cx == r || nx - cx == -r || nz - cz == r || nz - cz == -r) ==> nz < mz || (nz == mz
            && nx <= mx),
{
    assert(stands_in(grid, cx, cz, mx, mz));
}

/// An open cell no more than three cells away along each axis can stand in, and
/// no other can.
pub proof fn law_stand_ins_are_near(grid: GridNavQuery, cx: int, cz: int, nx: int, nz: int)
    ensures
        stands_in(grid, cx, cz, nx, nz) <==> grid.open_at(nx, nz) && -3 <= nx - cx <= 3 && -3 <= nz
            - cz <= 3,
{
}

impl GridNavQuery {
    /// The nearest open cell, looking no further than the snap radius; of
    /// several in one ring the first from the north-west.
    pub fn snap_to_traversable(&self, cx: u32, cz: u32) -> (r: Option<(u32, u32)>)
        requires
            self.wf(),
            self.in_grid(cx as int, cz as int),
        ensures
            match r {
                Some(n) => snaps_to(*self, cx as int, cz as int, n.0 as int, n.1 as int),
                None => forall|mx: int, mz: int|
                    !#[trigger] stands_in(*self, cx as int, cz as int, mx, mz),
            },
    {
        proof {
            lemma_wf_bounds(*self);
        }
        if self.passable(cx, cz) {
            return Some((cx, cz));
        }
        let x: i64 = cx as i64;
        let z: i64 = cz as i64;
        let mut r: i64 = 1;
        while r <= SNAP_RADIUS_CELLS as i64
            invariant
                self.wf(),
                0 <= self.w() <= MAX_GRID_SIDE,
                0 <= self.h() <= MAX_GRID_SIDE,
                forall|cx: int, cz: int| #[trigger] self.open_at(cx, cz) ==> self.in_grid(cx, cz),
                self.in_grid(x as int, z as int),
                x == cx,
                z == cz,
                1 <= r <= SNAP_RADIUS_CELLS + 1,
                forall|mx: int, mz: int| #[trigger]
                    stands_in(*self, x as int, z as int, mx, mz) ==> ring(x as int, z as int, mx, mz)
                        >= r,
            decreases SNAP_RADIUS_CELLS + 1 - r,
        {
            let mut nz: i64 = z - r;
            while nz <= z + r
                invariant
                    self.wf(),
                    0 <= self.w() <= MAX_GRID_SIDE,
                    0 <= self.h() <= MAX_GRID_SIDE,
                    forall|cx: int, cz: int| #[trigger] self.open_at(cx, cz) ==> self.in_grid(cx, cz),
                    self.in_grid(x as int, z as int),
                    x == cx,
                    z == cz,
                    1 <= r <= SNAP_RADIUS_CELLS,
                    z - r <= nz <= z + r + 1,
                    forall|mx: int, mz: int| #[trigger]
                        stands_in(*self, x as int, z as int, mx, mz) ==> ring(
                            x as int,
                            z as int,
                            mx,
                            mz,
                        ) >= r && (ring(x as int, z as int, mx, mz) == r ==> mz >= nz),
                decreases z + r + 1 - nz,
            {
                let mut nx: i64 = x - r;
                while nx <= x + r
                    invariant
                        self.wf(),
                        0 <= self.w() <= MAX_GRID_SIDE,
                        0 <= self.h() <= MAX_GRID_SIDE,
                        forall|cx: int, cz: int| #[trigger]
                            self.open_at(cx, cz) ==> self.in_grid(cx, cz),
                        self.in_grid(x as int, z as int),
                        x == cx,
                        z == cz,
                        1 <= r <= SNAP_RADIUS_CELLS,
                        z - r <= nz <= z + r,
                        x - r <= nx <= x + r + 1,
                        forall|mx: int, mz: int| #[trigger]
                            stands_in(*self, x as int, z as int, mx, mz) ==> ring(
                                x as int,
                                z as int,
                                mx,
                                mz,
                            ) >= r && (ring(x as int, z as int, mx, mz) == r ==> mz > nz || (mz
                                == nz && mx >= nx)),
                    decreases x + r + 1 - nx,
                {
                    let on_ring = nx == x - r || nx == x + r || nz == z - r || nz == z + r;
                    if on_ring && nx >= 0 && nz >= 0 && self.passable(nx as u32, nz as u32) {
                        assert(stands_in(*self, x as int, z as int, nx as int, nz as int));
                        return Some((nx as u32, nz as u32));
                    }
                    nx += 1;
                }
                nz += 1;
            }
            r += 1;
        }
        None
    }
}

/// Towards `b` from `a`: one up or one down.
pub open spec fn toward(a: int, b: int) -> int {
    if a < b {
        1
    } else {
        -1
    }
}

/// How far the straight line has strayed after `i` steps along x and `j`
/// along z.
pub open spec fn stray(dx: int, dz: int, i: int, j: int) -> int {
    dx * (j + 1) - dz * (i + 1)
}

/// The line always has an axis to step along, and never steps past its end.
pub proof fn lemma_line_stays(dx: int, dz: int, i: int, j: int)
    requires
        0 <= i <= dx,
        0 <= j <= dz,
        !(i == dx && j == dz),
    ensures
        2 * stray(dx, dz, i, j) >= -dz || 2 * stray(dx, dz, i, j) <= dx,
        i == dx ==> 2 * stray(dx, dz, i, j) < -dz,
        j == dz ==> 2 * stray(dx, dz, i, j) > dx,
{
    if i == dx {
        assert(dx * (j + 1) - dz * (dx + 1) <= -dz) by (nonlinear_arith)
            requires
                0 <= dx,
                j + 1 <= dz,
        ;
    }
    if j == dz {
        assert(dx * (dz + 1) - dz * (i + 1) >= dx) by (nonlinear_arith)
            requires
                0 <= dz,
                i + 1 <= dx,
        ;
    }
}

/// The rest of the straight line from `a` to `b` once `i` steps along x and
/// `j` steps along z were taken: at each cell, whichever axis lags behind is
/// stepped along, or both.
pub open spec fn line_rest(ax: int, az: int, bx: int, bz: int, i: int, j: int) -> Seq<(int, int)>
    decreases apart(ax, bx) - i + apart(az, bz) - j,
{
    let dx = apart(ax, bx);
    let dz = apart(az, bz);
    let cell = (ax + toward(ax, bx) * i, az + toward(az, bz) * j);
    if !(0 <= i <= dx && 0 <= j <= dz) || (i == dx && j == dz) {
        seq![cell]
    } else {
        proof {
            lemma_line_stays(dx, dz, i, j);
        }
        let e = 2 * stray(dx, dz, i, j);
        let ni = if e >= -dz { i + 1 } else { i };
        let nj = if e <= dx { j + 1 } else { j };
        seq![cell] + line_rest(ax, az, bx, bz, ni, nj)
    }
}

/// The cells of the straight line from `a` to `b`, both included.
pub open spec fn line(ax: int, az: int, bx: int, bz: int) -> Seq<(int, int)> {
    line_rest(ax, az, bx, bz, 0, 0)
}

/// The cell lies in the box with the corners `a` and `b`.
pub open spec fn in_box(ax: int, az: int, bx: int, bz: int, cx: int, cz: int) -> bool {
    apart(ax, cx) + apart(cx, bx) == apart(ax, bx) && apart(az, cz) + apart(cz, bz) == apart(az, bz)
}

proof fn lemma_line_rest(ax: int, az: int, bx: int, bz: int, i: int, j: int)
    requires
        0 <= i <= apart(ax, bx),
        0 <= j <= apart(az, bz),
    ensures
        ({
            let l = line_rest(ax, az, bx, bz, i, j);
            &&& l.len() > 0
            &&& l[0] == (ax + toward(ax, bx) * i, az + toward(az, bz) * j)
            &&& l.last() == (bx, bz)
            &&& forall|k: int|
                0 <= k < l.len() ==> in_box(ax, az, bx, bz, (#[trigger] l[k]).0, l[k].1)
            &&& forall|k: int|
                0 <= k < l.len() - 1 ==> ring((#[trigger] l[k]).0, l[k].1, l[k + 1].0, l[k + 1].1)
                    == 1
        }),
    decreases apart(ax, bx) - i + apart(az, bz) - j,
{
    let dx = apart(ax, bx);
    let dz = apart(az, bz);
    let cell = (ax + toward(ax, bx) * i, az + toward(az, bz) * j);
    assert(toward(ax, bx) * i == if ax < bx { i } else { -i }) by (nonlinear_arith);
    assert(toward(az, bz) * j == if az < bz { j } else { -j }) by (nonlinear_arith);
    if !(i == dx && j == dz) {
        lemma_line_stays(dx, dz, i, j);
        let e = 2 * stray(dx, dz, i, j);
        let ni = if e >= -dz { i + 1 } else { i };
        let nj = if e <= dx { j + 1 } else { j };
        let rest = line_rest(ax, az, bx, bz, ni, nj);
        lemma_line_rest(ax, az, bx, bz, ni, nj);
        assert(toward(ax, bx) * ni == if ax < bx { ni } else { -ni }) by (nonlinear_arith);
        assert(toward(az, bz) * nj == if az < bz { nj } else { -nj }) by (nonlinear_arith);
        let l = line_rest(ax, az, bx, bz, i, j);
        assert(l == seq![cell] + rest);
        assert forall|k: int| 0 <= k < l.len() implies in_box(
            ax,
            az,
            bx,
            bz,
            (#[trigger] l[k]).0,
            l[k].1,
        ) by {
            if k > 0 {
                assert(l[k] == rest[k - 1]);
            }
        }
        assert forall|k: int| 0 <= k < l.len() - 1 implies ring(
            (#[trigger] l[k]).0,
            l[k].1,
            l[k + 1].0,
            l[k + 1].1,
        ) == 1 by {
            assert(l[k + 1] == rest[k]);
            if k > 0 {
                assert(l[k] == rest[k - 1]);
            }
        }
        assert(l.last() == rest.last());
    }
}

/// A straight line starts at `a`, ends at `b`, keeps to the box between them,
/// and goes from each cell to one that touches it.
pub proof fn law_line_connects(ax: int, az: int, bx: int, bz: int)
    ensures
        ({
            let l = line(ax, az, bx, bz);
            &&& l.len() > 0
            &&& l[0] == (ax, az)
            &&& l.last() == (bx, bz)
            &&& forall|k: int|
                0 <= k < l.len() ==> in_box(ax, az, bx, bz, (#[trigger] l[k]).0, l[k].1)
            &&& forall|k: int|
                0 <= k < l.len() - 1 ==> ring((#[trigger] l[k]).0, l[k].1, l[k + 1].0, l[k + 1].1)
                    == 1
        }),
{
    lemma_line_rest(ax, az, bx, bz, 0, 0);
}

/// A straight line is as long as its longer side, and none of its cells is more
/// than half a cell off the straight way.
pub proof fn law_line_is_straight(ax: int, az: int, bx: int, bz: int, k: int)
    requires
        0 <= k < line(ax, az, bx, bz).len(),
    ensures
        ({
            let l = line(ax, az, bx, bz);
            let dx = if ax < bx { bx - ax } else { ax - bx };
            let dz = if az < bz { bz - az } else { az - bz };
            let most = if dx < dz { dz } else { dx };
            let off = (bx - ax) * (l[k].1 - az) - (bz - az) * (l[k].0 - ax);
            &&& l.len() == most + 1
            &&& -most <= 2 * off <= most
        }),
{
    lemma_line_straight(ax, az, bx, bz, 0, 0, k);
}

/// How the straight line keeps to the straight way, step by step.
proof fn lemma_line_straight(ax: int, az: int, bx: int, bz: int, i: int, j: int, k: int)
    requires
        0 <= i <= apart(ax, bx),
        0 <= j <= apart(az, bz),
        ({
            let dx = apart(ax, bx);
            let dz = apart(az, bz);
            let most = if dx < dz { dz } else { dx };
            &&& -most <= 2 * (dx * j - dz * i) <= most
        }),
        0 <= k < line_rest(ax, az, bx, bz, i, j).len(),
    ensures
        ({
            let l = line_rest(ax, az, bx, bz, i, j);
            let dx = apart(ax, bx);
            let dz = apart(az, bz);
            let most = if dx < dz { dz } else { dx };
            let gone = if dx < dz { j } else { i };
            let off = (bx - ax) * (l[k].1 - az) - (bz - az) * (l[k].0 - ax);
            &&& l.len() == most - gone + 1
            &&& -most <= 2 * off <= most
        }),
    decreases apart(ax, bx) - i + apart(az, bz) - j,
{
    let dx = apart(ax, bx);
    let dz = apart(az, bz);
    let most = if dx < dz { dz } else { dx };
    let l = line_rest(ax, az, bx, bz, i, j);
    let sx = toward(ax, bx);
    let sz = toward(az, bz);
    let x = ax + sx * i;
    let z = az + sz * j;
    let off = (bx - ax) * (z - az) - (bz - az) * (x - ax);
    let d = dx * j - dz * i;
    assert(off == d || off == -d) by {
        if ax < bx {
            assert(bx - ax == dx && x - ax == i);
        } else {
            assert(bx - ax == -dx && x - ax == -i);
        }
        if az < bz {
            assert(bz - az == dz && z - az == j);
        } else {
            assert(bz - az == -dz && z - az == -j);
        }
        assert((-dx) * j == -(dx * j) && dx * (-j) == -(dx * j) && (-dx) * (-j) == dx * j)
            by (nonlinear_arith);
        assert((-dz) * i == -(dz * i) && dz * (-i) == -(dz * i) && (-dz) * (-i) == dz * i)
            by (nonlinear_arith);
    }
    if i == dx && j == dz {
        assert(l[k] == (x, z));
    } else {
        lemma_line_stays(dx, dz, i, j);
        let e = 2 * stray(dx, dz, i, j);
        let ni = if e >= -dz { i + 1 } else { i };
        let nj = if e <= dx { j + 1 } else { j };
        let rest = line_rest(ax, az, bx, bz, ni, nj);
        assert(dx * (j + 1) == dx * j + dx && dz * (i + 1) == dz * i + dz) by (nonlinear_arith);
        assert(e == 2 * (d + dx - dz));
        lemma_line_rest(ax, az, bx, bz, ni, nj);
        lemma_line_straight(ax, az, bx, bz, ni, nj, if k > 0 && k - 1 < rest.len() { k - 1 } else { 0 });
        assert(l == seq![(x, z)] + rest);
        if k > 0 {
            assert(l[k] == rest[k - 1]);
        }
    }
}

/// Every cell of the list is open and, where `class` is given, costs what a
/// cell of that class costs.
pub open spec fn clear(
    grid: GridNavQuery,
    style: TravelStyle,
    class: Option<u8>,
    cells: Seq<(int, int)>,
) -> bool {
    forall|k: int|
        0 <= k < cells.len() ==> grid.open_at((#[trigger] cells[k]).0, cells[k].1) && (class is Some
            ==> style.mult(grid.class_at(cells[k].0, cells[k].1)) == style.mult(class->0))
}

/// The straight line between two cells is open throughout.
pub open spec fn line_walkable(grid: GridNavQuery, ax: int, az: int, bx: int, bz: int) -> bool {
    clear(grid, TravelStyle::Bushwhacker, None, line(ax, az, bx, bz))
}

/// The straight line between two cells is open throughout and, unless one goes
/// straight anyway, costs the same throughout.
pub open spec fn collapsible(
    grid: GridNavQuery,
    style: TravelStyle,
    ax: int,
    az: int,
    bx: int,
    bz: int,
) -> bool {
    let class = if style == TravelStyle::Bushwhacker {
        None
    } else {
        Some(grid.class_at(ax, az))
    };
    clear(grid, style, class, line(ax, az, bx, bz))
}

/// Walks the straight line from `a` to `b`: true iff every cell is open and,
/// where `class` is given, costs what a cell of that class costs.
fn line_clear(
    grid: &GridNavQuery,
    style: TravelStyle,
    class: Option<u8>,
    a: (u32, u32),
    b: (u32, u32),
) -> (r: bool)
    requires
        grid.wf(),
        grid.in_grid(a.0 as int, a.1 as int),
        grid.in_grid(b.0 as int, b.1 as int),
    ensures
        r == clear(
            *grid,
            style,
            class,
            line(a.0 as int, a.1 as int, b.0 as int, b.1 as int),
        ),
{
    proof {
        lemma_wf_bounds(*grid);
    }
    let ghost ax = a.0 as int;
    let ghost az = a.1 as int;
    let ghost bx = b.0 as int;
    let ghost bz = b.1 as int;
    let ghost all = line(ax, az, bx, bz);
    let x1: i64 = b.0 as i64;
    let z1: i64 = b.1 as i64;
    let mut x0: i64 = a.0 as i64;
    let mut z0: i64 = a.1 as i64;
    let dx: i64 = if x0 < x1 { x1 - x0 } else { x0 - x1 };
    let dz: i64 = if z0 < z1 { z1 - z0 } else { z0 - z1 };
    let sx: i64 = if x0 < x1 { 1 } else { -1 };
    let sz: i64 = if z0 < z1 { 1 } else { -1 };
    let mut err: i64 = dx - dz;
    let ghost mut i: int = 0;
    let ghost mut j: int = 0;
    let ghost mut k: int = 0;
    proof {
        assert(all.skip(0) =~= all);
        assert(stray(dx as int, dz as int, 0, 0) == dx - dz) by (nonlinear_arith);
    }
    loop
        invariant
            grid.wf(),
            0 <= grid.w() <= MAX_GRID_SIDE,
            0 <= grid.h() <= MAX_GRID_SIDE,
            grid.in_grid(ax, az),
            grid.in_grid(bx, bz),
            ax == a.0 && az == a.1 && bx == b.0 && bz == b.1,
            all == line(ax, az, bx, bz),
            x1 == bx && z1 == bz,
            dx == apart(ax, bx) && dz == apart(az, bz),
            sx == toward(ax, bx) && sz == toward(az, bz),
            0 <= i <= dx,
            0 <= j <= dz,
            x0 == ax + (if ax < bx {
                i
            } else {
                -i
            }),
            z0 == az + (if az < bz {
                j
            } else {
                -j
            }),
            err == stray(dx as int, dz as int, i, j),
            -2 * (dx + dz) <= err <= 2 * (dx + dz),
            0 <= k <= all.len(),
            all.skip(k) == line_rest(ax, az, bx, bz, i, j),
            forall|m: int|
                0 <= m < k ==> grid.open_at((#[trigger] all[m]).0, all[m].1) && (class is Some
                    ==> style.mult(grid.class_at(all[m].0, all[m].1)) == style.mult(class->0)),
        decreases dx - i + dz - j,
    {
        proof {
            lemma_line_rest(ax, az, bx, bz, i, j);
            assert(toward(ax, bx) * i == if ax < bx { i } else { -i }) by (nonlinear_arith);
            assert(toward(az, bz) * j == if az < bz { j } else { -j }) by (nonlinear_arith);
            assert(all.skip(k)[0] == all[k]);
            assert(all[k] == (x0 as int, z0 as int));
        }
        if !grid.passable(x0 as u32, z0 as u32) {
            assert(!grid.open_at(all[k].0, all[k].1));
            return false;
        }
        if let Some(c) = class {
            let here = grid.class_of(x0 as u32, z0 as u32);
            if style.cell_cost_mult(here) != style.cell_cost_mult(c) {
                assert(style.mult(grid.class_at(all[k].0, all[k].1)) != style.mult(class->0));
                return false;
            }
        }
        if x0 == x1 && z0 == z1 {
            proof {
                assert(i == dx && j == dz);
                assert(all.skip(k).len() == 1);
                assert(all.len() == k + 1);
            }
            return true;
        }
        let e2: i64 = 2 * err;
        let ghost i0 = i;
        let ghost j0 = j;
        proof {
            lemma_line_stays(dx as int, dz as int, i, j);
            let d = dx as int;
            let e = dz as int;
            assert(stray(d, e, i + 1, j) == stray(d, e, i, j) - e) by {
                assert(d * (j + 1) - e * (i + 1 + 1) == d * (j + 1) - e * (i + 1) - e)
                    by (nonlinear_arith);
            }
            assert(stray(d, e, i, j + 1) == stray(d, e, i, j) + d) by {
                assert(d * (j + 1 + 1) - e * (i + 1) == d * (j + 1) - e * (i + 1) + d)
                    by (nonlinear_arith);
            }
            assert(stray(d, e, i + 1, j + 1) == stray(d, e, i, j) - e + d) by {
                assert(d * (j + 1 + 1) - e * (i + 1 + 1) == d * (j + 1) - e * (i + 1) - e + d)
                    by (nonlinear_arith);
            }
        }
        if e2 >= -dz {
            err -= dz;
            x0 += sx;
            proof {
                i = i + 1;
            }
        }
        if e2 <= dx {
            err += dx;
            z0 += sz;
            proof {
                j = j + 1;
            }
        }
        proof {
            let rest = line_rest(ax, az, bx, bz, i, j);
            let cell = (ax + toward(ax, bx) * i0, az + toward(az, bz) * j0);
            assert(line_rest(ax, az, bx, bz, i0, j0) == seq![cell] + rest);
            assert(all.skip(k + 1) =~= all.skip(k).drop_first());
            assert((seq![cell] + rest).drop_first() =~= rest);
            k = k + 1;
        }
    }
}

/// The straight line between two cells of the grid is open throughout.
pub fn walkable_line(grid: &GridNavQuery, a: (u32, u32), b: (u32, u32)) -> (r: bool)
    requires
        grid.wf(),
        grid.in_grid(a.0 as int, a.1 as int),
        grid.in_grid(b.0 as int, b.1 as int),
    ensures
        r == line_walkable(*grid, a.0 as int, a.1 as int, b.0 as int, b.1 as int),
{
    line_clear(grid, TravelStyle::Bushwhacker, None, a, b)
}

/// Every cell of the list lies in the grid.
pub open spec fn cells_in_grid(grid: GridNavQuery, cells: Seq<(u32, u32)>) -> bool {
    forall|k: int|
        0 <= k < cells.len() ==> grid.in_grid((#[trigger] cells[k]).0 as int, cells[k].1 as int)
}

/// [`collapsible`] on cells as they are stored.
pub open spec fn joins(
    grid: GridNavQuery,
    style: TravelStyle,
    a: (u32, u32),
    b: (u32, u32),
) -> bool {
    collapsible(grid, style, a.0 as int, a.1 as int, b.0 as int, b.1 as int)
}

/// One pass over the cells from position `i` on, the one at `kept` being the
/// last that stays: a cell goes where the line past it to the next one joins.
pub open spec fn thinned(
    grid: GridNavQuery,
    style: TravelStyle,
    cells: Seq<(u32, u32)>,
    kept: int,
    i: int,
) -> Seq<(u32, u32)>
    decreases cells.len() - i,
{
    if i >= cells.len() {
        Seq::empty()
    } else if i + 1 < cells.len() && joins(grid, style, cells[kept], cells[i + 1]) {
        thinned(grid, style, cells, kept, i + 1)
    } else {
        seq![cells[i]] + thinned(grid, style, cells, i, i + 1)
    }
}

/// One pass over all cells; the first always stays.
pub open spec fn one_pass(grid: GridNavQuery, style: TravelStyle, cells: Seq<(u32, u32)>) -> Seq<
    (u32, u32),
> {
    if cells.len() <= 2 {
        cells
    } else {
        seq![cells[0]] + thinned(grid, style, cells, 0, 1)
    }
}

proof fn lemma_thinned(
    grid: GridNavQuery,
    style: TravelStyle,
    cells: Seq<(u32, u32)>,
    kept: int,
    i: int,
)
    requires
        0 <= kept < i <= cells.len(),
    ensures
        ({
            let t = thinned(grid, style, cells, kept, i);
            &&& t.len() <= cells.len() - i
            &&& i < cells.len() ==> t.len() > 0 && t.last() == cells.last()
            &&& t.len() == cells.len() - i ==> t =~= cells.skip(i)
            &&& t.len() == cells.len() - i && kept == i - 1 ==> forall|k: int|
                i <= k < cells.len() - 1 ==> !joins(
                    grid,
                    style,
                    #[trigger] cells[k - 1],
                    cells[k + 1],
                )
            &&& cells_in_grid(grid, cells) ==> cells_in_grid(grid, t)
        }),
    decreases cells.len() - i,
{
    if i < cells.len() {
        if i + 1 < cells.len() && joins(grid, style, cells[kept], cells[i + 1]) {
            lemma_thinned(grid, style, cells, kept, i + 1);
        } else {
            lemma_thinned(grid, style, cells, i, i + 1);
            let rest = thinned(grid, style, cells, i, i + 1);
            let t = thinned(grid, style, cells, kept, i);
            assert(t == seq![cells[i]] + rest);
            if rest.len() > 0 {
                assert(t.last() == rest.last());
            }
            if t.len() == cells.len() - i {
                assert(cells.skip(i) =~= seq![cells[i]] + cells.skip(i + 1));
            }
            if cells_in_grid(grid, cells) {
                assert forall|k: int| 0 <= k < t.len() implies grid.in_grid(
                    (#[trigger] t[k]).0 as int,
                    t[k].1 as int,
                ) by {
                    if k > 0 {
                        assert(t[k] == rest[k - 1]);
                    }
                }
            }
        }
    }
}

/// A pass keeps the first and the last cell and makes no list longer. One that
/// drops nothing leaves the list alone, and then no cell between two others
/// could be dropped.
pub proof fn law_pass_keeps_ends(grid: GridNavQuery, style: TravelStyle, cells: Seq<(u32, u32)>)
    requires
        cells.len() > 0,
    ensures
        ({
            let p = one_pass(grid, style, cells);
            &&& 0 < p.len() <= cells.len()
            &&& p[0] == cells[0]
            &&& p.last() == cells.last()
            &&& cells_in_grid(grid, cells) ==> cells_in_grid(grid, p)
            &&& p.len() == cells.len() ==> p == cells
            &&& cells.len() > 2 && p.len() == cells.len() ==> forall|k: int|
                1 <= k < cells.len() - 1 ==> !joins(
                    grid,
                    style,
                    #[trigger] cells[k - 1],
                    cells[k + 1],
                )
        }),
{
    if cells.len() > 2 {
        lemma_thinned(grid, style, cells, 0, 1);
        let t = thinned(grid, style, cells, 0, 1);
        let p = one_pass(grid, style, cells);
        assert(p.last() == t.last());
        if p.len() == cells.len() {
            assert(cells =~= seq![cells[0]] + cells.skip(1));
        }
        if cells_in_grid(grid, cells) {
            assert forall|k: int| 0 <= k < p.len() implies grid.in_grid(
                (#[trigger] p[k]).0 as int,
                p[k].1 as int,
            ) by {
                if k > 0 {
                    assert(p[k] == t[k - 1]);
                }
            }
        }
    }
}

/// Passes over the cells until one drops nothing.
pub open spec fn simplified(grid: GridNavQuery, style: TravelStyle, cells: Seq<(u32, u32)>) -> Seq<
    (u32, u32),
>
    decreases cells.len(),
{
    let p = one_pass(grid, style, cells);
    if p.len() >= cells.len() {
        cells
    } else {
        simplified(grid, style, p)
    }
}

/// What is left after simplifying keeps the ends, and no cell between two
/// others could still be dropped.
pub proof fn law_simplified_is_settled(
    grid: GridNavQuery,
    style: TravelStyle,
    cells: Seq<(u32, u32)>,
)
    requires
        cells.len() > 0,
    ensures
        ({
            let s = simplified(grid, style, cells);
            &&& 0 < s.len() <= cells.len()
            &&& s[0] == cells[0]
            &&& s.last() == cells.last()
            &&& s.len() > 2 ==> forall|k: int|
                1 <= k < s.len() - 1 ==> !joins(grid, style, #[trigger] s[k - 1], s[k + 1])
        }),
    decreases cells.len(),
{
    law_pass_keeps_ends(grid, style, cells);
    let p = one_pass(grid, style, cells);
    if p.len() < cells.len() {
        law_simplified_is_settled(grid, style, p);
    }
}

/// The two cells follow each other in the list.
pub open spec fn neighbours_in(cells: Seq<(u32, u32)>, a: (u32, u32), b: (u32, u32)) -> bool {
    exists|k: int| 0 <= k < cells.len() - 1 && #[trigger] cells[k] == a && cells[k + 1] == b
}

/// Between two cells that a pass leaves next to each other the line joins,
/// unless they were next to each other before.
proof fn lemma_thinned_joins(
    grid: GridNavQuery,
    style: TravelStyle,
    cells: Seq<(u32, u32)>,
    kept: int,
    i: int,
    k: int,
)
    requires
        0 <= kept < i < cells.len(),
        i == kept + 1 || joins(grid, style, cells[kept], cells[i]),
        0 <= k < thinned(grid, style, cells, kept, i).len(),
    ensures
        ({
            let t = seq![cells[kept]] + thinned(grid, style, cells, kept, i);
            joins(grid, style, t[k], t[k + 1]) || neighbours_in(cells, t[k], t[k + 1])
        }),
    decreases cells.len() - i,
{
    if i + 1 < cells.len() && joins(grid, style, cells[kept], cells[i + 1]) {
        lemma_thinned_joins(grid, style, cells, kept, i + 1, k);
    } else {
        let rest = thinned(grid, style, cells, i, i + 1);
        let t = seq![cells[kept]] + thinned(grid, style, cells, kept, i);
        assert(t =~= seq![cells[kept]] + (seq![cells[i]] + rest));
        if k == 0 {
            if i == kept + 1 {
                assert(cells[kept] == t[0] && cells[kept + 1] == t[1]);
            }
        } else {
            lemma_thinned_joins(grid, style, cells, i, i + 1, k - 1);
            let u = seq![cells[i]] + rest;
            assert(t[k] == u[k - 1] && t[k + 1] == u[k]);
        }
    }
}

/// Wherever simplifying skips cells, the straight line between the two cells
/// that are left is open throughout and, unless one goes straight anyway, costs
/// throughout what the first of them costs. All else stays as it was.
pub proof fn law_simplified_stays_walkable(
    grid: GridNavQuery,
    style: TravelStyle,
    cells: Seq<(u32, u32)>,
    k: int,
    j: int,
)
    requires
        0 <= k < simplified(grid, style, cells).len() - 1,
    ensures
        ({
            let s = simplified(grid, style, cells);
            let l = line(s[k].0 as int, s[k].1 as int, s[k + 1].0 as int, s[k + 1].1 as int);
            ||| exists|i: int|
                0 <= i < cells.len() - 1 && #[trigger] cells[i] == s[k] && cells[i + 1] == s[k + 1]
            ||| 0 <= j < l.len() ==> grid.open_at(l[j].0, l[j].1) && (style
                != TravelStyle::Bushwhacker ==> style.mult(grid.class_at(l[j].0, l[j].1))
                == style.mult(grid.class_at(s[k].0 as int, s[k].1 as int)))
        }),
{
    lemma_simplified_joins(grid, style, cells, k);
}

proof fn lemma_simplified_joins(
    grid: GridNavQuery,
    style: TravelStyle,
    cells: Seq<(u32, u32)>,
    k: int,
)
    requires
        0 <= k < simplified(grid, style, cells).len() - 1,
    ensures
        ({
            let s = simplified(grid, style, cells);
            joins(grid, style, s[k], s[k + 1]) || neighbours_in(cells, s[k], s[k + 1])
        }),
    decreases cells.len(),
{
    let s = simplified(grid, style, cells);
    let p = one_pass(grid, style, cells);
    if p.len() >= cells.len() {
        assert(cells[k] == s[k]);
    } else {
        lemma_simplified_joins(grid, style, p, k);
        if neighbours_in(p, s[k], s[k + 1]) {
            let m = choose|m: int|
                0 <= m < p.len() - 1 && #[trigger] p[m] == s[k] && p[m + 1] == s[k + 1];
            lemma_thinned_joins(grid, style, cells, 0, 1, m);
        }
    }
}

impl GridNavQuery {
    /// The straight line between two cells is open throughout and, unless one
    /// goes straight anyway, costs the same throughout.
    pub fn line_collapsible(&self, a: (u32, u32), b: (u32, u32), style: TravelStyle) -> (r: bool)
        requires
            self.wf(),
            self.in_grid(a.0 as int, a.1 as int),
            self.in_grid(b.0 as int, b.1 as int),
        ensures
            r == joins(*self, style, a, b),
    {
        let class = match style {
            TravelStyle::Bushwhacker => None,
            _ => Some(self.class_of(a.0, a.1)),
        };
        line_clear(self, style, class, a, b)
    }

    /// One pass over the cells.
    fn thin(&self, cells: &Vec<(u32, u32)>, style: TravelStyle) -> (r: Vec<(u32, u32)>)
        requires
            self.wf(),
            cells_in_grid(*self, cells@),
            cells@.len() > 2,
        ensures
            r@ == one_pass(*self, style, cells@),
    {
        let mut r: Vec<(u32, u32)> = Vec::new();
        r.push(cells[0]);
        let mut kept: usize = 0;
        let mut i: usize = 1;
        while i < cells.len()
            invariant
                self.wf(),
                cells_in_grid(*self, cells@),
                kept < i <= cells@.len(),
                one_pass(*self, style, cells@) == r@ + thinned(
                    *self,
                    style,
                    cells@,
                    kept as int,
                    i as int,
                ),
            decreases cells@.len() - i,
        {
            if i + 1 < cells.len() && self.line_collapsible(cells[kept], cells[i + 1], style) {
                i += 1;
                continue;
            }
            let ghost before = r@;
            r.push(cells[i]);
            proof {
                let rest = thinned(*self, style, cells@, i as int, i + 1);
                assert(before + (seq![cells@[i as int]] + rest) =~= r@ + rest);
            }
            kept = i;
            i += 1;
        }
        assert(r@ + Seq::<(u32, u32)>::empty() =~= r@);
        r
    }

    /// Drops cells that straight lines can skip, pass after pass, until a pass
    /// drops nothing.
    pub fn simplify_los(&self, cells: Vec<(u32, u32)>, style: TravelStyle) -> (r: Vec<(u32, u32)>)
        requires
            self.wf(),
            cells_in_grid(*self, cells@),
        ensures
            r@ == simplified(*self, style, cells@),
    {
        let mut now = cells;
        while now.len() > 2
            invariant
                self.wf(),
                cells_in_grid(*self, now@),
                simplified(*self, style, cells@) == simplified(*self, style, now@),
            ensures
                simplified(*self, style, now@) == now@,
            decreases now@.len(),
        {
            let next = self.thin(&now, style);
            proof {
                law_pass_keeps_ends(*self, style, now@);
            }
            if next.len() >= now.len() {
                break;
            }
            now = next;
        }
        now
    }
}

/// A cell as one number: its row, then its column.
pub open spec fn packed(cx: int, cz: int) -> u64 {
    (cz * 0x1_0000_0000 + cx) as u64
}

/// The column of a packed cell.
pub open spec fn column(n: u64) -> int {
    (n % 0x1_0000_0000) as int
}

/// The row of a packed cell.
pub open spec fn row(n: u64) -> int {
    (n / 0x1_0000_0000) as int
}

/// A cell as one number.
fn pack(cx: u32, cz: u32) -> (r: u64)
    ensures
        r == packed(cx as int, cz as int),
        column(r) == cx,
        row(r) == cz,
{
    (cz as u64) * 0x1_0000_0000 + cx as u64
}

/// The `k`-th of the eight directions, from the north-west, as steps along x
/// and z.
pub open spec fn direction(k: int) -> (int, int) {
    if k == 0 {
        (-1, -1)
    } else if k == 1 {
        (0, -1)
    } else if k == 2 {
        (1, -1)
    } else if k == 3 {
        (-1, 0)
    } else if k == 4 {
        (1, 0)
    } else if k == 5 {
        (-1, 1)
    } else if k == 6 {
        (0, 1)
    } else {
        (1, 1)
    }
}

/// The `k`-th of the eight directions.
pub fn direction_of(k: usize) -> (r: (i64, i64))
    ensures
        (r.0 as int, r.1 as int) == direction(k as int),
        -1 <= r.0 <= 1,
        -1 <= r.1 <= 1,
{
    if k == 0 {
        (-1, -1)
    } else if k == 1 {
        (0, -1)
    } else if k == 2 {
        (1, -1)
    } else if k == 3 {
        (-1, 0)
    } else if k == 4 {
        (1, 0)
    } else if k == 5 {
        (-1, 1)
    } else if k == 6 {
        (0, 1)
    } else {
        (1, 1)
    }
}

/// What a step in the `k`-th direction onto a cell costs, in hundredths.
pub open spec fn edge_cost(style: TravelStyle, class: u8, k: int) -> u32 {
    let along = if direction(k).0 != 0 && direction(k).1 != 0 {
        DIAG_COST
    } else {
        ORTHO_COST
    };
    ((along * style.mult(class)) / 100) as u32
}

/// The steps from a cell in the first `upto` directions.
pub open spec fn grid_steps(
    grid: GridNavQuery,
    style: TravelStyle,
    cx: int,
    cz: int,
    upto: int,
) -> Seq<(u64, u32)>
    decreases upto,
{
    if upto <= 0 {
        Seq::empty()
    } else {
        let before = grid_steps(grid, style, cx, cz, upto - 1);
        let nx = cx + direction(upto - 1).0;
        let nz = cz + direction(upto - 1).1;
        if grid.open_at(nx, nz) {
            before.push((packed(nx, nz), edge_cost(style, grid.class_at(nx, nz), upto - 1)))
        } else {
            before
        }
    }
}

/// From a cell one steps onto each open cell that touches it, and onto no
/// other. A step costs a hundred, or 141 where it is diagonal, times the
/// percentage of the cell that it leads to.
pub proof fn law_steps_go_to_open_neighbours(
    grid: GridNavQuery,
    style: TravelStyle,
    cx: int,
    cz: int,
    nx: int,
    nz: int,
    cost: u32,
)
    requires
        grid.wf(),
        grid.in_grid(nx, nz),
    ensures
        grid_steps(grid, style, cx, cz, 8).contains((packed(nx, nz), cost)) <==> {
            &&& grid.open_at(nx, nz)
            &&& -1 <= nx - cx <= 1
            &&& -1 <= nz - cz <= 1
            &&& !(nx == cx && nz == cz)
            &&& cost == (if nx != cx && nz != cz {
                141 * style.mult(grid.class_at(nx, nz)) / 100
            } else {
                style.mult(grid.class_at(nx, nz)) as int
            })
        },
{
    lemma_wf_bounds(grid);
    let steps = grid_steps(grid, style, cx, cz, 8);
    if steps.contains((packed(nx, nz), cost)) {
        let t = choose|t: int| 0 <= t < steps.len() && steps[t] == (packed(nx, nz), cost);
        lemma_grid_steps(grid, style, cx, cz, 8, t);
        let k = choose|k: int|
            0 <= k < 8 && grid.open_at(cx + direction(k).0, cz + direction(k).1) && #[trigger]
            grid_steps(grid, style, cx, cz, 8)[t] == (
                packed(cx + direction(k).0, cz + direction(k).1),
                edge_cost(style, grid.class_at(cx + direction(k).0, cz + direction(k).1), k),
            );
        let mx = cx + direction(k).0;
        let mz = cz + direction(k).1;
        assert(grid.in_grid(mx, mz));
        assert(column(packed(mx, mz)) == mx && row(packed(mx, mz)) == mz);
        assert(column(packed(nx, nz)) == nx && row(packed(nx, nz)) == nz);
        lemma_edge_cost(style, grid.class_at(mx, mz), k);
        lemma_edge_cost_value(style, grid.class_at(mx, mz), k);
    } else if grid.open_at(nx, nz) && -1 <= nx - cx <= 1 && -1 <= nz - cz <= 1 && !(nx == cx && nz
        == cz) {
        let k: int = if nz < cz {
            nx - cx + 1
        } else if nz == cz {
            if nx < cx {
                3
            } else {
                4
            }
        } else {
            nx - cx + 6
        };
        assert(direction(k) == (nx - cx, nz - cz));
        lemma_step_taken(grid, style, cx, cz, 8, k);
        lemma_edge_cost_value(style, grid.class_at(nx, nz), k);
    }
}

proof fn lemma_edge_cost_value(style: TravelStyle, class: u8, k: int)
    ensures
        edge_cost(style, class, k) == (if direction(k).0 != 0 && direction(k).1 != 0 {
            141 * style.mult(class) / 100
        } else {
            style.mult(class) as int
        }),
{
    let m = style.mult(class);
    assert(0 <= m <= 250);
    assert(100 * m / 100 == m);
}

/// Where a direction leads onto an open cell, one can step there.
proof fn lemma_step_taken(
    grid: GridNavQuery,
    style: TravelStyle,
    cx: int,
    cz: int,
    upto: int,
    k: int,
)
    requires
        0 <= k < upto <= 8,
        grid.open_at(cx + direction(k).0, cz + direction(k).1),
    ensures
        grid_steps(grid, style, cx, cz, upto).contains(
            (
                packed(cx + direction(k).0, cz + direction(k).1),
                edge_cost(style, grid.class_at(cx + direction(k).0, cz + direction(k).1), k),
            ),
        ),
    decreases upto,
{
    let all = grid_steps(grid, style, cx, cz, upto);
    let before = grid_steps(grid, style, cx, cz, upto - 1);
    let step = (
        packed(cx + direction(k).0, cz + direction(k).1),
        edge_cost(style, grid.class_at(cx + direction(k).0, cz + direction(k).1), k),
    );
    if k < upto - 1 {
        lemma_step_taken(grid, style, cx, cz, upto - 1, k);
        let t = choose|t: int| 0 <= t < before.len() && before[t] == step;
        assert(all[t] == step);
    } else {
        assert(all.last() == step);
    }
}

/// Twice the cost of the straightest way across the given numbers of columns
/// and rows, if steps along an axis cost half of a hundred and diagonal ones
/// half of `diag` more.
pub open spec fn twice_octile(diag: int, dx: int, dz: int) -> int {
    if dx < dz {
        100 * dz + diag * dx
    } else {
        100 * dx + diag * dz
    }
}

/// The grid as one travels it towards a goal.
pub struct GridSpace<'a> {
    pub grid: &'a GridNavQuery,
    pub style: TravelStyle,
    pub goal: (u32, u32),
}

impl<'a> Space for GridSpace<'a> {
    open spec fn ok(&self) -> bool {
        self.grid.wf() && self.grid.in_grid(self.goal.0 as int, self.goal.1 as int)
    }

    open spec fn has_node(&self, n: u64) -> bool {
        self.grid.in_grid(column(n), row(n))
    }

    open spec fn steps(&self, n: u64) -> Seq<(u64, u32)> {
        grid_steps(*self.grid, self.style, column(n), row(n), 8)
    }

    open spec fn estimate(&self, n: u64) -> int {
        twice_octile(
            DIAG_EXTRA as int,
            apart(column(n), self.goal.0 as int),
            apart(row(n), self.goal.1 as int),
        ) * MIN_CELL_MULT / 100
    }

    fn successors(&self, n: u64) -> (r: Vec<(u64, u32)>) {
        proof {
            lemma_wf_bounds(*self.grid);
        }
        let cx: i64 = (n % 0x1_0000_0000) as i64;
        let cz: i64 = (n / 0x1_0000_0000) as i64;
        let mut r: Vec<(u64, u32)> = Vec::new();
        let mut k: usize = 0;
        while k < 8
            invariant
                self.grid.wf(),
                0 <= self.grid.w() <= MAX_GRID_SIDE,
                0 <= self.grid.h() <= MAX_GRID_SIDE,
                forall|x: int, z: int| #[trigger]
                    self.grid.open_at(x, z) ==> self.grid.in_grid(x, z),
                0 <= cx < MAX_GRID_SIDE,
                0 <= cz < MAX_GRID_SIDE,
                k <= 8,
                r@ == grid_steps(*self.grid, self.style, cx as int, cz as int, k as int),
                forall|j: int| 0 <= j < r@.len() ==> self.has_node((#[trigger] r@[j]).0),
            decreases 8 - k,
        {
            let d = direction_of(k);
            let nx: i64 = cx + d.0;
            let nz: i64 = cz + d.1;
            if nx >= 0 && nz >= 0 && self.grid.passable(nx as u32, nz as u32) {
                let class = self.grid.class_of(nx as u32, nz as u32);
                let along: u32 = if d.0 != 0 && d.1 != 0 { DIAG_COST } else { ORTHO_COST };
                let mult: u32 = self.style.cell_cost_mult(class);
                assert(along * mult <= 35_250) by (nonlinear_arith)
                    requires
                        along <= 141,
                        mult <= 250,
                ;
                let cost: u32 = (along * mult) / 100;
                let node = pack(nx as u32, nz as u32);
                r.push((node, cost));
            }
            k += 1;
        }
        r
    }

    fn guess(&self, n: u64) -> (r: u64) {
        proof {
            lemma_wf_bounds(*self.grid);
        }
        let cx: u32 = (n % 0x1_0000_0000) as u32;
        let cz: u32 = (n / 0x1_0000_0000) as u32;
        let dx: u32 = if cx < self.goal.0 { self.goal.0 - cx } else { cx - self.goal.0 };
        let dz: u32 = if cz < self.goal.1 { self.goal.1 - cz } else { cz - self.goal.1 };
        let lo: u64 = if dx < dz { dx as u64 } else { dz as u64 };
        let hi: u64 = if dx < dz { dz as u64 } else { dx as u64 };
        let ortho: u64 = ORTHO_COST as u64;
        let extra: u64 = DIAG_EXTRA as u64;
        let mult: u64 = MIN_CELL_MULT as u64;
        assert(ortho == 100 && extra == 41 && mult == 50);
        (hi * ortho + lo * extra) * mult / 100
    }
}

/// Every step leads one cell away in one of the eight directions, onto an open
/// cell, at the cost of that direction.
proof fn lemma_grid_steps(
    grid: GridNavQuery,
    style: TravelStyle,
    cx: int,
    cz: int,
    upto: int,
    t: int,
)
    requires
        0 <= upto <= 8,
        0 <= t < grid_steps(grid, style, cx, cz, upto).len(),
    ensures
        exists|k: int|
            0 <= k < upto && grid.open_at(cx + direction(k).0, cz + direction(k).1) && #[trigger]
            grid_steps(grid, style, cx, cz, upto)[t] == (
                packed(cx + direction(k).0, cz + direction(k).1),
                edge_cost(
                    style,
                    grid.class_at(cx + direction(k).0, cz + direction(k).1),
                    k,
                ),
            ),
    decreases upto,
{
    if upto > 0 {
        let before = grid_steps(grid, style, cx, cz, upto - 1);
        if t < before.len() {
            lemma_grid_steps(grid, style, cx, cz, upto - 1, t);
            assert(grid_steps(grid, style, cx, cz, upto)[t] == before[t]);
        }
    }
}

/// By how much a guess may be over the cost of the cheapest route.
pub open spec fn guess_slack(grid: GridNavQuery, style: TravelStyle) -> int {
    if style == TravelStyle::RoadHugger {
        (if grid.w() < grid.h() {
            grid.w()
        } else {
            grid.h()
        }) / 2
    } else {
        0
    }
}

/// The part of a diagonal step that is sure to be paid beyond a straight one.
spec fn sure_diag(style: TravelStyle) -> int {
    if style == TravelStyle::RoadHugger {
        40
    } else {
        41
    }
}

/// What one step takes off the straightest way.
proof fn lemma_octile_step(diag: int, gx: int, gz: int, cx: int, cz: int, mx: int, mz: int)
    requires
        diag == 40 || diag == 41,
        -1 <= mx - cx <= 1,
        -1 <= mz - cz <= 1,
    ensures
        twice_octile(diag, apart(cx, gx), apart(cz, gz)) <= twice_octile(
            diag,
            apart(mx, gx),
            apart(mz, gz),
        ) + (if mx != cx && mz != cz {
            100 + diag
        } else {
            100
        }),
{
    if diag == 40 {
    } else {
    }
}

/// What is sure of the cost of a step.
proof fn lemma_edge_cost(style: TravelStyle, class: u8, k: int)
    requires
        0 <= k < 8,
    ensures
        2 * edge_cost(style, class, k) >= (if direction(k).0 != 0 && direction(k).1 != 0 {
            100 + sure_diag(style)
        } else {
            100
        }),
        style != TravelStyle::RoadHugger ==> edge_cost(style, class, k) >= (if direction(k).0 != 0
            && direction(k).1 != 0 {
            119int
        } else {
            85int
        }),
{
    let mult = style.mult(class);
    if direction(k).0 != 0 && direction(k).1 != 0 {
        assert(edge_cost(style, class, k) == (141 * mult / 100) as u32);
    } else {
        assert(edge_cost(style, class, k) == (100 * mult / 100) as u32);
    }
}

/// Where the `t`-th step from a node leads, and by which direction.
proof fn lemma_step_direction(space: GridSpace, n: u64, t: int) -> (k: int)
    requires
        space.ok(),
        space.has_node(n),
        0 <= t < space.steps(n).len(),
    ensures
        0 <= k < 8,
        space.has_node(space.steps(n)[t].0),
        column(space.steps(n)[t].0) == column(n) + direction(k).0,
        row(space.steps(n)[t].0) == row(n) + direction(k).1,
        exists|class: u8| space.steps(n)[t].1 == edge_cost(space.style, class, k),
{
    let grid = *space.grid;
    lemma_wf_bounds(grid);
    let cx = column(n);
    let cz = row(n);
    lemma_grid_steps(grid, space.style, cx, cz, 8, t);
    let k = choose|k: int|
        0 <= k < 8 && grid.open_at(cx + direction(k).0, cz + direction(k).1) && #[trigger]
        grid_steps(grid, space.style, cx, cz, 8)[t] == (
            packed(cx + direction(k).0, cz + direction(k).1),
            edge_cost(
                space.style,
                grid.class_at(cx + direction(k).0, cz + direction(k).1),
                k,
            ),
        );
    let mx = cx + direction(k).0;
    let mz = cz + direction(k).1;
    assert(grid.in_grid(mx, mz));
    assert(space.steps(n)[t].0 == packed(mx, mz));
    k
}

/// One step takes no more off the straightest way than it costs.
proof fn lemma_step_octile(space: GridSpace, n: u64, t: int)
    requires
        space.ok(),
        space.has_node(n),
        0 <= t < space.steps(n).len(),
    ensures
        ({
            let m = space.steps(n)[t].0;
            let diag = sure_diag(space.style);
            &&& space.has_node(m)
            &&& twice_octile(
                diag,
                apart(column(n), space.goal.0 as int),
                apart(row(n), space.goal.1 as int),
            ) <= twice_octile(
                diag,
                apart(column(m), space.goal.0 as int),
                apart(row(m), space.goal.1 as int),
            ) + 2 * space.steps(n)[t].1
            &&& space.style != TravelStyle::RoadHugger ==> space.estimate(n) <= space.estimate(m)
                + space.steps(n)[t].1
        }),
{
    let k = lemma_step_direction(space, n, t);
    let m = space.steps(n)[t].0;
    let class = choose|class: u8| space.steps(n)[t].1 == edge_cost(space.style, class, k);
    lemma_edge_cost(space.style, class, k);
    lemma_octile_step(
        sure_diag(space.style),
        space.goal.0 as int,
        space.goal.1 as int,
        column(n),
        row(n),
        column(m),
        row(m),
    );
}

/// No route is cheaper than the straightest way.
proof fn lemma_route_octile(
    space: GridSpace,
    n: u64,
    goal: u64,
    nodes: Seq<u64>,
    costs: Seq<u32>,
)
    requires
        space.ok(),
        space.has_node(n),
        goal == packed(space.goal.0 as int, space.goal.1 as int),
        is_route(&space, n, goal, nodes, costs),
    ensures
        twice_octile(
            sure_diag(space.style),
            apart(column(n), space.goal.0 as int),
            apart(row(n), space.goal.1 as int),
        ) <= 2 * total(costs),
    decreases costs.len(),
{
    lemma_wf_bounds(*space.grid);
    if costs.len() == 0 {
        assert(n == goal);
    } else {
        lemma_route_tail(&space, n, goal, nodes, costs);
        let t = choose|t: int|
            0 <= t < space.steps(n).len() && space.steps(n)[t] == (nodes[1], costs[0]);
        lemma_step_octile(space, n, t);
        lemma_route_octile(space, nodes[1], goal, nodes.drop_first(), costs.drop_first());
        lemma_total_first(costs);
    }
}

/// Guesses are never over the mark, but for those who hug roads, whose guesses
/// are over it by half a hundredth for each row or column of the shorter side
/// at most.
pub proof fn law_guesses_nearly_admissible(space: GridSpace, goal: u64)
    requires
        space.ok(),
        goal == packed(space.goal.0 as int, space.goal.1 as int),
    ensures
        guesses_within(&space, goal, guess_slack(*space.grid, space.style)),
        space.style != TravelStyle::RoadHugger ==> guesses_consistent(&space),
{
    lemma_wf_bounds(*space.grid);
    assert forall|n: u64, nodes: Seq<u64>, costs: Seq<u32>| #[trigger]
        is_route(&space, n, goal, nodes, costs) && space.has_node(n) implies space.estimate(n)
        <= total(costs) + guess_slack(*space.grid, space.style) by {
        lemma_route_octile(space, n, goal, nodes, costs);
    }
    if space.style != TravelStyle::RoadHugger {
        assert forall|n: u64, k: int|
            space.has_node(n) && 0 <= k < space.steps(n).len() implies space.estimate(n) <= (
        #[trigger] space.steps(n)[k]).1 + space.estimate(space.steps(n)[k].0) by {
            lemma_step_octile(space, n, k);
        }
    }
}

/// The cells of a list of packed ones.
pub open spec fn unpacked(nodes: Seq<u64>) -> Seq<(u32, u32)> {
    Seq::new(nodes.len(), |i: int| (column(nodes[i]) as u32, row(nodes[i]) as u32))
}

/// Where a query leads.
#[derive(Debug, Clone)]
pub enum CellRoute {
    /// Both ends stand on one cell.
    Here,
    /// By way of these cells, both ends included.
    Through(Vec<(u32, u32)>),
}

/// What a search from one open cell to another finds: packed cells, and how
/// many cells it asked for the neighbours of.
pub open spec fn search_of(
    grid: GridNavQuery,
    style: TravelStyle,
    from: (u32, u32),
    to: (u32, u32),
) -> (Option<Seq<u64>>, nat) {
    let space = GridSpace { grid: &grid, style, goal: to };
    astar_of(
        step_map(&space),
        guess_map(&space),
        packed(from.0 as int, from.1 as int),
        packed(to.0 as int, to.1 as int),
        MAX_NODES_EXPANDED as nat,
    )
}

/// What becomes of a search: nothing where it found nothing or asked for too
/// many cells, what simplifying leaves of the cells otherwise.
pub open spec fn finished(
    grid: GridNavQuery,
    style: TravelStyle,
    found: (Option<Seq<u64>>, nat),
) -> Option<Seq<(u32, u32)>> {
    if found.0 is Some && found.1 <= MAX_NODES_EXPANDED {
        Some(simplified(grid, style, unpacked(found.0->0)))
    } else {
        None
    }
}

/// `r` is the way from the open cell `a` to the open cell `b`: none at all on
/// one cell, otherwise what becomes of the search. A way leads from the one to
/// the other. Where there is none the two are cut off or the search asked for
/// too many cells, which it does not on a grid that can be searched whole by
/// guesses that are never over the mark.
pub open spec fn is_way(
    grid: GridNavQuery,
    style: TravelStyle,
    a: (u32, u32),
    b: (u32, u32),
    r: Option<CellRoute>,
) -> bool {
    &&& (r matches Some(CellRoute::Here)) <==> a == b
    &&& a != b ==> match finished(grid, style, search_of(grid, style, a, b)) {
        Some(cells) => r matches Some(CellRoute::Through(kept)) && kept@ == cells,
        None => r is None,
    }
    &&& r matches Some(CellRoute::Through(kept)) ==> leads(grid, style, a, b, kept@)
    &&& r is None ==> cut_off(grid, style, a, b) || search_of(grid, style, a, b).1
        > MAX_NODES_EXPANDED
    &&& r is None && style != TravelStyle::RoadHugger && grid.w() * grid.h() <= MAX_NODES_EXPANDED
        ==> cut_off(grid, style, a, b)
}

/// `r` is the answer to a query: the way between the open cells that stand in
/// for the two ends, and nothing where an end has none near.
pub open spec fn answers(
    grid: GridNavQuery,
    style: TravelStyle,
    from: (u32, u32),
    to: (u32, u32),
    r: Option<CellRoute>,
) -> bool {
    &&& (forall|x: int, z: int|
        !#[trigger] stands_in(grid, from.0 as int, from.1 as int, x, z)) ==> r is None
    &&& (forall|x: int, z: int| !#[trigger] stands_in(grid, to.0 as int, to.1 as int, x, z))
        ==> r is None
    &&& forall|a: (u32, u32), b: (u32, u32)|
        #![trigger
            snaps_to(grid, from.0 as int, from.1 as int, a.0 as int, a.1 as int),
            snaps_to(grid, to.0 as int, to.1 as int, b.0 as int, b.1 as int)]
        snaps_to(grid, from.0 as int, from.1 as int, a.0 as int, a.1 as int) && snaps_to(
            grid,
            to.0 as int,
            to.1 as int,
            b.0 as int,
            b.1 as int,
        ) ==> is_way(grid, style, a, b, r)
}

/// Two answers say the same.
pub open spec fn same_answer(r: Option<CellRoute>, s: Option<CellRoute>) -> bool {
    match (r, s) {
        (None, None) => true,
        (Some(CellRoute::Here), Some(CellRoute::Here)) => true,
        (Some(CellRoute::Through(x)), Some(CellRoute::Through(y))) => x@ == y@,
        _ => false,
    }
}

/// The cells lead from one cell to the other, each step onto an open
/// neighbour, no cell is passed twice, and no way is cheaper, give or take the
/// slack of the guesses; what is kept of them is what simplifying leaves.
pub open spec fn leads(
    grid: GridNavQuery,
    style: TravelStyle,
    from: (u32, u32),
    to: (u32, u32),
    kept: Seq<(u32, u32)>,
) -> bool {
    let space = GridSpace { grid: &grid, style, goal: to };
    let a = packed(from.0 as int, from.1 as int);
    let b = packed(to.0 as int, to.1 as int);
    exists|nodes: Seq<u64>, costs: Seq<u32>| #[trigger]
        is_route(&space, a, b, nodes, costs) && nodes.no_duplicates() && nearly_cheapest(
            &space,
            a,
            b,
            costs,
            guess_slack(grid, style),
        ) && kept == simplified(grid, style, unpacked(nodes))
}

/// No steps lead from one cell to the other.
pub open spec fn cut_off(
    grid: GridNavQuery,
    style: TravelStyle,
    from: (u32, u32),
    to: (u32, u32),
) -> bool {
    let space = GridSpace { grid: &grid, style, goal: to };
    forall|nodes: Seq<u64>, costs: Seq<u32>|
        !#[trigger] is_route(
            &space,
            packed(from.0 as int, from.1 as int),
            packed(to.0 as int, to.1 as int),
            nodes,
            costs,
        )
}

/// Steps that each cost something between two bounds cost so many times as
/// much together.
proof fn lemma_total_between(costs: Seq<u32>, lo: int, hi: int)
    requires
        forall|k: int| 0 <= k < costs.len() ==> lo <= #[trigger] costs[k] <= hi,
    ensures
        lo * costs.len() <= total(costs) <= hi * costs.len(),
    decreases costs.len(),
{
    if costs.len() > 0 {
        let init = costs.drop_last();
        assert forall|k: int| 0 <= k < init.len() implies lo <= #[trigger] init[k] <= hi by {
            assert(init[k] == costs[k]);
        }
        lemma_total_between(init, lo, hi);
        assert(lo * costs.len() == lo * init.len() + lo && hi * costs.len() == hi * init.len()
            + hi) by (nonlinear_arith)
            requires
                costs.len() == init.len() + 1,
        ;
        assert(lo <= costs[costs.len() - 1] <= hi);
    } else {
        assert(lo * costs.len() == 0 && hi * costs.len() == 0) by (nonlinear_arith)
            requires
                costs.len() == 0,
        ;
    }
}

/// The step of a route at the given place.
proof fn lemma_route_step(
    space: GridSpace,
    from: u64,
    to: u64,
    nodes: Seq<u64>,
    costs: Seq<u32>,
    k: int,
)
    requires
        space.ok(),
        space.has_node(from),
        is_route(&space, from, to, nodes, costs),
        0 <= k < costs.len(),
    ensures
        space.grid.open_at(column(nodes[k + 1]), row(nodes[k + 1])),
        -1 <= column(nodes[k + 1]) - column(nodes[k]) <= 1,
        -1 <= row(nodes[k + 1]) - row(nodes[k]) <= 1,
        costs[k] == (if column(nodes[k + 1]) != column(nodes[k]) && row(nodes[k + 1]) != row(
            nodes[k],
        ) {
            141 * space.style.mult(space.grid.class_at(column(nodes[k + 1]), row(nodes[k + 1])))
                / 100
        } else {
            space.style.mult(space.grid.class_at(column(nodes[k + 1]), row(nodes[k + 1]))) as int
        }),
{
    lemma_wf_bounds(*space.grid);
    lemma_route_in_grid(space, from, to, nodes, costs, k);
    lemma_route_in_grid(space, from, to, nodes, costs, k + 1);
    let n = nodes[k];
    let m = nodes[k + 1];
    assert(space.steps(n).contains((m, costs[k])));
    assert(m == packed(column(m), row(m)));
    law_steps_go_to_open_neighbours(
        *space.grid,
        space.style,
        column(n),
        row(n),
        column(m),
        row(m),
        costs[k],
    );
}

/// Every cell of a route but the first is of one of three classes.
pub open spec fn runs_on(grid: GridNavQuery, nodes: Seq<u64>, a: u8, b: u8, c: u8) -> bool {
    forall|k: int|
        1 <= k < nodes.len() ==> {
            let class = grid.class_at(column(#[trigger] nodes[k]), row(nodes[k]));
            class == a || class == b || class == c
        }
}

/// Where a way leads along roads of any kind, whoever hugs roads never takes one
/// of as many steps, or of more, through forest, shrubland or wetland, as long
/// as the grid is not a hundred times as wide and as high as the way is long;
/// and no way costs less than theirs by more than the guesses are over the mark.
pub proof fn law_road_huggers_take_the_road(
    grid: GridNavQuery,
    from: (u32, u32),
    to: (u32, u32),
    kept: Seq<(u32, u32)>,
    road: Seq<u64>,
    fees: Seq<u32>,
) -> (r: (Seq<u64>, Seq<u32>))
    requires
        grid.wf(),
        grid.in_grid(from.0 as int, from.1 as int),
        grid.in_grid(to.0 as int, to.1 as int),
        leads(grid, TravelStyle::RoadHugger, from, to, kept),
        is_route(
            &(GridSpace { grid: &grid, style: TravelStyle::RoadHugger, goal: to }),
            packed(from.0 as int, from.1 as int),
            packed(to.0 as int, to.1 as int),
            road,
            fees,
        ),
        runs_on(grid, road, 21, 22, 23),
    ensures
        is_route(
            &(GridSpace { grid: &grid, style: TravelStyle::RoadHugger, goal: to }),
            packed(from.0 as int, from.1 as int),
            packed(to.0 as int, to.1 as int),
            r.0,
            r.1,
        ),
        kept == simplified(grid, TravelStyle::RoadHugger, unpacked(r.0)),
        2 * total(r.1) <= 2 * total(fees) + grid.w(),
        2 * total(r.1) <= 2 * total(fees) + grid.h(),
        total(fees) <= 98 * fees.len(),
        runs_on(grid, r.0, 2, 3, 9) && (grid.w() < 200 * fees.len() || grid.h() < 200 * fees.len())
            ==> r.1.len() < fees.len(),
{
    lemma_wf_bounds(grid);
    let space = GridSpace { grid: &grid, style: TravelStyle::RoadHugger, goal: to };
    let a = packed(from.0 as int, from.1 as int);
    let b = packed(to.0 as int, to.1 as int);
    assert(column(a) == from.0 && row(a) == from.1);
    let (nodes, costs) = choose|nodes: Seq<u64>, costs: Seq<u32>| #[trigger]
        is_route(&space, a, b, nodes, costs) && nodes.no_duplicates() && nearly_cheapest(
            &space,
            a,
            b,
            costs,
            guess_slack(grid, TravelStyle::RoadHugger),
        ) && kept == simplified(grid, TravelStyle::RoadHugger, unpacked(nodes));
    assert forall|k: int| 0 <= k < fees.len() implies 0 <= #[trigger] fees[k] <= 98 by {
        lemma_route_step(space, a, b, road, fees, k);
        assert(road[k + 1] == road[k + 1]);
        let class = grid.class_at(column(road[k + 1]), row(road[k + 1]));
        law_styles_weigh_ground(class, 2, 0, class);
    }
    lemma_total_between(fees, 0, 98);
    if runs_on(grid, nodes, 2, 3, 9) {
        assert forall|k: int| 0 <= k < costs.len() implies 200 <= #[trigger] costs[k] <= u32::MAX by {
            lemma_route_step(space, a, b, nodes, costs, k);
            let class = grid.class_at(column(nodes[k + 1]), row(nodes[k + 1]));
            law_styles_weigh_ground(21, class, 0, class);
        }
        lemma_total_between(costs, 200, u32::MAX as int);
    }
    (nodes, costs)
}

/// What a query leads by costs no more than any other way that steps from open
/// cell to open cell, but for those who hug roads, whose way may cost half a
/// hundredth more for each row and each column of the shorter side.
pub proof fn law_ways_are_cheapest(
    grid: GridNavQuery,
    style: TravelStyle,
    from: (u32, u32),
    to: (u32, u32),
    kept: Seq<(u32, u32)>,
    other: Seq<u64>,
    others: Seq<u32>,
) -> (r: (Seq<u64>, Seq<u32>))
    requires
        leads(grid, style, from, to, kept),
        is_route(
            &(GridSpace { grid: &grid, style, goal: to }),
            packed(from.0 as int, from.1 as int),
            packed(to.0 as int, to.1 as int),
            other,
            others,
        ),
    ensures
        is_route(
            &(GridSpace { grid: &grid, style, goal: to }),
            packed(from.0 as int, from.1 as int),
            packed(to.0 as int, to.1 as int),
            r.0,
            r.1,
        ),
        kept == simplified(grid, style, unpacked(r.0)),
        style == TravelStyle::Mixed || style == TravelStyle::Bushwhacker ==> total(r.1) <= total(
            others,
        ),
        style == TravelStyle::RoadHugger ==> 2 * total(r.1) <= 2 * total(others) + grid.w() && 2
            * total(r.1) <= 2 * total(others) + grid.h(),
{
    let space = GridSpace { grid: &grid, style, goal: to };
    let a = packed(from.0 as int, from.1 as int);
    let b = packed(to.0 as int, to.1 as int);
    let (nodes, costs) = choose|nodes: Seq<u64>, costs: Seq<u32>| #[trigger]
        is_route(&space, a, b, nodes, costs) && nodes.no_duplicates() && nearly_cheapest(
            &space,
            a,
            b,
            costs,
            guess_slack(grid, style),
        ) && kept == simplified(grid, style, unpacked(nodes));
    (nodes, costs)
}

/// Every node of the list is a cell of the grid.
pub open spec fn nodes_in_grid(grid: GridNavQuery, nodes: Seq<u64>) -> bool {
    forall|k: int| 0 <= k < nodes.len() ==> grid.in_grid(column(#[trigger] nodes[k]), row(nodes[k]))
}

proof fn lemma_route_in_grid(
    space: GridSpace,
    from: u64,
    to: u64,
    nodes: Seq<u64>,
    costs: Seq<u32>,
    k: int,
)
    requires
        space.ok(),
        space.has_node(from),
        is_route(&space, from, to, nodes, costs),
        0 <= k < nodes.len(),
    ensures
        space.has_node(nodes[k]),
    decreases k,
{
    if k > 0 {
        lemma_route_in_grid(space, from, to, nodes, costs, k - 1);
        let n = nodes[k - 1];
        assert(space.steps(n).contains((nodes[k - 1 + 1], costs[k - 1])));
        let t = choose|t: int|
            0 <= t < space.steps(n).len() && space.steps(n)[t] == (nodes[k], costs[k - 1]);
        lemma_step_octile(space, n, t);
    }
}

/// Numbers from zero up to `limit`, none of them twice, are no more than
/// that.
proof fn lemma_few_numbers(s: Seq<int>, limit: int)
    requires
        0 <= limit,
        s.no_duplicates(),
        forall|k: int| 0 <= k < s.len() ==> 0 <= #[trigger] s[k] < limit,
    ensures
        s.len() <= limit,
{
    let all = set_int_range(0, limit);
    lemma_int_range(0, limit);
    s.unique_seq_to_set();
    assert(s.to_set().subset_of(all)) by {
        assert forall|x: int| s.to_set().contains(x) implies all.contains(x) by {
            let k = choose|k: int| 0 <= k < s.len() && s[k] == x;
        }
    }
    lemma_len_subset(s.to_set(), all);
}

/// A grid has as many nodes as cells.
proof fn lemma_grid_nodes(space: GridSpace)
    requires
        space.ok(),
    ensures
        nodes_within(&space, space.grid.w() * space.grid.h()),
{
    let w = space.grid.w();
    let h = space.grid.h();
    lemma_wf_bounds(*space.grid);
    assert forall|nodes: Seq<u64>| #[trigger] all_nodes(&space, nodes) implies nodes.len() <= w
        * h by {
        let places = Seq::new(nodes.len(), |k: int| cell_place(w, column(nodes[k]), row(nodes[k])));
        assert forall|k: int| 0 <= k < places.len() implies 0 <= #[trigger] places[k] < w * h by {
            assert(space.has_node(nodes[k]));
            lemma_place_in_range(w, h, column(nodes[k]), row(nodes[k]));
        }
        assert forall|i: int, j: int|
            0 <= i < places.len() && 0 <= j < places.len() && i != j implies places[i]
            != places[j] by {
            assert(space.has_node(nodes[i]) && space.has_node(nodes[j]));
            if places[i] == places[j] {
                lemma_place_injective(
                    w,
                    column(nodes[i]),
                    row(nodes[i]),
                    column(nodes[j]),
                    row(nodes[j]),
                );
                assert(nodes[i] == nodes[j]);
            }
        }
        assert(0 <= w * h) by (nonlinear_arith)
            requires
                0 <= w,
                0 <= h,
        ;
        lemma_few_numbers(places, w * h);
    }
}

/// A cell that has some near to stand in for it has a first one.
proof fn lemma_some_snap(grid: GridNavQuery, cx: int, cz: int, nx: int, nz: int) -> (r: (int, int))
    requires
        stands_in(grid, cx, cz, nx, nz),
    ensures
        snaps_to(grid, cx, cz, r.0, r.1),
    decreases
        ring(cx, cz, nx, nz),
        nz - cz + ring(cx, cz, nx, nz),
        nx - cx + ring(cx, cz, nx, nz),
{
    if snaps_to(grid, cx, cz, nx, nz) {
        (nx, nz)
    } else {
        let (mx, mz) = choose|mx: int, mz: int| #[trigger]
            stands_in(grid, cx, cz, mx, mz) && seen_before(cx, cz, mx, mz, nx, nz);
        lemma_some_snap(grid, cx, cz, mx, mz)
    }
}

/// A query has one answer, however often it is asked.
pub proof fn law_answers_repeat(
    grid: GridNavQuery,
    style: TravelStyle,
    from: (u32, u32),
    to: (u32, u32),
    r: Option<CellRoute>,
    s: Option<CellRoute>,
)
    requires
        grid.wf(),
        answers(grid, style, from, to, r),
        answers(grid, style, from, to, s),
    ensures
        same_answer(r, s),
{
    lemma_wf_bounds(grid);
    let (fx, fz) = (from.0 as int, from.1 as int);
    let (tx, tz) = (to.0 as int, to.1 as int);
    if (exists|x: int, z: int| #[trigger] stands_in(grid, fx, fz, x, z)) && (exists|x: int, z: int|
        #[trigger]
        stands_in(grid, tx, tz, x, z)) {
        let (x, z) = choose|x: int, z: int| #[trigger] stands_in(grid, fx, fz, x, z);
        let (ax, az) = lemma_some_snap(grid, fx, fz, x, z);
        let (x, z) = choose|x: int, z: int| #[trigger] stands_in(grid, tx, tz, x, z);
        let (bx, bz) = lemma_some_snap(grid, tx, tz, x, z);
        assert(grid.open_at(ax, az) && grid.open_at(bx, bz));
        let a = (ax as u32, az as u32);
        let b = (bx as u32, bz as u32);
        assert(snaps_to(grid, fx, fz, a.0 as int, a.1 as int));
        assert(snaps_to(grid, tx, tz, b.0 as int, b.1 as int));
        assert(is_way(grid, style, a, b, r) && is_way(grid, style, a, b, s));
    }
}

impl GridNavQuery {
    /// What becomes of a search: nothing where it found nothing or asked for
    /// too many nodes, the simplified cells otherwise.
    pub fn finish_route(
        &self,
        found: Option<Vec<u64>>,
        expanded: usize,
        style: TravelStyle,
    ) -> (r: Option<Vec<(u32, u32)>>)
        requires
            self.wf(),
            found is Some ==> nodes_in_grid(*self, found->0@),
        ensures
            ({
                let nodes = match found {
                    Some(nodes) => Some(nodes@),
                    None => None,
                };
                match r {
                    Some(kept) => finished(*self, style, (nodes, expanded as nat)) == Some(kept@),
                    None => finished(*self, style, (nodes, expanded as nat)) is None,
                }
            }),
    {
        proof {
            lemma_wf_bounds(*self);
        }
        let nodes = match found {
            Some(nodes) => nodes,
            None => {
                return None;
            },
        };
        if expanded > MAX_NODES_EXPANDED {
            return None;
        }
        let mut cells: Vec<(u32, u32)> = Vec::new();
        let mut i: usize = 0;
        while i < nodes.len()
            invariant
                i <= nodes@.len(),
                cells@ == unpacked(nodes@).take(i as int),
            decreases nodes@.len() - i,
        {
            let n = nodes[i];
            cells.push(((n % 0x1_0000_0000) as u32, (n / 0x1_0000_0000) as u32));
            i += 1;
            assert(unpacked(nodes@).take(i as int) =~= unpacked(nodes@).take(i - 1).push(
                unpacked(nodes@)[i - 1],
            ));
        }
        proof {
            assert(unpacked(nodes@).take(i as int) =~= unpacked(nodes@));
            assert forall|k: int| 0 <= k < cells@.len() implies self.in_grid(
                (#[trigger] cells@[k]).0 as int,
                cells@[k].1 as int,
            ) by {
                assert(self.in_grid(column(nodes@[k]), row(nodes@[k])));
            }
        }
        Some(self.simplify_los(cells, style))
    }

    /// A way from one cell to another. Each end is taken to be the nearest
    /// open cell; there is no way where an end has none near, where the two are
    /// cut off from each other, or where the search asks for too many nodes.
    pub fn path(&self, from: (u32, u32), to: (u32, u32), style: TravelStyle) -> (r: Option<CellRoute>)
        requires
            self.wf(),
            self.in_grid(from.0 as int, from.1 as int),
            self.in_grid(to.0 as int, to.1 as int),
        ensures
            answers(*self, style, from, to, r),
    {
        proof {
            lemma_wf_bounds(*self);
        }
        let start = match self.snap_to_traversable(from.0, from.1) {
            Some(c) => c,
            None => {
                proof {
                    assert forall|x: int, z: int|
                        !snaps_to(*self, from.0 as int, from.1 as int, x, z) by {
                        assert(!stands_in(*self, from.0 as int, from.1 as int, x, z));
                    }
                }
                return None;
            },
        };
        let goal = match self.snap_to_traversable(to.0, to.1) {
            Some(c) => c,
            None => {
                proof {
                    assert forall|x: int, z: int|
                        !snaps_to(*self, to.0 as int, to.1 as int, x, z) by {
                        assert(!stands_in(*self, to.0 as int, to.1 as int, x, z));
                    }
                }
                return None;
            },
        };
        proof {
            assert(stands_in(*self, from.0 as int, from.1 as int, start.0 as int, start.1 as int));
            assert(stands_in(*self, to.0 as int, to.1 as int, goal.0 as int, goal.1 as int));
            assert forall|x: int, z: int|
                #[trigger] snaps_to(*self, from.0 as int, from.1 as int, x, z) implies x == start.0
                && z == start.1 by {
                law_snap_is_unique(
                    *self,
                    from.0 as int,
                    from.1 as int,
                    x,
                    z,
                    start.0 as int,
                    start.1 as int,
                );
            }
            assert forall|x: int, z: int|
                #[trigger] snaps_to(*self, to.0 as int, to.1 as int, x, z) implies x == goal.0 && z
                == goal.1 by {
                law_snap_is_unique(
                    *self,
                    to.0 as int,
                    to.1 as int,
                    x,
                    z,
                    goal.0 as int,
                    goal.1 as int,
                );
            }
        }
        if start.0 == goal.0 && start.1 == goal.1 {
            return Some(CellRoute::Here);
        }
        let space = GridSpace { grid: self, style, goal };
        let a = pack(start.0, start.1);
        let b = pack(goal.0, goal.1);
        proof {
            law_guesses_nearly_admissible(space, b);
            lemma_grid_nodes(space);
        }
        let (found, expanded) = astar_route(&space, a, b, MAX_NODES_EXPANDED);
        proof {
            if found is Some {
                let nodes = found->0;
                let costs = choose|costs: Seq<u32>| #[trigger]
                    is_route(&space, a, b, nodes@, costs) && nodes@.no_duplicates() && (expanded
                        <= MAX_NODES_EXPANDED ==> forall|slack: int| #[trigger]
                        guesses_within(&space, b, slack) ==> nearly_cheapest(
                            &space,
                            a,
                            b,
                            costs,
                            slack,
                        ));
                assert forall|k: int| 0 <= k < nodes@.len() implies self.in_grid(
                    column(#[trigger] nodes@[k]),
                    row(nodes@[k]),
                ) by {
                    lemma_route_in_grid(space, a, b, nodes@, costs, k);
                }
            }
        }
        match self.finish_route(found, expanded, style) {
            Some(kept) => Some(CellRoute::Through(kept)),
            None => None,
        }
    }
}

/// A search that asked for more than 5000 nodes, or found nothing, comes to
/// nothing; any other gives what simplifying leaves of what it found.
pub proof fn law_long_searches_give_up(
    grid: GridNavQuery,
    style: TravelStyle,
    nodes: Seq<u64>,
    asked: nat,
)
    ensures
        asked > 5000 ==> finished(grid, style, (Some(nodes), asked)) is None,
        finished(grid, style, (None, asked)) is None,
        asked <= 5000 ==> finished(grid, style, (Some(nodes), asked)) == Some(
            simplified(grid, style, unpacked(nodes)),
        ),
{
}

/// A way to a cell is guessed to cost half of what the straightest way over
/// plain ground does: as many steps as the greater of the two distances, and 41
/// more for each that goes along both axes.
pub proof fn law_guesses_are_half_the_straight_way(space: GridSpace, n: u64, dx: int, dz: int)
    requires
        dx >= 0,
        dz >= 0,
        column(n) == space.goal.0 + dx || column(n) == space.goal.0 - dx,
        row(n) == space.goal.1 + dz || row(n) == space.goal.1 - dz,
    ensures
        dx >= dz ==> space.estimate(n) == (100 * dx + 41 * dz) / 2,
        dx <= dz ==> space.estimate(n) == (100 * dz + 41 * dx) / 2,
{
}

/// A cell comes back from the number that stands for it.
pub proof fn law_cells_pack_and_unpack(cx: int, cz: int, n: u64)
    requires
        0 <= cx <= u32::MAX,
        0 <= cz <= u32::MAX,
    ensures
        column(packed(cx, cz)) == cx,
        row(packed(cx, cz)) == cz,
        packed(column(n), row(n)) == n,
        unpacked(seq![packed(cx, cz)]) == seq![(cx as u32, cz as u32)],
{
    assert(unpacked(seq![packed(cx, cz)]) =~= seq![(cx as u32, cz as u32)]);
}

/// Who asks for the way to where they are is there, and there alone; there is
/// no way from or to a place with no open cell within three of it.
pub proof fn law_who_is_there_is_there(
    grid: GridNavQuery,
    style: TravelStyle,
    from: (u32, u32),
    to: (u32, u32),
    r: Option<CellRoute>,
)
    requires
        grid.wf(),
        answers(grid, style, from, to, r),
    ensures
        grid.open_at(from.0 as int, from.1 as int) && grid.open_at(to.0 as int, to.1 as int) ==> ((
        r matches Some(CellRoute::Here)) <==> from == to),
        (forall|x: int, z: int|
            -3 <= x - from.0 <= 3 && -3 <= z - from.1 <= 3 ==> !#[trigger] grid.open_at(x, z)) ==> r
            is None,
        (forall|x: int, z: int|
            -3 <= x - to.0 <= 3 && -3 <= z - to.1 <= 3 ==> !#[trigger] grid.open_at(x, z)) ==> r
            is None,
{
    if grid.open_at(from.0 as int, from.1 as int) && grid.open_at(to.0 as int, to.1 as int) {
        law_open_cell_snaps_to_itself(grid, from.0 as int, from.1 as int);
        law_open_cell_snaps_to_itself(grid, to.0 as int, to.1 as int);
        assert(is_way(grid, style, from, to, r));
    }
    if forall|x: int, z: int|
        -3 <= x - from.0 <= 3 && -3 <= z - from.1 <= 3 ==> !#[trigger] grid.open_at(x, z) {
        assert forall|x: int, z: int| !#[trigger] stands_in(
            grid,
            from.0 as int,
            from.1 as int,
            x,
            z,
        ) by {
            law_stand_ins_are_near(grid, from.0 as int, from.1 as int, x, z);
        }
    }
    if forall|x: int, z: int|
        -3 <= x - to.0 <= 3 && -3 <= z - to.1 <= 3 ==> !#[trigger] grid.open_at(x, z) {
        assert forall|x: int, z: int| !#[trigger] stands_in(
            grid,
            to.0 as int,
            to.1 as int,
            x,
            z,
        ) by {
            law_stand_ins_are_near(grid, to.0 as int, to.1 as int, x, z);
        }
    }
}

/// The way that is left after simplifying begins and ends where it was to.
pub proof fn law_ways_keep_their_ends(
    grid: GridNavQuery,
    style: TravelStyle,
    from: (u32, u32),
    to: (u32, u32),
    kept: Seq<(u32, u32)>,
)
    requires
        leads(grid, style, from, to, kept),
    ensures
        kept.len() > 0,
        kept[0] == from,
        kept.last() == to,
{
    let space = GridSpace { grid: &grid, style, goal: to };
    let a = packed(from.0 as int, from.1 as int);
    let b = packed(to.0 as int, to.1 as int);
    let (nodes, costs) = choose|nodes: Seq<u64>, costs: Seq<u32>| #[trigger]
        is_route(&space, a, b, nodes, costs) && nodes.no_duplicates() && nearly_cheapest(
            &space,
            a,
            b,
            costs,
            guess_slack(grid, style),
        ) && kept == simplified(grid, style, unpacked(nodes));
    law_simplified_is_settled(grid, style, unpacked(nodes));
    law_cells_pack_and_unpack(from.0 as int, from.1 as int, a);
    law_cells_pack_and_unpack(to.0 as int, to.1 as int, b);
    assert(unpacked(nodes)[0] == from);
    assert(unpacked(nodes).last() == to);
}

} // verus!
