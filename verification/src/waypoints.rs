//! A sparse graph of waypoints over a grid of cells.
use std::collections::VecDeque;

use vstd::prelude::*;

use crate::astar::{
    astar_of, astar_route, guess_map, guesses_within, is_route, nearly_cheapest, step_map, total,
    Space,
};
use crate::float_bits::F32Bits;
use crate::nav::{
    cell_place, lemma_place_in_range, lemma_wf_bounds, GridNavQuery, TravelStyle, MAX_GRID_SIDE,
};
use crate::nav_path::{
    apart, clear, direction, direction_of, line, line_rest, line_walkable, stray, toward,
    walkable_line,
};

verus! {

/// Waypoints and the ways between them.
#[derive(Clone, Debug)]
pub struct WaypointGraph {
    /// The cells of the waypoints.
    pub nodes: Vec<(u32, u32)>,
    /// For every waypoint those that one can go to, with what that costs.
    pub edges: Vec<Vec<(u32, u32)>>,
}

impl Default for WaypointGraph {
    fn default() -> (r: Self)
        ensures
            r.nodes@.len() == 0,
            r.edges@.len() == 0,
    {
        WaypointGraph { nodes: Vec::new(), edges: Vec::new() }
    }
}

/// The cell is open and lies on the sampling pattern.
pub open spec fn is_sample(grid: GridNavQuery, stride: u32, cx: int, cz: int) -> bool {
    grid.open_at(cx, cz) && cx % (stride as int) == 0 && cz % (stride as int) == 0
}

/// The first cell comes before the second, row by row.
pub open spec fn row_major(a: (u32, u32), b: (u32, u32)) -> bool {
    a.1 < b.1 || (a.1 == b.1 && a.0 < b.0)
}

/// The waypoints are the sampled cells, row by row.
pub open spec fn samples_grid(grid: GridNavQuery, stride: u32, nodes: Seq<(u32, u32)>) -> bool {
    &&& forall|i: int|
        0 <= i < nodes.len() ==> is_sample(
            grid,
            stride,
            (#[trigger] nodes[i]).0 as int,
            nodes[i].1 as int,
        )
    &&& forall|i: int, j: int|
        0 <= i < j < nodes.len() ==> row_major(#[trigger] nodes[i], #[trigger] nodes[j])
    &&& forall|cx: u32, cz: u32| #[trigger]
        is_sample(grid, stride, cx as int, cz as int) ==> nodes.contains((cx, cz))
}

/// What the way in the `k`-th direction costs.
pub open spec fn way_cost(k: int, ortho: u32, diag: u32) -> u32 {
    if direction(k).0 != 0 && direction(k).1 != 0 {
        diag
    } else {
        ortho
    }
}

/// One can go from the waypoint in the `k`-th direction to the next.
pub open spec fn has_way(grid: GridNavQuery, stride: u32, cx: int, cz: int, k: int) -> bool {
    let nx = cx + direction(k).0 * stride;
    let nz = cz + direction(k).1 * stride;
    is_sample(grid, stride, nx, nz) && line_walkable(grid, cx, cz, nx, nz)
}

/// The ways from the waypoint at `(cx, cz)` in the first `upto` directions.
pub open spec fn ways(
    grid: GridNavQuery,
    stride: u32,
    ortho: u32,
    diag: u32,
    nodes: Seq<(u32, u32)>,
    cx: int,
    cz: int,
    upto: int,
) -> Seq<(u32, u32)>
    decreases upto,
{
    if upto <= 0 {
        Seq::empty()
    } else {
        let before = ways(grid, stride, ortho, diag, nodes, cx, cz, upto - 1);
        let nx = cx + direction(upto - 1).0 * stride;
        let nz = cz + direction(upto - 1).1 * stride;
        if has_way(grid, stride, cx, cz, upto - 1) {
            before.push(
                (
                    nodes.index_of((nx as u32, nz as u32)) as u32,
                    way_cost(upto - 1, ortho, diag),
                ),
            )
        } else {
            before
        }
    }
}

/// In a list that is ordered row by row a cell has one place.
proof fn lemma_index_of(nodes: Seq<(u32, u32)>, j: int)
    requires
        forall|i: int, j: int|
            0 <= i < j < nodes.len() ==> row_major(#[trigger] nodes[i], #[trigger] nodes[j]),
        0 <= j < nodes.len(),
    ensures
        nodes.index_of(nodes[j]) == j,
{
    let i = nodes.index_of(nodes[j]);
    assert(0 <= i < nodes.len() && nodes[i] == nodes[j]);
    if i < j {
        assert(row_major(nodes[i], nodes[j]));
    } else if j < i {
        assert(row_major(nodes[j], nodes[i]));
    }
}

/// What is known of a cell once it was sampled: the number of its waypoint,
/// if it has one.
spec fn numbered(
    grid: GridNavQuery,
    stride: u32,
    nodes: Seq<(u32, u32)>,
    entry: Option<u32>,
    cx: int,
    cz: int,
) -> bool {
    match entry {
        Some(j) => j < nodes.len() && nodes[j as int] == (cx as u32, cz as u32) && is_sample(
            grid,
            stride,
            cx,
            cz,
        ),
        None => !is_sample(grid, stride, cx, cz),
    }
}

impl WaypointGraph {
    /// Every waypoint has a list of ways, and every way leads to a waypoint.
    pub open spec fn wf(self) -> bool {
        &&& self.edges@.len() == self.nodes@.len()
        &&& self.nodes@.len() <= u32::MAX
        &&& forall|i: int, k: int|
            0 <= i < self.edges@.len() && 0 <= k < self.edges@[i]@.len()
                ==> (#[trigger] self.edges@[i]@[k]).0 < self.nodes@.len()
    }

    /// Numbers the sampled cells, row by row. Returns them with a table that
    /// gives the number of every cell that has one.
    fn sample_nodes(grid: &GridNavQuery, stride: u32) -> (r: (Vec<(u32, u32)>, Vec<Option<u32>>))
        requires
            grid.wf(),
            stride >= 1,
            grid.w() * grid.h() <= u32::MAX,
        ensures
            samples_grid(*grid, stride, r.0@),
            r.0@.len() <= u32::MAX,
            r.1@.len() == grid.w() * grid.h(),
            forall|x: int, z: int|
                grid.in_grid(x, z) ==> #[trigger] numbered(
                    *grid,
                    stride,
                    r.0@,
                    r.1@[cell_place(grid.w(), x, z)],
                    x,
                    z,
                ),
    {
        proof {
            lemma_wf_bounds(*grid);
        }
        let (w, h) = grid.dims();
        let mut nodes: Vec<(u32, u32)> = Vec::new();
        let mut at: Vec<Option<u32>> = Vec::new();
        let mut cz: u32 = 0;
        assert(cell_place(w as int, 0, 0) == 0);
        while cz < h
            invariant
                grid.wf(),
                w == grid.w() && h == grid.h(),
                w <= MAX_GRID_SIDE && h <= MAX_GRID_SIDE,
                forall|x: int, z: int| #[trigger] grid.open_at(x, z) ==> grid.in_grid(x, z),
                w * h <= u32::MAX,
                stride >= 1,
                cz <= h,
                at@.len() == cell_place(w as int, 0, cz as int),
                nodes@.len() <= at@.len(),
                forall|i: int|
                    0 <= i < nodes@.len() ==> is_sample(
                        *grid,
                        stride,
                        (#[trigger] nodes@[i]).0 as int,
                        nodes@[i].1 as int,
                    ) && nodes@[i].1 < cz,
                forall|i: int, j: int|
                    0 <= i < j < nodes@.len() ==> row_major(#[trigger] nodes@[i], #[trigger] nodes@[j]),
                forall|x: int, z: int|
                    grid.in_grid(x, z) && z < cz ==> #[trigger] numbered(
                        *grid,
                        stride,
                        nodes@,
                        at@[cell_place(w as int, x, z)],
                        x,
                        z,
                    ),
            decreases h - cz,
        {
            let mut cx: u32 = 0;
            while cx < w
                invariant
                    grid.wf(),
                    w == grid.w() && h == grid.h(),
                    w <= MAX_GRID_SIDE && h <= MAX_GRID_SIDE,
                    forall|x: int, z: int| #[trigger] grid.open_at(x, z) ==> grid.in_grid(x, z),
                    w * h <= u32::MAX,
                    stride >= 1,
                    cz < h,
                    cx <= w,
                    at@.len() == cell_place(w as int, cx as int, cz as int),
                    nodes@.len() <= at@.len(),
                    forall|i: int|
                        0 <= i < nodes@.len() ==> is_sample(
                            *grid,
                            stride,
                            (#[trigger] nodes@[i]).0 as int,
                            nodes@[i].1 as int,
                        ) && (nodes@[i].1 < cz || (nodes@[i].1 == cz && nodes@[i].0 < cx)),
                    forall|i: int, j: int|
                        0 <= i < j < nodes@.len() ==> row_major(
                            #[trigger] nodes@[i],
                            #[trigger] nodes@[j],
                        ),
                    forall|x: int, z: int|
                        grid.in_grid(x, z) && (z < cz || (z == cz && x < cx)) ==> #[trigger] numbered(
                            *grid,
                            stride,
                            nodes@,
                            at@[cell_place(w as int, x, z)],
                            x,
                            z,
                        ),
                decreases w - cx,
            {
                let ghost n0 = nodes@;
                let ghost a0 = at@;
                proof {
                    lemma_place_in_range(w as int, h as int, cx as int, cz as int);
                }
                if cx % stride == 0 && cz % stride == 0 && grid.passable(cx, cz) {
                    let number: u32 = nodes.len() as u32;
                    nodes.push((cx, cz));
                    at.push(Some(number));
                } else {
                    at.push(None);
                }
                proof {
                    assert forall|x: int, z: int|
                        grid.in_grid(x, z) && (z < cz || (z == cz && x < cx + 1)) implies #[trigger] numbered(
                        *grid,
                        stride,
                        nodes@,
                        at@[cell_place(w as int, x, z)],
                        x,
                        z,
                    ) by {
                        if !(z == cz && x == cx) {
                            assert(numbered(
                                *grid,
                                stride,
                                n0,
                                a0[cell_place(w as int, x, z)],
                                x,
                                z,
                            ));
                            lemma_place_in_range(w as int, cz as int + 1, x, z);
                            lemma_place_order(w as int, x, z, cx as int, cz as int);
                        }
                    }
                }
                cx += 1;
            }
            proof {
                assert(cell_place(w as int, w as int, cz as int) == cell_place(
                    w as int,
                    0,
                    cz + 1,
                )) by (nonlinear_arith);
            }
            cz += 1;
        }
        proof {
            assert(cell_place(w as int, 0, h as int) == w * h) by (nonlinear_arith);
            assert forall|cx: u32, cz: u32| #[trigger]
                is_sample(*grid, stride, cx as int, cz as int) implies nodes@.contains((cx, cz)) by {
                assert(numbered(
                    *grid,
                    stride,
                    nodes@,
                    at@[cell_place(w as int, cx as int, cz as int)],
                    cx as int,
                    cz as int,
                ));
                let j = at@[cell_place(w as int, cx as int, cz as int)]->0;
                assert(nodes@[j as int] == (cx, cz));
            }
        }
        (nodes, at)
    }

    /// The graph of a grid: a waypoint on every open cell whose column and row
    /// are multiples of `stride`, and a way between two that are next to each
    /// other on that pattern where the straight line between them is open.
    pub fn build_from_grid(grid: &GridNavQuery, stride: u32, ortho: u32, diag: u32) -> (r: Self)
        requires
            grid.wf(),
            stride >= 1,
            grid.w() * grid.h() <= u32::MAX,
        ensures
            r.wf(),
            samples_grid(*grid, stride, r.nodes@),
            forall|i: int|
                0 <= i < r.nodes@.len() ==> (#[trigger] r.edges@[i])@ == ways(
                    *grid,
                    stride,
                    ortho,
                    diag,
                    r.nodes@,
                    r.nodes@[i].0 as int,
                    r.nodes@[i].1 as int,
                    8,
                ),
    {
        proof {
            lemma_wf_bounds(*grid);
        }
        let (w, h) = grid.dims();
        let (nodes, at) = WaypointGraph::sample_nodes(grid, stride);
        let mut edges: Vec<Vec<(u32, u32)>> = Vec::new();
        let mut i: usize = 0;
        while i < nodes.len()
            invariant
                grid.wf(),
                w == grid.w() && h == grid.h(),
                w <= MAX_GRID_SIDE && h <= MAX_GRID_SIDE,
                forall|x: int, z: int| #[trigger] grid.open_at(x, z) ==> grid.in_grid(x, z),
                stride >= 1,
                samples_grid(*grid, stride, nodes@),
                nodes@.len() <= u32::MAX,
                at@.len() == w * h,
                forall|x: int, z: int|
                    grid.in_grid(x, z) ==> #[trigger] numbered(
                        *grid,
                        stride,
                        nodes@,
                        at@[cell_place(w as int, x, z)],
                        x,
                        z,
                    ),
                i <= nodes@.len(),
                edges@.len() == i,
                forall|e: int|
                    0 <= e < i ==> (#[trigger] edges@[e])@ == ways(
                        *grid,
                        stride,
                        ortho,
                        diag,
                        nodes@,
                        nodes@[e].0 as int,
                        nodes@[e].1 as int,
                        8,
                    ),
                forall|e: int, k: int|
                    0 <= e < i && 0 <= k < edges@[e]@.len() ==> (#[trigger] edges@[e]@[k]).0
                        < nodes@.len(),
            decreases nodes@.len() - i,
        {
            let from = nodes[i];
            assert(is_sample(*grid, stride, nodes@[i as int].0 as int, nodes@[i as int].1 as int));
            let mut out: Vec<(u32, u32)> = Vec::new();
            let mut k: usize = 0;
            while k < 8
                invariant
                    grid.wf(),
                    w == grid.w() && h == grid.h(),
                    w <= MAX_GRID_SIDE && h <= MAX_GRID_SIDE,
                    forall|x: int, z: int| #[trigger] grid.open_at(x, z) ==> grid.in_grid(x, z),
                    stride >= 1,
                    samples_grid(*grid, stride, nodes@),
                    nodes@.len() <= u32::MAX,
                    at@.len() == w * h,
                    forall|x: int, z: int|
                        grid.in_grid(x, z) ==> #[trigger] numbered(
                            *grid,
                            stride,
                            nodes@,
                            at@[cell_place(w as int, x, z)],
                            x,
                            z,
                        ),
                    is_sample(*grid, stride, from.0 as int, from.1 as int),
                    k <= 8,
                    out@ == ways(
                        *grid,
                        stride,
                        ortho,
                        diag,
                        nodes@,
                        from.0 as int,
                        from.1 as int,
                        k as int,
                    ),
                    forall|e: int| 0 <= e < out@.len() ==> (#[trigger] out@[e]).0 < nodes@.len(),
                decreases 8 - k,
            {
                let d = direction_of(k);
                let s: i64 = stride as i64;
                let step_x: i64 = if d.0 < 0 { -s } else if d.0 > 0 { s } else { 0 };
                let step_z: i64 = if d.1 < 0 { -s } else if d.1 > 0 { s } else { 0 };
                proof {
                    let dir = direction(k as int);
                    assert(dir.0 * stride == step_x && dir.1 * stride == step_z)
                        by (nonlinear_arith)
                        requires
                            dir.0 == -1 || dir.0 == 0 || dir.0 == 1,
                            dir.1 == -1 || dir.1 == 0 || dir.1 == 1,
                            step_x == (if dir.0 < 0 {
                                -(stride as int)
                            } else if dir.0 > 0 {
                                stride as int
                            } else {
                                0
                            }),
                            step_z == (if dir.1 < 0 {
                                -(stride as int)
                            } else if dir.1 > 0 {
                                stride as int
                            } else {
                                0
                            }),
                    ;
                }
                let nx: i64 = from.0 as i64 + step_x;
                let nz: i64 = from.1 as i64 + step_z;
                let ghost was = out@;
                if nx >= 0 && nz >= 0 && nx < w as i64 && nz < h as i64 {
                    proof {
                        lemma_place_in_range(w as int, h as int, nx as int, nz as int);
                        assert(numbered(
                            *grid,
                            stride,
                            nodes@,
                            at@[cell_place(w as int, nx as int, nz as int)],
                            nx as int,
                            nz as int,
                        ));
                    }
                    let n: usize = at.len();
                    let place: usize = (nz as usize) * (w as usize) + nx as usize;
                    if let Some(number) = at[place] {
                        if walkable_line(grid, from, (nx as u32, nz as u32)) {
                            let cost: u32 = if d.0 != 0 && d.1 != 0 { diag } else { ortho };
                            proof {
                                lemma_index_of(nodes@, number as int);
                            }
                            out.push((number, cost));
                        }
                    }
                }
                k += 1;
            }
            edges.push(out);
            i += 1;
        }
        WaypointGraph { nodes, edges }
    }
}

proof fn lemma_place_order(w: int, x: int, z: int, cx: int, cz: int)
    requires
        0 <= x < w,
        0 <= cx < w,
        z < cz || (z == cz && x < cx),
    ensures
        cell_place(w, x, z) < cell_place(w, cx, cz),
{
    if z < cz {
        assert(z * w + w <= cz * w) by (nonlinear_arith)
            requires
                z + 1 <= cz,
                0 < w,
        ;
    }
}

/// The rest of a line along a row, a column or a diagonal after `i` steps.
spec fn even_rest(ax: int, az: int, bx: int, bz: int, i: int) -> Seq<(int, int)> {
    line_rest(
        ax,
        az,
        bx,
        bz,
        if ax == bx {
            0
        } else {
            i
        },
        if az == bz {
            0
        } else {
            i
        },
    )
}

/// The place reached after `n` steps towards `b`, where there is any way to
/// go.
spec fn even_place(a: int, b: int, n: int) -> int {
    if a < b {
        a + n
    } else if a > b {
        a - n
    } else {
        a
    }
}

/// How many steps a line along a row, a column or a diagonal takes.
spec fn even_steps(ax: int, az: int, bx: int, bz: int) -> int {
    if apart(ax, bx) > apart(az, bz) {
        apart(ax, bx)
    } else {
        apart(az, bz)
    }
}

/// The line along a row, a column or a diagonal takes the cells in between in
/// order.
proof fn lemma_even_line(ax: int, az: int, bx: int, bz: int, i: int)
    requires
        ax == bx || az == bz || apart(ax, bx) == apart(az, bz),
        !(ax == bx && az == bz),
        0 <= i <= even_steps(ax, az, bx, bz),
    ensures
        even_rest(ax, az, bx, bz, i).len() == even_steps(ax, az, bx, bz) - i + 1,
        forall|k: int|
            0 <= k < even_rest(ax, az, bx, bz, i).len() ==> #[trigger] even_rest(
                ax,
                az,
                bx,
                bz,
                i,
            )[k] == (even_place(ax, bx, i + k), even_place(az, bz, i + k)),
    decreases even_steps(ax, az, bx, bz) - i,
{
    let dx = apart(ax, bx);
    let dz = apart(az, bz);
    let ii = if ax == bx { 0 } else { i };
    let jj = if az == bz { 0 } else { i };
    let cell = (ax + toward(ax, bx) * ii, az + toward(az, bz) * jj);
    assert(toward(ax, bx) * ii == if ax < bx { ii } else { -ii }) by (nonlinear_arith);
    assert(toward(az, bz) * jj == if az < bz { jj } else { -jj }) by (nonlinear_arith);
    let l = even_rest(ax, az, bx, bz, i);
    if i < even_steps(ax, az, bx, bz) {
        if dz == 0 {
            assert(stray(dx, dz, ii, jj) == dx) by {
                assert(dx * (0 + 1) - 0 * (ii + 1) == dx) by (nonlinear_arith);
            }
        } else if dx == 0 {
            assert(stray(dx, dz, ii, jj) == -dz) by {
                assert(0 * (jj + 1) - dz * (0 + 1) == -dz) by (nonlinear_arith);
            }
        } else {
            assert(stray(dx, dz, ii, jj) == 0);
        }
        lemma_even_line(ax, az, bx, bz, i + 1);
        let rest = even_rest(ax, az, bx, bz, i + 1);
        assert(l == seq![cell] + rest);
        assert forall|k: int| 0 <= k < l.len() implies #[trigger] l[k] == (
            even_place(ax, bx, i + k),
            even_place(az, bz, i + k),
        ) by {
            if k > 0 {
                assert(l[k] == rest[k - 1]);
            }
        }
    } else {
        assert(l == seq![cell]);
    }
}

/// A straight, upright or diagonal line is open one way iff it is open the
/// other way.
proof fn lemma_even_line_walks_back(grid: GridNavQuery, ax: int, az: int, bx: int, bz: int)
    requires
        ax == bx || az == bz || apart(ax, bx) == apart(az, bz),
        !(ax == bx && az == bz),
        line_walkable(grid, ax, az, bx, bz),
    ensures
        line_walkable(grid, bx, bz, ax, az),
{
    lemma_even_line(ax, az, bx, bz, 0);
    lemma_even_line(bx, bz, ax, az, 0);
    let there = even_rest(ax, az, bx, bz, 0);
    let back = even_rest(bx, bz, ax, az, 0);
    assert(there == line(ax, az, bx, bz));
    assert(back == line(bx, bz, ax, az));
    assert(clear(grid, TravelStyle::Bushwhacker, None, there));
    assert forall|k: int| 0 <= k < back.len() implies grid.open_at(
        (#[trigger] back[k]).0,
        back[k].1,
    ) by {
        let m = there.len() - 1 - k;
        assert(there[m] == back[k]);
        assert(grid.open_at(there[m].0, there[m].1));
    }
}

/// The direction opposite to the `k`-th.
spec fn opposite(k: int) -> int {
    7 - k
}

/// A way in the list comes from one of the directions.
proof fn lemma_ways(
    grid: GridNavQuery,
    stride: u32,
    ortho: u32,
    diag: u32,
    nodes: Seq<(u32, u32)>,
    cx: int,
    cz: int,
    upto: int,
)
    requires
        0 <= upto <= 8,
    ensures
        forall|t: int|
            0 <= t < ways(grid, stride, ortho, diag, nodes, cx, cz, upto).len() ==> exists|k: int|
                #![trigger direction(k)]
                0 <= k < upto && has_way(grid, stride, cx, cz, k) && (#[trigger] ways(
                    grid,
                    stride,
                    ortho,
                    diag,
                    nodes,
                    cx,
                    cz,
                    upto,
                )[t]) == (
                    nodes.index_of(
                        (
                            (cx + direction(k).0 * stride) as u32,
                            (cz + direction(k).1 * stride) as u32,
                        ),
                    ) as u32,
                    way_cost(k, ortho, diag),
                ),
        forall|k: int|
            0 <= k < upto && has_way(grid, stride, cx, cz, k) ==> ways(
                grid,
                stride,
                ortho,
                diag,
                nodes,
                cx,
                cz,
                upto,
            ).contains(
                (
                    nodes.index_of(
                        (
                            (cx + direction(k).0 * stride) as u32,
                            (cz + (#[trigger] direction(k)).1 * stride) as u32,
                        ),
                    ) as u32,
                    way_cost(k, ortho, diag),
                ),
            ),
    decreases upto,
{
    if upto > 0 {
        lemma_ways(grid, stride, ortho, diag, nodes, cx, cz, upto - 1);
        let before = ways(grid, stride, ortho, diag, nodes, cx, cz, upto - 1);
        let all = ways(grid, stride, ortho, diag, nodes, cx, cz, upto);
        assert forall|t: int| 0 <= t < all.len() implies exists|k: int|
            #![trigger direction(k)]
            0 <= k < upto && has_way(grid, stride, cx, cz, k) && (#[trigger] all[t]) == (
                nodes.index_of(
                    (
                        (cx + direction(k).0 * stride) as u32,
                        (cz + direction(k).1 * stride) as u32,
                    ),
                ) as u32,
                way_cost(k, ortho, diag),
            ) by {
            if t < before.len() {
                assert(all[t] == before[t]);
                let k = choose|k: int|
                    #![trigger direction(k)]
                    0 <= k < upto - 1 && has_way(grid, stride, cx, cz, k) && before[t] == (
                        nodes.index_of(
                            (
                                (cx + direction(k).0 * stride) as u32,
                                (cz + direction(k).1 * stride) as u32,
                            ),
                        ) as u32,
                        way_cost(k, ortho, diag),
                    );
                assert(0 <= k < upto && direction(k) == direction(k));
            } else {
                assert(direction(upto - 1) == direction(upto - 1));
            }
        }
        assert forall|k: int| 0 <= k < upto && has_way(grid, stride, cx, cz, k) implies all.contains(
            (
                nodes.index_of(
                    (
                        (cx + direction(k).0 * stride) as u32,
                        (cz + (#[trigger] direction(k)).1 * stride) as u32,
                    ),
                ) as u32,
                way_cost(k, ortho, diag),
            ),
        ) by {
            let e = (
                nodes.index_of(
                    (
                        (cx + direction(k).0 * stride) as u32,
                        (cz + direction(k).1 * stride) as u32,
                    ),
                ) as u32,
                way_cost(k, ortho, diag),
            );
            if k < upto - 1 {
                assert(before.contains(e));
                let t = choose|t: int| 0 <= t < before.len() && before[t] == e;
                assert(all[t] == e);
            } else {
                assert(all[all.len() - 1] == e);
            }
        }
    }
}

/// Ways go both ways: where one leads from a waypoint to another, one of the
/// same cost leads back.
pub proof fn law_ways_go_both_ways(
    grid: GridNavQuery,
    stride: u32,
    ortho: u32,
    diag: u32,
    nodes: Seq<(u32, u32)>,
    i: int,
    t: int,
)
    requires
        grid.wf(),
        stride >= 1,
        nodes.len() <= u32::MAX,
        samples_grid(grid, stride, nodes),
        0 <= i < nodes.len(),
        0 <= t < ways(
            grid,
            stride,
            ortho,
            diag,
            nodes,
            nodes[i].0 as int,
            nodes[i].1 as int,
            8,
        ).len(),
    ensures
        ({
            let there = ways(
                grid,
                stride,
                ortho,
                diag,
                nodes,
                nodes[i].0 as int,
                nodes[i].1 as int,
                8,
            )[t];
            let j = there.0 as int;
            &&& 0 <= j < nodes.len()
            &&& ways(
                grid,
                stride,
                ortho,
                diag,
                nodes,
                nodes[j].0 as int,
                nodes[j].1 as int,
                8,
            ).contains((i as u32, there.1))
        }),
{
    lemma_wf_bounds(grid);
    let cx = nodes[i].0 as int;
    let cz = nodes[i].1 as int;
    lemma_ways(grid, stride, ortho, diag, nodes, cx, cz, 8);
    let list = ways(grid, stride, ortho, diag, nodes, cx, cz, 8);
    let k = choose|k: int|
        #![trigger direction(k)]
        0 <= k < 8 && has_way(grid, stride, cx, cz, k) && list[t] == (
            nodes.index_of(
                ((cx + direction(k).0 * stride) as u32, (cz + direction(k).1 * stride) as u32),
            ) as u32,
            way_cost(k, ortho, diag),
        );
    let nx = cx + direction(k).0 * stride;
    let nz = cz + direction(k).1 * stride;
    assert(is_sample(grid, stride, nx, nz));
    assert(is_sample(grid, stride, nx as u32 as int, nz as u32 as int));
    assert(nodes.contains((nx as u32, nz as u32)));
    let j = nodes.index_of((nx as u32, nz as u32));
    assert(0 <= j < nodes.len() && nodes[j] == (nx as u32, nz as u32));
    let o = opposite(k);
    assert(direction(o).0 == -direction(k).0 && direction(o).1 == -direction(k).1);
    let s = stride as int;
    assert(direction(o).0 * s == -(direction(k).0 * s)) by (nonlinear_arith)
        requires
            direction(o).0 == -direction(k).0,
    ;
    assert(direction(o).1 * s == -(direction(k).1 * s)) by (nonlinear_arith)
        requires
            direction(o).1 == -direction(k).1,
    ;
    let dir = direction(k);
    assert(apart(cx, nx) == (if dir.0 == 0 {
        0
    } else {
        s
    }) && apart(cz, nz) == (if dir.1 == 0 {
        0
    } else {
        s
    })) by (nonlinear_arith)
        requires
            dir.0 == -1 || dir.0 == 0 || dir.0 == 1,
            dir.1 == -1 || dir.1 == 0 || dir.1 == 1,
            s >= 1,
            nx == cx + dir.0 * s,
            nz == cz + dir.1 * s,
    ;
    assert(is_sample(grid, stride, cx, cz));
    lemma_even_line_walks_back(grid, cx, cz, nx, nz);
    assert(has_way(grid, stride, nx, nz, o));
    lemma_ways(grid, stride, ortho, diag, nodes, nx, nz, 8);
    lemma_index_of(nodes, i);
    assert(ways(grid, stride, ortho, diag, nodes, nx, nz, 8).contains(
        (
            nodes.index_of(
                ((nx + direction(o).0 * stride) as u32, (nz + direction(o).1 * stride) as u32),
            ) as u32,
            way_cost(o, ortho, diag),
        ),
    ));
}

/// The place of the least of the first `n` distances: a place is kept as long
/// as each later distance is at least as great, and given up for one that is
/// not.
pub open spec fn nearest_of(d: Seq<F32Bits>, n: int) -> int
    decreases n,
{
    if n <= 1 {
        0
    } else if d[nearest_of(d, n - 1)].at_most(d[n - 1]) {
        nearest_of(d, n - 1)
    } else {
        n - 1
    }
}

/// Where every distance is a number, none is less than that of the nearest,
/// and of those before it none is as little.
pub proof fn law_nearest_is_least(d: Seq<F32Bits>, n: int, j: int)
    requires
        0 <= j < n <= d.len(),
        forall|k: int| 0 <= k < d.len() ==> !(#[trigger] d[k]).is_nan(),
    ensures
        0 <= nearest_of(d, n) < n,
        d[nearest_of(d, n)].at_most(d[j]),
        j < nearest_of(d, n) ==> d[nearest_of(d, n)].less(d[j]),
    decreases n,
{
    if n > 1 {
        let best = nearest_of(d, n - 1);
        law_nearest_is_least(d, n - 1, if j < n - 1 {
            j
        } else {
            0
        });
        assert(!d[best].is_nan() && !d[n - 1].is_nan());
    }
}

impl WaypointGraph {
    /// The waypoint that is nearest, given how far each is.
    pub fn nearest_node(&self, distances: &Vec<F32Bits>) -> (r: Option<u32>)
        requires
            self.wf(),
            distances@.len() == self.nodes@.len(),
        ensures
            r is None <==> self.nodes@.len() == 0,
            r is Some ==> r->0 < self.nodes@.len() && r->0 == nearest_of(
                distances@,
                distances@.len() as int,
            ),
    {
        if distances.len() == 0 {
            return None;
        }
        let mut best: usize = 0;
        let mut i: usize = 1;
        while i < distances.len()
            invariant
                best < i <= distances@.len(),
                distances@.len() == self.nodes@.len(),
                self.wf(),
                best == nearest_of(distances@, i as int),
            decreases distances@.len() - i,
        {
            if !distances[best].le(distances[i]) {
                best = i;
            }
            i += 1;
        }
        Some(best as u32)
    }

    /// One can go from one waypoint to the other in one step.
    pub open spec fn adjacent(self, a: u32, b: u32) -> bool {
        a < self.edges@.len() && exists|k: int|
            0 <= k < self.edges@[a as int]@.len() && (#[trigger] self.edges@[a as int]@[k]).0 == b
    }

    /// The waypoints lead from the first to the last, step by step.
    pub open spec fn chain(self, from: u32, to: u32, nodes: Seq<u32>) -> bool {
        &&& nodes.len() > 0
        &&& nodes[0] == from
        &&& nodes.last() == to
        &&& forall|k: int|
            0 <= k < nodes.len() - 1 ==> self.adjacent(#[trigger] nodes[k], nodes[k + 1])
    }

    /// Some steps lead from one waypoint to the other.
    pub open spec fn connected(self, from: u32, to: u32) -> bool {
        exists|nodes: Seq<u32>| self.chain(from, to, nodes)
    }

    /// True iff some steps lead from one waypoint to the other.
    pub fn reachable(&self, start: u32, goal: u32) -> (r: bool)
        requires
            self.wf(),
        ensures
            r == self.connected(start, goal),
    {
        if start == goal {
            assert(self.chain(start, goal, seq![start]));
            return true;
        }
        if start as usize >= self.nodes.len() {
            proof {
                assert forall|nodes: Seq<u32>| !self.chain(start, goal, nodes) by {
                    if self.chain(start, goal, nodes) {
                        assert(nodes.len() > 1);
                        assert(self.adjacent(nodes[0], nodes[1]));
                    }
                }
            }
            return false;
        }
        let n: usize = self.nodes.len();
        let mut seen: Vec<bool> = Vec::new();
        let mut i: usize = 0;
        while i < n
            invariant
                i <= n,
                seen@.len() == i,
                forall|j: int| 0 <= j < i ==> !(#[trigger] seen@[j]),
            decreases n - i,
        {
            seen.push(false);
            i += 1;
        }
        let mut frontier: VecDeque<u32> = VecDeque::new();
        seen.set(start as usize, true);
        frontier.push_back(start);
        let ghost mut left: int = n - 1;
        proof {
            lemma_unseen_start(seen@, start as int);
            assert(self.chain(start, start, seq![start]));
            assert(self.connected(start, start));
            assert(frontier@ =~= seq![start]);
        }
        while frontier.len() > 0
            invariant
                self.wf(),
                n == self.nodes@.len(),
                seen@.len() == n,
                start < n,
                start != goal,
                seen@[start as int],
                goal < n ==> !seen@[goal as int],
                forall|j: int|
                    0 <= j < frontier@.len() ==> (#[trigger] frontier@[j]) < n
                        && seen@[frontier@[j] as int],
                forall|v: u32| v < n && #[trigger] seen@[v as int] ==> self.connected(start, v),
                forall|v: u32, u: u32|
                    v < n && #[trigger] seen@[v as int] && #[trigger] self.adjacent(v, u)
                        && !frontier@.contains(v) ==> seen@[u as int] && u != goal,
                left == unseen(seen@),
            decreases 2 * left + frontier@.len(),
        {
            let ghost before = frontier@;
            let cur: u32 = frontier.pop_front().unwrap();
            proof {
                assert(before[0] == cur);
                assert(frontier@ == before.drop_first());
                lemma_unseen_nonneg(seen@);
                assert forall|v: u32| #[trigger] before.contains(v) && v != cur implies frontier@.contains(
                    v,
                ) by {
                    let j = choose|j: int| 0 <= j < before.len() && before[j] == v;
                    assert(frontier@[j - 1] == v);
                }
            }
            let adj = &self.edges[cur as usize];
            let ghost seen0 = seen@;
            let ghost left0 = left;
            let ghost front0 = frontier@;
            let mut k: usize = 0;
            while k < adj.len()
                invariant
                    self.wf(),
                    n == self.nodes@.len(),
                    seen@.len() == n,
                    start < n,
                    start != goal,
                    cur < n,
                    adj@ == self.edges@[cur as int]@,
                    k <= adj@.len(),
                    seen@[start as int],
                    seen@[cur as int],
                    goal < n ==> !seen@[goal as int],
                    self.connected(start, cur),
                    forall|j: int|
                        0 <= j < frontier@.len() ==> (#[trigger] frontier@[j]) < n
                            && seen@[frontier@[j] as int],
                    forall|v: u32| v < n && #[trigger] seen@[v as int] ==> self.connected(start, v),
                    forall|v: u32, u: u32|
                        v < n && #[trigger] seen@[v as int] && #[trigger] self.adjacent(v, u) && v
                            != cur && !frontier@.contains(v) ==> seen@[u as int] && u != goal,
                    forall|m: int|
                        0 <= m < k ==> seen@[(#[trigger] adj@[m]).0 as int] && adj@[m].0 != goal,
                    left == unseen(seen@),
                    2 * left + frontier@.len() <= 2 * left0 + front0.len(),
                decreases adj@.len() - k,
            {
                let nb: u32 = adj[k].0;
                proof {
                    assert(self.edges@[cur as int]@[k as int].0 == nb);
                    assert(self.adjacent(cur, nb));
                    lemma_extend_chain(*self, start, cur, nb);
                }
                if nb == goal {
                    return true;
                }
                if !seen[nb as usize] {
                    let ghost s0 = seen@;
                    let ghost f0 = frontier@;
                    seen.set(nb as usize, true);
                    frontier.push_back(nb);
                    proof {
                        lemma_unseen_set(s0, nb as int);
                        left = left - 1;
                        assert forall|v: u32, u: u32|
                            v < n && #[trigger] seen@[v as int] && #[trigger] self.adjacent(v, u) && v
                                != cur && !frontier@.contains(v) implies seen@[u as int] && u
                            != goal by {
                            assert(frontier@[f0.len() as int] == nb);
                            assert(v != nb);
                            assert(s0[v as int]);
                            if f0.contains(v) {
                                let j = choose|j: int| 0 <= j < f0.len() && f0[j] == v;
                                assert(frontier@[j] == v);
                            }
                            let t = choose|t: int|
                                0 <= t < self.edges@[v as int]@.len() && (
                                #[trigger] self.edges@[v as int]@[t]).0 == u;
                            assert(u < n);
                        }
                        assert forall|m: int| 0 <= m < k + 1 implies seen@[(
                        #[trigger] adj@[m]).0 as int] && adj@[m].0 != goal by {
                            assert(adj@[m].0 < n) by {
                                assert(self.edges@[cur as int]@[m].0 < self.nodes@.len());
                            }
                        }
                    }
                }
                k += 1;
            }
            proof {
                lemma_unseen_nonneg(seen@);
                assert forall|v: u32, u: u32|
                    v < n && #[trigger] seen@[v as int] && #[trigger] self.adjacent(v, u)
                        && !frontier@.contains(v) implies seen@[u as int] && u != goal by {
                    if v == cur {
                        let t = choose|t: int|
                            0 <= t < self.edges@[v as int]@.len() && (
                            #[trigger] self.edges@[v as int]@[t]).0 == u;
                        assert(adj@[t].0 == u);
                    }
                }
            }
        }
        proof {
            assert forall|nodes: Seq<u32>| !self.chain(start, goal, nodes) by {
                if self.chain(start, goal, nodes) {
                    lemma_closed_chain(*self, seen@, start, goal, nodes, nodes.len() - 1);
                }
            }
        }
        false
    }
}

/// How many entries are false.
spec fn unseen(seen: Seq<bool>) -> int
    decreases seen.len(),
{
    if seen.len() == 0 {
        0
    } else {
        unseen(seen.drop_last()) + (if seen.last() {
            0int
        } else {
            1int
        })
    }
}

proof fn lemma_unseen_nonneg(seen: Seq<bool>)
    ensures
        0 <= unseen(seen) <= seen.len(),
    decreases seen.len(),
{
    if seen.len() > 0 {
        lemma_unseen_nonneg(seen.drop_last());
    }
}

proof fn lemma_unseen_set(seen: Seq<bool>, i: int)
    requires
        0 <= i < seen.len(),
        !seen[i],
    ensures
        unseen(seen.update(i, true)) == unseen(seen) - 1,
    decreases seen.len(),
{
    let after = seen.update(i, true);
    if i < seen.len() - 1 {
        lemma_unseen_set(seen.drop_last(), i);
        assert(after.drop_last() =~= seen.drop_last().update(i, true));
    } else {
        assert(after.drop_last() =~= seen.drop_last());
    }
}

/// One entry of a list of false ones is set.
proof fn lemma_unseen_start(seen: Seq<bool>, i: int)
    requires
        0 <= i < seen.len(),
        forall|j: int| 0 <= j < seen.len() ==> #[trigger] seen[j] == (j == i),
    ensures
        unseen(seen) == seen.len() - 1,
{
    let none = Seq::new(seen.len(), |j: int| false);
    lemma_none_seen(none);
    lemma_unseen_set(none, i);
    assert(none.update(i, true) =~= seen);
}

proof fn lemma_none_seen(seen: Seq<bool>)
    requires
        forall|j: int| 0 <= j < seen.len() ==> !(#[trigger] seen[j]),
    ensures
        unseen(seen) == seen.len(),
    decreases seen.len(),
{
    if seen.len() > 0 {
        lemma_none_seen(seen.drop_last());
    }
}

proof fn lemma_extend_chain(graph: WaypointGraph, start: u32, cur: u32, nb: u32)
    requires
        graph.connected(start, cur),
        graph.adjacent(cur, nb),
    ensures
        graph.connected(start, nb),
{
    let nodes = choose|nodes: Seq<u32>| graph.chain(start, cur, nodes);
    let longer = nodes.push(nb);
    assert forall|k: int| 0 <= k < longer.len() - 1 implies graph.adjacent(
        #[trigger] longer[k],
        longer[k + 1],
    ) by {
        if k < nodes.len() - 1 {
            assert(longer[k] == nodes[k] && longer[k + 1] == nodes[k + 1]);
        } else {
            assert(longer[k] == cur && longer[k + 1] == nb);
        }
    }
    assert(graph.chain(start, nb, longer));
}

/// Steps from a set that no step leads out of stay in it.
proof fn lemma_closed_chain(
    graph: WaypointGraph,
    seen: Seq<bool>,
    start: u32,
    goal: u32,
    nodes: Seq<u32>,
    k: int,
)
    requires
        graph.wf(),
        seen.len() == graph.nodes@.len(),
        start < seen.len(),
        start != goal,
        seen[start as int],
        forall|v: u32, u: u32|
            v < seen.len() && #[trigger] seen[v as int] && #[trigger] graph.adjacent(v, u)
                ==> seen[u as int] && u != goal,
        graph.chain(start, goal, nodes),
        0 <= k < nodes.len(),
    ensures
        nodes[k] < seen.len(),
        seen[nodes[k] as int],
        nodes[k] != goal,
    decreases k,
{
    if k > 0 {
        lemma_closed_chain(graph, seen, start, goal, nodes, k - 1);
        assert(graph.adjacent(nodes[k - 1], nodes[k - 1 + 1]));
        let v = nodes[k - 1];
        let u = nodes[k];
        let t = choose|t: int|
            0 <= t < graph.edges@[v as int]@.len() && (#[trigger] graph.edges@[v as int]@[t]).0 == u;
        assert(u < graph.nodes@.len());
    }
}

/// The numbers of waypoints as the search takes them.
pub open spec fn widened(nodes: Seq<u32>) -> Seq<u64> {
    Seq::new(nodes.len(), |i: int| nodes[i] as u64)
}

/// The graph as one travels it towards a goal.
pub struct GraphSpace<'a> {
    pub graph: &'a WaypointGraph,
    /// What the way from each waypoint to the goal is guessed to cost.
    pub guesses: &'a Vec<u32>,
}

impl<'a> Space for GraphSpace<'a> {
    open spec fn ok(&self) -> bool {
        self.graph.wf() && self.guesses@.len() == self.graph.nodes@.len()
    }

    open spec fn has_node(&self, n: u64) -> bool {
        n < self.graph.nodes@.len()
    }

    open spec fn steps(&self, n: u64) -> Seq<(u64, u32)> {
        Seq::new(
            self.graph.edges@[n as int]@.len(),
            |k: int|
                (self.graph.edges@[n as int]@[k].0 as u64, self.graph.edges@[n as int]@[k].1),
        )
    }

    open spec fn estimate(&self, n: u64) -> int {
        self.guesses@[n as int] as int
    }

    fn successors(&self, n: u64) -> (r: Vec<(u64, u32)>) {
        let adj = &self.graph.edges[n as usize];
        let mut r: Vec<(u64, u32)> = Vec::new();
        let mut k: usize = 0;
        while k < adj.len()
            invariant
                self.ok(),
                self.has_node(n),
                adj@ == self.graph.edges@[n as int]@,
                k <= adj@.len(),
                r@ == self.steps(n).take(k as int),
                forall|j: int| 0 <= j < r@.len() ==> self.has_node((#[trigger] r@[j]).0),
            decreases adj@.len() - k,
        {
            assert(self.graph.edges@[n as int]@[k as int].0 < self.graph.nodes@.len());
            r.push((adj[k].0 as u64, adj[k].1));
            k += 1;
            assert(self.steps(n).take(k as int) =~= self.steps(n).take(k - 1).push(
                self.steps(n)[k - 1],
            ));
        }
        assert(self.steps(n).take(k as int) =~= self.steps(n));
        r
    }

    fn guess(&self, n: u64) -> (r: u64) {
        self.guesses[n as usize] as u64
    }
}

/// The waypoints are a route, and none is cheaper, give or take what the
/// guesses are over the mark.
pub open spec fn leads_through(space: GraphSpace, start: u32, goal: u32, nodes: Seq<u32>) -> bool {
    exists|costs: Seq<u32>| #[trigger]
        is_route(&space, start as u64, goal as u64, widened(nodes), costs) && forall|slack: int|
            #[trigger]
            guesses_within(&space, goal as u64, slack) ==> nearly_cheapest(
                &space,
                start as u64,
                goal as u64,
                costs,
                slack,
            )
}

/// What a search from one waypoint to another finds, where all that it asks
/// for is handed out.
pub open spec fn graph_search(space: GraphSpace, start: u32, goal: u32) -> Option<Seq<u64>> {
    astar_of(step_map(&space), guess_map(&space), start as u64, goal as u64, usize::MAX as nat).0
}

impl WaypointGraph {
    /// The waypoints from `start` to `goal`, both included, given what the way
    /// from each to the goal is guessed to cost.
    pub fn path(&self, start: u32, goal: u32, guesses: &Vec<u32>) -> (r: Option<Vec<u32>>)
        requires
            self.wf(),
            guesses@.len() == self.nodes@.len(),
        ensures
            start == goal ==> r is Some && r->0@ == seq![start],
            start != goal && (start >= self.nodes@.len() || goal >= self.nodes@.len()) ==> r is None,
            start != goal && start < self.nodes@.len() && goal < self.nodes@.len() ==> {
                let space = GraphSpace { graph: self, guesses };
                match r {
                    Some(nodes) => graph_search(space, start, goal) == Some(widened(nodes@))
                        && leads_through(space, start, goal, nodes@),
                    None => graph_search(space, start, goal) is None && forall|
                        nodes: Seq<u64>,
                        costs: Seq<u32>,
                    |
                        !#[trigger] is_route(&space, start as u64, goal as u64, nodes, costs),
                }
            },
    {
        if start == goal {
            let mut one: Vec<u32> = Vec::new();
            one.push(start);
            assert(one@ =~= seq![start]);
            return Some(one);
        }
        if start as usize >= self.nodes.len() || goal as usize >= self.nodes.len() {
            return None;
        }
        let space = GraphSpace { graph: self, guesses };
        let (found, asked) = astar_route(&space, start as u64, goal as u64, usize::MAX);
        match found {
            None => {
                assert(asked <= usize::MAX);
                None
            },
            Some(nodes) => {
                let mut out: Vec<u32> = Vec::new();
                let ghost costs = choose|costs: Seq<u32>| #[trigger]
                    is_route(&space, start as u64, goal as u64, nodes@, costs)
                        && nodes@.no_duplicates() && (asked <= usize::MAX ==> forall|slack: int|
                        #[trigger]
                        guesses_within(&space, goal as u64, slack) ==> nearly_cheapest(
                            &space,
                            start as u64,
                            goal as u64,
                            costs,
                            slack,
                        ));
                proof {
                    assert forall|k: int| 0 <= k < nodes@.len() implies (#[trigger] nodes@[k])
                        < self.nodes@.len() by {
                        lemma_route_in_graph(space, start as u64, goal as u64, nodes@, costs, k);
                    }
                }
                let mut i: usize = 0;
                while i < nodes.len()
                    invariant
                        i <= nodes@.len(),
                        self.nodes@.len() <= u32::MAX,
                        forall|k: int|
                            0 <= k < nodes@.len() ==> (#[trigger] nodes@[k]) < self.nodes@.len(),
                        out@.len() == i,
                        forall|k: int| 0 <= k < i ==> (#[trigger] out@[k]) as u64 == nodes@[k],
                    decreases nodes@.len() - i,
                {
                    out.push(nodes[i] as u32);
                    i += 1;
                }
                assert(widened(out@) =~= nodes@);
                assert(is_route(&space, start as u64, goal as u64, widened(out@), costs));
                assert(leads_through(space, start, goal, out@));
                Some(out)
            },
        }
    }
}

proof fn lemma_route_in_graph(
    space: GraphSpace,
    from: u64,
    to: u64,
    nodes: Seq<u64>,
    costs: Seq<u32>,
    k: int,
)
    requires
        space.ok(),
        space.has_node(from),
        is_route(&space, from, to, nodes, costs),
        0 <= k < nodes.len(),
    ensures
        space.has_node(nodes[k]),
    decreases k,
{
    if k > 0 {
        lemma_route_in_graph(space, from, to, nodes, costs, k - 1);
        let n = nodes[k - 1];
        assert(space.steps(n).contains((nodes[k - 1 + 1], costs[k - 1])));
        let t = choose|t: int|
            0 <= t < space.steps(n).len() && space.steps(n)[t] == (nodes[k], costs[k - 1]);
        assert(space.graph.edges@[n as int]@[t].0 < space.graph.nodes@.len());
    }
}

/// A way leads from a waypoint to each of the eight next ones that is there and
/// in a straight line of open cells, and to no other. It costs the one price
/// along an axis and the other across.
pub proof fn law_ways_lead_to_the_next(
    grid: GridNavQuery,
    stride: u32,
    ortho: u32,
    diag: u32,
    nodes: Seq<(u32, u32)>,
    cx: int,
    cz: int,
    east: int,
    south: int,
)
    requires
        -1 <= east <= 1,
        -1 <= south <= 1,
        !(east == 0 && south == 0),
    ensures
        ({
            let nx = cx + east * stride;
            let nz = cz + south * stride;
            let there = grid.open_at(nx, nz) && nx % (stride as int) == 0 && nz % (stride as int)
                == 0 && line_walkable(grid, cx, cz, nx, nz);
            let price = if east != 0 && south != 0 {
                diag
            } else {
                ortho
            };
            there ==> ways(grid, stride, ortho, diag, nodes, cx, cz, 8).contains(
                (nodes.index_of((nx as u32, nz as u32)) as u32, price),
            )
        }),
{
    let k: int = if south < 0 {
        east + 1
    } else if south == 0 {
        if east < 0 {
            3
        } else {
            4
        }
    } else {
        east + 6
    };
    assert(direction(k) == (east, south));
    if has_way(grid, stride, cx, cz, k) {
        lemma_way_listed(grid, stride, ortho, diag, nodes, cx, cz, 8, k);
    }
}

proof fn lemma_way_listed(
    grid: GridNavQuery,
    stride: u32,
    ortho: u32,
    diag: u32,
    nodes: Seq<(u32, u32)>,
    cx: int,
    cz: int,
    upto: int,
    k: int,
)
    requires
        0 <= k < upto <= 8,
        has_way(grid, stride, cx, cz, k),
    ensures
        ways(grid, stride, ortho, diag, nodes, cx, cz, upto).contains(
            (
                nodes.index_of(
                    (
                        (cx + direction(k).0 * stride) as u32,
                        (cz + direction(k).1 * stride) as u32,
                    ),
                ) as u32,
                way_cost(k, ortho, diag),
            ),
        ),
    decreases upto,
{
    let all = ways(grid, stride, ortho, diag, nodes, cx, cz, upto);
    let before = ways(grid, stride, ortho, diag, nodes, cx, cz, upto - 1);
    let e = (
        nodes.index_of(
            ((cx + direction(k).0 * stride) as u32, (cz + direction(k).1 * stride) as u32),
        ) as u32,
        way_cost(k, ortho, diag),
    );
    if k < upto - 1 {
        lemma_way_listed(grid, stride, ortho, diag, nodes, cx, cz, upto - 1, k);
        let t = choose|t: int| 0 <= t < before.len() && before[t] == e;
        assert(all[t] == e);
    } else {
        assert(all.last() == e);
    }
}

/// Every way leads to one of the eight next waypoints, which is there, along a
/// straight line of open cells.
pub proof fn law_ways_are_walkable(
    grid: GridNavQuery,
    stride: u32,
    ortho: u32,
    diag: u32,
    nodes: Seq<(u32, u32)>,
    cx: int,
    cz: int,
    upto: int,
    t: int,
) -> (step: (int, int))
    requires
        0 <= upto <= 8,
        0 <= t < ways(grid, stride, ortho, diag, nodes, cx, cz, upto).len(),
    ensures
        -1 <= step.0 <= 1,
        -1 <= step.1 <= 1,
        !(step.0 == 0 && step.1 == 0),
        ({
            let nx = cx + step.0 * stride;
            let nz = cz + step.1 * stride;
            &&& grid.open_at(nx, nz)
            &&& line_walkable(grid, cx, cz, nx, nz)
            &&& ways(grid, stride, ortho, diag, nodes, cx, cz, upto)[t] == (
                nodes.index_of((nx as u32, nz as u32)) as u32,
                if step.0 != 0 && step.1 != 0 {
                    diag
                } else {
                    ortho
                },
            )
        }),
    decreases upto,
{
    let before = ways(grid, stride, ortho, diag, nodes, cx, cz, upto - 1);
    if t < before.len() {
        law_ways_are_walkable(grid, stride, ortho, diag, nodes, cx, cz, upto - 1, t)
    } else {
        direction(upto - 1)
    }
}

/// Waypoints are the open cells whose column and row are multiples of the
/// stride, each once, from north to south and in a row from west to east.
pub proof fn law_waypoints_are_sampled(
    grid: GridNavQuery,
    stride: u32,
    nodes: Seq<(u32, u32)>,
    cx: u32,
    cz: u32,
    i: int,
    j: int,
)
    requires
        samples_grid(grid, stride, nodes),
        0 <= i < j < nodes.len(),
    ensures
        nodes.contains((cx, cz)) <==> grid.open_at(cx as int, cz as int) && cx as int % (
        stride as int) == 0 && cz as int % (stride as int) == 0,
        nodes[i].1 < nodes[j].1 || (nodes[i].1 == nodes[j].1 && nodes[i].0 < nodes[j].0),
{
    assert(row_major(nodes[i], nodes[j]));
    if nodes.contains((cx, cz)) {
        let k = choose|k: int| 0 <= k < nodes.len() && nodes[k] == (cx, cz);
        assert(is_sample(grid, stride, nodes[k].0 as int, nodes[k].1 as int));
    }
    assert(is_sample(grid, stride, cx as int, cz as int) == (grid.open_at(cx as int, cz as int)
        && cx as int % (stride as int) == 0 && cz as int % (stride as int) == 0));
}

impl WaypointGraph {
    /// A waypoint is connected with itself, with whatever a way leads to, and
    /// with whatever that is connected with.
    pub proof fn law_connections_chain(self, a: u32, b: u32, c: u32)
        ensures
            self.connected(a, a),
            self.connected(a, b) && self.adjacent(b, c) ==> self.connected(a, c),
            self.connected(a, c) && a != c ==> exists|m: u32| #[trigger] self.adjacent(a, m),
    {
        assert(self.chain(a, a, seq![a]));
        if self.connected(a, b) && self.adjacent(b, c) {
            let nodes = choose|nodes: Seq<u32>| self.chain(a, b, nodes);
            let more = nodes.push(c);
            assert forall|k: int| 0 <= k < more.len() - 1 implies self.adjacent(
                #[trigger] more[k],
                more[k + 1],
            ) by {
                if k < nodes.len() - 1 {
                    assert(self.adjacent(nodes[k], nodes[k + 1]));
                }
            }
            assert(self.chain(a, c, more));
        }
        if self.connected(a, c) && a != c {
            let nodes = choose|nodes: Seq<u32>| self.chain(a, c, nodes);
            assert(self.adjacent(nodes[0], nodes[1]));
        }
    }
}

/// A chain of waypoints costs no more than any other, where no guess is over
/// the mark.
pub proof fn law_chains_are_cheapest(
    space: GraphSpace,
    start: u32,
    goal: u32,
    nodes: Seq<u32>,
    other: Seq<u64>,
    others: Seq<u32>,
) -> (costs: Seq<u32>)
    requires
        leads_through(space, start, goal, nodes),
        guesses_within(&space, goal as u64, 0),
        is_route(&space, start as u64, goal as u64, other, others),
    ensures
        costs.len() + 1 == nodes.len(),
        nodes[0] == start && nodes.last() == goal,
        forall|k: int|
            0 <= k < costs.len() ==> space.graph.edges@[#[trigger] nodes[k] as int]@.contains(
                (nodes[k + 1], costs[k]),
            ),
        total(costs) <= total(others),
{
    let costs = choose|costs: Seq<u32>| #[trigger]
        is_route(&space, start as u64, goal as u64, widened(nodes), costs) && forall|slack: int|
            #[trigger]
            guesses_within(&space, goal as u64, slack) ==> nearly_cheapest(
                &space,
                start as u64,
                goal as u64,
                costs,
                slack,
            );
    let wide = widened(nodes);
    assert(nearly_cheapest(&space, start as u64, goal as u64, costs, 0));
    assert forall|k: int| 0 <= k < costs.len() implies space.graph.edges@[#[trigger] nodes[k]
        as int]@.contains((nodes[k + 1], costs[k])) by {
        assert(space.steps(wide[k]).contains((wide[k + 1], costs[k])));
        let t = choose|t: int|
            0 <= t < space.steps(wide[k]).len() && space.steps(wide[k])[t] == (
                wide[k + 1],
                costs[k],
            );
        assert(space.graph.edges@[nodes[k] as int]@[t] == (nodes[k + 1], costs[k]));
    }
    costs
}

} // verus!
