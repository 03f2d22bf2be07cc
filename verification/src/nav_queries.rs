//! The grids and waypoint graphs of all regions.
use vstd::prelude::*;

use crate::idmap::IdMap;
use crate::nav::{stamped, GridNavQuery, NavObstacle, TravelStyle};
use crate::nav_path::{answers, CellRoute};
use crate::region::RegionId;
use crate::waypoints::{samples_grid, ways, WaypointGraph};

verus! {

/// The grids and waypoint graphs of all regions.
#[derive(Debug)]
pub struct NavQueries {
    by_region: IdMap<GridNavQuery>,
    waypoints: IdMap<WaypointGraph>,
}

/// The graph is the one that [`WaypointGraph::build_from_grid`] builds.
pub open spec fn is_graph_of(
    graph: WaypointGraph,
    grid: GridNavQuery,
    stride: u32,
    ortho: u32,
    diag: u32,
) -> bool {
    &&& graph.wf()
    &&& samples_grid(grid, stride, graph.nodes@)
    &&& forall|i: int|
        0 <= i < graph.nodes@.len() ==> (#[trigger] graph.edges@[i])@ == ways(
            grid,
            stride,
            ortho,
            diag,
            graph.nodes@,
            graph.nodes@[i].0 as int,
            graph.nodes@[i].1 as int,
            8,
        )
}

impl NavQueries {
    /// The grids, by region.
    pub closed spec fn grids(self) -> Map<u64, GridNavQuery> {
        self.by_region@
    }

    /// The waypoint graphs, by region.
    pub closed spec fn graphs(self) -> Map<u64, WaypointGraph> {
        self.waypoints@
    }

    /// Every grid is well-formed.
    pub open spec fn wf(self) -> bool {
        forall|r: u64| #[trigger] self.grids().contains_key(r) ==> self.grids()[r].wf()
    }

    /// No regions.
    pub fn new() -> (r: Self)
        ensures
            r.wf(),
            r.grids() == Map::<u64, GridNavQuery>::empty(),
            r.graphs() == Map::<u64, WaypointGraph>::empty(),
    {
        NavQueries { by_region: IdMap::new(), waypoints: IdMap::new() }
    }

    /// Files a region's grid with the waypoint graph over it, in place of what
    /// the region had.
    pub fn build_for(
        &mut self,
        region: RegionId,
        grid: GridNavQuery,
        stride: u32,
        ortho: u32,
        diag: u32,
    )
        requires
            old(self).wf(),
            grid.wf(),
            stride >= 1,
            grid.w() * grid.h() <= u32::MAX,
        ensures
            final(self).wf(),
            final(self).grids() == old(self).grids().insert(region as u64, grid),
            final(self).graphs() == old(self).graphs().insert(
                region as u64,
                final(self).graphs()[region as u64],
            ),
            is_graph_of(final(self).graphs()[region as u64], grid, stride, ortho, diag),
    {
        let graph = WaypointGraph::build_from_grid(&grid, stride, ortho, diag);
        let was_grid = self.by_region.insert(region as u64, grid);
        let was_graph = self.waypoints.insert(region as u64, graph);
        assert forall|r: u64| #[trigger] self.grids().contains_key(r) implies self.grids()[r].wf() by {
            if r != region {
                assert(old(self).grids().contains_key(r));
            }
        }
    }

    /// Stamps obstacles into a region's grid; nothing happens where the region
    /// has none.
    pub fn apply_obstacles(&mut self, region: RegionId, obstacles: &[NavObstacle])
        requires
            old(self).wf(),
        ensures
            final(self).wf(),
            final(self).graphs() == old(self).graphs(),
            !old(self).grids().contains_key(region as u64) ==> final(self).grids() == old(
                self).grids(),
            old(self).grids().contains_key(region as u64) ==> {
                let before = old(self).grids()[region as u64];
                let after = final(self).grids()[region as u64];
                &&& final(self).grids() == old(self).grids().insert(region as u64, after)
                &&& after.same_ground(before)
                &&& forall|x: int, z: int|
                    before.in_grid(x, z) ==> #[trigger] after.open_at(x, z) == stamped(
                        before.open_at(x, z),
                        before.painted_at(x, z),
                        obstacles@,
                        x,
                        z,
                    )
            },
    {
        assert(self.grids().contains_key(region as u64) ==> self.grids()[region as u64].wf());
        if let Some(grid) = self.by_region.get_mut(region as u64) {
            grid.apply_obstacles(obstacles);
        }
    }

    /// Forgets a region.
    pub fn detach(&mut self, region: RegionId)
        requires
            old(self).wf(),
        ensures
            final(self).wf(),
            final(self).grids() == old(self).grids().remove(region as u64),
            final(self).graphs() == old(self).graphs().remove(region as u64),
    {
        let _ = self.by_region.remove(region as u64);
        let _ = self.waypoints.remove(region as u64);
        assert forall|r: u64| #[trigger] self.grids().contains_key(r) implies self.grids()[r].wf() by {
            assert(old(self).grids().contains_key(r));
        }
    }

    /// True iff the region has a grid.
    pub fn has(&self, region: RegionId) -> (r: bool)
        ensures
            r == self.grids().contains_key(region as u64),
    {
        self.by_region.contains_key(region as u64)
    }

    /// The region's grid.
    pub fn get(&self, region: RegionId) -> (r: Option<&GridNavQuery>)
        ensures
            match r {
                Some(g) => self.grids().contains_key(region as u64) && *g
                    == self.grids()[region as u64],
                None => !self.grids().contains_key(region as u64),
            },
    {
        self.by_region.get(region as u64)
    }

    /// The region's waypoint graph.
    pub fn waypoints(&self, region: RegionId) -> (r: Option<&WaypointGraph>)
        ensures
            match r {
                Some(g) => self.graphs().contains_key(region as u64) && *g
                    == self.graphs()[region as u64],
                None => !self.graphs().contains_key(region as u64),
            },
    {
        self.waypoints.get(region as u64)
    }

    /// A way between two cells of a region; none where the region has no grid
    /// or an end lies outside it.
    pub fn path(
        &self,
        region: RegionId,
        from: (u32, u32),
        to: (u32, u32),
        style: TravelStyle,
    ) -> (r: Option<CellRoute>)
        requires
            self.wf(),
        ensures
            !self.grids().contains_key(region as u64) ==> r is None,
            self.grids().contains_key(region as u64) ==> {
                let grid = self.grids()[region as u64];
                &&& !grid.in_grid(from.0 as int, from.1 as int) || !grid.in_grid(
                    to.0 as int,
                    to.1 as int,
                ) ==> r is None
                &&& grid.in_grid(from.0 as int, from.1 as int) && grid.in_grid(
                    to.0 as int,
                    to.1 as int,
                ) ==> answers(grid, style, from, to, r)
            },
    {
        match self.by_region.get(region as u64) {
            Some(grid) => {
                assert(self.grids().contains_key(region as u64));
                let (w, h) = grid.dims();
                if from.0 < w && from.1 < h && to.0 < w && to.1 < h {
                    grid.path(from, to, style)
                } else {
                    None
                }
            },
            None => None,
        }
    }

    /// The region has a grid and the cell is open.
    pub fn is_traversable(&self, region: RegionId, cx: u32, cz: u32) -> (r: bool)
        requires
            self.wf(),
        ensures
            r == (self.grids().contains_key(region as u64) && self.grids()[region as u64].open_at(
                cx as int,
                cz as int,
            )),
    {
        match self.by_region.get(region as u64) {
            Some(grid) => {
                assert(self.grids().contains_key(region as u64));
                grid.passable(cx, cz)
            },
            None => false,
        }
    }
}

} // verus!
