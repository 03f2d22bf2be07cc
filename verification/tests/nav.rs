use simn_sim::float_bits::F32Bits;
use simn_sim::nav::{
    travel_style_from_str, CellSample, GridNavQuery, NavObstacle, NavOverride, TravelStyle,
};
use simn_sim::nav_path::CellRoute;
use simn_sim::nav_queries::NavQueries;
use simn_sim::waypoints::WaypointGraph;

const CLIFF: u8 = 20;

/// A map of flat ground, with what it is made of and what was painted on it.
struct Flat {
    width: u32,
    height: u32,
    spacing: f32,
    features: Option<Vec<u8>>,
    mask: Option<Vec<NavOverride>>,
}

/// A grid over a map, with the conversions between cells and metres.
struct Nav {
    grid: GridNavQuery,
    cell: f32,
    origin: [f32; 2],
}

fn flat(width: u32, height: u32, spacing: f32) -> Flat {
    Flat { width, height, spacing, features: None, mask: None }
}

fn build(map: &Flat, cell: f32) -> Nav {
    build_with(map, cell, |_, _| None)
}

fn build_with(map: &Flat, cell: f32, class: impl Fn(u32, u32) -> Option<u8>) -> Nav {
    sample_grid(map, cell, class, |_, _| false)
}

fn sample_grid(
    map: &Flat,
    cell: f32,
    class: impl Fn(u32, u32) -> Option<u8>,
    steep: impl Fn(u32, u32) -> bool,
) -> Nav {
    let extent = [(map.width - 1) as f32 * map.spacing, (map.height - 1) as f32 * map.spacing];
    let w = (extent[0] / cell).floor() as u32;
    let h = (extent[1] / cell).floor() as u32;
    let origin = [-extent[0] * 0.5, -extent[1] * 0.5];
    let mut samples = Vec::new();
    for cz in 0..h {
        for cx in 0..w {
            let x = (cx as f32 + 0.5) * cell;
            let z = (cz as f32 + 0.5) * cell;
            let col = ((x / map.spacing).floor() as u32).min(map.width - 1);
            let row = ((z / map.spacing).floor() as u32).min(map.height - 1);
            let at = (row * map.width + col) as usize;
            let made_of = match class(cx, cz) {
                Some(c) => c,
                None => map.features.as_ref().map(|f| f[at]).unwrap_or(0),
            };
            samples.push(CellSample {
                class: made_of,
                barred: made_of == CLIFF,
                gentle: !steep(cx, cz),
                painted: map.mask.as_ref().map(|m| m[at]).unwrap_or(NavOverride::Default),
                y: F32Bits(50.0f32.to_bits()),
            });
        }
    }
    let grid = GridNavQuery::from_samples(
        w,
        h,
        &samples,
        F32Bits(cell.to_bits()),
        [F32Bits(origin[0].to_bits()), F32Bits(origin[1].to_bits())],
    );
    Nav { grid, cell, origin }
}

impl Nav {
    fn cell_of(&self, x: f32, z: f32) -> Option<(u32, u32)> {
        let lx = x - self.origin[0];
        let lz = z - self.origin[1];
        if lx < 0.0 || lz < 0.0 {
            return None;
        }
        let c = ((lx / self.cell) as u32, (lz / self.cell) as u32);
        let (w, h) = self.grid.dims();
        if c.0 < w && c.1 < h {
            Some(c)
        } else {
            None
        }
    }

    fn path(&self, from: [f32; 2], to: [f32; 2], style: TravelStyle) -> Option<Vec<(u32, u32)>> {
        let a = self.cell_of(from[0], from[1])?;
        let b = self.cell_of(to[0], to[1])?;
        match self.grid.path(a, b, style)? {
            CellRoute::Here => Some(vec![a, b]),
            CellRoute::Through(cells) => Some(cells),
        }
    }

    /// The cells whose centres lie in the box.
    fn obstacle(&self, center: [f32; 2], extents: [f32; 2], kind: NavOverride) -> NavObstacle {
        let lo = |i: usize| {
            let v = (center[i] - extents[i] - self.origin[i]) / self.cell - 0.5;
            v.ceil().max(0.0) as u32
        };
        let hi = |i: usize| {
            let v = (center[i] + extents[i] - self.origin[i]) / self.cell - 0.5;
            v.floor().max(0.0) as u32
        };
        NavObstacle { x_lo: lo(0), x_hi: hi(0), z_lo: lo(1), z_hi: hi(1), kind }
    }

    fn blocked(&self) -> usize {
        self.grid.traversability().iter().filter(|&&c| !c).count()
    }

    fn graph(&self, spacing: f32) -> WaypointGraph {
        let stride = ((spacing / self.cell).round() as u32).max(1);
        let step = stride as f32 * self.cell;
        let ortho = (step * 1000.0) as u32;
        let diag = ((step * step * 2.0).sqrt() * 1000.0) as u32;
        WaypointGraph::build_from_grid(&self.grid, stride, ortho, diag)
    }

    fn node_pos(&self, g: &WaypointGraph, i: usize) -> [f32; 2] {
        let (cx, cz) = g.nodes[i];
        [
            self.origin[0] + (cx as f32 + 0.5) * self.cell,
            self.origin[1] + (cz as f32 + 0.5) * self.cell,
        ]
    }

    fn nearest(&self, g: &WaypointGraph, pos: [f32; 2]) -> Option<u32> {
        let d: Vec<F32Bits> = (0..g.nodes.len())
            .map(|i| {
                let p = self.node_pos(g, i);
                F32Bits(((p[0] - pos[0]).powi(2) + (p[1] - pos[1]).powi(2)).to_bits())
            })
            .collect();
        g.nearest_node(&d)
    }

    fn chain(&self, g: &WaypointGraph, start: u32, goal: u32) -> Option<Vec<u32>> {
        let to = self.node_pos(g, goal as usize);
        let guesses: Vec<u32> = (0..g.nodes.len())
            .map(|i| {
                let p = self.node_pos(g, i);
                (((p[0] - to[0]).powi(2) + (p[1] - to[1]).powi(2)).sqrt() * 1000.0) as u32
            })
            .collect();
        g.path(start, goal, &guesses)
    }
}

#[test]
fn path_on_flat_grid() {
    let nav = build(&flat(64, 64, 2.0), 2.0);
    let path = nav.path([-50.0, -50.0], [50.0, 50.0], TravelStyle::Bushwhacker).unwrap();
    assert!(path.len() >= 2, "path has at least start + end");
    assert_eq!(*path.first().unwrap(), nav.cell_of(-50.0, -50.0).unwrap());
    assert_eq!(*path.last().unwrap(), nav.cell_of(50.0, 50.0).unwrap());
    assert!(path.len() <= 4, "flat-grid diagonal should simplify, got {}", path.len());
}

#[test]
fn unreachable_returns_none() {
    let nav = sample_grid(&flat(16, 16, 2.0), 2.0, |_, _| None, |cx, cz| (cx, cz) != (0, 0));
    assert!(nav.grid.passable(0, 0));
    let path = nav.path([-15.0, -15.0], [15.0, 15.0], TravelStyle::Bushwhacker);
    assert!(path.is_none());
    let path = nav.path([-15.0, -15.0], [14.9, 14.9], TravelStyle::Bushwhacker);
    assert!(path.is_none());
}

#[test]
fn path_around_obstacle() {
    let wall = |cx: u32, cz: u32| cx == 10 && (5..15).contains(&cz);
    let nav = sample_grid(&flat(21, 21, 2.0), 2.0, |_, _| None, wall);
    let path = nav.path([-15.0, 0.0], [15.0, 0.0], TravelStyle::Bushwhacker).unwrap();
    for &(cx, cz) in &path {
        if cx == 10 && (5..15).contains(&cz) {
            panic!("path crossed wall at ({cx}, {cz})");
        }
    }
    assert!(path.len() >= 3, "detour requires at least one bend");
}

#[test]
fn is_traversable_basic() {
    let nav = build(&flat(16, 16, 2.0), 2.0);
    let (cx, cz) = nav.cell_of(0.0, 0.0).unwrap();
    assert!(nav.grid.passable(cx, cz));
    assert!(nav.cell_of(1000.0, 0.0).is_none());
    assert!(!nav.grid.passable(500, 7));
}

#[test]
fn pathfinding_is_deterministic() {
    let map = flat(32, 32, 2.0);
    let nav1 = build(&map, 2.0);
    let nav2 = build(&map, 2.0);
    let p1 = nav1.path([-25.0, -10.0], [25.0, 20.0], TravelStyle::Mixed).unwrap();
    let p2 = nav2.path([-25.0, -10.0], [25.0, 20.0], TravelStyle::Mixed).unwrap();
    assert_eq!(p1.len(), p2.len(), "waypoint count differs");
    for (a, b) in p1.iter().zip(p2.iter()) {
        assert_eq!(a, b, "waypoint differs between runs");
    }
}

#[test]
fn navqueries_register_and_query() {
    let nav = build(&flat(16, 16, 2.0), 2.0);
    let from = nav.cell_of(-10.0, -10.0).unwrap();
    let to = nav.cell_of(10.0, 10.0).unwrap();
    let here = nav.cell_of(0.0, 0.0).unwrap();
    let mut nq = NavQueries::new();
    nq.build_for(7, nav.grid, 16, 32_000, 45_254);
    assert!(nq.has(7));
    assert!(nq.is_traversable(7, here.0, here.1));
    match nq.path(7, from, to, TravelStyle::Bushwhacker) {
        Some(CellRoute::Through(path)) => assert!(path.len() >= 2),
        other => panic!("expected a route, got {other:?}"),
    }
    nq.detach(7);
    assert!(!nq.has(7));
}

#[test]
fn road_hugger_prefers_road_over_diagonal() {
    let on_road = |cx: u32, cz: u32| {
        (cz == 5 && cx <= 5) || (cx == 5 && (5..=15).contains(&cz)) || (cz == 15 && cx >= 5)
    };
    let nav = build_with(&flat(21, 21, 2.0), 2.0, |cx, cz| {
        Some(if on_road(cx, cz) { 21 } else { 2 })
    });
    let from = [-18.0, -10.0];
    let to = [18.0, 10.0];
    let bush = nav.path(from, to, TravelStyle::Bushwhacker).unwrap();
    let road = nav.path(from, to, TravelStyle::RoadHugger).unwrap();
    assert!(road.iter().any(|&(cx, cz)| on_road(cx, cz)));
    assert_ne!(bush, road, "bushwhacker and road-hugger should differ");
}

fn painted_band(cols: std::ops::Range<u32>, rows: std::ops::Range<u32>) -> Vec<NavOverride> {
    let mut mask = vec![NavOverride::Default; 32 * 32];
    for row in rows {
        for col in cols.clone() {
            mask[(row * 32 + col) as usize] = NavOverride::ForceBlocked;
        }
    }
    mask
}

#[test]
fn nav_mask_force_block_routes_around() {
    let mut map = flat(32, 32, 2.0);
    map.mask = Some(painted_band(15..18, 5..25));
    let nav = build(&map, 2.0);
    let (w, h) = nav.grid.dims();
    let mut found_blocked = 0;
    for cz in 0..h {
        for cx in 0..w {
            if nav.grid.cell_override(cx, cz) == NavOverride::ForceBlocked {
                found_blocked += 1;
                assert!(!nav.grid.passable(cx, cz));
            }
        }
    }
    assert!(found_blocked >= 30);
    let path = nav
        .path([-30.0, 0.0], [30.0, 0.0], TravelStyle::Bushwhacker)
        .expect("path should exist via the top or bottom gap");
    for &(cx, cz) in &path {
        assert_ne!(nav.grid.cell_override(cx, cz), NavOverride::ForceBlocked);
    }
}

#[test]
fn nav_mask_force_walkable_overrides_blocked_feature() {
    let mut map = flat(16, 16, 2.0);
    map.features = Some(vec![CLIFF; 16 * 16]);
    let blocked = build(&map, 2.0);
    assert!(blocked.path([-10.0, -10.0], [10.0, 10.0], TravelStyle::Bushwhacker).is_none());
    map.mask = Some(vec![NavOverride::ForceWalkable; 16 * 16]);
    let nav = build(&map, 2.0);
    assert!(nav.path([-10.0, -10.0], [10.0, 10.0], TravelStyle::Bushwhacker).is_some());
    let (w, h) = nav.grid.dims();
    for cz in 0..h {
        for cx in 0..w {
            assert_eq!(nav.grid.cell_override(cx, cz), NavOverride::ForceWalkable);
        }
    }
}

#[test]
fn poi_block_overlays_walkable_cells() {
    let mut nav = build(&flat(16, 16, 2.0), 2.0);
    let obs = nav.obstacle([5.0, 5.0], [3.0, 3.0], NavOverride::ForceBlocked);
    let before = nav.blocked();
    nav.grid.apply_obstacles(&[obs]);
    assert!(nav.blocked() - before >= 9);
    let center = nav.cell_of(5.0, 5.0).expect("center in grid");
    assert!(!nav.grid.passable(center.0, center.1));
}

#[test]
fn painter_force_walkable_wins_over_poi_block() {
    let mut mask = vec![NavOverride::Default; 16 * 16];
    for row in 4..=6 {
        for col in 4..=6 {
            mask[row * 16 + col] = NavOverride::ForceWalkable;
        }
    }
    let mut map = flat(16, 16, 2.0);
    map.mask = Some(mask);
    let mut nav = build(&map, 2.0);
    let (w, h) = nav.grid.dims();
    let mut painted = 0;
    for cz in 0..h {
        for cx in 0..w {
            if nav.grid.cell_override(cx, cz) == NavOverride::ForceWalkable {
                painted += 1;
                assert!(nav.grid.passable(cx, cz));
            }
        }
    }
    assert!(painted > 0);
    let obs = nav.obstacle([-5.0, -5.0], [5.0, 5.0], NavOverride::ForceBlocked);
    nav.grid.apply_obstacles(&[obs]);
    for cz in 0..h {
        for cx in 0..w {
            if nav.grid.cell_override(cx, cz) == NavOverride::ForceWalkable {
                assert!(nav.grid.passable(cx, cz));
            }
        }
    }
}

#[test]
fn poi_block_propagates_through_aabb_cells() {
    let mut nav = build(&flat(16, 16, 2.0), 2.0);
    let obs = nav.obstacle([0.0, 0.0], [4.0, 4.0], NavOverride::ForceBlocked);
    let before = nav.blocked();
    nav.grid.apply_obstacles(&[obs]);
    assert!(nav.blocked() - before >= 16);
}

#[test]
fn poi_walkable_carves_through_cliff_feature() {
    let mut map = flat(16, 16, 2.0);
    map.features = Some(vec![CLIFF; 16 * 16]);
    let mut nav = build(&map, 2.0);
    assert!(nav.grid.traversability().iter().all(|&c| !c));
    let obs = nav.obstacle([0.0, 0.0], [3.0, 3.0], NavOverride::ForceWalkable);
    nav.grid.apply_obstacles(&[obs]);
    let center = nav.cell_of(0.0, 0.0).expect("center in grid");
    assert!(nav.grid.passable(center.0, center.1));
}

#[test]
fn nav_mask_absent_is_noop_back_compat() {
    let nav = build(&flat(16, 16, 2.0), 2.0);
    assert!(nav.path([-10.0, -10.0], [10.0, 10.0], TravelStyle::Bushwhacker).is_some());
    let (w, h) = nav.grid.dims();
    for cz in 0..h {
        for cx in 0..w {
            assert_eq!(nav.grid.cell_override(cx, cz), NavOverride::Default);
        }
    }
}

#[test]
fn waypoint_graph_connects_adjacent_nodes_on_open_grid() {
    let nav = build(&flat(32, 32, 2.0), 2.0);
    let graph = nav.graph(8.0);
    assert!(graph.nodes.len() >= 49, "expected >= 49 nodes, got {}", graph.nodes.len());
    assert!(!graph.edges.is_empty(), "edges should be populated");
    let sum: usize = graph.edges.iter().map(|adj| adj.len()).sum();
    let avg = sum as f32 / graph.edges.len() as f32;
    assert!(avg >= 4.0, "open grid should average >= 4 edges per node; got {avg}");
}

#[test]
fn waypoint_graph_skips_pairs_with_blocked_cell_between() {
    let mut map = flat(32, 32, 2.0);
    map.mask = Some(painted_band(15..16, 0..32));
    let nav = build(&map, 2.0);
    let graph = nav.graph(4.0);
    let at = |pick: &dyn Fn([f32; 2]) -> bool| {
        (0..graph.nodes.len()).find(|&i| pick(nav.node_pos(&graph, i)))
    };
    let left = at(&|n| n[0] < -8.0 && n[1].abs() < 1.0);
    let right = at(&|n| n[0] > 8.0 && n[1].abs() < 1.0);
    if let (Some(li), Some(ri)) = (left, right) {
        assert!(!graph.edges[li].iter().any(|&(n, _)| n == ri as u32));
    }
}

#[test]
fn waypoint_graph_handles_islands() {
    let mut map = flat(32, 32, 2.0);
    map.mask = Some(painted_band(15..16, 0..32));
    let nav = build(&map, 2.0);
    let graph = nav.graph(4.0);
    let left = nav.nearest(&graph, [-15.0, 0.0]).expect("left node");
    let right = nav.nearest(&graph, [15.0, 0.0]).expect("right node");
    assert!(!graph.reachable(left, right));
    assert!(nav.chain(&graph, left, right).is_none());
    assert!(graph.reachable(left, left));
}

#[test]
fn waypoint_graph_path_returns_node_chain() {
    let nav = build(&flat(32, 32, 2.0), 2.0);
    let graph = nav.graph(8.0);
    let start = nav.nearest(&graph, [-20.0, -20.0]).expect("start node");
    let goal = nav.nearest(&graph, [20.0, 20.0]).expect("goal node");
    let path = nav.chain(&graph, start, goal).expect("path should exist on open grid");
    assert_eq!(*path.first().unwrap(), start);
    assert_eq!(*path.last().unwrap(), goal);
    assert!(path.len() >= 2, "non-trivial path should have at least 2 nodes");
}

#[test]
fn waypoint_graph_built_alongside_grid_via_navqueries() {
    let nav = build(&flat(16, 16, 2.0), 2.0);
    let mut queries = NavQueries::new();
    queries.build_for(42, nav.grid, 16, 32_000, 45_254);
    assert!(queries.get(42).is_some(), "grid stored");
    assert!(queries.waypoints(42).is_some());
    assert!(!queries.waypoints(42).unwrap().nodes.is_empty());
}

#[test]
fn closed_cells_snap_to_the_nearest_open_one() {
    let nav = sample_grid(&flat(16, 16, 2.0), 2.0, |_, _| None, |cx, cz| (cx, cz) == (4, 4));
    assert_eq!(nav.grid.snap_to_traversable(4, 4), Some((3, 3)));
    assert_eq!(nav.grid.snap_to_traversable(5, 5), Some((5, 5)));
    let none = sample_grid(&flat(16, 16, 2.0), 2.0, |_, _| None, |_, _| true);
    assert_eq!(none.grid.snap_to_traversable(4, 4), None);
}

#[test]
fn straight_runs_are_simplified_away() {
    let nav = build(&flat(16, 16, 2.0), 2.0);
    let line: Vec<(u32, u32)> = (0..10).map(|i| (i, i)).collect();
    let r = nav.grid.simplify_los(line, TravelStyle::Bushwhacker);
    assert_eq!(r, vec![(0, 0), (9, 9)]);
    assert!(nav.grid.line_collapsible((0, 0), (5, 2), TravelStyle::Mixed));
}

#[test]
fn both_ends_on_one_cell_is_here() {
    let nav = build(&flat(16, 16, 2.0), 2.0);
    assert!(matches!(
        nav.grid.path((3, 3), (3, 3), TravelStyle::Mixed),
        Some(CellRoute::Here)
    ));
}

#[test]
fn styles_have_names_and_costs() {
    assert_eq!(travel_style_from_str("road_hugger"), TravelStyle::RoadHugger);
    assert_eq!(travel_style_from_str("bushwhacker"), TravelStyle::Bushwhacker);
    assert_eq!(travel_style_from_str("anything"), TravelStyle::Mixed);
    assert_eq!(TravelStyle::Bushwhacker.cell_cost_mult(2), 100);
    assert_eq!(TravelStyle::RoadHugger.cell_cost_mult(21), 50);
}

#[test]
fn small_obstacles_miss_every_centre() {
    let mut nav = build(&flat(16, 16, 2.0), 2.0);
    let obs = nav.obstacle([5.0, 5.0], [0.5, 0.5], NavOverride::ForceBlocked);
    nav.grid.apply_obstacles(&[obs]);
    assert_eq!(nav.blocked(), 0);
}

#[test]
fn ways_go_both_ways() {
    let nav = build(&flat(32, 32, 2.0), 2.0);
    let graph = nav.graph(8.0);
    for (i, adj) in graph.edges.iter().enumerate() {
        for &(j, cost) in adj {
            assert!(graph.edges[j as usize].contains(&(i as u32, cost)));
        }
    }
}

#[test]
fn long_ways_add_up() {
    let far = u32::MAX - 1;
    let g = WaypointGraph {
        nodes: vec![(0, 0), (1, 0), (2, 0), (3, 0)],
        edges: vec![
            vec![(1, far), (2, far)],
            vec![(3, far)],
            vec![(3, far - 1)],
            vec![],
        ],
    };
    let guesses = vec![0, far, 0, 0];
    assert_eq!(g.path(0, 3, &guesses), Some(vec![0, 2, 3]));
    assert_eq!(g.path(3, 0, &guesses), None);
    assert_eq!(g.path(9, 9, &guesses), Some(vec![9]));
    assert_eq!(g.path(9, 0, &guesses), None);
    assert_eq!(g.path(0, 9, &guesses), None);
}

#[test]
fn road_huggers_get_the_same_way_twice() {
    let nav = build(&flat(41, 41, 1.0), 2.0);
    let once = nav.grid.path((0, 0), (19, 12), TravelStyle::RoadHugger);
    let again = nav.grid.path((0, 0), (19, 12), TravelStyle::RoadHugger);
    match (once, again) {
        (Some(CellRoute::Through(a)), Some(CellRoute::Through(b))) => {
            assert_eq!(a, b);
            assert_eq!((a[0], a[a.len() - 1]), ((0, 0), (19, 12)));
        }
        other => panic!("{other:?}"),
    }
}
