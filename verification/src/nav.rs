//! Where one can stand, and the ways between such places.
//!
//! A region is a grid of cells, row by row from the north-west corner. A cell
//! is open or not; what it is made of decides what crossing it costs.
use vstd::prelude::*;

use crate::float_bits::F32Bits;
use crate::text::{ascii_lower, eq_ascii_lower};

verus! {

/// A search that asks for more nodes than this gives up.
pub const MAX_NODES_EXPANDED: usize = 5_000;

/// How many cells away an open cell may be that stands in for a closed one.
pub const SNAP_RADIUS_CELLS: u32 = 3;

/// The longest side a grid may have.
pub const MAX_GRID_SIDE: u32 = 0x4000_0000;

/// Cost of a step along an axis, in hundredths of a cell.
pub const ORTHO_COST: u32 = 100;

/// Cost of a diagonal step, in hundredths of a cell.
pub const DIAG_COST: u32 = 141;

/// What a diagonal step costs beyond one along an axis.
pub const DIAG_EXTRA: u32 = 41;

/// The least that a cell's make-up leaves of a cost, in hundredths.
pub const MIN_CELL_MULT: u32 = 50;

/// How one prefers to travel.
#[derive(Clone, Copy, Debug, PartialEq, Eq, Structural)]
pub enum TravelStyle {
    /// Keeps to roads even where that is longer.
    RoadHugger,
    /// Takes roads where they are at hand.
    Mixed,
    /// Goes straight.
    Bushwhacker,
}

impl Default for TravelStyle {
    fn default() -> (r: Self)
        ensures
            r == TravelStyle::Mixed,
    {
        TravelStyle::Mixed
    }
}

pub const FOREST: u8 = 2;

pub const SHRUBLAND: u8 = 3;

pub const WETLAND: u8 = 9;

pub const PAVED_ROAD: u8 = 21;

pub const UNPAVED_ROAD: u8 = 22;

pub const TRAIL: u8 = 23;

impl TravelStyle {
    /// What a cell of the given class costs, in percent.
    pub open spec fn mult(self, class: u8) -> u32 {
        match self {
            TravelStyle::RoadHugger => if class == PAVED_ROAD {
                50
            } else if class == UNPAVED_ROAD {
                60
            } else if class == TRAIL {
                70
            } else if class == FOREST || class == SHRUBLAND {
                200
            } else if class == WETLAND {
                250
            } else {
                100
            },
            TravelStyle::Mixed => if class == PAVED_ROAD {
                85
            } else if class == UNPAVED_ROAD {
                90
            } else if class == TRAIL {
                95
            } else {
                100
            },
            TravelStyle::Bushwhacker => 100,
        }
    }

    /// What a cell of the given class costs, in percent.
    pub fn cell_cost_mult(self, class: u8) -> (r: u32)
        ensures
            r == self.mult(class),
            50 <= r <= 250,
    {
        match self {
            TravelStyle::RoadHugger => if class == PAVED_ROAD {
                50
            } else if class == UNPAVED_ROAD {
                60
            } else if class == TRAIL {
                70
            } else if class == FOREST || class == SHRUBLAND {
                200
            } else if class == WETLAND {
                250
            } else {
                100
            },
            TravelStyle::Mixed => if class == PAVED_ROAD {
                85
            } else if class == UNPAVED_ROAD {
                90
            } else if class == TRAIL {
                95
            } else {
                100
            },
            TravelStyle::Bushwhacker => 100,
        }
    }
}

/// For whoever hugs roads every kind of road costs less than plain ground, the
/// better the road the less, and forest, shrubland and wetland cost more,
/// wetland the most. Whoever mixes pays a little less on roads and the same on
/// all else, and whoever goes straight pays the same everywhere. All pay alike
/// on plain ground.
pub proof fn law_styles_weigh_ground(road: u8, rough: u8, plain: u8, any: u8)
    requires
        road == 21 || road == 22 || road == 23,
        rough == 2 || rough == 3 || rough == 9,
        plain != 2 && plain != 3 && plain != 9 && plain != 21 && plain != 22 && plain != 23,
    ensures
        TravelStyle::RoadHugger.mult(road) < TravelStyle::RoadHugger.mult(plain),
        TravelStyle::RoadHugger.mult(plain) < TravelStyle::RoadHugger.mult(rough),
        TravelStyle::RoadHugger.mult(any) <= TravelStyle::RoadHugger.mult(9),
        TravelStyle::RoadHugger.mult(21) <= TravelStyle::RoadHugger.mult(any),
        TravelStyle::Mixed.mult(road) < TravelStyle::Mixed.mult(plain),
        TravelStyle::Mixed.mult(rough) == TravelStyle::Mixed.mult(plain),
        TravelStyle::Mixed.mult(21) <= TravelStyle::Mixed.mult(any),
        TravelStyle::Bushwhacker.mult(any) == TravelStyle::Bushwhacker.mult(plain),
        TravelStyle::RoadHugger.mult(road) < TravelStyle::Mixed.mult(road)
            < TravelStyle::Bushwhacker.mult(road),
        TravelStyle::RoadHugger.mult(plain) == 100,
        TravelStyle::Mixed.mult(plain) == 100,
        TravelStyle::Bushwhacker.mult(plain) == 100,
        2 * TravelStyle::RoadHugger.mult(21) == TravelStyle::RoadHugger.mult(plain),
        TravelStyle::RoadHugger.mult(road) == TravelStyle::RoadHugger.mult(21) + 10 * (road - 21),
        TravelStyle::RoadHugger.mult(2) == 2 * TravelStyle::RoadHugger.mult(plain),
        TravelStyle::RoadHugger.mult(3) == TravelStyle::RoadHugger.mult(2),
        2 * TravelStyle::RoadHugger.mult(9) == 5 * TravelStyle::RoadHugger.mult(plain),
        TravelStyle::Mixed.mult(road) == TravelStyle::Mixed.mult(plain) - 5 * (24 - road),
{
}

/// The style that a name stands for, whatever the case of its letters; mixed
/// where it stands for none.
pub open spec fn style_named(s: Seq<char>) -> TravelStyle {
    let low = ascii_lower(s);
    if low == "road"@ || low == "roadhugger"@ || low == "road_hugger"@ {
        TravelStyle::RoadHugger
    } else if low == "bush"@ || low == "bushwhacker"@ {
        TravelStyle::Bushwhacker
    } else {
        TravelStyle::Mixed
    }
}

/// The style that a name stands for, whatever the case of its letters; mixed
/// where it stands for none.
pub fn travel_style_from_str(s: &str) -> (r: TravelStyle)
    ensures
        r == style_named(s@),
{
    if eq_ascii_lower(s, "road") || eq_ascii_lower(s, "roadhugger") || eq_ascii_lower(
        s,
        "road_hugger",
    ) {
        TravelStyle::RoadHugger
    } else if eq_ascii_lower(s, "bush") || eq_ascii_lower(s, "bushwhacker") {
        TravelStyle::Bushwhacker
    } else {
        TravelStyle::default()
    }
}

/// Names that differ in case stand for one style, each style has its names, and
/// what is longer than all of them stands for the mixed one.
pub proof fn law_style_names(s: Seq<char>, t: Seq<char>)
    ensures
        ascii_lower(s) == ascii_lower(t) ==> style_named(s) == style_named(t),
        ascii_lower(s) == "road"@ ==> style_named(s) == TravelStyle::RoadHugger,
        ascii_lower(s) == "roadhugger"@ ==> style_named(s) == TravelStyle::RoadHugger,
        ascii_lower(s) == "road_hugger"@ ==> style_named(s) == TravelStyle::RoadHugger,
        ascii_lower(s) == "bush"@ ==> style_named(s) == TravelStyle::Bushwhacker,
        ascii_lower(s) == "bushwhacker"@ ==> style_named(s) == TravelStyle::Bushwhacker,
        s.len() < 4 || s.len() > 11 || (ascii_lower(s)[0] != 'r' && ascii_lower(s)[0] != 'b')
            ==> style_named(s) == TravelStyle::Mixed,
        style_named(s) == TravelStyle::RoadHugger ==> ascii_lower(s).take(4) == "road"@,
        style_named(s) == TravelStyle::Bushwhacker ==> ascii_lower(s).take(4) == "bush"@,
{
    reveal_strlit("road");
    reveal_strlit("roadhugger");
    reveal_strlit("road_hugger");
    reveal_strlit("bush");
    reveal_strlit("bushwhacker");
    assert("road"@[0] != "bush"@[0]);
    assert("roadhugger"@.take(4) =~= "road"@);
    assert("road_hugger"@.take(4) =~= "road"@);
    assert("road"@.take(4) =~= "road"@);
    assert("bush"@.take(4) =~= "bush"@);
    assert("bushwhacker"@.take(4) =~= "bush"@);
    assert(ascii_lower(s).len() == s.len());
}

/// What a painter or a marker says of a cell.
#[derive(Clone, Copy, Debug, PartialEq, Eq, Structural)]
pub enum NavOverride {
    Default,
    ForceBlocked,
    ForceWalkable,
}

/// A rectangle of cells, both ends included, and what it says of them. It may
/// stick out of the grid.
#[derive(Clone, Copy, Debug)]
pub struct NavObstacle {
    pub x_lo: u32,
    pub x_hi: u32,
    pub z_lo: u32,
    pub z_hi: u32,
    pub kind: NavOverride,
}

/// What is known of a cell before it is decided whether it is open.
#[derive(Clone, Copy, Debug)]
pub struct CellSample {
    /// What the cell is made of.
    pub class: u8,
    /// It is water or a cliff.
    pub barred: bool,
    /// It is no steeper than one can walk.
    pub gentle: bool,
    /// What was painted on it.
    pub painted: NavOverride,
    /// How high its ground is.
    pub y: F32Bits,
}

/// A cell is open where the painter says so, or where the painter says nothing
/// and the ground allows it.
pub open spec fn sample_open(s: CellSample) -> bool {
    match s.painted {
        NavOverride::ForceBlocked => false,
        NavOverride::ForceWalkable => true,
        NavOverride::Default => !s.barred && s.gentle,
    }
}

/// What the painter forced holds whatever the ground; ground that nobody
/// painted is open where it is neither barred nor steep.
pub proof fn law_painter_decides(a: CellSample, b: CellSample)
    ensures
        a.painted == NavOverride::ForceWalkable ==> sample_open(a),
        a.painted == NavOverride::ForceBlocked ==> !sample_open(a),
        a.painted == NavOverride::Default && sample_open(a) ==> !a.barred && a.gentle,
        a.painted == NavOverride::Default && !sample_open(a) ==> a.barred || !a.gentle,
        a.painted == b.painted && a.painted != NavOverride::Default ==> sample_open(a)
            == sample_open(b),
{
}

/// A region's grid of cells.
#[derive(Clone, Debug)]
pub struct GridNavQuery {
    cells: Vec<bool>,
    cell_class: Vec<u8>,
    cell_override: Vec<NavOverride>,
    cell_y: Vec<F32Bits>,
    width: u32,
    height: u32,
    cell_size_m: F32Bits,
    nw_origin: [F32Bits; 2],
}

/// The place of a cell in the list of all cells.
pub open spec fn cell_place(w: int, cx: int, cz: int) -> int {
    cz * w + cx
}

/// A cell of the grid has a place in the list.
pub proof fn lemma_place_in_range(w: int, h: int, cx: int, cz: int)
    requires
        0 <= cx < w,
        0 <= cz < h,
    ensures
        0 <= cell_place(w, cx, cz) < w * h,
        0 <= cz * w,
{
    assert(0 <= cz * w && cz * w + w <= w * h) by (nonlinear_arith)
        requires
            0 <= cz < h,
            0 < w,
    ;
}

/// Different cells have different places.
pub proof fn lemma_place_injective(w: int, x1: int, z1: int, x2: int, z2: int)
    requires
        0 <= x1 < w,
        0 <= x2 < w,
        cell_place(w, x1, z1) == cell_place(w, x2, z2),
    ensures
        x1 == x2 && z1 == z2,
{
    assert(z1 == z2) by (nonlinear_arith)
        requires
            0 <= x1 < w,
            0 <= x2 < w,
            z1 * w + x1 == z2 * w + x2,
    ;
}

impl GridNavQuery {
    /// The sides are in range and every list has an entry for every cell.
    pub closed spec fn wf(self) -> bool {
        &&& self.width <= MAX_GRID_SIDE
        &&& self.height <= MAX_GRID_SIDE
        &&& self.cells@.len() == self.width * self.height
        &&& self.cell_class@.len() == self.width * self.height
        &&& self.cell_override@.len() == self.width * self.height
        &&& self.cell_y@.len() == self.width * self.height
    }

    pub closed spec fn w(self) -> int {
        self.width as int
    }

    pub closed spec fn h(self) -> int {
        self.height as int
    }

    /// The cell lies in the grid.
    pub open spec fn in_grid(self, cx: int, cz: int) -> bool {
        0 <= cx < self.w() && 0 <= cz < self.h()
    }

    /// The cell lies in the grid and is open.
    pub closed spec fn open_at(self, cx: int, cz: int) -> bool {
        self.in_grid(cx, cz) && self.cells@[cell_place(self.w(), cx, cz)]
    }

    /// What the cell is made of.
    pub closed spec fn class_at(self, cx: int, cz: int) -> u8 {
        self.cell_class@[cell_place(self.w(), cx, cz)]
    }

    /// What was painted on the cell; nothing outside the grid.
    pub closed spec fn painted_at(self, cx: int, cz: int) -> NavOverride {
        if self.in_grid(cx, cz) {
            self.cell_override@[cell_place(self.w(), cx, cz)]
        } else {
            NavOverride::Default
        }
    }

    /// How high the cell's ground is.
    pub closed spec fn y_at(self, cx: int, cz: int) -> F32Bits {
        self.cell_y@[cell_place(self.w(), cx, cz)]
    }

    /// The two grids differ at most in which cells are open.
    pub closed spec fn same_ground(self, other: GridNavQuery) -> bool {
        &&& self.width == other.width
        &&& self.height == other.height
        &&& self.cell_class@ == other.cell_class@
        &&& self.cell_override@ == other.cell_override@
        &&& self.cell_y@ == other.cell_y@
        &&& self.cell_size_m == other.cell_size_m
        &&& self.nw_origin == other.nw_origin
    }

    /// A grid of the sampled cells, row by row from the north-west corner.
    pub fn from_samples(
        width: u32,
        height: u32,
        samples: &Vec<CellSample>,
        cell_size_m: F32Bits,
        nw_origin: [F32Bits; 2],
    ) -> (r: GridNavQuery)
        requires
            width <= MAX_GRID_SIDE,
            height <= MAX_GRID_SIDE,
            samples@.len() == width * height,
        ensures
            r.wf(),
            r.w() == width,
            r.h() == height,
            forall|cx: int, cz: int|
                r.in_grid(cx, cz) ==> #[trigger] r.open_at(cx, cz) == sample_open(
                    samples@[cell_place(width as int, cx, cz)],
                ),
            forall|cx: int, cz: int|
                r.in_grid(cx, cz) ==> #[trigger] r.class_at(cx, cz) == samples@[cell_place(
                    width as int,
                    cx,
                    cz,
                )].class,
            forall|cx: int, cz: int|
                r.in_grid(cx, cz) ==> #[trigger] r.painted_at(cx, cz) == samples@[cell_place(
                    width as int,
                    cx,
                    cz,
                )].painted,
            forall|cx: int, cz: int|
                r.in_grid(cx, cz) ==> #[trigger] r.y_at(cx, cz) == samples@[cell_place(
                    width as int,
                    cx,
                    cz,
                )].y,
            r.cell_side() == cell_size_m,
            r.corner() == nw_origin,
    {
        let mut cells: Vec<bool> = Vec::new();
        let mut cell_class: Vec<u8> = Vec::new();
        let mut cell_override: Vec<NavOverride> = Vec::new();
        let mut cell_y: Vec<F32Bits> = Vec::new();
        let mut i: usize = 0;
        while i < samples.len()
            invariant
                i <= samples@.len(),
                cells@.len() == i,
                cell_class@.len() == i,
                cell_override@.len() == i,
                cell_y@.len() == i,
                forall|k: int|
                    0 <= k < i ==> {
                        &&& cells@[k] == sample_open(#[trigger] samples@[k])
                        &&& cell_class@[k] == samples@[k].class
                        &&& cell_override@[k] == samples@[k].painted
                        &&& cell_y@[k] == samples@[k].y
                    },
            decreases samples@.len() - i,
        {
            let s = samples[i];
            let open = match s.painted {
                NavOverride::ForceBlocked => false,
                NavOverride::ForceWalkable => true,
                NavOverride::Default => !s.barred && s.gentle,
            };
            cells.push(open);
            cell_class.push(s.class);
            cell_override.push(s.painted);
            cell_y.push(s.y);
            i += 1;
        }
        let r = GridNavQuery {
            cells,
            cell_class,
            cell_override,
            cell_y,
            width,
            height,
            cell_size_m,
            nw_origin,
        };
        proof {
            assert forall|cx: int, cz: int| #[trigger] r.in_grid(cx, cz) implies 0 <= cell_place(
                width as int,
                cx,
                cz,
            ) < samples@.len() by {
                lemma_place_in_range(width as int, height as int, cx, cz);
            }
        }
        r
    }

    /// The place of a cell in the list of all cells.
    fn cell_index(&self, cx: u32, cz: u32) -> (r: usize)
        requires
            self.wf(),
            self.in_grid(cx as int, cz as int),
        ensures
            r == cell_place(self.w(), cx as int, cz as int),
            r < self.cells@.len(),
    {
        let n: usize = self.cells.len();
        proof {
            lemma_place_in_range(self.w(), self.h(), cx as int, cz as int);
            assert(cell_place(self.w(), cx as int, cz as int) < n);
        }
        (cz as usize) * (self.width as usize) + cx as usize
    }

    /// The cell lies in the grid and is open.
    pub fn passable(&self, cx: u32, cz: u32) -> (r: bool)
        requires
            self.wf(),
        ensures
            r == self.open_at(cx as int, cz as int),
    {
        if cx >= self.width || cz >= self.height {
            return false;
        }
        self.cells[self.cell_index(cx, cz)]
    }

    /// What was painted on the cell; nothing outside the grid.
    pub fn cell_override(&self, cx: u32, cz: u32) -> (r: NavOverride)
        requires
            self.wf(),
        ensures
            r == self.painted_at(cx as int, cz as int),
    {
        if cx >= self.width || cz >= self.height {
            return NavOverride::Default;
        }
        self.cell_override[self.cell_index(cx, cz)]
    }

    /// What the cell is made of.
    pub fn class_of(&self, cx: u32, cz: u32) -> (r: u8)
        requires
            self.wf(),
            self.in_grid(cx as int, cz as int),
        ensures
            r == self.class_at(cx as int, cz as int),
    {
        self.cell_class[self.cell_index(cx, cz)]
    }

    /// How high the cell's ground is.
    pub fn ground_y(&self, cx: u32, cz: u32) -> (r: F32Bits)
        requires
            self.wf(),
            self.in_grid(cx as int, cz as int),
        ensures
            r == self.y_at(cx as int, cz as int),
    {
        self.cell_y[self.cell_index(cx, cz)]
    }

    /// Side of a cell in metres.
    pub closed spec fn cell_side(self) -> F32Bits {
        self.cell_size_m
    }

    /// Side of a cell in metres.
    pub fn cell_size_m(&self) -> (r: F32Bits)
        ensures
            r == self.cell_side(),
    {
        self.cell_size_m
    }

    /// Corner of the first cell.
    pub closed spec fn corner(self) -> [F32Bits; 2] {
        self.nw_origin
    }

    /// Corner of the first cell.
    pub fn nw_origin(&self) -> (r: [F32Bits; 2])
        ensures
            r == self.corner(),
    {
        self.nw_origin
    }

    /// How many cells there are from west to east and from north to south.
    pub fn dims(&self) -> (r: (u32, u32))
        ensures
            r.0 == self.w() && r.1 == self.h(),
    {
        (self.width, self.height)
    }

    /// For every cell, row by row, whether it is open.
    pub fn traversability(&self) -> (r: &[bool])
        requires
            self.wf(),
        ensures
            r@.len() == self.w() * self.h(),
            forall|cx: int, cz: int|
                self.in_grid(cx, cz) ==> #[trigger] self.open_at(cx, cz) == r@[cell_place(
                    self.w(),
                    cx,
                    cz,
                )],
    {
        self.cells.as_slice()
    }
}

/// The obstacle covers the cell.
pub open spec fn obstacle_covers(o: NavObstacle, cx: int, cz: int) -> bool {
    o.x_lo <= cx <= o.x_hi && o.z_lo <= cz <= o.z_hi
}

/// Whether a cell is open after one obstacle: a wall closes it unless the
/// painter forced it open, and a way opens it.
pub open spec fn stamp(open: bool, painted: NavOverride, o: NavObstacle, cx: int, cz: int) -> bool {
    if !obstacle_covers(o, cx, cz) {
        open
    } else {
        match o.kind {
            NavOverride::ForceBlocked => open && painted == NavOverride::ForceWalkable,
            NavOverride::ForceWalkable => true,
            NavOverride::Default => open,
        }
    }
}

/// Whether a cell is open after all obstacles, one after the other.
pub open spec fn stamped(
    open: bool,
    painted: NavOverride,
    obstacles: Seq<NavObstacle>,
    cx: int,
    cz: int,
) -> bool
    decreases obstacles.len(),
{
    if obstacles.len() == 0 {
        open
    } else {
        stamp(
            stamped(open, painted, obstacles.drop_last(), cx, cz),
            painted,
            obstacles.last(),
            cx,
            cz,
        )
    }
}

/// What a well-formed grid is known to be: its sides are in range, and an open
/// cell lies in it.
pub proof fn lemma_wf_bounds(grid: GridNavQuery)
    requires
        grid.wf(),
    ensures
        0 <= grid.w() <= MAX_GRID_SIDE,
        0 <= grid.h() <= MAX_GRID_SIDE,
        forall|cx: int, cz: int| #[trigger] grid.open_at(cx, cz) ==> grid.in_grid(cx, cz),
{
}

impl GridNavQuery {
    /// Opens or closes one cell.
    fn set_open(&mut self, cx: u32, cz: u32, open: bool)
        requires
            old(self).wf(),
            old(self).in_grid(cx as int, cz as int),
        ensures
            final(self).wf(),
            final(self).same_ground(*old(self)),
            final(self).open_at(cx as int, cz as int) == open,
            forall|x: int, z: int|
                !(x == cx && z == cz) ==> #[trigger] final(self).open_at(x, z) == old(self).open_at(
                    x,
                    z,
                ),
    {
        let i = self.cell_index(cx, cz);
        self.cells.set(i, open);
        proof {
            assert forall|x: int, z: int| !(x == cx && z == cz) implies #[trigger] self.open_at(x, z)
                == old(self).open_at(x, z) by {
                if self.in_grid(x, z) {
                    lemma_place_in_range(self.w(), self.h(), x, z);
                    if cell_place(self.w(), x, z) == i {
                        lemma_place_injective(self.w(), x, z, cx as int, cz as int);
                    }
                }
            }
        }
    }

    /// Stamps one obstacle into the grid.
    fn apply_obstacle(&mut self, o: &NavObstacle)
        requires
            old(self).wf(),
        ensures
            final(self).wf(),
            final(self).same_ground(*old(self)),
            forall|x: int, z: int|
                old(self).in_grid(x, z) ==> #[trigger] final(self).open_at(x, z) == stamp(
                    old(self).open_at(x, z),
                    old(self).painted_at(x, z),
                    *o,
                    x,
                    z,
                ),
    {
        let ghost before = *self;
        let mut cz: u32 = o.z_lo;
        while cz <= o.z_hi && cz < self.height
            invariant
                self.wf(),
                self.same_ground(before),
                cz >= o.z_lo,
                forall|x: int, z: int|
                    before.in_grid(x, z) ==> #[trigger] self.open_at(x, z) == (if z < cz {
                        stamp(before.open_at(x, z), before.painted_at(x, z), *o, x, z)
                    } else {
                        before.open_at(x, z)
                    }),
            decreases self.height - cz,
        {
            let mut cx: u32 = o.x_lo;
            while cx <= o.x_hi && cx < self.width
                invariant
                    self.wf(),
                    self.same_ground(before),
                    o.z_lo <= cz <= o.z_hi,
                    cz < self.height,
                    cx >= o.x_lo,
                    forall|x: int, z: int|
                        before.in_grid(x, z) ==> #[trigger] self.open_at(x, z) == (if z < cz || (z
                            == cz && x < cx) {
                            stamp(before.open_at(x, z), before.painted_at(x, z), *o, x, z)
                        } else {
                            before.open_at(x, z)
                        }),
                decreases self.width - cx,
            {
                let ghost now = *self;
                proof {
                    assert(now.open_at(cx as int, cz as int) == before.open_at(
                        cx as int,
                        cz as int,
                    ));
                }
                match o.kind {
                    NavOverride::ForceBlocked => {
                        if self.cell_override(cx, cz) != NavOverride::ForceWalkable {
                            self.set_open(cx, cz, false);
                        }
                    },
                    NavOverride::ForceWalkable => {
                        self.set_open(cx, cz, true);
                    },
                    NavOverride::Default => {},
                }
                proof {
                    assert forall|x: int, z: int| before.in_grid(x, z) implies #[trigger] self.open_at(
                        x,
                        z,
                    ) == (if z < cz || (z == cz && x < cx + 1) {
                        stamp(before.open_at(x, z), before.painted_at(x, z), *o, x, z)
                    } else {
                        before.open_at(x, z)
                    }) by {
                        assert(now.open_at(x, z) == (if z < cz || (z == cz && x < cx) {
                            stamp(before.open_at(x, z), before.painted_at(x, z), *o, x, z)
                        } else {
                            before.open_at(x, z)
                        }));
                    }
                }
                cx += 1;
            }
            cz += 1;
        }
    }

    /// Stamps obstacles into the grid, one after the other.
    pub fn apply_obstacles(&mut self, obstacles: &[NavObstacle])
        requires
            old(self).wf(),
        ensures
            final(self).wf(),
            final(self).same_ground(*old(self)),
            forall|x: int, z: int|
                old(self).in_grid(x, z) ==> #[trigger] final(self).open_at(x, z) == stamped(
                    old(self).open_at(x, z),
                    old(self).painted_at(x, z),
                    obstacles@,
                    x,
                    z,
                ),
    {
        let ghost before = *self;
        let mut i: usize = 0;
        proof {
            assert(obstacles@.take(0) =~= Seq::<NavObstacle>::empty());
        }
        while i < obstacles.len()
            invariant
                i <= obstacles@.len(),
                self.wf(),
                self.same_ground(before),
                forall|x: int, z: int|
                    before.in_grid(x, z) ==> #[trigger] self.open_at(x, z) == stamped(
                        before.open_at(x, z),
                        before.painted_at(x, z),
                        obstacles@.take(i as int),
                        x,
                        z,
                    ),
            decreases obstacles@.len() - i,
        {
            let ghost now = *self;
            proof {
                assert(obstacles@.take(i + 1).drop_last() =~= obstacles@.take(i as int));
            }
            self.apply_obstacle(&obstacles[i]);
            proof {
                assert forall|x: int, z: int| before.in_grid(x, z) implies #[trigger] self.open_at(
                    x,
                    z,
                ) == stamped(
                    before.open_at(x, z),
                    before.painted_at(x, z),
                    obstacles@.take(i + 1),
                    x,
                    z,
                ) by {
                    assert(now.in_grid(x, z));
                    assert(now.open_at(x, z) == stamped(
                        before.open_at(x, z),
                        before.painted_at(x, z),
                        obstacles@.take(i as int),
                        x,
                        z,
                    ));
                    assert(now.painted_at(x, z) == before.painted_at(x, z));
                }
            }
            i += 1;
        }
        proof {
            assert(obstacles@.take(i as int) =~= obstacles@);
        }
    }
}

/// Walls never close what the painter forced open.
pub proof fn law_painter_wins_over_walls(open: bool, obstacles: Seq<NavObstacle>, cx: int, cz: int)
    requires
        open,
    ensures
        stamped(open, NavOverride::ForceWalkable, obstacles, cx, cz),
    decreases obstacles.len(),
{
    if obstacles.len() > 0 {
        law_painter_wins_over_walls(open, obstacles.drop_last(), cx, cz);
    }
}

/// Of the markers on a cell the last decides: a way opens the cell, and a wall
/// closes it unless the painter forced it open. A marker covers the cells from
/// one of its corners to the other.
pub proof fn law_last_marker_decides(
    open: bool,
    painted: NavOverride,
    obstacles: Seq<NavObstacle>,
    i: int,
    cx: int,
    cz: int,
)
    requires
        0 <= i < obstacles.len(),
        obstacles[i].x_lo <= cx <= obstacles[i].x_hi,
        obstacles[i].z_lo <= cz <= obstacles[i].z_hi,
        forall|j: int|
            i < j < obstacles.len() ==> (#[trigger] obstacles[j]).kind == NavOverride::Default || cx
                < obstacles[j].x_lo || cx > obstacles[j].x_hi || cz < obstacles[j].z_lo || cz
                > obstacles[j].z_hi,
    ensures
        obstacles[i].kind == NavOverride::ForceWalkable ==> stamped(
            open,
            painted,
            obstacles,
            cx,
            cz,
        ),
        obstacles[i].kind == NavOverride::ForceBlocked && painted != NavOverride::ForceWalkable
            ==> !stamped(open, painted, obstacles, cx, cz),
        obstacles[i].kind == NavOverride::ForceBlocked && painted == NavOverride::ForceWalkable
            ==> stamped(open, painted, obstacles, cx, cz) == stamped(
            open,
            painted,
            obstacles.take(i),
            cx,
            cz,
        ),
    decreases obstacles.len(),
{
    let init = obstacles.drop_last();
    if i < obstacles.len() - 1 {
        assert(obstacles[obstacles.len() - 1].kind == NavOverride::Default || !obstacle_covers(
            obstacles.last(),
            cx,
            cz,
        ));
        assert forall|j: int| i < j < init.len() implies (#[trigger] init[j]).kind
            == NavOverride::Default || cx < init[j].x_lo || cx > init[j].x_hi || cz < init[j].z_lo
            || cz > init[j].z_hi by {
            assert(init[j] == obstacles[j]);
        }
        law_last_marker_decides(open, painted, init, i, cx, cz);
        assert(init.take(i) =~= obstacles.take(i));
    } else {
        assert(init =~= obstacles.take(i));
    }
}

/// Obstacles change no cell that they do not cover.
pub proof fn law_obstacles_change_what_they_cover(
    open: bool,
    painted: NavOverride,
    obstacles: Seq<NavObstacle>,
    cx: int,
    cz: int,
)
    requires
        forall|i: int| 0 <= i < obstacles.len() ==> !obstacle_covers(#[trigger] obstacles[i], cx, cz),
    ensures
        stamped(open, painted, obstacles, cx, cz) == open,
    decreases obstacles.len(),
{
    if obstacles.len() > 0 {
        let init = obstacles.drop_last();
        assert forall|i: int| 0 <= i < init.len() implies !obstacle_covers(
            #[trigger] init[i],
            cx,
            cz,
        ) by {
            assert(init[i] == obstacles[i]);
        }
        law_obstacles_change_what_they_cover(open, painted, init, cx, cz);
    }
}

} // verus!
