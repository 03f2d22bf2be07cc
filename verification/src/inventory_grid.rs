//! Placing, moving, merging and consuming stacks in grid inventories.
//!
//! A grid is `width` by `height` cells with its origin at the top left. Every
//! stack covers the rectangle that its item's size gives, turned where the
//! stack lies on its side. In a valid grid every rectangle lies inside and no
//! two overlap.
use vstd::prelude::*;

use crate::components::{GridInventory, ItemInstance, ItemRotation, PlacedItem};
use crate::items::{GridSize, ItemDef, ItemId, ItemRegistry};

verus! {

/// What [`grant_or_merge`] achieved.
#[derive(Debug, Clone, PartialEq, Eq)]
pub enum PlaceOutcome {
    /// Every unit landed. The stacks that changed or are new are listed.
    Placed { touched_indices: Vec<usize> },
    /// `placed` units landed and `remaining` did not fit.
    PartialOrFull { placed: u32, remaining: u32, touched_indices: Vec<usize> },
}

/// Why a placement is refused.
#[derive(Debug, Clone, PartialEq, Eq)]
pub enum PlacementError {
    OutOfBounds { x: u32, y: u32, w: u32, h: u32, gw: u32, gh: u32 },
    Overlap(usize),
    NotRotatable,
    BadIndex(usize),
    UnknownItem(ItemId),
}

/// The footprint of an item that lies as `rotation` says.
pub open spec fn lying(size: GridSize, rotation: ItemRotation) -> GridSize {
    match rotation {
        ItemRotation::Deg0 => size,
        ItemRotation::Deg90 => size.turned(),
    }
}

/// The footprint of an item that lies as `rotation` says.
pub fn footprint(def: &ItemDef, rotation: ItemRotation) -> (r: GridSize)
    ensures
        r == lying(def.size, rotation),
{
    match rotation {
        ItemRotation::Deg0 => def.size,
        ItemRotation::Deg90 => def.size.rotated(),
    }
}

/// The rectangle at `(x, y)` lies inside a `gw` by `gh` grid.
pub open spec fn inside(gw: u32, gh: u32, x: u32, y: u32, w: u32, h: u32) -> bool {
    x + w <= gw && y + h <= gh
}

/// The rectangle at `(x, y)` lies inside the grid.
pub fn in_bounds(grid: &GridInventory, x: u32, y: u32, w: u32, h: u32) -> (r: bool)
    ensures
        r == inside(grid.width, grid.height, x, y, w, h),
{
    let right = match x.checked_add(w) {
        Some(right) => right,
        None => {
            return false;
        },
    };
    let bottom = match y.checked_add(h) {
        Some(bottom) => bottom,
        None => {
            return false;
        },
    };
    right <= grid.width && bottom <= grid.height
}

/// The two rectangles overlap.
pub open spec fn overlap(
    x1: u32,
    y1: u32,
    w1: u32,
    h1: u32,
    x2: u32,
    y2: u32,
    w2: u32,
    h2: u32,
) -> bool {
    x1 < x2 + w2 && x2 < x1 + w1 && y1 < y2 + h2 && y2 < y1 + h1
}

/// The cell `(cx, cy)` belongs to the rectangle at `(x, y)`.
pub open spec fn covers(x: u32, y: u32, w: u32, h: u32, cx: int, cy: int) -> bool {
    x <= cx < x + w && y <= cy < y + h
}

/// Two rectangles with cells overlap iff they share one.
pub proof fn law_overlap_is_sharing_a_cell(
    x1: u32,
    y1: u32,
    w1: u32,
    h1: u32,
    x2: u32,
    y2: u32,
    w2: u32,
    h2: u32,
)
    requires
        w1 > 0 && h1 > 0 && w2 > 0 && h2 > 0,
    ensures
        overlap(x1, y1, w1, h1, x2, y2, w2, h2) <==> exists|cx: int, cy: int|
            covers(x1, y1, w1, h1, cx, cy) && covers(x2, y2, w2, h2, cx, cy),
{
    if overlap(x1, y1, w1, h1, x2, y2, w2, h2) {
        let cx = if x1 > x2 { x1 as int } else { x2 as int };
        let cy = if y1 > y2 { y1 as int } else { y2 as int };
        assert(covers(x1, y1, w1, h1, cx, cy) && covers(x2, y2, w2, h2, cx, cy));
    }
}

/// The two rectangles overlap.
pub fn rects_overlap(
    x1: u32,
    y1: u32,
    w1: u32,
    h1: u32,
    x2: u32,
    y2: u32,
    w2: u32,
    h2: u32,
) -> (r: bool)
    requires
        x1 + w1 <= u32::MAX && y1 + h1 <= u32::MAX,
        x2 + w2 <= u32::MAX && y2 + h2 <= u32::MAX,
    ensures
        r == overlap(x1, y1, w1, h1, x2, y2, w2, h2),
{
    let a_right: u32 = x1 + w1;
    let a_bottom: u32 = y1 + h1;
    let b_right: u32 = x2 + w2;
    let b_bottom: u32 = y2 + h2;
    x1 < b_right && x2 < a_right && y1 < b_bottom && y2 < a_bottom
}

/// The footprint of a placed stack; one cell for an item that `defs` lacks.
pub open spec fn placed_size(defs: Map<Seq<char>, ItemDef>, p: PlacedItem) -> GridSize {
    if defs.contains_key(p.stack.id@) {
        lying(defs[p.stack.id@].size, p.rotation)
    } else {
        GridSize { w: 1, h: 1 }
    }
}

/// The placed stack overlaps the rectangle at `(x, y)`.
pub open spec fn in_the_way(
    defs: Map<Seq<char>, ItemDef>,
    p: PlacedItem,
    x: u32,
    y: u32,
    w: u32,
    h: u32,
) -> bool {
    overlap(x, y, w, h, p.x, p.y, placed_size(defs, p).w, placed_size(defs, p).h)
}

/// The first stack from position `k` on that is in the way.
pub open spec fn first_clash(
    defs: Map<Seq<char>, ItemDef>,
    placed: Seq<PlacedItem>,
    x: u32,
    y: u32,
    w: u32,
    h: u32,
    ignore: Option<usize>,
    k: int,
) -> Option<int>
    decreases placed.len() - k,
{
    if k < 0 || k >= placed.len() {
        None
    } else if !(ignore is Some && ignore->0 == k) && in_the_way(defs, placed[k], x, y, w, h) {
        Some(k)
    } else {
        first_clash(defs, placed, x, y, w, h, ignore, k + 1)
    }
}

/// Whether a rectangle can go at `(x, y)`, and if not, why.
pub open spec fn fit(
    defs: Map<Seq<char>, ItemDef>,
    gw: u32,
    gh: u32,
    placed: Seq<PlacedItem>,
    x: u32,
    y: u32,
    w: u32,
    h: u32,
    ignore: Option<usize>,
) -> Result<(), PlacementError> {
    if !inside(gw, gh, x, y, w, h) {
        Err(PlacementError::OutOfBounds { x, y, w, h, gw, gh })
    } else {
        match first_clash(defs, placed, x, y, w, h, ignore, 0) {
            Some(i) => Err(PlacementError::Overlap(i as usize)),
            None => Ok(()),
        }
    }
}

/// The far edges of every placed stack are representable.
pub open spec fn edges_fit(defs: Map<Seq<char>, ItemDef>, placed: Seq<PlacedItem>) -> bool {
    forall|i: int|
        0 <= i < placed.len() ==> (#[trigger] placed[i]).x + placed_size(defs, placed[i]).w
            <= u32::MAX && placed[i].y + placed_size(defs, placed[i]).h <= u32::MAX
}

/// Every stack lies inside the grid.
pub open spec fn all_inside(
    defs: Map<Seq<char>, ItemDef>,
    gw: u32,
    gh: u32,
    placed: Seq<PlacedItem>,
) -> bool {
    forall|i: int|
        0 <= i < placed.len() ==> inside(
            gw,
            gh,
            (#[trigger] placed[i]).x,
            placed[i].y,
            placed_size(defs, placed[i]).w,
            placed_size(defs, placed[i]).h,
        )
}

/// No two stacks overlap.
pub open spec fn none_overlap(defs: Map<Seq<char>, ItemDef>, placed: Seq<PlacedItem>) -> bool {
    forall|i: int, j: int|
        0 <= i < j < placed.len() ==> !overlap(
            (#[trigger] placed[i]).x,
            placed[i].y,
            placed_size(defs, placed[i]).w,
            placed_size(defs, placed[i]).h,
            (#[trigger] placed[j]).x,
            placed[j].y,
            placed_size(defs, placed[j]).w,
            placed_size(defs, placed[j]).h,
        )
}

/// Every stack lies inside the grid and no two overlap.
pub open spec fn valid(
    defs: Map<Seq<char>, ItemDef>,
    gw: u32,
    gh: u32,
    placed: Seq<PlacedItem>,
) -> bool {
    all_inside(defs, gw, gh, placed) && none_overlap(defs, placed)
}

/// In a valid grid every far edge is representable.
pub proof fn law_valid_edges_fit(
    defs: Map<Seq<char>, ItemDef>,
    gw: u32,
    gh: u32,
    placed: Seq<PlacedItem>,
)
    requires
        valid(defs, gw, gh, placed),
    ensures
        edges_fit(defs, placed),
{
}

/// The first clash is a clash, and none comes before it.
proof fn lemma_first_clash(
    defs: Map<Seq<char>, ItemDef>,
    placed: Seq<PlacedItem>,
    x: u32,
    y: u32,
    w: u32,
    h: u32,
    ignore: Option<usize>,
    k: int,
)
    requires
        0 <= k,
    ensures
        match first_clash(defs, placed, x, y, w, h, ignore, k) {
            Some(i) => k <= i < placed.len() && in_the_way(defs, placed[i], x, y, w, h) && !(ignore
                is Some && ignore->0 == i) && forall|j: int|
                k <= j < i ==> (ignore is Some && ignore->0 == j) || !in_the_way(
                    defs,
                    #[trigger] placed[j],
                    x,
                    y,
                    w,
                    h,
                ),
            None => forall|j: int|
                k <= j < placed.len() ==> (ignore is Some && ignore->0 == j) || !in_the_way(
                    defs,
                    #[trigger] placed[j],
                    x,
                    y,
                    w,
                    h,
                ),
        },
    decreases placed.len() - k,
{
    if k < placed.len() {
        lemma_first_clash(defs, placed, x, y, w, h, ignore, k + 1);
    }
}

/// Whether a rectangle can go at `(x, y)`, taking every placed stack to cover
/// one cell. The stack at `ignore_idx` does not count.
pub fn fits_at(
    grid: &GridInventory,
    x: u32,
    y: u32,
    w: u32,
    h: u32,
    ignore_idx: Option<usize>,
) -> (r: Result<(), PlacementError>)
    requires
        edges_fit(Map::empty(), grid.items@),
    ensures
        r == fit(
            Map::empty(),
            grid.width,
            grid.height,
            grid.items@,
            x,
            y,
            w,
            h,
            ignore_idx,
        ),
{
    let empty = ItemRegistry::empty_for_test();
    fits_at_with_registry(grid, &empty, x, y, w, h, ignore_idx)
}

/// Whether a rectangle can go at `(x, y)`. The stack at `ignore_idx` does not
/// count.
pub fn fits_at_with_registry(
    grid: &GridInventory,
    registry: &ItemRegistry,
    x: u32,
    y: u32,
    w: u32,
    h: u32,
    ignore_idx: Option<usize>,
) -> (r: Result<(), PlacementError>)
    requires
        edges_fit(registry@, grid.items@),
    ensures
        r == fit(
            registry@,
            grid.width,
            grid.height,
            grid.items@,
            x,
            y,
            w,
            h,
            ignore_idx,
        ),
{
    if !in_bounds(grid, x, y, w, h) {
        return Err(
            PlacementError::OutOfBounds { x, y, w, h, gw: grid.width, gh: grid.height },
        );
    }
    let mut i: usize = 0;
    while i < grid.items.len()
        invariant
            i <= grid.items@.len(),
            inside(grid.width, grid.height, x, y, w, h),
            edges_fit(registry@, grid.items@),
            first_clash(registry@, grid.items@, x, y, w, h, ignore_idx, 0) == first_clash(
                registry@,
                grid.items@,
                x,
                y,
                w,
                h,
                ignore_idx,
                i as int,
            ),
        decreases grid.items@.len() - i,
    {
        let skip = match ignore_idx {
            Some(k) => k == i,
            None => false,
        };
        if !skip {
            let p = &grid.items[i];
            let size = match registry.get(&p.stack.id) {
                Some(def) => footprint(def, p.rotation),
                None => GridSize { w: 1, h: 1 },
            };
            assert(size == placed_size(registry@, grid.items@[i as int]));
            if rects_overlap(x, y, w, h, p.x, p.y, size.w, size.h) {
                return Err(PlacementError::Overlap(i));
            }
        }
        i += 1;
    }
    Ok(())
}

/// A rectangle can go at `(x, y)`.
pub open spec fn fits(
    defs: Map<Seq<char>, ItemDef>,
    gw: u32,
    gh: u32,
    placed: Seq<PlacedItem>,
    w: u32,
    h: u32,
    x: u32,
    y: u32,
) -> bool {
    fit(defs, gw, gh, placed, x, y, w, h, None) is Ok
}

/// `(x, y)` is the first place, row by row from the top, where a rectangle
/// with cells can go.
pub open spec fn is_first_fit(
    defs: Map<Seq<char>, ItemDef>,
    gw: u32,
    gh: u32,
    placed: Seq<PlacedItem>,
    w: u32,
    h: u32,
    x: u32,
    y: u32,
) -> bool {
    &&& w > 0 && h > 0
    &&& fits(defs, gw, gh, placed, w, h, x, y)
    &&& forall|a: u32, b: u32| #[trigger]
        fits(defs, gw, gh, placed, w, h, a, b) ==> y < b || (y == b && x <= a)
}

/// No rectangle of that size can go anywhere, or it has no cells.
pub open spec fn no_fit(
    defs: Map<Seq<char>, ItemDef>,
    gw: u32,
    gh: u32,
    placed: Seq<PlacedItem>,
    w: u32,
    h: u32,
) -> bool {
    w == 0 || h == 0 || forall|a: u32, b: u32| !#[trigger] fits(defs, gw, gh, placed, w, h, a, b)
}

/// The first place, row by row from the top, where the rectangle can go.
pub fn find_first_fit(
    grid: &GridInventory,
    registry: &ItemRegistry,
    w: u32,
    h: u32,
) -> (r: Option<(u32, u32)>)
    requires
        edges_fit(registry@, grid.items@),
    ensures
        match r {
            Some(at) => is_first_fit(
                registry@,
                grid.width,
                grid.height,
                grid.items@,
                w,
                h,
                at.0,
                at.1,
            ),
            None => no_fit(registry@, grid.width, grid.height, grid.items@, w, h),
        },
{
    if w == 0 || h == 0 || w > grid.width || h > grid.height {
        return None;
    }
    let last_x: u32 = grid.width - w;
    let last_y: u32 = grid.height - h;
    let mut y: u32 = 0;
    loop
        invariant
            w > 0 && h > 0,
            last_x == grid.width - w,
            last_y == grid.height - h,
            y <= last_y,
            edges_fit(registry@, grid.items@),
            forall|a: u32, b: u32|
                b < y ==> !#[trigger] fits(
                    registry@,
                    grid.width,
                    grid.height,
                    grid.items@,
                    w,
                    h,
                    a,
                    b,
                ),
        decreases last_y - y,
    {
        let mut x: u32 = 0;
        loop
            invariant
                w > 0 && h > 0,
                last_x == grid.width - w,
                last_y == grid.height - h,
                y <= last_y,
                x <= last_x,
                edges_fit(registry@, grid.items@),
                forall|a: u32, b: u32|
                    b < y || (b == y && a < x) ==> !#[trigger] fits(
                        registry@,
                        grid.width,
                        grid.height,
                        grid.items@,
                        w,
                        h,
                        a,
                        b,
                    ),
            ensures
                forall|a: u32, b: u32|
                    b <= y ==> !#[trigger] fits(
                        registry@,
                        grid.width,
                        grid.height,
                        grid.items@,
                        w,
                        h,
                        a,
                        b,
                    ),
            decreases last_x - x,
        {
            if fits_at_with_registry(grid, registry, x, y, w, h, None).is_ok() {
                assert(fits(registry@, grid.width, grid.height, grid.items@, w, h, x, y));
                return Some((x, y));
            }
            assert(!fits(registry@, grid.width, grid.height, grid.items@, w, h, x, y));
            if x == last_x {
                break;
            }
            x += 1;
        }
        if y == last_y {
            return None;
        }
        y += 1;
    }
}

/// The first place where the item can go, upright or, where it may, on its
/// side.
pub open spec fn is_first_fit_any(
    defs: Map<Seq<char>, ItemDef>,
    gw: u32,
    gh: u32,
    placed: Seq<PlacedItem>,
    def: ItemDef,
    x: u32,
    y: u32,
    rotation: ItemRotation,
) -> bool {
    match rotation {
        ItemRotation::Deg0 => is_first_fit(defs, gw, gh, placed, def.size.w, def.size.h, x, y),
        ItemRotation::Deg90 => no_fit(defs, gw, gh, placed, def.size.w, def.size.h) && def.rotatable
            && def.size.w != def.size.h && is_first_fit(
            defs,
            gw,
            gh,
            placed,
            def.size.h,
            def.size.w,
            x,
            y,
        ),
    }
}

/// The item can go nowhere, neither upright nor, where it may, on its side.
pub open spec fn no_fit_any(
    defs: Map<Seq<char>, ItemDef>,
    gw: u32,
    gh: u32,
    placed: Seq<PlacedItem>,
    def: ItemDef,
) -> bool {
    no_fit(defs, gw, gh, placed, def.size.w, def.size.h) && (def.rotatable && def.size.w
        != def.size.h ==> no_fit(defs, gw, gh, placed, def.size.h, def.size.w))
}

/// Where the item can go: the first place upright, else the first on its side
/// where it may lie so.
pub fn find_first_fit_any_rotation(
    grid: &GridInventory,
    registry: &ItemRegistry,
    def: &ItemDef,
) -> (r: Option<(u32, u32, ItemRotation)>)
    requires
        edges_fit(registry@, grid.items@),
    ensures
        match r {
            Some(at) => is_first_fit_any(
                registry@,
                grid.width,
                grid.height,
                grid.items@,
                *def,
                at.0,
                at.1,
                at.2,
            ),
            None => no_fit_any(registry@, grid.width, grid.height, grid.items@, *def),
        },
{
    let s = def.size;
    if let Some((x, y)) = find_first_fit(grid, registry, s.w, s.h) {
        return Some((x, y, ItemRotation::Deg0));
    }
    if def.rotatable && def.size.w != def.size.h {
        let s = def.size.rotated();
        if let Some((x, y)) = find_first_fit(grid, registry, s.w, s.h) {
            return Some((x, y, ItemRotation::Deg90));
        }
    }
    None
}

/// The first place is unique.
pub proof fn law_first_fit_is_unique(
    defs: Map<Seq<char>, ItemDef>,
    gw: u32,
    gh: u32,
    placed: Seq<PlacedItem>,
    w: u32,
    h: u32,
    x1: u32,
    y1: u32,
    x2: u32,
    y2: u32,
)
    requires
        is_first_fit(defs, gw, gh, placed, w, h, x1, y1),
        is_first_fit(defs, gw, gh, placed, w, h, x2, y2),
    ensures
        x1 == x2 && y1 == y2,
{
}

/// What lies inside a container that was just placed: an empty grid of the
/// size that the item gives, with a cell each way at the least.
pub open spec fn fresh_inner(def: ItemDef, inner: Option<GridInventory>) -> bool {
    match def.inner_grid {
        None => inner is None,
        Some(s) => {
            &&& inner is Some
            &&& inner->0.width == (if s.w > 1 { s.w } else { 1 })
            &&& inner->0.height == (if s.h > 1 { s.h } else { 1 })
            &&& inner->0.items@ == Seq::<PlacedItem>::empty()
        },
    }
}

/// Whether a stack of `id` can go at `(x, y)`, and if not, why.
pub open spec fn placement(
    defs: Map<Seq<char>, ItemDef>,
    gw: u32,
    gh: u32,
    placed: Seq<PlacedItem>,
    id: ItemId,
    x: u32,
    y: u32,
    rotation: ItemRotation,
    ignore: Option<usize>,
) -> Result<(), PlacementError> {
    if !defs.contains_key(id@) {
        Err(PlacementError::UnknownItem(id))
    } else if rotation == ItemRotation::Deg90 && !defs[id@].rotatable {
        Err(PlacementError::NotRotatable)
    } else {
        let size = lying(defs[id@].size, rotation);
        fit(defs, gw, gh, placed, x, y, size.w, size.h, ignore)
    }
}

/// A stack that goes where nothing is in the way keeps the grid valid.
proof fn lemma_push_keeps_valid(
    defs: Map<Seq<char>, ItemDef>,
    gw: u32,
    gh: u32,
    placed: Seq<PlacedItem>,
    p: PlacedItem,
)
    requires
        placement(defs, gw, gh, placed, p.stack.id, p.x, p.y, p.rotation, None) is Ok,
    ensures
        valid(defs, gw, gh, placed) ==> valid(defs, gw, gh, placed.push(p)),
        edges_fit(defs, placed) ==> edges_fit(defs, placed.push(p)),
{
    let size = lying(defs[p.stack.id@].size, p.rotation);
    lemma_first_clash(defs, placed, p.x, p.y, size.w, size.h, None, 0);
    assert(placed_size(defs, p) == size);
    let after = placed.push(p);
    if valid(defs, gw, gh, placed) {
        assert forall|i: int, j: int| 0 <= i < j < after.len() implies !overlap(
            (#[trigger] after[i]).x,
            after[i].y,
            placed_size(defs, after[i]).w,
            placed_size(defs, after[i]).h,
            (#[trigger] after[j]).x,
            after[j].y,
            placed_size(defs, after[j]).w,
            placed_size(defs, after[j]).h,
        ) by {
            assert(after[i] == placed[i]);
            if j < placed.len() {
                assert(after[j] == placed[j]);
            } else {
                assert(!in_the_way(defs, placed[i], p.x, p.y, size.w, size.h));
            }
        }
        assert forall|i: int| 0 <= i < after.len() implies inside(
            gw,
            gh,
            (#[trigger] after[i]).x,
            after[i].y,
            placed_size(defs, after[i]).w,
            placed_size(defs, after[i]).h,
        ) by {
            if i < placed.len() {
                assert(after[i] == placed[i]);
            }
        }
    }
    if edges_fit(defs, placed) {
        assert forall|i: int| 0 <= i < after.len() implies (#[trigger] after[i]).x + placed_size(
            defs,
            after[i],
        ).w <= u32::MAX && after[i].y + placed_size(defs, after[i]).h <= u32::MAX by {
            if i < placed.len() {
                assert(after[i] == placed[i]);
            }
        }
    }
}

/// Places a new stack. It does not merge with others. Returns its index.
pub fn place_at(
    grid: &mut GridInventory,
    registry: &ItemRegistry,
    stack: ItemInstance,
    x: u32,
    y: u32,
    rotation: ItemRotation,
) -> (r: Result<usize, PlacementError>)
    requires
        edges_fit(registry@, old(grid).items@),
    ensures
        final(grid).width == old(grid).width,
        final(grid).height == old(grid).height,
        match placement(
            registry@,
            old(grid).width,
            old(grid).height,
            old(grid).items@,
            stack.id,
            x,
            y,
            rotation,
            None,
        ) {
            Err(e) => r == Err::<usize, PlacementError>(e) && final(grid).items@ == old(grid).items@,
            Ok(()) => {
                let p = final(grid).items@.last();
                &&& r == Ok::<usize, PlacementError>(old(grid).items@.len() as usize)
                &&& final(grid).items@ == old(grid).items@.push(p)
                &&& p.stack == stack
                &&& p.x == x && p.y == y && p.rotation == rotation
                &&& fresh_inner(registry@[stack.id@], p.inner_grid)
            },
        },
        edges_fit(registry@, final(grid).items@),
        valid(registry@, old(grid).width, old(grid).height, old(grid).items@) ==> valid(
            registry@,
            final(grid).width,
            final(grid).height,
            final(grid).items@,
        ),
{
    let inner = match registry.get(&stack.id) {
        Some(def) => match def.inner_grid {
            Some(s) => {
                let w: u32 = if s.w > 1 { s.w } else { 1 };
                let h: u32 = if s.h > 1 { s.h } else { 1 };
                Some(GridInventory::new(w, h))
            },
            None => None,
        },
        None => None,
    };
    place_at_with_inner(grid, registry, stack, inner, x, y, rotation)
}

/// Places a stack along with what is in it. Returns its index.
pub fn place_at_with_inner(
    grid: &mut GridInventory,
    registry: &ItemRegistry,
    stack: ItemInstance,
    inner_grid: Option<GridInventory>,
    x: u32,
    y: u32,
    rotation: ItemRotation,
) -> (r: Result<usize, PlacementError>)
    requires
        edges_fit(registry@, old(grid).items@),
    ensures
        final(grid).width == old(grid).width,
        final(grid).height == old(grid).height,
        match placement(
            registry@,
            old(grid).width,
            old(grid).height,
            old(grid).items@,
            stack.id,
            x,
            y,
            rotation,
            None,
        ) {
            Err(e) => r == Err::<usize, PlacementError>(e) && final(grid).items@ == old(grid).items@,
            Ok(()) => r == Ok::<usize, PlacementError>(old(grid).items@.len() as usize) && final(grid).items@ == old(grid).items@.push(PlacedItem { stack, x, y, rotation, inner_grid }),
        },
        edges_fit(registry@, final(grid).items@),
        valid(registry@, old(grid).width, old(grid).height, old(grid).items@) ==> valid(
            registry@,
            final(grid).width,
            final(grid).height,
            final(grid).items@,
        ),
{
    let def = match registry.get(&stack.id) {
        Some(def) => def,
        None => {
            return Err(PlacementError::UnknownItem(stack.id.clone()));
        },
    };
    if rotation == ItemRotation::Deg90 && !def.rotatable {
        return Err(PlacementError::NotRotatable);
    }
    let size = footprint(def, rotation);
    if let Err(e) = fits_at_with_registry(grid, registry, x, y, size.w, size.h, None) {
        return Err(e);
    }
    let p = PlacedItem { stack, x, y, rotation, inner_grid };
    proof {
        lemma_push_keeps_valid(registry@, grid.width, grid.height, grid.items@, p);
    }
    grid.items.push(p);
    Ok(grid.items.len() - 1)
}

/// Dropping a stack keeps the grid valid.
proof fn lemma_remove_keeps_valid(
    defs: Map<Seq<char>, ItemDef>,
    gw: u32,
    gh: u32,
    placed: Seq<PlacedItem>,
    k: int,
)
    requires
        0 <= k < placed.len(),
        valid(defs, gw, gh, placed),
    ensures
        valid(defs, gw, gh, placed.remove(k)),
{
    let after = placed.remove(k);
    assert forall|i: int, j: int| 0 <= i < j < after.len() implies !overlap(
        (#[trigger] after[i]).x,
        after[i].y,
        placed_size(defs, after[i]).w,
        placed_size(defs, after[i]).h,
        (#[trigger] after[j]).x,
        after[j].y,
        placed_size(defs, after[j]).w,
        placed_size(defs, after[j]).h,
    ) by {
        let a = if i < k { i } else { i + 1 };
        let b = if j < k { j } else { j + 1 };
        assert(after[i] == placed[a] && after[j] == placed[b]);
    }
    assert forall|i: int| 0 <= i < after.len() implies inside(
        gw,
        gh,
        (#[trigger] after[i]).x,
        after[i].y,
        placed_size(defs, after[i]).w,
        placed_size(defs, after[i]).h,
    ) by {
        let a = if i < k { i } else { i + 1 };
        assert(after[i] == placed[a]);
    }
}

/// Takes the stack at `idx` out; those after it move down by one.
pub fn remove(grid: &mut GridInventory, idx: usize) -> (r: Result<PlacedItem, PlacementError>)
    ensures
        final(grid).width == old(grid).width,
        final(grid).height == old(grid).height,
        if idx < old(grid).items@.len() {
            r == Ok::<PlacedItem, PlacementError>(old(grid).items@[idx as int]) && final(grid).items@ == old(grid).items@.remove(idx as int)
        } else {
            r == Err::<PlacedItem, PlacementError>(PlacementError::BadIndex(idx)) && final(grid).items@ == old(grid).items@
        },
        forall|defs: Map<Seq<char>, ItemDef>|
            valid(defs, old(grid).width, old(grid).height, old(grid).items@) ==> #[trigger] valid(
                defs,
                final(grid).width,
                final(grid).height,
                final(grid).items@,
            ),
{
    if idx >= grid.items.len() {
        return Err(PlacementError::BadIndex(idx));
    }
    proof {
        assert forall|defs: Map<Seq<char>, ItemDef>|
            valid(defs, grid.width, grid.height, grid.items@) implies #[trigger] valid(
            defs,
            grid.width,
            grid.height,
            grid.items@.remove(idx as int),
        ) by {
            lemma_remove_keeps_valid(defs, grid.width, grid.height, grid.items@, idx as int);
        }
    }
    Ok(grid.items.remove(idx))
}

/// The stack moved to a new place.
pub open spec fn moved(p: PlacedItem, x: u32, y: u32, rotation: ItemRotation) -> PlacedItem {
    PlacedItem { x, y, rotation, ..p }
}

proof fn lemma_move_keeps_valid(
    defs: Map<Seq<char>, ItemDef>,
    gw: u32,
    gh: u32,
    placed: Seq<PlacedItem>,
    k: usize,
    x: u32,
    y: u32,
    rotation: ItemRotation,
)
    requires
        0 <= k < placed.len(),
        placement(defs, gw, gh, placed, placed[k as int].stack.id, x, y, rotation, Some(k)) is Ok,
    ensures
        valid(defs, gw, gh, placed) ==> valid(
            defs,
            gw,
            gh,
            placed.update(k as int, moved(placed[k as int], x, y, rotation)),
        ),
{
    let p = moved(placed[k as int], x, y, rotation);
    let size = lying(defs[p.stack.id@].size, rotation);
    lemma_first_clash(defs, placed, x, y, size.w, size.h, Some(k), 0);
    assert(placed_size(defs, p) == size);
    let after = placed.update(k as int, p);
    if valid(defs, gw, gh, placed) {
        assert forall|i: int, j: int| 0 <= i < j < after.len() implies !overlap(
            (#[trigger] after[i]).x,
            after[i].y,
            placed_size(defs, after[i]).w,
            placed_size(defs, after[i]).h,
            (#[trigger] after[j]).x,
            after[j].y,
            placed_size(defs, after[j]).w,
            placed_size(defs, after[j]).h,
        ) by {
            if i == k {
                assert(after[j] == placed[j]);
                assert(!in_the_way(defs, placed[j], x, y, size.w, size.h));
            } else if j == k {
                assert(after[i] == placed[i]);
                assert(!in_the_way(defs, placed[i], x, y, size.w, size.h));
            } else {
                assert(after[i] == placed[i] && after[j] == placed[j]);
            }
        }
        assert forall|i: int| 0 <= i < after.len() implies inside(
            gw,
            gh,
            (#[trigger] after[i]).x,
            after[i].y,
            placed_size(defs, after[i]).w,
            placed_size(defs, after[i]).h,
        ) by {
            if i != k {
                assert(after[i] == placed[i]);
            }
        }
    }
}

/// What [`move_within`] returns.
pub open spec fn move_result(
    defs: Map<Seq<char>, ItemDef>,
    grid: GridInventory,
    idx: usize,
    x: u32,
    y: u32,
    rotation: ItemRotation,
) -> Result<(), PlacementError> {
    if idx >= grid.items@.len() {
        Err(PlacementError::BadIndex(idx))
    } else {
        placement(
            defs,
            grid.width,
            grid.height,
            grid.items@,
            grid.items@[idx as int].stack.id,
            x,
            y,
            rotation,
            Some(idx),
        )
    }
}

/// Moves a stack to another place in the same grid. It is not in its own way.
pub fn move_within(
    grid: &mut GridInventory,
    registry: &ItemRegistry,
    idx: usize,
    new_x: u32,
    new_y: u32,
    new_rotation: ItemRotation,
) -> (r: Result<(), PlacementError>)
    requires
        edges_fit(registry@, old(grid).items@),
    ensures
        r == move_result(registry@, *old(grid), idx, new_x, new_y, new_rotation),
        final(grid).width == old(grid).width,
        final(grid).height == old(grid).height,
        r is Ok ==> final(grid).items@ == old(grid).items@.update(
            idx as int,
            moved(old(grid).items@[idx as int], new_x, new_y, new_rotation),
        ),
        r is Err ==> final(grid).items@ == old(grid).items@,
        valid(registry@, old(grid).width, old(grid).height, old(grid).items@) ==> valid(
            registry@,
            final(grid).width,
            final(grid).height,
            final(grid).items@,
        ),
{
    if idx >= grid.items.len() {
        return Err(PlacementError::BadIndex(idx));
    }
    let def = match registry.get(&grid.items[idx].stack.id) {
        Some(def) => def,
        None => {
            return Err(PlacementError::UnknownItem(grid.items[idx].stack.id.clone()));
        },
    };
    if new_rotation == ItemRotation::Deg90 && !def.rotatable {
        return Err(PlacementError::NotRotatable);
    }
    let size = footprint(def, new_rotation);
    if let Err(e) = fits_at_with_registry(grid, registry, new_x, new_y, size.w, size.h, Some(idx)) {
        return Err(e);
    }
    proof {
        lemma_move_keeps_valid(
            registry@,
            grid.width,
            grid.height,
            grid.items@,
            idx,
            new_x,
            new_y,
            new_rotation,
        );
    }
    grid.items[idx].x = new_x;
    grid.items[idx].y = new_y;
    grid.items[idx].rotation = new_rotation;
    proof {
        assert(grid.items@ =~= old(grid).items@.update(
            idx as int,
            moved(old(grid).items@[idx as int], new_x, new_y, new_rotation),
        ));
    }
    Ok(())
}

/// How many units of `id` the stacks hold.
pub open spec fn units_of(placed: Seq<PlacedItem>, id: Seq<char>) -> int
    decreases placed.len(),
{
    if placed.len() == 0 {
        0
    } else {
        units_of(placed.drop_last(), id) + (if placed.last().stack.id@ == id {
            placed.last().stack.count as int
        } else {
            0
        })
    }
}

proof fn lemma_units_monotone(placed: Seq<PlacedItem>, id: Seq<char>, k: int)
    requires
        0 <= k <= placed.len(),
    ensures
        0 <= units_of(placed.take(k), id) <= units_of(placed, id),
    decreases placed.len(),
{
    if k == placed.len() {
        assert(placed.take(k) =~= placed);
        if k > 0 {
            lemma_units_monotone(placed.drop_last(), id, k - 1);
            assert(placed.drop_last().take(k - 1) =~= placed.drop_last());
        }
    } else {
        lemma_units_monotone(placed.drop_last(), id, k);
        assert(placed.drop_last().take(k) =~= placed.take(k));
    }
}

/// How many units of `id` the grid holds.
pub fn count_of(grid: &GridInventory, id: &ItemId) -> (r: u32)
    requires
        units_of(grid.items@, id@) <= u32::MAX,
    ensures
        r == units_of(grid.items@, id@),
{
    let mut sum: u32 = 0;
    let mut i: usize = 0;
    proof {
        assert(grid.items@.take(0) =~= Seq::<PlacedItem>::empty());
    }
    while i < grid.items.len()
        invariant
            i <= grid.items@.len(),
            sum == units_of(grid.items@.take(i as int), id@),
            units_of(grid.items@, id@) <= u32::MAX,
        decreases grid.items@.len() - i,
    {
        proof {
            assert(grid.items@.take(i + 1).drop_last() =~= grid.items@.take(i as int));
            lemma_units_monotone(grid.items@, id@, i + 1);
        }
        if grid.items[i].stack.id.same(id) {
            sum += grid.items[i].stack.count;
        }
        i += 1;
    }
    proof {
        assert(grid.items@.take(i as int) =~= grid.items@);
    }
    sum
}

/// The stack with another count.
pub open spec fn with_count(p: PlacedItem, count: int) -> PlacedItem {
    PlacedItem { stack: ItemInstance { count: count as u32, ..p.stack }, ..p }
}

/// What is left of the stacks when `count` units of `id` are taken from the
/// front: stacks that run empty go.
pub open spec fn consumed_from(placed: Seq<PlacedItem>, id: Seq<char>, count: int) -> Seq<PlacedItem>
    decreases placed.len(),
{
    if placed.len() == 0 || count <= 0 {
        placed
    } else if placed[0].stack.id@ != id {
        seq![placed[0]] + consumed_from(placed.drop_first(), id, count)
    } else if placed[0].stack.count <= count {
        consumed_from(placed.drop_first(), id, count - placed[0].stack.count)
    } else {
        seq![with_count(placed[0], placed[0].stack.count - count)] + placed.drop_first()
    }
}

/// Units held by two runs of stacks.
proof fn lemma_units_concat(a: Seq<PlacedItem>, b: Seq<PlacedItem>, id: Seq<char>)
    ensures
        units_of(a + b, id) == units_of(a, id) + units_of(b, id),
    decreases b.len(),
{
    if b.len() == 0 {
        assert(a + b =~= a);
    } else {
        assert((a + b).drop_last() =~= a + b.drop_last());
        lemma_units_concat(a, b.drop_last(), id);
    }
}

proof fn lemma_units_first(placed: Seq<PlacedItem>, id: Seq<char>)
    requires
        placed.len() > 0,
    ensures
        units_of(placed, id) == (if placed[0].stack.id@ == id {
            placed[0].stack.count as int
        } else {
            0
        }) + units_of(placed.drop_first(), id),
{
    let head = seq![placed[0]];
    assert(placed =~= head + placed.drop_first());
    lemma_units_concat(head, placed.drop_first(), id);
    assert(head.drop_last() =~= Seq::<PlacedItem>::empty());
    reveal_with_fuel(units_of, 2);
}

/// Taking `count` units of `id` leaves that many fewer, or none where there
/// were not so many, and leaves every other item alone.
pub proof fn law_consume_takes_what_is_there(
    placed: Seq<PlacedItem>,
    id: Seq<char>,
    count: int,
    other: Seq<char>,
)
    requires
        count >= 0,
    ensures
        units_of(consumed_from(placed, id, count), id) == (if units_of(placed, id) > count {
            units_of(placed, id) - count
        } else {
            0
        }),
        other != id ==> units_of(consumed_from(placed, id, count), other) == units_of(
            placed,
            other,
        ),
        units_of(placed, id) >= 0,
    decreases placed.len(),
{
    if placed.len() > 0 {
        let rest = placed.drop_first();
        lemma_units_first(placed, id);
        lemma_units_first(placed, other);
        if count == 0 {
            law_consume_takes_what_is_there(rest, id, 0, other);
        } else if placed[0].stack.id@ != id {
            law_consume_takes_what_is_there(rest, id, count, other);
            let after = consumed_from(placed, id, count);
            assert(after.drop_first() =~= consumed_from(rest, id, count));
            lemma_units_first(after, id);
            lemma_units_first(after, other);
        } else if placed[0].stack.count <= count {
            law_consume_takes_what_is_there(rest, id, count - placed[0].stack.count, other);
        } else {
            law_consume_takes_what_is_there(rest, id, 0, other);
            let after = consumed_from(placed, id, count);
            assert(after.drop_first() =~= rest);
            lemma_units_first(after, id);
            lemma_units_first(after, other);
        }
    }
}

/// The two stacks are of one item and lie in one place.
spec fn same_spot(a: PlacedItem, b: PlacedItem) -> bool {
    a.stack.id == b.stack.id && a.x == b.x && a.y == b.y && a.rotation == b.rotation
}

/// What is left after a consume lies where it lay.
proof fn lemma_consumed_spots(placed: Seq<PlacedItem>, id: Seq<char>, count: int)
    ensures
        forall|i: int|
            0 <= i < consumed_from(placed, id, count).len() ==> exists|j: int|
                0 <= j < placed.len() && same_spot(
                    #[trigger] consumed_from(placed, id, count)[i],
                    #[trigger] placed[j],
                ),
    decreases placed.len(),
{
    let after = consumed_from(placed, id, count);
    if placed.len() == 0 || count <= 0 {
        assert forall|i: int| 0 <= i < after.len() implies exists|j: int|
            0 <= j < placed.len() && same_spot(#[trigger] after[i], #[trigger] placed[j]) by {
            assert(same_spot(after[i], placed[i]));
        }
    } else {
        let rest = placed.drop_first();
        let left = if placed[0].stack.id@ != id {
            count
        } else {
            count - placed[0].stack.count
        };
        lemma_consumed_spots(rest, id, left);
        let kept = placed[0].stack.id@ != id || placed[0].stack.count > count;
        assert forall|i: int| 0 <= i < after.len() implies exists|j: int|
            0 <= j < placed.len() && same_spot(#[trigger] after[i], #[trigger] placed[j]) by {
            if kept && i == 0 {
                assert(same_spot(after[0], placed[0]));
            } else if placed[0].stack.id@ == id && kept {
                assert(same_spot(after[i], placed[i]));
            } else {
                let k = if kept { i - 1 } else { i };
                let tail = consumed_from(rest, id, left);
                assert(after[i] == tail[k]);
                let m = choose|m: int|
                    0 <= m < rest.len() && same_spot(tail[k], #[trigger] rest[m]);
                assert(same_spot(after[i], placed[m + 1]));
            }
        }
    }
}

/// Consuming keeps the grid valid.
pub proof fn law_consume_keeps_valid(
    defs: Map<Seq<char>, ItemDef>,
    gw: u32,
    gh: u32,
    placed: Seq<PlacedItem>,
    id: Seq<char>,
    count: int,
)
    requires
        valid(defs, gw, gh, placed),
    ensures
        valid(defs, gw, gh, consumed_from(placed, id, count)),
    decreases placed.len(),
{
    let after = consumed_from(placed, id, count);
    if placed.len() > 0 && count > 0 {
        let rest = placed.drop_first();
        assert(rest =~= placed.remove(0));
        lemma_remove_keeps_valid(defs, gw, gh, placed, 0);
        let left = if placed[0].stack.id@ != id {
            count
        } else {
            count - placed[0].stack.count
        };
        law_consume_keeps_valid(defs, gw, gh, rest, id, left);
        lemma_consumed_spots(rest, id, left);
        let tail = if left <= 0 { rest } else { consumed_from(rest, id, left) };
        if placed[0].stack.id@ != id || placed[0].stack.count > count {
            let head = after[0];
            assert(same_spot(head, placed[0]));
            assert(after =~= seq![head] + tail);
            assert forall|i: int, j: int| 0 <= i < j < after.len() implies !overlap(
                (#[trigger] after[i]).x,
                after[i].y,
                placed_size(defs, after[i]).w,
                placed_size(defs, after[i]).h,
                (#[trigger] after[j]).x,
                after[j].y,
                placed_size(defs, after[j]).w,
                placed_size(defs, after[j]).h,
            ) by {
                assert(after[j] == tail[j - 1]);
                if i > 0 {
                    assert(after[i] == tail[i - 1]);
                } else {
                    let m = choose|m: int|
                        0 <= m < rest.len() && same_spot(
                            consumed_from(rest, id, left)[j - 1],
                            #[trigger] rest[m],
                        );
                    assert(consumed_from(rest, id, left) == tail);
                    assert(same_spot(tail[j - 1], rest[m]));
                    assert(rest[m] == placed[m + 1]);
                }
            }
            assert forall|i: int| 0 <= i < after.len() implies inside(
                gw,
                gh,
                (#[trigger] after[i]).x,
                after[i].y,
                placed_size(defs, after[i]).w,
                placed_size(defs, after[i]).h,
            ) by {
                if i > 0 {
                    assert(after[i] == tail[i - 1]);
                }
            }
        }
    }
}

/// Takes up to `count` units of `id`, first stack first. Stacks that run
/// empty go. Returns how many units were taken.
pub fn consume_from_grid(grid: &mut GridInventory, id: &ItemId, count: u32) -> (r: u32)
    ensures
        final(grid).width == old(grid).width,
        final(grid).height == old(grid).height,
        final(grid).items@ == consumed_from(old(grid).items@, id@, count as int),
        r == (if units_of(old(grid).items@, id@) < count {
            units_of(old(grid).items@, id@)
        } else {
            count as int
        }),
        units_of(final(grid).items@, id@) == units_of(old(grid).items@, id@) - r,
{
    let mut remaining: u32 = count;
    let mut consumed: u32 = 0;
    let mut idx: usize = 0;
    let ghost before = grid.items@;
    let ghost w = grid.width;
    let ghost h = grid.height;
    proof {
        assert(grid.items@.take(0) + consumed_from(before, id@, count as int) =~= consumed_from(
            before,
            id@,
            count as int,
        ));
        assert(grid.items@.skip(0) =~= grid.items@);
        assert(units_of(grid.items@, id@) >= 0) by {
            lemma_units_monotone(grid.items@, id@, 0);
        }
    }
    while idx < grid.items.len() && remaining > 0
        invariant
            idx <= grid.items@.len(),
            grid.width == w,
            grid.height == h,
            consumed + remaining == count,
            consumed_from(before, id@, count as int) == grid.items@.take(idx as int)
                + consumed_from(grid.items@.skip(idx as int), id@, remaining as int),
            units_of(before, id@) == consumed + units_of(grid.items@, id@),
            remaining > 0 ==> units_of(grid.items@.take(idx as int), id@) == 0,
        decreases grid.items@.len() - idx,
    {
        let ghost now = grid.items@;
        let ghost i = idx as int;
        let ghost rest = now.skip(i);
        let ghost left = remaining;
        proof {
            assert(rest[0] == now[i]);
            assert(rest.drop_first() =~= now.skip(i + 1));
            assert(now.take(i + 1).drop_last() =~= now.take(i));
        }
        if !grid.items[idx].stack.id.same(id) {
            proof {
                assert(now.take(i) + (seq![now[i]] + consumed_from(
                    now.skip(i + 1),
                    id@,
                    remaining as int,
                )) =~= now.take(i + 1) + consumed_from(now.skip(i + 1), id@, remaining as int));
            }
            idx += 1;
            continue;
        }
        let have: u32 = grid.items[idx].stack.count;
        let take: u32 = if remaining < have { remaining } else { have };
        grid.items[idx].stack.count = have - take;
        remaining -= take;
        consumed += take;
        let ghost changed = with_count(now[i], have - take);
        proof {
            assert(grid.items@ =~= now.update(i, changed));
        }
        if grid.items[idx].stack.count == 0 {
            let _ = grid.items.remove(idx);
            proof {
                assert(grid.items@ =~= now.remove(i));
                assert(grid.items@.take(i) =~= now.take(i));
                assert(grid.items@.skip(i) =~= now.skip(i + 1));
                assert(now =~= now.take(i) + rest);
                assert(grid.items@ =~= now.take(i) + rest.drop_first());
                lemma_units_concat(now.take(i), rest, id@);
                lemma_units_concat(now.take(i), rest.drop_first(), id@);
                lemma_units_first(rest, id@);
            }
        } else {
            proof {
                let tail = grid.items@.skip(i);
                assert(tail.drop_first() =~= rest.drop_first());
                assert(grid.items@.take(i + 1) =~= now.take(i).push(changed));
                assert(now =~= now.take(i) + rest);
                assert(grid.items@ =~= now.take(i) + tail);
                lemma_units_concat(now.take(i), rest, id@);
                lemma_units_concat(now.take(i), tail, id@);
                lemma_units_first(rest, id@);
                lemma_units_first(tail, id@);
                assert(grid.items@.skip(i + 1) =~= rest.drop_first());
                assert(now.take(i) + (seq![changed] + rest.drop_first()) =~= grid.items@.take(i + 1)
                    + grid.items@.skip(i + 1));
            }
            idx += 1;
        }
    }
    proof {
        assert(grid.items@ =~= grid.items@.take(idx as int) + grid.items@.skip(idx as int));
        lemma_units_concat(grid.items@.take(idx as int), grid.items@.skip(idx as int), id@);
        lemma_units_monotone(grid.items@, id@, 0);
        law_consume_takes_what_is_there(before, id@, count as int, id@);
    }
    consumed
}

/// The units that a stack can still take of a grant: none unless it holds the
/// same item and, for what perishes, was spawned at the same tick.
pub open spec fn room(
    p: PlacedItem,
    id: Seq<char>,
    perishable: bool,
    tick: u64,
    stack_size: int,
) -> int {
    if p.stack.id@ == id && (perishable ==> p.stack.spawned_tick == tick) && p.stack.count
        < stack_size {
        stack_size - p.stack.count
    } else {
        0
    }
}

/// The units that all stacks together can still take of a grant.
pub open spec fn total_room(
    placed: Seq<PlacedItem>,
    id: Seq<char>,
    perishable: bool,
    tick: u64,
    stack_size: int,
) -> int
    decreases placed.len(),
{
    if placed.len() == 0 {
        0
    } else {
        total_room(placed.drop_last(), id, perishable, tick, stack_size) + room(
            placed.last(),
            id,
            perishable,
            tick,
            stack_size,
        )
    }
}

/// How many of `count` units are left once every stack took what it could.
pub open spec fn left_over(
    placed: Seq<PlacedItem>,
    id: Seq<char>,
    perishable: bool,
    tick: u64,
    stack_size: int,
    count: int,
) -> int {
    let all = total_room(placed, id, perishable, tick, stack_size);
    if all < count {
        count - all
    } else {
        0
    }
}

/// How many units the `i`-th stack takes: those before it are served first.
pub open spec fn poured(
    placed: Seq<PlacedItem>,
    id: Seq<char>,
    perishable: bool,
    tick: u64,
    stack_size: int,
    count: int,
    i: int,
) -> int {
    left_over(placed.take(i), id, perishable, tick, stack_size, count) - left_over(
        placed.take(i + 1),
        id,
        perishable,
        tick,
        stack_size,
        count,
    )
}

/// The stacks once each took what it could.
pub open spec fn merged(
    placed: Seq<PlacedItem>,
    id: Seq<char>,
    perishable: bool,
    tick: u64,
    stack_size: int,
    count: int,
) -> Seq<PlacedItem> {
    Seq::new(
        placed.len(),
        |i: int|
            with_count(
                placed[i],
                placed[i].stack.count + poured(placed, id, perishable, tick, stack_size, count, i),
            ),
    )
}

/// The first `k` stacks that took something, in order.
pub open spec fn merge_touched(
    placed: Seq<PlacedItem>,
    id: Seq<char>,
    perishable: bool,
    tick: u64,
    stack_size: int,
    count: int,
    k: int,
) -> Seq<usize>
    decreases k,
{
    if k <= 0 {
        Seq::empty()
    } else {
        let before = merge_touched(placed, id, perishable, tick, stack_size, count, k - 1);
        if poured(placed, id, perishable, tick, stack_size, count, k - 1) > 0 {
            before.push((k - 1) as usize)
        } else {
            before
        }
    }
}

/// A stack as a grant puts it down.
pub open spec fn granted(
    p: PlacedItem,
    def: ItemDef,
    id: ItemId,
    count: int,
    tick: u64,
    x: u32,
    y: u32,
    rotation: ItemRotation,
) -> bool {
    &&& p.stack.id == id
    &&& p.stack.count == count
    &&& p.stack.spawned_tick == tick
    &&& p.stack.magazine_state is None
    &&& p.x == x && p.y == y && p.rotation == rotation
    &&& fresh_inner(def, p.inner_grid)
}

/// `after` comes from `before` by putting down new stacks, each at the first
/// place where the item can go and as full as it may be, until nothing of
/// `left` remains or no place is found; then `rest` units remain.
pub open spec fn filled(
    defs: Map<Seq<char>, ItemDef>,
    gw: u32,
    gh: u32,
    before: Seq<PlacedItem>,
    after: Seq<PlacedItem>,
    id: ItemId,
    tick: u64,
    left: int,
    rest: int,
) -> bool
    decreases left,
{
    let def = defs[id@];
    if left <= 0 || no_fit_any(defs, gw, gh, before, def) {
        after == before && rest == left
    } else {
        let n = before.len() as int;
        let take = next_stack(def, left);
        &&& n < after.len()
        &&& exists|x: u32, y: u32, rotation: ItemRotation|
            is_first_fit_any(defs, gw, gh, before, def, x, y, rotation) && #[trigger] granted(
                after[n],
                def,
                id,
                take,
                tick,
                x,
                y,
                rotation,
            )
        &&& filled(defs, gw, gh, before.push(after[n]), after, id, tick, left - take, rest)
    }
}

/// How many of `left` units the next new stack takes.
pub open spec fn next_stack(def: ItemDef, left: int) -> int {
    if left < stack_limit(def) {
        left
    } else {
        stack_limit(def)
    }
}

/// How many units one stack of an item holds.
pub open spec fn stack_limit(def: ItemDef) -> int {
    if def.stack_size > 1 {
        def.stack_size as int
    } else {
        1
    }
}

/// The stacks once the grant was merged into those that are there.
pub open spec fn after_merge(
    defs: Map<Seq<char>, ItemDef>,
    placed: Seq<PlacedItem>,
    id: ItemId,
    count: u32,
    tick: u64,
) -> Seq<PlacedItem> {
    let def = defs[id@];
    merged(placed, id@, def.perishable_ticks is Some, tick, stack_limit(def), count as int)
}

/// What of the grant is left once it was merged.
pub open spec fn merge_rest(
    defs: Map<Seq<char>, ItemDef>,
    placed: Seq<PlacedItem>,
    id: ItemId,
    count: u32,
    tick: u64,
) -> int {
    let def = defs[id@];
    left_over(placed, id@, def.perishable_ticks is Some, tick, stack_limit(def), count as int)
}

/// The indices that a grant touches: merged stacks first, then new ones.
pub open spec fn touched(
    defs: Map<Seq<char>, ItemDef>,
    placed: Seq<PlacedItem>,
    after: Seq<PlacedItem>,
    id: ItemId,
    count: u32,
    tick: u64,
) -> Seq<usize> {
    let def = defs[id@];
    merge_touched(
        placed,
        id@,
        def.perishable_ticks is Some,
        tick,
        stack_limit(def),
        count as int,
        placed.len() as int,
    ) + Seq::new((after.len() - placed.len()) as nat, |i: int| (placed.len() + i) as usize)
}

/// `after` is `before` with `count` units of `id` granted, of which `rest` did
/// not fit; `list` names the stacks that the grant touched.
pub open spec fn granted_all(
    defs: Map<Seq<char>, ItemDef>,
    before: GridInventory,
    after: GridInventory,
    id: ItemId,
    count: u32,
    tick: u64,
    rest: int,
    list: Seq<usize>,
) -> bool {
    &&& filled(
        defs,
        before.width,
        before.height,
        after_merge(defs, before.items@, id, count, tick),
        after.items@,
        id,
        tick,
        merge_rest(defs, before.items@, id, count, tick),
        rest,
    )
    &&& list == touched(defs, before.items@, after.items@, id, count, tick)
}

proof fn lemma_room_monotone(
    placed: Seq<PlacedItem>,
    id: Seq<char>,
    perishable: bool,
    tick: u64,
    stack_size: int,
    k: int,
)
    requires
        0 <= k < placed.len(),
    ensures
        total_room(placed.take(k + 1), id, perishable, tick, stack_size) == total_room(
            placed.take(k),
            id,
            perishable,
            tick,
            stack_size,
        ) + room(placed[k], id, perishable, tick, stack_size),
        room(placed[k], id, perishable, tick, stack_size) >= 0,
{
    assert(placed.take(k + 1).drop_last() =~= placed.take(k));
}

/// Changing counts alone leaves the geometry as it was.
proof fn lemma_same_geometry(
    defs: Map<Seq<char>, ItemDef>,
    gw: u32,
    gh: u32,
    a: Seq<PlacedItem>,
    b: Seq<PlacedItem>,
)
    requires
        a.len() == b.len(),
        forall|i: int|
            0 <= i < a.len() ==> (#[trigger] b[i]).stack.id == a[i].stack.id && b[i].x == a[i].x
                && b[i].y == a[i].y && b[i].rotation == a[i].rotation,
    ensures
        valid(defs, gw, gh, a) ==> valid(defs, gw, gh, b),
        edges_fit(defs, a) ==> edges_fit(defs, b),
{
    assert forall|i: int| 0 <= i < a.len() implies placed_size(defs, #[trigger] b[i])
        == placed_size(defs, a[i]) by {}
    if valid(defs, gw, gh, a) {
        assert forall|i: int, j: int| 0 <= i < j < b.len() implies !overlap(
            (#[trigger] b[i]).x,
            b[i].y,
            placed_size(defs, b[i]).w,
            placed_size(defs, b[i]).h,
            (#[trigger] b[j]).x,
            b[j].y,
            placed_size(defs, b[j]).w,
            placed_size(defs, b[j]).h,
        ) by {
            assert(a[i].x == b[i].x && a[j].x == b[j].x);
        }
        assert forall|i: int| 0 <= i < b.len() implies inside(
            gw,
            gh,
            (#[trigger] b[i]).x,
            b[i].y,
            placed_size(defs, b[i]).w,
            placed_size(defs, b[i]).h,
        ) by {
            assert(a[i].x == b[i].x);
        }
    }
    if edges_fit(defs, a) {
        assert forall|i: int| 0 <= i < b.len() implies (#[trigger] b[i]).x + placed_size(
            defs,
            b[i],
        ).w <= u32::MAX && b[i].y + placed_size(defs, b[i]).h <= u32::MAX by {
            assert(a[i].x == b[i].x);
        }
    }
}

/// A merge changes the counts of stacks and nothing else.
pub proof fn law_merge_keeps_geometry(
    defs: Map<Seq<char>, ItemDef>,
    gw: u32,
    gh: u32,
    placed: Seq<PlacedItem>,
    id: ItemId,
    count: u32,
    tick: u64,
)
    ensures
        valid(defs, gw, gh, placed) ==> valid(
            defs,
            gw,
            gh,
            after_merge(defs, placed, id, count, tick),
        ),
        edges_fit(defs, placed) ==> edges_fit(defs, after_merge(defs, placed, id, count, tick)),
{
    lemma_same_geometry(defs, gw, gh, placed, after_merge(defs, placed, id, count, tick));
}

/// A place that is the first fit for the item is legal for a stack of it.
proof fn lemma_first_fit_is_legal(
    defs: Map<Seq<char>, ItemDef>,
    gw: u32,
    gh: u32,
    placed: Seq<PlacedItem>,
    id: ItemId,
    x: u32,
    y: u32,
    rotation: ItemRotation,
)
    requires
        defs.contains_key(id@),
        is_first_fit_any(defs, gw, gh, placed, defs[id@], x, y, rotation),
    ensures
        placement(defs, gw, gh, placed, id, x, y, rotation, None) is Ok,
{
}

/// Merges units of a grant into the stacks that can take them, first stack
/// first. Returns how many are left and the stacks that took some.
fn merge_stacks(
    grid: &mut GridInventory,
    id: &ItemId,
    is_perishable: bool,
    spawned_tick: u64,
    stack_size: u32,
    count: u32,
) -> (r: (u32, Vec<usize>))
    ensures
        final(grid).width == old(grid).width,
        final(grid).height == old(grid).height,
        final(grid).items@ == merged(
            old(grid).items@,
            id@,
            is_perishable,
            spawned_tick,
            stack_size as int,
            count as int,
        ),
        r.0 <= count,
        r.0 == left_over(
            old(grid).items@,
            id@,
            is_perishable,
            spawned_tick,
            stack_size as int,
            count as int,
        ),
        r.1@ == merge_touched(
            old(grid).items@,
            id@,
            is_perishable,
            spawned_tick,
            stack_size as int,
            count as int,
            old(grid).items@.len() as int,
        ),
{
    let mut remaining: u32 = count;
    let mut list: Vec<usize> = Vec::new();
    let ghost before = grid.items@;
    let ghost w = grid.width;
    let ghost h = grid.height;
    let ghost size = stack_size as int;
    let ghost goal = merged(before, id@, is_perishable, spawned_tick, size, count as int);
    assert(before.take(0) =~= Seq::<PlacedItem>::empty());
    let mut i: usize = 0;
    while i < grid.items.len()
        invariant
            i <= grid.items@.len(),
            grid.items@.len() == before.len(),
            grid.width == w && grid.height == h,
            size == stack_size,
            goal == merged(before, id@, is_perishable, spawned_tick, size, count as int),
            remaining <= count,
            remaining == left_over(
                before.take(i as int),
                id@,
                is_perishable,
                spawned_tick,
                size,
                count as int,
            ),
            forall|j: int| 0 <= j < i ==> #[trigger] grid.items@[j] == goal[j],
            forall|j: int| i <= j < before.len() ==> #[trigger] grid.items@[j] == before[j],
            list@ == merge_touched(
                before,
                id@,
                is_perishable,
                spawned_tick,
                size,
                count as int,
                i as int,
            ),
        decreases grid.items@.len() - i,
    {
        let ghost now = grid.items@;
        let ghost k = i as int;
        let ghost pour = poured(before, id@, is_perishable, spawned_tick, size, count as int, k);
        proof {
            lemma_room_monotone(before, id@, is_perishable, spawned_tick, size, k);
            assert(now[k] == before[k]);
        }
        let takes = grid.items[i].stack.id.same(id) && !(is_perishable
            && grid.items[i].stack.spawned_tick != spawned_tick) && grid.items[i].stack.count
            < stack_size && remaining > 0;
        if takes {
            let space: u32 = stack_size - grid.items[i].stack.count;
            let take: u32 = if remaining < space { remaining } else { space };
            let c: u32 = grid.items[i].stack.count;
            assert(pour == take);
            grid.items[i].stack.count = c + take;
            remaining -= take;
            list.push(i);
            assert(grid.items@ =~= now.update(k, with_count(now[k], c + take)));
        } else {
            assert(pour == 0);
            assert(goal[k] == with_count(before[k], before[k].stack.count as int));
            assert(goal[k] == before[k]);
        }
        i += 1;
    }
    proof {
        assert(before.take(before.len() as int) =~= before);
        assert(grid.items@ =~= goal);
    }
    (remaining, list)
}

/// One more stack of a run of new stacks.
proof fn lemma_filled_step(
    defs: Map<Seq<char>, ItemDef>,
    gw: u32,
    gh: u32,
    before: Seq<PlacedItem>,
    p: PlacedItem,
    after: Seq<PlacedItem>,
    id: ItemId,
    tick: u64,
    left: int,
    rest: int,
    x: u32,
    y: u32,
    rotation: ItemRotation,
)
    requires
        left > 0,
        is_first_fit_any(defs, gw, gh, before, defs[id@], x, y, rotation),
        granted(p, defs[id@], id, next_stack(defs[id@], left), tick, x, y, rotation),
        after.len() > before.len(),
        after[before.len() as int] == p,
        filled(
            defs,
            gw,
            gh,
            before.push(p),
            after,
            id,
            tick,
            left - next_stack(defs[id@], left),
            rest,
        ),
    ensures
        filled(defs, gw, gh, before, after, id, tick, left, rest),
{
    lemma_fit_excludes_no_fit(defs, gw, gh, before, defs[id@], x, y, rotation);
}

/// Whatever new stacks lead on from `now` with `left` units, they lead there
/// from `before` with `count`.
spec fn run_leads_to(
    defs: Map<Seq<char>, ItemDef>,
    gw: u32,
    gh: u32,
    before: Seq<PlacedItem>,
    count: int,
    now: Seq<PlacedItem>,
    left: int,
    id: ItemId,
    tick: u64,
) -> bool {
    forall|after: Seq<PlacedItem>, rest: int|
        now.is_prefix_of(after) && #[trigger] filled(
            defs,
            gw,
            gh,
            now,
            after,
            id,
            tick,
            left,
            rest,
        ) ==> filled(defs, gw, gh, before, after, id, tick, count, rest)
}

/// Puts `count` units down in new stacks, each at the first place where the
/// item can go. Returns how many did not fit.
fn place_stacks(
    grid: &mut GridInventory,
    registry: &ItemRegistry,
    def: &ItemDef,
    id: &ItemId,
    spawned_tick: u64,
    count: u32,
) -> (r: u32)
    requires
        edges_fit(registry@, old(grid).items@),
        registry@.contains_key(id@),
        *def == registry@[id@],
    ensures
        final(grid).width == old(grid).width,
        final(grid).height == old(grid).height,
        edges_fit(registry@, final(grid).items@),
        final(grid).items@.len() >= old(grid).items@.len(),
        forall|j: int|
            0 <= j < old(grid).items@.len() ==> #[trigger] final(grid).items@[j] == old(
                grid).items@[j],
        filled(
            registry@,
            old(grid).width,
            old(grid).height,
            old(grid).items@,
            final(grid).items@,
            *id,
            spawned_tick,
            count as int,
            r as int,
        ),
{
    let stack_size: u32 = if def.stack_size > 1 { def.stack_size } else { 1 };
    let mut remaining: u32 = count;
    let ghost before = grid.items@;
    let ghost w = grid.width;
    let ghost h = grid.height;
    loop
        invariant
            grid.width == w && grid.height == h,
            edges_fit(registry@, grid.items@),
            registry@.contains_key(id@),
            *def == registry@[id@],
            stack_size == stack_limit(*def),
            grid.items@.len() >= before.len(),
            forall|j: int| 0 <= j < before.len() ==> #[trigger] grid.items@[j] == before[j],
            run_leads_to(registry@, w, h, before, count as int, grid.items@, remaining as int, *id, spawned_tick),
        ensures
            filled(registry@, w, h, before, grid.items@, *id, spawned_tick, count as int, remaining as int),
        decreases remaining,
    {
        if remaining == 0 {
            assert(filled(registry@, w, h, grid.items@, grid.items@, *id, spawned_tick, 0, 0));
            break;
        }
        let (x, y, rotation) = match find_first_fit_any_rotation(grid, registry, def) {
            Some(at) => at,
            None => {
                assert(filled(registry@, w, h, grid.items@, grid.items@, *id, spawned_tick, remaining as int, remaining as int));
                break;
            },
        };
        let take: u32 = if remaining < stack_size { remaining } else { stack_size };
        let ghost now = grid.items@;
        proof {
            lemma_first_fit_is_legal(registry@, w, h, now, *id, x, y, rotation);
        }
        let stack = ItemInstance { id: id.clone(), count: take, spawned_tick, magazine_state: None };
        let placed = place_at(grid, registry, stack, x, y, rotation);
        assert(placed is Ok);
        let ghost left = remaining as int;
        remaining -= take;
        proof {
            let p = grid.items@.last();
            assert(grid.items@ == now.push(p));
            assert(take == next_stack(*def, left));
            assert(granted(p, *def, *id, next_stack(*def, left), spawned_tick, x, y, rotation));
            assert forall|after: Seq<PlacedItem>, rest: int|
                grid.items@.is_prefix_of(after) && #[trigger] filled(registry@, w, h, grid.items@, after, *id, spawned_tick, remaining as int, rest)
                implies filled(registry@, w, h, before, after, *id, spawned_tick, count as int, rest) by {
                assert(after[now.len() as int] == grid.items@[now.len() as int]);
                lemma_filled_step(registry@, w, h, now, p, after, *id, spawned_tick, left, rest, x, y, rotation);
                assert(now.is_prefix_of(after)) by {
                    assert(now =~= grid.items@.subrange(0, now.len() as int));
                    assert(now =~= after.subrange(0, now.len() as int));
                }
            }
        }
    }
    remaining
}

/// Merges `count` units of `id` into the stacks that can take them, first
/// stack first, and puts the rest down in new stacks at the first places
/// where the item can go.
pub fn grant_or_merge(
    grid: &mut GridInventory,
    registry: &ItemRegistry,
    id: &ItemId,
    count: u32,
    spawned_tick: u64,
) -> (r: Result<PlaceOutcome, PlacementError>)
    requires
        edges_fit(registry@, old(grid).items@),
    ensures
        final(grid).width == old(grid).width,
        final(grid).height == old(grid).height,
        edges_fit(registry@, final(grid).items@),
        count == 0 ==> final(grid).items@ == old(grid).items@ && (r matches Ok(
            PlaceOutcome::Placed { touched_indices },
        ) && touched_indices@ == Seq::<usize>::empty()),
        count > 0 && !registry@.contains_key(id@) ==> final(grid).items@ == old(grid).items@ && r
            == Err::<PlaceOutcome, PlacementError>(PlacementError::UnknownItem(*id)),
        count > 0 && registry@.contains_key(id@) ==> match r {
            Ok(PlaceOutcome::Placed { touched_indices }) => granted_all(
                registry@,
                *old(grid),
                *final(grid),
                *id,
                count,
                spawned_tick,
                0,
                touched_indices@,
            ),
            Ok(PlaceOutcome::PartialOrFull { placed, remaining, touched_indices }) => remaining > 0
                && placed + remaining == count && granted_all(
                registry@,
                *old(grid),
                *final(grid),
                *id,
                count,
                spawned_tick,
                remaining as int,
                touched_indices@,
            ),
            Err(_) => false,
        },
        valid(registry@, old(grid).width, old(grid).height, old(grid).items@) ==> valid(
            registry@,
            final(grid).width,
            final(grid).height,
            final(grid).items@,
        ),
{
    if count == 0 {
        return Ok(PlaceOutcome::Placed { touched_indices: Vec::new() });
    }
    let def = match registry.get(id) {
        Some(def) => def,
        None => {
            return Err(PlacementError::UnknownItem(id.clone()));
        },
    };
    let stack_size: u32 = if def.stack_size > 1 { def.stack_size } else { 1 };
    let is_perishable = def.perishable_ticks.is_some();
    let ghost before = grid.items@;
    let (left, list) = merge_stacks(grid, id, is_perishable, spawned_tick, stack_size, count);
    let mut list = list;
    let ghost base = list@;
    proof {
        law_merge_keeps_geometry(
            registry@,
            grid.width,
            grid.height,
            before,
            *id,
            count,
            spawned_tick,
        );
    }
    let first_new: usize = grid.items.len();
    let remaining = place_stacks(grid, registry, def, id, spawned_tick, left);
    let mut i: usize = first_new;
    assert(base + Seq::new(0, |j: int| (before.len() + j) as usize) =~= base);
    while i < grid.items.len()
        invariant
            before.len() <= i <= grid.items@.len(),
            list@ == base + Seq::new(
                (i - before.len()) as nat,
                |j: int| (before.len() + j) as usize,
            ),
        decreases grid.items@.len() - i,
    {
        list.push(i);
        i += 1;
        assert(list@ =~= base + Seq::new(
            (i - before.len()) as nat,
            |j: int| (before.len() + j) as usize,
        ));
    }
    proof {
        assert(list@ =~= touched(registry@, before, grid.items@, *id, count, spawned_tick));
        law_grant_conserves_units(
            registry@,
            grid.width,
            grid.height,
            before,
            grid.items@,
            *id,
            count,
            spawned_tick,
            remaining as int,
            id@,
        );
    }
    if remaining > 0 {
        Ok(
            PlaceOutcome::PartialOrFull {
                placed: count - remaining,
                remaining,
                touched_indices: list,
            },
        )
    } else {
        Ok(PlaceOutcome::Placed { touched_indices: list })
    }
}

/// Where there is a first fit there is a fit.
proof fn lemma_fit_excludes_no_fit(
    defs: Map<Seq<char>, ItemDef>,
    gw: u32,
    gh: u32,
    placed: Seq<PlacedItem>,
    def: ItemDef,
    x: u32,
    y: u32,
    rotation: ItemRotation,
)
    requires
        is_first_fit_any(defs, gw, gh, placed, def, x, y, rotation),
    ensures
        !no_fit_any(defs, gw, gh, placed, def),
{
    match rotation {
        ItemRotation::Deg0 => {
            assert(fits(defs, gw, gh, placed, def.size.w, def.size.h, x, y));
        },
        ItemRotation::Deg90 => {
            assert(fits(defs, gw, gh, placed, def.size.h, def.size.w, x, y));
        },
    }
}

/// New stacks of a grant keep the grid valid, hold what was put down, and
/// leave the stacks that were there alone.
pub proof fn law_fill_keeps_valid_and_conserves(
    defs: Map<Seq<char>, ItemDef>,
    gw: u32,
    gh: u32,
    before: Seq<PlacedItem>,
    after: Seq<PlacedItem>,
    id: ItemId,
    tick: u64,
    left: int,
    rest: int,
    other: Seq<char>,
)
    requires
        defs.contains_key(id@),
        left <= u32::MAX,
        filled(defs, gw, gh, before, after, id, tick, left, rest),
    ensures
        valid(defs, gw, gh, before) ==> valid(defs, gw, gh, after),
        after.len() >= before.len(),
        forall|i: int| 0 <= i < before.len() ==> #[trigger] after[i] == before[i],
        forall|i: int|
            before.len() <= i < after.len() ==> 0 < (#[trigger] after[i]).stack.count
                <= stack_limit(defs[id@]),
        units_of(after, id@) == units_of(before, id@) + (left - rest),
        other != id@ ==> units_of(after, other) == units_of(before, other),
        left >= 0 ==> 0 <= rest <= left,
    decreases left,
{
    let def = defs[id@];
    if left <= 0 || no_fit_any(defs, gw, gh, before, def) {
    } else {
        let n = before.len() as int;
        let take = next_stack(def, left);
        let (x, y, rotation) = choose|x: u32, y: u32, rotation: ItemRotation|
            is_first_fit_any(defs, gw, gh, before, def, x, y, rotation) && #[trigger] granted(
                after[n],
                def,
                id,
                take,
                tick,
                x,
                y,
                rotation,
            );
        let p = after[n];
        let next = before.push(p);
        lemma_first_fit_is_legal(defs, gw, gh, before, id, x, y, rotation);
        lemma_push_keeps_valid(defs, gw, gh, before, p);
        law_fill_keeps_valid_and_conserves(
            defs,
            gw,
            gh,
            next,
            after,
            id,
            tick,
            left - take,
            rest,
            other,
        );
        assert(next.drop_last() =~= before);
        assert forall|i: int| 0 <= i < before.len() implies #[trigger] after[i] == before[i] by {
            assert(after[i] == next[i]);
        }
        assert(next[n] == p);
    }
}

proof fn lemma_merge_units(
    placed: Seq<PlacedItem>,
    id: Seq<char>,
    perishable: bool,
    tick: u64,
    stack_size: int,
    count: int,
    k: int,
    other: Seq<char>,
)
    requires
        0 <= k <= placed.len(),
        0 <= count <= u32::MAX,
        stack_size <= u32::MAX,
    ensures
        ({
            let after = merged(placed, id, perishable, tick, stack_size, count);
            let left = left_over(placed.take(k), id, perishable, tick, stack_size, count);
            &&& units_of(after.take(k), id) == units_of(placed.take(k), id) + (count - left)
            &&& other != id ==> units_of(after.take(k), other) == units_of(placed.take(k), other)
            &&& 0 <= left <= count
        }),
    decreases k,
{
    let after = merged(placed, id, perishable, tick, stack_size, count);
    if k == 0 {
        assert(placed.take(0) =~= Seq::<PlacedItem>::empty());
        assert(after.take(0) =~= Seq::<PlacedItem>::empty());
    } else {
        lemma_merge_units(placed, id, perishable, tick, stack_size, count, k - 1, other);
        lemma_room_monotone(placed, id, perishable, tick, stack_size, k - 1);
        assert(placed.take(k).drop_last() =~= placed.take(k - 1));
        assert(after.take(k).drop_last() =~= after.take(k - 1));
    }
}

/// A grant makes no unit and loses none: what the grid holds of the item
/// grows by exactly what was placed, and every other item stays as it was.
pub proof fn law_grant_conserves_units(
    defs: Map<Seq<char>, ItemDef>,
    gw: u32,
    gh: u32,
    before: Seq<PlacedItem>,
    after: Seq<PlacedItem>,
    id: ItemId,
    count: u32,
    tick: u64,
    rest: int,
    other: Seq<char>,
)
    requires
        defs.contains_key(id@),
        filled(
            defs,
            gw,
            gh,
            after_merge(defs, before, id, count, tick),
            after,
            id,
            tick,
            merge_rest(defs, before, id, count, tick),
            rest,
        ),
    ensures
        units_of(after, id@) == units_of(before, id@) + (count - rest),
        other != id@ ==> units_of(after, other) == units_of(before, other),
        valid(defs, gw, gh, before) ==> valid(defs, gw, gh, after),
        0 <= rest <= count,
{
    let def = defs[id@];
    let mid = after_merge(defs, before, id, count, tick);
    lemma_merge_units(
        before,
        id@,
        def.perishable_ticks is Some,
        tick,
        stack_limit(def),
        count as int,
        before.len() as int,
        other,
    );
    assert(before.take(before.len() as int) =~= before);
    assert(mid.take(mid.len() as int) =~= mid);
    law_merge_keeps_geometry(defs, gw, gh, before, id, count, tick);
    law_fill_keeps_valid_and_conserves(
        defs,
        gw,
        gh,
        mid,
        after,
        id,
        tick,
        merge_rest(defs, before, id, count, tick),
        rest,
        other,
    );
}

/// A grant never merges what perishes into a stack of another age.
pub proof fn law_perishables_merge_within_one_tick(
    defs: Map<Seq<char>, ItemDef>,
    placed: Seq<PlacedItem>,
    id: ItemId,
    count: u32,
    tick: u64,
    i: int,
)
    requires
        defs[id@].perishable_ticks is Some,
        0 <= i < placed.len(),
        placed[i].stack.spawned_tick != tick,
    ensures
        after_merge(defs, placed, id, count, tick)[i].stack.count == placed[i].stack.count,
{
    lemma_room_monotone(placed, id@, true, tick, stack_limit(defs[id@]), i);
}

/// The stack can take units of a grant: it holds the item, and what perishes
/// was spawned at the same tick. What does not perish may be of any age.
pub open spec fn may_take(p: PlacedItem, def: ItemDef, id: ItemId, tick: u64) -> bool {
    p.stack.id@ == id@ && (def.perishable_ticks is None || p.stack.spawned_tick == tick)
}

/// What a merge does to the `i`-th stack.
proof fn lemma_merge_pours(
    defs: Map<Seq<char>, ItemDef>,
    placed: Seq<PlacedItem>,
    id: ItemId,
    count: u32,
    tick: u64,
    i: int,
)
    requires
        0 <= i < placed.len(),
    ensures
        ({
            let def = defs[id@];
            let limit = if def.stack_size > 1 { def.stack_size as int } else { 1 };
            let after = after_merge(defs, placed, id, count, tick);
            let left = left_over(
                placed.take(i + 1),
                id@,
                def.perishable_ticks is Some,
                tick,
                limit,
                count as int,
            );
            &&& after.len() == placed.len()
            &&& after[i] == with_count(placed[i], after[i].stack.count as int)
            &&& after[i].stack.count >= placed[i].stack.count
            &&& after[i].stack.count > placed[i].stack.count ==> may_take(placed[i], def, id, tick)
                && after[i].stack.count <= limit
            &&& left > 0 && may_take(placed[i], def, id, tick) ==> after[i].stack.count >= limit
            &&& after[i].stack.count > placed[i].stack.count <==> poured(
                placed,
                id@,
                def.perishable_ticks is Some,
                tick,
                limit,
                count as int,
                i,
            ) > 0
            &&& poured(
                placed,
                id@,
                def.perishable_ticks is Some,
                tick,
                limit,
                count as int,
                i,
            ) > 0 ==> left_over(
                placed.take(i),
                id@,
                def.perishable_ticks is Some,
                tick,
                limit,
                count as int,
            ) > 0
        }),
{
    let def = defs[id@];
    lemma_room_monotone(
        placed,
        id@,
        def.perishable_ticks is Some,
        tick,
        stack_limit(def),
        i,
    );
}

/// What is left of a grant only shrinks from stack to stack.
proof fn lemma_left_over_shrinks(
    placed: Seq<PlacedItem>,
    id: Seq<char>,
    perishable: bool,
    tick: u64,
    stack_size: int,
    count: int,
    i: int,
    j: int,
)
    requires
        0 <= i <= j <= placed.len(),
    ensures
        left_over(placed.take(i), id, perishable, tick, stack_size, count) >= left_over(
            placed.take(j),
            id,
            perishable,
            tick,
            stack_size,
            count,
        ),
    decreases j - i,
{
    if i < j {
        lemma_room_monotone(placed, id, perishable, tick, stack_size, j - 1);
        lemma_left_over_shrinks(placed, id, perishable, tick, stack_size, count, i, j - 1);
    }
}

/// A grant only adds to stacks that can take it, up to what a stack holds, and
/// leaves all else of the stacks that were there alone. No new stack appears
/// and nothing is left over while a stack that can take it is not full; and
/// none takes anything while one before it is not full.
pub proof fn law_grants_fill_stacks_first(
    defs: Map<Seq<char>, ItemDef>,
    before: GridInventory,
    after: GridInventory,
    id: ItemId,
    count: u32,
    tick: u64,
    rest: int,
    list: Seq<usize>,
    i: int,
    j: int,
)
    requires
        defs.contains_key(id@),
        granted_all(defs, before, after, id, count, tick, rest, list),
        0 <= i < before.items@.len(),
        i < j,
    ensures
        ({
            let def = defs[id@];
            let limit = if def.stack_size > 1 { def.stack_size as int } else { 1 };
            let was = before.items@[i];
            let now = after.items@[i];
            &&& before.items@.len() <= after.items@.len()
            &&& now == (PlacedItem {
                stack: ItemInstance { count: now.stack.count, ..was.stack },
                ..was
            })
            &&& now.stack.count >= was.stack.count
            &&& now.stack.count > was.stack.count ==> was.stack.id@ == id@ && now.stack.count
                <= limit && (def.perishable_ticks is Some ==> was.stack.spawned_tick == tick)
            &&& was.stack.id@ == id@ && (def.perishable_ticks is None || was.stack.spawned_tick
                == tick) && (rest > 0 || after.items@.len() > before.items@.len())
                ==> now.stack.count >= limit
            &&& was.stack.id@ == id@ && (def.perishable_ticks is None || was.stack.spawned_tick
                == tick) && j < before.items@.len() && after.items@[j].stack.count
                > before.items@[j].stack.count ==> now.stack.count >= limit
        }),
{
    let def = defs[id@];
    let p = def.perishable_ticks is Some;
    let placed = before.items@;
    let mid = after_merge(defs, placed, id, count, tick);
    let left = merge_rest(defs, placed, id, count, tick);
    lemma_merge_units(
        placed,
        id@,
        p,
        tick,
        stack_limit(def),
        count as int,
        placed.len() as int,
        id@,
    );
    assert(placed.take(placed.len() as int) =~= placed);
    law_fill_keeps_valid_and_conserves(
        defs,
        before.width,
        before.height,
        mid,
        after.items@,
        id,
        tick,
        left,
        rest,
        id@,
    );
    lemma_merge_pours(defs, placed, id, count, tick, i);
    lemma_left_over_shrinks(
        placed,
        id@,
        p,
        tick,
        stack_limit(def),
        count as int,
        i + 1,
        placed.len() as int,
    );
    assert(placed.take(placed.len() as int) =~= placed);
    assert(after.items@[i] == mid[i]);
    if after.items@.len() > placed.len() {
        assert(left > 0);
    }
    if j < placed.len() {
        lemma_merge_pours(defs, placed, id, count, tick, j);
        assert(after.items@[j] == mid[j]);
        lemma_left_over_shrinks(placed, id@, p, tick, stack_limit(def), count as int, i + 1, j);
    }
}

/// Every new stack of a grant holds the item, is of the grant's tick, has no
/// magazine and starts empty inside; all but the last are full. Something is
/// left over only where the item can go nowhere any more.
pub proof fn law_new_stacks_are_full(
    defs: Map<Seq<char>, ItemDef>,
    gw: u32,
    gh: u32,
    before: Seq<PlacedItem>,
    after: Seq<PlacedItem>,
    id: ItemId,
    tick: u64,
    left: int,
    rest: int,
    i: int,
)
    requires
        defs.contains_key(id@),
        0 <= left <= u32::MAX,
        filled(defs, gw, gh, before, after, id, tick, left, rest),
    ensures
        before.len() <= i < after.len() ==> {
            &&& after[i].stack.id == id
            &&& after[i].stack.spawned_tick == tick
            &&& after[i].stack.magazine_state is None
            &&& 1 <= after[i].stack.count
            &&& after[i].stack.count <= defs[id@].stack_size || after[i].stack.count == 1
            &&& i < after.len() - 1 || rest > 0 ==> after[i].stack.count >= defs[id@].stack_size
            &&& after[i].inner_grid is Some <==> defs[id@].inner_grid is Some
            &&& after[i].inner_grid matches Some(inner) ==> inner.items@.len() == 0
            &&& after[i].rotation == ItemRotation::Deg90 ==> defs[id@].rotatable
        },
        rest > 0 ==> no_fit_any(defs, gw, gh, after, defs[id@]),
    decreases left,
{
    let def = defs[id@];
    if left <= 0 || no_fit_any(defs, gw, gh, before, def) {
    } else {
        let n = before.len() as int;
        let take = next_stack(def, left);
        let (x, y, rotation) = choose|x: u32, y: u32, rotation: ItemRotation|
            is_first_fit_any(defs, gw, gh, before, def, x, y, rotation) && #[trigger] granted(
                after[n],
                def,
                id,
                take,
                tick,
                x,
                y,
                rotation,
            );
        let next = before.push(after[n]);
        assert(filled(defs, gw, gh, next, after, id, tick, left - take, rest));
        if left - take == 0 {
            assert(after == next && rest == 0);
        }
        law_new_stacks_are_full(defs, gw, gh, next, after, id, tick, left - take, rest, i);
        law_fill_keeps_valid_and_conserves(
            defs,
            gw,
            gh,
            next,
            after,
            id,
            tick,
            left - take,
            rest,
            id@,
        );
    }
}

/// A grant names each stack that holds more than before and each new one, from
/// front to back, and no other.
pub proof fn law_touched_stacks_are_named(
    defs: Map<Seq<char>, ItemDef>,
    before: GridInventory,
    after: GridInventory,
    id: ItemId,
    count: u32,
    tick: u64,
    rest: int,
    list: Seq<usize>,
    i: usize,
)
    requires
        defs.contains_key(id@),
        granted_all(defs, before, after, id, count, tick, rest, list),
        after.items@.len() <= usize::MAX,
    ensures
        list.contains(i) <==> i < after.items@.len() && (i >= before.items@.len()
            || after.items@[i as int].stack.count > before.items@[i as int].stack.count),
        forall|a: int, b: int| 0 <= a < b < list.len() ==> #[trigger] list[a] < #[trigger] list[b],
{
    let def = defs[id@];
    let p = def.perishable_ticks is Some;
    let placed = before.items@;
    let mid = after_merge(defs, placed, id, count, tick);
    lemma_merge_units(
        placed,
        id@,
        p,
        tick,
        stack_limit(def),
        count as int,
        placed.len() as int,
        id@,
    );
    assert(placed.take(placed.len() as int) =~= placed);
    law_fill_keeps_valid_and_conserves(
        defs,
        before.width,
        before.height,
        mid,
        after.items@,
        id,
        tick,
        merge_rest(defs, placed, id, count, tick),
        rest,
        id@,
    );
    let n = placed.len() as int;
    let first = merge_touched(placed, id@, p, tick, stack_limit(def), count as int, n);
    let new = Seq::new((after.items@.len() - n) as nat, |i: int| (n + i) as usize);
    assert(list == first + new);
    lemma_touched(defs, placed, id, count, tick, n);
    if i < n {
        lemma_merge_pours(defs, placed, id, count, tick, i as int);
        assert(after.items@[i as int] == mid[i as int]);
        if first.contains(i) {
            let k = choose|k: int| 0 <= k < first.len() && first[k] == i;
            assert(list[k] == i);
        } else if list.contains(i) {
            let k = choose|k: int| 0 <= k < list.len() && list[k] == i;
            assert(k < first.len() ==> first[k] == i);
            assert(k >= first.len() ==> new[k - first.len()] == i);
        }
    } else if i < after.items@.len() {
        assert(list[first.len() + (i - n)] == i);
    } else if list.contains(i) {
        let k = choose|k: int| 0 <= k < list.len() && list[k] == i;
        assert(k >= first.len() ==> new[k - first.len()] == i);
        assert(k < first.len() ==> first[k] == i);
    }
    assert forall|a: int, b: int| 0 <= a < b < list.len() implies #[trigger] list[a]
        < #[trigger] list[b] by {
        if b < first.len() {
            assert(list[a] == first[a] && list[b] == first[b]);
        } else if a < first.len() {
            assert(list[a] == first[a] && list[b] == new[b - first.len()]);
        } else {
            assert(list[a] == new[a - first.len()] && list[b] == new[b - first.len()]);
        }
    }
}

/// The stacks that a merge touches, in order.
proof fn lemma_touched(
    defs: Map<Seq<char>, ItemDef>,
    placed: Seq<PlacedItem>,
    id: ItemId,
    count: u32,
    tick: u64,
    k: int,
)
    requires
        0 <= k <= placed.len() <= usize::MAX,
    ensures
        ({
            let def = defs[id@];
            let p = def.perishable_ticks is Some;
            let list = merge_touched(placed, id@, p, tick, stack_limit(def), count as int, k);
            &&& forall|i: usize|
                #[trigger] list.contains(i) <==> i < k && poured(
                    placed,
                    id@,
                    p,
                    tick,
                    stack_limit(def),
                    count as int,
                    i as int,
                ) > 0
            &&& forall|a: int| 0 <= a < list.len() ==> #[trigger] list[a] < k
            &&& forall|a: int, b: int|
                0 <= a < b < list.len() ==> #[trigger] list[a] < #[trigger] list[b]
        }),
    decreases k,
{
    let def = defs[id@];
    let p = def.perishable_ticks is Some;
    let size = stack_limit(def);
    let list = merge_touched(placed, id@, p, tick, size, count as int, k);
    if k > 0 {
        lemma_touched(defs, placed, id, count, tick, k - 1);
        let init = merge_touched(placed, id@, p, tick, size, count as int, k - 1);
        let takes = poured(placed, id@, p, tick, size, count as int, k - 1) > 0;
        assert forall|i: usize| #[trigger] list.contains(i) <==> i < k && poured(
            placed,
            id@,
            p,
            tick,
            size,
            count as int,
            i as int,
        ) > 0 by {
            if init.contains(i) {
                let a = choose|a: int| 0 <= a < init.len() && init[a] == i;
                assert(list[a] == i);
            }
            if takes && i == k - 1 {
                assert(list.last() == i);
            }
            if list.contains(i) {
                let a = choose|a: int| 0 <= a < list.len() && list[a] == i;
                if a < init.len() {
                    assert(init[a] == i);
                    assert(init.contains(i));
                }
            }
        }
    }
}

/// Units add up over runs of stacks, and one stack holds its count of its item.
pub proof fn law_units_add_up(
    a: Seq<PlacedItem>,
    b: Seq<PlacedItem>,
    p: PlacedItem,
    id: Seq<char>,
)
    ensures
        units_of(a + b, id) == units_of(a, id) + units_of(b, id),
        p.stack.id@ == id ==> units_of(seq![p], id) == p.stack.count,
        p.stack.id@ != id ==> units_of(seq![p], id) == 0,
{
    lemma_units_concat(a, b, id);
    lemma_units_first(seq![p], id);
    assert(seq![p].drop_first() =~= Seq::<PlacedItem>::empty());
    assert(units_of(Seq::<PlacedItem>::empty(), id) == 0);
}

/// Units are taken from the front: where the first stacks hold enough, all
/// stacks behind them stay as they are; where they do not, none of the item is
/// left in them and the rest comes from behind.
pub proof fn law_consume_takes_from_the_front(
    front: Seq<PlacedItem>,
    back: Seq<PlacedItem>,
    id: Seq<char>,
    count: int,
)
    requires
        count >= 0,
    ensures
        units_of(front, id) >= count ==> consumed_from(front + back, id, count) == consumed_from(
            front,
            id,
            count,
        ) + back,
        units_of(front, id) < count ==> consumed_from(front + back, id, count) == consumed_from(
            front,
            id,
            count,
        ) + consumed_from(back, id, count - units_of(front, id)),
    decreases front.len(),
{
    if front.len() == 0 {
        assert(front + back =~= back);
        assert(consumed_from(front, id, count) == front);
        assert(front + consumed_from(back, id, count) =~= consumed_from(back, id, count));
    } else {
        let all = front + back;
        let rest = front.drop_first();
        assert(all[0] == front[0]);
        assert(all.drop_first() =~= rest + back);
        lemma_units_first(front, id);
        law_consume_takes_what_is_there(rest, id, 0, id);
        if count > 0 {
            if front[0].stack.id@ != id {
                law_consume_takes_from_the_front(rest, back, id, count);
                let h = seq![front[0]];
                if units_of(rest, id) >= count {
                    assert(h + (consumed_from(rest, id, count) + back) =~= (h + consumed_from(
                        rest,
                        id,
                        count,
                    )) + back);
                } else {
                    let t = consumed_from(back, id, count - units_of(rest, id));
                    assert(h + (consumed_from(rest, id, count) + t) =~= (h + consumed_from(
                        rest,
                        id,
                        count,
                    )) + t);
                }
            } else if front[0].stack.count <= count {
                let left = count - front[0].stack.count;
                law_consume_takes_from_the_front(rest, back, id, left);
                if left == 0 {
                    assert(consumed_from(rest + back, id, 0) == rest + back);
                }
            } else {
                let h = seq![with_count(front[0], front[0].stack.count - count)];
                assert(h + (rest + back) =~= (h + rest) + back);
            }
        }
    }
}

/// No stack that was emptied stays, and a stack of which a part was taken is as
/// it was but for its count.
pub proof fn law_emptied_stacks_go(p: PlacedItem, id: Seq<char>, count: int)
    requires
        count > 0,
    ensures
        p.stack.id@ == id && p.stack.count <= count ==> consumed_from(seq![p], id, count).len()
            == 0,
        p.stack.id@ == id && p.stack.count > count ==> consumed_from(seq![p], id, count) == seq![
            PlacedItem {
                stack: ItemInstance { count: (p.stack.count - count) as u32, ..p.stack },
                ..p
            },
        ],
        p.stack.id@ != id ==> consumed_from(seq![p], id, count) == seq![p],
{
    let none = seq![p].drop_first();
    assert(none =~= Seq::<PlacedItem>::empty());
    assert(consumed_from(none, id, count) == none);
    assert(consumed_from(none, id, count - p.stack.count) == none);
    assert(consumed_from(seq![p], id, count) =~= if p.stack.id@ != id {
        seq![p]
    } else if p.stack.count <= count {
        Seq::empty()
    } else {
        seq![with_count(p, p.stack.count - count)]
    });
}

/// The cells that a stack of an item covers: as many as its size says, its
/// sides swapped where it lies on its side.
pub open spec fn stack_covers(p: PlacedItem, def: ItemDef, cx: int, cy: int) -> bool {
    if p.rotation == ItemRotation::Deg90 {
        p.x <= cx < p.x + def.size.h && p.y <= cy < p.y + def.size.w
    } else {
        p.x <= cx < p.x + def.size.w && p.y <= cy < p.y + def.size.h
    }
}

/// Where a rectangle can go, each of its cells lies in the grid and belongs to
/// no stack but the one to be ignored.
pub proof fn law_fit_means_free_cells(
    defs: Map<Seq<char>, ItemDef>,
    gw: u32,
    gh: u32,
    placed: Seq<PlacedItem>,
    x: u32,
    y: u32,
    w: u32,
    h: u32,
    ignore: Option<usize>,
    cx: int,
    cy: int,
    i: int,
)
    requires
        fit(defs, gw, gh, placed, x, y, w, h, ignore) is Ok,
        x <= cx < x + w,
        y <= cy < y + h,
        0 <= i < placed.len(),
        defs.contains_key(placed[i].stack.id@),
        !(ignore is Some && ignore->0 == i),
    ensures
        cx < gw,
        cy < gh,
        !stack_covers(placed[i], defs[placed[i].stack.id@], cx, cy),
{
    lemma_first_clash(defs, placed, x, y, w, h, ignore, 0);
    assert(!in_the_way(defs, placed[i], x, y, w, h));
}

/// Where a rectangle with cells cannot go, a cell of it lies outside the grid,
/// or it shares one with the stack that is named, which is not the one to be
/// ignored, and with none before it.
pub proof fn law_misfits_are_told(
    defs: Map<Seq<char>, ItemDef>,
    gw: u32,
    gh: u32,
    placed: Seq<PlacedItem>,
    x: u32,
    y: u32,
    w: u32,
    h: u32,
    ignore: Option<usize>,
) -> (cell: (int, int))
    requires
        fit(defs, gw, gh, placed, x, y, w, h, ignore) is Err,
        w > 0 && h > 0,
        placed.len() <= usize::MAX,
        forall|i: int|
            0 <= i < placed.len() ==> defs.contains_key((#[trigger] placed[i]).stack.id@)
                && defs[placed[i].stack.id@].size.w > 0 && defs[placed[i].stack.id@].size.h > 0,
    ensures
        x <= cell.0 < x + w,
        y <= cell.1 < y + h,
        match fit(defs, gw, gh, placed, x, y, w, h, ignore) {
            Err(PlacementError::OutOfBounds { .. }) => cell.0 >= gw || cell.1 >= gh,
            Err(PlacementError::Overlap(i)) => {
                &&& x + w <= gw && y + h <= gh
                &&& i < placed.len() && ignore != Some(i)
                &&& stack_covers(
                    placed[i as int],
                    defs[placed[i as int].stack.id@],
                    cell.0,
                    cell.1,
                )
                &&& forall|j: int, cx: int, cy: int|
                    0 <= j < i && x <= cx < x + w && y <= cy < y + h && ignore != Some(j as usize)
                        ==> !#[trigger] stack_covers(
                        placed[j],
                        defs[placed[j].stack.id@],
                        cx,
                        cy,
                    )
            },
            _ => false,
        },
{
    lemma_first_clash(defs, placed, x, y, w, h, ignore, 0);
    if x + w > gw {
        (x + w - 1, y as int)
    } else if y + h > gh {
        (x as int, y + h - 1)
    } else {
        let i = first_clash(defs, placed, x, y, w, h, ignore, 0)->0;
        let p = placed[i];
        assert(in_the_way(defs, p, x, y, w, h));
        let size = placed_size(defs, p);
        assert(size.w > 0 && size.h > 0);
        assert forall|j: int, cx: int, cy: int|
            0 <= j < i && x <= cx < x + w && y <= cy < y + h && ignore != Some(j as usize) implies !#[trigger] stack_covers(
            placed[j],
            defs[placed[j].stack.id@],
            cx,
            cy,
        ) by {
            assert(!in_the_way(defs, placed[j], x, y, w, h));
        }
        (
            if x > p.x {
                x as int
            } else {
                p.x as int
            },
            if y > p.y {
                y as int
            } else {
                p.y as int
            },
        )
    }
}

/// An item is laid on its side only where it may be, is not square, and fits
/// nowhere upright.
pub proof fn law_upright_comes_first(
    defs: Map<Seq<char>, ItemDef>,
    gw: u32,
    gh: u32,
    placed: Seq<PlacedItem>,
    def: ItemDef,
    x: u32,
    y: u32,
    rotation: ItemRotation,
    a: u32,
    b: u32,
)
    requires
        is_first_fit_any(defs, gw, gh, placed, def, x, y, rotation),
    ensures
        rotation == ItemRotation::Deg90 ==> def.rotatable && def.size.w != def.size.h,
        def.size.w > 0 && def.size.h > 0 && fit(
            defs,
            gw,
            gh,
            placed,
            a,
            b,
            def.size.w,
            def.size.h,
            None,
        ) is Ok ==> rotation == ItemRotation::Deg0 && (y < b || (y == b && x <= a)),
        rotation == ItemRotation::Deg0 ==> fit(
            defs,
            gw,
            gh,
            placed,
            x,
            y,
            def.size.w,
            def.size.h,
            None,
        ) is Ok,
        rotation == ItemRotation::Deg90 ==> fit(
            defs,
            gw,
            gh,
            placed,
            x,
            y,
            def.size.h,
            def.size.w,
            None,
        ) is Ok,
{
    assert(fits(defs, gw, gh, placed, def.size.w, def.size.h, a, b) == (fit(
        defs,
        gw,
        gh,
        placed,
        a,
        b,
        def.size.w,
        def.size.h,
        None,
    ) is Ok));
}

/// Nowhere to go means that no place is free, upright or, where it may lie so,
/// on its side.
pub proof fn law_full_means_full(
    defs: Map<Seq<char>, ItemDef>,
    gw: u32,
    gh: u32,
    placed: Seq<PlacedItem>,
    def: ItemDef,
    a: u32,
    b: u32,
)
    requires
        no_fit_any(defs, gw, gh, placed, def),
        def.size.w > 0 && def.size.h > 0,
    ensures
        fit(defs, gw, gh, placed, a, b, def.size.w, def.size.h, None) is Err,
        def.rotatable ==> fit(defs, gw, gh, placed, a, b, def.size.h, def.size.w, None) is Err,
{
    assert(!fits(defs, gw, gh, placed, def.size.w, def.size.h, a, b));
    if def.rotatable && def.size.w != def.size.h {
        assert(!fits(defs, gw, gh, placed, def.size.h, def.size.w, a, b));
    }
}

/// In a valid grid a stack can always stay where it is, and one that was moved
/// can always be moved back.
pub proof fn law_moves_can_be_undone(
    defs: Map<Seq<char>, ItemDef>,
    grid: GridInventory,
    after: GridInventory,
    idx: usize,
    x: u32,
    y: u32,
    rotation: ItemRotation,
)
    requires
        valid(defs, grid.width, grid.height, grid.items@),
        idx < grid.items@.len(),
        defs.contains_key(grid.items@[idx as int].stack.id@),
        grid.items@[idx as int].rotation == ItemRotation::Deg90
            ==> defs[grid.items@[idx as int].stack.id@].rotatable,
        move_result(defs, grid, idx, x, y, rotation) is Ok,
        after.width == grid.width,
        after.height == grid.height,
        after.items@ == grid.items@.update(
            idx as int,
            moved(grid.items@[idx as int], x, y, rotation),
        ),
    ensures
        ({
            let p = grid.items@[idx as int];
            &&& move_result(defs, grid, idx, p.x, p.y, p.rotation) is Ok
            &&& move_result(defs, after, idx, p.x, p.y, p.rotation) is Ok
            &&& after.items@.update(
                idx as int,
                moved(after.items@[idx as int], p.x, p.y, p.rotation),
            ) == grid.items@
        }),
{
    let k = idx as int;
    let p = grid.items@[k];
    let size = placed_size(defs, p);
    lemma_first_clash(defs, grid.items@, p.x, p.y, size.w, size.h, Some(idx), 0);
    lemma_first_clash(defs, after.items@, p.x, p.y, size.w, size.h, Some(idx), 0);
    assert(inside(grid.width, grid.height, grid.items@[k].x, p.y, size.w, size.h));
    assert forall|j: int| 0 <= j < grid.items@.len() && j != k implies !in_the_way(
        defs,
        #[trigger] grid.items@[j],
        p.x,
        p.y,
        size.w,
        size.h,
    ) && after.items@[j] == grid.items@[j] by {
        if j < k {
            assert(grid.items@[j].x == grid.items@[j].x && grid.items@[k].x == p.x);
        } else {
            assert(grid.items@[k].x == p.x && grid.items@[j].x == grid.items@[j].x);
        }
    }
    assert(after.items@.update(k, moved(after.items@[k], p.x, p.y, p.rotation)) =~= grid.items@);
}

/// Only what `defs` knows is placed, only what may be is laid on its side, and
/// what is refused for neither is refused for want of room alone.
pub proof fn law_placements_are_refused_for_cause(
    defs: Map<Seq<char>, ItemDef>,
    gw: u32,
    gh: u32,
    placed: Seq<PlacedItem>,
    id: ItemId,
    x: u32,
    y: u32,
    rotation: ItemRotation,
    ignore: Option<usize>,
)
    ensures
        !defs.contains_key(id@) <==> placement(
            defs,
            gw,
            gh,
            placed,
            id,
            x,
            y,
            rotation,
            ignore,
        ) == Err::<(), PlacementError>(PlacementError::UnknownItem(id)),
        defs.contains_key(id@) && rotation == ItemRotation::Deg90 && !defs[id@].rotatable
            <==> placement(defs, gw, gh, placed, id, x, y, rotation, ignore) == Err::<
            (),
            PlacementError,
        >(PlacementError::NotRotatable),
        placement(defs, gw, gh, placed, id, x, y, rotation, ignore) is Ok ==> fit(
            defs,
            gw,
            gh,
            placed,
            x,
            y,
            if rotation == ItemRotation::Deg90 {
                defs[id@].size.h
            } else {
                defs[id@].size.w
            },
            if rotation == ItemRotation::Deg90 {
                defs[id@].size.w
            } else {
                defs[id@].size.h
            },
            ignore,
        ) is Ok,
{
}

/// A new stack goes to the first place where the item can go, given what lies
/// there by then.
pub proof fn law_new_stacks_go_to_the_first_place(
    defs: Map<Seq<char>, ItemDef>,
    gw: u32,
    gh: u32,
    before: Seq<PlacedItem>,
    after: Seq<PlacedItem>,
    id: ItemId,
    tick: u64,
    left: int,
    rest: int,
)
    requires
        filled(defs, gw, gh, before, after, id, tick, left, rest),
        left > 0,
    ensures
        after.len() > before.len() ==> {
            let p = after[before.len() as int];
            &&& is_first_fit_any(defs, gw, gh, before, defs[id@], p.x, p.y, p.rotation)
            &&& p.stack.count == left || p.stack.count >= defs[id@].stack_size
        },
        after.len() == before.len() ==> no_fit_any(defs, gw, gh, before, defs[id@]) && rest == left
            && after == before,
        after.len() >= before.len() || no_fit_any(defs, gw, gh, before, defs[id@]),
{
}

/// What lies in a container that was just put down: nothing, in a grid of the
/// size that the item gives, with a cell each way at the least.
pub proof fn law_containers_start_empty(def: ItemDef, inner: Option<GridInventory>)
    requires
        fresh_inner(def, inner),
    ensures
        inner is Some <==> def.inner_grid is Some,
        inner matches Some(g) ==> g.items@.len() == 0 && g.width >= 1 && g.height >= 1,
        inner matches Some(g) ==> (def.inner_grid matches Some(s) ==> (s.w >= 1 ==> g.width == s.w)
            && (s.h >= 1 ==> g.height == s.h) && (s.w == 0 ==> g.width == 1) && (s.h == 0
            ==> g.height == 1)),
{
}

} // verus!
