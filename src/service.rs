use vstd::prelude::*;

use crate::grid::{before, in_bounds, in_circle, lemma_circle_box, PixelWorld};
use crate::material::Material;
use crate::tools::{lemma_all_hits_taken, taken, BreakRule};

verus! {

/// Width of the world's grid, in cells.
pub const WORLD_PIXEL_WIDTH: usize = 800;

/// Height of the world's grid, in cells.
pub const WORLD_PIXEL_HEIGHT: usize = 600;

/// World x of grid column zero is minus this.
pub const PIXEL_TO_WORLD_OFFSET_X: i64 = 400;

/// World y of grid row zero.
pub const PIXEL_TO_WORLD_OFFSET_Y: i64 = 300;

/// World position of the grid cell `(px, py)`: the world origin sits at the
/// grid's centre and world y grows upward.
pub open spec fn to_world(px: int, py: int) -> (int, int) {
    (px - PIXEL_TO_WORLD_OFFSET_X, PIXEL_TO_WORLD_OFFSET_Y - py)
}

/// Grid cell of the world position `(wx, wy)`.
pub open spec fn to_pixel(wx: int, wy: int) -> (int, int) {
    (wx + PIXEL_TO_WORLD_OFFSET_X, PIXEL_TO_WORLD_OFFSET_Y - wy)
}

/// Converting a grid cell to the world and back gives the cell again, and a
/// world position to the grid and back gives the position again.
pub proof fn lemma_round_trip(px: int, py: int, wx: int, wy: int)
    ensures
        to_pixel(to_world(px, py).0, to_world(px, py).1) == (px, py),
        to_world(to_pixel(wx, wy).0, to_pixel(wx, wy).1) == (wx, wy),
{
}

/// World positions that the service accepts: their grid cells fit `i32`.
pub open spec fn world_ok(wx: int, wy: int) -> bool {
    i32::MIN <= to_pixel(wx, wy).0 <= i32::MAX && i32::MIN <= to_pixel(wx, wy).1 <= i32::MAX
}

/// Grid row-major order of two removed entries given by world position:
/// the grid row of `a` is above that of `b`, or the same with `a` to the
/// left.
pub open spec fn grid_before(a: (Material, i64, i64), b: (Material, i64, i64)) -> bool {
    let pa = to_pixel(a.1 as int, a.2 as int);
    let pb = to_pixel(b.1 as int, b.2 as int);
    pa.1 < pb.1 || (pa.1 == pb.1 && pa.0 < pb.0)
}

/// The materials that removing the listed cells one after another takes
/// from `g`: a cell is taken the first time it is listed, if it is solid.
pub open spec fn taken_in_turn(g: PixelWorld, cells: Seq<(i32, i32)>) -> Seq<Material>
    decreases cells.len(),
{
    if cells.len() == 0 {
        Seq::empty()
    } else {
        let rest = taken_in_turn(g, cells.drop_last());
        let c = cells.last();
        if !cells.drop_last().contains(c) && g.at(c.0 as int, c.1 as int).solid() {
            rest.push(g.at(c.0 as int, c.1 as int))
        } else {
            rest
        }
    }
}

/// Grid operations addressed by world position.
pub struct WorldService;

impl WorldService {
    pub fn pixel_to_world(pixel_x: i32, pixel_y: i32) -> (r: (i64, i64))
        ensures
            (r.0 as int, r.1 as int) == to_world(pixel_x as int, pixel_y as int),
    {
        (pixel_x as i64 - PIXEL_TO_WORLD_OFFSET_X, PIXEL_TO_WORLD_OFFSET_Y - pixel_y as i64)
    }

    pub fn world_to_pixel(world_x: i64, world_y: i64) -> (r: (i64, i64))
        requires
            world_ok(world_x as int, world_y as int),
        ensures
            (r.0 as int, r.1 as int) == to_pixel(world_x as int, world_y as int),
    {
        (world_x + PIXEL_TO_WORLD_OFFSET_X, PIXEL_TO_WORLD_OFFSET_Y - world_y)
    }

    /// Whether the world position falls on the world's grid.
    pub fn is_in_bounds(world_x: i64, world_y: i64) -> (r: bool)
        requires
            world_ok(world_x as int, world_y as int),
        ensures
            r == in_bounds(
                to_pixel(world_x as int, world_y as int).0,
                to_pixel(world_x as int, world_y as int).1,
                WORLD_PIXEL_WIDTH as int,
                WORLD_PIXEL_HEIGHT as int,
            ),
    {
        let (px, py) = Self::world_to_pixel(world_x, world_y);
        px >= 0 && px < WORLD_PIXEL_WIDTH as i64 && py >= 0 && py < WORLD_PIXEL_HEIGHT as i64
    }

    pub fn get_material_at_world(world: &PixelWorld, world_x: i64, world_y: i64) -> (r: Material)
        requires
            world.wf(),
            world_ok(world_x as int, world_y as int),
        ensures
            r == world.at(
                to_pixel(world_x as int, world_y as int).0,
                to_pixel(world_x as int, world_y as int).1,
            ),
    {
        let (px, py) = Self::world_to_pixel(world_x, world_y);
        world.get(px as i32, py as i32)
    }

    pub fn set_material_at_world(world: &mut PixelWorld, world_x: i64, world_y: i64, material: Material)
        requires
            old(world).wf(),
            world_ok(world_x as int, world_y as int),
        ensures
            old(world).written(
                &*final(world),
                |x: int, y: int| (x, y) == to_pixel(world_x as int, world_y as int),
                material,
            ),
    {
        let (px, py) = Self::world_to_pixel(world_x, world_y);
        let ghost start = *world;
        world.set(px as i32, py as i32, material);
        proof {
            start.lemma_written_same(
                world,
                |x: int, y: int| x == (px as i32) as int && y == (py as i32) as int,
                |x: int, y: int| (x, y) == to_pixel(world_x as int, world_y as int),
                material,
            );
        }
    }

    /// Whether a solid cell lies at the world position.
    pub fn has_collision_at(world: &PixelWorld, world_x: i64, world_y: i64) -> (r: bool)
        requires
            world.wf(),
            world_ok(world_x as int, world_y as int),
        ensures
            r == world.at(
                to_pixel(world_x as int, world_y as int).0,
                to_pixel(world_x as int, world_y as int).1,
            ).solid(),
    {
        Self::get_material_at_world(world, world_x, world_y) != Material::Air
    }

    /// Breaks every solid cell within `radius` of the world position and
    /// returns each with its material and world position, in row-major
    /// order of the grid; a negative radius breaks nothing.
    pub fn break_blocks_in_radius(world: &mut PixelWorld, world_x: i64, world_y: i64, radius: i32) -> (r:
        Vec<(Material, i64, i64)>)
        requires
            old(world).wf(),
            world_ok(world_x as int, world_y as int),
        ensures
            old(world).written(
                &*final(world),
                |x: int, y: int|
                    in_circle(
                        x,
                        y,
                        to_pixel(world_x as int, world_y as int).0,
                        to_pixel(world_x as int, world_y as int).1,
                        radius as int,
                    ) && old(world).at(x, y).solid(),
                Material::Air,
            ),
            forall|j: int|
                0 <= j < r@.len() ==> {
                    let c = to_pixel((#[trigger] r@[j]).1 as int, r@[j].2 as int);
                    &&& in_bounds(c.0, c.1, old(world).w(), old(world).h())
                    &&& in_circle(
                        c.0,
                        c.1,
                        to_pixel(world_x as int, world_y as int).0,
                        to_pixel(world_x as int, world_y as int).1,
                        radius as int,
                    )
                    &&& r@[j].0.solid()
                    &&& r@[j].0 == old(world).at(c.0, c.1)
                },
            forall|x: int, y: int|
                in_bounds(x, y, old(world).w(), old(world).h()) && #[trigger] in_circle(
                    x,
                    y,
                    to_pixel(world_x as int, world_y as int).0,
                    to_pixel(world_x as int, world_y as int).1,
                    radius as int,
                ) && old(world).at(x, y).solid() ==> exists|j: int|
                    0 <= j < r@.len() && to_pixel((#[trigger] r@[j]).1 as int, r@[j].2 as int) == (x, y),
            forall|j1: int, j2: int|
                0 <= j1 < j2 < r@.len() ==> grid_before(#[trigger] r@[j1], #[trigger] r@[j2]),
    {
        let (px, py) = Self::world_to_pixel(world_x, world_y);
        let cx = px as i32;
        let cy = py as i32;
        let n = world.hit_box_size(cx, cy, radius);
        let hits: Vec<bool> = vec![true; n];
        let ghost start = *world;
        let removed = world.break_in_circle(cx, cy, radius, BreakRule::AnySolid, &hits);
        proof {
            lemma_all_hits_taken(start, cx as int, cy as int, radius as int, BreakRule::AnySolid, hits@);
            start.lemma_written_same(
                world,
                |x: int, y: int|
                    taken(start, x, y, cx as int, cy as int, radius as int, BreakRule::AnySolid, hits@),
                |x: int, y: int|
                    in_circle(x, y, to_pixel(world_x as int, world_y as int).0, to_pixel(world_x as int, world_y as int).1, radius as int)
                        && start.at(x, y).solid(),
                Material::Air,
            );
        }
        let mut r: Vec<(Material, i64, i64)> = Vec::new();
        let mut j: usize = 0;
        while j < removed.len()
            invariant
                j <= removed@.len(),
                r@.len() == j,
                forall|q: int|
                    0 <= q < j ==> #[trigger] r@[q] == (
                        removed@[q].2,
                        (removed@[q].0 - PIXEL_TO_WORLD_OFFSET_X) as i64,
                        (PIXEL_TO_WORLD_OFFSET_Y - removed@[q].1) as i64,
                    ),
            decreases removed@.len() - j,
        {
            let (x, y, m) = removed[j];
            let (wx, wy) = Self::pixel_to_world(x, y);
            r.push((m, wx, wy));
            j += 1;
        }
        proof {
            assert forall|q: int| 0 <= q < r@.len() implies to_pixel((#[trigger] r@[q]).1 as int, r@[q].2 as int)
                == (removed@[q].0 as int, removed@[q].1 as int) by {}
            assert forall|x: int, y: int|
                in_bounds(x, y, start.w(), start.h()) && #[trigger] in_circle(
                    x,
                    y,
                    to_pixel(world_x as int, world_y as int).0,
                    to_pixel(world_x as int, world_y as int).1,
                    radius as int,
                ) && start.at(x, y).solid() implies exists|q: int|
                    0 <= q < r@.len() && to_pixel((#[trigger] r@[q]).1 as int, r@[q].2 as int) == (x, y) by {
                assert(taken(start, x, y, cx as int, cy as int, radius as int, BreakRule::AnySolid, hits@));
                let q = choose|q: int|
                    0 <= q < removed@.len() && (#[trigger] removed@[q]).0 == x && removed@[q].1 == y;
                assert(to_pixel(r@[q].1 as int, r@[q].2 as int) == (x, y));
            }
            assert forall|q: int| 0 <= q < r@.len() implies {
                let c = to_pixel((#[trigger] r@[q]).1 as int, r@[q].2 as int);
                &&& in_bounds(c.0, c.1, start.w(), start.h())
                &&& in_circle(
                    c.0,
                    c.1,
                    to_pixel(world_x as int, world_y as int).0,
                    to_pixel(world_x as int, world_y as int).1,
                    radius as int,
                )
                &&& r@[q].0.solid()
                &&& r@[q].0 == start.at(c.0, c.1)
            } by {
                assert(taken(start, removed@[q].0 as int, removed@[q].1 as int, cx as int, cy as int, radius as int, BreakRule::AnySolid, hits@));
            }
            assert forall|j1: int, j2: int|
                0 <= j1 < j2 < r@.len() implies grid_before(#[trigger] r@[j1], #[trigger] r@[j2]) by {
                assert(before(removed@[j1], removed@[j2]));
            }
        }
        r
    }

    /// The solid cells of the rectangle from `(min_x, min_y)` to
    /// `(max_x, max_y)`, corners included, with their materials, in
    /// row-major order.
    pub fn get_pixels_in_rect(
        world: &PixelWorld,
        min_x: i32,
        min_y: i32,
        max_x: i32,
        max_y: i32,
    ) -> (r: Vec<(i32, i32, Material)>)
        requires
            world.wf(),
        ensures
            forall|j: int|
                0 <= j < r@.len() ==> min_x <= (#[trigger] r@[j]).0 <= max_x && min_y <= r@[j].1
                    <= max_y && r@[j].2 == world.at(r@[j].0 as int, r@[j].1 as int)
                    && r@[j].2.solid(),
            forall|x: int, y: int|
                min_x <= x <= max_x && min_y <= y <= max_y && (#[trigger] world.at(x, y)).solid()
                    ==> exists|j: int| 0 <= j < r@.len() && r@[j].0 == x && r@[j].1 == y,
            forall|j1: int, j2: int| 0 <= j1 < j2 < r@.len() ==> before(#[trigger] r@[j1], #[trigger] r@[j2]),
    {
        let x0: i64 = if min_x < 0 { 0 } else { min_x as i64 };
        let y0: i64 = if min_y < 0 { 0 } else { min_y as i64 };
        let x1: i64 = if max_x as i64 + 1 > world.width as i64 { world.width as i64 } else { max_x as i64 + 1 };
        let y1: i64 = if max_y as i64 + 1 > world.height as i64 { world.height as i64 } else { max_y as i64 + 1 };
        let mut r: Vec<(i32, i32, Material)> = Vec::new();
        let mut y: i64 = y0;
        while y < y1
            invariant
                world.wf(),
                0 <= y0 <= y,
                y <= y1 || y0 >= y1,
                y1 <= world.h(),
                0 <= x0,
                x1 <= world.w(),
                x0 == if min_x < 0 { 0 } else { min_x as int },
                y0 == if min_y < 0 { 0 } else { min_y as int },
                x1 == if max_x + 1 > world.w() { world.w() } else { max_x + 1 },
                y1 == if max_y + 1 > world.h() { world.h() } else { max_y + 1 },
                forall|j: int|
                    0 <= j < r@.len() ==> min_x <= (#[trigger] r@[j]).0 <= max_x && min_y <= r@[j].1
                        <= max_y && r@[j].2 == world.at(r@[j].0 as int, r@[j].1 as int)
                        && r@[j].2.solid() && r@[j].1 < y,
                forall|x: int, yy: int|
                    min_x <= x <= max_x && min_y <= yy <= max_y && (#[trigger] world.at(x, yy)).solid()
                        && yy < y ==> exists|j: int| 0 <= j < r@.len() && r@[j].0 == x && r@[j].1 == yy,
                forall|j1: int, j2: int| 0 <= j1 < j2 < r@.len() ==> before(#[trigger] r@[j1], #[trigger] r@[j2]),
            decreases y1 - y,
        {
            let mut x: i64 = x0;
            while x < x1
                invariant
                    world.wf(),
                    0 <= y0 <= y < y1 <= world.h(),
                    0 <= x0 <= x,
                    x <= x1 || x0 >= x1,
                    x1 <= world.w(),
                    x0 == if min_x < 0 { 0 } else { min_x as int },
                    x1 == if max_x + 1 > world.w() { world.w() } else { max_x + 1 },
                    y0 == if min_y < 0 { 0 } else { min_y as int },
                    y1 == if max_y + 1 > world.h() { world.h() } else { max_y + 1 },
                    forall|j: int|
                        0 <= j < r@.len() ==> min_x <= (#[trigger] r@[j]).0 <= max_x && min_y <= r@[j].1
                            <= max_y && r@[j].2 == world.at(r@[j].0 as int, r@[j].1 as int)
                            && r@[j].2.solid() && (r@[j].1 < y || (r@[j].1 == y && r@[j].0 < x)),
                    forall|xx: int, yy: int|
                        min_x <= xx <= max_x && min_y <= yy <= max_y && (#[trigger] world.at(xx, yy)).solid()
                            && (yy < y || (yy == y && xx < x)) ==> exists|j: int|
                            0 <= j < r@.len() && r@[j].0 == xx && r@[j].1 == yy,
                    forall|j1: int, j2: int| 0 <= j1 < j2 < r@.len() ==> before(#[trigger] r@[j1], #[trigger] r@[j2]),
                decreases x1 - x,
            {
                let m = world.get(x as i32, y as i32);
                let ghost prev = r@;
                if m != Material::Air {
                    r.push((x as i32, y as i32, m));
                    proof {
                        assert forall|xx: int, yy: int|
                            min_x <= xx <= max_x && min_y <= yy <= max_y && (#[trigger] world.at(xx, yy)).solid()
                                && (yy < y || (yy == y && xx < x + 1)) implies exists|j: int|
                                0 <= j < r@.len() && r@[j].0 == xx && r@[j].1 == yy by {
                            if yy == y && xx == x {
                                assert(r@[prev.len() as int].0 == xx && r@[prev.len() as int].1 == yy);
                            } else {
                                let j = choose|j: int| 0 <= j < prev.len() && (#[trigger] prev[j]).0 == xx && prev[j].1 == yy;
                                assert(r@[j] == prev[j]);
                            }
                        }
                    }
                }
                x += 1;
            }
            y += 1;
        }
        proof {
            assert forall|x: int, yy: int|
                min_x <= x <= max_x && min_y <= yy <= max_y && (#[trigger] world.at(x, yy)).solid()
                implies exists|j: int| 0 <= j < r@.len() && r@[j].0 == x && r@[j].1 == yy by {
                assert(in_bounds(x, yy, world.w(), world.h()));
            }
        }
        r
    }

    /// Removes the listed cells one after another and returns the materials
    /// taken: a cell gives its material the first time it is listed, if it
    /// holds a solid one.
    pub fn remove_pixels(world: &mut PixelWorld, pixels: &Vec<(i32, i32)>) -> (r: Vec<Material>)
        requires
            old(world).wf(),
        ensures
            old(world).written(
                &*final(world),
                |x: int, y: int|
                    pixels@.contains((x as i32, y as i32)) && old(world).at(x, y).solid(),
                Material::Air,
            ),
            r@ == taken_in_turn(*old(world), pixels@),
    {
        let ghost start = *world;
        let ghost list = pixels@;
        let mut r: Vec<Material> = Vec::new();
        proof {
            start.lemma_written_refl(Material::Air);
            assert(list.subrange(0, 0) =~= Seq::<(i32, i32)>::empty());
            start.lemma_written_same(
                world,
                |x: int, y: int| false,
                |x: int, y: int| list.subrange(0, 0).contains((x as i32, y as i32)) && start.at(x, y).solid(),
                Material::Air,
            );
        }
        let mut i: usize = 0;
        while i < pixels.len()
            invariant
                start.wf(),
                list == pixels@,
                i <= list.len(),
                start.written(
                    world,
                    |x: int, y: int|
                        list.subrange(0, i as int).contains((x as i32, y as i32)) && start.at(x, y).solid(),
                    Material::Air,
                ),
                r@ == taken_in_turn(start, list.subrange(0, i as int)),
            decreases list.len() - i,
        {
            let (x, y) = pixels[i];
            let ghost pre = list.subrange(0, i as int);
            let ghost c = (x, y);
            proof {
                assert(list.subrange(0, i + 1).drop_last() =~= pre);
                assert(list.subrange(0, i + 1).last() == c);
                assert(list.subrange(0, i + 1) =~= pre.push(c));
                // the current content of the cell
                if in_bounds(x as int, y as int, start.w(), start.h()) {
                    assert(world.at(x as int, y as int) == if pre.contains(c) && start.at(x as int, y as int).solid() {
                        Material::Air
                    } else {
                        start.at(x as int, y as int)
                    });
                }
            }
            let m = world.get(x, y);
            let ghost w_before = *world;
            if m != Material::Air {
                r.push(m);
                world.set(x, y, Material::Air);
                proof {
                    start.lemma_written_trans(
                        &w_before,
                        world,
                        |px: int, py: int| pre.contains((px as i32, py as i32)) && start.at(px, py).solid(),
                        |px: int, py: int| px == x as int && py == y as int,
                        |px: int, py: int|
                            list.subrange(0, i + 1).contains((px as i32, py as i32)) && start.at(px, py).solid(),
                        Material::Air,
                    );
                }
            } else {
                proof {
                    assert forall|px: int, py: int| in_bounds(px, py, start.w(), start.h()) implies
                        (list.subrange(0, i + 1).contains((px as i32, py as i32)) && #[trigger] start.at(px, py).solid())
                        == (pre.contains((px as i32, py as i32)) && start.at(px, py).solid()) by {
                        if (px as i32, py as i32) == c && px == x && py == y {
                            assert(list.subrange(0, i + 1)[i as int] == c);
                        }
                        if list.subrange(0, i + 1).contains((px as i32, py as i32)) && (px as i32, py as i32) != c {
                            let k = choose|k: int| 0 <= k < i + 1 && #[trigger] list.subrange(0, i + 1)[k] == (px as i32, py as i32);
                            assert(pre[k] == (px as i32, py as i32));
                        }
                        if pre.contains((px as i32, py as i32)) {
                            let k = choose|k: int| 0 <= k < i && #[trigger] pre[k] == (px as i32, py as i32);
                            assert(list.subrange(0, i + 1)[k] == (px as i32, py as i32));
                        }
                    }
                    start.lemma_written_same(
                        world,
                        |px: int, py: int| pre.contains((px as i32, py as i32)) && start.at(px, py).solid(),
                        |px: int, py: int|
                            list.subrange(0, i + 1).contains((px as i32, py as i32)) && start.at(px, py).solid(),
                        Material::Air,
                    );
                }
            }
            i += 1;
        }
        proof {
            assert(list.subrange(0, list.len() as int) =~= list);
        }
        r
    }

    /// Fills the disc of radius `radius` around the world position.
    pub fn set_circle_at_world(
        world: &mut PixelWorld,
        world_x: i64,
        world_y: i64,
        radius: i32,
        material: Material,
    )
        requires
            old(world).wf(),
            world_ok(world_x as int, world_y as int),
        ensures
            old(world).written(
                &*final(world),
                |x: int, y: int|
                    in_circle(
                        x,
                        y,
                        to_pixel(world_x as int, world_y as int).0,
                        to_pixel(world_x as int, world_y as int).1,
                        radius as int,
                    ),
                material,
            ),
    {
        let (px, py) = Self::world_to_pixel(world_x, world_y);
        let ghost start = *world;
        world.set_circle(px as i32, py as i32, radius, material);
        proof {
            start.lemma_written_same(
                world,
                |x: int, y: int| in_circle(x, y, (px as i32) as int, (py as i32) as int, radius as int),
                |x: int, y: int|
                    in_circle(
                        x,
                        y,
                        to_pixel(world_x as int, world_y as int).0,
                        to_pixel(world_x as int, world_y as int).1,
                        radius as int,
                    ),
                material,
            );
        }
    }
}

} // verus!
