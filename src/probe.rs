use vstd::prelude::*;

use crate::grid::PixelWorld;
use crate::material::Material;

verus! {

/// Highest step, in cells, that a walker climbs on its own.
pub const MAX_SLOPE_HEIGHT: i32 = 6;

/// Only dirt stops a walker: it passes through wood, leaves and sand.
pub open spec fn blocks(g: PixelWorld, x: int, y: int) -> bool {
    g.at(x, y) == Material::Dirt
}

/// Whether a `width` by `height` walker centred on column `x`, row `y` finds
/// a wall in the columns just outside either side of it.
pub open spec fn walled(g: PixelWorld, x: int, y: int, width: int, height: int) -> bool {
    exists|dy: int|
        0 <= dy < height && (#[trigger] blocks(g, x - width / 2 - 1, y + dy - height / 2) || blocks(
            g,
            x + width / 2 + 1,
            y + dy - height / 2,
        ))
}

/// Whether dirt lies in the row just below a walker centred on `(x, y)`.
pub open spec fn floored(g: PixelWorld, x: int, y: int, width: int, height: int) -> bool {
    exists|dx: int| 0 <= dx < width && #[trigger] blocks(g, x + dx - width / 2, y + height / 2 + 1)
}

/// Whether dirt lies in the row just above a walker centred on `(x, y)`.
pub open spec fn roofed(g: PixelWorld, x: int, y: int, width: int, height: int) -> bool {
    exists|dx: int| 0 <= dx < width && #[trigger] blocks(g, x + dx - width / 2, y - height / 2 - 1)
}

/// A walker at column `x` can stand `h` cells higher than row `y`: no wall
/// beside it and no roof over it there.
pub open spec fn climbable(g: PixelWorld, x: int, y: int, width: int, height: int, h: int) -> bool {
    !walled(g, x, y - h, width, height) && !roofed(g, x, y - h, width, height)
}

fn dirt_at(world: &PixelWorld, x: i64, y: i64) -> (r: bool)
    requires
        world.wf(),
    ensures
        r == blocks(*world, x as int, y as int),
{
    if x < 0 || y < 0 || x >= world.width as i64 || y >= world.height as i64 {
        return false;
    }
    world.get(x as i32, y as i32) == Material::Dirt
}

impl PixelWorld {
    /// Whether a walker of the given size, centred on column `x` and row
    /// `y`, can stand there without a wall beside it.
    pub fn wall_free(&self, x: i32, y: i32, width: i32, height: i32) -> (r: bool)
        requires
            self.wf(),
            width >= 0,
            height >= 0,
        ensures
            r == !walled(*self, x as int, y as int, width as int, height as int),
    {
        let hw = (width as u32 / 2) as i64;
        let hh = (height as u32 / 2) as i64;
        let mut dy: i64 = 0;
        while dy < height as i64
            invariant
                self.wf(),
                0 <= dy <= height,
                hw == width / 2,
                hh == height / 2,
                forall|e: int|
                    0 <= e < dy ==> !(#[trigger] blocks(*self, x - width / 2 - 1, y + e - height / 2)
                        || blocks(*self, x + width / 2 + 1, y + e - height / 2)),
            decreases height - dy,
        {
            let row = y as i64 + dy - hh;
            if dirt_at(self, x as i64 - hw - 1, row) || dirt_at(self, x as i64 + hw + 1, row) {
                return false;
            }
            dy += 1;
        }
        true
    }

    /// Whether a walker centred on `(x, y)` stands on dirt.
    pub fn on_ground(&self, x: i32, y: i32, width: i32, height: i32) -> (r: bool)
        requires
            self.wf(),
            width >= 0,
            height >= 0,
        ensures
            r == floored(*self, x as int, y as int, width as int, height as int),
    {
        let hw = (width as u32 / 2) as i64;
        let hh = (height as u32 / 2) as i64;
        let mut dx: i64 = 0;
        while dx < width as i64
            invariant
                self.wf(),
                0 <= dx <= width,
                hw == width / 2,
                hh == height / 2,
                forall|e: int| 0 <= e < dx ==> !#[trigger] blocks(*self, x + e - width / 2, y + height / 2 + 1),
            decreases width - dx,
        {
            if dirt_at(self, x as i64 + dx - hw, y as i64 + hh + 1) {
                return true;
            }
            dx += 1;
        }
        false
    }

    /// Whether a walker centred on `(x, y)` has dirt right above its head.
    pub fn under_roof(&self, x: i32, y: i32, width: i32, height: i32) -> (r: bool)
        requires
            self.wf(),
            width >= 0,
            height >= 0,
        ensures
            r == roofed(*self, x as int, y as int, width as int, height as int),
    {
        let hw = (width as u32 / 2) as i64;
        let hh = (height as u32 / 2) as i64;
        let mut dx: i64 = 0;
        while dx < width as i64
            invariant
                self.wf(),
                0 <= dx <= width,
                hw == width / 2,
                hh == height / 2,
                forall|e: int| 0 <= e < dx ==> !#[trigger] blocks(*self, x + e - width / 2, y - height / 2 - 1),
            decreases width - dx,
        {
            if dirt_at(self, x as i64 + dx - hw, y as i64 - hh - 1) {
                return true;
            }
            dx += 1;
        }
        false
    }

    /// The smallest step up, at most `MAX_SLOPE_HEIGHT`, after which a walker
    /// blocked at column `x` has neither a wall beside it nor a roof over it;
    /// none when every step up is blocked.
    pub fn climb_height(&self, x: i32, y: i32, width: i32, height: i32) -> (r: Option<i32>)
        requires
            self.wf(),
            width >= 0,
            height >= 0,
            y >= i32::MIN + MAX_SLOPE_HEIGHT,
        ensures
            r matches Some(h) ==> 1 <= h <= MAX_SLOPE_HEIGHT && climbable(
                *self,
                x as int,
                y as int,
                width as int,
                height as int,
                h as int,
            ) && forall|k: int|
                1 <= k < h ==> !#[trigger] climbable(
                    *self,
                    x as int,
                    y as int,
                    width as int,
                    height as int,
                    k,
                ),
            r is None ==> forall|k: int|
                1 <= k <= MAX_SLOPE_HEIGHT ==> !#[trigger] climbable(
                    *self,
                    x as int,
                    y as int,
                    width as int,
                    height as int,
                    k,
                ),
    {
        let mut h: i32 = 1;
        while h <= MAX_SLOPE_HEIGHT
            invariant
                self.wf(),
                width >= 0,
                height >= 0,
                y >= i32::MIN + MAX_SLOPE_HEIGHT,
                1 <= h <= MAX_SLOPE_HEIGHT + 1,
                forall|k: int|
                    1 <= k < h ==> !#[trigger] climbable(
                        *self,
                        x as int,
                        y as int,
                        width as int,
                        height as int,
                        k,
                    ),
            decreases MAX_SLOPE_HEIGHT + 1 - h,
        {
            if self.wall_free(x, y - h, width, height) && !self.under_roof(x, y - h, width, height) {
                return Some(h);
            }
            h += 1;
        }
        None
    }
}

} // verus!
