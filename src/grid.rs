use vstd::prelude::*;

use crate::material::Material;

verus! {

/// Side of the square regions whose changes are tracked for redraw.
pub const DIRTY_CHUNK_SIZE: usize = 32;

/// Row-major index of the cell `(x, y)` in a grid `w` cells wide.
pub open spec fn cell_index(x: int, y: int, w: int) -> int {
    y * w + x
}

pub open spec fn in_bounds(x: int, y: int, w: int, h: int) -> bool {
    0 <= x < w && 0 <= y < h
}

/// Number of tracked regions needed to cover `n` cells along one axis.
pub open spec fn regions_along(n: int) -> int {
    (n + DIRTY_CHUNK_SIZE - 1) / DIRTY_CHUNK_SIZE as int
}

/// Index of the tracked region that holds the cell `(x, y)`.
pub open spec fn region_index(x: int, y: int, w: int) -> int {
    (y / DIRTY_CHUNK_SIZE as int) * regions_along(w) + x / DIRTY_CHUNK_SIZE as int
}

pub proof fn lemma_index_in_range(x: int, y: int, w: int, h: int)
    requires
        in_bounds(x, y, w, h),
    ensures
        0 <= cell_index(x, y, w) < w * h,
{
    assert(0 <= y * w + x < w * h) by (nonlinear_arith)
        requires
            0 <= x < w,
            0 <= y < h,
    ;
}

pub proof fn lemma_index_injective(x1: int, y1: int, x2: int, y2: int, w: int, h: int)
    requires
        in_bounds(x1, y1, w, h),
        in_bounds(x2, y2, w, h),
        cell_index(x1, y1, w) == cell_index(x2, y2, w),
    ensures
        x1 == x2 && y1 == y2,
{
    if y1 < y2 {
        assert(y1 * w + x1 < y2 * w + x2) by (nonlinear_arith)
            requires
                0 <= x1 < w,
                0 <= x2,
                y1 < y2,
        ;
    } else if y2 < y1 {
        assert(y2 * w + x2 < y1 * w + x1) by (nonlinear_arith)
            requires
                0 <= x2 < w,
                0 <= x1,
                y2 < y1,
        ;
    }
}

pub proof fn lemma_region_in_range(x: int, y: int, w: int, h: int)
    requires
        in_bounds(x, y, w, h),
    ensures
        0 <= region_index(x, y, w) < regions_along(w) * regions_along(h),
{
    let s = DIRTY_CHUNK_SIZE as int;
    let cx = x / s;
    let cy = y / s;
    assert(0 <= cx < regions_along(w));
    assert(0 <= cy < regions_along(h));
    assert(0 <= cy * regions_along(w) + cx < regions_along(w) * regions_along(h))
        by (nonlinear_arith)
        requires
            0 <= cx < regions_along(w),
            0 <= cy < regions_along(h),
    ;
}

/// Row-major order of grid cells: `a` comes before `b`.
pub open spec fn before(a: (i32, i32, Material), b: (i32, i32, Material)) -> bool {
    a.1 < b.1 || (a.1 == b.1 && a.0 < b.0)
}

pub open spec fn in_rect(px: int, py: int, x: int, y: int, w: int, h: int) -> bool {
    x <= px < x + w && y <= py < y + h
}

/// Membership in the disc of radius `r` around `(cx, cy)`, boundary included.
pub open spec fn in_circle(px: int, py: int, cx: int, cy: int, r: int) -> bool {
    r >= 0 && (px - cx) * (px - cx) + (py - cy) * (py - cy) <= r * r
}

/// A disc lies inside the square that bounds it.
pub proof fn lemma_circle_box(cx: int, cy: int, r: int)
    ensures
        forall|px: int, py: int|
            #[trigger] in_circle(px, py, cx, cy, r) ==> cx - r <= px <= cx + r && cy - r <= py
                <= cy + r,
{
    assert forall|px: int, py: int| #[trigger] in_circle(px, py, cx, cy, r) implies cx - r <= px
        <= cx + r && cy - r <= py <= cy + r by {
        let dx = px - cx;
        let dy = py - cy;
        assert(dx * dx <= r * r && dy * dy <= r * r) by (nonlinear_arith)
            requires
                dx * dx + dy * dy <= r * r,
        ;
        assert(-r <= dx <= r && -r <= dy <= r) by (nonlinear_arith)
            requires
                r >= 0,
                dx * dx <= r * r,
                dy * dy <= r * r,
        ;
    }
}

pub proof fn lemma_square_bound(d: int)
    requires
        -0x1_0000_0000 <= d <= 0x1_0000_0000,
    ensures
        0 <= d * d <= 0x1_0000_0000_0000_0000,
{
    assert(0 <= d * d <= 0x1_0000_0000_0000_0000) by (nonlinear_arith)
        requires
            -0x1_0000_0000 <= d <= 0x1_0000_0000,
    ;
}

/// The authoritative grid of materials. Cells outside the grid read as air
/// and ignore writes; every write marks the tracked region that holds it.
pub struct PixelWorld {
    pub width: usize,
    pub height: usize,
    pub pixels: Vec<Material>,
    pub dirty_chunks: Vec<bool>,
}

impl PixelWorld {
    pub open spec fn w(&self) -> int {
        self.width as int
    }

    pub open spec fn h(&self) -> int {
        self.height as int
    }

    /// The material at `(x, y)`: air outside the grid.
    pub open spec fn at(&self, x: int, y: int) -> Material {
        if in_bounds(x, y, self.w(), self.h()) {
            self.pixels@[cell_index(x, y, self.w())]
        } else {
            Material::Air
        }
    }

    /// All cells in row-major order.
    pub open spec fn cells(&self) -> Seq<Material> {
        self.pixels@
    }

    /// Whether the tracked region with index `i` has been written since the
    /// last clear.
    pub open spec fn dirty(&self, i: int) -> bool {
        self.dirty_chunks@[i]
    }

    /// The region flags cover the region grid.
    pub open spec fn regions_ok(&self) -> bool {
        self.dirty_chunks@.len() == self.region_count()
    }

    pub open spec fn region_count(&self) -> int {
        regions_along(self.w()) * regions_along(self.h())
    }

    pub open spec fn wf(&self) -> bool {
        &&& self.width <= i32::MAX
        &&& self.height <= i32::MAX
        &&& self.w() * self.h() <= usize::MAX
        &&& self.pixels@.len() == self.w() * self.h()
        &&& self.region_count() <= usize::MAX
        &&& self.regions_ok()
    }

    /// `other` differs from `self` only in the cells that `changed` selects,
    /// where it holds `m`; every region holding such a cell is dirty in
    /// `other`, and no region that was dirty in `self` is clean in `other`.
    pub open spec fn written(
        &self,
        other: &PixelWorld,
        changed: spec_fn(int, int) -> bool,
        m: Material,
    ) -> bool {
        &&& other.wf()
        &&& other.w() == self.w()
        &&& other.h() == self.h()
        &&& forall|x: int, y: int|
            #[trigger] other.at(x, y) == if in_bounds(x, y, self.w(), self.h()) && changed(x, y) {
                m
            } else {
                self.at(x, y)
            }
        &&& forall|i: int| 0 <= i < self.region_count() && #[trigger] self.dirty(i) ==> other.dirty(i)
        &&& forall|x: int, y: int|
            in_bounds(x, y, self.w(), self.h()) && #[trigger] changed(x, y) ==> other.dirty(
                region_index(x, y, self.w()),
            )
    }

    /// A grid of air, `width` by `height`, with every region dirty.
    pub fn new(width: usize, height: usize) -> (r: PixelWorld)
        requires
            width <= i32::MAX,
            height <= i32::MAX,
            width * height <= usize::MAX,
        ensures
            r.wf(),
            r.w() == width,
            r.h() == height,
            forall|x: int, y: int| #[trigger] r.at(x, y) == Material::Air,
            forall|i: int| 0 <= i < r.region_count() ==> #[trigger] r.dirty(i),
    {
        let s = DIRTY_CHUNK_SIZE;
        let cw = (width + (s - 1)) / s;
        let ch = (height + (s - 1)) / s;
        assert(cw <= width && ch <= height);
        assert(cw * ch <= width * height) by (nonlinear_arith)
            requires
                0 <= cw <= width,
                0 <= ch <= height,
        ;
        let pixels = vec![Material::Air; width * height];
        let dirty_chunks = vec![true; cw * ch];
        let r = PixelWorld { width, height, pixels, dirty_chunks };
        assert forall|x: int, y: int| #[trigger] r.at(x, y) == Material::Air by {
            if in_bounds(x, y, r.w(), r.h()) {
                lemma_index_in_range(x, y, r.w(), r.h());
            }
        }
        r
    }

    pub fn width(&self) -> (r: usize)
        ensures
            r == self.w(),
    {
        self.width
    }

    pub fn height(&self) -> (r: usize)
        ensures
            r == self.h(),
    {
        self.height
    }

    /// The material at `(x, y)`; air outside the grid.
    pub fn get(&self, x: i32, y: i32) -> (r: Material)
        requires
            self.wf(),
        ensures
            r == self.at(x as int, y as int),
    {
        if x < 0 || y < 0 || x as usize >= self.width || y as usize >= self.height {
            return Material::Air;
        }
        proof {
            lemma_index_in_range(x as int, y as int, self.w(), self.h());
        }
        self.pixels[y as usize * self.width + x as usize]
    }

    /// Writes `material` at `(x, y)` and marks its region dirty; does nothing
    /// outside the grid.
    pub fn set(&mut self, x: i32, y: i32, material: Material)
        requires
            old(self).wf(),
        ensures
            old(self).written(
                &*final(self),
                |px: int, py: int| px == x && py == y,
                material,
            ),
            !in_bounds(x as int, y as int, old(self).w(), old(self).h()) ==> *final(self)
                == *old(self),
            in_bounds(x as int, y as int, old(self).w(), old(self).h()) ==> final(self).cells()
                == old(self).cells().update(cell_index(x as int, y as int, old(self).w()), material),
            forall|i: int|
                0 <= i < old(self).region_count() ==> #[trigger] final(self).dirty(i) == (old(
                    self,
                ).dirty(i) || (in_bounds(x as int, y as int, old(self).w(), old(self).h()) && i
                    == region_index(x as int, y as int, old(self).w()))),
    {
        if x < 0 || y < 0 || x as usize >= self.width || y as usize >= self.height {
            return;
        }
        let ghost w = self.w();
        let ghost h = self.h();
        proof {
            lemma_index_in_range(x as int, y as int, w, h);
            lemma_region_in_range(x as int, y as int, w, h);
        }
        let idx = y as usize * self.width + x as usize;
        self.pixels.set(idx, material);
        self.mark_region_dirty(x as usize, y as usize);
        proof {
            assert forall|px: int, py: int|
                #[trigger] self.at(px, py) == if in_bounds(px, py, w, h) && px == x && py == y {
                    material
                } else {
                    old(self).at(px, py)
                } by {
                if in_bounds(px, py, w, h) {
                    lemma_index_in_range(px, py, w, h);
                    if px != x || py != y {
                        if cell_index(px, py, w) == cell_index(x as int, y as int, w) {
                            lemma_index_injective(px, py, x as int, y as int, w, h);
                        }
                    }
                }
            }
        }
    }

    fn mark_region_dirty(&mut self, x: usize, y: usize)
        requires
            old(self).wf(),
            in_bounds(x as int, y as int, old(self).w(), old(self).h()),
        ensures
            final(self).width == old(self).width,
            final(self).height == old(self).height,
            final(self).pixels == old(self).pixels,
            final(self).dirty_chunks@ == old(self).dirty_chunks@.update(
                region_index(x as int, y as int, old(self).w()),
                true,
            ),
    {
        proof {
            lemma_region_in_range(x as int, y as int, self.w(), self.h());
        }
        let s = DIRTY_CHUNK_SIZE;
        let cw = (self.width + (s - 1)) / s;
        let idx = (y / s) * cw + x / s;
        self.dirty_chunks.set(idx, true);
    }

    /// `new` keeps every region of `self` dirty that was dirty, and the region
    /// of every cell whose material changed is dirty in `new`.
    pub open spec fn dirty_follows(&self, new: &PixelWorld) -> bool {
        &&& forall|i: int| 0 <= i < self.region_count() && #[trigger] self.dirty(i) ==> new.dirty(i)
        &&& forall|x: int, y: int|
            in_bounds(x, y, self.w(), self.h()) && #[trigger] new.at(x, y) != self.at(x, y)
                ==> new.dirty(region_index(x, y, self.w()))
    }

    pub proof fn lemma_written_dirty(&self, new: &PixelWorld, f: spec_fn(int, int) -> bool, m: Material)
        requires
            self.wf(),
            self.written(new, f, m),
        ensures
            self.dirty_follows(new),
    {
        assert forall|x: int, y: int|
            in_bounds(x, y, self.w(), self.h()) && #[trigger] new.at(x, y) != self.at(x, y)
                implies new.dirty(region_index(x, y, self.w())) by {
            assert(f(x, y));
        }
    }

    pub proof fn lemma_dirty_follows_trans(&self, b: &PixelWorld, c: &PixelWorld)
        requires
            self.wf(),
            b.wf(),
            b.w() == self.w(),
            b.h() == self.h(),
            self.dirty_follows(b),
            b.dirty_follows(c),
        ensures
            self.dirty_follows(c),
    {
        assert forall|x: int, y: int|
            in_bounds(x, y, self.w(), self.h()) && #[trigger] c.at(x, y) != self.at(x, y)
                implies c.dirty(region_index(x, y, self.w())) by {
            lemma_region_in_range(x, y, self.w(), self.h());
            if b.at(x, y) != self.at(x, y) {
                assert(b.dirty(region_index(x, y, self.w())));
            } else {
                assert(c.at(x, y) != b.at(x, y));
            }
        }
    }

    pub proof fn lemma_written_refl(&self, m: Material)
        requires
            self.wf(),
        ensures
            self.written(self, |px: int, py: int| false, m),
    {
    }

    /// Two writes of the same material compose into one.
    pub proof fn lemma_written_trans(
        &self,
        b: &PixelWorld,
        c: &PixelWorld,
        f: spec_fn(int, int) -> bool,
        g: spec_fn(int, int) -> bool,
        fg: spec_fn(int, int) -> bool,
        m: Material,
    )
        requires
            self.wf(),
            self.written(b, f, m),
            b.written(c, g, m),
            forall|x: int, y: int|
                in_bounds(x, y, self.w(), self.h()) ==> #[trigger] fg(x, y) == (f(x, y) || g(x, y)),
        ensures
            self.written(c, fg, m),
    {
        assert forall|x: int, y: int|
            #[trigger] c.at(x, y) == if in_bounds(x, y, self.w(), self.h()) && fg(x, y) {
                m
            } else {
                self.at(x, y)
            } by {
            assert(c.at(x, y) == if in_bounds(x, y, b.w(), b.h()) && g(x, y) {
                m
            } else {
                b.at(x, y)
            });
            assert(b.at(x, y) == if in_bounds(x, y, self.w(), self.h()) && f(x, y) {
                m
            } else {
                self.at(x, y)
            });
        }
        assert forall|x: int, y: int|
            in_bounds(x, y, self.w(), self.h()) && #[trigger] fg(x, y) implies c.dirty(
                region_index(x, y, self.w()),
            ) by {
            lemma_region_in_range(x, y, self.w(), self.h());
            if f(x, y) {
                assert(b.dirty(region_index(x, y, self.w())));
            } else {
                assert(g(x, y));
            }
        }
    }

    /// A write stays described when its selection changes only outside the grid.
    pub proof fn lemma_written_same(
        &self,
        b: &PixelWorld,
        f: spec_fn(int, int) -> bool,
        g: spec_fn(int, int) -> bool,
        m: Material,
    )
        requires
            self.wf(),
            self.written(b, f, m),
            forall|x: int, y: int|
                in_bounds(x, y, self.w(), self.h()) ==> #[trigger] g(x, y) == f(x, y),
        ensures
            self.written(b, g, m),
    {
        assert forall|x: int, y: int|
            #[trigger] b.at(x, y) == if in_bounds(x, y, self.w(), self.h()) && g(x, y) {
                m
            } else {
                self.at(x, y)
            } by {
            assert(b.at(x, y) == if in_bounds(x, y, self.w(), self.h()) && f(x, y) {
                m
            } else {
                self.at(x, y)
            });
        }
        assert forall|x: int, y: int|
            in_bounds(x, y, self.w(), self.h()) && #[trigger] g(x, y) implies b.dirty(
                region_index(x, y, self.w()),
            ) by {
            assert(f(x, y));
        }
    }

    /// Fills the `w` by `h` rectangle whose top-left cell is `(x, y)`; cells
    /// outside the grid are skipped.
    pub fn set_rect(&mut self, x: i32, y: i32, w: i32, h: i32, material: Material)
        requires
            old(self).wf(),
        ensures
            old(self).written(
                &*final(self),
                |px: int, py: int| in_rect(px, py, x as int, y as int, w as int, h as int),
                material,
            ),
    {
        let ghost start = *self;
        let x0: i64 = if x < 0 { 0 } else { x as i64 };
        let y0: i64 = if y < 0 { 0 } else { y as i64 };
        let x1: i64 = if x as i64 + w as i64 > self.width as i64 {
            self.width as i64
        } else {
            x as i64 + w as i64
        };
        let y1: i64 = if y as i64 + h as i64 > self.height as i64 {
            self.height as i64
        } else {
            y as i64 + h as i64
        };
        proof {
            start.lemma_written_refl(material);
            start.lemma_written_same(self, |px: int, py: int| false, |px: int, py: int| in_rect(px, py, x as int, y as int, w as int, h as int) && py < y0, material);
        }
        let mut yy: i64 = y0;
        while yy < y1
            invariant
                start.wf(),
                0 <= y0 <= yy,
                y1 <= start.h(),
                yy <= y1 || y0 >= y1,
                0 <= x0,
                x1 <= start.w(),
                x0 == if x < 0 { 0 } else { x as int },
                y0 == if y < 0 { 0 } else { y as int },
                x1 == if x + w > start.w() { start.w() } else { x + w },
                y1 == if y + h > start.h() { start.h() } else { y + h },
                start.written(self, |px: int, py: int| in_rect(px, py, x as int, y as int, w as int, h as int) && py < yy, material),
            decreases y1 - yy,
        {
            proof {
                start.lemma_written_same(
                    self,
                    |px: int, py: int| in_rect(px, py, x as int, y as int, w as int, h as int) && py < yy,
                    |px: int, py: int| in_rect(px, py, x as int, y as int, w as int, h as int) && (py < yy || (py == yy && px < x0)),
                    material,
                );
            }
            let mut xx: i64 = x0;
            while xx < x1
                invariant
                    start.wf(),
                    0 <= y0 <= yy < y1 <= start.h(),
                    0 <= x0 <= xx,
                    xx <= x1 || x0 >= x1,
                    x1 <= start.w(),
                    x0 == if x < 0 { 0 } else { x as int },
                    x1 == if x + w > start.w() { start.w() } else { x + w },
                    y0 == if y < 0 { 0 } else { y as int },
                    y1 == if y + h > start.h() { start.h() } else { y + h },
                    start.written(
                        self,
                        |px: int, py: int| in_rect(px, py, x as int, y as int, w as int, h as int) && (py < yy || (py == yy && px < xx)),
                        material,
                    ),
                decreases x1 - xx,
            {
                let ghost before = *self;
                self.set(xx as i32, yy as i32, material);
                proof {
                    start.lemma_written_trans(
                        &before,
                        self,
                        |px: int, py: int| in_rect(px, py, x as int, y as int, w as int, h as int) && (py < yy || (py == yy && px < xx)),
                        |px: int, py: int| px == (xx as i32) as int && py == (yy as i32) as int,
                        |px: int, py: int| in_rect(px, py, x as int, y as int, w as int, h as int) && (py < yy || (py == yy && px < xx + 1)),
                        material,
                    );
                }
                xx += 1;
            }
            proof {
                start.lemma_written_same(
                    self,
                    |px: int, py: int| in_rect(px, py, x as int, y as int, w as int, h as int) && (py < yy || (py == yy && px < xx)),
                    |px: int, py: int| in_rect(px, py, x as int, y as int, w as int, h as int) && py < yy + 1,
                    material,
                );
            }
            yy += 1;
        }
        proof {
            start.lemma_written_same(
                self,
                |px: int, py: int| in_rect(px, py, x as int, y as int, w as int, h as int) && py < yy,
                |px: int, py: int| in_rect(px, py, x as int, y as int, w as int, h as int),
                material,
            );
        }
    }

    /// Fills every cell whose squared distance to `(cx, cy)` is at most
    /// `radius` squared; a negative radius fills nothing.
    pub fn set_circle(&mut self, cx: i32, cy: i32, radius: i32, material: Material)
        requires
            old(self).wf(),
        ensures
            old(self).written(
                &*final(self),
                |px: int, py: int| in_circle(px, py, cx as int, cy as int, radius as int),
                material,
            ),
    {
        let ghost start = *self;
        let r = radius as i64;
        let y0: i64 = if cy as i64 - r < 0 { 0 } else { cy as i64 - r };
        let y1: i64 = if cy as i64 + r + 1 > self.height as i64 {
            self.height as i64
        } else {
            cy as i64 + r + 1
        };
        let x0: i64 = if cx as i64 - r < 0 { 0 } else { cx as i64 - r };
        let x1: i64 = if cx as i64 + r + 1 > self.width as i64 {
            self.width as i64
        } else {
            cx as i64 + r + 1
        };
        proof {
            lemma_circle_box(cx as int, cy as int, radius as int);
            start.lemma_written_refl(material);
            start.lemma_written_same(
                self,
                |px: int, py: int| false,
                |px: int, py: int|
                    in_circle(px, py, cx as int, cy as int, radius as int) && py < y0,
                material,
            );
        }
        let mut yy: i64 = y0;
        while yy < y1
            invariant
                start.wf(),
                0 <= y0 <= yy,
                y1 <= start.h(),
                yy <= y1 || y0 >= y1,
                0 <= x0,
                x1 <= start.w(),
                r == radius,
                x0 == if cx - r < 0 { 0 } else { cx - r },
                y0 == if cy - r < 0 { 0 } else { cy - r },
                x1 == if cx + r + 1 > start.w() { start.w() } else { cx + r + 1 },
                y1 == if cy + r + 1 > start.h() { start.h() } else { cy + r + 1 },
                start.written(
                    self,
                    |px: int, py: int|
                        in_circle(px, py, cx as int, cy as int, radius as int) && py < yy,
                    material,
                ),
            decreases y1 - yy,
        {
            proof {
                lemma_circle_box(cx as int, cy as int, radius as int);
                start.lemma_written_same(
                    self,
                    |px: int, py: int|
                        in_circle(px, py, cx as int, cy as int, radius as int) && py < yy,
                    |px: int, py: int|
                        in_circle(px, py, cx as int, cy as int, radius as int) && (py < yy || (py
                            == yy && px < x0)),
                    material,
                );
            }
            let mut xx: i64 = x0;
            while xx < x1
                invariant
                    start.wf(),
                    0 <= y0 <= yy < y1 <= start.h(),
                    0 <= x0 <= xx,
                    xx <= x1 || x0 >= x1,
                    x1 <= start.w(),
                    r == radius,
                    x0 == if cx - r < 0 { 0 } else { cx - r },
                    y0 == if cy - r < 0 { 0 } else { cy - r },
                    x1 == if cx + r + 1 > start.w() { start.w() } else { cx + r + 1 },
                    y1 == if cy + r + 1 > start.h() { start.h() } else { cy + r + 1 },
                    start.written(
                        self,
                        |px: int, py: int|
                            in_circle(px, py, cx as int, cy as int, radius as int) && (py < yy || (
                            py == yy && px < xx)),
                        material,
                    ),
                decreases x1 - xx,
            {
                let dx = (xx - cx as i64) as i128;
                let dy = (yy - cy as i64) as i128;
                let rr = r as i128;
                proof {
                    lemma_square_bound(dx as int);
                    lemma_square_bound(dy as int);
                    lemma_square_bound(rr as int);
                }
                if rr >= 0 && dx * dx + dy * dy <= rr * rr {
                    let ghost before = *self;
                    self.set(xx as i32, yy as i32, material);
                    proof {
                        start.lemma_written_trans(
                            &before,
                            self,
                            |px: int, py: int|
                                in_circle(px, py, cx as int, cy as int, radius as int) && (py < yy
                                    || (py == yy && px < xx)),
                            |px: int, py: int| px == (xx as i32) as int && py == (yy as i32) as int,
                            |px: int, py: int|
                                in_circle(px, py, cx as int, cy as int, radius as int) && (py < yy
                                    || (py == yy && px < xx + 1)),
                            material,
                        );
                    }
                } else {
                    proof {
                        start.lemma_written_same(
                            self,
                            |px: int, py: int|
                                in_circle(px, py, cx as int, cy as int, radius as int) && (py < yy
                                    || (py == yy && px < xx)),
                            |px: int, py: int|
                                in_circle(px, py, cx as int, cy as int, radius as int) && (py < yy
                                    || (py == yy && px < xx + 1)),
                            material,
                        );
                    }
                }
                xx += 1;
            }
            proof {
                lemma_circle_box(cx as int, cy as int, radius as int);
                start.lemma_written_same(
                    self,
                    |px: int, py: int|
                        in_circle(px, py, cx as int, cy as int, radius as int) && (py < yy || (py
                            == yy && px < xx)),
                    |px: int, py: int|
                        in_circle(px, py, cx as int, cy as int, radius as int) && py < yy + 1,
                    material,
                );
            }
            yy += 1;
        }
        proof {
            lemma_circle_box(cx as int, cy as int, radius as int);
            start.lemma_written_same(
                self,
                |px: int, py: int| in_circle(px, py, cx as int, cy as int, radius as int) && py < yy,
                |px: int, py: int| in_circle(px, py, cx as int, cy as int, radius as int),
                material,
            );
        }
    }

    /// Whether the region at column `cx`, row `cy` of the region grid has
    /// been written since the last clear; false outside the region grid.
    pub fn is_chunk_dirty(&self, cx: usize, cy: usize) -> (r: bool)
        requires
            self.wf(),
        ensures
            r == (cx < regions_along(self.w()) && cy < regions_along(self.h()) && self.dirty(
                cy * regions_along(self.w()) + cx,
            )),
    {
        let s = DIRTY_CHUNK_SIZE;
        let cw = (self.width + (s - 1)) / s;
        let ch = (self.height + (s - 1)) / s;
        if cx >= cw || cy >= ch {
            return false;
        }
        assert(0 <= cy * cw + cx < cw * ch) by (nonlinear_arith)
            requires
                cx < cw,
                cy < ch,
        ;
        self.dirty_chunks[cy * cw + cx]
    }

    /// Whether any region has been written since the last clear.
    pub fn is_changed(&self) -> (r: bool)
        requires
            self.wf(),
        ensures
            r == exists|i: int| 0 <= i < self.region_count() && #[trigger] self.dirty(i),
    {
        let mut i: usize = 0;
        while i < self.dirty_chunks.len()
            invariant
                self.wf(),
                i <= self.dirty_chunks@.len(),
                forall|j: int| 0 <= j < i ==> !#[trigger] self.dirty(j),
            decreases self.dirty_chunks@.len() - i,
        {
            if self.dirty_chunks[i] {
                assert(self.dirty(i as int));
                return true;
            }
            i += 1;
        }
        false
    }

    /// Marks every region clean, after the renderer has caught up.
    pub fn clear_dirty(&mut self)
        requires
            old(self).wf(),
        ensures
            final(self).wf(),
            final(self).w() == old(self).w(),
            final(self).h() == old(self).h(),
            final(self).cells() == old(self).cells(),
            forall|i: int| 0 <= i < final(self).region_count() ==> !#[trigger] final(self).dirty(i),
    {
        let n = self.dirty_chunks.len();
        let mut i: usize = 0;
        while i < n
            invariant
                n == self.dirty_chunks@.len(),
                self.width == old(self).width,
                self.height == old(self).height,
                self.pixels == old(self).pixels,
                self.dirty_chunks@.len() == old(self).dirty_chunks@.len(),
                i <= n,
                forall|j: int| 0 <= j < i ==> !#[trigger] self.dirty_chunks@[j],
            decreases n - i,
        {
            self.dirty_chunks.set(i, false);
            i += 1;
        }
    }
}

} // verus!
