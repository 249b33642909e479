use vstd::prelude::*;

use crate::grid::{
    before, cell_index, in_bounds, in_circle, lemma_circle_box, lemma_index_in_range,
    lemma_square_bound, PixelWorld,
};
use crate::material::Material;
use crate::random::chance_flags;

verus! {

/// The tools a player can hold.
#[derive(Clone, Copy, PartialEq, Eq, Structural, Debug)]
pub enum Tool {
    Hand,
    Axe,
    Shovel,
}

impl Tool {
    /// The axe fells wood; the shovel digs dirt and sand; the hand breaks
    /// nothing.
    pub open spec fn breaks(self, m: Material) -> bool {
        match self {
            Tool::Axe => m == Material::Wood,
            Tool::Shovel => m == Material::Dirt || m == Material::Sand,
            Tool::Hand => false,
        }
    }

    pub open spec fn after(self) -> Tool {
        match self {
            Tool::Hand => Tool::Axe,
            Tool::Axe => Tool::Shovel,
            Tool::Shovel => Tool::Hand,
        }
    }

    pub fn can_break(&self, material: &Material) -> (r: bool)
        ensures
            r == self.breaks(*material),
    {
        match (self, material) {
            (Tool::Axe, Material::Wood) => true,
            (Tool::Shovel, Material::Dirt) => true,
            (Tool::Shovel, Material::Sand) => true,
            _ => false,
        }
    }

    /// Only the axe cuts free chunks.
    pub fn cuts_chunks(&self) -> (r: bool)
        ensures
            r == (*self == Tool::Axe),
    {
        matches!(self, Tool::Axe)
    }

    /// The next tool in the cycle hand, axe, shovel.
    pub fn next(&self) -> (r: Tool)
        ensures
            r == self.after(),
    {
        match self {
            Tool::Hand => Tool::Axe,
            Tool::Axe => Tool::Shovel,
            Tool::Shovel => Tool::Hand,
        }
    }

    pub fn name(&self) -> (r: &'static str)
        ensures
            *self == Tool::Hand ==> r@ == "Hand"@,
            *self == Tool::Axe ==> r@ == "Axe"@,
            *self == Tool::Shovel ==> r@ == "Shovel"@,
    {
        match self {
            Tool::Hand => "Hand",
            Tool::Axe => "Axe",
            Tool::Shovel => "Shovel",
        }
    }
}

/// Which materials a removal may take.
#[derive(Clone, Copy, PartialEq, Eq, Structural, Debug)]
pub enum BreakRule {
    /// Every solid material.
    AnySolid,
    /// What the tool can break.
    With(Tool),
}

impl BreakRule {
    pub open spec fn allows(self, m: Material) -> bool {
        match self {
            BreakRule::AnySolid => m.solid(),
            BreakRule::With(t) => t.breaks(m),
        }
    }

    fn permits(&self, m: Material) -> (r: bool)
        ensures
            r == self.allows(m),
    {
        match self {
            BreakRule::AnySolid => m.is_solid(),
            BreakRule::With(t) => t.can_break(&m),
        }
    }
}

/// Lower end of the span `[c - r, c + r]` clipped to `[0, n)`.
pub open spec fn clip_lo(c: int, r: int) -> int {
    if c - r < 0 {
        0
    } else {
        c - r
    }
}

/// Upper end (exclusive) of the span `[c - r, c + r]` clipped to `[0, n)`.
pub open spec fn clip_hi(c: int, r: int, n: int) -> int {
    if c + r + 1 > n {
        n
    } else {
        c + r + 1
    }
}

/// Number of cells from `lo` up to `hi`, none if `hi` is not above `lo`.
pub open spec fn side(lo: int, hi: int) -> int {
    if hi > lo {
        hi - lo
    } else {
        0
    }
}

/// Number of hit flags for a removal in the disc of radius `r` around
/// `(cx, cy)`: one per cell of the disc's bounding square clipped to the
/// grid.
pub open spec fn hit_count(g: PixelWorld, cx: int, cy: int, r: int) -> int {
    side(clip_lo(cx, r), clip_hi(cx, r, g.w())) * side(clip_lo(cy, r), clip_hi(cy, r, g.h()))
}

/// Index of the hit flag of the cell `(x, y)`: row-major over the clipped
/// bounding square.
pub open spec fn hit_index(g: PixelWorld, x: int, y: int, cx: int, cy: int, r: int) -> int {
    cell_index(
        x - clip_lo(cx, r),
        y - clip_lo(cy, r),
        side(clip_lo(cx, r), clip_hi(cx, r, g.w())),
    )
}

/// The cell `(x, y)` is taken by a removal in the disc of radius `r` around
/// `(cx, cy)` under `rule`, with the hit flags `hits`.
pub open spec fn taken(
    g: PixelWorld,
    x: int,
    y: int,
    cx: int,
    cy: int,
    r: int,
    rule: BreakRule,
    hits: Seq<bool>,
) -> bool {
    &&& in_bounds(x, y, g.w(), g.h())
    &&& in_circle(x, y, cx, cy, r)
    &&& rule.allows(g.at(x, y))
    &&& hits[hit_index(g, x, y, cx, cy, r)]
}

/// `new` is `old` after the removal in the disc of radius `r` around
/// `(cx, cy)` under `rule` with the hit flags `hits`, and `removed` lists the
/// taken cells with their materials, each once, in row-major order.
pub open spec fn broke(
    old: PixelWorld,
    new: PixelWorld,
    removed: Seq<(i32, i32, Material)>,
    cx: int,
    cy: int,
    r: int,
    rule: BreakRule,
    hits: Seq<bool>,
) -> bool {
    &&& old.written(
        &new,
        |x: int, y: int| taken(old, x, y, cx, cy, r, rule, hits),
        Material::Air,
    )
    &&& forall|j: int|
        0 <= j < removed.len() ==> taken(
            old,
            (#[trigger] removed[j]).0 as int,
            removed[j].1 as int,
            cx,
            cy,
            r,
            rule,
            hits,
        ) && removed[j].2 == old.at(removed[j].0 as int, removed[j].1 as int)
    &&& forall|x: int, y: int|
        #[trigger] taken(old, x, y, cx, cy, r, rule, hits) ==> exists|j: int|
            0 <= j < removed.len() && (#[trigger] removed[j]).0 == x && removed[j].1 == y
    &&& forall|j1: int, j2: int|
        0 <= j1 < j2 < removed.len() ==> before(#[trigger] removed[j1], #[trigger] removed[j2])
}

proof fn lemma_box_fits(g: PixelWorld, cx: int, cy: int, r: int)
    requires
        g.wf(),
    ensures
        0 <= side(clip_lo(cx, r), clip_hi(cx, r, g.w())) <= g.w(),
        0 <= side(clip_lo(cy, r), clip_hi(cy, r, g.h())) <= g.h(),
        0 <= hit_count(g, cx, cy, r) <= usize::MAX,
{
    let bw = side(clip_lo(cx, r), clip_hi(cx, r, g.w()));
    let bh = side(clip_lo(cy, r), clip_hi(cy, r, g.h()));
    assert(0 <= bw * bh <= g.w() * g.h()) by (nonlinear_arith)
        requires
            0 <= bw <= g.w(),
            0 <= bh <= g.h(),
    ;
}

impl PixelWorld {
    /// How many hit flags a removal in the disc of radius `radius` around
    /// `(cx, cy)` takes.
    pub fn hit_box_size(&self, cx: i32, cy: i32, radius: i32) -> (n: usize)
        requires
            self.wf(),
        ensures
            n == hit_count(*self, cx as int, cy as int, radius as int),
    {
        proof {
            lemma_box_fits(*self, cx as int, cy as int, radius as int);
        }
        let r = radius as i64;
        let x0: i64 = if cx as i64 - r < 0 { 0 } else { cx as i64 - r };
        let y0: i64 = if cy as i64 - r < 0 { 0 } else { cy as i64 - r };
        let x1: i64 = if cx as i64 + r + 1 > self.width as i64 { self.width as i64 } else { cx as i64 + r + 1 };
        let y1: i64 = if cy as i64 + r + 1 > self.height as i64 { self.height as i64 } else { cy as i64 + r + 1 };
        let bw: usize = if x1 > x0 { (x1 - x0) as usize } else { 0 };
        let bh: usize = if y1 > y0 { (y1 - y0) as usize } else { 0 };
        bw * bh
    }

    /// Removes, in the disc of radius `radius` around `(cx, cy)`, every cell
    /// whose material `rule` allows and whose hit flag is set, and returns
    /// the removed cells with their materials, row by row. `hits` holds one
    /// flag per cell of the disc's bounding square clipped to the grid,
    /// row-major; a negative radius removes nothing.
    pub fn break_in_circle(
        &mut self,
        cx: i32,
        cy: i32,
        radius: i32,
        rule: BreakRule,
        hits: &Vec<bool>,
    ) -> (removed: Vec<(i32, i32, Material)>)
        requires
            old(self).wf(),
            hits@.len() == hit_count(*old(self), cx as int, cy as int, radius as int),
        ensures
            broke(*old(self), *final(self), removed@, cx as int, cy as int, radius as int, rule, hits@),
    {
        let ghost start = *self;
        proof {
            lemma_box_fits(start, cx as int, cy as int, radius as int);
        }
        let r = radius as i64;
        let y0: i64 = if cy as i64 - r < 0 { 0 } else { cy as i64 - r };
        let y1: i64 = if cy as i64 + r + 1 > self.height as i64 {
            self.height as i64
        } else {
            cy as i64 + r + 1
        };
        let x0: i64 = if cx as i64 - r < 0 { 0 } else { cx as i64 - r };
        let x1: i64 = if cx as i64 + r + 1 > self.width as i64 {
            self.width as i64
        } else {
            cx as i64 + r + 1
        };
        let bw: usize = if x1 > x0 { (x1 - x0) as usize } else { 0 };
        let bh: usize = if y1 > y0 { (y1 - y0) as usize } else { 0 };
        let mut removed: Vec<(i32, i32, Material)> = Vec::new();
        proof {
            lemma_circle_box(cx as int, cy as int, radius as int);
            start.lemma_written_refl(Material::Air);
            start.lemma_written_same(
                self,
                |x: int, y: int| false,
                |x: int, y: int|
                    taken(start, x, y, cx as int, cy as int, radius as int, rule, hits@) && y < y0,
                Material::Air,
            );
        }
        let mut yy: i64 = y0;
        while yy < y1
            invariant
                start.wf(),
                0 <= y0 <= yy,
                y1 <= start.h(),
                yy <= y1 || y0 >= y1,
                0 <= x0,
                x1 <= start.w(),
                r == radius,
                x0 == clip_lo(cx as int, r as int),
                y0 == clip_lo(cy as int, r as int),
                x1 == clip_hi(cx as int, r as int, start.w()),
                y1 == clip_hi(cy as int, r as int, start.h()),
                bw == side(x0 as int, x1 as int),
                bh == side(y0 as int, y1 as int),
                hits@.len() == bw * bh,
                bw * bh <= usize::MAX,
                start.written(
                    self,
                    |x: int, y: int|
                        taken(start, x, y, cx as int, cy as int, radius as int, rule, hits@) && y < yy,
                    Material::Air,
                ),
                forall|j: int|
                    0 <= j < removed@.len() ==> taken(
                        start,
                        (#[trigger] removed@[j]).0 as int,
                        removed@[j].1 as int,
                        cx as int,
                        cy as int,
                        radius as int,
                        rule,
                        hits@,
                    ) && removed@[j].2 == start.at(removed@[j].0 as int, removed@[j].1 as int)
                        && removed@[j].1 < yy,
                forall|x: int, y: int|
                    #[trigger] taken(start, x, y, cx as int, cy as int, radius as int, rule, hits@)
                        && y < yy ==> exists|j: int|
                        0 <= j < removed@.len() && (#[trigger] removed@[j]).0 == x && removed@[j].1 == y,
                forall|j1: int, j2: int|
                    0 <= j1 < j2 < removed@.len() ==> before(#[trigger] removed@[j1], #[trigger] removed@[j2]),
            decreases y1 - yy,
        {
            proof {
                lemma_circle_box(cx as int, cy as int, radius as int);
                start.lemma_written_same(
                    self,
                    |x: int, y: int|
                        taken(start, x, y, cx as int, cy as int, radius as int, rule, hits@) && y < yy,
                    |x: int, y: int|
                        taken(start, x, y, cx as int, cy as int, radius as int, rule, hits@) && (y < yy
                            || (y == yy && x < x0)),
                    Material::Air,
                );
            }
            let mut xx: i64 = x0;
            while xx < x1
                invariant
                    start.wf(),
                    0 <= y0 <= yy < y1 <= start.h(),
                    0 <= x0 <= xx,
                    xx <= x1 || x0 >= x1,
                    x1 <= start.w(),
                    r == radius,
                    x0 == clip_lo(cx as int, r as int),
                    y0 == clip_lo(cy as int, r as int),
                    x1 == clip_hi(cx as int, r as int, start.w()),
                    y1 == clip_hi(cy as int, r as int, start.h()),
                    bw == side(x0 as int, x1 as int),
                    bh == side(y0 as int, y1 as int),
                    hits@.len() == bw * bh,
                    bw * bh <= usize::MAX,
                bw * bh <= usize::MAX,
                    start.written(
                        self,
                        |x: int, y: int|
                            taken(start, x, y, cx as int, cy as int, radius as int, rule, hits@) && (y
                                < yy || (y == yy && x < xx)),
                        Material::Air,
                    ),
                    forall|j: int|
                        0 <= j < removed@.len() ==> taken(
                            start,
                            (#[trigger] removed@[j]).0 as int,
                            removed@[j].1 as int,
                            cx as int,
                            cy as int,
                            radius as int,
                            rule,
                            hits@,
                        ) && removed@[j].2 == start.at(removed@[j].0 as int, removed@[j].1 as int)
                            && (removed@[j].1 < yy || (removed@[j].1 == yy && removed@[j].0 < xx)),
                    forall|x: int, y: int|
                        #[trigger] taken(start, x, y, cx as int, cy as int, radius as int, rule, hits@)
                            && (y < yy || (y == yy && x < xx)) ==> exists|j: int|
                            0 <= j < removed@.len() && (#[trigger] removed@[j]).0 == x && removed@[j].1
                                == y,
                    forall|j1: int, j2: int|
                        0 <= j1 < j2 < removed@.len() ==> before(#[trigger] removed@[j1], #[trigger] removed@[j2]),
                decreases x1 - xx,
            {
                let dx = (xx - cx as i64) as i128;
                let dy = (yy - cy as i64) as i128;
                let rr = r as i128;
                proof {
                    lemma_square_bound(dx as int);
                    lemma_square_bound(dy as int);
                    lemma_square_bound(rr as int);
                    lemma_index_in_range(xx - x0, yy - y0, bw as int, bh as int);
                }
                let ghost before_grid = *self;
                let ghost removed_before = removed@;
                let mut did = false;
                if rr >= 0 && dx * dx + dy * dy <= rr * rr {
                    let m = self.get(xx as i32, yy as i32);
                    let hi = ((yy - y0) as usize) * bw + ((xx - x0) as usize);
                    proof {
                        assert(self.at(xx as int, yy as int) == start.at(xx as int, yy as int));
                        assert(hi == hit_index(start, xx as int, yy as int, cx as int, cy as int, radius as int));
                    }
                    if rule.permits(m) && hits[hi] {
                        removed.push((xx as i32, yy as i32, m));
                        self.set(xx as i32, yy as i32, Material::Air);
                        did = true;
                        proof {
                            start.lemma_written_trans(
                                &before_grid,
                                self,
                                |x: int, y: int|
                                    taken(start, x, y, cx as int, cy as int, radius as int, rule, hits@)
                                        && (y < yy || (y == yy && x < xx)),
                                |x: int, y: int| x == (xx as i32) as int && y == (yy as i32) as int,
                                |x: int, y: int|
                                    taken(start, x, y, cx as int, cy as int, radius as int, rule, hits@)
                                        && (y < yy || (y == yy && x < xx + 1)),
                                Material::Air,
                            );
                        }
                    }
                }
                proof {
                    if !did {
                        start.lemma_written_same(
                            self,
                            |x: int, y: int|
                                taken(start, x, y, cx as int, cy as int, radius as int, rule, hits@)
                                    && (y < yy || (y == yy && x < xx)),
                            |x: int, y: int|
                                taken(start, x, y, cx as int, cy as int, radius as int, rule, hits@)
                                    && (y < yy || (y == yy && x < xx + 1)),
                            Material::Air,
                        );
                    }
                    assert forall|x: int, y: int|
                        #[trigger] taken(start, x, y, cx as int, cy as int, radius as int, rule, hits@)
                            && (y < yy || (y == yy && x < xx + 1)) implies exists|j: int|
                            0 <= j < removed@.len() && (#[trigger] removed@[j]).0 == x && removed@[j].1
                                == y by {
                        if y == yy && x == xx {
                            assert(hit_index(start, x, y, cx as int, cy as int, radius as int) == ((yy - y0) * bw + (xx - x0)));
                            assert(removed@[removed_before.len() as int].0 == x);
                        } else {
                            let j = choose|j: int|
                                0 <= j < removed_before.len() && (#[trigger] removed_before[j]).0 == x
                                    && removed_before[j].1 == y;
                            assert(removed@[j] == removed_before[j]);
                        }
                    }
                    assert forall|j1: int, j2: int|
                        0 <= j1 < j2 < removed@.len() implies before(#[trigger] removed@[j1], #[trigger] removed@[j2]) by {
                        if j2 == removed_before.len() {
                            assert(removed@[j1] == removed_before[j1]);
                        } else {
                            assert(removed@[j1] == removed_before[j1]);
                            assert(removed@[j2] == removed_before[j2]);
                        }
                    }
                }
                xx += 1;
            }
            proof {
                lemma_circle_box(cx as int, cy as int, radius as int);
                start.lemma_written_same(
                    self,
                    |x: int, y: int|
                        taken(start, x, y, cx as int, cy as int, radius as int, rule, hits@) && (y < yy
                            || (y == yy && x < xx)),
                    |x: int, y: int|
                        taken(start, x, y, cx as int, cy as int, radius as int, rule, hits@) && y < yy
                            + 1,
                    Material::Air,
                );
            }
            yy += 1;
        }
        proof {
            lemma_circle_box(cx as int, cy as int, radius as int);
            start.lemma_written_same(
                self,
                |x: int, y: int|
                    taken(start, x, y, cx as int, cy as int, radius as int, rule, hits@) && y < yy,
                |x: int, y: int| taken(start, x, y, cx as int, cy as int, radius as int, rule, hits@),
                Material::Air,
            );
        }
        removed
    }

    /// Digs out every solid cell within `radius` of `(cx, cy)`, whatever the
    /// tool, and returns what it removed, row by row.
    pub fn dig_at_position(&mut self, cx: i32, cy: i32, radius: i32) -> (removed: Vec<(i32, i32, Material)>)
        requires
            old(self).wf(),
        ensures
            exists|hits: Seq<bool>|
                hits.len() == hit_count(*old(self), cx as int, cy as int, radius as int)
                    && (forall|i: int| 0 <= i < hits.len() ==> #[trigger] hits[i])
                    && broke(*old(self), *final(self), removed@, cx as int, cy as int, radius as int, BreakRule::AnySolid, hits),
            old(self).written(
                &*final(self),
                |x: int, y: int|
                    in_circle(x, y, cx as int, cy as int, radius as int) && old(self).at(x, y).solid(),
                Material::Air,
            ),
    {
        let n = self.hit_box_size(cx, cy, radius);
        let hits: Vec<bool> = vec![true; n];
        let ghost start = *self;
        let removed = self.break_in_circle(cx, cy, radius, BreakRule::AnySolid, &hits);
        proof {
            lemma_all_hits_taken(start, cx as int, cy as int, radius as int, BreakRule::AnySolid, hits@);
            start.lemma_written_same(
                self,
                |x: int, y: int|
                    taken(start, x, y, cx as int, cy as int, radius as int, BreakRule::AnySolid, hits@),
                |x: int, y: int|
                    in_circle(x, y, cx as int, cy as int, radius as int) && start.at(x, y).solid(),
                Material::Air,
            );
        }
        removed
    }

    /// Uses `tool` at `(cx, cy)` with reach `radius`: each breakable cell in
    /// reach goes with a seven-in-ten chance.
    pub fn use_tool_at_position(&mut self, tool: Tool, cx: i32, cy: i32, radius: i32) -> (removed: Vec<
        (i32, i32, Material),
    >)
        requires
            old(self).wf(),
        ensures
            exists|hits: Seq<bool>|
                hits.len() == hit_count(*old(self), cx as int, cy as int, radius as int) && broke(
                    *old(self),
                    *final(self),
                    removed@,
                    cx as int,
                    cy as int,
                    radius as int,
                    BreakRule::With(tool),
                    hits,
                ),
    {
        let n = self.hit_box_size(cx, cy, radius);
        let hits = chance_flags(n, 70);
        self.break_in_circle(cx, cy, radius, BreakRule::With(tool), &hits)
    }

    /// One swing of `tool` at `(cx, cy)`: the reach is drawn from one to three
    /// cells, then each breakable cell in reach goes with a seven-in-ten
    /// chance.
    pub fn use_tool(&mut self, tool: Tool, cx: i32, cy: i32) -> (removed: Vec<(i32, i32, Material)>)
        requires
            old(self).wf(),
        ensures
            exists|reach: int, hits: Seq<bool>|
                1 <= reach <= 3 && hits.len() == hit_count(*old(self), cx as int, cy as int, reach)
                    && #[trigger] broke(
                    *old(self),
                    *final(self),
                    removed@,
                    cx as int,
                    cy as int,
                    reach,
                    BreakRule::With(tool),
                    hits,
                ),
    {
        let draw: u32 = rand::random::<u32>();
        let reach = (draw % 3) as i32 + 1;
        self.use_tool_at_position(tool, cx, cy, reach)
    }
}

/// With every hit flag set, a cell in the grid and the disc is taken exactly
/// when its material is allowed.
pub proof fn lemma_all_hits_taken(g: PixelWorld, cx: int, cy: int, r: int, rule: BreakRule, hits: Seq<bool>)
    requires
        g.wf(),
        hits.len() == hit_count(g, cx, cy, r),
        forall|i: int| 0 <= i < hits.len() ==> #[trigger] hits[i],
    ensures
        forall|x: int, y: int|
            in_bounds(x, y, g.w(), g.h()) ==> (#[trigger] taken(g, x, y, cx, cy, r, rule, hits) == (
            in_circle(x, y, cx, cy, r) && rule.allows(g.at(x, y)))),
{
    assert forall|x: int, y: int| in_bounds(x, y, g.w(), g.h()) implies (#[trigger] taken(
        g,
        x,
        y,
        cx,
        cy,
        r,
        rule,
        hits,
    ) == (in_circle(x, y, cx, cy, r) && rule.allows(g.at(x, y)))) by {
        if in_circle(x, y, cx, cy, r) {
            lemma_circle_box(cx, cy, r);
            let bw = side(clip_lo(cx, r), clip_hi(cx, r, g.w()));
            let bh = side(clip_lo(cy, r), clip_hi(cy, r, g.h()));
            lemma_index_in_range(x - clip_lo(cx, r), y - clip_lo(cy, r), bw, bh);
        }
    }
}

} // verus!
