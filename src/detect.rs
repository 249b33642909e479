use vstd::prelude::*;

use crate::connect::{
    cell_set, closed_in, component, distinct, flood, frame_index, label_components, mask_set,
    partitions, pt, reach_set,
};
use crate::chunk::{spawned_from, ChunkSpawn};
use crate::grid::{cell_index, in_bounds, lemma_index_in_range, PixelWorld};
use crate::material::Material;

verus! {

/// Floating components smaller than this stay in the grid as debris.
pub const MIN_CHUNK_CELLS: usize = 5;

/// The cells of the grid that hold wood.
pub open spec fn wood_region(g: PixelWorld) -> Set<(int, int)> {
    Set::new(|c: (int, int)| in_bounds(c.0, c.1, g.w(), g.h()) && g.at(c.0, c.1) == Material::Wood)
}

/// A cell with a ground material (dirt or sand) among its four neighbours.
pub open spec fn touches_ground(g: PixelWorld, c: (int, int)) -> bool {
    g.at(c.0 - 1, c.1).ground() || g.at(c.0 + 1, c.1).ground() || g.at(c.0, c.1 - 1).ground()
        || g.at(c.0, c.1 + 1).ground()
}

/// The wood cells that touch ground.
pub open spec fn anchors(g: PixelWorld) -> Set<(int, int)> {
    Set::new(|c: (int, int)| wood_region(g).contains(c) && touches_ground(g, c))
}

/// The wood cells held up by ground: those that an anchor reaches through
/// 4-adjacent wood.
pub open spec fn grounded(g: PixelWorld) -> Set<(int, int)> {
    reach_set(wood_region(g), anchors(g))
}

/// The wood cells that nothing holds up.
pub open spec fn floating(g: PixelWorld) -> Set<(int, int)> {
    wood_region(g).difference(grounded(g))
}

pub open spec fn big_enough(v: Vec<(i64, i64)>) -> bool {
    v@.len() >= MIN_CHUNK_CELLS
}

proof fn lemma_filter_push<A>(s: Seq<A>, x: A, p: spec_fn(A) -> bool)
    ensures
        s.push(x).filter(p) == if p(x) {
            s.filter(p).push(x)
        } else {
            s.filter(p)
        },
{
    reveal_with_fuel(Seq::filter, 1);
    assert(s.push(x).drop_last() =~= s);
}

/// A floating component is promoted exactly when it has at least
/// `MIN_CHUNK_CELLS` cells: of the components `all`, the promoted ones
/// `chosen` are those of five cells or more, and only those.
pub proof fn lemma_promotion_threshold(all: Seq<Vec<(i64, i64)>>, chosen: Seq<Vec<(i64, i64)>>)
    requires
        chosen == all.filter(|v: Vec<(i64, i64)>| big_enough(v)),
    ensures
        forall|i: int|
            0 <= i < all.len() ==> (chosen.contains(#[trigger] all[i]) <==> all[i]@.len()
                >= MIN_CHUNK_CELLS),
        forall|k: int| 0 <= k < chosen.len() ==> (#[trigger] chosen[k])@.len() >= MIN_CHUNK_CELLS,
{
    broadcast use vstd::seq_lib::group_filter_ensures;

    assert forall|i: int| 0 <= i < all.len() implies (chosen.contains(#[trigger] all[i])
        <==> all[i]@.len() >= MIN_CHUNK_CELLS) by {
        if chosen.contains(all[i]) {
            let k = choose|k: int| 0 <= k < chosen.len() && chosen[k] == all[i];
            assert(big_enough(chosen[k]));
        }
    }
    assert forall|k: int| 0 <= k < chosen.len() implies (#[trigger] chosen[k])@.len()
        >= MIN_CHUNK_CELLS by {
        assert(big_enough(chosen[k]));
    }
}

impl PixelWorld {
    /// Per cell, in row-major order: whether it holds wood.
    fn wood_mask(&self) -> (r: Vec<bool>)
        requires
            self.wf(),
        ensures
            r@.len() == self.w() * self.h(),
            mask_set(r@, 0, 0, self.w(), self.h()) == wood_region(*self),
    {
        let n = self.width * self.height;
        let mut r: Vec<bool> = Vec::new();
        let mut i: usize = 0;
        while i < n
            invariant
                self.wf(),
                n == self.w() * self.h(),
                i <= n,
                r@.len() == i,
                forall|j: int| 0 <= j < i ==> #[trigger] r@[j] == (self.pixels@[j] == Material::Wood),
            decreases n - i,
        {
            r.push(self.pixels[i] == Material::Wood);
            i += 1;
        }
        proof {
            assert forall|c: (int, int)|
                mask_set(r@, 0, 0, self.w(), self.h()).contains(c) == wood_region(*self).contains(
                    c,
                ) by {
                if in_bounds(c.0, c.1, self.w(), self.h()) {
                    lemma_index_in_range(c.0, c.1, self.w(), self.h());
                    assert(frame_index(c, 0, 0, self.w()) == cell_index(c.0, c.1, self.w()));
                }
            }
            assert(mask_set(r@, 0, 0, self.w(), self.h()) =~= wood_region(*self));
        }
        r
    }

    /// The wood cells that touch ground, in row-major order.
    fn anchor_cells(&self) -> (r: Vec<(i64, i64)>)
        requires
            self.wf(),
        ensures
            cell_set(r@) == anchors(*self),
            forall|i: int| 0 <= i < r@.len() ==> anchors(*self).contains(pt(#[trigger] r@[i])),
    {
        let mut r: Vec<(i64, i64)> = Vec::new();
        let w = self.width;
        let h = self.height;
        let mut y: usize = 0;
        while y < h
            invariant
                self.wf(),
                w == self.w(),
                h == self.h(),
                y <= h,
                forall|i: int| 0 <= i < r@.len() ==> anchors(*self).contains(pt(#[trigger] r@[i])),
                forall|c: (int, int)|
                    anchors(*self).contains(c) && c.1 < y ==> #[trigger] cell_set(r@).contains(c),
            decreases h - y,
        {
            let mut x: usize = 0;
            while x < w
                invariant
                    self.wf(),
                    w == self.w(),
                    h == self.h(),
                    y < h,
                    x <= w,
                    forall|i: int|
                        0 <= i < r@.len() ==> anchors(*self).contains(pt(#[trigger] r@[i])),
                    forall|c: (int, int)|
                        anchors(*self).contains(c) && (c.1 < y || (c.1 == y && c.0 < x))
                            ==> #[trigger] cell_set(r@).contains(c),
                decreases w - x,
            {
                let xi = x as i32;
                let yi = y as i32;
                if self.get(xi, yi) == Material::Wood && (self.get(xi - 1, yi).is_ground()
                    || self.get(xi + 1, yi).is_ground() || self.get(xi, yi - 1).is_ground()
                    || self.get(xi, yi + 1).is_ground()) {
                    let ghost before = r@;
                    r.push((x as i64, y as i64));
                    proof {
                        assert forall|c: (int, int)|
                            anchors(*self).contains(c) && (c.1 < y || (c.1 == y && c.0 < x + 1))
                                implies #[trigger] cell_set(r@).contains(c) by {
                            if c.1 == y && c.0 == x {
                                assert(pt(r@[before.len() as int]) == c);
                            } else {
                                assert(cell_set(before).contains(c));
                                let j = choose|j: int|
                                    0 <= j < before.len() && #[trigger] pt(before[j]) == c;
                                assert(pt(r@[j]) == c);
                            }
                        }
                    }
                }
                x += 1;
            }
            y += 1;
        }
        proof {
            assert forall|c: (int, int)| cell_set(r@).contains(c) == anchors(*self).contains(c) by {
                if cell_set(r@).contains(c) {
                    let j = choose|j: int| 0 <= j < r@.len() && #[trigger] pt(r@[j]) == c;
                }
            }
            assert(cell_set(r@) =~= anchors(*self));
        }
        r
    }

    /// Per cell, in row-major order: whether it is grounded wood.
    pub fn grounded_mask(&self) -> (r: Vec<bool>)
        requires
            self.wf(),
        ensures
            r@.len() == self.w() * self.h(),
            mask_set(r@, 0, 0, self.w(), self.h()) == grounded(*self),
    {
        let inside = self.wood_mask();
        let seeds = self.anchor_cells();
        let mut visited: Vec<bool> = vec![false; self.width * self.height];
        proof {
            assert forall|c: (int, int)|
                !mask_set(visited@, 0, 0, self.w(), self.h()).contains(c) by {
                if in_bounds(c.0, c.1, self.w(), self.h()) {
                    lemma_index_in_range(c.0, c.1, self.w(), self.h());
                }
            }
            let v0 = mask_set(visited@, 0, 0, self.w(), self.h());
            assert(closed_in(v0, wood_region(*self)));
        }
        let ghost v0 = mask_set(visited@, 0, 0, self.w(), self.h());
        let found = flood(&inside, 0, 0, self.width, self.height, &mut visited, &seeds);
        proof {
            assert(wood_region(*self).difference(v0) =~= wood_region(*self));
            assert(mask_set(visited@, 0, 0, self.w(), self.h()) =~= v0.union(cell_set(found@)));
            assert(mask_set(visited@, 0, 0, self.w(), self.h()) =~= grounded(*self));
        }
        visited
    }

    /// The floating wood of the grid, split into its 4-connected components.
    pub fn floating_components(&self) -> (r: Vec<Vec<(i64, i64)>>)
        requires
            self.wf(),
        ensures
            partitions(r@, floating(*self)),
    {
        let wood = self.wood_mask();
        let held = self.grounded_mask();
        let n = self.width * self.height;
        let mut inside: Vec<bool> = Vec::new();
        let mut i: usize = 0;
        while i < n
            invariant
                n == self.w() * self.h(),
                wood@.len() == n,
                held@.len() == n,
                i <= n,
                inside@.len() == i,
                forall|j: int| 0 <= j < i ==> #[trigger] inside@[j] == (wood@[j] && !held@[j]),
            decreases n - i,
        {
            inside.push(wood[i] && !held[i]);
            i += 1;
        }
        proof {
            assert forall|c: (int, int)|
                mask_set(inside@, 0, 0, self.w(), self.h()).contains(c) == floating(
                    *self,
                ).contains(c) by {
                if in_bounds(c.0, c.1, self.w(), self.h()) {
                    lemma_index_in_range(c.0, c.1, self.w(), self.h());
                    assert(mask_set(wood@, 0, 0, self.w(), self.h()).contains(c) == wood@[frame_index(c, 0, 0, self.w())]);
                    assert(mask_set(held@, 0, 0, self.w(), self.h()).contains(c) == held@[frame_index(c, 0, 0, self.w())]);
                }
            }
            assert(mask_set(inside@, 0, 0, self.w(), self.h()) =~= floating(*self));
        }
        label_components(&inside, 0, 0, self.width, self.height)
    }

    /// The floating components of at least `MIN_CHUNK_CELLS` cells: the
    /// regions that become free chunks.
    pub fn find_floating_chunks(&self) -> (r: Vec<Vec<(i64, i64)>>)
        requires
            self.wf(),
        ensures
            exists|all: Seq<Vec<(i64, i64)>>|
                partitions(all, floating(*self)) && r@ == all.filter(|v: Vec<(i64, i64)>| big_enough(v)),
            forall|k: int|
                0 <= k < r@.len() ==> #[trigger] r@[k]@.len() >= MIN_CHUNK_CELLS && distinct(r@[k]@)
                    && cell_set(r@[k]@) == component(floating(*self), pt(r@[k]@[0])) && cell_set(
                    r@[k]@,
                ).subset_of(floating(*self)),
            forall|k1: int, k2: int|
                0 <= k1 < r@.len() && 0 <= k2 < r@.len() && k1 != k2 ==> cell_set(
                    #[trigger] r@[k1]@,
                ).disjoint(cell_set(#[trigger] r@[k2]@)),
    {
        let mut all = self.floating_components();
        let ghost orig = all@;
        let ghost mut j: int = 0;
        let mut k: usize = 0;
        proof {
            assert(orig.subrange(0, 0) =~= Seq::<Vec<(i64, i64)>>::empty());
            reveal_with_fuel(Seq::filter, 1);
            assert(all@ =~= orig.subrange(0, 0).filter(|v: Vec<(i64, i64)>| big_enough(v)) + orig.subrange(0, orig.len() as int));
        }
        while k < all.len()
            invariant
                0 <= j <= orig.len(),
                all@ == orig.subrange(0, j).filter(|v: Vec<(i64, i64)>| big_enough(v)) + orig.subrange(j, orig.len() as int),
                k == orig.subrange(0, j).filter(|v: Vec<(i64, i64)>| big_enough(v)).len(),
                forall|i: int|
                    0 <= i < all@.len() ==> (i < k ==> #[trigger] all@[i]@.len() >= MIN_CHUNK_CELLS)
                        && distinct(all@[i]@) && cell_set(all@[i]@) == component(
                        floating(*self),
                        pt(all@[i]@[0]),
                    ) && cell_set(all@[i]@).subset_of(floating(*self)) && all@[i]@.len() > 0,
                forall|k1: int, k2: int|
                    0 <= k1 < all@.len() && 0 <= k2 < all@.len() && k1 != k2 ==> cell_set(
                        #[trigger] all@[k1]@,
                    ).disjoint(cell_set(#[trigger] all@[k2]@)),
            decreases all@.len() - k,
        {
            proof {
                lemma_filter_push(orig.subrange(0, j), orig[j], |v: Vec<(i64, i64)>| big_enough(v));
                assert(orig.subrange(0, j + 1) =~= orig.subrange(0, j).push(orig[j]));
                assert(all@[k as int] == orig[j]);
            }
            let len_k = all[k].len();
            let small = len_k < MIN_CHUNK_CELLS;
            proof {
                assert(len_k == all@[k as int]@.len());
                assert(len_k == orig[j]@.len());
                assert(small == !big_enough(orig[j]));
                            }
            if small {
                let ghost before = all@;
                let _ = all.remove(k);
                proof {
                    assert forall|i: int| 0 <= i < all@.len() implies #[trigger] all@[i] == if i < k {
                        before[i]
                    } else {
                        before[i + 1]
                    } by {}
                    assert forall|k1: int, k2: int|
                        0 <= k1 < all@.len() && 0 <= k2 < all@.len() && k1 != k2 implies cell_set(
                            #[trigger] all@[k1]@,
                        ).disjoint(cell_set(#[trigger] all@[k2]@)) by {
                        let b1 = if k1 < k { k1 } else { k1 + 1 };
                        let b2 = if k2 < k { k2 } else { k2 + 1 };
                        assert(all@[k1] == before[b1]);
                        assert(all@[k2] == before[b2]);
                    }
                    assert(!big_enough(orig[j]));
                    assert(orig.subrange(0, j + 1).filter(|v: Vec<(i64, i64)>| big_enough(v)) == orig.subrange(0, j).filter(|v: Vec<(i64, i64)>| big_enough(v)));
                    assert(all@ =~= orig.subrange(0, j + 1).filter(|v: Vec<(i64, i64)>| big_enough(v)) + orig.subrange(
                        j + 1,
                        orig.len() as int,
                    ));
                }
            } else {
                k += 1;
                proof {
                    assert(big_enough(orig[j]));
                    assert(orig.subrange(0, j + 1).filter(|v: Vec<(i64, i64)>| big_enough(v)) == orig.subrange(0, j).filter(|v: Vec<(i64, i64)>| big_enough(v)).push(orig[j]));
                    assert(all@ =~= orig.subrange(0, j + 1).filter(|v: Vec<(i64, i64)>| big_enough(v)) + orig.subrange(
                        j + 1,
                        orig.len() as int,
                    ));
                }
            }
            proof {
                j = j + 1;
            }
        }
        proof {
            assert(orig.subrange(0, orig.len() as int) =~= orig);
            assert(all@ =~= orig.filter(|v: Vec<(i64, i64)>| big_enough(v)));
        }
        all
    }
    /// One pass of the analyzer: every floating wood component of at least
    /// `MIN_CHUNK_CELLS` cells is cleared from the grid and returned as a free
    /// body; smaller ones stay where they are. Every member of a returned
    /// body, put back at its centre plus its offset, finds air in the grid.
    pub fn detect_floating_chunks(&mut self) -> (r: Vec<ChunkSpawn>)
        requires
            old(self).wf(),
        ensures
            final(self).wf(),
            forall|k: int, i: int|
                0 <= k < r@.len() && 0 <= i < r@[k].chunk.pixels@.len() ==> final(self).at(
                    (#[trigger] r@[k].chunk.pixels@[i]).0 + r@[k].center_x,
                    r@[k].chunk.pixels@[i].1 + r@[k].center_y,
                ) == Material::Air,
            forall|x: int, y: int|
                #[trigger] final(self).at(x, y) != old(self).at(x, y) ==> old(self).at(x, y)
                    == Material::Wood && final(self).at(x, y) == Material::Air && floating(
                    *old(self),
                ).contains((x, y)) && exists|k: int, i: int|
                    0 <= k < r@.len() && 0 <= i < r@[k].chunk.pixels@.len() && (#[trigger] r@[k].chunk.pixels@[i]).0
                        + r@[k].center_x == x && r@[k].chunk.pixels@[i].1 + r@[k].center_y == y,
            forall|k1: int, i1: int, k2: int, i2: int|
                0 <= k1 < r@.len() && 0 <= k2 < r@.len() && 0 <= i1 < r@[k1].chunk.pixels@.len() && 0
                    <= i2 < r@[k2].chunk.pixels@.len() && (k1 != k2 || i1 != i2) ==> ((#[trigger] r@[k1].chunk.pixels@[i1]).0
                    + r@[k1].center_x, r@[k1].chunk.pixels@[i1].1 + r@[k1].center_y) != (
                    (#[trigger] r@[k2].chunk.pixels@[i2]).0 + r@[k2].center_x,
                    r@[k2].chunk.pixels@[i2].1 + r@[k2].center_y,
                ),
            exists|all: Seq<Vec<(i64, i64)>>|
                #![trigger partitions(all, floating(*old(self)))]
                {
                    let chosen = all.filter(|v: Vec<(i64, i64)>| big_enough(v));
                    &&& partitions(all, floating(*old(self)))
                    &&& r@.len() == chosen.len()
                    &&& old(self).written(
                        &*final(self),
                        |x: int, y: int|
                            exists|k: int|
                                0 <= k < chosen.len() && #[trigger] cell_set(chosen[k]@).contains(
                                    (x, y),
                                ),
                        Material::Air,
                    )
                    &&& forall|k: int|
                        0 <= k < r@.len() ==> spawned_from(
                            #[trigger] r@[k],
                            chosen[k]@,
                            Material::Wood,
                        )
                },
    {
        let chosen = self.find_floating_chunks();
        let ghost start = *self;
        let ghost fl = floating(start);
        let mut spawns: Vec<ChunkSpawn> = Vec::new();
        proof {
            start.lemma_written_refl(Material::Air);
            start.lemma_written_same(
                self,
                |x: int, y: int| false,
                |x: int, y: int|
                    exists|k: int|
                        0 <= k < 0 && #[trigger] cell_set(chosen@[k]@).contains((x, y)),
                Material::Air,
            );
        }
        let mut j: usize = 0;
        while j < chosen.len()
            invariant
                start.wf(),
                fl == floating(start),
                j <= chosen@.len(),
                forall|k: int|
                    0 <= k < chosen@.len() ==> #[trigger] chosen@[k]@.len() >= MIN_CHUNK_CELLS
                        && distinct(chosen@[k]@) && cell_set(chosen@[k]@).subset_of(fl),
                forall|k1: int, k2: int|
                    0 <= k1 < chosen@.len() && 0 <= k2 < chosen@.len() && k1 != k2 ==> cell_set(
                        #[trigger] chosen@[k1]@,
                    ).disjoint(cell_set(#[trigger] chosen@[k2]@)),
                start.written(
                    self,
                    |x: int, y: int|
                        exists|k: int|
                            0 <= k < j && #[trigger] cell_set(chosen@[k]@).contains((x, y)),
                    Material::Air,
                ),
                spawns@.len() == j,
                forall|k: int|
                    0 <= k < j ==> spawned_from(#[trigger] spawns@[k], chosen@[k]@, Material::Wood),
            decreases chosen@.len() - j,
        {
            let ghost cells = chosen@[j as int]@;
            proof {
                assert(chosen@[j as int]@.len() >= MIN_CHUNK_CELLS);
                assert forall|i: int| 0 <= i < cells.len() implies in_bounds(
                    (#[trigger] cells[i]).0 as int,
                    cells[i].1 as int,
                    self.w(),
                    self.h(),
                ) && self.at(cells[i].0 as int, cells[i].1 as int) == Material::Wood by {
                    assert(pt(cells[i]) == pt(cells[i]));
                    assert(cell_set(cells).contains(pt(cells[i])));
                    assert(fl.contains(pt(cells[i])));
                    if exists|k: int|
                        0 <= k < j && #[trigger] cell_set(chosen@[k]@).contains(pt(cells[i])) {
                        let k = choose|k: int|
                            0 <= k < j && #[trigger] cell_set(chosen@[k]@).contains(pt(cells[i]));
                        assert(cell_set(chosen@[k]@).disjoint(cell_set(chosen@[j as int]@)));
                    }
                }
            }
            let ghost before = *self;
            let sp = self.promote_cells(&chosen[j]);
            proof {
                start.lemma_written_trans(
                    &before,
                    self,
                    |x: int, y: int|
                        exists|k: int|
                            0 <= k < j && #[trigger] cell_set(chosen@[k]@).contains((x, y)),
                    |x: int, y: int| cell_set(chosen@[j as int]@).contains((x, y)),
                    |x: int, y: int|
                        exists|k: int|
                            0 <= k < j + 1 && #[trigger] cell_set(chosen@[k]@).contains((x, y)),
                    Material::Air,
                );
                assert forall|i: int| 0 <= i < cells.len() implies #[trigger] sp.chunk.pixels@[i]
                    == ((cells[i].0 - sp.center_x) as i32, (cells[i].1 - sp.center_y) as i32, Material::Wood) by {
                    assert(before.at(cells[i].0 as int, cells[i].1 as int) == Material::Wood);
                }
            }
            spawns.push(sp);
            j += 1;
        }
        proof {
            assert forall|k: int, i: int|
                0 <= k < spawns@.len() && 0 <= i < spawns@[k].chunk.pixels@.len() implies self.at(
                    (#[trigger] spawns@[k].chunk.pixels@[i]).0 + spawns@[k].center_x,
                    spawns@[k].chunk.pixels@[i].1 + spawns@[k].center_y,
                ) == Material::Air by {
                assert(spawned_from(spawns@[k], chosen@[k]@, Material::Wood));
                let c = chosen@[k]@[i];
                assert(pt(c) == pt(c));
                assert(cell_set(chosen@[k]@).contains(pt(c)));
                assert(spawns@[k].chunk.pixels@[i].0 + spawns@[k].center_x == c.0);
            }
            assert forall|x: int, y: int|
                #[trigger] self.at(x, y) != start.at(x, y) implies start.at(x, y) == Material::Wood
                    && self.at(x, y) == Material::Air && fl.contains((x, y)) && exists|k: int, i: int|
                    0 <= k < spawns@.len() && 0 <= i < spawns@[k].chunk.pixels@.len() && (#[trigger] spawns@[k].chunk.pixels@[i]).0
                        + spawns@[k].center_x == x && spawns@[k].chunk.pixels@[i].1 + spawns@[k].center_y == y by {
                assert(in_bounds(x, y, start.w(), start.h()));
                let k = choose|k: int|
                    0 <= k < chosen@.len() && #[trigger] cell_set(chosen@[k]@).contains((x, y));
                assert(cell_set(chosen@[k]@).subset_of(fl));
                let i = choose|i: int| 0 <= i < chosen@[k]@.len() && #[trigger] pt(chosen@[k]@[i]) == (x, y);
                assert(spawned_from(spawns@[k], chosen@[k]@, Material::Wood));
                assert(spawns@[k].chunk.pixels@[i].0 + spawns@[k].center_x == x);
            }
            assert forall|k1: int, i1: int, k2: int, i2: int|
                0 <= k1 < spawns@.len() && 0 <= k2 < spawns@.len() && 0 <= i1 < spawns@[k1].chunk.pixels@.len() && 0
                    <= i2 < spawns@[k2].chunk.pixels@.len() && (k1 != k2 || i1 != i2) implies ((#[trigger] spawns@[k1].chunk.pixels@[i1]).0
                    + spawns@[k1].center_x, spawns@[k1].chunk.pixels@[i1].1 + spawns@[k1].center_y) != (
                    (#[trigger] spawns@[k2].chunk.pixels@[i2]).0 + spawns@[k2].center_x,
                    spawns@[k2].chunk.pixels@[i2].1 + spawns@[k2].center_y,
                ) by {
                assert(spawned_from(spawns@[k1], chosen@[k1]@, Material::Wood));
                assert(spawned_from(spawns@[k2], chosen@[k2]@, Material::Wood));
                let c1 = chosen@[k1]@[i1];
                let c2 = chosen@[k2]@[i2];
                assert(pt(c1) == pt(c1) && pt(c2) == pt(c2));
                assert(cell_set(chosen@[k1]@).contains(pt(c1)));
                assert(cell_set(chosen@[k2]@).contains(pt(c2)));
                if k1 != k2 {
                    assert(cell_set(chosen@[k1]@).disjoint(cell_set(chosen@[k2]@)));
                } else {
                    assert(distinct(chosen@[k1]@));
                }
            }
            let all = choose|all: Seq<Vec<(i64, i64)>>|
                partitions(all, floating(start)) && chosen@ == all.filter(|v: Vec<(i64, i64)>| big_enough(v));
            assert(partitions(all, floating(*old(self))));
        }
        spawns
    }
}

} // verus!
