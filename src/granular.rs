use vstd::prelude::*;

use crate::grid::{cell_index, in_bounds, lemma_index_in_range, lemma_index_injective, PixelWorld};
use crate::material::Material;

verus! {

broadcast use {
    vstd::seq_lib::to_multiset_update,
    vstd::seq_lib::to_multiset_contains,
    vstd::multiset::group_multiset_axioms,
};

/// The material at `(x, y)` of the row-major cells `s` of a `w` by `h`
/// grid: air outside the grid.
pub open spec fn seq_at(s: Seq<Material>, w: int, h: int, x: int, y: int) -> Material {
    if in_bounds(x, y, w, h) {
        s[cell_index(x, y, w)]
    } else {
        Material::Air
    }
}

/// Where the granular cell at `(x, y)` of the snapshot `snap` goes this
/// tick, if anywhere: straight down into air or into a lighter material,
/// else one cell diagonally down (left when its coin is set, right
/// otherwise) when that cell lies in the grid and is air. The bottom row
/// rests, and a grain never leaves the grid.
pub open spec fn fall_target(
    snap: Seq<Material>,
    w: int,
    h: int,
    coins: Seq<bool>,
    x: int,
    y: int,
) -> Option<(int, int)> {
    let m = seq_at(snap, w, h, x, y);
    if !m.granular() || y + 1 >= h {
        None
    } else {
        let below = seq_at(snap, w, h, x, y + 1);
        if below == Material::Air || below.density_of() < m.density_of() {
            Some((x, y + 1))
        } else {
            let dx: int = if coins[cell_index(x, y, w)] {
                -1
            } else {
                1
            };
            if in_bounds(x + dx, y + 1, w, h) && seq_at(snap, w, h, x + dx, y + 1) == Material::Air {
                Some((x + dx, y + 1))
            } else {
                None
            }
        }
    }
}

/// Exchanges the live cells `(x, y)` and `(tx, ty)`; a side outside the
/// grid reads as air and ignores the write.
pub open spec fn swap_cells(
    live: Seq<Material>,
    w: int,
    h: int,
    x: int,
    y: int,
    tx: int,
    ty: int,
) -> Seq<Material> {
    let a = seq_at(live, w, h, x, y);
    let b = seq_at(live, w, h, tx, ty);
    let s1 = if in_bounds(x, y, w, h) {
        live.update(cell_index(x, y, w), b)
    } else {
        live
    };
    if in_bounds(tx, ty, w, h) {
        s1.update(cell_index(tx, ty, w), a)
    } else {
        s1
    }
}

/// The live cells after the cell `(x, y)` has acted.
pub open spec fn step_cell(
    live: Seq<Material>,
    snap: Seq<Material>,
    w: int,
    h: int,
    coins: Seq<bool>,
    x: int,
    y: int,
) -> Seq<Material> {
    match fall_target(snap, w, h, coins, x, y) {
        Some(t) => swap_cells(live, w, h, x, y, t.0, t.1),
        None => live,
    }
}

/// The live cells after the first `n` cells of row `y` have acted, left to
/// right.
pub open spec fn sweep_row(
    live: Seq<Material>,
    snap: Seq<Material>,
    w: int,
    h: int,
    coins: Seq<bool>,
    y: int,
    n: nat,
) -> Seq<Material>
    decreases n,
{
    if n == 0 {
        live
    } else {
        step_cell(sweep_row(live, snap, w, h, coins, y, (n - 1) as nat), snap, w, h, coins, n - 1, y)
    }
}

/// The cells after the `k` rows just above the bottom row have acted, from
/// the lowest upward.
pub open spec fn sweep(snap: Seq<Material>, w: int, h: int, coins: Seq<bool>, k: nat) -> Seq<
    Material,
>
    decreases k,
{
    if k == 0 {
        snap
    } else {
        sweep_row(sweep(snap, w, h, coins, (k - 1) as nat), snap, w, h, coins, h - 1 - k, w as nat)
    }
}

/// One tick of the granular rule on the cells `snap` of a `w` by `h` grid,
/// with one coin per cell for the diagonal choice.
pub open spec fn granular_tick(snap: Seq<Material>, w: int, h: int, coins: Seq<bool>) -> Seq<
    Material,
> {
    if h >= 1 {
        sweep(snap, w, h, coins, (h - 1) as nat)
    } else {
        snap
    }
}

/// Every move stays inside the grid: the cell below a grain exists (the
/// bottom row rests), and a diagonal outside the grid blocks the move like
/// a full cell would.
pub proof fn lemma_target_inside(
    snap: Seq<Material>,
    w: int,
    h: int,
    coins: Seq<bool>,
    x: int,
    y: int,
)
    ensures
        fall_target(snap, w, h, coins, x, y) matches Some(t) ==> in_bounds(t.0, t.1, w, h)
            && in_bounds(x, y, w, h) && (t.0 != x || t.1 != y),
{
}

/// `ticks[i]` holds the coins of tick `i`; the cells after all of them.
pub open spec fn granular_ticks(snap: Seq<Material>, w: int, h: int, ticks: Seq<Seq<bool>>) -> Seq<
    Material,
>
    decreases ticks.len(),
{
    if ticks.len() == 0 {
        snap
    } else {
        granular_tick(granular_ticks(snap, w, h, ticks.drop_last()), w, h, ticks.last())
    }
}

proof fn lemma_swap_keeps(live: Seq<Material>, w: int, h: int, x: int, y: int, tx: int, ty: int)
    requires
        w >= 0,
        h >= 0,
        live.len() == w * h,
        in_bounds(x, y, w, h),
        in_bounds(tx, ty, w, h),
        x != tx || y != ty,
    ensures
        swap_cells(live, w, h, x, y, tx, ty).len() == live.len(),
        swap_cells(live, w, h, x, y, tx, ty).to_multiset() == live.to_multiset(),
{
    lemma_index_in_range(x, y, w, h);
    lemma_index_in_range(tx, ty, w, h);
    let i = cell_index(x, y, w);
    let j = cell_index(tx, ty, w);
    if i == j {
        lemma_index_injective(x, y, tx, ty, w, h);
    }
    let a = live[i];
    let b = live[j];
    let s1 = live.update(i, b);
    assert(s1.to_multiset() == live.to_multiset().insert(b).remove(a));
    assert(s1[j] == b);
    assert(s1.update(j, a).to_multiset() == s1.to_multiset().insert(a).remove(b));
    assert(live.contains(a));
    assert(live.to_multiset().contains(a));
    assert(live.to_multiset().insert(b).remove(a).insert(a).remove(b) =~= live.to_multiset());
}

proof fn lemma_step_keeps(
    live: Seq<Material>,
    snap: Seq<Material>,
    w: int,
    h: int,
    coins: Seq<bool>,
    x: int,
    y: int,
)
    requires
        w >= 0,
        h >= 0,
        live.len() == w * h,
    ensures
        step_cell(live, snap, w, h, coins, x, y).len() == live.len(),
        step_cell(live, snap, w, h, coins, x, y).to_multiset() == live.to_multiset(),
{
    lemma_target_inside(snap, w, h, coins, x, y);
    if let Some(t) = fall_target(snap, w, h, coins, x, y) {
        lemma_swap_keeps(live, w, h, x, y, t.0, t.1);
    }
}

proof fn lemma_row_keeps(
    live: Seq<Material>,
    snap: Seq<Material>,
    w: int,
    h: int,
    coins: Seq<bool>,
    y: int,
    n: nat,
)
    requires
        w >= 0,
        h >= 0,
        live.len() == w * h,
    ensures
        sweep_row(live, snap, w, h, coins, y, n).len() == live.len(),
        sweep_row(live, snap, w, h, coins, y, n).to_multiset() == live.to_multiset(),
    decreases n,
{
    if n > 0 {
        lemma_row_keeps(live, snap, w, h, coins, y, (n - 1) as nat);
        lemma_step_keeps(
            sweep_row(live, snap, w, h, coins, y, (n - 1) as nat),
            snap,
            w,
            h,
            coins,
            n - 1,
            y,
        );
    }
}

proof fn lemma_sweep_keeps(snap: Seq<Material>, w: int, h: int, coins: Seq<bool>, k: nat)
    requires
        w >= 0,
        h >= 0,
        snap.len() == w * h,
    ensures
        sweep(snap, w, h, coins, k).len() == snap.len(),
        sweep(snap, w, h, coins, k).to_multiset() == snap.to_multiset(),
    decreases k,
{
    if k > 0 {
        lemma_sweep_keeps(snap, w, h, coins, (k - 1) as nat);
        lemma_row_keeps(
            sweep(snap, w, h, coins, (k - 1) as nat),
            snap,
            w,
            h,
            coins,
            h - 1 - k,
            w as nat,
        );
    }
}

/// A tick only moves cells around: every material keeps its number of
/// cells.
pub proof fn lemma_tick_conserves(snap: Seq<Material>, w: int, h: int, coins: Seq<bool>)
    requires
        w >= 0,
        h >= 0,
        snap.len() == w * h,
    ensures
        granular_tick(snap, w, h, coins).len() == snap.len(),
        granular_tick(snap, w, h, coins).to_multiset() == snap.to_multiset(),
{
    if h >= 1 {
        lemma_sweep_keeps(snap, w, h, coins, (h - 1) as nat);
    }
}

/// Over any sequence of ticks every material keeps its number of cells:
/// no sand is created or lost.
pub proof fn lemma_ticks_conserve(snap: Seq<Material>, w: int, h: int, ticks: Seq<Seq<bool>>)
    requires
        w >= 0,
        h >= 0,
        snap.len() == w * h,
    ensures
        granular_ticks(snap, w, h, ticks).len() == snap.len(),
        granular_ticks(snap, w, h, ticks).to_multiset() == snap.to_multiset(),
    decreases ticks.len(),
{
    if ticks.len() > 0 {
        let rest = ticks.drop_last();
        lemma_ticks_conserve(snap, w, h, rest);
        lemma_tick_conserves(granular_ticks(snap, w, h, rest), w, h, ticks.last());
    }
}

/// A material that the granular rule never moves and never moves into: solid,
/// not granular itself, and at least as dense as sand.
pub open spec fn unmoved(m: Material) -> bool {
    m != Material::Air && !m.granular() && m.density_of() >= Material::Sand.density_of()
}

proof fn lemma_step_keeps_unmoved(
    live: Seq<Material>,
    snap: Seq<Material>,
    w: int,
    h: int,
    coins: Seq<bool>,
    x: int,
    y: int,
    cx: int,
    cy: int,
)
    requires
        w >= 0,
        h >= 0,
        live.len() == w * h,
        in_bounds(cx, cy, w, h),
        unmoved(seq_at(snap, w, h, cx, cy)),
    ensures
        step_cell(live, snap, w, h, coins, x, y).len() == live.len(),
        step_cell(live, snap, w, h, coins, x, y)[cell_index(cx, cy, w)] == live[cell_index(cx, cy, w)],
{
    lemma_index_in_range(cx, cy, w, h);
    if let Some(t) = fall_target(snap, w, h, coins, x, y) {
        assert(seq_at(snap, w, h, x, y).granular());
        assert(in_bounds(x, y, w, h));
        if cell_index(x, y, w) == cell_index(cx, cy, w) {
            lemma_index_injective(x, y, cx, cy, w, h);
        }
        lemma_index_in_range(x, y, w, h);
        if in_bounds(t.0, t.1, w, h) {
            lemma_index_in_range(t.0, t.1, w, h);
            if cell_index(t.0, t.1, w) == cell_index(cx, cy, w) {
                lemma_index_injective(t.0, t.1, cx, cy, w, h);
            }
        }
    }
}

proof fn lemma_row_keeps_unmoved(
    live: Seq<Material>,
    snap: Seq<Material>,
    w: int,
    h: int,
    coins: Seq<bool>,
    y: int,
    n: nat,
    cx: int,
    cy: int,
)
    requires
        w >= 0,
        h >= 0,
        live.len() == w * h,
        in_bounds(cx, cy, w, h),
        unmoved(seq_at(snap, w, h, cx, cy)),
    ensures
        sweep_row(live, snap, w, h, coins, y, n).len() == live.len(),
        sweep_row(live, snap, w, h, coins, y, n)[cell_index(cx, cy, w)] == live[cell_index(cx, cy, w)],
    decreases n,
{
    if n > 0 {
        lemma_row_keeps_unmoved(live, snap, w, h, coins, y, (n - 1) as nat, cx, cy);
        lemma_step_keeps_unmoved(
            sweep_row(live, snap, w, h, coins, y, (n - 1) as nat),
            snap,
            w,
            h,
            coins,
            n - 1,
            y,
            cx,
            cy,
        );
    }
}

proof fn lemma_sweep_keeps_unmoved(
    snap: Seq<Material>,
    w: int,
    h: int,
    coins: Seq<bool>,
    k: nat,
    cx: int,
    cy: int,
)
    requires
        w >= 0,
        h >= 0,
        snap.len() == w * h,
        in_bounds(cx, cy, w, h),
        unmoved(seq_at(snap, w, h, cx, cy)),
    ensures
        sweep(snap, w, h, coins, k).len() == snap.len(),
        sweep(snap, w, h, coins, k)[cell_index(cx, cy, w)] == snap[cell_index(cx, cy, w)],
    decreases k,
{
    if k > 0 {
        lemma_sweep_keeps_unmoved(snap, w, h, coins, (k - 1) as nat, cx, cy);
        lemma_row_keeps_unmoved(
            sweep(snap, w, h, coins, (k - 1) as nat),
            snap,
            w,
            h,
            coins,
            h - 1 - k,
            w as nat,
            cx,
            cy,
        );
    }
}

/// Dirt, wood and fibre keep their place through a tick, whatever the
/// coins: sand never sinks through such a cell below it, nor moves into it.
pub proof fn lemma_unmoved_stays(
    snap: Seq<Material>,
    w: int,
    h: int,
    coins: Seq<bool>,
    x: int,
    y: int,
)
    requires
        w >= 0,
        h >= 0,
        snap.len() == w * h,
        unmoved(seq_at(snap, w, h, x, y)),
    ensures
        seq_at(granular_tick(snap, w, h, coins), w, h, x, y) == seq_at(snap, w, h, x, y),
{
    assert(in_bounds(x, y, w, h));
    if h >= 1 {
        lemma_sweep_keeps_unmoved(snap, w, h, coins, (h - 1) as nat, x, y);
    }
}

/// `snap` holds one granular cell, at `(x, y)`.
pub open spec fn lone_grain(snap: Seq<Material>, w: int, h: int, x: int, y: int) -> bool {
    &&& in_bounds(x, y, w, h)
    &&& seq_at(snap, w, h, x, y).granular()
    &&& forall|a: int, b: int|
        (a != x || b != y) ==> !(#[trigger] seq_at(snap, w, h, a, b)).granular()
}

proof fn lemma_row_lone(
    live: Seq<Material>,
    snap: Seq<Material>,
    w: int,
    h: int,
    coins: Seq<bool>,
    row: int,
    n: nat,
    x: int,
    y: int,
)
    requires
        lone_grain(snap, w, h, x, y),
        fall_target(snap, w, h, coins, x, y) == Some((x, y + 1)),
    ensures
        sweep_row(live, snap, w, h, coins, row, n) == if row == y && n > x {
            swap_cells(live, w, h, x, y, x, y + 1)
        } else {
            live
        },
    decreases n,
{
    if n > 0 {
        lemma_row_lone(live, snap, w, h, coins, row, (n - 1) as nat, x, y);
        let c = n - 1;
        if c != x || row != y {
            assert(!seq_at(snap, w, h, c, row).granular());
        }
    }
}

proof fn lemma_sweep_lone(
    snap: Seq<Material>,
    w: int,
    h: int,
    coins: Seq<bool>,
    k: nat,
    x: int,
    y: int,
)
    requires
        lone_grain(snap, w, h, x, y),
        fall_target(snap, w, h, coins, x, y) == Some((x, y + 1)),
    ensures
        sweep(snap, w, h, coins, k) == if k >= h - 1 - y {
            swap_cells(snap, w, h, x, y, x, y + 1)
        } else {
            snap
        },
    decreases k,
{
    if k > 0 {
        lemma_sweep_lone(snap, w, h, coins, (k - 1) as nat, x, y);
        let prev = sweep(snap, w, h, coins, (k - 1) as nat);
        lemma_row_lone(prev, snap, w, h, coins, h - 1 - k, w as nat, x, y);
        if k > h - 1 - y {
            assert(h - 1 - k != y);
        }
    }
}

/// A lone grain of sand with air below falls straight down one cell in a
/// tick, whatever the coins, leaving air behind; no other cell changes.
pub proof fn lemma_lone_sand_falls(
    snap: Seq<Material>,
    w: int,
    h: int,
    coins: Seq<bool>,
    x: int,
    y: int,
)
    requires
        snap.len() == w * h,
        lone_grain(snap, w, h, x, y),
        y + 1 < h,
        seq_at(snap, w, h, x, y + 1) == Material::Air,
    ensures
        granular_tick(snap, w, h, coins) == snap.update(cell_index(x, y, w), Material::Air).update(
            cell_index(x, y + 1, w),
            seq_at(snap, w, h, x, y),
        ),
{
    assert(fall_target(snap, w, h, coins, x, y) == Some((x, y + 1)));
    lemma_sweep_lone(snap, w, h, coins, (h - 1) as nat, x, y);
}

/// The value at `(a, b)` after the cell `(p, q)` has acted: the two cells of
/// its move trade places and every other cell keeps its value.
proof fn lemma_step_at(
    live: Seq<Material>,
    snap: Seq<Material>,
    w: int,
    h: int,
    coins: Seq<bool>,
    p: int,
    q: int,
    a: int,
    b: int,
)
    requires
        w >= 0,
        h >= 0,
        live.len() == w * h,
        in_bounds(a, b, w, h),
    ensures
        step_cell(live, snap, w, h, coins, p, q).len() == live.len(),
        seq_at(step_cell(live, snap, w, h, coins, p, q), w, h, a, b) == match fall_target(
            snap,
            w,
            h,
            coins,
            p,
            q,
        ) {
            None => seq_at(live, w, h, a, b),
            Some(t) => if a == p && b == q {
                seq_at(live, w, h, t.0, t.1)
            } else if a == t.0 && b == t.1 {
                seq_at(live, w, h, p, q)
            } else {
                seq_at(live, w, h, a, b)
            },
        },
{
    lemma_target_inside(snap, w, h, coins, p, q);
    lemma_index_in_range(a, b, w, h);
    if let Some(t) = fall_target(snap, w, h, coins, p, q) {
        lemma_index_in_range(p, q, w, h);
        lemma_index_in_range(t.0, t.1, w, h);
        if cell_index(a, b, w) == cell_index(p, q, w) {
            lemma_index_injective(a, b, p, q, w, h);
        }
        if cell_index(a, b, w) == cell_index(t.0, t.1, w) {
            lemma_index_injective(a, b, t.0, t.1, w, h);
        }
        if cell_index(p, q, w) == cell_index(t.0, t.1, w) {
            lemma_index_injective(p, q, t.0, t.1, w, h);
        }
    }
}

/// The grain at `(x, y)` has air below it in `snap`, the cell on its left
/// holds no grain, and no grain sits in the three cells above it.
pub open spec fn clear_fall(snap: Seq<Material>, w: int, h: int, x: int, y: int) -> bool {
    &&& in_bounds(x, y, w, h)
    &&& y + 1 < h
    &&& seq_at(snap, w, h, x, y).granular()
    &&& seq_at(snap, w, h, x, y + 1) == Material::Air
    &&& !seq_at(snap, w, h, x - 1, y).granular()
    &&& !seq_at(snap, w, h, x - 1, y - 1).granular()
    &&& !seq_at(snap, w, h, x, y - 1).granular()
    &&& !seq_at(snap, w, h, x + 1, y - 1).granular()
}

/// The grain still stands at `(x, y)` over air.
pub open spec fn not_fallen(live: Seq<Material>, snap: Seq<Material>, w: int, h: int, x: int, y: int) -> bool {
    seq_at(live, w, h, x, y) == seq_at(snap, w, h, x, y) && seq_at(live, w, h, x, y + 1)
        == Material::Air
}

/// The grain has moved from `(x, y)` to the cell below, leaving air.
pub open spec fn fallen(live: Seq<Material>, snap: Seq<Material>, w: int, h: int, x: int, y: int) -> bool {
    seq_at(live, w, h, x, y) == Material::Air && seq_at(live, w, h, x, y + 1) == seq_at(
        snap,
        w,
        h,
        x,
        y,
    )
}

/// The cells of row `y` from column `from` on still hold their values in `snap`.
pub open spec fn row_fresh(live: Seq<Material>, snap: Seq<Material>, w: int, h: int, y: int, from: int) -> bool {
    forall|p: int| from <= p < w ==> #[trigger] seq_at(live, w, h, p, y) == seq_at(snap, w, h, p, y)
}

proof fn lemma_row_fall(
    live: Seq<Material>,
    snap: Seq<Material>,
    w: int,
    h: int,
    coins: Seq<bool>,
    r: int,
    n: nat,
    x: int,
    y: int,
)
    requires
        w >= 0,
        h >= 0,
        live.len() == w * h,
        clear_fall(snap, w, h, x, y),
        n <= w,
        r > y ==> not_fallen(live, snap, w, h, x, y) && row_fresh(live, snap, w, h, y, 0),
        r == y ==> not_fallen(live, snap, w, h, x, y) && row_fresh(live, snap, w, h, y, 0),
        r < y ==> fallen(live, snap, w, h, x, y),
    ensures
        sweep_row(live, snap, w, h, coins, r, n).len() == live.len(),
        r > y ==> not_fallen(sweep_row(live, snap, w, h, coins, r, n), snap, w, h, x, y)
            && row_fresh(sweep_row(live, snap, w, h, coins, r, n), snap, w, h, y, 0),
        r == y && n <= x ==> not_fallen(sweep_row(live, snap, w, h, coins, r, n), snap, w, h, x, y)
            && row_fresh(sweep_row(live, snap, w, h, coins, r, n), snap, w, h, y, n as int),
        r == y && n > x ==> fallen(sweep_row(live, snap, w, h, coins, r, n), snap, w, h, x, y)
            && row_fresh(sweep_row(live, snap, w, h, coins, r, n), snap, w, h, y, n as int),
        r < y ==> fallen(sweep_row(live, snap, w, h, coins, r, n), snap, w, h, x, y),
    decreases n,
{
    if n > 0 {
        let m = (n - 1) as nat;
        lemma_row_fall(live, snap, w, h, coins, r, m, x, y);
        let prev = sweep_row(live, snap, w, h, coins, r, m);
        let p = m as int;
        let next = step_cell(prev, snap, w, h, coins, p, r);
        lemma_step_at(prev, snap, w, h, coins, p, r, x, y);
        lemma_step_at(prev, snap, w, h, coins, p, r, x, y + 1);
        lemma_target_inside(snap, w, h, coins, p, r);
        if r > y {
            // own cell in row r, target in row r + 1: row y is untouched
            assert(p != x || r != y + 1 || fall_target(snap, w, h, coins, p, r) is None);
            assert forall|c: int| 0 <= c < w implies #[trigger] seq_at(next, w, h, c, y) == seq_at(
                snap,
                w,
                h,
                c,
                y,
            ) by {
                lemma_step_at(prev, snap, w, h, coins, p, r, c, y);
            }
        } else if r == y {
            if p < x {
                assert(fall_target(snap, w, h, coins, p, r) matches Some(t) ==> t.1 == y + 1 && (
                t.0 != x || p == x - 1));
                assert(p == x - 1 ==> fall_target(snap, w, h, coins, p, r) is None);
            }
            if p == x {
                assert(fall_target(snap, w, h, coins, p, r) == Some((x, y + 1)));
            }
            if p > x {
                assert(seq_at(prev, w, h, p, y) == seq_at(snap, w, h, p, y));
            }
            assert forall|c: int| n <= c < w implies #[trigger] seq_at(next, w, h, c, y) == seq_at(
                snap,
                w,
                h,
                c,
                y,
            ) by {
                lemma_step_at(prev, snap, w, h, coins, p, r, c, y);
            }
        } else {
            if r == y - 1 {
                assert(fall_target(snap, w, h, coins, p, r) matches Some(t) ==> t.0 != x || t.1 != y);
            }
        }
    }
}

proof fn lemma_sweep_fall(snap: Seq<Material>, w: int, h: int, coins: Seq<bool>, k: nat, x: int, y: int)
    requires
        w >= 0,
        h >= 0,
        snap.len() == w * h,
        clear_fall(snap, w, h, x, y),
    ensures
        sweep(snap, w, h, coins, k).len() == snap.len(),
        h - 1 - k > y ==> not_fallen(sweep(snap, w, h, coins, k), snap, w, h, x, y) && row_fresh(
            sweep(snap, w, h, coins, k),
            snap,
            w,
            h,
            y,
            0,
        ),
        h - 1 - k <= y ==> fallen(sweep(snap, w, h, coins, k), snap, w, h, x, y),
    decreases k,
{
    if k > 0 {
        lemma_sweep_fall(snap, w, h, coins, (k - 1) as nat, x, y);
        lemma_row_fall(
            sweep(snap, w, h, coins, (k - 1) as nat),
            snap,
            w,
            h,
            coins,
            h - 1 - k,
            w as nat,
            x,
            y,
        );
    }
}

/// A grain with air below falls straight down one cell in a tick, whatever
/// the coins, provided no grain on its left or in the three cells above it
/// could move into its path.
pub proof fn lemma_sand_falls_straight(
    snap: Seq<Material>,
    w: int,
    h: int,
    coins: Seq<bool>,
    x: int,
    y: int,
)
    requires
        snap.len() == w * h,
        clear_fall(snap, w, h, x, y),
    ensures
        seq_at(granular_tick(snap, w, h, coins), w, h, x, y) == Material::Air,
        seq_at(granular_tick(snap, w, h, coins), w, h, x, y + 1) == seq_at(snap, w, h, x, y),
{
    lemma_sweep_fall(snap, w, h, coins, (h - 1) as nat, x, y);
}

fn read_cell(snap: &Vec<Material>, w: usize, h: usize, x: i64, y: i64) -> (r: Material)
    requires
        snap@.len() == w * h,
        w * h <= usize::MAX,
        w <= i32::MAX,
        h <= i32::MAX,
    ensures
        r == seq_at(snap@, w as int, h as int, x as int, y as int),
{
    if x < 0 || y < 0 || x >= w as i64 || y >= h as i64 {
        return Material::Air;
    }
    proof {
        lemma_index_in_range(x as int, y as int, w as int, h as int);
    }
    snap[y as usize * w + x as usize]
}

fn decide_fall(snap: &Vec<Material>, w: usize, h: usize, coins: &Vec<bool>, x: i64, y: i64) -> (r:
    Option<(i64, i64)>)
    requires
        snap@.len() == w * h,
        coins@.len() == w * h,
        w * h <= usize::MAX,
        w <= i32::MAX,
        h <= i32::MAX,
        in_bounds(x as int, y as int, w as int, h as int),
    ensures
        r matches Some(t) ==> fall_target(snap@, w as int, h as int, coins@, x as int, y as int)
            == Some((t.0 as int, t.1 as int)) && t.1 == y + 1 && x - 1 <= t.0 <= x + 1,
        r is None ==> fall_target(snap@, w as int, h as int, coins@, x as int, y as int) is None,
{
    let m = read_cell(snap, w, h, x, y);
    if !m.is_granular() || y + 1 >= h as i64 {
        return None;
    }
    let below = read_cell(snap, w, h, x, y + 1);
    if below == Material::Air || below.density() < m.density() {
        return Some((x, y + 1));
    }
    proof {
        lemma_index_in_range(x as int, y as int, w as int, h as int);
    }
    let dx: i64 = if coins[y as usize * w + x as usize] {
        -1
    } else {
        1
    };
    let nx = x + dx;
    if nx >= 0 && nx < w as i64 && read_cell(snap, w, h, nx, y + 1) == Material::Air {
        Some((nx, y + 1))
    } else {
        None
    }
}

impl PixelWorld {
    fn copy_cells(&self) -> (r: Vec<Material>)
        requires
            self.wf(),
        ensures
            r@ == self.cells(),
    {
        let mut r: Vec<Material> = Vec::new();
        let mut i: usize = 0;
        while i < self.pixels.len()
            invariant
                i <= self.pixels@.len(),
                r@ == self.pixels@.subrange(0, i as int),
            decreases self.pixels@.len() - i,
        {
            r.push(self.pixels[i]);
            i += 1;
            assert(r@ =~= self.pixels@.subrange(0, i as int));
        }
        assert(r@ =~= self.pixels@);
        r
    }

    /// Exchanges the cells `(x, y)` and `(tx, ty)`; a side outside the grid
    /// reads as air and ignores the write.
    fn swap(&mut self, x: i64, y: i64, tx: i64, ty: i64)
        requires
            old(self).wf(),
            in_bounds(x as int, y as int, old(self).w(), old(self).h()),
            -1 <= tx <= i32::MAX,
            0 <= ty <= i32::MAX,
        ensures
            final(self).wf(),
            final(self).w() == old(self).w(),
            final(self).h() == old(self).h(),
            old(self).dirty_follows(&*final(self)),
            final(self).cells() == swap_cells(
                old(self).cells(),
                old(self).w(),
                old(self).h(),
                x as int,
                y as int,
                tx as int,
                ty as int,
            ),
    {
        let a = self.get(x as i32, y as i32);
        let b = self.get(tx as i32, ty as i32);
        let ghost g0 = *self;
        self.set(x as i32, y as i32, b);
        let ghost g1 = *self;
        self.set(tx as i32, ty as i32, a);
        proof {
            g0.lemma_written_dirty(&g1, |px: int, py: int| px == (x as i32) as int && py == (y as i32) as int, b);
            g1.lemma_written_dirty(self, |px: int, py: int| px == (tx as i32) as int && py == (ty as i32) as int, a);
            g0.lemma_dirty_follows_trans(&g1, self);
        }
    }

    /// One tick of the granular rule: every decision is read from the cells
    /// as they were when the tick began, rows from the one above the bottom
    /// upward, each left to right; a move exchanges the two live cells.
    /// `coins[i]` sends the cell with index `i` left rather than right when it
    /// tries a diagonal.
    pub fn update_sand_with(&mut self, coins: &Vec<bool>)
        requires
            old(self).wf(),
            coins@.len() == old(self).w() * old(self).h(),
        ensures
            final(self).wf(),
            final(self).w() == old(self).w(),
            final(self).h() == old(self).h(),
            final(self).cells() == granular_tick(
                old(self).cells(),
                old(self).w(),
                old(self).h(),
                coins@,
            ),
            final(self).cells().to_multiset() == old(self).cells().to_multiset(),
            old(self).dirty_follows(&*final(self)),
    {
        let ghost start = *self;
        proof {
            lemma_tick_conserves(self.cells(), self.w(), self.h(), coins@);
        }
        let w = self.width;
        let h = self.height;
        if h < 2 {
            proof {
                if h == 1 {
                    assert(sweep(self.cells(), w as int, h as int, coins@, 0) == self.cells());
                }
            }
            return;
        }
        let snap = self.copy_cells();
        let mut k: usize = 0;
        while k < h - 1
            invariant
                self.wf(),
                self.width == w,
                self.height == h,
                h >= 2,
                k <= h - 1,
                snap@ == old(self).cells(),
                snap@.len() == w * h,
                coins@.len() == w * h,
                self.cells() == sweep(snap@, w as int, h as int, coins@, k as nat),
                start == *old(self),
                start.wf(),
                start.w() == w,
                start.h() == h,
                start.dirty_follows(self),
            decreases h - 1 - k,
        {
            let y = (h - 2 - k) as i64;
            let ghost row_start = self.cells();
            let mut x: usize = 0;
            while x < w
                invariant
                    self.wf(),
                    self.width == w,
                    self.height == h,
                    h >= 2,
                    k < h - 1,
                    y == h - 2 - k,
                    x <= w,
                    snap@ == old(self).cells(),
                    snap@.len() == w * h,
                    coins@.len() == w * h,
                    row_start == sweep(snap@, w as int, h as int, coins@, k as nat),
                    self.cells() == sweep_row(
                        row_start,
                        snap@,
                        w as int,
                        h as int,
                        coins@,
                        y as int,
                        x as nat,
                    ),
                    start.wf(),
                    start.w() == w,
                    start.h() == h,
                    start.dirty_follows(self),
                decreases w - x,
            {
                let ghost before = self.cells();
                let ghost g_before = *self;
                match decide_fall(&snap, w, h, coins, x as i64, y) {
                    Some(t) => {
                        self.swap(x as i64, y, t.0, t.1);
                        proof {
                            start.lemma_dirty_follows_trans(&g_before, self);
                        }
                    },
                    None => {},
                }
                assert(self.cells() == step_cell(
                    before,
                    snap@,
                    w as int,
                    h as int,
                    coins@,
                    x as int,
                    y as int,
                ));
                x += 1;
            }
            assert(sweep(snap@, w as int, h as int, coins@, (k + 1) as nat) == sweep_row(
                row_start,
                snap@,
                w as int,
                h as int,
                coins@,
                y as int,
                w as nat,
            ));
            k += 1;
        }
    }
}

} // verus!
