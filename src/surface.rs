use vstd::prelude::*;

use crate::grid::PixelWorld;

verus! {

/// `y` is the topmost ground row of column `x`.
pub open spec fn is_top_ground(g: PixelWorld, x: int, y: int) -> bool {
    0 <= y < g.h() && g.at(x, y).ground() && forall|z: int| 0 <= z < y ==> !#[trigger] g.at(x, z).ground()
}

/// `h` is what a scan of column `x` from the top finds: the row of its
/// topmost ground cell (dirt or sand), or nothing when it holds no ground.
pub open spec fn surface_of(g: PixelWorld, x: int, h: Option<i32>) -> bool {
    match h {
        Some(y) => is_top_ground(g, x, y as int),
        None => forall|y: int| 0 <= y < g.h() ==> !#[trigger] g.at(x, y).ground(),
    }
}

/// `[a, b)` is a maximal run of equal surface heights in `hs`, all present.
pub open spec fn maximal_run(hs: Seq<Option<i32>>, a: int, b: int) -> bool {
    &&& 0 <= a < b <= hs.len()
    &&& hs[a] is Some
    &&& forall|i: int| a <= i < b ==> #[trigger] hs[i] == hs[a]
    &&& (a == 0 || hs[a - 1] != hs[a])
    &&& (b == hs.len() || hs[b] != hs[a])
}

/// A flat stretch of surface: sampled columns `start` up to `end`
/// (exclusive), all with their topmost ground in row `row`.
#[derive(Clone, Copy, Debug)]
pub struct SurfaceSpan {
    pub start: usize,
    pub end: usize,
    pub row: i32,
}

fn same_height(a: Option<i32>, b: Option<i32>) -> (r: bool)
    ensures
        r == (a == b),
{
    match (a, b) {
        (Some(x), Some(y)) => x == y,
        (None, None) => true,
        _ => false,
    }
}

impl PixelWorld {
    /// The topmost ground row of column `x`, if the column holds ground.
    fn column_top(&self, x: usize) -> (r: Option<i32>)
        requires
            self.wf(),
            x < self.w(),
        ensures
            surface_of(*self, x as int, r),
    {
        let mut y: usize = 0;
        while y < self.height
            invariant
                self.wf(),
                x < self.w(),
                y <= self.h(),
                forall|z: int| 0 <= z < y ==> !#[trigger] self.at(x as int, z).ground(),
            decreases self.h() - y,
        {
            if self.get(x as i32, y as i32).is_ground() {
                return Some(y as i32);
            }
            y += 1;
        }
        None
    }

    /// The topmost ground row of every `step`-th column, from column zero.
    pub fn surface_heights(&self, step: usize) -> (r: Vec<Option<i32>>)
        requires
            self.wf(),
            step >= 1,
        ensures
            forall|k: int| 0 <= k < r@.len() ==> 0 <= #[trigger] (k * step) < self.w(),
            r@.len() * step >= self.w(),
            forall|k: int| 0 <= k < r@.len() ==> surface_of(*self, k * step, #[trigger] r@[k]),
    {
        let mut r: Vec<Option<i32>> = Vec::new();
        let mut x: usize = 0;
        while x < self.width
            invariant
                self.wf(),
                step >= 1,
                x == r@.len() * step || (x == self.w() && r@.len() * step >= self.w()),
                forall|k: int| 0 <= k < r@.len() ==> 0 <= #[trigger] (k * step) < self.w(),
                forall|k: int| 0 <= k < r@.len() ==> surface_of(*self, k * step, #[trigger] r@[k]),
            decreases self.w() - x,
        {
            let ghost k = r@.len() as int;
            let found = self.column_top(x);
            r.push(found);
            proof {
                assert(k * step == x);
                assert(r@.len() * step == k * step + step) by (nonlinear_arith)
                    requires
                        r@.len() == k + 1,
                ;
                assert forall|j: int| 0 <= j < r@.len() implies surface_of(*self, j * step, #[trigger] r@[j]) by {
                    if j == k {
                        assert(j * step == x);
                    }
                }
            }
            if self.width - x <= step {
                x = self.width;
            } else {
                x = x + step;
            }
        }
        r
    }
}

/// The maximal runs of at least `min_len` equal surface heights in `hs`,
/// left to right; columns without ground break runs and form none.
pub fn surface_spans(hs: &Vec<Option<i32>>, min_len: usize) -> (r: Vec<SurfaceSpan>)
    ensures
        forall|k: int|
            0 <= k < r@.len() ==> maximal_run(hs@, (#[trigger] r@[k]).start as int, r@[k].end as int)
                && hs@[r@[k].start as int] == Some(r@[k].row) && r@[k].end - r@[k].start >= min_len,
        forall|k1: int, k2: int|
            0 <= k1 < k2 < r@.len() ==> (#[trigger] r@[k1]).end <= (#[trigger] r@[k2]).start,
        forall|a: int, b: int|
            #[trigger] maximal_run(hs@, a, b) && b - a >= min_len ==> exists|k: int|
                0 <= k < r@.len() && (#[trigger] r@[k]).start == a && r@[k].end == b,
{
    let n = hs.len();
    let mut r: Vec<SurfaceSpan> = Vec::new();
    let mut i: usize = 0;
    while i < n
        invariant
            n == hs@.len(),
            i <= n,
            i == 0 || hs@[i - 1] != hs@[i as int] || i == n,
            forall|k: int|
                0 <= k < r@.len() ==> maximal_run(hs@, (#[trigger] r@[k]).start as int, r@[k].end as int)
                    && hs@[r@[k].start as int] == Some(r@[k].row) && r@[k].end - r@[k].start >= min_len
                    && r@[k].end <= i,
            forall|k1: int, k2: int|
                0 <= k1 < k2 < r@.len() ==> (#[trigger] r@[k1]).end <= (#[trigger] r@[k2]).start,
            forall|a: int, b: int|
                #[trigger] maximal_run(hs@, a, b) && b - a >= min_len && b <= i ==> exists|k: int|
                    0 <= k < r@.len() && (#[trigger] r@[k]).start == a && r@[k].end == b,
            forall|a: int, b: int| #[trigger] maximal_run(hs@, a, b) && a < i ==> b <= i,
        decreases n - i,
    {
        let mut j: usize = i + 1;
        while j < n && same_height(hs[j], hs[i])
            invariant
                n == hs@.len(),
                i < j <= n,
                forall|q: int| i <= q < j ==> #[trigger] hs@[q] == hs@[i as int],
            decreases n - j,
        {
            j += 1;
        }
        let ghost before = r@;
        proof {
            assert(j == n || hs@[j as int] != hs@[i as int]);
        }
        match hs[i] {
            Some(row) => {
                if j - i >= min_len {
                    r.push(SurfaceSpan { start: i, end: j, row });
                    proof {
                        assert(maximal_run(hs@, i as int, j as int));
                    }
                }
            },
            None => {},
        }
        proof {
            assert forall|k: int| 0 <= k < before.len() implies r@[k] == before[k] by {}
            assert forall|a: int, b: int|
                #[trigger] maximal_run(hs@, a, b) && a < j implies b <= j by {
                if a >= i {
                    if b > j {
                        assert(hs@[j as int] == hs@[a]);
                        assert(hs@[a] == hs@[i as int]);
                    }
                } else {
                    assert(b <= i);
                }
            }
            assert forall|a: int, b: int|
                #[trigger] maximal_run(hs@, a, b) && b - a >= min_len && b <= j implies exists|k: int|
                    0 <= k < r@.len() && (#[trigger] r@[k]).start == a && r@[k].end == b by {
                if b <= i {
                    let k = choose|k: int|
                        0 <= k < before.len() && (#[trigger] before[k]).start == a && before[k].end == b;
                    assert(r@[k] == before[k]);
                } else {
                    // the run overlaps [i, j): it starts at i
                    if a < i {
                        assert(b <= i);
                    }
                    if a > i {
                        assert(hs@[a - 1] == hs@[i as int]);
                        assert(hs@[a] == hs@[i as int]);
                    }
                    assert(a == i);
                    if b < j {
                        assert(hs@[b] == hs@[i as int]);
                    }
                    assert(b == j);
                    assert(r@[before.len() as int].start == a);
                }
            }
        }
        i = j;
    }
    r
}

} // verus!
